//! What the tokens of a source text say, told by the characters they are made of.
use crate::lexer::{
    decimal, has, has_digit, holds, in_class, is_digit, is_letter, keyword, lexed, number_at,
    pauli_code, pauli_from, pauli_letter, piece, reference_at, scan, span_end, top_from, word_at,
    Class, LexEnd, LexResult, Lexeme, Piece, Token,
};
use crate::words::{is_word, law_keywords_are_recognised, letters};
use vstd::arithmetic::power::{lemma_pow0, pow};
use vstd::prelude::*;

verus! {

/// The number that digits denote: each digit counts by its place.
pub open spec fn number_of(digits: Seq<u8>) -> int
    decreases digits.len(),
{
    if digits.len() == 0 {
        0
    } else {
        (digits[0] - 48) * pow(10, (digits.len() - 1) as nat) + number_of(digits.drop_first())
    }
}

proof fn lemma_number_pushed(digits: Seq<u8>, d: u8)
    ensures
        number_of(digits.push(d)) == 10 * number_of(digits) + (d - 48),
    decreases digits.len(),
{
    let more = digits.push(d);
    reveal(pow);
    if digits.len() == 0 {
        assert(more.drop_first() =~= Seq::empty());
        lemma_pow0(10);
        assert(number_of(more.drop_first()) == 0);
    } else {
        let rest = digits.drop_first();
        assert(more.drop_first() =~= rest.push(d));
        lemma_number_pushed(rest, d);
        let n = digits.len() as nat;
        assert(pow(10, n) == 10 * pow(10, (n - 1) as nat));
        let (x, y) = (digits[0] - 48, pow(10, (n - 1) as nat));
        assert(x * (10 * y) == 10 * (x * y)) by (nonlinear_arith);
    }
}

/// Reading digits one by one gives the number they denote.
proof fn lemma_decimal(s: Seq<u8>, i: int, j: int)
    requires
        0 <= i <= j <= s.len(),
        forall|k: int| i <= k < j ==> is_digit(#[trigger] s[k]),
    ensures
        decimal(s, i, j) == number_of(s.subrange(i, j)),
    decreases j - i,
{
    if i < j {
        lemma_decimal(s, i, j - 1);
        assert(s.subrange(i, j) =~= s.subrange(i, j - 1).push(s[j - 1]));
        assert(is_digit(s[j - 1]));
        lemma_number_pushed(s.subrange(i, j - 1), s[j - 1]);
    }
}

/// Whether `s[i..j]` is a stretch of decimal digits that goes no further.
pub open spec fn digits(s: Seq<u8>, i: int, j: int) -> bool {
    &&& 0 <= i < j <= s.len()
    &&& forall|k: int| i <= k < j ==> 48 <= #[trigger] s[k] <= 57
    &&& j < s.len() ==> !(48 <= s[j] <= 57)
}

/// Letters, digits and the underscore.
pub open spec fn word_byte(b: u8) -> bool {
    65 <= b <= 90 || 97 <= b <= 122 || 48 <= b <= 57 || b == 95
}

/// Whether `s[i..j]` is a word that starts with a letter and goes no further.
pub open spec fn word(s: Seq<u8>, i: int, j: int) -> bool {
    &&& 0 <= i < j <= s.len()
    &&& 65 <= s[i] <= 90 || 97 <= s[i] <= 122
    &&& forall|k: int| i <= k < j ==> word_byte(#[trigger] s[k])
    &&& j < s.len() ==> !word_byte(s[j])
}

/// Whether the characters `s[i..j]` are the token.
pub open spec fn says(s: Seq<u8>, i: int, j: int, t: Token) -> bool {
    &&& 0 <= i < j <= s.len()
    &&& match t {
        Token::Number(n) => {
            &&& digits(s, i, j)
            &&& n == number_of(s.subrange(i, j))
            &&& !(j + 1 < s.len() && s[j] == 46 && 48 <= s[j + 1] <= 57)
        },
        Token::Float(l) => {
            let m = l.frac_start - 1;
            &&& digits(s, i, m)
            &&& s[m] == 46
            &&& digits(s, m + 1, j)
            &&& l.whole == number_of(s.subrange(i, m))
            &&& l.frac_start + l.frac_len == j
            &&& !l.negative
        },
        Token::ClassicalRef(n) => {
            &&& s[i] == 99
            &&& digits(s, i + 1, j)
            &&& n == number_of(s.subrange(i + 1, j))
        },
        Token::Pauli(code) => word(s, i, j) && pauli_code(s.subrange(i, j)) == Some(code),
        Token::Ident => {
            &&& word(s, i, j)
            &&& !(s[i] == 99 && i + 1 < j && 48 <= s[i + 1] <= 57)
            &&& pauli_code(s.subrange(i, j)) is None
            &&& forall|u: Token| #[trigger] is_word(u) ==> s.subrange(i, j) != letters(u)
        },
        Token::Arrow => s.subrange(i, j) =~= seq![45u8, 62],
        Token::Minus => s.subrange(i, j) =~= seq![45u8] && !(j < s.len() && s[j] == 62),
        Token::Equals => s.subrange(i, j) =~= seq![61u8, 61] || s.subrange(i, j) =~= seq![61u8] && !(
        j < s.len() && s[j] == 61),
        Token::Ne => s.subrange(i, j) =~= seq![33u8, 61],
        _ => word(s, i, j) && is_word(t) && s.subrange(i, j) == letters(t),
    }
}

/// Whether the number of the digits `s[i..j]` does not fit: 64 bits in front of a point and
/// further digits, else 32 bits.
pub open spec fn too_large(s: Seq<u8>, i: int, j: int) -> bool {
    if j + 1 < s.len() && s[j] == 46 && 48 <= s[j + 1] <= 57 && (i == 0 || s[i - 1] != 99) {
        number_of(s.subrange(i, j)) >= 0x1_0000_0000_0000_0000
    } else {
        number_of(s.subrange(i, j)) >= 0x1_0000_0000
    }
}

proof fn lemma_span(s: Seq<u8>, i: int, c: Class)
    requires
        0 <= i <= s.len(),
    ensures
        ({
            let j = span_end(s, i, c);
            &&& i <= j <= s.len()
            &&& forall|k: int| i <= k < j ==> in_class(#[trigger] s[k], c)
            &&& j < s.len() ==> !in_class(s[j], c)
        }),
    decreases s.len() - i,
{
    if i < s.len() && in_class(s[i], c) {
        lemma_span(s, i + 1, c);
    }
}

proof fn lemma_number_says(s: Seq<u8>, i: int)
    requires
        0 <= i < s.len() <= usize::MAX,
        is_digit(s[i]),
    ensures
        match number_at(s, i) {
            Piece::Lexeme(t, j) => says(s, i, j as int, t) && (t is Number || t is Float),
            Piece::Huge => exists|j: int| #[trigger]
                digits(s, i, j) && (if j + 1 < s.len() && s[j] == 46 && 48 <= s[j + 1] <= 57 {
                    number_of(s.subrange(i, j)) >= 0x1_0000_0000_0000_0000
                } else {
                    number_of(s.subrange(i, j)) >= 0x1_0000_0000
                }),
            _ => false,
        },
{
    let j = span_end(s, i, Class::Digit);
    lemma_span(s, i, Class::Digit);
    lemma_decimal(s, i, j);
    assert(digits(s, i, j)) by {
        if j == i {
            assert(in_class(s[i], Class::Digit));
        }
        assert forall|k: int| i <= k < j implies 48 <= #[trigger] s[k] <= 57 by {
            assert(in_class(s[k], Class::Digit));
        }
    }
    if has(s, j, 46) && has_digit(s, j + 1) {
        let k = span_end(s, j + 1, Class::Digit);
        lemma_span(s, j + 1, Class::Digit);
        assert(digits(s, j + 1, k)) by {
            if k == j + 1 {
                assert(in_class(s[k], Class::Digit));
            }
            assert forall|m: int| j + 1 <= m < k implies 48 <= #[trigger] s[m] <= 57 by {
                assert(in_class(s[m], Class::Digit));
            }
        }
    }
}

proof fn lemma_reference_says(s: Seq<u8>, i: int)
    requires
        0 <= i < s.len() <= usize::MAX,
        s[i] == 99,
        has_digit(s, i + 1),
    ensures
        match reference_at(s, i) {
            Piece::Lexeme(t, j) => says(s, i, j as int, t) && t is ClassicalRef,
            Piece::Huge => exists|j: int| #[trigger]
                digits(s, i + 1, j) && number_of(s.subrange(i + 1, j)) >= 0x1_0000_0000,
            _ => false,
        },
{
    let j = span_end(s, i + 1, Class::Digit);
    lemma_span(s, i + 1, Class::Digit);
    lemma_decimal(s, i + 1, j);
    assert(digits(s, i + 1, j)) by {
        if j == i + 1 {
            assert(in_class(s[j], Class::Digit));
        }
        assert forall|m: int| i + 1 <= m < j implies 48 <= #[trigger] s[m] <= 57 by {
            assert(in_class(s[m], Class::Digit));
        }
    }
}

proof fn lemma_word_says(s: Seq<u8>, i: int)
    requires
        0 <= i < s.len() <= usize::MAX,
        is_letter(s[i]),
        !(s[i] == 99 && has_digit(s, i + 1)),
    ensures
        word_at(s, i) matches Piece::Lexeme(t, j) && says(s, i, j as int, t) && (t is Pauli || t
            is Ident || is_word(t)),
{
    let j = span_end(s, i, Class::Word);
    lemma_span(s, i, Class::Word);
    assert(word(s, i, j)) by {
        if j == i {
            assert(in_class(s[i], Class::Word));
        }
        assert forall|k: int| i <= k < j implies word_byte(#[trigger] s[k]) by {
            assert(in_class(s[k], Class::Word));
        }
    }
    let w = s.subrange(i, j);
    lemma_keyword_is_word(w);
    if keyword(w) == Token::Error {
        assert forall|u: Token| #[trigger] is_word(u) implies w != letters(u) by {
            crate::words::lemma_letters(u);
            reveal(crate::words::is_keyword_of);
        }
    }
}

proof fn lemma_keyword_is_word(w: Seq<u8>)
    ensures
        keyword(w) != Token::Error ==> is_word(keyword(w)) && w == letters(keyword(w)),
{
    law_keywords_are_recognised(keyword(w), w);
}

/// Every token says what stands in the text: numbers are written in decimal digits, a
/// reference is `c` and a number, words are taken as long as they go, keywords are spelled
/// by their letters, and a name is a word that is neither a keyword nor a Pauli product.
/// Only a number that is too large, or a character that starts no token, ends the cutting.
pub proof fn law_tokens_say_what_is_written(s: Seq<u8>, i: int)
    requires
        0 <= i < s.len() <= usize::MAX,
    ensures
        match piece(s, i) {
            Piece::Lexeme(t, j) => says(s, i, j as int, t),
            Piece::Huge => exists|k: int, j: int|
                i <= k <= i + 1 && #[trigger] digits(s, k, j) && too_large(s, k, j) && (k == i + 1
                    ==> s[i] == 99),
            Piece::Bad => {
                let next = if i + 1 < s.len() {
                    s[i + 1]
                } else {
                    0
                };
                &&& !word_byte(s[i]) || s[i] == 95
                &&& s[i] != 32 && s[i] != 9 && s[i] != 13 && s[i] != 10
                &&& s[i] != 45 && s[i] != 61
                &&& !(s[i] == 33 && next == 61)
                &&& !(s[i] == 47 && next == 47)
            },
            Piece::Break => s[i] == 10,
            Piece::Skip(j) => s[i] == 32 || s[i] == 9 || s[i] == 13 || s[i] == 47 && i + 1 < s.len()
                && s[i + 1] == 47,
        },
{
    let b = s[i];
    if is_digit(b) {
        lemma_number_says(s, i);
        if number_at(s, i) is Huge {
            let j = choose|j: int| #[trigger]
                digits(s, i, j) && (if j + 1 < s.len() && s[j] == 46 && 48 <= s[j + 1] <= 57 {
                    number_of(s.subrange(i, j)) >= 0x1_0000_0000_0000_0000
                } else {
                    number_of(s.subrange(i, j)) >= 0x1_0000_0000
                });
            assert(digits(s, i, j));
        }
    } else if b == 99 && has_digit(s, i + 1) {
        lemma_reference_says(s, i);
        if reference_at(s, i) is Huge {
            let j = choose|j: int| #[trigger]
                digits(s, i + 1, j) && number_of(s.subrange(i + 1, j)) >= 0x1_0000_0000;
            assert(digits(s, i + 1, j));
        }
    } else if is_letter(b) {
        lemma_word_says(s, i);
    }
}

/// Blanks and comments separate tokens and leave no trace but in the columns; a comment
/// goes to the end of its line. A line feed is a token of its own and starts the next line.
pub proof fn law_blanks_and_comments_are_skipped(
    s: Seq<u8>,
    i: int,
    e: int,
    line: nat,
    col: nat,
    room: nat,
    free: nat,
)
    requires
        0 <= i < e <= s.len() <= usize::MAX,
        room > 0,
    ensures
        (s[i] == 32 || s[i] == 9 || s[i] == 13) ==> scan(s, i, line, col, room, free) == scan(
            s,
            i + 1,
            line,
            col + 1,
            room,
            free,
        ),
        (s[i] == 47 && i + 1 < s.len() && s[i + 1] == 47 && (forall|k: int|
            i <= k < e ==> #[trigger] s[k] != 10) && (e < s.len() ==> s[e] == 10)) ==> scan(
            s,
            i,
            line,
            col,
            room,
            free,
        ) == scan(s, e, line, (col + e - i) as nat, room, free),
        s[i] == 10 ==> {
            let rest = scan(s, i + 1, line + 1, 1, (room - 1) as nat, free);
            let all = scan(s, i, line, col, room, free);
            &&& all.1 == rest.1
            &&& all.0.len() == rest.0.len() + 1
            &&& all.0.drop_first() == rest.0
            &&& all.0[0].token == Token::Newline
            &&& all.0[0].line == line
            &&& all.0[0].col == col
        },
{
    if s[i] == 47 && i + 1 < s.len() && s[i + 1] == 47 && (forall|k: int|
        i <= k < e ==> #[trigger] s[k] != 10) && (e < s.len() ==> s[e] == 10) {
        lemma_span(s, i, Class::Line);
        let j = span_end(s, i, Class::Line);
        if j < e {
            assert(!in_class(s[j], Class::Line));
        }
        if j > e {
            assert(in_class(s[e], Class::Line));
        }
    }
    if s[i] == 10 {
        let rest = scan(s, i + 1, line + 1, 1, (room - 1) as nat, free);
        assert(scan(s, i, line, col, room, free).0.drop_first() =~= rest.0);
    }
}

/// Tokens follow each other: a token is listed with its place and its characters, and
/// cutting goes on right behind it, in the same line.
pub proof fn law_tokens_follow_each_other(
    s: Seq<u8>,
    i: int,
    line: nat,
    col: nat,
    room: nat,
    free: nat,
)
    requires
        0 <= i < s.len() <= usize::MAX,
        room > 0,
    ensures
        piece(s, i) matches Piece::Lexeme(t, j) ==> (t != Token::Ident || j - i <= free) ==> {
            let rest = scan(
                s,
                j as int,
                line,
                (col + j - i) as nat,
                (room - 1) as nat,
                if t == Token::Ident {
                    (free - (j - i)) as nat
                } else {
                    free
                },
            );
            let all = scan(s, i, line, col, room, free);
            &&& all.1 == rest.1
            &&& all.0.len() == rest.0.len() + 1
            &&& all.0.drop_first() == rest.0
            &&& all.0[0].token == t
            &&& all.0[0].line == line
            &&& all.0[0].col == col
            &&& all.0[0].text == s.subrange(i, j as int)
        },
{
    law_tokens_say_what_is_written(s, i);
    if let Piece::Lexeme(t, j) = piece(s, i) {
        let used = if t == Token::Ident {
            (j - i) as nat
        } else {
            0
        };
        if used <= free {
            let rest = scan(
                s,
                j as int,
                line,
                (col + j - i) as nat,
                (room - 1) as nat,
                (free - used) as nat,
            );
            assert(scan(s, i, line, col, room, free).0.drop_first() =~= rest.0);
        }
    }
}

proof fn lemma_joined(a: u64, b: u64, c: u64)
    by (bit_vector)
    ensures
        (a | b) | c == a | (b | c),
        a | b == b | a,
        0 | a == a,
{
}

proof fn lemma_pauli_joins(w: Seq<u8>, i: int, code: u64)
    requires
        0 <= i,
    ensures
        pauli_from(w, i, code) == match pauli_from(w, i, 0) {
            Some(c) => Some(code | c),
            None => None,
        },
    decreases w.len() - i,
{
    if i >= w.len() {
        lemma_joined(code, 0, 0);
        lemma_joined(0, code, 0);
    } else if let Some(p) = pauli_letter(w[i]) {
        let j = span_end(w, i + 1, Class::Digit);
        let q = decimal(w, i + 1, j);
        if i + 1 < j <= w.len() && q <= 31 {
            let l = p << (2 * q) as u64;
            lemma_pauli_joins(w, j, code | l);
            lemma_pauli_joins(w, j, 0 | l);
            lemma_joined(l, 0, 0);
            if let Some(c) = pauli_from(w, j, 0) {
                lemma_joined(code, l, c);
            }
        }
    }
}

/// The code of a letter: I, X, Y and Z are 0, 1, 2 and 3.
pub open spec fn letter_code(b: u8) -> u64 {
    if b == 88 {
        1
    } else if b == 89 {
        2
    } else if b == 90 {
        3
    } else {
        0
    }
}

/// A Pauli product is read term by term: a term is one of the letters I, X, Y and Z and the
/// number of a qubit, at most 31; it puts the code of the letter at the two bits of the
/// qubit, joined with the terms behind it, and the highest qubit counts. Anything else is
/// no product.
pub proof fn law_products_are_read_term_by_term(w: Seq<u8>, i: int, j: int)
    requires
        0 <= i < w.len() <= usize::MAX,
        i < j <= w.len(),
        forall|k: int| i < k < j ==> 48 <= #[trigger] w[k] <= 57,
        j < w.len() ==> !(48 <= w[j] <= 57),
    ensures
        ({
            let q = number_of(w.subrange(i + 1, j));
            let fine = (w[i] == 73 || w[i] == 88 || w[i] == 89 || w[i] == 90) && j > i + 1 && 0
                <= q <= 31;
            &&& pauli_from(w, i, 0) == match pauli_from(w, j, 0) {
                Some(rest) => if fine {
                    Some((letter_code(w[i]) << ((2 * q) as u64)) | rest)
                } else {
                    None
                },
                None => None,
            }
            &&& top_from(w, i, 0) == if q > top_from(w, j, 0) {
                q as nat
            } else {
                top_from(w, j, 0)
            }
        }),
        pauli_from(w, w.len() as int, 0) == Some(0u64),
        w.len() > 0 ==> pauli_code(w) == pauli_from(w, 0, 0),
        pauli_code(Seq::empty()) is None,
{
    lemma_span(w, i + 1, Class::Digit);
    let e = span_end(w, i + 1, Class::Digit);
    if e < j {
        assert(is_digit(w[e]));
    }
    if e > j {
        assert(in_class(w[j], Class::Digit));
    }
    lemma_decimal(w, i + 1, j);
    let q = decimal(w, i + 1, j);
    if let Some(p) = pauli_letter(w[i]) {
        let l = p << (2 * q) as u64;
        lemma_joined(l, 0, 0);
        lemma_pauli_joins(w, j, 0 | l);
    }
    lemma_top(w, j, q);
}

proof fn lemma_top(w: Seq<u8>, i: int, top: nat)
    requires
        0 <= i,
    ensures
        top_from(w, i, top) == if top > top_from(w, i, 0) {
            top
        } else {
            top_from(w, i, 0)
        },
    decreases w.len() - i,
{
    if i < w.len() {
        let j = span_end(w, i + 1, Class::Digit);
        let q = decimal(w, i + 1, j);
        if i < j <= w.len() {
            lemma_top(
                w,
                j,
                if q > top {
                    q
                } else {
                    top
                },
            );
            lemma_top(w, j, q);
        }
    }
}

/// A source is cut from its first character on, which stands in line 1 and column 1, into at
/// most 16384 tokens with 4096 bytes of names. Cutting ends well at the end of the source;
/// else it ends at the place of the character, number or name that cannot be taken, or where
/// source is left and there is no room for a token.
pub proof fn law_cutting_ends_where_it_stands(
    s: Seq<u8>,
    i: int,
    line: nat,
    col: nat,
    room: nat,
    free: nat,
)
    requires
        0 <= i <= s.len() <= usize::MAX,
    ensures
        lexed(s) == scan(s, 0, 1, 1, 16384, 4096),
        i == s.len() ==> scan(s, i, line, col, room, free) == (
            Seq::<Lexeme>::empty(),
            LexEnd::Done,
        ),
        i < s.len() && room == 0 ==> scan(s, i, line, col, room, free) == (
            Seq::<Lexeme>::empty(),
            LexEnd::Full(line, col),
        ),
        i < s.len() && room > 0 ==> match piece(s, i) {
            Piece::Bad => scan(s, i, line, col, room, free) == (
                Seq::<Lexeme>::empty(),
                LexEnd::Bad(line, col),
            ),
            Piece::Huge => scan(s, i, line, col, room, free) == (
                Seq::<Lexeme>::empty(),
                LexEnd::Huge(line, col),
            ),
            Piece::Lexeme(t, j) => t == Token::Ident && j - i > free ==> scan(
                s,
                i,
                line,
                col,
                room,
                free,
            ) == (Seq::<Lexeme>::empty(), LexEnd::Crowded(line, col)),
            _ => true,
        },
{
    if i < s.len() {
        law_tokens_say_what_is_written(s, i);
    }
}

/// A lexed result lists the tokens in order, each with its line, its column and, for a Pauli
/// product, its highest qubit.
pub proof fn law_results_list_the_tokens(r: LexResult, before: LexResult, l: Seq<Lexeme>, k: int)
    requires
        holds(r, before, l),
        0 <= k < l.len(),
    ensures
        r.count == l.len(),
        r.tokens@[k] == l[k].token,
        l[k].line < 65536 ==> r.token_lines@[k] == l[k].line,
        l[k].col < 65536 ==> r.token_cols@[k] == l[k].col,
        l[k].token is Pauli ==> r.pauli_tops@[k] == top_from(l[k].text, 0, 0),
{
    reveal(holds);
    assert(r.tokens@[k] == l[k].token);
}

} // verus!
