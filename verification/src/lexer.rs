//! Cutting source text into tokens.
use crate::diag::{clipped, Diag};
use vstd::prelude::*;
use vstd::string::StringSliceAdditionalSpecFns;

verus! {

/// Capacity of the token array.
pub const MAX_TOKENS: usize = 16384;

/// Capacity of the name pool.
pub const MAX_NAMES: usize = 4096;

/// A decimal number as written: its whole part, which is below 2^64, and where the digits
/// after the point stand in the source.
#[derive(Clone, Copy, Debug, PartialEq, Eq, Structural)]
pub struct Literal {
    pub negative: bool,
    pub whole: u64,
    pub frac_start: usize,
    pub frac_len: usize,
}

impl Default for Literal {
    fn default() -> (l: Self)
        ensures
            l == (Literal { negative: false, whole: 0, frac_start: 0, frac_len: 0 }),
    {
        Literal { negative: false, whole: 0, frac_start: 0, frac_len: 0 }
    }
}

/// A token of the language.
#[derive(Clone, Copy, Debug, PartialEq, Eq, Structural)]
pub enum Token {
    Qubits,
    H,
    X,
    Cnot,
    Toff,
    Measure,
    If,
    Then,
    Endif,
    Shot,
    Endshot,
    Print,
    End,
    Halt,
    Rz,
    Rx,
    Ry,
    Phase,
    S,
    T,
    Sx,
    Swap,
    Iswap,
    Cz,
    Cphase,
    Cswap,
    Mcx,
    Reset,
    MeasureX,
    MeasureY,
    SetVal,
    Not,
    And,
    Or,
    Xor,
    Add,
    Sub,
    Expect,
    Estimate,
    SaveState,
    SaveAmps,
    SaveProbs,
    Gate,
    Endgate,
    /// A word that is neither a keyword nor a Pauli product: a gate name.
    Ident,
    Number(u32),
    /// A number with digits after a decimal point.
    Float(Literal),
    /// A Pauli product like `Z0X1`, two bits per qubit: I=0, X=1, Y=2, Z=3.
    Pauli(u64),
    ClassicalRef(u32),
    Arrow,
    Minus,
    Equals,
    Ne,
    Newline,
    Eof,
    Error,
}

/// The outcome of cutting a source text.
#[derive(Clone, Debug)]
pub struct LexResult {
    pub tokens: [Token; MAX_TOKENS],
    pub count: usize,
    pub error: bool,
    /// Line of each token, from 1, modulo 2^16.
    pub token_lines: [u16; MAX_TOKENS],
    /// Column of each token, from 1, modulo 2^16.
    pub token_cols: [u16; MAX_TOKENS],
    /// What went wrong, if `error` is set.
    pub diag: Diag,
    /// Where the name of each `Ident` token stands in the name pool.
    pub ident_offs: [u32; MAX_TOKENS],
    pub ident_lens: [u16; MAX_TOKENS],
    /// The name pool.
    pub ident_buf: [u8; MAX_NAMES],
    pub ident_len: usize,
    /// The highest qubit that each `Pauli` token names, also under the letter I; zero
    /// for other tokens.
    pub pauli_tops: [u8; MAX_TOKENS],
}

/// A class of bytes.
#[derive(Clone, Copy, Debug, PartialEq, Eq, Structural)]
pub enum Class {
    Digit,
    Word,
    Line,
}

/// ASCII digits.
pub open spec fn is_digit(b: u8) -> bool {
    48 <= b <= 57
}

/// ASCII letters.
pub open spec fn is_letter(b: u8) -> bool {
    65 <= b <= 90 || 97 <= b <= 122
}

/// Digits; letters, digits and the underscore; everything but a line feed.
pub open spec fn in_class(b: u8, c: Class) -> bool {
    match c {
        Class::Digit => is_digit(b),
        Class::Word => is_letter(b) || is_digit(b) || b == 95,
        Class::Line => b != 10,
    }
}

/// The end of the longest stretch of `c` that starts at `i`.
pub open spec fn span_end(s: Seq<u8>, i: int, c: Class) -> int
    decreases s.len() - i,
{
    if 0 <= i < s.len() && in_class(s[i], c) {
        span_end(s, i + 1, c)
    } else {
        i
    }
}

/// The number that the decimal digits `s[i..j]` denote.
pub open spec fn decimal(s: Seq<u8>, i: int, j: int) -> nat
    decreases j - i,
{
    if j <= i {
        0
    } else {
        decimal(s, i, j - 1) * 10 + (s[j - 1] - 48) as nat
    }
}

/// 2^64.
pub open spec fn word64() -> nat {
    0x1_0000_0000_0000_0000
}

/// 2^32.
pub open spec fn word32() -> nat {
    0x1_0000_0000
}

/// The two-bit code of a Pauli letter.
pub open spec fn pauli_letter(b: u8) -> Option<u64> {
    if b == 73 {
        Some(0)
    } else if b == 88 {
        Some(1)
    } else if b == 89 {
        Some(2)
    } else if b == 90 {
        Some(3)
    } else {
        None
    }
}

/// The code of the Pauli terms `w[i..]`, each a letter with a qubit number of at
/// most 31, joined to `code`.
pub open spec fn pauli_from(w: Seq<u8>, i: int, code: u64) -> Option<u64>
    decreases w.len() - i,
{
    if i < 0 || i >= w.len() {
        Some(code)
    } else {
        match pauli_letter(w[i]) {
            None => None,
            Some(p) => {
                let j = span_end(w, i + 1, Class::Digit);
                let q = decimal(w, i + 1, j);
                if i + 1 < j <= w.len() && q <= 31 {
                    pauli_from(w, j, code | (p << (2 * q) as u64))
                } else {
                    None
                }
            },
        }
    }
}

/// The code of a word that is a Pauli product of at least one term.
pub open spec fn pauli_code(w: Seq<u8>) -> Option<u64> {
    if w.len() == 0 {
        None
    } else {
        pauli_from(w, 0, 0)
    }
}

/// The largest qubit number in the Pauli terms `w[i..]`, or `top` if that is larger.
pub open spec fn top_from(w: Seq<u8>, i: int, top: nat) -> nat
    decreases w.len() - i,
{
    if i < 0 || i >= w.len() {
        top
    } else {
        let j = span_end(w, i + 1, Class::Digit);
        let q = decimal(w, i + 1, j);
        if i < j <= w.len() {
            top_from(
                w,
                j,
                if q > top {
                    q
                } else {
                    top
                },
            )
        } else {
            top
        }
    }
}

/// The highest qubit that a Pauli product names, whatever the letter.
pub open spec fn pauli_top(w: Seq<u8>) -> nat {
    top_from(w, 0, 0)
}

/// The keyword a word is, or `Error`.
pub open spec fn keyword(w: Seq<u8>) -> Token {
    if w == "QUBITS".spec_bytes() {
        Token::Qubits
    } else if w == "H".spec_bytes() {
        Token::H
    } else if w == "X".spec_bytes() {
        Token::X
    } else if w == "CNOT".spec_bytes() {
        Token::Cnot
    } else if w == "TOFF".spec_bytes() {
        Token::Toff
    } else if w == "MEASURE".spec_bytes() {
        Token::Measure
    } else if w == "IF".spec_bytes() {
        Token::If
    } else if w == "THEN".spec_bytes() {
        Token::Then
    } else if w == "ENDIF".spec_bytes() {
        Token::Endif
    } else if w == "SHOT".spec_bytes() {
        Token::Shot
    } else if w == "ENDSHOT".spec_bytes() {
        Token::Endshot
    } else if w == "PRINT".spec_bytes() {
        Token::Print
    } else if w == "END".spec_bytes() {
        Token::End
    } else if w == "HALT".spec_bytes() {
        Token::Halt
    } else if w == "RZ".spec_bytes() {
        Token::Rz
    } else if w == "RX".spec_bytes() {
        Token::Rx
    } else if w == "RY".spec_bytes() {
        Token::Ry
    } else if w == "PHASE".spec_bytes() {
        Token::Phase
    } else if w == "S".spec_bytes() {
        Token::S
    } else if w == "T".spec_bytes() {
        Token::T
    } else if w == "SX".spec_bytes() {
        Token::Sx
    } else if w == "SWAP".spec_bytes() {
        Token::Swap
    } else if w == "ISWAP".spec_bytes() {
        Token::Iswap
    } else if w == "CZ".spec_bytes() {
        Token::Cz
    } else if w == "CPHASE".spec_bytes() {
        Token::Cphase
    } else if w == "CSWAP".spec_bytes() {
        Token::Cswap
    } else if w == "MCX".spec_bytes() {
        Token::Mcx
    } else if w == "RESET".spec_bytes() {
        Token::Reset
    } else if w == "MEASURE_X".spec_bytes() {
        Token::MeasureX
    } else if w == "MEASURE_Y".spec_bytes() {
        Token::MeasureY
    } else if w == "SET".spec_bytes() {
        Token::SetVal
    } else if w == "NOT".spec_bytes() {
        Token::Not
    } else if w == "AND".spec_bytes() {
        Token::And
    } else if w == "OR".spec_bytes() {
        Token::Or
    } else if w == "XOR".spec_bytes() {
        Token::Xor
    } else if w == "ADD".spec_bytes() {
        Token::Add
    } else if w == "SUB".spec_bytes() {
        Token::Sub
    } else if w == "EXPECT".spec_bytes() {
        Token::Expect
    } else if w == "ESTIMATE".spec_bytes() {
        Token::Estimate
    } else if w == "SAVE_STATEVECTOR".spec_bytes() {
        Token::SaveState
    } else if w == "SAVE_AMPLITUDES".spec_bytes() {
        Token::SaveAmps
    } else if w == "SAVE_PROBABILITIES".spec_bytes() {
        Token::SaveProbs
    } else if w == "GATE".spec_bytes() {
        Token::Gate
    } else if w == "ENDGATE".spec_bytes() {
        Token::Endgate
    } else {
        Token::Error
    }
}

/// What stands at one place of the source.
#[derive(Clone, Copy, Debug)]
pub enum Piece {
    /// Blanks or a comment, up to the given index.
    Skip(usize),
    /// A line feed.
    Break,
    /// A token that ends before the given index.
    Lexeme(Token, usize),
    /// A number that does not fit.
    Huge,
    /// A byte that starts no token.
    Bad,
}

/// Whether byte `b` stands at `i`.
pub open spec fn has(s: Seq<u8>, i: int, b: u8) -> bool {
    0 <= i < s.len() && s[i] == b
}

/// Whether a digit stands at `i`.
pub open spec fn has_digit(s: Seq<u8>, i: int) -> bool {
    0 <= i < s.len() && is_digit(s[i])
}

/// The number at `i`: a whole number below 2^32, or one with a point and digits after
/// it whose whole part is below 2^64.
pub open spec fn number_at(s: Seq<u8>, i: int) -> Piece {
    let j = span_end(s, i, Class::Digit);
    let whole = decimal(s, i, j);
    if has(s, j, 46) && has_digit(s, j + 1) {
        let k = span_end(s, j + 1, Class::Digit);
        if whole < word64() {
            Piece::Lexeme(
                Token::Float(
                    Literal {
                        negative: false,
                        whole: whole as u64,
                        frac_start: (j + 1) as usize,
                        frac_len: (k - (j + 1)) as usize,
                    },
                ),
                k as usize,
            )
        } else {
            Piece::Huge
        }
    } else if whole < word32() {
        Piece::Lexeme(Token::Number(whole as u32), j as usize)
    } else {
        Piece::Huge
    }
}

/// The classical reference at `i`: `c` and a number below 2^32.
pub open spec fn reference_at(s: Seq<u8>, i: int) -> Piece {
    let j = span_end(s, i + 1, Class::Digit);
    let n = decimal(s, i + 1, j);
    if n < word32() {
        Piece::Lexeme(Token::ClassicalRef(n as u32), j as usize)
    } else {
        Piece::Huge
    }
}

/// The word at `i`: a Pauli product, a keyword or a gate name.
pub open spec fn word_at(s: Seq<u8>, i: int) -> Piece {
    let j = span_end(s, i, Class::Word);
    let w = s.subrange(i, j);
    match pauli_code(w) {
        Some(code) => Piece::Lexeme(Token::Pauli(code), j as usize),
        None => Piece::Lexeme(
            if keyword(w) == Token::Error {
                Token::Ident
            } else {
                keyword(w)
            },
            j as usize,
        ),
    }
}

/// What stands at index `i` of the source. The byte values are those of ASCII.
pub open spec fn piece(s: Seq<u8>, i: int) -> Piece {
    let b = s[i];
    if b == 32 || b == 9 || b == 13 {
        Piece::Skip((i + 1) as usize)
    } else if b == 47 && has(s, i + 1, 47) {
        Piece::Skip(span_end(s, i, Class::Line) as usize)
    } else if b == 10 {
        Piece::Break
    } else if is_digit(b) {
        number_at(s, i)
    } else if b == 99 && has_digit(s, i + 1) {
        reference_at(s, i)
    } else if is_letter(b) {
        word_at(s, i)
    } else if b == 45 {
        if has(s, i + 1, 62) {
            Piece::Lexeme(Token::Arrow, (i + 2) as usize)
        } else {
            Piece::Lexeme(Token::Minus, (i + 1) as usize)
        }
    } else if b == 61 {
        Piece::Lexeme(
            Token::Equals,
            (if has(s, i + 1, 61) {
                i + 2
            } else {
                i + 1
            }) as usize,
        )
    } else if b == 33 && has(s, i + 1, 61) {
        Piece::Lexeme(Token::Ne, (i + 2) as usize)
    } else {
        Piece::Bad
    }
}

/// A token with its place in the source.
pub struct Lexeme {
    pub token: Token,
    pub line: nat,
    pub col: nat,
    /// The bytes of the token.
    pub text: Seq<u8>,
}

/// How cutting ended.
pub enum LexEnd {
    /// At the end of the source.
    Done,
    /// At a byte that starts no token.
    Bad(nat, nat),
    /// At a number that does not fit.
    Huge(nat, nat),
    /// At a gate name for which the name pool has no room.
    Crowded(nat, nat),
    /// At the token limit, with source left.
    Full(nat, nat),
}

/// The tokens of the source from index `i` on, which stands at `line` and `col`,
/// with room for `room` tokens and for `free` bytes of gate names.
pub open spec fn scan(s: Seq<u8>, i: int, line: nat, col: nat, room: nat, free: nat) -> (
    Seq<Lexeme>,
    LexEnd,
)
    decreases s.len() - i,
{
    if i < 0 || i >= s.len() {
        (Seq::empty(), LexEnd::Done)
    } else if room == 0 {
        (Seq::empty(), LexEnd::Full(line, col))
    } else {
        match piece(s, i) {
            Piece::Skip(j) => if i < j <= s.len() {
                scan(s, j as int, line, (col + j - i) as nat, room, free)
            } else {
                (Seq::empty(), LexEnd::Bad(line, col))
            },
            Piece::Break => {
                let rest = scan(s, i + 1, line + 1, 1, (room - 1) as nat, free);
                (
                    seq![Lexeme { token: Token::Newline, line, col, text: s.subrange(i, i + 1) }]
                        + rest.0,
                    rest.1,
                )
            },
            Piece::Lexeme(token, j) => if i < j <= s.len() {
                let used = if token == Token::Ident {
                    (j - i) as nat
                } else {
                    0
                };
                if used > free {
                    (Seq::empty(), LexEnd::Crowded(line, col))
                } else {
                    let rest = scan(
                        s,
                        j as int,
                        line,
                        (col + j - i) as nat,
                        (room - 1) as nat,
                        (free - used) as nat,
                    );
                    (
                        seq![Lexeme { token, line, col, text: s.subrange(i, j as int) }] + rest.0,
                        rest.1,
                    )
                }
            } else {
                (Seq::empty(), LexEnd::Bad(line, col))
            },
            Piece::Huge => (Seq::empty(), LexEnd::Huge(line, col)),
            Piece::Bad => (Seq::empty(), LexEnd::Bad(line, col)),
        }
    }
}

/// The tokens of a source text, in order, and how cutting it ended.
pub open spec fn lexed(s: Seq<u8>) -> (Seq<Lexeme>, LexEnd) {
    scan(s, 0, 1, 1, MAX_TOKENS as nat, MAX_NAMES as nat)
}

/// The name pool after the first `k` tokens: all gate names, one after another.
pub open spec fn pool(l: Seq<Lexeme>, k: int) -> Seq<u8>
    decreases k,
{
    if k <= 0 {
        Seq::empty()
    } else if l[k - 1].token == Token::Ident {
        pool(l, k - 1) + l[k - 1].text
    } else {
        pool(l, k - 1)
    }
}

/// The highest qubit that a token names, if it is a Pauli product.
pub open spec fn named_top(x: Lexeme) -> nat {
    if x.token is Pauli {
        pauli_top(x.text)
    } else {
        0
    }
}

proof fn lemma_span_end(s: Seq<u8>, i: int, j: int, c: Class)
    requires
        0 <= i <= j <= s.len(),
        forall|k: int| i <= k < j ==> in_class(#[trigger] s[k], c),
        j < s.len() ==> !in_class(s[j], c),
    ensures
        span_end(s, i, c) == j,
    decreases j - i,
{
    if i < j {
        assert(in_class(s[i], c));
        lemma_span_end(s, i + 1, j, c);
    }
}

/// A stretch starts where it should, lies within the text and holds its class.
pub proof fn lemma_span_bounds(s: Seq<u8>, i: int, c: Class)
    requires
        0 <= i <= s.len(),
    ensures
        i <= span_end(s, i, c) <= s.len(),
        forall|k: int| i <= k < span_end(s, i, c) ==> in_class(#[trigger] s[k], c),
    decreases s.len() - i,
{
    if i < s.len() && in_class(s[i], c) {
        lemma_span_bounds(s, i + 1, c);
    }
}

/// Whether a byte belongs to a class.
fn belongs(b: u8, c: Class) -> (r: bool)
    ensures
        r == in_class(b, c),
{
    match c {
        Class::Digit => 48 <= b && b <= 57,
        Class::Word => (65 <= b && b <= 90) || (97 <= b && b <= 122) || (48 <= b && b <= 57) || b
            == 95,
        Class::Line => b != 10,
    }
}

/// The end of the longest stretch of `c` that starts at `i`.
fn span(s: &[u8], i: usize, c: Class) -> (j: usize)
    requires
        i <= s@.len(),
    ensures
        j == span_end(s@, i as int, c),
        i <= j <= s@.len(),
        forall|k: int| i <= k < j ==> in_class(#[trigger] s@[k], c),
{
    let mut j: usize = i;
    while j < s.len() && belongs(s[j], c)
        invariant
            i <= j <= s@.len(),
            forall|k: int| i <= k < j ==> in_class(#[trigger] s@[k], c),
        decreases s@.len() - j,
    {
        j += 1;
    }
    proof {
        lemma_span_end(s@, i as int, j as int, c);
    }
    j
}

/// More digits never make a number smaller.
proof fn lemma_decimal_grows(s: Seq<u8>, i: int, k: int, j: int)
    requires
        i <= k <= j,
    ensures
        decimal(s, i, k) <= decimal(s, i, j),
    decreases j - k,
{
    if k < j {
        lemma_decimal_grows(s, i, k, j - 1);
    }
}

/// The number of the decimal digits `s[i..j]`, if it is below 2^64.
fn digits_value(s: &[u8], i: usize, j: usize) -> (v: Option<u64>)
    requires
        i <= j <= s@.len(),
        forall|k: int| i <= k < j ==> is_digit(#[trigger] s@[k]),
    ensures
        match v {
            Some(n) => n == decimal(s@, i as int, j as int),
            None => decimal(s@, i as int, j as int) >= word64(),
        },
{
    let mut v: u64 = 0;
    let mut k: usize = i;
    while k < j
        invariant
            i <= k <= j <= s@.len(),
            forall|k: int| i <= k < j ==> is_digit(#[trigger] s@[k]),
            v == decimal(s@, i as int, k as int),
        decreases j - k,
    {
        assert(is_digit(s@[k as int]));
        let c: u64 = (s[k] - 48) as u64;
        assert(decimal(s@, i as int, k + 1) == v * 10 + c);
        if v > (u64::MAX - c) / 10 {
            proof {
                lemma_decimal_grows(s@, i as int, k + 1, j as int);
            }
            return None;
        }
        v = v * 10 + c;
        k += 1;
    }
    Some(v)
}

/// Whether a word is a given text.
fn same(w: &[u8], text: &str) -> (r: bool)
    ensures
        r == (w@ == text.spec_bytes()),
{
    let t: &[u8] = text.as_bytes();
    if w.len() != t.len() {
        return false;
    }
    let mut i: usize = 0;
    while i < w.len()
        invariant
            i <= w@.len() == t@.len(),
            t@ == text.spec_bytes(),
            forall|k: int| 0 <= k < i ==> w@[k] == t@[k],
        decreases w@.len() - i,
    {
        if w[i] != t[i] {
            return false;
        }
        i += 1;
    }
    assert(w@ =~= t@);
    true
}

/// The keyword a word is, or `Error`.
fn match_keyword(w: &[u8]) -> (t: Token)
    ensures
        t == keyword(w@),
{
    if same(w, "QUBITS") {
        Token::Qubits
    } else if same(w, "H") {
        Token::H
    } else if same(w, "X") {
        Token::X
    } else if same(w, "CNOT") {
        Token::Cnot
    } else if same(w, "TOFF") {
        Token::Toff
    } else if same(w, "MEASURE") {
        Token::Measure
    } else if same(w, "IF") {
        Token::If
    } else if same(w, "THEN") {
        Token::Then
    } else if same(w, "ENDIF") {
        Token::Endif
    } else if same(w, "SHOT") {
        Token::Shot
    } else if same(w, "ENDSHOT") {
        Token::Endshot
    } else if same(w, "PRINT") {
        Token::Print
    } else if same(w, "END") {
        Token::End
    } else if same(w, "HALT") {
        Token::Halt
    } else if same(w, "RZ") {
        Token::Rz
    } else if same(w, "RX") {
        Token::Rx
    } else if same(w, "RY") {
        Token::Ry
    } else if same(w, "PHASE") {
        Token::Phase
    } else if same(w, "S") {
        Token::S
    } else if same(w, "T") {
        Token::T
    } else if same(w, "SX") {
        Token::Sx
    } else if same(w, "SWAP") {
        Token::Swap
    } else if same(w, "ISWAP") {
        Token::Iswap
    } else if same(w, "CZ") {
        Token::Cz
    } else if same(w, "CPHASE") {
        Token::Cphase
    } else if same(w, "CSWAP") {
        Token::Cswap
    } else if same(w, "MCX") {
        Token::Mcx
    } else if same(w, "RESET") {
        Token::Reset
    } else if same(w, "MEASURE_X") {
        Token::MeasureX
    } else if same(w, "MEASURE_Y") {
        Token::MeasureY
    } else if same(w, "SET") {
        Token::SetVal
    } else if same(w, "NOT") {
        Token::Not
    } else if same(w, "AND") {
        Token::And
    } else if same(w, "OR") {
        Token::Or
    } else if same(w, "XOR") {
        Token::Xor
    } else if same(w, "ADD") {
        Token::Add
    } else if same(w, "SUB") {
        Token::Sub
    } else if same(w, "EXPECT") {
        Token::Expect
    } else if same(w, "ESTIMATE") {
        Token::Estimate
    } else if same(w, "SAVE_STATEVECTOR") {
        Token::SaveState
    } else if same(w, "SAVE_AMPLITUDES") {
        Token::SaveAmps
    } else if same(w, "SAVE_PROBABILITIES") {
        Token::SaveProbs
    } else if same(w, "GATE") {
        Token::Gate
    } else if same(w, "ENDGATE") {
        Token::Endgate
    } else {
        Token::Error
    }
}

/// The code of a word that is a Pauli product of at least one term.
pub fn parse_pauli(word: &[u8]) -> (code: Option<u64>)
    ensures
        code == pauli_code(word@),
{
    if word.len() == 0 {
        return None;
    }
    let mut code: u64 = 0;
    let mut i: usize = 0;
    while i < word.len()
        invariant
            i <= word@.len(),
            word@.len() > 0,
            pauli_code(word@) == pauli_from(word@, i as int, code),
        decreases word@.len() - i,
    {
        let b: u8 = word[i];
        let letter: u64 = if b == 73 {
            0
        } else if b == 88 {
            1
        } else if b == 89 {
            2
        } else if b == 90 {
            3
        } else {
            return None;
        };
        let j: usize = span(word, i + 1, Class::Digit);
        let q: u64 = match digits_value(word, i + 1, j) {
            Some(q) => q,
            None => {
                return None;
            },
        };
        if j == i + 1 || q > 31 {
            return None;
        }
        code = code | (letter << (2 * q));
        i = j;
    }
    Some(code)
}

/// The highest qubit that a Pauli product names.
fn highest_qubit(word: &[u8]) -> (top: u8)
    requires
        pauli_code(word@) is Some,
    ensures
        top == pauli_top(word@),
        top <= 31,
{
    let mut top: u8 = 0;
    let mut i: usize = 0;
    let ghost mut code: u64 = 0;
    while i < word.len()
        invariant
            i <= word@.len(),
            top <= 31,
            pauli_from(word@, i as int, code) is Some,
            pauli_top(word@) == top_from(word@, i as int, top as nat),
        decreases word@.len() - i,
    {
        let j: usize = span(word, i + 1, Class::Digit);
        proof {
            let q = decimal(word@, i + 1, j as int);
            code = code | (pauli_letter(word@[i as int])->0 << (2 * q) as u64);
        }
        if let Some(q) = digits_value(word, i + 1, j) {
            if q > top as u64 {
                top = q as u8;
            }
        }
        i = j;
    }
    top
}

/// The number at `i`.
fn read_number(s: &[u8], i: usize) -> (p: Piece)
    requires
        i < s@.len() < u32::MAX,
        is_digit(s@[i as int]),
    ensures
        p == number_at(s@, i as int),
{
    let j: usize = span(s, i, Class::Digit);
    let whole: u64 = match digits_value(s, i, j) {
        Some(n) => n,
        None => {
            return Piece::Huge;
        },
    };
    if j < s.len() && s[j] == 46 && j + 1 < s.len() && 48 <= s[j + 1] && s[j + 1] <= 57 {
        let k: usize = span(s, j + 1, Class::Digit);
        Piece::Lexeme(
            Token::Float(
                Literal { negative: false, whole, frac_start: j + 1, frac_len: k - (j + 1) },
            ),
            k,
        )
    } else if whole <= u32::MAX as u64 {
        Piece::Lexeme(Token::Number(whole as u32), j)
    } else {
        Piece::Huge
    }
}

/// The classical reference at `i`.
fn read_reference(s: &[u8], i: usize) -> (p: Piece)
    requires
        i + 1 < s@.len() < u32::MAX,
    ensures
        p == reference_at(s@, i as int),
{
    let j: usize = span(s, i + 1, Class::Digit);
    match digits_value(s, i + 1, j) {
        Some(n) => if n <= u32::MAX as u64 {
            Piece::Lexeme(Token::ClassicalRef(n as u32), j)
        } else {
            Piece::Huge
        },
        None => Piece::Huge,
    }
}

/// The word at `i`.
fn read_word(s: &[u8], i: usize) -> (p: Piece)
    requires
        i < s@.len() < u32::MAX,
    ensures
        p == word_at(s@, i as int),
{
    let j: usize = span(s, i, Class::Word);
    let w: &[u8] = vstd::slice::slice_subrange(s, i, j);
    match parse_pauli(w) {
        Some(code) => Piece::Lexeme(Token::Pauli(code), j),
        None => {
            let t: Token = match_keyword(w);
            Piece::Lexeme(
                if t == Token::Error {
                    Token::Ident
                } else {
                    t
                },
                j,
            )
        },
    }
}

/// What stands at index `i` of the source.
fn read_piece(s: &[u8], i: usize) -> (p: Piece)
    requires
        i < s@.len() < u32::MAX,
    ensures
        p == piece(s@, i as int),
        p matches Piece::Skip(j) ==> i < j <= s@.len(),
        p matches Piece::Lexeme(_, j) ==> i < j <= s@.len(),
        p matches Piece::Lexeme(t, j) ==> (t is Pauli ==> pauli_code(s@.subrange(i as int, j as int)) is Some),
{
    let n: usize = s.len();
    let b: u8 = s[i];
    if b == 32 || b == 9 || b == 13 {
        Piece::Skip(i + 1)
    } else if b == 47 && i + 1 < n && s[i + 1] == 47 {
        let j: usize = span(s, i, Class::Line);
        assert(span_end(s@, i as int, Class::Line) == span_end(s@, i + 1, Class::Line));
        proof {
            lemma_span_bounds(s@, i + 1, Class::Line);
        }
        Piece::Skip(j)
    } else if b == 10 {
        Piece::Break
    } else if 48 <= b && b <= 57 {
        proof {
            lemma_span_bounds(s@, i + 1, Class::Digit);
            let j = span_end(s@, i as int, Class::Digit);
            if has_digit(s@, j + 1) {
                lemma_span_bounds(s@, j + 1, Class::Digit);
            }
        }
        read_number(s, i)
    } else if b == 99 && i + 1 < n && 48 <= s[i + 1] && s[i + 1] <= 57 {
        proof {
            lemma_span_bounds(s@, i + 1, Class::Digit);
        }
        read_reference(s, i)
    } else if (65 <= b && b <= 90) || (97 <= b && b <= 122) {
        proof {
            lemma_span_bounds(s@, i + 1, Class::Word);
        }
        read_word(s, i)
    } else if b == 45 {
        if i + 1 < n && s[i + 1] == 62 {
            Piece::Lexeme(Token::Arrow, i + 2)
        } else {
            Piece::Lexeme(Token::Minus, i + 1)
        }
    } else if b == 61 {
        if i + 1 < n && s[i + 1] == 61 {
            Piece::Lexeme(Token::Equals, i + 2)
        } else {
            Piece::Lexeme(Token::Equals, i + 1)
        }
    } else if b == 33 && i + 1 < n && s[i + 1] == 61 {
        Piece::Lexeme(Token::Ne, i + 2)
    } else {
        Piece::Bad
    }
}

impl LexResult {
    /// Whether the counters and the name spans fit their arrays.
    pub open spec fn wf(&self) -> bool {
        &&& self.count <= MAX_TOKENS
        &&& self.ident_len <= MAX_NAMES
        &&& self.diag.wf()
        &&& forall|k: int|
            0 <= k < MAX_TOKENS ==> #[trigger] self.ident_offs@[k] + self.ident_lens@[k]
                <= MAX_NAMES
    }

    /// The name stored for token `k`.
    pub open spec fn name_at(&self, k: int) -> Seq<u8> {
        self.ident_buf@.subrange(
            self.ident_offs@[k] as int,
            self.ident_offs@[k] + self.ident_lens@[k],
        )
    }

    /// An empty result.
    pub fn new() -> (r: Self)
        ensures
            r.wf(),
            r.count == 0,
            !r.error,
            r.diag.len == 0,
            r.diag.line == 1,
            r.diag.col == 1,
            r.ident_len == 0,
            r.tokens@ == Seq::new(MAX_TOKENS as nat, |k: int| Token::Error),
            r.token_lines@ == Seq::new(MAX_TOKENS as nat, |k: int| 1u16),
            r.token_cols@ == Seq::new(MAX_TOKENS as nat, |k: int| 1u16),
            r.ident_offs@ == Seq::new(MAX_TOKENS as nat, |k: int| 0u32),
            r.ident_lens@ == Seq::new(MAX_TOKENS as nat, |k: int| 0u16),
            r.ident_buf@ == Seq::new(MAX_NAMES as nat, |k: int| 0u8),
            r.pauli_tops@ == Seq::new(MAX_TOKENS as nat, |k: int| 0u8),
    {
        LexResult {
            tokens: [Token::Error; MAX_TOKENS],
            count: 0,
            error: false,
            token_lines: [1; MAX_TOKENS],
            token_cols: [1; MAX_TOKENS],
            diag: Diag::new(),
            ident_offs: [0; MAX_TOKENS],
            ident_lens: [0; MAX_TOKENS],
            ident_buf: [0; MAX_NAMES],
            ident_len: 0,
            pauli_tops: [0; MAX_TOKENS],
        }
    }

    /// Forgets tokens, names and error. The arrays keep their contents, out of use.
    pub fn reset(&mut self)
        ensures
            final(self).count == 0,
            !final(self).error,
            final(self).diag.len == 0,
            final(self).diag.line == 1,
            final(self).diag.col == 1,
            final(self).diag.msg@ == old(self).diag.msg@,
            final(self).ident_len == 0,
            final(self).tokens@ == old(self).tokens@,
            final(self).token_lines@ == old(self).token_lines@,
            final(self).token_cols@ == old(self).token_cols@,
            final(self).ident_offs@ == old(self).ident_offs@,
            final(self).ident_lens@ == old(self).ident_lens@,
            final(self).ident_buf@ == old(self).ident_buf@,
            final(self).pauli_tops@ == old(self).pauli_tops@,
            old(self).wf() ==> final(self).wf(),
    {
        self.count = 0;
        self.error = false;
        self.diag.clear();
        self.ident_len = 0;
    }

    /// The name of the `Ident` token at index `p`.
    pub fn ident_at(&self, p: usize) -> (name: &[u8])
        requires
            self.wf(),
            p < MAX_TOKENS,
        ensures
            name@ == self.name_at(p as int),
    {
        assert(self.ident_offs@[p as int] + self.ident_lens@[p as int] <= MAX_NAMES);
        let off: usize = self.ident_offs[p] as usize;
        let len: usize = self.ident_lens[p] as usize;
        vstd::slice::slice_subrange(self.ident_buf.as_slice(), off, off + len)
    }
}

/// The low 16 bits of a line or column number.
fn low16(v: u32) -> (r: u16)
    ensures
        r == v % 65536,
{
    assert(v as u16 == v % 65536) by (bit_vector);
    #[verifier::truncate] (v as u16)
}

/// Appends a token.
fn append(r: &mut LexResult, token: Token, line: u32, col: u32, top: u8)
    requires
        old(r).count < MAX_TOKENS,
    ensures
        final(r).count == old(r).count + 1,
        final(r).tokens@ == old(r).tokens@.update(old(r).count as int, token),
        final(r).token_lines@ == old(r).token_lines@.update(
            old(r).count as int,
            (line % 65536) as u16,
        ),
        final(r).token_cols@ == old(r).token_cols@.update(
            old(r).count as int,
            (col % 65536) as u16,
        ),
        final(r).pauli_tops@ == old(r).pauli_tops@.update(old(r).count as int, top),
        final(r).error == old(r).error,
        final(r).diag == old(r).diag,
        final(r).ident_offs@ == old(r).ident_offs@,
        final(r).ident_lens@ == old(r).ident_lens@,
        final(r).ident_buf@ == old(r).ident_buf@,
        final(r).ident_len == old(r).ident_len,
{
    r.tokens[r.count] = token;
    r.token_lines[r.count] = low16(line);
    r.token_cols[r.count] = low16(col);
    r.pauli_tops[r.count] = top;
    r.count += 1;
}

/// Puts the name of the next token into the name pool.
fn store_name(r: &mut LexResult, s: &[u8], i: usize, j: usize)
    requires
        old(r).count < MAX_TOKENS,
        i <= j <= s@.len(),
        old(r).ident_len + (j - i) <= MAX_NAMES,
    ensures
        final(r).count == old(r).count,
        final(r).tokens@ == old(r).tokens@,
        final(r).token_lines@ == old(r).token_lines@,
        final(r).token_cols@ == old(r).token_cols@,
        final(r).pauli_tops@ == old(r).pauli_tops@,
        final(r).error == old(r).error,
        final(r).diag == old(r).diag,
        ({
            let k = old(r).count as int;
            let n = old(r).ident_len;
            &&& final(r).ident_len == n + (j - i)
            &&& final(r).ident_offs@ == old(r).ident_offs@.update(k, n as u32)
            &&& final(r).ident_lens@ == old(r).ident_lens@.update(k, (j - i) as u16)
            &&& final(r).ident_buf@.subrange(0, n as int) == old(r).ident_buf@.subrange(
                0,
                n as int,
            )
            &&& final(r).ident_buf@.subrange(n as int, n + (j - i)) == s@.subrange(
                i as int,
                j as int,
            )
            &&& forall|p: int|
                n + (j - i) <= p < MAX_NAMES ==> final(r).ident_buf@[p] == old(r).ident_buf@[p]
        }),
{
    let n: usize = r.ident_len;
    let len: usize = j - i;
    r.ident_offs[r.count] = n as u32;
    r.ident_lens[r.count] = len as u16;
    let mut k: usize = 0;
    while k < len
        invariant
            k <= len == j - i,
            n + len <= MAX_NAMES,
            j <= s@.len(),
            r.count == old(r).count,
            r.count < MAX_TOKENS,
            r.tokens@ == old(r).tokens@,
            r.token_lines@ == old(r).token_lines@,
            r.token_cols@ == old(r).token_cols@,
            r.pauli_tops@ == old(r).pauli_tops@,
            r.error == old(r).error,
            r.diag == old(r).diag,
            r.ident_len == n,
            r.ident_offs@ == old(r).ident_offs@.update(r.count as int, n as u32),
            r.ident_lens@ == old(r).ident_lens@.update(r.count as int, len as u16),
            forall|p: int| 0 <= p < n ==> r.ident_buf@[p] == old(r).ident_buf@[p],
            forall|p: int| n <= p < n + k ==> r.ident_buf@[p] == s@[i + (p - n)],
            forall|p: int| n + k <= p < MAX_NAMES ==> r.ident_buf@[p] == old(r).ident_buf@[p],
        decreases len - k,
    {
        r.ident_buf[n + k] = s[i + k];
        k += 1;
    }
    r.ident_len = n + len;
    assert(r.ident_buf@.subrange(0, n as int) =~= old(r).ident_buf@.subrange(0, n as int));
    assert(r.ident_buf@.subrange(n as int, n + len) =~= s@.subrange(i as int, j as int));
}

proof fn lemma_pool_prefix(l: Seq<Lexeme>, x: Lexeme, k: int)
    requires
        0 <= k <= l.len(),
    ensures
        pool(l.push(x), k) == pool(l, k),
    decreases k,
{
    if k > 0 {
        lemma_pool_prefix(l, x, k - 1);
    }
}

proof fn lemma_pool_grows(l: Seq<Lexeme>, j: int, k: int)
    requires
        0 <= j <= k,
    ensures
        pool(l, j).len() <= pool(l, k).len(),
        pool(l, k).take(pool(l, j).len() as int) == pool(l, j),
    decreases k - j,
{
    if j < k {
        lemma_pool_grows(l, j, k - 1);
        assert(pool(l, k).take(pool(l, j).len() as int) =~= pool(l, k - 1).take(
            pool(l, j).len() as int,
        ));
    } else {
        assert(pool(l, k).take(pool(l, j).len() as int) =~= pool(l, j));
    }
}

/// What the result holds of a list of tokens: each token with its position, and
/// the names in the pool. Array slots out of use are as they were before.
#[verifier::opaque]
pub open spec fn holds(r: LexResult, before: LexResult, l: Seq<Lexeme>) -> bool {
    &&& r.count == l.len() <= MAX_TOKENS
    &&& forall|k: int|
        0 <= k < l.len() ==> (#[trigger] r.tokens@[k]) == l[k].token && r.token_lines@[k]
            == l[k].line % 65536 && r.token_cols@[k] == l[k].col % 65536 && r.pauli_tops@[k]
            == named_top(l[k])
    &&& forall|k: int|
        l.len() <= k < MAX_TOKENS ==> (#[trigger] r.tokens@[k]) == before.tokens@[k]
            && r.token_lines@[k] == before.token_lines@[k] && r.token_cols@[k]
            == before.token_cols@[k] && r.pauli_tops@[k] == before.pauli_tops@[k]
    &&& r.ident_len == pool(l, l.len() as int).len()
    &&& r.ident_len <= MAX_NAMES
    &&& r.ident_buf@.subrange(0, r.ident_len as int) == pool(l, l.len() as int)
    &&& forall|p: int|
        r.ident_len <= p < MAX_NAMES ==> r.ident_buf@[p] == before.ident_buf@[p]
    &&& forall|k: int|
        0 <= k < MAX_TOKENS ==> if k < l.len() && l[k].token == Token::Ident {
            #[trigger] r.ident_offs@[k] == pool(l, k).len() && r.ident_lens@[k] == l[k].text.len()
        } else {
            r.ident_offs@[k] == before.ident_offs@[k] && r.ident_lens@[k] == before.ident_lens@[k]
        }
}

/// Cuts Plasma source into tokens. Blanks and comments are dropped; each line feed
/// is a token. A byte that starts no token, a number or a gate name that does not
/// fit, and source left when the token array is full are errors, reported where they
/// stand.
#[verifier::rlimit(60)]
#[verifier::spinoff_prover]
pub fn tokenise(input: &[u8], result: &mut LexResult)
    requires
        input@.len() < u32::MAX,
    ensures
        holds(*final(result), *old(result), lexed(input@).0),
        final(result).error == !(lexed(input@).1 is Done),
        match lexed(input@).1 {
            LexEnd::Done => final(result).diag.line == 1 && final(result).diag.col == 1 && final(result).diag.len == 0,
            LexEnd::Bad(line, col) => final(result).diag.line == line && final(result).diag.col
                == col && final(result).diag.text() == clipped("unexpected character".spec_bytes()),
            LexEnd::Huge(line, col) => final(result).diag.line == line && final(result).diag.col
                == col && final(result).diag.text() == clipped("number too large".spec_bytes()),
            LexEnd::Crowded(line, col) => final(result).diag.line == line && final(result).diag.col
                == col && final(result).diag.text() == clipped("too many gate names".spec_bytes()),
            LexEnd::Full(line, col) => final(result).diag.line == line && final(result).diag.col
                == col && final(result).diag.text() == clipped(
                "source exceeds token limit".spec_bytes(),
            ),
        },
        old(result).wf() ==> final(result).wf(),
        forall|k: int|
            0 <= k < lexed(input@).0.len() && lexed(input@).0[k].token == Token::Ident
                ==> #[trigger] final(result).name_at(k) == lexed(input@).0[k].text,
{
    result.reset();
    let mut i: usize = 0;
    let mut line: u32 = 1;
    let mut col: u32 = 1;
    let ghost mut done: Seq<Lexeme> = Seq::empty();
    proof {
        lemma_holds_nothing(*result, *old(result));
        assert(done + lexed(input@).0 =~= lexed(input@).0);
    }
    while i < input.len() && result.count < MAX_TOKENS
        invariant
            i <= input@.len() < u32::MAX,
            1 <= line,
            1 <= col,
            line + col <= i + 2,
            holds(*result, *old(result), done),
            result.count == done.len() <= MAX_TOKENS,
            result.ident_len == pool(done, done.len() as int).len() <= MAX_NAMES,
            !result.error,
            result.diag.line == 1,
            result.diag.col == 1,
            result.diag.len == 0,
            ahead(lexed(input@), done, input@, i as int, line as nat, col as nat),
        decreases input@.len() - i,
    {
        match read_piece(input, i) {
            Piece::Skip(j) => {
                proof {
                    lemma_ahead(lexed(input@), done, input@, i as int, line as nat, col as nat);
                }
                col = col + (j - i) as u32;
                i = j;
            },
            Piece::Break => {
                proof {
                    lemma_ahead(lexed(input@), done, input@, i as int, line as nat, col as nat);
                }
                add_lexeme(
                    result,
                    Token::Newline,
                    line,
                    col,
                    input,
                    i,
                    i + 1,
                    Ghost(*old(result)),
                    Ghost(done),
                );
                proof {
                    done = done.push(
                        Lexeme {
                            token: Token::Newline,
                            line: line as nat,
                            col: col as nat,
                            text: input@.subrange(i as int, i + 1),
                        },
                    );
                    lemma_names(*result, *old(result), done);
                }
                i += 1;
                line += 1;
                col = 1;
            },
            Piece::Lexeme(token, j) => {
                proof {
                    lemma_ahead(lexed(input@), done, input@, i as int, line as nat, col as nat);
                    lemma_names(*result, *old(result), done);
                }
                if token == Token::Ident && j - i > MAX_NAMES - result.ident_len {
                    fail(
                        result,
                        line,
                        col,
                        "too many gate names",
                        Ghost(*old(result)),
                        Ghost(done),
                    );
                    return ;
                }
                add_lexeme(
                    result,
                    token,
                    line,
                    col,
                    input,
                    i,
                    j,
                    Ghost(*old(result)),
                    Ghost(done),
                );
                proof {
                    done = done.push(
                        Lexeme {
                            token,
                            line: line as nat,
                            col: col as nat,
                            text: input@.subrange(i as int, j as int),
                        },
                    );
                    lemma_names(*result, *old(result), done);
                }
                col = col + (j - i) as u32;
                i = j;
            },
            Piece::Huge => {
                proof {
                    lemma_ahead(lexed(input@), done, input@, i as int, line as nat, col as nat);
                    lemma_names(*result, *old(result), done);
                }
                fail(result, line, col, "number too large", Ghost(*old(result)), Ghost(done));
                return ;
            },
            Piece::Bad => {
                proof {
                    lemma_ahead(lexed(input@), done, input@, i as int, line as nat, col as nat);
                    lemma_names(*result, *old(result), done);
                }
                fail(result, line, col, "unexpected character", Ghost(*old(result)), Ghost(done));
                return ;
            },
        }
    }
    proof {
        lemma_ahead(lexed(input@), done, input@, i as int, line as nat, col as nat);
        lemma_names(*result, *old(result), done);
    }
    if i < input.len() {
        fail(result, line, col, "source exceeds token limit", Ghost(*old(result)), Ghost(done));
    }
}

/// `done` is what was cut so far, and the rest starts at `i`.
spec fn ahead(
    all: (Seq<Lexeme>, LexEnd),
    done: Seq<Lexeme>,
    s: Seq<u8>,
    i: int,
    line: nat,
    col: nat,
) -> bool {
    let rest = scan(
        s,
        i,
        line,
        col,
        (MAX_TOKENS - done.len()) as nat,
        (MAX_NAMES - pool(done, done.len() as int).len()) as nat,
    );
    all.0 == done + rest.0 && all.1 == rest.1
}

proof fn lemma_ahead(
    all: (Seq<Lexeme>, LexEnd),
    done: Seq<Lexeme>,
    s: Seq<u8>,
    i: int,
    line: nat,
    col: nat,
)
    requires
        ahead(all, done, s, i, line, col),
        done.len() <= MAX_TOKENS,
        pool(done, done.len() as int).len() <= MAX_NAMES,
        0 <= i <= s.len(),
    ensures
        i >= s.len() ==> all.0 == done && all.1 is Done,
        i < s.len() && done.len() == MAX_TOKENS ==> all.0 == done && all.1 == LexEnd::Full(
            line,
            col,
        ),
        i < s.len() && done.len() < MAX_TOKENS ==> match piece(s, i) {
            Piece::Skip(j) => i < j <= s.len() ==> ahead(
                all,
                done,
                s,
                j as int,
                line,
                (col + j - i) as nat,
            ),
            Piece::Break => ahead(
                all,
                done.push(
                    Lexeme { token: Token::Newline, line, col, text: s.subrange(i, i + 1) },
                ),
                s,
                i + 1,
                line + 1,
                1,
            ),
            Piece::Lexeme(token, j) => i < j <= s.len() ==> if token == Token::Ident && j - i
                > MAX_NAMES - pool(done, done.len() as int).len() {
                all.0 == done && all.1 == LexEnd::Crowded(line, col)
            } else {
                ahead(
                    all,
                    done.push(Lexeme { token, line, col, text: s.subrange(i, j as int) }),
                    s,
                    j as int,
                    line,
                    (col + j - i) as nat,
                )
            },
            Piece::Huge => all.0 == done && all.1 == LexEnd::Huge(line, col),
            Piece::Bad => all.0 == done && all.1 == LexEnd::Bad(line, col),
        },
{
    let free = (MAX_NAMES - pool(done, done.len() as int).len()) as nat;
    let room = (MAX_TOKENS - done.len()) as nat;
    let rest = scan(s, i, line, col, room, free);
    if i >= s.len() || done.len() == MAX_TOKENS {
        assert(done + rest.0 =~= done);
    } else {
        match piece(s, i) {
            Piece::Skip(j) => {},
            Piece::Break => {
                let x = Lexeme { token: Token::Newline, line, col, text: s.subrange(i, i + 1) };
                let t = scan(s, i + 1, line + 1, 1, (room - 1) as nat, free);
                lemma_pool_push(done, x);
                assert(done + (seq![x] + t.0) =~= done.push(x) + t.0);
            },
            Piece::Lexeme(token, j) => {
                if i < j <= s.len() {
                    let x = Lexeme { token, line, col, text: s.subrange(i, j as int) };
                    lemma_pool_push(done, x);
                    let used = if token == Token::Ident {
                        (j - i) as nat
                    } else {
                        0
                    };
                    if used > free {
                        assert(done + rest.0 =~= done);
                    } else {
                        let t = scan(
                            s,
                            j as int,
                            line,
                            (col + j - i) as nat,
                            (room - 1) as nat,
                            (free - used) as nat,
                        );
                        assert(done + (seq![x] + t.0) =~= done.push(x) + t.0);
                    }
                }
            },
            Piece::Huge => {
                assert(done + rest.0 =~= done);
            },
            Piece::Bad => {
                assert(done + rest.0 =~= done);
            },
        }
    }
}

proof fn lemma_holds_nothing(r: LexResult, before: LexResult)
    requires
        r.count == 0,
        r.ident_len == 0,
        r.tokens@ == before.tokens@,
        r.token_lines@ == before.token_lines@,
        r.token_cols@ == before.token_cols@,
        r.ident_offs@ == before.ident_offs@,
        r.ident_lens@ == before.ident_lens@,
        r.ident_buf@ == before.ident_buf@,
        r.pauli_tops@ == before.pauli_tops@,
    ensures
        holds(r, before, Seq::empty()),
{
    reveal(holds);
    assert(r.ident_buf@.subrange(0, 0) =~= pool(Seq::<Lexeme>::empty(), 0));
}

/// Marks the result as failed.
fn fail(
    r: &mut LexResult,
    line: u32,
    col: u32,
    msg: &str,
    before: Ghost<LexResult>,
    done: Ghost<Seq<Lexeme>>,
)
    requires
        holds(*old(r), before@, done@),
    ensures
        holds(*final(r), before@, done@),
        final(r).error,
        final(r).diag.line == line,
        final(r).diag.col == col,
        final(r).diag.text() == clipped(msg.spec_bytes()),
        old(r).wf() ==> final(r).wf(),
        forall|k: int| #[trigger] final(r).name_at(k) == old(r).name_at(k),
{
    reveal(holds);
    r.error = true;
    r.diag.set(line, col, msg);
}

/// Appends the token of `s[i..j]` with its position, its name if it is a gate name,
/// and its highest qubit if it is a Pauli product.
#[verifier::rlimit(40)]
#[verifier::spinoff_prover]
fn add_lexeme(
    r: &mut LexResult,
    token: Token,
    line: u32,
    col: u32,
    s: &[u8],
    i: usize,
    j: usize,
    before: Ghost<LexResult>,
    done: Ghost<Seq<Lexeme>>,
)
    requires
        holds(*old(r), before@, done@),
        done@.len() < MAX_TOKENS,
        i <= j <= s@.len(),
        token == Token::Ident ==> old(r).ident_len + (j - i) <= MAX_NAMES,
        token is Pauli ==> pauli_code(s@.subrange(i as int, j as int)) is Some,
    ensures
        holds(
            *final(r),
            before@,
            done@.push(
                Lexeme {
                    token,
                    line: line as nat,
                    col: col as nat,
                    text: s@.subrange(i as int, j as int),
                },
            ),
        ),
        final(r).count == old(r).count + 1,
        final(r).error == old(r).error,
        final(r).diag == old(r).diag,
{
    reveal(holds);
    let ghost x = Lexeme {
        token,
        line: line as nat,
        col: col as nat,
        text: s@.subrange(i as int, j as int),
    };
    let ghost l = done@.push(x);
    let top: u8 = if let Token::Pauli(_) = token {
        highest_qubit(vstd::slice::slice_subrange(s, i, j))
    } else {
        0
    };
    if token == Token::Ident {
        store_name(r, s, i, j);
    }
    proof {
        lemma_keeps_pool(done@, x);
        lemma_pool_push(done@, x);
        assert(r.ident_buf@.subrange(0, r.ident_len as int) =~= pool(l, l.len() as int)) by {
            let n = old(r).ident_len as int;
            assert(r.ident_buf@.subrange(0, r.ident_len as int) =~= r.ident_buf@.subrange(0, n)
                + r.ident_buf@.subrange(n, r.ident_len as int));
            if token != Token::Ident {
                assert(r.ident_buf@.subrange(n, r.ident_len as int) =~= Seq::<u8>::empty());
            }
        }
    }
    append(r, token, line, col, top);
    proof {
        assert forall|k: int| 0 <= k < l.len() implies (#[trigger] r.tokens@[k]) == l[k].token
            && r.token_lines@[k] == l[k].line % 65536 && r.token_cols@[k] == l[k].col
            % 65536 && r.pauli_tops@[k] == named_top(l[k]) by {
            if k < done@.len() {
                assert(old(r).tokens@[k] == done@[k].token);
            }
        }
        assert forall|k: int| l.len() <= k < MAX_TOKENS implies (#[trigger] r.tokens@[k])
            == before@.tokens@[k] && r.token_lines@[k] == before@.token_lines@[k]
            && r.token_cols@[k] == before@.token_cols@[k] && r.pauli_tops@[k]
            == before@.pauli_tops@[k] by {
            assert(old(r).tokens@[k] == before@.tokens@[k]);
        }
        assert forall|p: int| r.ident_len <= p < MAX_NAMES implies r.ident_buf@[p]
            == before@.ident_buf@[p] by {
            assert(old(r).ident_buf@[p] == before@.ident_buf@[p]);
        }
        assert forall|k: int| 0 <= k < MAX_TOKENS implies if k < l.len() && l[k].token
            == Token::Ident {
            #[trigger] r.ident_offs@[k] == pool(l, k).len() && r.ident_lens@[k] == l[k].text.len()
        } else {
            r.ident_offs@[k] == before@.ident_offs@[k] && r.ident_lens@[k]
                == before@.ident_lens@[k]
        } by {
            assert(if k < done@.len() && done@[k].token == Token::Ident {
                old(r).ident_offs@[k] == pool(done@, k).len() && old(r).ident_lens@[k]
                    == done@[k].text.len()
            } else {
                old(r).ident_offs@[k] == before@.ident_offs@[k] && old(r).ident_lens@[k]
                    == before@.ident_lens@[k]
            });
        }
    }
}

proof fn lemma_pool_push(l: Seq<Lexeme>, x: Lexeme)
    ensures
        pool(l.push(x), (l.len() + 1) as int) == if x.token == Token::Ident {
            pool(l, l.len() as int) + x.text
        } else {
            pool(l, l.len() as int)
        },
{
    lemma_pool_prefix(l, x, l.len() as int);
}

proof fn lemma_keeps_pool(l: Seq<Lexeme>, x: Lexeme)
    ensures
        forall|k: int| 0 <= k <= l.len() ==> #[trigger] pool(l.push(x), k) == pool(l, k),
{
    assert forall|k: int| 0 <= k <= l.len() implies #[trigger] pool(l.push(x), k) == pool(l, k) by {
        lemma_pool_prefix(l, x, k);
    }
}

proof fn lemma_names(r: LexResult, before: LexResult, l: Seq<Lexeme>)
    requires
        holds(r, before, l),
    ensures
        forall|k: int|
            0 <= k < l.len() && l[k].token == Token::Ident ==> #[trigger] r.name_at(k) == l[k].text,
        r.count == l.len(),
        r.ident_len == pool(l, l.len() as int).len() <= MAX_NAMES,
        before.wf() && r.diag.wf() ==> r.wf(),
{
    reveal(holds);
    assert forall|k: int| 0 <= k < l.len() && l[k].token == Token::Ident implies #[trigger] r.name_at(
        k,
    ) == l[k].text by {
        let n = l.len() as int;
        lemma_pool_grows(l, k + 1, n);
        assert(pool(l, k + 1) == pool(l, k) + l[k].text);
        assert(r.ident_offs@[k] == pool(l, k).len());
        assert(r.name_at(k) =~= pool(l, n).take(pool(l, k + 1).len() as int).subrange(
            pool(l, k).len() as int,
            pool(l, k + 1).len() as int,
        ));
        assert((pool(l, k) + l[k].text).subrange(
            pool(l, k).len() as int,
            pool(l, k + 1).len() as int,
        ) =~= l[k].text);
    }
    if before.wf() && r.diag.wf() {
        assert forall|k: int| 0 <= k < MAX_TOKENS implies #[trigger] r.ident_offs@[k]
            + r.ident_lens@[k] <= MAX_NAMES by {
            assert(before.ident_offs@[k] + before.ident_lens@[k] <= MAX_NAMES);
            if k < l.len() && l[k].token == Token::Ident {
                lemma_pool_grows(l, k + 1, l.len() as int);
                assert(pool(l, k + 1) == pool(l, k) + l[k].text);
            }
        }
    }
}

} // verus!
