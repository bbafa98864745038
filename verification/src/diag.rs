//! Fixed-size error diagnostics shared by the lexer and the parser.
use vstd::prelude::*;
use vstd::string::StringSliceAdditionalSpecFns;
use vstd::utf8::valid_utf8;

verus! {

/// Longest stored message, in bytes.
pub const MAX_MSG: usize = 80;

/// A source position with a message of at most `MAX_MSG` bytes.
#[derive(Clone, Copy, Debug)]
pub struct Diag {
    pub line: u32,
    pub col: u32,
    pub msg: [u8; MAX_MSG],
    pub len: usize,
}

/// The first `MAX_MSG` bytes of `bytes`.
pub open spec fn clipped(bytes: Seq<u8>) -> Seq<u8> {
    if bytes.len() <= MAX_MSG {
        bytes
    } else {
        bytes.take(MAX_MSG as int)
    }
}

/// Reads bytes as text with `core::str::from_utf8`: the text whose encoding is
/// `bytes`, or `None` where `bytes` is not UTF-8.
#[verifier::external_body]
fn decode_utf8(bytes: &[u8]) -> (text: Option<&str>)
    ensures
        text is Some <==> valid_utf8(bytes@),
        text matches Some(s) ==> s.spec_bytes() == bytes@,
{
    core::str::from_utf8(bytes).ok()
}

impl Diag {
    /// The stored message bytes.
    pub open spec fn text(&self) -> Seq<u8> {
        self.msg@.subrange(0, self.len as int)
    }

    /// Whether the stored length fits the buffer.
    pub open spec fn wf(&self) -> bool {
        self.len <= MAX_MSG
    }

    /// An empty diagnostic at line 1, column 1.
    pub fn new() -> (d: Self)
        ensures
            d.wf(),
            d.line == 1,
            d.col == 1,
            d.len == 0,
            d.msg@ == Seq::new(MAX_MSG as nat, |i: int| 0u8),
    {
        Diag { line: 1, col: 1, msg: [0; MAX_MSG], len: 0 }
    }

    /// Forgets the message and moves back to line 1, column 1.
    pub fn clear(&mut self)
        ensures
            final(self).wf(),
            final(self).line == 1,
            final(self).col == 1,
            final(self).len == 0,
            final(self).msg@ == old(self).msg@,
    {
        self.line = 1;
        self.col = 1;
        self.len = 0;
    }

    /// Stores a position and the first `MAX_MSG` bytes of `msg`.
    pub fn set(&mut self, line: u32, col: u32, msg: &str)
        ensures
            final(self).wf(),
            final(self).line == line,
            final(self).col == col,
            final(self).text() == clipped(msg.spec_bytes()),
            final(self).len == clipped(msg.spec_bytes()).len(),
            forall|i: int|
                final(self).len <= i < MAX_MSG ==> final(self).msg@[i] == old(self).msg@[i],
    {
        self.line = line;
        self.col = col;
        let bytes: &[u8] = msg.as_bytes();
        let n: usize = if bytes.len() < MAX_MSG {
            bytes.len()
        } else {
            MAX_MSG
        };
        let mut i: usize = 0;
        while i < n
            invariant
                i <= n <= MAX_MSG,
                n <= bytes@.len(),
                self.line == line,
                self.col == col,
                forall|k: int| 0 <= k < i ==> self.msg@[k] == bytes@[k],
                forall|k: int| i <= k < MAX_MSG ==> self.msg@[k] == old(self).msg@[k],
            decreases n - i,
        {
            self.msg[i] = bytes[i];
            i += 1;
        }
        self.len = n;
        assert(self.text() =~= clipped(msg.spec_bytes()));
    }

    /// Whether no message is stored.
    pub fn is_empty(&self) -> (r: bool)
        ensures
            r == (self.len == 0),
    {
        self.len == 0
    }

    /// The stored message as text, or `?` where its bytes are not UTF-8 (a
    /// message cut in the middle of a character).
    pub fn message(&self) -> (m: &str)
        requires
            self.wf(),
        ensures
            valid_utf8(self.text()) ==> m.spec_bytes() == self.text(),
            !valid_utf8(self.text()) ==> m@ == "?"@,
    {
        let all: &[u8] = self.msg.as_slice();
        let head: &[u8] = vstd::slice::slice_subrange(all, 0, self.len);
        assert(head@ =~= self.text());
        match decode_utf8(head) {
            Some(s) => s,
            None => "?",
        }
    }
}

} // verus!
