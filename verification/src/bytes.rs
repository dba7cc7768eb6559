//! Byte classes of the format and the runs they form.

use vstd::prelude::*;

verus! {

pub const SPACE: u8 = 0x20;

pub const TAB: u8 = 0x09;

pub const LINE_FEED: u8 = 0x0a;

pub const CARRIAGE_RETURN: u8 = 0x0d;

pub const MINUS: u8 = 0x2d;

pub const POINT: u8 = 0x2e;

pub const ZERO: u8 = 0x30;

pub const NINE: u8 = 0x39;

pub const OPEN_BRACE: u8 = 0x7b;

pub const CLOSE_BRACE: u8 = 0x7d;

/// The classes of bytes that the format tells apart.
#[derive(Clone, Copy, Debug, PartialEq, Eq, Structural)]
pub enum ByteClass {
    /// Blank, tab, line feed or carriage return.
    Space,
    /// An ASCII decimal digit.
    Digit,
    /// Anything that may stand in a bare word: no white space and no brace.
    Word,
}

/// Whether `b` belongs to the class `c`.
pub open spec fn in_class(c: ByteClass, b: u8) -> bool {
    match c {
        ByteClass::Space => b == SPACE || b == TAB || b == LINE_FEED || b == CARRIAGE_RETURN,
        ByteClass::Digit => ZERO <= b <= NINE,
        ByteClass::Word => !(b == SPACE || b == TAB || b == LINE_FEED || b == CARRIAGE_RETURN)
            && b != OPEN_BRACE && b != CLOSE_BRACE,
    }
}

/// The end of the longest run of bytes of class `c` that starts at `i`.
/// Where no such byte stands at `i`, that is `i` itself.
pub open spec fn run_end(s: Seq<u8>, c: ByteClass, i: int) -> int
    decreases s.len() - i,
{
    if 0 <= i < s.len() && in_class(c, s[i]) {
        run_end(s, c, i + 1)
    } else {
        i
    }
}

/// A run ends inside the text, holds only bytes of its class, and is
/// followed by a byte of another class or by the end of the text.
pub proof fn lemma_run_end(s: Seq<u8>, c: ByteClass, i: int)
    requires
        0 <= i <= s.len(),
    ensures
        i <= run_end(s, c, i) <= s.len(),
        forall|k: int| i <= k < run_end(s, c, i) ==> in_class(c, #[trigger] s[k]),
        run_end(s, c, i) < s.len() ==> !in_class(c, s[run_end(s, c, i)]),
    decreases s.len() - i,
{
    if i < s.len() && in_class(c, s[i]) {
        lemma_run_end(s, c, i + 1);
    }
}

/// Tells whether `b` belongs to the class `c`.
pub fn has_class(c: ByteClass, b: u8) -> (r: bool)
    ensures
        r == in_class(c, b),
{
    let space = b == SPACE || b == TAB || b == LINE_FEED || b == CARRIAGE_RETURN;
    match c {
        ByteClass::Space => space,
        ByteClass::Digit => ZERO <= b && b <= NINE,
        ByteClass::Word => !space && b != OPEN_BRACE && b != CLOSE_BRACE,
    }
}

/// Walks over the run of bytes of class `c` that starts at `i`. Behind the
/// end of the text there is no run, and the walk ends where it starts.
pub fn scan(s: &[u8], c: ByteClass, i: usize) -> (j: usize)
    ensures
        j == run_end(s@, c, i as int),
        i <= j,
        i <= s.len() ==> j <= s.len(),
{
    if i >= s.len() {
        return i;
    }
    let mut j: usize = i;
    while j < s.len() && has_class(c, s[j])
        invariant
            i <= j <= s.len(),
            run_end(s@, c, j as int) == run_end(s@, c, i as int),
        decreases s.len() - j,
    {
        j += 1;
    }
    j
}

} // verus!
