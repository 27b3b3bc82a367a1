//! Character-level helpers shared by the lexer, the parser and lowering.
use vstd::prelude::*;
use vstd::string::*;

verus! {

/// The characters of `source`, in order.
pub fn chars_of(source: &str) -> (r: Vec<char>)
    ensures
        r@ == source@,
{
    let mut out: Vec<char> = Vec::new();
    for c in it: source.chars()
        invariant
            out@ == it.seq().subrange(0, it.index() as int),
    {
        out.push(c);
    }
    out
}

/// ASCII case folding of one character, as a code point.
pub open spec fn fold(c: char) -> u32 {
    if 'A' <= c && c <= 'Z' {
        (c as u32 + 32) as u32
    } else {
        c as u32
    }
}

/// `s` equals the lower-case keyword `kw` up to ASCII case.
pub open spec fn ci_eq(s: Seq<char>, kw: Seq<char>) -> bool {
    &&& s.len() == kw.len()
    &&& forall|i: int| 0 <= i < s.len() ==> fold(#[trigger] s[i]) == kw[i] as u32
}

/// Compares `s` with the lower-case keyword `kw`, ignoring ASCII case.
pub fn ci_equals(s: &[char], kw: &[char]) -> (r: bool)
    ensures
        r == ci_eq(s@, kw@),
{
    if s.len() != kw.len() {
        return false;
    }
    let mut i: usize = 0;
    while i < s.len()
        invariant
            s@.len() == kw@.len(),
            i <= s@.len(),
            forall|j: int| 0 <= j < i ==> fold(#[trigger] s@[j]) == kw@[j] as u32,
        decreases s@.len() - i,
    {
        let c = s[i];
        let f: u32 = if 'A' <= c && c <= 'Z' { c as u32 + 32 } else { c as u32 };
        if f != kw[i] as u32 {
            return false;
        }
        i = i + 1;
    }
    true
}

/// The characters of `chars` as an owned string.
///
/// Relies on std's `FromIterator<&char>` for `String`, which appends each
/// character in turn.
#[verifier::external_body]
pub(crate) fn string_of(chars: &[char]) -> (r: String)
    ensures
        r@ == chars@,
{
    chars.iter().collect()
}

} // verus!
