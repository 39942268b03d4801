//! Reading the request text: the target of the request line, the end of the
//! header block, and whether anything follows it.

use crate::bytes::{contains, contains_seq, copy_range, find, first_occurrence};
use vstd::prelude::*;

verus! {

/// The line feed that ends the request line.
pub const LINE_FEED: u8 = 10;

/// The space that parts the fields of the request line.
pub const SPACE: u8 = 32;

/// The blank line that ends the header block: CR LF CR LF.
pub open spec fn terminator() -> Seq<u8> {
    seq![13u8, 10u8, 13u8, 10u8]
}

/// The first offset at or after `from` that holds `stop`, or the length of
/// `s` where none does.
pub open spec fn scan(s: Seq<u8>, stop: u8, from: int) -> int
    decreases s.len() - from,
{
    if from < 0 || from >= s.len() || s[from] == stop {
        from
    } else {
        scan(s, stop, from + 1)
    }
}

/// The request line: the text before the first line feed.
pub open spec fn request_line(message: Seq<u8>) -> Seq<u8> {
    message.subrange(0, scan(message, LINE_FEED, 0))
}

/// The target of a request: the second space-separated field of the request
/// line without its first byte (the leading slash). There is none where the
/// line has a single field or the second field is empty.
pub open spec fn target_of(message: Seq<u8>) -> Option<Seq<u8>> {
    let line = request_line(message);
    let start = scan(line, SPACE, 0) + 1;
    let end = scan(line, SPACE, start);
    if start > line.len() || end == start {
        None
    } else {
        Some(line.subrange(start + 1, end))
    }
}

/// The header block of `message` has ended.
pub open spec fn is_complete(message: Seq<u8>) -> bool {
    contains_seq(message, terminator())
}

/// Something follows the first blank line of `message`.
pub open spec fn has_body(message: Seq<u8>) -> bool {
    exists|at: int| first_occurrence(message, terminator(), at) && at + 4 < message.len()
}

/// The first offset at or after `from` that holds `stop`, or the length of
/// `s`.
pub fn find_byte(s: &[u8], stop: u8, from: usize) -> (r: usize)
    requires
        from <= s.len(),
    ensures
        r == scan(s@, stop, from as int),
        from <= r <= s.len(),
{
    let mut i: usize = from;
    while i < s.len() && s[i] != stop
        invariant
            from <= i <= s.len(),
            scan(s@, stop, from as int) == scan(s@, stop, i as int),
        decreases s.len() - i,
    {
        i += 1;
    }
    i
}

/// The target of the request in `message`, where it has one.
pub fn request_target(message: &[u8]) -> (r: Option<Vec<u8>>)
    ensures
        match r {
            Some(t) => target_of(message@) == Some(t@),
            None => target_of(message@) is None,
        },
{
    let line_end = find_byte(message, LINE_FEED, 0);
    let line = copy_range(message, 0, line_end);
    let first_space = find_byte(line.as_slice(), SPACE, 0);
    if first_space >= line.len() {
        return None;
    }
    let start: usize = first_space + 1;
    let end = find_byte(line.as_slice(), SPACE, start);
    if end == start {
        return None;
    }
    Some(copy_range(line.as_slice(), start + 1, end))
}

/// Whether the header block of `message` has ended, so that no more of the
/// request needs to be read.
pub fn request_complete(message: &[u8]) -> (r: bool)
    ensures
        r == is_complete(message@),
{
    let blank = vec![13u8, 10u8, 13u8, 10u8];
    assert(blank@ =~= terminator());
    contains(message, blank.as_slice())
}

/// Whether anything follows the header block of `message`.
pub fn carries_body(message: &[u8]) -> (r: bool)
    ensures
        r == has_body(message@),
{
    let blank = vec![13u8, 10u8, 13u8, 10u8];
    assert(blank@ =~= terminator());
    match find(message, blank.as_slice()) {
        Some(at) => {
            assert(first_occurrence(message@, terminator(), at as int));
            assert(terminator().len() == 4);
            message.len() - at > 4
        },
        None => false,
    }
}

} // verus!
