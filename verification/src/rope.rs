use vstd::prelude::*;

use vstd::utf8::decode_utf8;
use vstd::utf8::encode_utf8;
use vstd::utf8::is_char_boundary;
use vstd::utf8::valid_utf8;

use crate::text::line_content;
use crate::text::line_content_len;
use crate::text::line_of;
use crate::text::line_start;
use crate::text::num_lines;

verus! {

// The rope is the one outside structure this crate builds on. Verified code
// never looks inside it: every call goes through one of the wrappers below,
// whose contracts restate what crop's documentation and source say over the
// byte-sequence model of `rope_text`. crop addresses bytes, counts a line per
// line feed with a final line feed closing the last line instead of opening a
// new one, and strips a line feed together with a carriage return directly
// before it when handing out a single line.

#[verifier::external_type_specification]
#[verifier::external_body]
pub struct ExRope(crop::Rope);

/// The bytes held by a rope.
pub uninterp spec fn rope_text(r: crop::Rope) -> Seq<u8>;

/// Relies on crop::Rope::new: a fresh rope is empty.
#[verifier::external_body]
pub(crate) fn rope_new() -> (r: crop::Rope)
    ensures
        rope_text(r) == Seq::<u8>::empty(),
{
    crop::Rope::new()
}

/// Relies on From<&str> for crop::Rope: the rope takes over the text's bytes.
#[verifier::external_body]
pub(crate) fn rope_from(text: &str) -> (r: crop::Rope)
    ensures
        rope_text(r) == encode_utf8(text@),
{
    crop::Rope::from(text)
}

/// Relies on crop::Rope::byte_len: the length of the rope in bytes.
#[verifier::external_body]
pub(crate) fn rope_byte_len(r: &crop::Rope) -> (n: usize)
    ensures
        n == rope_text(*r).len(),
{
    r.byte_len()
}

/// Relies on crop::Rope::line_len: the number of lines, a final line feed
/// closing the last line rather than opening an empty one.
#[verifier::external_body]
pub(crate) fn rope_line_len(r: &crop::Rope) -> (n: usize)
    ensures
        n == num_lines(rope_text(*r)),
{
    r.line_len()
}

/// Relies on crop::Rope::byte_of_line: the byte offset where the given line
/// starts, or the byte length for the offset just past the last line.
#[verifier::external_body]
pub(crate) fn rope_byte_of_line(r: &crop::Rope, row: usize) -> (off: usize)
    requires
        row as nat <= num_lines(rope_text(*r)),
    ensures
        off == line_start(rope_text(*r), row as nat),
{
    r.byte_of_line(row)
}

/// Relies on crop::Rope::line_of_byte: the line containing the given byte
/// offset, that is, the number of line feeds before it.
#[verifier::external_body]
pub(crate) fn rope_line_of_byte(r: &crop::Rope, off: usize) -> (row: usize)
    requires
        off as nat <= rope_text(*r).len(),
    ensures
        row == line_of(rope_text(*r), off as int),
{
    r.line_of_byte(off)
}

/// Relies on crop::Rope::line and crop::RopeSlice::byte_len: the byte length
/// of one line, its line terminator (a line feed, or a carriage return and
/// line feed) excluded.
#[verifier::external_body]
pub(crate) fn rope_line_byte_len(r: &crop::Rope, row: usize) -> (n: usize)
    requires
        (row as nat) < num_lines(rope_text(*r)),
    ensures
        n == line_content_len(rope_text(*r), row as nat),
{
    r.line(row).byte_len()
}

/// Relies on crop::Rope::byte: the byte at the given offset.
#[verifier::external_body]
pub(crate) fn rope_byte_at(r: &crop::Rope, off: usize) -> (b: u8)
    requires
        (off as nat) < rope_text(*r).len(),
    ensures
        b == rope_text(*r)[off as int],
{
    r.byte(off)
}

/// Relies on crop::Rope::insert: splices the string's bytes in at a byte
/// offset on a character boundary.
#[verifier::external_body]
pub(crate) fn rope_insert(r: &mut crop::Rope, byte_offset: usize, text: &str)
    requires
        valid_utf8(rope_text(*old(r))),
        byte_offset as nat <= rope_text(*old(r)).len(),
        is_char_boundary(rope_text(*old(r)), byte_offset as int),
    ensures
        rope_text(*final(r)) == rope_text(*old(r)).take(byte_offset as int) + encode_utf8(text@)
            + rope_text(*old(r)).skip(byte_offset as int),
{
    r.insert(byte_offset, text)
}

/// Relies on crop::Rope::delete: removes the bytes of a range whose ends lie
/// on character boundaries.
#[verifier::external_body]
pub(crate) fn rope_delete(r: &mut crop::Rope, start: usize, end: usize)
    requires
        valid_utf8(rope_text(*old(r))),
        start <= end,
        end as nat <= rope_text(*old(r)).len(),
        is_char_boundary(rope_text(*old(r)), start as int),
        is_char_boundary(rope_text(*old(r)), end as int),
    ensures
        rope_text(*final(r)) == rope_text(*old(r)).take(start as int) + rope_text(*old(r)).skip(
            end as int,
        ),
{
    r.delete(start..end)
}

/// Relies on crop::Rope::byte_slice and crop::RopeSlice's Display: the string
/// holds exactly the bytes of the range.
#[verifier::external_body]
pub(crate) fn rope_slice_to_string(r: &crop::Rope, start: usize, end: usize) -> (out: String)
    requires
        valid_utf8(rope_text(*r)),
        start <= end,
        end as nat <= rope_text(*r).len(),
        is_char_boundary(rope_text(*r), start as int),
        is_char_boundary(rope_text(*r), end as int),
    ensures
        out@ == decode_utf8(rope_text(*r).subrange(start as int, end as int)),
        encode_utf8(out@) == rope_text(*r).subrange(start as int, end as int),
{
    r.byte_slice(start..end).to_string()
}

/// Relies on crop::Rope::line, crop::RopeSlice::byte_slice and its Display:
/// the string holds exactly the given byte range of one line's content, the
/// line terminator excluded.
#[verifier::external_body]
pub(crate) fn rope_line_slice_to_string(r: &crop::Rope, row: usize, start: usize, end: usize) -> (out:
    String)
    requires
        valid_utf8(rope_text(*r)),
        (row as nat) < num_lines(rope_text(*r)),
        start <= end,
        end as int <= line_content_len(rope_text(*r), row as nat),
        is_char_boundary(line_content(rope_text(*r), row as nat), start as int),
        is_char_boundary(line_content(rope_text(*r), row as nat), end as int),
    ensures
        out@ == decode_utf8(line_content(rope_text(*r), row as nat).subrange(
            start as int,
            end as int,
        )),
        encode_utf8(out@) == line_content(rope_text(*r), row as nat).subrange(
            start as int,
            end as int,
        ),
{
    r.line(row).byte_slice(start..end).to_string()
}

/// Relies on crop::Rope's Display: the whole document as one string.
#[verifier::external_body]
pub(crate) fn rope_to_string(r: &crop::Rope) -> (out: String)
    requires
        valid_utf8(rope_text(*r)),
    ensures
        out@ == decode_utf8(rope_text(*r)),
        encode_utf8(out@) == rope_text(*r),
{
    r.to_string()
}

} // verus!
