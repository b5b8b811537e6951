//! Extended-grapheme boundaries of the editor text.
use crate::text::{
    char_boundary, clip_left, clip_offset_in, clip_right, lemma_clip_left_bounds, lemma_clip_right_bounds,
    rope_bytes, rope_chars, rope_text, Bias,
};
use ropey::Rope;
use unicode_segmentation::GraphemeCursor;
use vstd::prelude::*;
use vstd::string::StringSliceAdditionalSpecFns;
use vstd::utf8::encode_utf8;

verus! {

/// Whether an offset of the text is an extended grapheme cluster boundary.
pub uninterp spec fn grapheme_boundary(text: Seq<char>, offset: usize) -> bool;

/// The extended grapheme cluster boundary before an offset.
pub uninterp spec fn grapheme_prev(text: Seq<char>, offset: usize) -> usize;

/// The extended grapheme cluster boundary after an offset.
pub uninterp spec fn grapheme_next(text: Seq<char>, offset: usize) -> usize;

/// `GraphemeCursor::is_boundary` over the whole text, for extended clusters.
/// The text's two ends are boundaries; which inner offsets are is not stated.
#[verifier::external_body]
fn cursor_is_boundary(text: &str, offset: usize) -> (r: bool)
    requires
        offset <= text.spec_bytes().len(),
        char_boundary(text.spec_bytes(), offset as int),
    ensures
        r == grapheme_boundary(text@, offset),
        offset == 0 || offset == text.spec_bytes().len() ==> r,
{
    matches!(GraphemeCursor::new(offset, text.len(), true).is_boundary(text, 0), Ok(true))
}

/// `GraphemeCursor::prev_boundary` over the whole text from an offset past its
/// start: the nearest boundary before the offset, which is a character boundary.
#[verifier::external_body]
fn cursor_prev_boundary(text: &str, offset: usize) -> (r: usize)
    requires
        0 < offset <= text.spec_bytes().len(),
        char_boundary(text.spec_bytes(), offset as int),
    ensures
        r == grapheme_prev(text@, offset),
        r < offset,
        char_boundary(text.spec_bytes(), r as int),
        grapheme_boundary(text@, r),
        forall|k: usize|
            r < k < offset && char_boundary(text.spec_bytes(), k as int) ==> !grapheme_boundary(
                text@,
                k,
            ),
{
    match GraphemeCursor::new(offset, text.len(), true).prev_boundary(text, 0) {
        Ok(Some(previous)) => previous,
        _ => 0,
    }
}

/// `GraphemeCursor::next_boundary` over the whole text from an offset before its
/// end: the nearest boundary after the offset, which is a character boundary.
#[verifier::external_body]
fn cursor_next_boundary(text: &str, offset: usize) -> (r: usize)
    requires
        offset < text.spec_bytes().len(),
        char_boundary(text.spec_bytes(), offset as int),
    ensures
        r == grapheme_next(text@, offset),
        offset < r <= text.spec_bytes().len(),
        char_boundary(text.spec_bytes(), r as int),
        grapheme_boundary(text@, r),
        forall|k: usize|
            offset < k < r && char_boundary(text.spec_bytes(), k as int) ==> !grapheme_boundary(
                text@,
                k,
            ),
{
    match GraphemeCursor::new(offset, text.len(), true).next_boundary(text, 0) {
        Ok(Some(next)) => next,
        _ => text.len(),
    }
}

/// The boundary before the (left-clipped) offset; 0 at the start.
pub open spec fn previous_spec(text: Seq<char>, offset: int) -> int {
    let c = clip_left(encode_utf8(text), offset);
    if c == 0 {
        0
    } else {
        grapheme_prev(text, c as usize) as int
    }
}

/// The boundary after the (right-clipped) offset; the length at the end.
pub open spec fn next_spec(text: Seq<char>, offset: int) -> int {
    let c = clip_right(encode_utf8(text), offset);
    if c == encode_utf8(text).len() {
        c
    } else {
        grapheme_next(text, c as usize) as int
    }
}

/// The (left-clipped) offset if it is a boundary, else the boundary before it.
pub open spec fn floor_spec(text: Seq<char>, offset: int) -> int {
    let c = clip_left(encode_utf8(text), offset);
    if grapheme_boundary(text, c as usize) {
        c
    } else {
        previous_spec(text, c)
    }
}

/// The (right-clipped) offset if it is a boundary, else the boundary after it.
pub open spec fn ceil_spec(text: Seq<char>, offset: int) -> int {
    let c = clip_right(encode_utf8(text), offset);
    if grapheme_boundary(text, c as usize) {
        c
    } else {
        next_spec(text, c)
    }
}

proof fn lemma_clip_left_fixed(bytes: Seq<u8>, c: int)
    requires
        0 <= c <= bytes.len(),
        char_boundary(bytes, c),
    ensures
        clip_left(bytes, c) == c,
{
}

proof fn lemma_clip_right_fixed(bytes: Seq<u8>, c: int)
    requires
        0 <= c <= bytes.len(),
        char_boundary(bytes, c),
    ensures
        clip_right(bytes, c) == c,
{
}

/// The grapheme boundary before an offset of a string.
pub fn previous_in(text: &str, offset: usize) -> (r: usize)
    ensures
        r == previous_spec(text@, offset as int),
        r <= clip_left(text.spec_bytes(), offset as int),
        char_boundary(text.spec_bytes(), r as int),
{
    let c = clip_offset_in(text.as_bytes(), offset, Bias::Left);
    proof {
        lemma_clip_left_bounds(text.spec_bytes(), offset as int);
    }
    if c == 0 {
        0
    } else {
        cursor_prev_boundary(text, c)
    }
}

/// The grapheme boundary after an offset of a string.
pub fn next_in(text: &str, offset: usize) -> (r: usize)
    ensures
        r == next_spec(text@, offset as int),
        r >= clip_right(text.spec_bytes(), offset as int),
        r <= text.spec_bytes().len(),
        char_boundary(text.spec_bytes(), r as int),
{
    let c = clip_offset_in(text.as_bytes(), offset, Bias::Right);
    proof {
        lemma_clip_right_bounds(text.spec_bytes(), offset as int);
    }
    if c == text.as_bytes().len() {
        c
    } else {
        cursor_next_boundary(text, c)
    }
}

/// The greatest grapheme boundary at or before an offset of a string.
pub fn floor_in(text: &str, offset: usize) -> (r: usize)
    ensures
        r == floor_spec(text@, offset as int),
        r <= clip_left(text.spec_bytes(), offset as int),
        char_boundary(text.spec_bytes(), r as int),
        grapheme_boundary(text@, r),
        forall|k: usize|
            r < k <= clip_left(text.spec_bytes(), offset as int) && char_boundary(
                text.spec_bytes(),
                k as int,
            ) ==> !grapheme_boundary(text@, k),
{
    let c = clip_offset_in(text.as_bytes(), offset, Bias::Left);
    proof {
        lemma_clip_left_bounds(text.spec_bytes(), offset as int);
    }
    if cursor_is_boundary(text, c) {
        c
    } else {
        proof {
            lemma_clip_left_fixed(text.spec_bytes(), c as int);
        }
        cursor_prev_boundary(text, c)
    }
}

/// The least grapheme boundary at or after an offset of a string.
pub fn ceil_in(text: &str, offset: usize) -> (r: usize)
    ensures
        r == ceil_spec(text@, offset as int),
        r >= clip_right(text.spec_bytes(), offset as int),
        r <= text.spec_bytes().len(),
        char_boundary(text.spec_bytes(), r as int),
        grapheme_boundary(text@, r),
        forall|k: usize|
            clip_right(text.spec_bytes(), offset as int) <= k < r && char_boundary(
                text.spec_bytes(),
                k as int,
            ) ==> !grapheme_boundary(text@, k),
{
    let c = clip_offset_in(text.as_bytes(), offset, Bias::Right);
    proof {
        lemma_clip_right_bounds(text.spec_bytes(), offset as int);
    }
    if cursor_is_boundary(text, c) {
        c
    } else {
        proof {
            lemma_clip_right_fixed(text.spec_bytes(), c as int);
        }
        cursor_next_boundary(text, c)
    }
}

/// The grapheme boundary before an offset of the text.
pub fn previous(text: &Rope, offset: usize) -> (r: usize)
    ensures
        r == previous_spec(rope_chars(*text), offset as int),
        r <= offset,
        r <= rope_bytes(*text).len(),
        char_boundary(rope_bytes(*text), r as int),
{
    let s = rope_text(text);
    proof {
        lemma_clip_left_bounds(rope_bytes(*text), offset as int);
    }
    previous_in(s.as_str(), offset)
}

/// The grapheme boundary after an offset of the text.
pub fn next(text: &Rope, offset: usize) -> (r: usize)
    ensures
        r == next_spec(rope_chars(*text), offset as int),
        offset <= rope_bytes(*text).len() ==> offset <= r,
        r <= rope_bytes(*text).len(),
        char_boundary(rope_bytes(*text), r as int),
{
    let s = rope_text(text);
    proof {
        lemma_clip_right_bounds(rope_bytes(*text), offset as int);
    }
    next_in(s.as_str(), offset)
}

/// The greatest grapheme boundary at or before an offset of the text.
pub fn floor(text: &Rope, offset: usize) -> (r: usize)
    ensures
        r == floor_spec(rope_chars(*text), offset as int),
        r <= clip_left(rope_bytes(*text), offset as int),
        char_boundary(rope_bytes(*text), r as int),
        grapheme_boundary(rope_chars(*text), r),
        forall|k: usize|
            r < k <= clip_left(rope_bytes(*text), offset as int) && char_boundary(rope_bytes(*text), k as int)
                ==> !grapheme_boundary(rope_chars(*text), k),
{
    let s = rope_text(text);
    floor_in(s.as_str(), offset)
}

/// The least grapheme boundary at or after an offset of the text.
pub fn ceil(text: &Rope, offset: usize) -> (r: usize)
    ensures
        r == ceil_spec(rope_chars(*text), offset as int),
        r >= clip_right(rope_bytes(*text), offset as int),
        r <= rope_bytes(*text).len(),
        char_boundary(rope_bytes(*text), r as int),
        grapheme_boundary(rope_chars(*text), r),
        forall|k: usize|
            clip_right(rope_bytes(*text), offset as int) <= k < r && char_boundary(rope_bytes(*text), k as int)
                ==> !grapheme_boundary(rope_chars(*text), k),
{
    let s = rope_text(text);
    ceil_in(s.as_str(), offset)
}

} // verus!
