//! The editor's text store and the byte-level facts the rest of the crate uses.
use ropey::Rope;
use vstd::prelude::*;
use vstd::utf8::encode_utf8;
use vstd::string::StringSliceAdditionalSpecFns;
use crate::utf8_facts::lemma_encode_utf8_concat;

verus! {

#[verifier::external_type_specification]
#[verifier::external_body]
pub struct ExRope(Rope);

/// The characters that a rope holds.
pub uninterp spec fn rope_chars(rope: Rope) -> Seq<char>;

/// The UTF-8 bytes that a rope holds.
pub open spec fn rope_bytes(rope: Rope) -> Seq<u8> {
    encode_utf8(rope_chars(rope))
}

/// A UTF-8 continuation byte (`0b10xx_xxxx`).
pub open spec fn is_continuation(b: u8) -> bool {
    0x80 <= b < 0xC0
}

/// A byte offset that starts a character or ends the text.
pub open spec fn char_boundary(bytes: Seq<u8>, i: int) -> bool {
    i == 0 || i == bytes.len() || (0 < i < bytes.len() && !is_continuation(bytes[i]))
}

/// `Rope::len_bytes`: the number of bytes the rope holds.
#[verifier::external_body]
pub(crate) fn rope_len(text: &Rope) -> (n: usize)
    ensures
        n == rope_bytes(*text).len(),
{
    text.len_bytes()
}

/// `Rope::byte`: the byte at an index below the length.
#[verifier::external_body]
pub(crate) fn rope_byte(text: &Rope, index: usize) -> (b: u8)
    requires
        index < rope_bytes(*text).len(),
    ensures
        b == rope_bytes(*text)[index as int],
{
    text.byte(index)
}

/// `Rope::from_str`: a rope holding exactly the bytes of the string.
#[verifier::external_body]
pub(crate) fn rope_from_str(s: &str) -> (r: Rope)
    ensures
        rope_chars(r) == s@,
{
    Rope::from_str(s)
}

/// The rope's `Display` output: a string holding exactly the rope's bytes.
#[verifier::external_body]
pub(crate) fn rope_to_string(text: &Rope) -> (s: String)
    ensures
        s@ == rope_chars(*text),
{
    text.to_string()
}

/// `Rope::byte_slice` of a range on character boundaries, as a string.
#[verifier::external_body]
pub(crate) fn rope_slice_to_string(text: &Rope, start: usize, end: usize) -> (s: String)
    requires
        start <= end <= rope_bytes(*text).len(),
        char_boundary(rope_bytes(*text), start as int),
        char_boundary(rope_bytes(*text), end as int),
    ensures
        encode_utf8(s@) == rope_bytes(*text).subrange(start as int, end as int),
{
    text.byte_slice(start..end).to_string()
}

/// `Rope::byte_slice` of a range on character boundaries, as a rope.
#[verifier::external_body]
pub(crate) fn rope_byte_slice(text: &Rope, start: usize, end: usize) -> (r: Rope)
    requires
        start <= end <= rope_bytes(*text).len(),
        char_boundary(rope_bytes(*text), start as int),
        char_boundary(rope_bytes(*text), end as int),
    ensures
        rope_bytes(r) == rope_bytes(*text).subrange(start as int, end as int),
{
    Rope::from(text.byte_slice(start..end))
}

/// `Rope::append`: the other rope's bytes follow this rope's bytes.
#[verifier::external_body]
pub(crate) fn rope_append(text: &mut Rope, other: Rope)
    ensures
        rope_chars(*final(text)) == rope_chars(*old(text)) + rope_chars(other),
{
    text.append(other)
}

/// `Rope == Rope`: equal exactly when the held bytes are equal.
#[verifier::external_body]
pub(crate) fn rope_eq(a: &Rope, b: &Rope) -> (r: bool)
    ensures
        r == (rope_chars(*a) == rope_chars(*b)),
{
    a == b
}

/// `Rope::clone`: a rope holding the same bytes.
#[verifier::external_body]
pub(crate) fn rope_clone(a: &Rope) -> (r: Rope)
    ensures
        rope_chars(r) == rope_chars(*a),
{
    a.clone()
}


/// Which way an offset inside a character moves to reach a boundary.
#[derive(Clone, Copy, Debug, PartialEq, Eq, Structural)]
pub enum Bias {
    Left,
    Right,
}

/// The greatest character boundary at or before `offset`, within the text.
pub open spec fn clip_left(bytes: Seq<u8>, offset: int) -> int
    decreases offset,
{
    if offset >= bytes.len() {
        bytes.len() as int
    } else if offset <= 0 || char_boundary(bytes, offset) {
        if offset < 0 { 0 } else { offset }
    } else {
        clip_left(bytes, offset - 1)
    }
}

/// The least character boundary at or after `offset`, within the text.
pub open spec fn clip_right(bytes: Seq<u8>, offset: int) -> int
    decreases bytes.len() - offset,
{
    if offset >= bytes.len() {
        bytes.len() as int
    } else if offset <= 0 || char_boundary(bytes, offset) {
        if offset < 0 { 0 } else { offset }
    } else {
        clip_right(bytes, offset + 1)
    }
}

/// The clipped offset of a bias.
pub open spec fn clip_spec(bytes: Seq<u8>, offset: int, bias: Bias) -> int {
    match bias {
        Bias::Left => clip_left(bytes, offset),
        Bias::Right => clip_right(bytes, offset),
    }
}

pub proof fn lemma_clip_left_bounds(bytes: Seq<u8>, offset: int)
    requires
        offset >= 0,
    ensures
        0 <= clip_left(bytes, offset) <= bytes.len(),
        clip_left(bytes, offset) <= offset,
        char_boundary(bytes, clip_left(bytes, offset)),
        forall|k: int|
            clip_left(bytes, offset) < k <= offset && k <= bytes.len() ==> !char_boundary(bytes, k),
    decreases offset,
{
    if offset >= bytes.len() {
    } else if offset <= 0 || char_boundary(bytes, offset) {
    } else {
        lemma_clip_left_bounds(bytes, offset - 1);
    }
}

pub proof fn lemma_clip_right_bounds(bytes: Seq<u8>, offset: int)
    requires
        offset >= 0,
    ensures
        0 <= clip_right(bytes, offset) <= bytes.len(),
        offset <= bytes.len() ==> offset <= clip_right(bytes, offset),
        char_boundary(bytes, clip_right(bytes, offset)),
        forall|k: int| offset <= k < clip_right(bytes, offset) ==> !char_boundary(bytes, k),
    decreases bytes.len() - offset,
{
    if offset >= bytes.len() {
    } else if offset <= 0 || char_boundary(bytes, offset) {
    } else {
        lemma_clip_right_bounds(bytes, offset + 1);
    }
}

/// Whether a byte begins a character (or the offset ends the text).
pub fn is_char_boundary_at(bytes: &[u8], offset: usize) -> (r: bool)
    requires
        offset <= bytes@.len(),
    ensures
        r == char_boundary(bytes@, offset as int),
{
    offset == 0 || offset == bytes.len() || !(0x80u8 <= bytes[offset] && bytes[offset] < 0xC0u8)
}

/// Move an offset into the text and onto a character boundary.
pub fn clip_offset_in(bytes: &[u8], offset: usize, bias: Bias) -> (r: usize)
    ensures
        r == clip_spec(bytes@, offset as int, bias),
{
    let len = bytes.len();
    let mut o = if offset >= len { len } else { offset };
    match bias {
        Bias::Left => {
            while o > 0 && o < len && !is_char_boundary_at(bytes, o)
                invariant
                    len == bytes@.len(),
                    o <= len,
                    clip_left(bytes@, offset as int) == clip_left(bytes@, o as int),
                decreases o,
            {
                o -= 1;
            }
        },
        Bias::Right => {
            while o > 0 && o < len && !is_char_boundary_at(bytes, o)
                invariant
                    len == bytes@.len(),
                    o <= len,
                    clip_right(bytes@, offset as int) == clip_right(bytes@, o as int),
                decreases len - o,
            {
                o += 1;
            }
        },
    }
    o
}

/// The rope's bytes as a string slice's bytes.
pub fn rope_text(text: &Rope) -> (s: String)
    ensures
        s@ == rope_chars(*text),
        encode_utf8(s@) == rope_bytes(*text),
{
    rope_to_string(text)
}

/// Move an offset into the rope's text and onto a character boundary.
pub fn clip_offset(text: &Rope, offset: usize, bias: Bias) -> (r: usize)
    ensures
        r == clip_spec(rope_bytes(*text), offset as int, bias),
{
    let s = rope_text(text);
    clip_offset_in(s.as_str().as_bytes(), offset, bias)
}

// ---------------------------------------------------------------------------
// Lines: rows are separated by line feeds.

/// The first line feed at or after `pos`, or the text's end.
pub open spec fn next_newline(bytes: Seq<u8>, pos: int) -> int
    decreases bytes.len() - pos,
{
    if pos >= bytes.len() {
        bytes.len() as int
    } else if pos >= 0 && bytes[pos] == 10u8 {
        pos
    } else {
        next_newline(bytes, pos + 1)
    }
}

/// Starting from `pos`, the offset just past the `row`-th line feed (the
/// text's end when there are fewer).
pub open spec fn line_start_from(bytes: Seq<u8>, row: nat, pos: int) -> int
    decreases bytes.len() - pos,
{
    if row == 0 {
        pos
    } else if pos >= bytes.len() {
        bytes.len() as int
    } else if pos >= 0 && bytes[pos] == 10u8 {
        line_start_from(bytes, (row - 1) as nat, pos + 1)
    } else {
        line_start_from(bytes, row, pos + 1)
    }
}

/// The offset where a row starts.
pub open spec fn line_start(bytes: Seq<u8>, row: nat) -> int {
    line_start_from(bytes, row, 0)
}

/// The offset where a row ends, before its line feed.
pub open spec fn line_end(bytes: Seq<u8>, row: nat) -> int {
    next_newline(bytes, line_start(bytes, row))
}

/// The number of line feeds before `end`.
pub open spec fn newlines_before(bytes: Seq<u8>, end: int) -> nat
    decreases end,
{
    if end <= 0 {
        0
    } else {
        newlines_before(bytes, end - 1) + if end - 1 < bytes.len() && bytes[end - 1] == 10u8 {
            1nat
        } else {
            0nat
        }
    }
}

/// The row of an offset (clipped to the text).
pub open spec fn row_of(bytes: Seq<u8>, offset: int) -> nat {
    newlines_before(bytes, if offset <= bytes.len() { offset } else { bytes.len() as int })
}

/// A row and a byte column.
#[derive(Clone, Copy, Debug, PartialEq, Eq, Structural)]
pub struct Point {
    pub row: usize,
    pub column: usize,
}

pub proof fn lemma_next_newline_bounds(bytes: Seq<u8>, pos: int)
    requires
        0 <= pos,
    ensures
        pos <= bytes.len() ==> pos <= next_newline(bytes, pos),
        next_newline(bytes, pos) <= bytes.len(),
        next_newline(bytes, pos) < bytes.len() ==> bytes[next_newline(bytes, pos)] == 10u8,
        forall|k: int| pos <= k < next_newline(bytes, pos) ==> bytes[k] != 10u8,
    decreases bytes.len() - pos,
{
    if pos >= bytes.len() {
    } else if bytes[pos] == 10u8 {
    } else {
        lemma_next_newline_bounds(bytes, pos + 1);
    }
}

pub proof fn lemma_line_start_from_bounds(bytes: Seq<u8>, row: nat, pos: int)
    requires
        0 <= pos <= bytes.len(),
    ensures
        pos <= line_start_from(bytes, row, pos) <= bytes.len(),
        row == 0 ==> line_start_from(bytes, row, pos) == pos,
        row > 0 ==> (line_start_from(bytes, row, pos) == bytes.len() || (line_start_from(bytes, row, pos) >= 1
            && bytes[line_start_from(bytes, row, pos) - 1] == 10u8)),
    decreases bytes.len() - pos,
{
    if row == 0 {
    } else if pos >= bytes.len() {
    } else if bytes[pos] == 10u8 {
        lemma_line_start_from_bounds(bytes, (row - 1) as nat, pos + 1);
    } else {
        lemma_line_start_from_bounds(bytes, row, pos + 1);
    }
}

/// Row starts and ends lie on character boundaries, in order.
pub proof fn lemma_line_bounds(c: Seq<char>, row: nat)
    ensures
        0 <= line_start(encode_utf8(c), row) <= line_end(encode_utf8(c), row) <= encode_utf8(c).len(),
        char_boundary(encode_utf8(c), line_start(encode_utf8(c), row)),
        char_boundary(encode_utf8(c), line_end(encode_utf8(c), row)),
{
    let b = encode_utf8(c);
    lemma_line_start_from_bounds(b, row, 0);
    let st = line_start(b, row);
    if st != 0 && st != b.len() {
        crate::utf8_facts::lemma_after_ascii(c, st - 1);
    }
    lemma_next_newline_bounds(b, st);
}

/// The number of line feeds before an offset of the bytes.
pub fn newlines_before_in(bytes: &[u8], end: usize) -> (n: usize)
    ensures
        n == newlines_before(bytes@, end as int),
        n <= end,
{
    let stop = if end <= bytes.len() { end } else { bytes.len() };
    let mut count: usize = 0;
    let mut i: usize = 0;
    while i < stop
        invariant
            stop <= bytes@.len(),
            i <= stop,
            count == newlines_before(bytes@, i as int),
            count <= i,
        decreases stop - i,
    {
        if bytes[i] == 10u8 {
            count += 1;
        }
        i += 1;
    }
    proof {
        lemma_newlines_before_flat(bytes@, stop as int, end as int);
    }
    count
}

proof fn lemma_newlines_before_flat(bytes: Seq<u8>, stop: int, end: int)
    requires
        0 <= stop <= end,
        stop == end || stop == bytes.len(),
    ensures
        newlines_before(bytes, end) == newlines_before(bytes, stop),
    decreases end - stop,
{
    if end > stop {
        lemma_newlines_before_flat(bytes, stop, end - 1);
    }
}

/// The offset where a row starts.
pub fn line_start_in(bytes: &[u8], row: usize) -> (r: usize)
    ensures
        r == line_start(bytes@, row as nat),
{
    let len = bytes.len();
    let mut pos: usize = 0;
    let mut remaining: usize = row;
    while remaining > 0 && pos < len
        invariant
            len == bytes@.len(),
            pos <= len,
            line_start(bytes@, row as nat) == line_start_from(bytes@, remaining as nat, pos as int),
        decreases len - pos,
    {
        if bytes[pos] == 10u8 {
            remaining -= 1;
        }
        pos += 1;
    }
    if remaining == 0 {
        pos
    } else {
        len
    }
}

/// The first line feed at or after an offset, or the text's end.
pub fn next_newline_in(bytes: &[u8], from: usize) -> (r: usize)
    ensures
        r == next_newline(bytes@, from as int),
{
    let len = bytes.len();
    let mut pos = from;
    while pos < len && bytes[pos] != 10u8
        invariant
            len == bytes@.len(),
            next_newline(bytes@, from as int) == next_newline(bytes@, pos as int),
        decreases len - pos,
    {
        pos += 1;
    }
    if pos >= len {
        len
    } else {
        pos
    }
}

/// The offset where a row ends, before its line feed.
pub fn line_end_in(bytes: &[u8], row: usize) -> (r: usize)
    ensures
        r == line_end(bytes@, row as nat),
{
    let start = line_start_in(bytes, row);
    next_newline_in(bytes, start)
}

/// The row and column of an offset (clipped to the text).
pub fn offset_to_point_in(bytes: &[u8], offset: usize) -> (p: Point)
    ensures
        p.row == row_of(bytes@, offset as int),
        p.column == (if offset <= bytes@.len() { offset as int } else { bytes@.len() as int }) - line_start(bytes@, p.row as nat),
{
    let clipped = if offset <= bytes.len() { offset } else { bytes.len() };
    let row = newlines_before_in(bytes, clipped);
    let start = line_start_in(bytes, row);
    proof {
        lemma_line_start_of_row(bytes@, clipped as int);
    }
    Point { row, column: clipped - start }
}

/// The row containing an offset starts at or before it.
pub proof fn lemma_line_start_of_row(bytes: Seq<u8>, offset: int)
    requires
        0 <= offset <= bytes.len(),
    ensures
        line_start(bytes, newlines_before(bytes, offset)) <= offset,
{
    lemma_line_start_from_prefix(bytes, offset);
}

/// Scanning the prefix before `offset` consumes exactly its line feeds.
proof fn lemma_line_start_from_prefix(bytes: Seq<u8>, offset: int)
    requires
        0 <= offset <= bytes.len(),
    ensures
        line_start_from(bytes, newlines_before(bytes, offset), 0) <= offset,
{
    lemma_line_start_from_scan(bytes, newlines_before(bytes, offset), 0, offset);
}

proof fn lemma_line_start_from_scan(bytes: Seq<u8>, row: nat, pos: int, offset: int)
    requires
        0 <= pos <= offset <= bytes.len(),
        row + newlines_before(bytes, pos) == newlines_before(bytes, offset),
    ensures
        line_start_from(bytes, row, pos) <= offset,
    decreases offset - pos,
{
    if row == 0 {
    } else if pos >= bytes.len() {
    } else {
        if pos == offset {
            assert(row == 0);
        }
        assert(newlines_before(bytes, pos + 1) == newlines_before(bytes, pos) + if bytes[pos] == 10u8 {
            1nat
        } else {
            0nat
        });
        lemma_newlines_monotone(bytes, pos + 1, offset);
        if bytes[pos] == 10u8 {
            lemma_line_start_from_scan(bytes, (row - 1) as nat, pos + 1, offset);
        } else {
            lemma_line_start_from_scan(bytes, row, pos + 1, offset);
        }
    }
}

proof fn lemma_newlines_monotone(bytes: Seq<u8>, a: int, b: int)
    requires
        a <= b,
    ensures
        newlines_before(bytes, a) <= newlines_before(bytes, b),
    decreases b - a,
{
    if a < b {
        lemma_newlines_monotone(bytes, a, b - 1);
    }
}

/// The row and column of an offset of the text.
pub fn offset_to_point(text: &Rope, offset: usize) -> (p: Point)
    ensures
        p.row == row_of(rope_bytes(*text), offset as int),
        p.column == (if offset <= rope_bytes(*text).len() { offset as int } else { rope_bytes(*text).len() as int }) - line_start(rope_bytes(*text), p.row as nat),
{
    let s = rope_text(text);
    offset_to_point_in(s.as_str().as_bytes(), offset)
}

/// The offset where a row of the text starts.
pub fn line_start_offset(text: &Rope, row: usize) -> (r: usize)
    ensures
        r == line_start(rope_bytes(*text), row as nat),
{
    let s = rope_text(text);
    line_start_in(s.as_str().as_bytes(), row)
}

/// The offset where a row of the text ends, before its line feed.
pub fn line_end_offset(text: &Rope, row: usize) -> (r: usize)
    ensures
        r == line_end(rope_bytes(*text), row as nat),
{
    let s = rope_text(text);
    line_end_in(s.as_str().as_bytes(), row)
}

// ---------------------------------------------------------------------------
// Editing by character index.

/// The number of leading characters whose encoding fits within `b` bytes: the
/// index of the character that starts at, or contains, byte `b`.
pub open spec fn chars_within(text: Seq<char>, b: int) -> nat
    decreases text.len(),
{
    if text.len() == 0 || encode_utf8(text).len() <= b {
        text.len()
    } else {
        chars_within(text.drop_last(), b)
    }
}

/// `Rope::len_chars`: the number of characters the rope holds.
#[verifier::external_body]
pub(crate) fn rope_len_chars(text: &Rope) -> (n: usize)
    ensures
        n == rope_chars(*text).len(),
{
    text.len_chars()
}

/// `Rope::byte_to_char`: the index of the character at (or containing) a byte
/// offset, or the character count at the end.
#[verifier::external_body]
pub(crate) fn rope_byte_to_char(text: &Rope, byte: usize) -> (c: usize)
    requires
        byte <= rope_bytes(*text).len(),
    ensures
        c == chars_within(rope_chars(*text), byte as int),
{
    text.byte_to_char(byte)
}

/// `Rope::remove` of a character range.
#[verifier::external_body]
pub(crate) fn rope_remove(text: &mut Rope, start: usize, end: usize)
    requires
        start <= end <= rope_chars(*old(text)).len(),
    ensures
        rope_chars(*final(text)) == rope_chars(*old(text)).subrange(0, start as int) + rope_chars(
            *old(text),
        ).subrange(end as int, rope_chars(*old(text)).len() as int),
{
    text.remove(start..end)
}

/// `Rope::insert` of a string at a character index.
#[verifier::external_body]
pub(crate) fn rope_insert(text: &mut Rope, at: usize, s: &str)
    requires
        at <= rope_chars(*old(text)).len(),
    ensures
        rope_chars(*final(text)) == rope_chars(*old(text)).subrange(0, at as int) + s@ + rope_chars(
            *old(text),
        ).subrange(at as int, rope_chars(*old(text)).len() as int),
{
    text.insert(at, s)
}

/// `Rope::slice` of a character range, as a string.
#[verifier::external_body]
pub(crate) fn rope_char_slice(text: &Rope, start: usize, end: usize) -> (s: String)
    requires
        start <= end <= rope_chars(*text).len(),
    ensures
        s@ == rope_chars(*text).subrange(start as int, end as int),
{
    text.slice(start..end).to_string()
}


/// Fitting characters grow with the byte budget and never exceed the count.
pub proof fn lemma_chars_within_monotone(text: Seq<char>, a: int, b: int)
    requires
        a <= b,
    ensures
        chars_within(text, a) <= chars_within(text, b) <= text.len(),
    decreases text.len(),
{
    if text.len() > 0 {
        lemma_chars_within_monotone(text.drop_last(), a, b);
    }
}


/// Every character takes at least one byte.
pub proof fn lemma_encode_len_lower(s: Seq<char>)
    ensures
        encode_utf8(s).len() >= s.len(),
    decreases s.len(),
{
    if s.len() > 0 {
        lemma_encode_len_lower(s.drop_first());
    }
}

/// The bytes of a character prefix hold exactly that many leading characters.
pub proof fn lemma_chars_within_prefix(s: Seq<char>, k: int)
    requires
        0 <= k <= s.len(),
    ensures
        chars_within(s, encode_utf8(s.subrange(0, k)).len() as int) == k,
    decreases s.len(),
{
    if k == s.len() {
        assert(s.subrange(0, k) =~= s);
    } else {
        let d = s.drop_last();
        let b = encode_utf8(s.subrange(0, k)).len() as int;
        assert(s =~= d + seq![s.last()]);
        lemma_encode_utf8_concat(d, seq![s.last()]);
        lemma_encode_len_lower(seq![s.last()]);
        assert(d =~= s.subrange(0, k) + d.subrange(k, d.len() as int));
        lemma_encode_utf8_concat(s.subrange(0, k), d.subrange(k, d.len() as int));
        assert(d.subrange(0, k) =~= s.subrange(0, k));
        lemma_chars_within_prefix(d, k);
    }
}


/// `Rope::get_char`: the character at a character index, if there is one.
#[verifier::external_body]
pub(crate) fn rope_get_char(text: &Rope, index: usize) -> (r: Option<char>)
    ensures
        r == (if index < rope_chars(*text).len() { Some(rope_chars(*text)[index as int]) } else { None }),
{
    text.get_char(index)
}

/// The character at (or containing) a byte offset, if the offset is inside the text.
pub open spec fn char_at_spec(t: Seq<char>, offset: int) -> Option<char> {
    if 0 <= offset <= encode_utf8(t).len() && chars_within(t, offset) < t.len() {
        Some(t[chars_within(t, offset) as int])
    } else {
        None
    }
}

/// The character at (or containing) a byte offset of the text.
pub fn char_at(text: &Rope, offset: usize) -> (r: Option<char>)
    ensures
        r == char_at_spec(rope_chars(*text), offset as int),
{
    if offset > rope_len(text) {
        return None;
    }
    let index = rope_byte_to_char(text, offset);
    rope_get_char(text, index)
}

} // verus!

verus! {

/// The characters of a string, in order.
pub fn str_chars(s: &str) -> (r: Vec<char>)
    ensures
        r@ == s@,
{
    broadcast use vstd::string::axiom_spec_iter, vstd::string::next_postcondition;

    let mut it = s.chars();
    let mut r: Vec<char> = Vec::new();
    loop
        invariant
            r@ + vstd::std_specs::iter::IteratorSpec::remaining(&it) == s@,
        ensures
            r@ == s@,
        decreases s@.len() - r@.len(),
    {
        match it.next() {
            Some(c) => {
                r.push(c);
            },
            None => {
                break;
            },
        }
    }
    r
}

} // verus!

verus! {

/// The row after a given one starts just past the line feed that ends it.
pub proof fn lemma_next_row_start(bytes: Seq<u8>, row: nat, pos: int)
    requires
        0 <= pos <= bytes.len(),
    ensures
        line_start_from(bytes, row + 1, pos) == ({
            let q = line_start_from(bytes, row, pos);
            if q >= bytes.len() || next_newline(bytes, q) >= bytes.len() {
                bytes.len() as int
            } else {
                next_newline(bytes, q) + 1
            }
        }),
    decreases bytes.len() - pos,
{
    lemma_line_start_from_bounds(bytes, row, pos);
    if pos >= bytes.len() {
    } else if row == 0 {
        if bytes[pos] != 10u8 {
            lemma_next_row_start(bytes, 0, pos + 1);
        }
    } else if bytes[pos] == 10u8 {
        lemma_next_row_start(bytes, (row - 1) as nat, pos + 1);
        assert((row - 1) as nat + 1 == row);
    } else {
        lemma_next_row_start(bytes, row, pos + 1);
    }
}

/// An offset of the text lies within its row: at or after the row's start
/// and at or before the row's end.
pub proof fn lemma_offset_within_row(bytes: Seq<u8>, offset: int)
    requires
        0 <= offset <= bytes.len(),
    ensures
        line_start(bytes, row_of(bytes, offset)) <= offset <= line_end(bytes, row_of(bytes, offset)),
    decreases offset,
{
    if offset == 0 {
        lemma_next_newline_bounds(bytes, 0);
    } else {
        let o = offset - 1;
        lemma_offset_within_row(bytes, o);
        let r = newlines_before(bytes, o);
        let ls = line_start(bytes, r);
        lemma_line_start_from_bounds(bytes, r, 0);
        lemma_next_newline_bounds(bytes, ls);
        assert(newlines_before(bytes, offset) == r + if bytes[o] == 10u8 { 1nat } else { 0nat });
        if bytes[o] == 10u8 {
            lemma_next_row_start(bytes, r, 0);
            assert(next_newline(bytes, ls) == o);
            lemma_next_newline_bounds(bytes, offset);
        }
    }
}

/// Each row ends at or before the next row starts, and starts at or before
/// its own end.
proof fn lemma_row_step(bytes: Seq<u8>, r: nat)
    ensures
        line_start(bytes, r) <= line_end(bytes, r) <= line_start(bytes, r + 1),
{
    lemma_line_start_from_bounds(bytes, r, 0);
    lemma_next_newline_bounds(bytes, line_start(bytes, r));
    lemma_next_row_start(bytes, r, 0);
}

/// Rows start in order.
pub proof fn lemma_line_start_monotone(bytes: Seq<u8>, a: nat, c: nat)
    requires
        a <= c,
    ensures
        line_start(bytes, a) <= line_start(bytes, c),
    decreases c - a,
{
    if a < c {
        lemma_line_start_monotone(bytes, a, (c - 1) as nat);
        lemma_row_step(bytes, (c - 1) as nat);
        assert((c - 1) as nat + 1 == c);
    }
}

/// A row ends at or before any later row starts.
pub proof fn lemma_line_end_before(bytes: Seq<u8>, a: nat, c: nat)
    requires
        a < c,
    ensures
        line_end(bytes, a) <= line_start(bytes, c),
{
    lemma_row_step(bytes, a);
    lemma_line_start_monotone(bytes, a + 1, c);
}

/// There are no more line feeds before an offset than bytes.
pub proof fn lemma_newlines_before_bound(bytes: Seq<u8>, end: int)
    ensures
        end >= 0 ==> newlines_before(bytes, end) <= end,
    decreases end,
{
    if end > 0 {
        lemma_newlines_before_bound(bytes, end - 1);
    }
}

} // verus!
