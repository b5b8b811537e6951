//! Structure of UTF-8 encoded text: where characters start.
use crate::text::{char_boundary, is_continuation};
use vstd::prelude::*;
use vstd::utf8::*;

verus! {

/// The encoded length announced by a leading byte (0 for a continuation or
/// invalid byte).
pub open spec fn width_of(b: u8) -> int {
    if b < 0x80 {
        1
    } else if 0xC0 <= b < 0xE0 {
        2
    } else if 0xE0 <= b < 0xF0 {
        3
    } else if 0xF0 <= b < 0xF8 {
        4
    } else {
        0
    }
}

proof fn lemma_width_1(x: u32)
    requires
        has_width_1_encoding(x),
    ensures
        leading_byte_width_1(x) < 0x80,
{
    assert((x & 0x7F) < 0x80) by (bit_vector);
}

proof fn lemma_width_2(x: u32)
    requires
        has_width_2_encoding(x),
    ensures
        0xC0 <= leading_byte_width_2(x) < 0xE0,
        is_continuation(last_continuation_byte(x)),
{
    assert(0xC0 <= (0xC0 | ((x >> 6) & 0x1F) as u8) < 0xE0) by (bit_vector);
    assert(0x80 <= (0x80 | (x & 0x3F) as u8) < 0xC0) by (bit_vector);
}

proof fn lemma_width_3(x: u32)
    requires
        has_width_3_encoding(x),
    ensures
        0xE0 <= leading_byte_width_3(x) < 0xF0,
        is_continuation(second_last_continuation_byte(x)),
        is_continuation(last_continuation_byte(x)),
{
    assert(0xE0 <= (0xE0 | ((x >> 12) & 0x0F) as u8) < 0xF0) by (bit_vector);
    assert(0x80 <= (0x80 | ((x >> 6) & 0x3F) as u8) < 0xC0) by (bit_vector);
    assert(0x80 <= (0x80 | (x & 0x3F) as u8) < 0xC0) by (bit_vector);
}

proof fn lemma_width_4(x: u32)
    requires
        has_width_4_encoding(x),
    ensures
        0xF0 <= leading_byte_width_4(x) < 0xF8,
        is_continuation(third_last_continuation_byte(x)),
        is_continuation(second_last_continuation_byte(x)),
        is_continuation(last_continuation_byte(x)),
{
    assert(0xF0 <= (0xF0 | ((x >> 18) & 0x7) as u8) < 0xF8) by (bit_vector);
    assert(0x80 <= (0x80 | ((x >> 12) & 0x3F) as u8) < 0xC0) by (bit_vector);
    assert(0x80 <= (0x80 | ((x >> 6) & 0x3F) as u8) < 0xC0) by (bit_vector);
    assert(0x80 <= (0x80 | (x & 0x3F) as u8) < 0xC0) by (bit_vector);
}

/// A scalar's encoding is a leading byte announcing its length, then
/// continuation bytes.
pub proof fn lemma_encode_scalar_shape(x: u32)
    requires
        is_scalar(x),
    ensures
        encode_scalar(x).len() >= 1,
        width_of(encode_scalar(x)[0]) == encode_scalar(x).len(),
        !is_continuation(encode_scalar(x)[0]),
        forall|k: int| 1 <= k < encode_scalar(x).len() ==> is_continuation(#[trigger] encode_scalar(x)[k]),
{
    if has_width_1_encoding(x) {
        lemma_width_1(x);
    } else if has_width_2_encoding(x) {
        lemma_width_2(x);
    } else if has_width_3_encoding(x) {
        lemma_width_3(x);
    } else {
        lemma_width_4(x);
    }
}

/// Every character starts with a non-continuation byte whose announced width
/// is followed by exactly that many continuation bytes, then a new character.
pub open spec fn stream_shape(b: Seq<u8>) -> bool {
    &&& (b.len() > 0 ==> !is_continuation(b[0]))
    &&& forall|j: int|
        0 <= j < b.len() && !is_continuation(#[trigger] b[j]) ==> {
            let w = width_of(b[j]);
            &&& 1 <= w
            &&& j + w <= b.len()
            &&& (forall|k: int| j < k < j + w ==> is_continuation(#[trigger] b[k]))
            &&& (j + w < b.len() ==> !is_continuation(b[j + w]))
        }
}

pub proof fn lemma_encode_utf8_first(c: Seq<char>)
    requires
        c.len() > 0,
    ensures
        encode_utf8(c) == encode_scalar(c[0] as u32) + encode_utf8(c.drop_first()),
{
}

pub proof fn lemma_stream_shape(c: Seq<char>)
    ensures
        stream_shape(encode_utf8(c)),
    decreases c.len(),
{
    if c.len() == 0 {
        assert(encode_utf8(c) =~= Seq::<u8>::empty());
    } else {
        let rest = c.drop_first();
        lemma_stream_shape(rest);
        let x = c[0] as u32;
        char_is_scalar(c[0]);
        assert(is_scalar(x));
        lemma_encode_scalar_shape(x);
        let e = encode_scalar(x);
        let r = encode_utf8(rest);
        let b = encode_utf8(c);
        assert(b =~= e + r);
        assert forall|j: int|
            0 <= j < b.len() && !is_continuation(#[trigger] b[j]) implies {
            let w = width_of(b[j]);
            &&& 1 <= w
            &&& j + w <= b.len()
            &&& (forall|k: int| j < k < j + w ==> is_continuation(#[trigger] b[k]))
            &&& (j + w < b.len() ==> !is_continuation(b[j + w]))
        } by {
            if j < e.len() {
                if j > 0 {
                    assert(is_continuation(e[j]));
                    assert(b[j] == e[j]);
                }
                assert(j == 0);
                assert(b[0] == e[0]);
                assert forall|k: int| j < k < j + width_of(b[j]) implies is_continuation(#[trigger] b[k]) by {
                    assert(b[k] == e[k]);
                }
                if e.len() < b.len() {
                    assert(b[e.len() as int] == r[0]);
                }
            } else {
                let i = j - e.len();
                assert(b[j] == r[i]);
                assert forall|k: int| j < k < j + width_of(b[j]) implies is_continuation(#[trigger] b[k]) by {
                    assert(b[k] == r[k - e.len()]);
                }
                if j + width_of(b[j]) < b.len() {
                    assert(b[j + width_of(b[j])] == r[i + width_of(r[i])]);
                }
            }
        }
        assert(b[0] == e[0]);
    }
}

/// In UTF-8 text, the byte after an ASCII byte starts a character.
pub proof fn lemma_after_ascii(c: Seq<char>, j: int)
    requires
        0 <= j < encode_utf8(c).len(),
        encode_utf8(c)[j] < 0x80,
    ensures
        char_boundary(encode_utf8(c), j + 1),
{
    lemma_stream_shape(c);
    let b = encode_utf8(c);
    assert(!is_continuation(b[j]));
    assert(width_of(b[j]) == 1);
}

/// In UTF-8 text, an ASCII byte starts a character.
pub proof fn lemma_ascii_is_boundary(c: Seq<char>, j: int)
    requires
        0 <= j < encode_utf8(c).len(),
        encode_utf8(c)[j] < 0x80,
    ensures
        char_boundary(encode_utf8(c), j),
{
}

/// Where the encoding of whole characters matches the text at a character
/// start, the match ends at a character start too.
pub proof fn lemma_match_ends_on_boundary(c: Seq<char>, p: Seq<char>, s: int)
    requires
        0 <= s <= encode_utf8(c).len(),
        char_boundary(encode_utf8(c), s),
        s + encode_utf8(p).len() <= encode_utf8(c).len(),
        encode_utf8(c).subrange(s, s + encode_utf8(p).len()) == encode_utf8(p),
    ensures
        char_boundary(encode_utf8(c), s + encode_utf8(p).len()),
{
    lemma_stream_shape(c);
    lemma_match_in_stream(encode_utf8(c), p, s);
}

#[verifier::spinoff_prover]
#[verifier::rlimit(80)]
proof fn lemma_match_in_stream(b: Seq<u8>, p: Seq<char>, s: int)
    requires
        stream_shape(b),
        0 <= s <= b.len(),
        char_boundary(b, s),
        s + encode_utf8(p).len() <= b.len(),
        b.subrange(s, s + encode_utf8(p).len()) == encode_utf8(p),
    ensures
        char_boundary(b, s + encode_utf8(p).len()),
    decreases p.len(),
{
    if p.len() == 0 {
        assert(encode_utf8(p) =~= Seq::<u8>::empty());
    } else {
        let x = p[0] as u32;
        char_is_scalar(p[0]);
        lemma_encode_scalar_shape(x);
        let e = encode_scalar(x);
        let rest = p.drop_first();
        let er = encode_utf8(rest);
        let ep = encode_utf8(p);
        lemma_encode_utf8_first(p);
        assert(ep == e + er);
        let n = ep.len() as int;
        assert(b.subrange(s, s + n)[0] == ep[0]);
        assert(b[s] == e[0]);
        assert(!is_continuation(b[s]));
        let w = width_of(b[s]);
        assert(w == e.len());
        assert forall|k: int| 0 <= k < er.len() implies b.subrange(s + w, s + w + er.len())[k] == er[k] by {
            assert(b.subrange(s, s + n)[w + k] == ep[w + k]);
        }
        assert(b.subrange(s + w, s + w + er.len()) =~= er);
        lemma_match_in_stream(b, rest, s + w);
    }
}

/// The encoding of a concatenation is the concatenation of the encodings.
pub proof fn lemma_encode_utf8_concat(a: Seq<char>, b: Seq<char>)
    ensures
        encode_utf8(a + b) == encode_utf8(a) + encode_utf8(b),
    decreases a.len(),
{
    if a.len() == 0 {
        assert(a + b =~= b);
        assert(encode_utf8(a) =~= Seq::<u8>::empty());
        assert(encode_utf8(a) + encode_utf8(b) =~= encode_utf8(b));
    } else {
        assert((a + b).drop_first() =~= a.drop_first() + b);
        assert((a + b)[0] == a[0]);
        lemma_encode_utf8_concat(a.drop_first(), b);
        assert(encode_utf8(a + b) =~= encode_utf8(a) + encode_utf8(b));
    }
}


/// A character boundary of encoded text is where some prefix of its
/// characters ends.
pub proof fn lemma_boundary_at_char(c: Seq<char>, b: int)
    requires
        0 <= b <= encode_utf8(c).len(),
        char_boundary(encode_utf8(c), b),
    ensures
        exists|k: int| 0 <= k <= c.len() && #[trigger] encode_utf8(c.subrange(0, k)).len() == b,
    decreases c.len(),
{
    if b == 0 {
        assert(encode_utf8(c.subrange(0, 0)).len() == 0);
    } else {
        let x = c[0] as u32;
        let rest = c.drop_first();
        lemma_encode_utf8_first(c);
        vstd::utf8::char_is_scalar(c[0]);
        lemma_encode_scalar_shape(x);
        let w = encode_scalar(x).len() as int;
        if b < w {
            assert(encode_utf8(c)[b] == encode_scalar(x)[b]);
            assert(is_continuation(encode_scalar(x)[b]));
            assert(false);
        }
        let e = encode_utf8(c);
        assert(e.subrange(w, e.len() as int) =~= encode_utf8(rest));
        assert(char_boundary(encode_utf8(rest), b - w)) by {
            if 0 < b - w < encode_utf8(rest).len() {
                assert(encode_utf8(rest)[b - w] == e[b]);
            }
        }
        lemma_boundary_at_char(rest, b - w);
        let k = choose|k: int| 0 <= k <= rest.len() && #[trigger] encode_utf8(rest.subrange(0, k)).len() == b - w;
        let p = c.subrange(0, k + 1);
        assert(p.drop_first() =~= rest.subrange(0, k));
        assert(p[0] == c[0]);
        lemma_encode_utf8_first(p);
        assert(encode_utf8(c.subrange(0, k + 1)).len() == b);
    }
}

/// Text without line breaks encodes without the bytes of one: an ASCII byte
/// of UTF-8 text is always a whole character.
pub proof fn lemma_no_break_bytes(c: Seq<char>)
    requires
        !c.contains('\n'),
        !c.contains('\r'),
    ensures
        !encode_utf8(c).contains(10u8),
        !encode_utf8(c).contains(13u8),
    decreases c.len(),
{
    if c.len() > 0 {
        let rest = c.drop_first();
        assert forall|k: int| 0 <= k < rest.len() implies #[trigger] rest[k] != '\n' && rest[k] != '\r' by {
            assert(rest[k] == c[k + 1]);
        }
        lemma_no_break_bytes(rest);
        let x = c[0] as u32;
        char_is_scalar(c[0]);
        lemma_encode_scalar_shape(x);
        let e = encode_scalar(x);
        let r = encode_utf8(rest);
        lemma_encode_utf8_first(c);
        assert(c.contains(c[0]));
        assert forall|k: int| 0 <= k < e.len() implies #[trigger] e[k] != 10u8 && e[k] != 13u8 by {
            if has_width_1_encoding(x) {
                assert(x <= 0x7F ==> ((x & 0x7F) as u8) as u32 == x) by (bit_vector);
                assert(e[0] as u32 == x);
                assert(c[0] != '\n' && c[0] != '\r');
                if x == 10u32 || x == 13u32 {
                    lemma_char_from_code(c[0]);
                }
            } else if k == 0 {
                assert(width_of(e[0]) >= 2);
            } else {
                assert(is_continuation(e[k]));
            }
        }
        let b = encode_utf8(c);
        assert(b =~= e + r);
        assert forall|j: int| 0 <= j < b.len() implies #[trigger] b[j] != 10u8 && b[j] != 13u8 by {
            if j < e.len() {
                assert(b[j] == e[j]);
            } else {
                assert(b[j] == r[j - e.len()]);
                assert(r.contains(r[j - e.len()]));
            }
        }
    }
}

/// A character is the one its code names.
proof fn lemma_char_from_code(ch: char)
    ensures
        ch as u32 == 10u32 ==> ch == '\n',
        ch as u32 == 13u32 ==> ch == '\r',
{
    assert((ch as u32) as char == ch);
}

} // verus!
