//! Little-endian integer encodings and fixed-width text fields, the byte-level
//! building blocks of the on-page format.
use vstd::prelude::*;
use vstd::utf8::*;
use crate::data::table::PAGE_SIZE;

verus! {

broadcast use vstd::array::group_array_axioms;

/// The four little-endian bytes of the low 32 bits of `x`.
pub open spec fn le_u32_bytes(x: nat) -> Seq<u8> {
    seq![
        (x % 256) as u8,
        ((x / 256) % 256) as u8,
        ((x / 65536) % 256) as u8,
        ((x / 16777216) % 256) as u8,
    ]
}

/// The unsigned value of four little-endian bytes starting at `at`.
pub open spec fn le_u32_value(b: Seq<u8>, at: int) -> nat {
    (b[at] + 256 * b[at + 1] + 65536 * b[at + 2] + 16777216 * b[at + 3]) as nat
}

/// The bytes of `le_u32_bytes` depend only on the low 32 bits.
pub proof fn lemma_le_u32_bytes_low(x: u64)
    ensures
        le_u32_bytes((x % 4294967296) as nat) == le_u32_bytes(x as nat),
{
    let y = x % 4294967296;
    assert(y % 256 == x % 256 && (y / 256) % 256 == (x / 256) % 256 && (y / 65536) % 256 == (x
        / 65536) % 256 && (y / 16777216) % 256 == (x / 16777216) % 256) by (bit_vector)
        requires
            y == x % 4294967296,
    ;
    assert(le_u32_bytes(y as nat) =~= le_u32_bytes(x as nat));
}

/// Two's-complement bit pattern of a 32-bit signed integer.
pub open spec fn i32_bits(x: int) -> nat {
    if x < 0 {
        (x + 4294967296) as nat
    } else {
        x as nat
    }
}

/// Signed value of a 32-bit two's-complement bit pattern.
pub open spec fn i32_from_bits(v: nat) -> int {
    if v >= 2147483648 {
        v - 4294967296
    } else {
        v as int
    }
}

pub proof fn lemma_le_u32_roundtrip(x: nat)
    requires
        x < 4294967296,
    ensures
        le_u32_value(le_u32_bytes(x), 0) == x,
        le_u32_value(le_u32_bytes(x), 0) < 4294967296,
{
    let b = le_u32_bytes(x);
    assert(b[0] == x % 256);
    assert(b[1] == (x / 256) % 256);
    assert(b[2] == (x / 65536) % 256);
    assert(b[3] == (x / 16777216) % 256);
    assert(x == x % 256 + 256 * ((x / 256) % 256) + 65536 * ((x / 65536) % 256) + 16777216 * ((x / 16777216) % 256)) by (nonlinear_arith)
        requires x < 4294967296;
}

pub proof fn lemma_le_u32_value_bound(b: Seq<u8>, at: int)
    requires
        0 <= at,
        at + 4 <= b.len(),
    ensures
        le_u32_value(b, at) < 4294967296,
        le_u32_bytes(le_u32_value(b, at)) == b.subrange(at, at + 4),
{
    let v = le_u32_value(b, at);
    let (b0, b1, b2, b3) = (b[at] as int, b[at + 1] as int, b[at + 2] as int, b[at + 3] as int);
    assert(v == b0 + 256 * b1 + 65536 * b2 + 16777216 * b3);
    assert(v % 256 == b0 && (v / 256) % 256 == b1 && (v / 65536) % 256 == b2 && (v / 16777216) % 256 == b3)
        by (nonlinear_arith)
        requires
            0 <= b0 < 256, 0 <= b1 < 256, 0 <= b2 < 256, 0 <= b3 < 256,
            v == b0 + 256 * b1 + 65536 * b2 + 16777216 * b3;
    assert(le_u32_bytes(v) =~= b.subrange(at, at + 4));
}

pub proof fn lemma_i32_bits_roundtrip(x: int)
    requires
        -2147483648 <= x <= 2147483647,
    ensures
        i32_bits(x) < 4294967296,
        i32_from_bits(i32_bits(x)) == x,
{
}

/// Writes the low 32 bits of `v` little-endian at `dst[at..at + 4]`.
pub fn write_u32_le(dst: &mut [u8], at: usize, v: u32)
    requires
        at + 4 <= old(dst)@.len(),
    ensures
        final(dst)@ == old(dst)@.subrange(0, at as int) + le_u32_bytes(v as nat)
            + old(dst)@.subrange(at + 4, old(dst)@.len() as int),
{
    dst[at] = (v % 256) as u8;
    dst[at + 1] = ((v / 256) % 256) as u8;
    dst[at + 2] = ((v / 65536) % 256) as u8;
    dst[at + 3] = ((v / 16777216) % 256) as u8;
    assert(dst@ =~= old(dst)@.subrange(0, at as int) + le_u32_bytes(v as nat)
        + old(dst)@.subrange(at + 4, old(dst)@.len() as int));
}

/// Reads four little-endian bytes at `src[at..at + 4]`.
pub fn read_u32_le(src: &[u8], at: usize) -> (v: u32)
    requires
        at + 4 <= src@.len(),
    ensures
        v == le_u32_value(src@, at as int),
{
    let b0 = src[at] as u32;
    let b1 = src[at + 1] as u32;
    let b2 = src[at + 2] as u32;
    let b3 = src[at + 3] as u32;
    b0 + 256 * b1 + 65536 * b2 + 16777216 * b3
}

/// A text field of `width` bytes: `text` cut to `width` bytes, or padded with
/// zero bytes up to `width`.
pub open spec fn text_field(text: Seq<u8>, width: nat) -> Seq<u8> {
    if text.len() >= width {
        text.take(width as int)
    } else {
        text + Seq::new((width - text.len()) as nat, |i: int| 0u8)
    }
}

/// Index of the first zero byte of `b`, or its length when it holds none.
pub open spec fn first_zero(b: Seq<u8>) -> nat
    decreases b.len(),
{
    if b.len() == 0 || b[0] == 0 {
        0
    } else {
        1 + first_zero(b.drop_first())
    }
}

/// The bytes of `b` before its first zero byte.
pub open spec fn before_zero(b: Seq<u8>) -> Seq<u8> {
    b.take(first_zero(b) as int)
}

pub proof fn lemma_first_zero_is(b: Seq<u8>, i: int)
    requires
        0 <= i <= b.len(),
        forall|j: int| 0 <= j < i ==> b[j] != 0,
        i < b.len() ==> b[i] == 0,
    ensures
        first_zero(b) == i,
    decreases b.len(),
{
    if b.len() > 0 && b[0] != 0 {
        lemma_first_zero_is(b.drop_first(), i - 1);
    }
}

/// Writes `text_field(text, width)` at `dst[at..at + width]`.
pub fn write_text_field(dst: &mut [u8], at: usize, width: usize, text: &[u8])
    requires
        at + width <= old(dst)@.len(),
    ensures
        final(dst)@ == old(dst)@.subrange(0, at as int) + text_field(text@, width as nat)
            + old(dst)@.subrange(at + width, old(dst)@.len() as int),
{
    let n = if text.len() < width {
        text.len()
    } else {
        width
    };
    let ghost field = text_field(text@, width as nat);
    assert(field.len() == width);
    assert(forall|k: int| 0 <= k < width ==> field[k] == (if k < n { text@[k] } else { 0u8 }));
    let len = dst.len();
    let mut i: usize = 0;
    while i < width
        invariant
            i <= width,
            at + width <= dst@.len(),
            dst@.len() == len,
            n <= text@.len(),
            n <= width,
            dst@.len() == old(dst)@.len(),
            field == text_field(text@, width as nat),
            field.len() == width,
            forall|k: int| 0 <= k < width ==> field[k] == (if k < n { text@[k] } else { 0u8 }),
            forall|j: int| 0 <= j < at ==> dst@[j] == old(dst)@[j],
            forall|j: int| at + width <= j < dst@.len() ==> dst@[j] == old(dst)@[j],
            forall|k: int| 0 <= k < i ==> dst@[at + k] == field[k],
        decreases width - i,
    {
        let b = if i < n {
            text[i]
        } else {
            0u8
        };
        dst[at + i] = b;
        i = i + 1;
    }
    assert(dst@ =~= old(dst)@.subrange(0, at as int) + field + old(dst)@.subrange(
        at + width,
        old(dst)@.len() as int,
    ));
}

/// Copies the bytes of `src[at..at + width]` that come before its first zero byte.
pub fn read_text_field(src: &[u8], at: usize, width: usize) -> (out: Vec<u8>)
    requires
        at + width <= src@.len(),
    ensures
        out@ == before_zero(src@.subrange(at as int, at + width)),
{
    let ghost field = src@.subrange(at as int, at + width);
    let mut out: Vec<u8> = Vec::new();
    let len = src.len();
    let mut i: usize = 0;
    while i < width && src[at + i] != 0
        invariant
            i <= width,
            src@.len() == len,
            at + width <= src@.len(),
            field == src@.subrange(at as int, at + width),
            out@ == field.take(i as int),
            forall|j: int| 0 <= j < i ==> field[j] != 0,
        decreases width - i,
    {
        out.push(src[at + i]);
        i = i + 1;
        assert(out@ =~= field.take(i as int));
    }
    proof {
        lemma_first_zero_is(field, i as int);
    }
    out
}

/// `s` holds no NUL character.
pub open spec fn no_nul(s: Seq<char>) -> bool {
    forall|i: int| 0 <= i < s.len() ==> s[i] != '\0'
}

/// `b` holds no zero byte.
pub open spec fn no_zero_byte(b: Seq<u8>) -> bool {
    forall|i: int| 0 <= i < b.len() ==> b[i] != 0
}

proof fn lemma_scalar_bytes_nonzero(v: u32)
    requires
        is_scalar(v),
        v != 0,
    ensures
        no_zero_byte(encode_scalar(v)),
{
    if has_width_1_encoding(v) {
        assert((v & 0x7F) as u8 != 0) by (bit_vector)
            requires
                v <= 0x7F,
                v != 0,
        ;
    } else {
        assert(forall|x: u8| #![auto] (0x80u8 | x) != 0) by (bit_vector);
        assert(forall|x: u8| #![auto] (0xC0u8 | x) != 0) by (bit_vector);
        assert(forall|x: u8| #![auto] (0xE0u8 | x) != 0) by (bit_vector);
        assert(forall|x: u8| #![auto] (0xF0u8 | x) != 0) by (bit_vector);
    }
}

/// The UTF-8 encoding of text without NUL characters holds no zero byte.
pub proof fn lemma_encode_utf8_no_zero(s: Seq<char>)
    requires
        no_nul(s),
    ensures
        no_zero_byte(encode_utf8(s)),
    decreases s.len(),
{
    if s.len() > 0 {
        let c = s[0];
        let v = c as u32;
        char_is_scalar(c);
        if v == 0 {
            char_u32_cast(c, v);
            assert(c == '\0');
        }
        lemma_scalar_bytes_nonzero(v);
        assert(no_nul(s.drop_first()));
        lemma_encode_utf8_no_zero(s.drop_first());
        let a = encode_scalar(v);
        let b = encode_utf8(s.drop_first());
        assert(encode_utf8(s) == a + b);
        assert forall|i: int| 0 <= i < (a + b).len() implies (a + b)[i] != 0 by {
            if i >= a.len() {
                assert((a + b)[i] == b[i - a.len()]);
            }
        }
    }
}

/// Text without zero bytes, written as a field and read back up to the first
/// zero byte, comes back cut to the field's width.
pub proof fn lemma_text_field_read_back(text: Seq<u8>, width: nat)
    requires
        no_zero_byte(text),
    ensures
        before_zero(text_field(text, width)) == text.take(
            if text.len() < width { text.len() as int } else { width as int },
        ),
{
    let f = text_field(text, width);
    let n: int = if text.len() < width { text.len() as int } else { width as int };
    assert(f.len() == width);
    lemma_first_zero_is(f, n);
    assert(f.take(n) =~= text.take(n));
}

/// The unsigned value of eight little-endian bytes starting at `at`.
pub open spec fn le_u64_value(b: Seq<u8>, at: int) -> nat {
    le_u32_value(b, at) + 4294967296 * le_u32_value(b, at + 4)
}

/// Reads eight little-endian bytes at `src[at..at + 8]`.
pub fn read_u64_le(src: &[u8], at: usize) -> (v: u64)
    requires
        at + 8 <= src@.len(),
    ensures
        v == le_u64_value(src@, at as int),
{
    let _n = src.len();
    let lo = read_u32_le(src, at) as u64;
    let hi = read_u32_le(src, at + 4) as u64;
    lo + 4294967296 * hi
}

/// The sub-slice `s[start..end]`.
pub fn subslice(s: &[u8], start: usize, end: usize) -> (r: &[u8])
    requires
        start <= end <= s@.len(),
    ensures
        r@ == s@.subrange(start as int, end as int),
{
    let (_, tail) = s.split_at(start);
    let (mid, _) = tail.split_at(end - start);
    mid
}

/// `s` with the bytes at `at..at + b.len()` replaced by `b`.
pub open spec fn splice(s: Seq<u8>, at: int, b: Seq<u8>) -> Seq<u8> {
    s.subrange(0, at) + b + s.subrange(at + b.len(), s.len() as int)
}

/// The bytes `page[start..end]` of a page, borrowed mutably.
pub fn page_subslice_mut(page: &mut [u8; PAGE_SIZE], start: usize, end: usize) -> (r: &mut [u8])
    requires
        start <= end <= PAGE_SIZE,
    ensures
        r@ == old(page)@.subrange(start as int, end as int),
        final(r)@.len() == end - start,
        final(page)@ == splice(old(page)@, start as int, final(r)@),
{
    assert(final(page)@.len() == PAGE_SIZE);
    subslice_mut(page, start, end)
}

/// The sub-slice `s[start..end]`, borrowed mutably.
pub fn subslice_mut(s: &mut [u8], start: usize, end: usize) -> (r: &mut [u8])
    requires
        start <= end <= old(s)@.len(),
    ensures
        r@ == old(s)@.subrange(start as int, end as int),
        final(s)@ == old(s)@.subrange(0, start as int) + final(r)@ + old(s)@.subrange(
            end as int,
            old(s)@.len() as int,
        ),
{
    let (_, tail) = s.split_at_mut(start);
    let (mid, _) = tail.split_at_mut(end - start);
    mid
}

} // verus!
