//! Little-endian integers: what the bytes of a number are, and how they are written and read.

use vstd::prelude::*;

verus! {

/// The two bytes of `v`, least significant first.
#[verifier::opaque]
pub open spec fn le16(v: int) -> Seq<u8> {
    seq![(v % 256) as u8, (v / 256 % 256) as u8]
}

/// The four bytes of `v`, least significant first.
#[verifier::opaque]
pub open spec fn le32(v: int) -> Seq<u8> {
    le16(v % 65536) + le16(v / 65536)
}

/// The eight bytes of `v`, least significant first.
#[verifier::opaque]
pub open spec fn le64(v: int) -> Seq<u8> {
    le32(v % 0x1_0000_0000) + le32(v / 0x1_0000_0000)
}

/// The number whose two bytes stand at `p`.
#[verifier::opaque]
pub open spec fn u16_at(b: Seq<u8>, p: int) -> int {
    b[p] + 256 * b[p + 1]
}

/// The number whose four bytes stand at `p`.
#[verifier::opaque]
pub open spec fn u32_at(b: Seq<u8>, p: int) -> int {
    u16_at(b, p) + 65536 * u16_at(b, p + 2)
}

/// The number whose eight bytes stand at `p`.
#[verifier::opaque]
pub open spec fn u64_at(b: Seq<u8>, p: int) -> int {
    u32_at(b, p) + 0x1_0000_0000 * u32_at(b, p + 4)
}

pub broadcast proof fn lemma_le16_len(v: int)
    ensures
        (#[trigger] le16(v)).len() == 2,
{
    reveal(le16);
}

pub broadcast proof fn lemma_le32_len(v: int)
    ensures
        (#[trigger] le32(v)).len() == 4,
{
    reveal(le16);
    reveal(le32);
}

pub broadcast proof fn lemma_le64_len(v: int)
    ensures
        (#[trigger] le64(v)).len() == 8,
{
    lemma_le32_len(v % 0x1_0000_0000);
    lemma_le32_len(v / 0x1_0000_0000);
    reveal(le64);
}

/// How many bytes the encodings of numbers have.
pub broadcast group group_widths {
    lemma_le16_len,
    lemma_le32_len,
    lemma_le64_len,
}

pub broadcast proof fn lemma_u16_at_range(b: Seq<u8>, p: int)
    ensures
        0 <= #[trigger] u16_at(b, p) < 0x1_0000,
{
    reveal(u16_at);
}

pub broadcast proof fn lemma_u32_at_range(b: Seq<u8>, p: int)
    ensures
        0 <= #[trigger] u32_at(b, p) < 0x1_0000_0000,
{
    lemma_u16_at_range(b, p);
    lemma_u16_at_range(b, p + 2);
    reveal(u32_at);
}

pub broadcast proof fn lemma_u64_at_range(b: Seq<u8>, p: int)
    ensures
        0 <= #[trigger] u64_at(b, p) < 0x1_0000_0000_0000_0000,
{
    lemma_u32_at_range(b, p);
    lemma_u32_at_range(b, p + 4);
    reveal(u64_at);
}

/// The ranges of the numbers that are read.
pub broadcast group group_ranges {
    lemma_u16_at_range,
    lemma_u32_at_range,
    lemma_u64_at_range,
}

/// The two's complement reading of a sixteen-bit number.
pub open spec fn signed16(v: int) -> int {
    if v < 0x8000 {
        v
    } else {
        v - 0x1_0000
    }
}

/// The sixteen-bit number whose two's complement reading is `v`.
pub open spec fn unsigned16(v: int) -> int {
    if v < 0 {
        v + 0x1_0000
    } else {
        v
    }
}

/// The encodings of the items of `s`, one after the other.
pub open spec fn flat<T>(s: Seq<T>, f: spec_fn(T) -> Seq<u8>) -> Seq<u8>
    decreases s.len(),
{
    if s.len() == 0 {
        Seq::empty()
    } else {
        flat(s.drop_last(), f) + f(s.last())
    }
}

/// Every item's encoding has `w` bytes.
pub open spec fn width<T>(f: spec_fn(T) -> Seq<u8>, w: int) -> bool {
    forall|x: T| (#[trigger] f(x)).len() == w
}

/// `x` stands in `b` from `p` on.
#[verifier::opaque]
pub open spec fn block(b: Seq<u8>, p: int, x: Seq<u8>) -> bool {
    &&& 0 <= p
    &&& p + x.len() <= b.len()
    &&& b.subrange(p, p + x.len()) == x
}

pub proof fn lemma_concat(a: Seq<u8>, b: Seq<u8>, c: Seq<u8>)
    ensures
        a + b + c == a + (b + c),
{
    assert(a + b + c =~= a + (b + c));
}

/// A block that is made of two is both of them, one after the other.
pub proof fn lemma_block_split(b: Seq<u8>, p: int, x: Seq<u8>, y: Seq<u8>)
    requires
        block(b, p, x + y),
    ensures
        block(b, p, x),
        block(b, p + x.len(), y),
        0 <= p,
        p + x.len() + y.len() <= b.len(),
{
    reveal(block);
    let xy = x + y;
    assert forall|i: int| 0 <= i < xy.len() implies b[p + i] == xy[i] by {
        assert(b.subrange(p, p + xy.len())[i] == xy[i]);
    }
    assert forall|i: int| 0 <= i < y.len() implies b[p + x.len() + i] == y[i] by {
        assert(b[p + (x.len() + i)] == xy[x.len() + i]);
    }
    assert(b.subrange(p, p + x.len()) =~= x) by {
        assert forall|i: int| 0 <= i < x.len() implies b.subrange(p, p + x.len())[i] == x[i] by {
            assert(b[p + i] == xy[i]);
        }
    }
    assert(b.subrange(p + x.len(), p + x.len() + y.len()) =~= y);
}

/// What a block says of one byte.
pub proof fn lemma_block_byte(b: Seq<u8>, p: int, x: Seq<u8>, i: int)
    requires
        block(b, p, x),
        0 <= i < x.len(),
    ensures
        b[p + i] == x[i],
{
    reveal(block);
    assert(b.subrange(p, p + x.len())[i] == x[i]);
}

pub proof fn lemma_flat_len<T>(s: Seq<T>, f: spec_fn(T) -> Seq<u8>, w: int)
    requires
        width(f, w),
    ensures
        flat(s, f).len() == w * s.len(),
    decreases s.len(),
{
    if s.len() > 0 {
        lemma_flat_len(s.drop_last(), f, w);
        let n = s.len() as int;
        assert(w * n == w * (n - 1) + w) by (nonlinear_arith);
    } else {
        assert(w * 0 == 0) by (nonlinear_arith);
    }
}

/// Where the `i`-th item stands in a run of items of one width.
pub proof fn lemma_flat_item<T>(b: Seq<u8>, p: int, s: Seq<T>, f: spec_fn(T) -> Seq<u8>, w: int, i: int)
    requires
        width(f, w),
        block(b, p, flat(s, f)),
        0 <= i < s.len(),
    ensures
        block(b, p + w * i, f(s[i])),
    decreases s.len(),
{
    lemma_block_split(b, p, flat(s.drop_last(), f), f(s.last()));
    lemma_flat_len(s.drop_last(), f, w);
    if i < s.len() - 1 {
        lemma_flat_item(b, p, s.drop_last(), f, w, i);
    }
}

/// A whole sequence stands at its start.
pub proof fn lemma_block_whole(b: Seq<u8>)
    ensures
        block(b, 0, b),
{
    reveal(block);
    assert(b.subrange(0, b.len() as int) =~= b);
}

/// A block lies inside.
pub proof fn lemma_block_bounds(b: Seq<u8>, p: int, x: Seq<u8>)
    requires
        block(b, p, x),
    ensures
        0 <= p,
        p + x.len() <= b.len(),
        b.subrange(p, p + x.len()) == x,
{
    reveal(block);
}

pub proof fn lemma_le16(b: Seq<u8>, p: int, v: int)
    requires
        block(b, p, le16(v)),
        0 <= v < 0x1_0000,
    ensures
        u16_at(b, p) == v,
{
    reveal(le16);
    reveal(u16_at);
    lemma_block_byte(b, p, le16(v), 0);
    lemma_block_byte(b, p, le16(v), 1);
}

pub proof fn lemma_le32(b: Seq<u8>, p: int, v: int)
    requires
        block(b, p, le32(v)),
        0 <= v < 0x1_0000_0000,
    ensures
        u32_at(b, p) == v,
{
    broadcast use group_widths;

    reveal(le32);
    reveal(u32_at);
    lemma_block_split(b, p, le16(v % 65536), le16(v / 65536));
    lemma_le16(b, p, v % 65536);
    lemma_le16(b, p + 2, v / 65536);
}

pub proof fn lemma_le64(b: Seq<u8>, p: int, v: int)
    requires
        block(b, p, le64(v)),
        0 <= v < 0x1_0000_0000_0000_0000,
    ensures
        u64_at(b, p) == v,
{
    broadcast use group_widths;

    reveal(le64);
    reveal(u64_at);
    lemma_block_split(b, p, le32(v % 0x1_0000_0000), le32(v / 0x1_0000_0000));
    lemma_le32(b, p, v % 0x1_0000_0000);
    lemma_le32(b, p + 4, v / 0x1_0000_0000);
}

pub fn push_u16(out: &mut Vec<u8>, v: u16)
    ensures
        final(out)@ == old(out)@ + le16(v as int),
{
    proof {
        reveal(le16);
    }
    out.push((v % 256) as u8);
    out.push((v / 256) as u8);
    assert(out@ =~= old(out)@ + le16(v as int));
}

pub fn push_u32(out: &mut Vec<u8>, v: u32)
    ensures
        final(out)@ == old(out)@ + le32(v as int),
{
    proof {
        reveal(le32);
    }
    push_u16(out, (v % 65536) as u16);
    push_u16(out, (v / 65536) as u16);
    assert(out@ =~= old(out)@ + le32(v as int));
}

pub fn push_u64(out: &mut Vec<u8>, v: u64)
    ensures
        final(out)@ == old(out)@ + le64(v as int),
{
    proof {
        reveal(le64);
    }
    push_u32(out, (v % 0x1_0000_0000) as u32);
    push_u32(out, (v / 0x1_0000_0000) as u32);
    assert(out@ =~= old(out)@ + le64(v as int));
}

pub fn push_i16(out: &mut Vec<u8>, v: i16)
    ensures
        final(out)@ == old(out)@ + le16(unsigned16(v as int)),
{
    if v < 0 {
        push_u16(out, (v as i32 + 0x1_0000) as u16);
    } else {
        push_u16(out, v as u16);
    }
}

pub fn get_u16(b: &[u8], p: usize) -> (v: u16)
    requires
        p + 2 <= b.len(),
    ensures
        v == u16_at(b@, p as int),
{
    proof {
        reveal(u16_at);
    }
    b[p] as u16 + 256 * (b[p + 1] as u16)
}

pub fn get_u32(b: &[u8], p: usize) -> (v: u32)
    requires
        p + 4 <= b.len(),
    ensures
        v == u32_at(b@, p as int),
{
    proof {
        reveal(u32_at);
    }
    get_u16(b, p) as u32 + 65536 * (get_u16(b, p + 2) as u32)
}

pub fn get_u64(b: &[u8], p: usize) -> (v: u64)
    requires
        p + 8 <= b.len(),
    ensures
        v == u64_at(b@, p as int),
{
    proof {
        reveal(u64_at);
    }
    get_u32(b, p) as u64 + 0x1_0000_0000 * (get_u32(b, p + 4) as u64)
}

pub fn get_i16(b: &[u8], p: usize) -> (v: i16)
    requires
        p + 2 <= b.len(),
    ensures
        v == signed16(u16_at(b@, p as int)),
{
    let raw: u16 = get_u16(b, p);
    if raw < 0x8000 {
        raw as i16
    } else {
        (raw as i32 - 0x1_0000) as i16
    }
}

} // verus!
