//! Integer values of byte strings, as the file formats read them.

use vstd::prelude::*;

verus! {

/// Value of `s` read as a big-endian unsigned number.
pub open spec fn be_value(s: Seq<u8>) -> nat
    decreases s.len(),
{
    if s.len() == 0 {
        0
    } else {
        be_value(s.drop_last()) * 256 + s.last() as nat
    }
}

/// Value of `s` read as a little-endian unsigned number.
pub open spec fn le_value(s: Seq<u8>) -> nat
    decreases s.len(),
{
    if s.len() == 0 {
        0
    } else {
        s[0] as nat + 256 * le_value(s.drop_first())
    }
}

/// `2^(8 * n)`: one more than the largest value of `n` bytes.
pub open spec fn byte_bound(n: nat) -> nat
    decreases n,
{
    if n == 0 {
        1
    } else {
        256 * byte_bound((n - 1) as nat)
    }
}

/// A big-endian value of `n` bytes is below `2^(8 * n)`.
pub proof fn lemma_be_value_bound(s: Seq<u8>)
    ensures
        be_value(s) < byte_bound(s.len()),
    decreases s.len(),
{
    if s.len() > 0 {
        lemma_be_value_bound(s.drop_last());
    }
}

/// A little-endian value of `n` bytes is below `2^(8 * n)`.
pub proof fn lemma_le_value_bound(s: Seq<u8>)
    ensures
        le_value(s) < byte_bound(s.len()),
    decreases s.len(),
{
    if s.len() > 0 {
        lemma_le_value_bound(s.drop_first());
    }
}

} // verus!

verus! {

/// The four little-endian bytes of `x`.
pub open spec fn le_bytes_u32(x: u32) -> Seq<u8> {
    seq![
        (x & 0xff) as u8,
        ((x >> 8u32) & 0xff) as u8,
        ((x >> 16u32) & 0xff) as u8,
        ((x >> 24u32) & 0xff) as u8,
    ]
}

/// The four little-endian bytes of `x`.
pub fn u32_le(x: u32) -> (r: [u8; 4])
    ensures
        r@ == le_bytes_u32(x),
{
    let r = [(x & 0xff) as u8, ((x >> 8u32) & 0xff) as u8, ((x >> 16u32) & 0xff) as u8, ((x >> 24u32) & 0xff) as u8];
    assert(r@ =~= le_bytes_u32(x));
    r
}

/// The little-endian bytes of `x` read back as `x`.
pub proof fn lemma_le_bytes_value(x: u32)
    ensures
        le_value(le_bytes_u32(x)) == x,
{
    let s = le_bytes_u32(x);
    reveal_with_fuel(le_value, 5);
    assert(s.drop_first().drop_first().drop_first().drop_first() =~= Seq::<u8>::empty());
    let b0 = x & 0xff;
    let b1 = (x >> 8u32) & 0xff;
    let b2 = (x >> 16u32) & 0xff;
    let b3 = (x >> 24u32) & 0xff;
    assert(b0 < 256 && b1 < 256 && b2 < 256 && b3 < 256) by (bit_vector)
        requires
            b0 == x & 0xff,
            b1 == (x >> 8u32) & 0xff,
            b2 == (x >> 16u32) & 0xff,
            b3 == (x >> 24u32) & 0xff,
    ;
    assert(b0 + 256 * (b1 + 256 * (b2 + 256 * b3)) == x) by (bit_vector)
        requires
            b0 == x & 0xff,
            b1 == (x >> 8u32) & 0xff,
            b2 == (x >> 16u32) & 0xff,
            b3 == (x >> 24u32) & 0xff,
    ;
    assert(s[0] == b0 && s[1] == b1 && s[2] == b2 && s[3] == b3);
}

/// The two little-endian bytes of `x`.
pub open spec fn le_bytes_u16(x: u16) -> Seq<u8> {
    seq![(x & 0xff) as u8, ((x >> 8u16) & 0xff) as u8]
}

/// The little-endian bytes of `x` read back as `x`.
pub proof fn lemma_le_bytes_u16_value(x: u16)
    ensures
        le_value(le_bytes_u16(x)) == x,
{
    let s = le_bytes_u16(x);
    reveal_with_fuel(le_value, 3);
    assert(s.drop_first().drop_first() =~= Seq::<u8>::empty());
    let b0 = x & 0xff;
    let b1 = (x >> 8u16) & 0xff;
    assert(b0 < 256 && b1 < 256 && b0 + 256 * b1 == x) by (bit_vector)
        requires
            b0 == x & 0xff,
            b1 == (x >> 8u16) & 0xff,
    ;
    assert(s[0] == b0 && s[1] == b1);
}

/// Appends the little-endian bytes of `x`.
pub fn push_u16_le(out: &mut Vec<u8>, x: u16)
    ensures
        final(out)@ == old(out)@ + le_bytes_u16(x),
{
    out.push((x & 0xff) as u8);
    out.push(((x >> 8u16) & 0xff) as u8);
    assert(final(out)@ =~= old(out)@ + le_bytes_u16(x));
}

/// Appends the little-endian bytes of `x`.
pub fn push_u32_le(out: &mut Vec<u8>, x: u32)
    ensures
        final(out)@ == old(out)@ + le_bytes_u32(x),
{
    let b = u32_le(x);
    out.push(b[0]);
    out.push(b[1]);
    out.push(b[2]);
    out.push(b[3]);
    assert(final(out)@ =~= old(out)@ + le_bytes_u32(x));
}

} // verus!

verus! {

/// The 16 bytes of `data` at `at` as a key.
pub fn key_at(data: &[u8], at: usize) -> (k: [u8; 16])
    requires
        at + 16 <= data@.len(),
    ensures
        k@ == data@.subrange(at as int, at + 16),
{
    let mut k = [0u8; 16];
    let n = data.len();
    let mut i: usize = 0;
    while i < 16
        invariant
            i <= 16,
            n == data@.len(),
            at + 16 <= data@.len(),
            forall|j: int| 0 <= j < i ==> #[trigger] k@[j] == data@[at + j],
        decreases 16 - i,
    {
        k[i] = data[at + i];
        i += 1;
    }
    assert(k@ =~= data@.subrange(at as int, at + 16));
    k
}

/// Whether every byte of `s` is zero.
pub open spec fn all_zero(s: Seq<u8>) -> bool {
    forall|i: int| 0 <= i < s.len() ==> #[trigger] s[i] == 0
}

/// Whether the 16 bytes of `data` at `at` are all zero.
pub fn is_zero_key(data: &[u8], at: usize) -> (r: bool)
    requires
        at + 16 <= data@.len(),
    ensures
        r == all_zero(data@.subrange(at as int, at + 16)),
{
    let n = data.len();
    let mut i: usize = 0;
    while i < 16
        invariant
            i <= 16,
            n == data@.len(),
            at + 16 <= data@.len(),
            forall|j: int| 0 <= j < i ==> #[trigger] data@[at + j] == 0,
        decreases 16 - i,
    {
        if data[at + i] != 0 {
            assert(data@.subrange(at as int, at + 16)[i as int] != 0);
            return false;
        }
        i += 1;
    }
    assert(forall|j: int| 0 <= j < 16 ==> #[trigger] data@.subrange(at as int, at + 16)[j] == data@[at + j]);
    true
}

/// Whether `a[0..n] == b[0..n]`.
pub fn prefix_eq(a: &[u8], b: &[u8], n: usize) -> (r: bool)
    requires
        n <= a@.len(),
        n <= b@.len(),
    ensures
        r == (a@.subrange(0, n as int) == b@.subrange(0, n as int)),
{
    let mut i: usize = 0;
    while i < n
        invariant
            i <= n <= a@.len(),
            n <= b@.len(),
            forall|j: int| 0 <= j < i ==> #[trigger] a@[j] == b@[j],
        decreases n - i,
    {
        if a[i] != b[i] {
            assert(a@.subrange(0, n as int)[i as int] != b@.subrange(0, n as int)[i as int]);
            return false;
        }
        i += 1;
    }
    assert(a@.subrange(0, n as int) =~= b@.subrange(0, n as int));
    true
}

/// Little-endian `u32` at `at`.
pub fn read_u32_le(data: &[u8], at: usize) -> (r: u32)
    requires
        at + 4 <= data@.len(),
    ensures
        r == le_value(data@.subrange(at as int, at + 4)),
{
    let b0 = data[at] as u32;
    let b1 = data[at + 1] as u32;
    let b2 = data[at + 2] as u32;
    let b3 = data[at + 3] as u32;
    let ghost s = data@.subrange(at as int, at + 4);
    assert(s.drop_first().drop_first().drop_first().drop_first() =~= Seq::<u8>::empty());
    reveal_with_fuel(le_value, 5);
    assert(le_value(s) == b0 + 256 * (b1 + 256 * (b2 + 256 * b3)));
    b0 + 256 * (b1 + 256 * (b2 + 256 * b3))
}

/// Appends the bytes of `s`.
pub fn push_all(out: &mut Vec<u8>, s: &[u8])
    ensures
        final(out)@ == old(out)@ + s@,
{
    let ghost start = out@;
    let mut i: usize = 0;
    while i < s.len()
        invariant
            i <= s@.len(),
            out@ == start + s@.take(i as int),
        decreases s@.len() - i,
    {
        out.push(s[i]);
        i += 1;
        assert(out@ =~= start + s@.take(i as int));
    }
    assert(s@.take(i as int) =~= s@);
}

/// Byte strings of one length with the same big-endian value are equal.
pub proof fn lemma_be_value_injective(a: Seq<u8>, b: Seq<u8>)
    requires
        a.len() == b.len(),
        be_value(a) == be_value(b),
    ensures
        a == b,
    decreases a.len(),
{
    if a.len() > 0 {
        let x = be_value(a.drop_last());
        let y = be_value(b.drop_last());
        assert(x * 256 + a.last() == y * 256 + b.last());
        assert(a.last() == b.last() && x == y) by (nonlinear_arith)
            requires
                x * 256 + a.last() == y * 256 + b.last(),
                a.last() < 256,
                b.last() < 256,
                x >= 0,
                y >= 0,
        ;
        lemma_be_value_injective(a.drop_last(), b.drop_last());
        assert(a =~= a.drop_last().push(a.last()));
        assert(b =~= b.drop_last().push(b.last()));
    } else {
        assert(a =~= b);
    }
}

} // verus!
