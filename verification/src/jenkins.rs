//! Bob Jenkins' `lookup3` hashes `hashlittle` and `hashlittle2`, as CASC uses
//! them for encoded headers and local index blocks.

use vstd::prelude::*;
use vstd::wrapping::u32_specs::{wrapping_add, wrapping_sub};

verus! {

/// A 32-bit rotation to the left by `k` bits.
pub open spec fn rot(x: u32, k: u32) -> u32 {
    (x << k) | (x >> ((32 - k) as u32))
}

/// `mix(a, b, c)` of lookup3.
pub open spec fn mix(s: (u32, u32, u32)) -> (u32, u32, u32) {
    let (a, b, c) = s;
    let a = wrapping_sub(a, c);
    let a = a ^ rot(c, 4);
    let c = wrapping_add(c, b);
    let b = wrapping_sub(b, a);
    let b = b ^ rot(a, 6);
    let a = wrapping_add(a, c);
    let c = wrapping_sub(c, b);
    let c = c ^ rot(b, 8);
    let b = wrapping_add(b, a);
    let a = wrapping_sub(a, c);
    let a = a ^ rot(c, 16);
    let c = wrapping_add(c, b);
    let b = wrapping_sub(b, a);
    let b = b ^ rot(a, 19);
    let a = wrapping_add(a, c);
    let c = wrapping_sub(c, b);
    let c = c ^ rot(b, 4);
    let b = wrapping_add(b, a);
    (a, b, c)
}

/// `final(a, b, c)` of lookup3.
pub open spec fn final_mix(s: (u32, u32, u32)) -> (u32, u32, u32) {
    let (a, b, c) = s;
    let c = c ^ b;
    let c = wrapping_sub(c, rot(b, 14));
    let a = a ^ c;
    let a = wrapping_sub(a, rot(c, 11));
    let b = b ^ a;
    let b = wrapping_sub(b, rot(a, 25));
    let c = c ^ b;
    let c = wrapping_sub(c, rot(b, 16));
    let a = a ^ c;
    let a = wrapping_sub(a, rot(c, 4));
    let b = b ^ a;
    let b = wrapping_sub(b, rot(a, 14));
    let c = c ^ b;
    let c = wrapping_sub(c, rot(b, 24));
    (a, b, c)
}

/// Byte `i` of `s`, zero past its end.
pub open spec fn byte_or_zero(s: Seq<u8>, i: int) -> u8 {
    if 0 <= i < s.len() {
        s[i]
    } else {
        0
    }
}

/// Little-endian 32-bit word at `i` (missing bytes read as zero).
pub open spec fn le_word(s: Seq<u8>, i: int) -> u32 {
    (byte_or_zero(s, i) as u32) | ((byte_or_zero(s, i + 1) as u32) << 8u32) | ((byte_or_zero(
        s,
        i + 2,
    ) as u32) << 16u32) | ((byte_or_zero(s, i + 3) as u32) << 24u32)
}

/// Adds the three words of the 12-byte block at `i` to `(a, b, c)`.
pub open spec fn add_block(s: Seq<u8>, i: int, st: (u32, u32, u32)) -> (u32, u32, u32) {
    (
        wrapping_add(st.0, le_word(s, i)),
        wrapping_add(st.1, le_word(s, i + 4)),
        wrapping_add(st.2, le_word(s, i + 8)),
    )
}

/// The block loop: mixes every 12-byte block at `pos` and beyond while more
/// than 12 bytes remain.
pub open spec fn blocks(s: Seq<u8>, pos: int, st: (u32, u32, u32)) -> (u32, u32, u32)
    decreases s.len() - pos,
{
    if 0 <= pos && s.len() - pos > 12 {
        blocks(s, pos + 12, mix(add_block(s, pos, st)))
    } else {
        st
    }
}

/// Start of the last (1 to 12 byte) block of a non-empty input.
pub open spec fn tail_start(len: int) -> int {
    if len <= 12 {
        0
    } else {
        ((len - 1) / 12) * 12
    }
}

/// State after the whole input (blocks, zero-padded tail, final mix) from the
/// initial state `st`; an empty input leaves `st` unchanged.
pub open spec fn lookup3_state(s: Seq<u8>, st: (u32, u32, u32)) -> (u32, u32, u32) {
    if s.len() == 0 {
        st
    } else {
        final_mix(add_block(s, tail_start(s.len() as int), blocks(s, 0, st)))
    }
}

/// `0xdeadbeef + (uint32_t)length + initval`.
pub open spec fn seed(s: Seq<u8>, init: u32) -> u32 {
    wrapping_add(wrapping_add(0xdeadbeefu32, s.len() as u32), init)
}

/// `hashlittle(key, length, initval)`.
pub open spec fn spec_hashlittle(s: Seq<u8>, init: u32) -> u32 {
    let v = seed(s, init);
    lookup3_state(s, (v, v, v)).2
}

/// `hashlittle2(key, length, &pc, &pb)`: the new `(pc, pb)`.
pub open spec fn spec_hashlittle2(s: Seq<u8>, pc: u32, pb: u32) -> (u32, u32) {
    let v = seed(s, pc);
    let st = lookup3_state(s, (v, v, wrapping_add(v, pb)));
    (st.2, st.1)
}

fn rotl(x: u32, k: u32) -> (r: u32)
    requires
        0 < k < 32,
    ensures
        r == rot(x, k),
{
    (x << k) | (x >> (32 - k))
}

fn exec_mix(st: (u32, u32, u32)) -> (r: (u32, u32, u32))
    ensures
        r == mix(st),
{
    let (a, b, c) = st;
    let a = a.wrapping_sub(c);
    let a = a ^ rotl(c, 4);
    let c = c.wrapping_add(b);
    let b = b.wrapping_sub(a);
    let b = b ^ rotl(a, 6);
    let a = a.wrapping_add(c);
    let c = c.wrapping_sub(b);
    let c = c ^ rotl(b, 8);
    let b = b.wrapping_add(a);
    let a = a.wrapping_sub(c);
    let a = a ^ rotl(c, 16);
    let c = c.wrapping_add(b);
    let b = b.wrapping_sub(a);
    let b = b ^ rotl(a, 19);
    let a = a.wrapping_add(c);
    let c = c.wrapping_sub(b);
    let c = c ^ rotl(b, 4);
    let b = b.wrapping_add(a);
    (a, b, c)
}

fn exec_final(st: (u32, u32, u32)) -> (r: (u32, u32, u32))
    ensures
        r == final_mix(st),
{
    let (a, b, c) = st;
    let c = c ^ b;
    let c = c.wrapping_sub(rotl(b, 14));
    let a = a ^ c;
    let a = a.wrapping_sub(rotl(c, 11));
    let b = b ^ a;
    let b = b.wrapping_sub(rotl(a, 25));
    let c = c ^ b;
    let c = c.wrapping_sub(rotl(b, 16));
    let a = a ^ c;
    let a = a.wrapping_sub(rotl(c, 4));
    let b = b ^ a;
    let b = b.wrapping_sub(rotl(a, 14));
    let c = c ^ b;
    let c = c.wrapping_sub(rotl(b, 24));
    (a, b, c)
}

fn byte_at(s: &[u8], i: usize) -> (r: u8)
    ensures
        r == byte_or_zero(s@, i as int),
{
    if i < s.len() {
        s[i]
    } else {
        0
    }
}

fn word_at(s: &[u8], i: usize) -> (r: u32)
    requires
        i + 3 <= usize::MAX,
    ensures
        r == le_word(s@, i as int),
{
    (byte_at(s, i) as u32) | ((byte_at(s, i + 1) as u32) << 8u32) | ((byte_at(s, i + 2) as u32)
        << 16u32) | ((byte_at(s, i + 3) as u32) << 24u32)
}

fn exec_add_block(s: &[u8], i: usize, st: (u32, u32, u32)) -> (r: (u32, u32, u32))
    requires
        i + 12 <= usize::MAX,
    ensures
        r == add_block(s@, i as int, st),
{
    (
        st.0.wrapping_add(word_at(s, i)),
        st.1.wrapping_add(word_at(s, i + 4)),
        st.2.wrapping_add(word_at(s, i + 8)),
    )
}

proof fn lemma_tail_start(len: int, pos: int)
    requires
        0 <= pos,
        pos % 12 == 0,
        len - pos <= 12,
        len - pos > 0,
    ensures
        tail_start(len) == pos,
{
    if len > 12 {
        assert((len - 1) / 12 == pos / 12);
        assert(pos == (pos / 12) * 12);
    } else {
        assert(pos == 0);
    }
}

fn exec_lookup3(s: &[u8], st: (u32, u32, u32)) -> (r: (u32, u32, u32))
    requires
        s@.len() + 24 <= usize::MAX,
    ensures
        r == lookup3_state(s@, st),
{
    if s.len() == 0 {
        return st;
    }
    let mut cur = st;
    let mut pos: usize = 0;
    while s.len() - pos > 12
        invariant
            pos < s@.len(),
            pos % 12 == 0,
            s@.len() + 24 <= usize::MAX,
            blocks(s@, 0, st) == blocks(s@, pos as int, cur),
        decreases s@.len() - pos,
    {
        cur = exec_mix(exec_add_block(s, pos, cur));
        pos = pos + 12;
    }
    proof {
        lemma_tail_start(s@.len() as int, pos as int);
    }
    exec_final(exec_add_block(s, pos, cur))
}

/// `hashlittle(key, length, initval)`.
pub fn hashlittle(data: &[u8], init: u32) -> (r: u32)
    requires
        data@.len() + 24 <= usize::MAX,
    ensures
        r == spec_hashlittle(data@, init),
{
    let v = 0xdeadbeefu32.wrapping_add(data.len() as u32).wrapping_add(init);
    exec_lookup3(data, (v, v, v)).2
}

/// `hashlittle2(key, length, pc, pb)`: updates the primary (`pc`) and
/// secondary (`pb`) hash values in place.
pub fn hashlittle2(data: &[u8], pc: &mut u32, pb: &mut u32)
    requires
        data@.len() + 24 <= usize::MAX,
    ensures
        (*final(pc), *final(pb)) == spec_hashlittle2(data@, *old(pc), *old(pb)),
{
    let v = 0xdeadbeefu32.wrapping_add(data.len() as u32).wrapping_add(*pc);
    let st = exec_lookup3(data, (v, v, v.wrapping_add(*pb)));
    *pc = st.2;
    *pb = st.1;
}

} // verus!
