//! The 0x1E-byte `BLTE_ENCODED_HEADER` in front of every entry of a local
//! `data.###` archive: the reversed 9-byte `EKey` prefix, the encoded size,
//! two zero fields, the Jenkins hash of the first 0x16 bytes and a checksum
//! keyed by the entry's absolute storage offset.

use vstd::prelude::*;
use crate::bytes::{le_bytes_u32, push_u32_le, u32_le};
use crate::client::util::Key;
use crate::jenkins::{hashlittle, spec_hashlittle};

verus! {

/// Size of the encoded header.
pub const HEADER_SIZE: usize = 0x1E;

/// `CascLib` `table_16C57A8`.
pub open spec fn offset_table(i: int) -> u32 {
    if i == 0 { 0x049396B8 }
    else if i == 1 { 0x72A82A9B }
    else if i == 2 { 0xEE626CCA }
    else if i == 3 { 0x9917754F }
    else if i == 4 { 0x15DE40B1 }
    else if i == 5 { 0xF5A8A9B6 }
    else if i == 6 { 0x421EAC7E }
    else if i == 7 { 0xA9D55C9A }
    else if i == 8 { 0x317FD40C }
    else if i == 9 { 0x04FAF80D }
    else if i == 10 { 0x3D6BE971 }
    else if i == 11 { 0x52933CFD }
    else if i == 12 { 0x27F64B7D }
    else if i == 13 { 0xC6F5C11B }
    else if i == 14 { 0xD5757E3A }
    else { 0x6C388745 }
}

fn offset_table_at(i: u32) -> (r: u32)
    ensures
        r == offset_table(i as int),
{
    match i {
        0 => 0x049396B8,
        1 => 0x72A82A9B,
        2 => 0xEE626CCA,
        3 => 0x9917754F,
        4 => 0x15DE40B1,
        5 => 0xF5A8A9B6,
        6 => 0x421EAC7E,
        7 => 0xA9D55C9A,
        8 => 0x317FD40C,
        9 => 0x04FAF80D,
        10 => 0x3D6BE971,
        11 => 0x52933CFD,
        12 => 0x27F64B7D,
        13 => 0xC6F5C11B,
        14 => 0xD5757E3A,
        _ => 0x6C388745,
    }
}

/// The first 0x16 bytes: seven zeros, the first nine `EKey` bytes reversed,
/// the little-endian encoded size (blob plus header) and two zero fields.
pub open spec fn header_head(ekey: Seq<u8>, blte_len: u32) -> Seq<u8> {
    Seq::new(7, |i: int| 0u8) + Seq::new(9, |i: int| ekey[8 - i]) + le_bytes_u32(
        (blte_len + HEADER_SIZE) as u32,
    ) + seq![0u8, 0u8]
}

/// XOR of the bytes `h[i]`, `i < n`, whose absolute position `base + i` is
/// `k` modulo 4.
pub open spec fn xor_class(h: Seq<u8>, n: int, base: int, k: int) -> u8
    decreases n,
{
    if n <= 0 {
        0
    } else if (base + n - 1) % 4 == k {
        xor_class(h, n - 1, base, k) ^ h[n - 1]
    } else {
        xor_class(h, n - 1, base, k)
    }
}

/// The keyed offset word of the checksum.
pub open spec fn encoded_offset(storage_offset: u64) -> u32 {
    let e = vstd::wrapping::u32_specs::wrapping_add(storage_offset as u32, HEADER_SIZE as u32);
    e ^ offset_table((e & 0x0F) as int)
}

/// The four checksum bytes that follow the first 0x1A bytes `h`.
pub open spec fn checksum(h: Seq<u8>, storage_offset: u64) -> Seq<u8> {
    let base = (storage_offset % 4) as int;
    let enc = le_bytes_u32(encoded_offset(storage_offset));
    Seq::new(
        4,
        |j: int| xor_class(h, 0x1A, base, (base + 0x1A + j) % 4) ^ enc[(base + 0x1A + j) % 4],
    )
}

/// The whole header of an entry whose BLTE data is `blte_len` bytes long
/// and which starts at `storage_offset` (`(archive << 30) | offset`).
pub open spec fn spec_encoded_header(ekey: Seq<u8>, blte_len: u32, storage_offset: u64) -> Seq<u8> {
    let head = header_head(ekey, blte_len);
    let hashed = head + le_bytes_u32(spec_hashlittle(head, 0x3D6B_E971));
    hashed + checksum(hashed, storage_offset)
}

/// Header of an entry whose BLTE data is `blte_len` bytes long and which
/// starts at `storage_offset`.
pub fn encoded_header(ekey: &Key, blte_len: u32, storage_offset: u64) -> (h: [u8; HEADER_SIZE])
    requires
        blte_len + HEADER_SIZE <= u32::MAX,
    ensures
        h@ == spec_encoded_header(ekey@, blte_len, storage_offset),
{
    let mut v: Vec<u8> = Vec::new();
    let mut i: usize = 0;
    while i < 7
        invariant
            i <= 7,
            v@ == Seq::new(i as nat, |j: int| 0u8),
        decreases 7 - i,
    {
        v.push(0);
        i += 1;
        assert(v@ =~= Seq::new(i as nat, |j: int| 0u8));
    }
    let mut i: usize = 0;
    while i < 9
        invariant
            i <= 9,
            v@ == Seq::new(7, |j: int| 0u8) + Seq::new(i as nat, |j: int| ekey@[8 - j]),
        decreases 9 - i,
    {
        v.push(ekey[8 - i]);
        i += 1;
        assert(v@ =~= Seq::new(7, |j: int| 0u8) + Seq::new(i as nat, |j: int| ekey@[8 - j]));
    }
    push_u32_le(&mut v, blte_len + HEADER_SIZE as u32);
    v.push(0);
    v.push(0);
    assert(v@ =~= header_head(ekey@, blte_len));
    let jenkins = hashlittle(v.as_slice(), 0x3D6B_E971);
    push_u32_le(&mut v, jenkins);
    let ghost hashed = v@;

    let mut encoded = (storage_offset as u32).wrapping_add(HEADER_SIZE as u32);
    encoded = encoded ^ offset_table_at(encoded & 0x0F);
    let enc = u32_le(encoded);
    let base = (storage_offset % 4) as usize;
    let mut x = [0u8; 4];
    let mut i: usize = 0;
    while i < 0x1A
        invariant
            i <= 0x1A,
            v@ == hashed,
            hashed.len() == 0x1A,
            base == storage_offset % 4,
            forall|k: int| 0 <= k < 4 ==> #[trigger] x@[k] == xor_class(hashed, i as int, base as int, k),
        decreases 0x1A - i,
    {
        let k = (base + i) % 4;
        x[k] = x[k] ^ v[i];
        i += 1;
    }
    let mut j: usize = 0;
    while j < 4
        invariant
            j <= 4,
            v@ == hashed + checksum(hashed, storage_offset).take(j as int),
            hashed.len() == 0x1A,
            base == storage_offset % 4,
            enc@ == le_bytes_u32(encoded_offset(storage_offset)),
            forall|k: int| 0 <= k < 4 ==> #[trigger] x@[k] == xor_class(hashed, 0x1A, base as int, k),
        decreases 4 - j,
    {
        let k = (base + 0x1A + j) % 4;
        v.push(x[k] ^ enc[k]);
        j += 1;
        assert(v@ =~= hashed + checksum(hashed, storage_offset).take(j as int));
    }
    assert(v@ =~= spec_encoded_header(ekey@, blte_len, storage_offset));
    let mut h = [0u8; HEADER_SIZE];
    let mut i: usize = 0;
    while i < HEADER_SIZE
        invariant
            i <= HEADER_SIZE,
            v@.len() == HEADER_SIZE,
            forall|j: int| 0 <= j < i ==> h@[j] == v@[j],
        decreases HEADER_SIZE - i,
    {
        h[i] = v[i];
        i += 1;
    }
    assert(h@ =~= v@);
    h
}

} // verus!
