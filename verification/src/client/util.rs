//! Small shared helpers: 16-byte keys (`CKey`/`EKey`) and their hex form,
//! MD5, big-endian readers and human-readable sizes.

use vstd::prelude::*;
use md5::{Digest, Md5};
use crate::bytes::{be_value, byte_bound, lemma_be_value_bound};
use crate::text::{chars_of, hex_fixed, push_hex_fixed, string_of, trim, trim_chars, push_decimal, push_decimal_padded, decimal, decimal_padded, digit, push_chars, hex_digit, slice_chars};

verus! {

/// A content key (`CKey`) or encoded key (`EKey`).
pub type Key = [u8; 16];

/// `2^64`.
pub open spec fn u64_modulus() -> nat {
    0x1_0000_0000_0000_0000
}

proof fn lemma_step_mod(x: int, b: int)
    ensures
        ((x % (u64_modulus() as int)) * 256 + b) % (u64_modulus() as int) == (x * 256 + b) % (u64_modulus() as int),
{
    let m = u64_modulus() as int;
    vstd::arithmetic::div_mod::lemma_mul_mod_noop_left(x, 256, m);
    vstd::arithmetic::div_mod::lemma_add_mod_noop((x % m) * 256, b, m);
    vstd::arithmetic::div_mod::lemma_add_mod_noop(x * 256, b, m);
}

/// Big-endian unsigned integer of up to 8 bytes (longer inputs keep the low
/// 64 bits, as the shifting reader does).
pub fn be_uint(bytes: &[u8]) -> (r: u64)
    ensures
        r == be_value(bytes@) % u64_modulus(),
        bytes@.len() <= 8 ==> r == be_value(bytes@),
{
    let mut acc: u64 = 0;
    let mut i: usize = 0;
    while i < bytes.len()
        invariant
            i <= bytes@.len(),
            acc == be_value(bytes@.take(i as int)) % u64_modulus(),
        decreases bytes@.len() - i,
    {
        let b = bytes[i];
        let next = (acc << 8u64) | (b as u64);
        assert(next == (acc * 256 + b) % 0x1_0000_0000_0000_0000) by (bit_vector)
            requires next == (acc << 8u64) | (b as u64);
        proof {
            let t = bytes@.take(i + 1);
            assert(t.drop_last() =~= bytes@.take(i as int));
            lemma_step_mod(be_value(bytes@.take(i as int)) as int, b as int);
        }
        acc = next;
        i += 1;
    }
    proof {
        assert(bytes@.take(i as int) =~= bytes@);
        if bytes@.len() <= 8 {
            lemma_be_value_bound(bytes@);
            lemma_byte_bound_8(bytes@.len());
        }
    }
    acc
}

proof fn lemma_byte_bound_8(n: nat)
    requires
        n <= 8,
    ensures
        byte_bound(n) <= u64_modulus(),
{
    reveal_with_fuel(byte_bound, 9);
    assert(byte_bound(8) == u64_modulus());
    lemma_byte_bound_monotone(n, 8);
}

/// `2^(8 n)` grows with `n`.
pub proof fn lemma_byte_bound_monotone(a: nat, b: nat)
    requires
        a <= b,
    ensures
        byte_bound(a) <= byte_bound(b),
    decreases b,
{
    if a < b {
        lemma_byte_bound_monotone(a, (b - 1) as nat);
    }
}


/// Lower-case hex of `s`, two digits per byte.
pub open spec fn hex_of(s: Seq<u8>) -> Seq<char>
    decreases s.len(),
{
    if s.len() == 0 {
        Seq::empty()
    } else {
        hex_of(s.drop_last()) + hex_fixed(s.last() as nat, 2, false)
    }
}

/// Lower-case hex of any byte string.
pub fn hex(bytes: &[u8]) -> (r: String)
    ensures
        r@ == hex_of(bytes@),
{
    let mut out: Vec<char> = Vec::new();
    let mut i: usize = 0;
    while i < bytes.len()
        invariant
            i <= bytes@.len(),
            out@ == hex_of(bytes@.take(i as int)),
        decreases bytes@.len() - i,
    {
        push_hex_fixed(&mut out, bytes[i] as u64, 2, false);
        assert(bytes@.take(i + 1).drop_last() =~= bytes@.take(i as int));
        i += 1;
    }
    assert(bytes@.take(i as int) =~= bytes@);
    string_of(out.as_slice())
}

/// Whether `c` is an ASCII hex digit (`char::to_digit(16)` is `Some`).
pub open spec fn is_hex_digit(c: char) -> bool {
    ('0' <= c && c <= '9') || ('a' <= c && c <= 'f') || ('A' <= c && c <= 'F')
}

/// Value of a hex digit.
pub open spec fn hex_value(c: char) -> nat {
    if '0' <= c && c <= '9' {
        (c as nat - 48) as nat
    } else if 'a' <= c && c <= 'f' {
        (c as nat - 87) as nat
    } else {
        (c as nat - 55) as nat
    }
}

/// The key written by 32 hex digits `t`.
pub open spec fn key_of_hex(t: Seq<char>) -> Seq<u8> {
    Seq::new(16, |i: int| (hex_value(t[2 * i]) * 16 + hex_value(t[2 * i + 1])) as u8)
}

/// What `parse_key` accepts: after trimming, exactly 32 ASCII hex digits.
pub open spec fn is_key_text(t: Seq<char>) -> bool {
    &&& trim(t).len() == 32
    &&& forall|i: int| 0 <= i < 32 ==> is_hex_digit(#[trigger] trim(t)[i])
}

fn hex_digit_value(c: char) -> (r: Option<u8>)
    ensures
        r is Some <==> is_hex_digit(c),
        r matches Some(v) ==> v as nat == hex_value(c),
{
    if '0' <= c && c <= '9' {
        Some((c as u8) - 48)
    } else if 'a' <= c && c <= 'f' {
        Some((c as u8) - 87)
    } else if 'A' <= c && c <= 'F' {
        Some((c as u8) - 55)
    } else {
        None
    }
}

/// Parses exactly 32 hex digits (surrounding white space allowed) into a key.
pub fn parse_key(text: &str) -> (r: Option<Key>)
    ensures
        r is Some <==> is_key_text(text@),
        r matches Some(k) ==> k@ == key_of_hex(trim(text@)),
{
    let cs = chars_of(text);
    let t = trim_chars(cs.as_slice());
    if t.len() != 32 {
        return None;
    }
    let mut out = [0u8; 16];
    let mut i: usize = 0;
    while i < 16
        invariant
            i <= 16,
            t@ == trim(text@),
            t@.len() == 32,
            forall|j: int| 0 <= j < 2 * i ==> is_hex_digit(#[trigger] t@[j]),
            forall|j: int| 0 <= j < i ==> #[trigger] out@[j] == key_of_hex(t@)[j],
        decreases 16 - i,
    {
        let hi = match hex_digit_value(t[2 * i]) {
            Some(v) => v,
            None => return None,
        };
        let lo = match hex_digit_value(t[2 * i + 1]) {
            Some(v) => v,
            None => return None,
        };
        out[i] = hi * 16 + lo;
        i += 1;
    }
    assert(out@ =~= key_of_hex(t@));
    Some(out)
}

proof fn lemma_hex_of(s: Seq<u8>)
    ensures
        hex_of(s).len() == 2 * s.len(),
        forall|i: int| 0 <= i < s.len() ==> hex_of(s)[2 * i] == hex_digit((s[i] / 16) as nat, false)
            && hex_of(s)[2 * i + 1] == hex_digit((s[i] % 16) as nat, false),
    decreases s.len(),
{
    if s.len() > 0 {
        let p = s.drop_last();
        lemma_hex_of(p);
        let n = s.last() as nat;
        let h = hex_fixed(n, 2, false);
        reveal_with_fuel(hex_fixed, 3);
        assert(h =~= seq![hex_digit((n / 16) % 16, false), hex_digit(n % 16, false)]);
        assert((n / 16) % 16 == n / 16);
        assert forall|i: int| 0 <= i < s.len() implies hex_of(s)[2 * i] == hex_digit((s[i] / 16) as nat, false)
            && hex_of(s)[2 * i + 1] == hex_digit((s[i] % 16) as nat, false) by {
            if i < p.len() {
                assert(s[i] == p[i]);
            }
        }
    }
}

proof fn lemma_hex_digit_value(d: nat)
    requires
        d < 16,
    ensures
        is_hex_digit(hex_digit(d, false)),
        hex_value(hex_digit(d, false)) == d,
        !crate::text::is_white_space(hex_digit(d, false)),
{
}

/// Reading back the hex text of a key gives the key: the hex of any 16
/// bytes is key text, and it names those bytes.
pub proof fn lemma_key_hex_round_trip(k: Seq<u8>)
    requires
        k.len() == 16,
    ensures
        is_key_text(hex_of(k)),
        key_of_hex(trim(hex_of(k))) == k,
{
    let h = hex_of(k);
    lemma_hex_of(k);
    assert forall|j: int| 0 <= j < 32 implies is_hex_digit(#[trigger] h[j]) && !crate::text::is_white_space(h[j]) by {
        let i = j / 2;
        assert(0 <= i < 16);
        if j % 2 == 0 {
            assert(j == 2 * i);
            lemma_hex_digit_value((k[i] / 16) as nat);
        } else {
            assert(j == 2 * i + 1);
            lemma_hex_digit_value((k[i] % 16) as nat);
        }
    }
    assert(crate::text::trim_start(h) == h);
    assert(crate::text::trim_end(h) == h);
    assert forall|i: int| 0 <= i < 16 implies #[trigger] key_of_hex(h)[i] == k[i] by {
        lemma_hex_digit_value((k[i] / 16) as nat);
        lemma_hex_digit_value((k[i] % 16) as nat);
    }
    assert(key_of_hex(h) =~= k);
}

proof fn lemma_hex_value_digit(c: char)
    requires
        is_hex_digit(c),
    ensures
        hex_value(c) < 16,
        hex_digit(hex_value(c), false) == crate::text::ascii_lower(c),
{
}

/// The hex text of a parsed key is the key text in lower case: for text
/// that `parse_key` accepts, the hex of the key it reads is the trimmed text
/// with its ASCII letters lowered.
pub proof fn lemma_parsed_key_hex(t: Seq<char>)
    requires
        is_key_text(t),
    ensures
        hex_of(key_of_hex(trim(t))) == crate::text::lower_ascii(trim(t)),
{
    let s = trim(t);
    let k = key_of_hex(s);
    lemma_hex_of(k);
    assert forall|j: int| 0 <= j < 32 implies #[trigger] hex_of(k)[j] == crate::text::lower_ascii(s)[j] by {
        let i = j / 2;
        assert(0 <= i < 16);
        let hi = hex_value(s[2 * i]);
        let lo = hex_value(s[2 * i + 1]);
        lemma_hex_value_digit(s[2 * i]);
        lemma_hex_value_digit(s[2 * i + 1]);
        assert((hi * 16 + lo) / 16 == hi && (hi * 16 + lo) % 16 == lo && hi * 16 + lo < 256) by (nonlinear_arith)
            requires
                hi < 16,
                lo < 16,
        ;
        assert(k[i] as nat == hi * 16 + lo);
        if j % 2 == 0 {
            assert(j == 2 * i);
        } else {
            assert(j == 2 * i + 1);
        }
    }
    assert(hex_of(k) =~= crate::text::lower_ascii(s));
}

/// The hex text of bytes, byte by byte: two lower-case digits per byte, in
/// order, with nothing between them.
pub proof fn lemma_hex_per_byte(b: Seq<u8>)
    ensures
        hex_of(b).len() == 2 * b.len(),
        forall|i: int| 0 <= i < b.len() ==> #[trigger] hex_of(b).subrange(2 * i, 2 * i + 2) == hex_fixed(b[i] as nat, 2, false),
{
    lemma_hex_of(b);
    assert forall|i: int| 0 <= i < b.len() implies #[trigger] hex_of(b).subrange(2 * i, 2 * i + 2) == hex_fixed(
        b[i] as nat,
        2,
        false,
    ) by {
        let n = b[i] as nat;
        reveal_with_fuel(hex_fixed, 3);
        assert((n / 16) % 16 == n / 16);
        assert(hex_fixed(n, 2, false) =~= seq![hex_digit(n / 16, false), hex_digit(n % 16, false)]);
        assert(hex_of(b).subrange(2 * i, 2 * i + 2) =~= seq![hex_digit(n / 16, false), hex_digit(n % 16, false)]);
    }
}

/// The MD5 digest of `data`.
pub uninterp spec fn md5_digest(data: Seq<u8>) -> Seq<u8>;

/// MD5 of `data` (`md-5` crate `Md5::digest`): the result is exactly the
/// digest named [`md5_digest`] of the input bytes.
#[verifier::external_body]
pub fn md5(data: &[u8]) -> (r: Key)
    ensures
        r@ == md5_digest(data@),
{
    Md5::digest(data).into()
}

/// Bytes of the UTF-8 encoding of `c`.
pub open spec fn char_width(c: char) -> nat {
    if (c as u32) < 0x80 {
        1
    } else if (c as u32) < 0x800 {
        2
    } else if (c as u32) < 0x10000 {
        3
    } else {
        4
    }
}

/// Bytes of the UTF-8 encoding of `s`.
pub open spec fn utf8_width(s: Seq<char>) -> nat
    decreases s.len(),
{
    if s.len() == 0 {
        0
    } else {
        utf8_width(s.drop_last()) + char_width(s.last())
    }
}

/// Byte `n` of the UTF-8 encoding of `s` starts a character (or ends `s`).
pub open spec fn byte_boundary(s: Seq<char>, n: nat) -> bool {
    exists|a: int| 0 <= a <= s.len() && utf8_width(#[trigger] s.take(a)) == n
}

/// The number of characters of `s` before byte `n` of its UTF-8 encoding.
pub open spec fn chars_before_byte(s: Seq<char>, n: nat) -> int {
    choose|a: int| 0 <= a <= s.len() && utf8_width(#[trigger] s.take(a)) == n
}

/// Longer prefixes have longer encodings.
proof fn lemma_width_grows(s: Seq<char>, a: int, b: int)
    requires
        0 <= a < b <= s.len(),
    ensures
        utf8_width(s.take(a)) < utf8_width(s.take(b)),
    decreases b - a,
{
    assert(s.take(b).drop_last() =~= s.take(b - 1));
    if a < b - 1 {
        lemma_width_grows(s, a, b - 1);
    }
}

/// `<kind>/xx/yy/<key>`: the CDN path of a key, `xx` and `yy` its first two
/// pairs of bytes.
pub open spec fn spec_cdn_path(kind: Seq<char>, key: Seq<char>) -> Seq<char> {
    let a = chars_before_byte(key, 2);
    let b = chars_before_byte(key, 4);
    kind + seq!['/'] + key.subrange(0, a) + seq!['/'] + key.subrange(a, b) + seq!['/'] + key
}

fn char_width_exec(c: char) -> (r: usize)
    ensures
        r == char_width(c),
{
    let v = c as u32;
    if v < 0x80 {
        1
    } else if v < 0x800 {
        2
    } else if v < 0x10000 {
        3
    } else {
        4
    }
}

/// The number of characters of `cs` before byte `n` of their encoding.
fn chars_before(cs: &[char], n: usize) -> (r: usize)
    requires
        n <= 4,
        byte_boundary(cs@, n as nat),
    ensures
        r == chars_before_byte(cs@, n as nat),
        r <= cs@.len(),
{
    let ghost w0 = choose|a: int| 0 <= a <= cs@.len() && utf8_width(#[trigger] cs@.take(a)) == n;
    let mut i: usize = 0;
    let mut w: usize = 0;
    assert(cs@.take(0) =~= Seq::<char>::empty());
    while w < n
        invariant
            n <= 4,
            0 <= w0 <= cs@.len(),
            utf8_width(cs@.take(w0)) == n,
            i <= w0,
            w as nat == utf8_width(cs@.take(i as int)),
            w <= n,
        decreases n - w,
    {
        proof {
            if i == w0 {
                assert(false);
            }
        }
        let c = cs[i];
        w = w + char_width_exec(c);
        i += 1;
        proof {
            assert(cs@.take(i as int).drop_last() =~= cs@.take(i - 1));
            if i < w0 {
                lemma_width_grows(cs@, i as int, w0);
            }
        }
    }
    proof {
        if i < w0 {
            lemma_width_grows(cs@, i as int, w0);
        }
        let c = chars_before_byte(cs@, n as nat);
        if c < w0 {
            lemma_width_grows(cs@, c, w0);
        } else if c > w0 {
            lemma_width_grows(cs@, w0, c);
        }
    }
    i
}

/// CDN relative path of a key: `<type>/xx/yy/<key>`. Bytes 2 and 4 of the
/// key must start characters (keys are hex, so they do).
pub fn cdn_path(kind: &str, key: &str) -> (r: String)
    requires
        byte_boundary(key@, 2),
        byte_boundary(key@, 4),
    ensures
        r@ == spec_cdn_path(kind@, key@),
{
    let k = chars_of(key);
    let a = chars_before(k.as_slice(), 2);
    let b = chars_before(k.as_slice(), 4);
    proof {
        if b < a {
            lemma_width_grows(k@, b as int, a as int);
        }
    }
    let mut out = chars_of(kind);
    out.push('/');
    let head = slice_chars(k.as_slice(), 0, a);
    push_chars(&mut out, head.as_slice());
    out.push('/');
    let mid = slice_chars(k.as_slice(), a, b);
    push_chars(&mut out, mid.as_slice());
    out.push('/');
    push_chars(&mut out, k.as_slice());
    let r = string_of(out.as_slice());
    assert(r@ =~= spec_cdn_path(kind@, key@));
    r
}

/// `2^k`.
pub open spec fn pw2(k: nat) -> nat
    decreases k,
{
    if k == 0 {
        1
    } else {
        2 * pw2((k - 1) as nat)
    }
}

/// How many low bits of `n` a double cannot hold: the least `s` from `from`
/// (at most 11) with `n < 2^(53 + s)`.
pub open spec fn dropped_bits(n: nat, s: nat) -> nat
    decreases 11 - s,
{
    if s >= 11 || n < pw2(53 + s) {
        s
    } else {
        dropped_bits(n, s + 1)
    }
}

/// The double nearest to `n < 2^64` (ties to an even significand), as the
/// integer it equals.
pub open spec fn nearest_double(n: nat) -> nat {
    let s = dropped_bits(n, 0);
    if s == 0 {
        n
    } else {
        let p = pw2(s);
        let m = n / p;
        let r = n % p;
        let half = p / 2;
        (if r > half || (r == half && m % 2 == 1) { m + 1 } else { m }) * p
    }
}

/// `1024^u`.
pub open spec fn pow1024(u: nat) -> nat
    decreases u,
{
    if u == 0 {
        1
    } else {
        1024 * pow1024((u - 1) as nat)
    }
}

/// The unit of a size: the largest `u <= 4` with `f >= 1024^u`.
pub open spec fn size_unit(f: nat) -> nat {
    if f >= pow1024(4) {
        4
    } else if f >= pow1024(3) {
        3
    } else if f >= pow1024(2) {
        2
    } else if f >= pow1024(1) {
        1
    } else {
        0
    }
}

/// `a / d` rounded to the nearest integer, ties to even.
pub open spec fn round_half_even(a: nat, d: nat) -> nat {
    let q = a / d;
    let r = a % d;
    if 2 * r > d || (2 * r == d && q % 2 == 1) {
        q + 1
    } else {
        q
    }
}

/// The name of unit `u`.
pub open spec fn unit_name(u: nat) -> Seq<char> {
    if u == 1 {
        "KiB"@
    } else if u == 2 {
        "MiB"@
    } else if u == 3 {
        "GiB"@
    } else {
        "TiB"@
    }
}

/// `12.34 GiB` style size: the byte count as a double divided by 1024 per
/// unit, with two decimals (ties to even); plain bytes below 1 KiB.
pub open spec fn spec_human_size(bytes: u64) -> Seq<char> {
    let f = nearest_double(bytes as nat);
    let u = size_unit(f);
    if u == 0 {
        decimal(bytes as nat) + " B"@
    } else {
        let q = round_half_even(f * 100, pow1024(u));
        decimal(q / 100) + seq!['.'] + decimal_padded(q % 100, 2) + seq![' '] + unit_name(u)
    }
}

proof fn lemma_pw2_values()
    ensures
        pw2(53) == 0x20_0000_0000_0000,
        pw2(64) == 0x1_0000_0000_0000_0000,
{
    reveal_with_fuel(pw2, 65);
}

proof fn lemma_pw2_add(a: nat, b: nat)
    ensures
        pw2(a + b) == pw2(a) * pw2(b),
        pw2(b) > 0,
    decreases b,
{
    if b > 0 {
        let c = (b - 1) as nat;
        lemma_pw2_add(a, c);
        assert(((a + b) - 1) as nat == a + c);
        assert(pw2(a + b) == 2 * pw2(a + c));
        assert(pw2(b) == 2 * pw2(c));
        assert(pw2(a) * (2 * pw2(c)) == 2 * (pw2(a) * pw2(c))) by (nonlinear_arith);
        assert(pw2(a) * pw2(b) == pw2(a) * (2 * pw2(c)));
        assert(pw2(a + b) == pw2(a) * pw2(b));
    } else {
        assert(a + b == a);
        assert(pw2(b) == 1);
        assert(pw2(a) * 1 == pw2(a));
    }
}

proof fn lemma_pw2_grows(a: nat, b: nat)
    requires
        a <= b,
    ensures
        pw2(a) <= pw2(b),
    decreases b,
{
    if a < b {
        lemma_pw2_grows(a, (b - 1) as nat);
    }
}

/// The double nearest to `n`.
fn nearest_double_exec(n: u64) -> (r: u128)
    ensures
        r == nearest_double(n as nat),
        r <= 0x1_0000_0000_0000_0000,
{
    proof {
        lemma_pw2_values();
    }
    let mut s: u32 = 0;
    let mut limit: u128 = 0x20_0000_0000_0000;
    while s < 11 && (n as u128) >= limit
        invariant
            s <= 11,
            limit == pw2((53 + s) as nat),
            dropped_bits(n as nat, 0) == dropped_bits(n as nat, s as nat),
        decreases 11 - s,
    {
        proof {
            lemma_pw2_grows((53 + s) as nat, 64);
        }
        limit = limit * 2;
        s += 1;
    }
    if s == 0 {
        return n as u128;
    }
    let mut p: u128 = 1;
    let mut k: u32 = 0;
    while k < s
        invariant
            k <= s <= 11,
            p == pw2(k as nat),
        decreases s - k,
    {
        proof {
            lemma_pw2_grows(k as nat, 11);
            reveal_with_fuel(pw2, 12);
        }
        p = p * 2;
        k += 1;
    }
    proof {
        lemma_pw2_add(53, s as nat);
        lemma_pw2_grows((53 + s) as nat, 64);
    }
    let nn = n as u128;
    let m = nn / p;
    let rem = nn % p;
    let half = p / 2;
    let m2 = if rem > half || (rem == half && m % 2 == 1) { m + 1 } else { m };
    proof {
        assert(m * p <= nn) by (nonlinear_arith)
            requires m == nn / p, p > 0;
        assert(m2 * p <= nn + p) by (nonlinear_arith)
            requires m2 <= m + 1, m * p <= nn, p > 0;
        assert(p >= 2);
        assert(nn < pw2((53 + s) as nat));
        assert(m < pw2(53)) by (nonlinear_arith)
            requires m == nn / p, p > 0, nn < pw2(53) * p;
        assert(m2 * p <= pw2(53) * p) by (nonlinear_arith)
            requires m2 <= pw2(53), p > 0;
        assert(m2 * p <= 0x1_0000_0000_0000_0000);
    }
    m2 * p
}

/// `12.34 GiB` style size (plain bytes below 1 KiB).
pub fn human_size(bytes: u64) -> (r: String)
    ensures
        r@ == spec_human_size(bytes),
{
    let f = nearest_double_exec(bytes);
    proof {
        reveal_with_fuel(pow1024, 5);
    }
    let u: u32 = if f >= 0x100_0000_0000 {
        4
    } else if f >= 0x4000_0000 {
        3
    } else if f >= 0x10_0000 {
        2
    } else if f >= 0x400 {
        1
    } else {
        0
    };
    assert(u == size_unit(f as nat));
    let mut out: Vec<char> = Vec::new();
    if u == 0 {
        push_decimal(&mut out, bytes);
        out.push(' ');
        out.push('B');
        let r = string_of(out.as_slice());
        proof {
            reveal_strlit(" B");
        }
        assert(r@ =~= spec_human_size(bytes));
        return r;
    }
    let d: u128 = if u == 4 {
        0x100_0000_0000
    } else if u == 3 {
        0x4000_0000
    } else if u == 2 {
        0x10_0000
    } else {
        0x400
    };
    assert(d == pow1024(u as nat));
    let a = f * 100;
    let q0 = a / d;
    let rem = a % d;
    let q = if 2 * rem > d || (2 * rem == d && q0 % 2 == 1) { q0 + 1 } else { q0 };
    assert(q == round_half_even(f as nat * 100, pow1024(u as nat)));
    assert(q0 <= a / 0x400) by (nonlinear_arith)
        requires q0 == a / d, d >= 0x400;
    assert(q < 0x1_0000_0000_0000_0000);
    push_decimal(&mut out, (q / 100) as u64);
    out.push('.');
    push_decimal_padded(&mut out, (q % 100) as u64, 2);
    out.push(' ');
    let name = if u == 1 {
        "KiB"
    } else if u == 2 {
        "MiB"
    } else if u == 3 {
        "GiB"
    } else {
        "TiB"
    };
    let nc = chars_of(name);
    push_chars(&mut out, nc.as_slice());
    let r = string_of(out.as_slice());
    assert(r@ =~= spec_human_size(bytes));
    r
}

} // verus!
