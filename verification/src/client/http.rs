//! The retry policy used against the CDN and the mirror, and the checks on
//! what a range request returns.
//!
//! Transport errors, 429 and 5xx are retried with exponential backoff (1,
//! 2, 4, 8 s, five attempts in all); 403/404/410 mean "not there" and are
//! not retried; other statuses are fatal. A server that ignores `Range` and
//! answers 200 with the whole file is handled by slicing.

use vstd::prelude::*;
use crate::client::cli::{debug_string, debug_text};
use crate::text::{decimal, push_decimal, push_str, string_of};

verus! {

/// Number of attempts for retryable failures.
pub const ATTEMPTS: u32 = 5;

/// Outcome of one attempt.
pub enum Attempt {
    Body { status: u16, content_range: Option<String>, body: Vec<u8> },
    NotFound(u16),
}

/// What a status means.
#[derive(Debug, Clone, Copy, PartialEq, Eq, Structural)]
pub enum StatusClass {
    /// 200 or 206: read the body.
    Body,
    /// 403, 404 or 410: the file is not there.
    NotFound,
    /// 429 or 5xx: try again.
    Retry,
    /// Anything else.
    Fatal,
}

/// The class of an HTTP status.
pub open spec fn spec_class(status: u16) -> StatusClass {
    if status == 200 || status == 206 {
        StatusClass::Body
    } else if status == 403 || status == 404 || status == 410 {
        StatusClass::NotFound
    } else if status == 429 || (500 <= status && status <= 599) {
        StatusClass::Retry
    } else {
        StatusClass::Fatal
    }
}

/// The class of an HTTP status.
pub fn classify(status: u16) -> (r: StatusClass)
    ensures
        r == spec_class(status),
{
    if status == 200 || status == 206 {
        StatusClass::Body
    } else if status == 403 || status == 404 || status == 410 {
        StatusClass::NotFound
    } else if status == 429 || (500 <= status && status <= 599) {
        StatusClass::Retry
    } else {
        StatusClass::Fatal
    }
}

/// `2^k`.
pub open spec fn pow2(k: nat) -> nat
    decreases k,
{
    if k == 0 {
        1
    } else {
        2 * pow2((k - 1) as nat)
    }
}

/// After retryable failure number `attempt` (counting from 1): the seconds
/// to wait before the next attempt (1, 2, 4, 8), or none when it was the
/// last attempt.
pub fn retry_delay(attempt: u32) -> (r: Option<u64>)
    requires
        attempt >= 1,
    ensures
        attempt < ATTEMPTS ==> r == Some(pow2((attempt - 1) as nat) as u64),
        attempt >= ATTEMPTS ==> r is None,
{
    if attempt >= ATTEMPTS {
        return None;
    }
    let mut delay: u64 = 1;
    let mut k: u32 = 1;
    while k < attempt
        invariant
            1 <= k <= attempt < ATTEMPTS,
            delay == pow2((k - 1) as nat),
            k == 1 ==> delay == 1,
            k == 2 ==> delay == 2,
            k == 3 ==> delay == 4,
            k == 4 ==> delay == 8,
        decreases attempt - k,
    {
        proof {
            assert(pow2(k as nat) == 2 * pow2((k - 1) as nat));
        }
        delay = delay * 2;
        k += 1;
    }
    Some(delay)
}

/// `bytes=<start>-<end>`: the `Range` header of a request.
pub open spec fn spec_range_header(start: u64, end: u64) -> Seq<char> {
    "bytes="@ + decimal(start as nat) + seq!['-'] + decimal(end as nat)
}

/// The `Range` header of a request for bytes `start..=end`.
pub fn range_header(start: u64, end: u64) -> (r: String)
    ensures
        r@ == spec_range_header(start, end),
{
    let mut out: Vec<char> = Vec::new();
    push_str(&mut out, "bytes=");
    push_decimal(&mut out, start);
    out.push('-');
    push_decimal(&mut out, end);
    string_of(out.as_slice())
}

/// The whole body of an attempt, or none when the file is not there.
pub fn body_of(a: Attempt) -> (r: Option<Vec<u8>>)
    ensures
        match a {
            Attempt::Body { body, .. } => r matches Some(b) && b@ == body@,
            Attempt::NotFound(_) => r is None,
        },
{
    match a {
        Attempt::Body { body, .. } => Some(body),
        Attempt::NotFound(_) => None,
    }
}

/// The start of the `Content-Range` of an answer for bytes `start..=end`:
/// `bytes <start>-<end>/`.
pub open spec fn content_range_prefix(start: u64, end: u64) -> Seq<char> {
    "bytes "@ + decimal(start as nat) + seq!['-'] + decimal(end as nat) + seq!['/']
}

/// What a range request for bytes `start..=end` of `url` gives, from the
/// answer: the body of a 206 whose `Content-Range` (when there is one)
/// names that range and whose length is the range's, or the range sliced
/// out of a whole file; else the message of the failure.
pub open spec fn spec_range_body(url: Seq<char>, start: u64, end: u64, a: Attempt) -> Result<Seq<u8>, Seq<char>> {
    let len = end - start + 1;
    match a {
        Attempt::NotFound(status) => Err(url + ": HTTP "@ + decimal(status as nat)),
        Attempt::Body { status, content_range, body } => if status == 206 {
            if content_range is Some && !(content_range->0@.len() >= content_range_prefix(start, end).len()
                && content_range->0@.take(content_range_prefix(start, end).len() as int) == content_range_prefix(
                start,
                end,
            )) {
                Err(url + ": unexpected Content-Range "@ + debug_text(content_range->0@))
            } else if body@.len() != len {
                Err(url + ": range returned "@ + decimal(body@.len()) + " bytes, expected "@ + decimal(len as nat))
            } else {
                Ok(body@)
            }
        } else if start + len <= body@.len() {
            Ok(body@.subrange(start as int, start + len))
        } else {
            Err(url + ": file shorter than the requested range"@)
        },
    }
}

fn starts_with(s: &[char], p: &[char]) -> (r: bool)
    ensures
        r == (s@.len() >= p@.len() && s@.take(p@.len() as int) == p@),
{
    if s.len() < p.len() {
        return false;
    }
    let mut i: usize = 0;
    while i < p.len()
        invariant
            i <= p@.len() <= s@.len(),
            forall|j: int| 0 <= j < i ==> s@[j] == p@[j],
        decreases p@.len() - i,
    {
        if s[i] != p[i] {
            assert(s@.take(p@.len() as int)[i as int] != p@[i as int]);
            return false;
        }
        i += 1;
    }
    assert(s@.take(p@.len() as int) =~= p@);
    true
}

/// The bytes `start..=end` of `url` from the answer `a` to a range request.
pub fn range_body(url: &str, start: u64, end: u64, a: Attempt) -> (r: Result<Vec<u8>, String>)
    requires
        start <= end,
        end - start + 1 <= usize::MAX,
    ensures
        match (r, spec_range_body(url@, start, end, a)) {
            (Ok(b), Ok(s)) => b@ == s,
            (Err(m), Err(s)) => m@ == s,
            _ => false,
        },
{
    let len: u64 = end - start + 1;
    match a {
        Attempt::NotFound(status) => {
            let mut out: Vec<char> = Vec::new();
            push_str(&mut out, url);
            push_str(&mut out, ": HTTP ");
            push_decimal(&mut out, status as u64);
            Err(string_of(out.as_slice()))
        },
        Attempt::Body { status, content_range, body } => {
            if status == 206 {
                if let Some(cr) = &content_range {
                    let mut pre: Vec<char> = Vec::new();
                    push_str(&mut pre, "bytes ");
                    push_decimal(&mut pre, start);
                    pre.push('-');
                    push_decimal(&mut pre, end);
                    pre.push('/');
                    assert(pre@ =~= content_range_prefix(start, end));
                    let crc = crate::text::chars_of(cr.as_str());
                    if !starts_with(crc.as_slice(), pre.as_slice()) {
                        let mut out: Vec<char> = Vec::new();
                        push_str(&mut out, url);
                        push_str(&mut out, ": unexpected Content-Range ");
                        let q = debug_string(cr.as_str());
                        push_str(&mut out, q.as_str());
                        return Err(string_of(out.as_slice()));
                    }
                }
                if body.len() as u64 != len {
                    let mut out: Vec<char> = Vec::new();
                    push_str(&mut out, url);
                    push_str(&mut out, ": range returned ");
                    push_decimal(&mut out, body.len() as u64);
                    push_str(&mut out, " bytes, expected ");
                    push_decimal(&mut out, len);
                    return Err(string_of(out.as_slice()));
                }
                Ok(body)
            } else {
                let n = body.len() as u64;
                if start <= n && len <= n - start {
                    let s = start as usize;
                    let e = s + len as usize;
                    let mut out: Vec<u8> = Vec::new();
                    let mut i: usize = s;
                    while i < e
                        invariant
                            s <= i <= e <= body@.len(),
                            out@ == body@.subrange(s as int, i as int),
                        decreases e - i,
                    {
                        out.push(body[i]);
                        i += 1;
                        assert(out@ =~= body@.subrange(s as int, i as int));
                    }
                    Ok(out)
                } else {
                    let mut out: Vec<char> = Vec::new();
                    push_str(&mut out, url);
                    push_str(&mut out, ": file shorter than the requested range");
                    Err(string_of(out.as_slice()))
                }
            }
        },
    }
}

} // verus!
