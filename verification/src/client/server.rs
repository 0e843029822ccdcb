//! Request checks of the temporary local CDN server: which paths it serves
//! and which byte range a `Range` header asks for.

use vstd::prelude::*;
use crate::client::util::{human_size, spec_human_size};
use crate::text::{
    decimal, push_decimal, push_str,
    chars_eq, chars_of, find_chars, first_occurrence, lemma_first_occurrence, parse_u64, parse_u64_spec,
    pieces_view, slice_chars, string_of, split_char, split_on, trim, trim_chars,
};

verus! {

/// A character allowed in a CDN path segment: ASCII letter or digit, `.`,
/// `_` or `-`.
pub open spec fn is_path_char(c: char) -> bool {
    ('0' <= c && c <= '9') || ('a' <= c && c <= 'z') || ('A' <= c && c <= 'Z') || c == '.' || c == '_' || c == '-'
}

/// A relative CDN path: not empty, `/`-separated segments that are not
/// empty, `.` or `..` and hold only path characters.
pub open spec fn spec_valid_path(rel: Seq<char>) -> bool {
    let segs = split_char(rel, '/');
    rel.len() > 0 && forall|i: int| 0 <= i < segs.len() ==> {
        let s = #[trigger] segs[i];
        s.len() > 0 && s != "."@ && s != ".."@ && forall|k: int| 0 <= k < s.len() ==> is_path_char(#[trigger] s[k])
    }
}

fn segment_ok(s: &[char]) -> (r: bool)
    ensures
        r == (s@.len() > 0 && s@ != "."@ && s@ != ".."@ && forall|k: int| 0 <= k < s@.len() ==> is_path_char(#[trigger] s@[k])),
{
    if s.len() == 0 {
        return false;
    }
    let dot = chars_of(".");
    let dots = chars_of("..");
    if chars_eq(s, dot.as_slice()) || chars_eq(s, dots.as_slice()) {
        return false;
    }
    let mut k: usize = 0;
    while k < s.len()
        invariant
            k <= s@.len(),
            forall|m: int| 0 <= m < k ==> is_path_char(#[trigger] s@[m]),
        decreases s@.len() - k,
    {
        let c = s[k];
        if !(('0' <= c && c <= '9') || ('a' <= c && c <= 'z') || ('A' <= c && c <= 'Z') || c == '.' || c == '_' || c == '-') {
            assert(!is_path_char(s@[k as int]));
            return false;
        }
        k += 1;
    }
    true
}

/// Relative CDN paths only: `[A-Za-z0-9._-]` segments, no `.` or `..`.
#[verifier::loop_isolation(false)]
pub fn valid_path(rel: &str) -> (r: bool)
    ensures
        r == spec_valid_path(rel@),
{
    let cs = chars_of(rel);
    if cs.len() == 0 {
        return false;
    }
    let segs = split_on(cs.as_slice(), '/');
    let ghost sv = pieces_view(segs@);
    let mut i: usize = 0;
    while i < segs.len()
        invariant
            i <= segs@.len(),
            sv == pieces_view(segs@),
            forall|j: int| 0 <= j < i ==> {
                let s = #[trigger] sv[j];
                s.len() > 0 && s != "."@ && s != ".."@ && forall|k: int| 0 <= k < s.len() ==> is_path_char(#[trigger] s[k])
            },
        decreases segs@.len() - i,
    {
        assert(sv[i as int] == segs@[i as int]@);
        if !segment_ok(segs[i].as_slice()) {
            return false;
        }
        i += 1;
    }
    true
}

/// What [`parse_range`] yields for a header and a file of `total` bytes:
/// `Ok(None)` serves the whole file (no or unsupported header), `Err` is
/// unsatisfiable, `Ok(Some((first, last)))` the inclusive byte range.
pub open spec fn spec_parse_range(header: Option<Seq<char>>, total: u64) -> Result<Option<(u64, u64)>, ()> {
    match header {
        None => Ok(None),
        Some(h) => {
            let t = trim(h);
            if !(t.len() >= 6 && t.subrange(0, 6) == "bytes="@) {
                Ok(None)
            } else {
                let spec = t.subrange(6, t.len() as int);
                if spec.contains(',') {
                    Ok(None)
                } else {
                    match first_occurrence(spec, seq!['-']) {
                        None => Ok(None),
                        Some(d) => {
                            let a = trim(spec.subrange(0, d));
                            let b = trim(spec.subrange(d + 1, spec.len() as int));
                            let last = if total == 0 { 0u64 } else { (total - 1) as u64 };
                            if a.len() == 0 {
                                match parse_u64_spec(b) {
                                    None => Ok(None),
                                    Some(n) => if n == 0 || total == 0 {
                                        Err(())
                                    } else {
                                        Ok(Some(((total - if n < total { n } else { total }) as u64, last)))
                                    },
                                }
                            } else {
                                match parse_u64_spec(a) {
                                    None => Ok(None),
                                    Some(start) => {
                                        let end = if b.len() == 0 {
                                            Some(last)
                                        } else {
                                            match parse_u64_spec(b) {
                                                Some(e) => if e >= start {
                                                    Some(if e < last { e } else { last })
                                                } else {
                                                    None
                                                },
                                                None => None,
                                            }
                                        };
                                        match end {
                                            None => Ok(None),
                                            Some(end) => if start >= total {
                                                Err(())
                                            } else {
                                                Ok(Some((start, end)))
                                            },
                                        }
                                    },
                                }
                            }
                        },
                    }
                }
            }
        },
    }
}

/// Single-range `Range` header.
#[verifier::loop_isolation(false)]
pub fn parse_range(header: Option<&str>, total: u64) -> (r: Result<Option<(u64, u64)>, ()>)
    ensures
        r == spec_parse_range(
            match header {
                Some(h) => Some(h@),
                None => None,
            },
            total,
        ),
{
    let h = match header {
        Some(h) => h,
        None => return Ok(None),
    };
    let t = trim_chars(chars_of(h).as_slice());
    let prefix = chars_of("bytes=");
    if t.len() < 6 || !chars_eq(slice_chars(t.as_slice(), 0, 6).as_slice(), prefix.as_slice()) {
        return Ok(None);
    }
    let spec = slice_chars(t.as_slice(), 6, t.len());
    let mut k: usize = 0;
    while k < spec.len()
        invariant
            k <= spec@.len(),
            forall|m: int| 0 <= m < k ==> spec@[m] != ',',
        decreases spec@.len() - k,
    {
        if spec[k] == ',' {
            assert(spec@.contains(','));
            return Ok(None);
        }
        k += 1;
    }
    assert(!spec@.contains(','));
    let dash = vec!['-'];
    assert(dash@ =~= seq!['-']);
    let d = match find_chars(spec.as_slice(), dash.as_slice()) {
        Some(d) => d,
        None => return Ok(None),
    };
    proof {
        lemma_first_occurrence(spec@, dash@);
    }
    let n = spec.len();
    assert(d + 1 <= n);
    let a = trim_chars(slice_chars(spec.as_slice(), 0, d).as_slice());
    let b = trim_chars(slice_chars(spec.as_slice(), d + 1, n).as_slice());
    let last: u64 = if total == 0 { 0 } else { total - 1 };
    if a.len() == 0 {
        let count = match parse_u64(b.as_slice()) {
            Some(c) => c,
            None => return Ok(None),
        };
        if count == 0 || total == 0 {
            return Err(());
        }
        let m = if count < total { count } else { total };
        return Ok(Some((total - m, last)));
    }
    let start = match parse_u64(a.as_slice()) {
        Some(s) => s,
        None => return Ok(None),
    };
    let end = if b.len() == 0 {
        last
    } else {
        match parse_u64(b.as_slice()) {
            Some(e) => if e >= start {
                if e < last { e } else { last }
            } else {
                return Ok(None);
            },
            None => return Ok(None),
        }
    };
    if start >= total {
        return Err(());
    }
    Ok(Some((start, end)))
}

/// The server's request counters, read at one moment.
#[derive(Clone, Copy, Debug, Default, PartialEq, Eq)]
pub struct Stats {
    pub requests: u64,
    pub blizzard_bytes: u64,
    pub blizzard_hits: u64,
    pub mirror_bytes: u64,
    pub mirror_hits: u64,
    pub cache_bytes: u64,
    pub cache_hits: u64,
    pub not_found: u64,
}

/// The one-line summary of `s`.
pub open spec fn spec_stats_summary(s: Stats) -> Seq<char> {
    decimal(s.requests as nat) + " requests: Blizzard CDN "@ + decimal(s.blizzard_hits as nat) + " ("@
        + spec_human_size(s.blizzard_bytes) + "), mirror "@ + decimal(s.mirror_hits as nat) + " ("@
        + spec_human_size(s.mirror_bytes) + "), cache "@ + decimal(s.cache_hits as nat) + " ("@
        + spec_human_size(s.cache_bytes) + "), not found "@ + decimal(s.not_found as nat)
}

impl Stats {
    /// Requests, hits and bytes per source, and misses, in one line.
    pub fn summary(&self) -> (r: String)
        ensures
            r@ == spec_stats_summary(*self),
    {
        let mut out: Vec<char> = Vec::new();
        push_decimal(&mut out, self.requests);
        push_str(&mut out, " requests: Blizzard CDN ");
        push_decimal(&mut out, self.blizzard_hits);
        push_str(&mut out, " (");
        push_str(&mut out, human_size(self.blizzard_bytes).as_str());
        push_str(&mut out, "), mirror ");
        push_decimal(&mut out, self.mirror_hits);
        push_str(&mut out, " (");
        push_str(&mut out, human_size(self.mirror_bytes).as_str());
        push_str(&mut out, "), cache ");
        push_decimal(&mut out, self.cache_hits);
        push_str(&mut out, " (");
        push_str(&mut out, human_size(self.cache_bytes).as_str());
        push_str(&mut out, "), not found ");
        push_decimal(&mut out, self.not_found);
        let r = string_of(out.as_slice());
        assert(r@ =~= spec_stats_summary(*self));
        r
    }
}

/// A satisfiable range always lies inside the file: when a header yields
/// `(first, last)` for a file of `total` bytes, `first <= last < total`.
pub proof fn lemma_parse_range_in_file(header: Option<Seq<char>>, total: u64)
    ensures
        spec_parse_range(header, total) matches Ok(Some((first, last))) ==> first <= last < total,
{
}


/// The tables the server answers.
#[derive(Debug, Clone, Copy, PartialEq, Eq, Structural)]
pub enum TableKind {
    Versions,
    Cdns,
    Bgdl,
}

/// How a request is answered.
#[derive(Debug, Clone, PartialEq, Eq)]
pub enum Route {
    /// Neither `GET` nor `HEAD`: 405.
    MethodNotAllowed,
    /// `/<product>/<table>`.
    Table(TableKind),
    /// `/tpr/...`: the CDN proxy, with the path after the first `/`.
    Proxy(String),
    /// `/`: the server's description.
    Root,
    /// Anything else: 404.
    NotFound,
}

/// `url` up to the first `?` or `#`.
pub open spec fn path_of(url: Seq<char>) -> Seq<char> {
    split_by_query(url)
}

/// `url` up to the first `?` or `#`.
pub open spec fn split_by_query(url: Seq<char>) -> Seq<char>
    decreases url.len(),
{
    if url.len() == 0 {
        url
    } else if url.last() == '?' || url.last() == '#' {
        split_by_query(url.drop_last())
    } else if exists|k: int| 0 <= k < url.len() && (url[k] == '?' || url[k] == '#') {
        split_by_query(url.drop_last())
    } else {
        url
    }
}

/// `path` without its leading `/` characters.
pub open spec fn strip_slashes(path: Seq<char>) -> Seq<char>
    decreases path.len(),
{
    if path.len() > 0 && path[0] == '/' {
        strip_slashes(path.drop_first())
    } else {
        path
    }
}

/// The table that the segments `[product, endpoint]` name.
pub open spec fn table_of(segments: Seq<Seq<char>>) -> Option<TableKind> {
    if segments.len() == 2 && crate::text::eq_ignore_case(segments[0], crate::client::product::PRODUCT@) {
        if segments[1] == "versions"@ {
            Some(TableKind::Versions)
        } else if segments[1] == "cdns"@ {
            Some(TableKind::Cdns)
        } else if segments[1] == "bgdl"@ {
            Some(TableKind::Bgdl)
        } else {
            None
        }
    } else {
        None
    }
}

/// A route as plain values.
pub enum RouteModel {
    MethodNotAllowed,
    Table(TableKind),
    Proxy(Seq<char>),
    Root,
    NotFound,
}

/// The model of a route.
pub open spec fn route_view(r: Route) -> RouteModel {
    match r {
        Route::MethodNotAllowed => RouteModel::MethodNotAllowed,
        Route::Table(k) => RouteModel::Table(k),
        Route::Proxy(p) => RouteModel::Proxy(p@),
        Route::Root => RouteModel::Root,
        Route::NotFound => RouteModel::NotFound,
    }
}

/// How a request for `url` is answered (`get_or_head`: its method is `GET`
/// or `HEAD`).
pub open spec fn spec_route(get_or_head: bool, url: Seq<char>) -> RouteModel {
    let path = path_of(url);
    if !get_or_head {
        RouteModel::MethodNotAllowed
    } else if table_of(split_char(strip_slashes(path), '/')) is Some {
        RouteModel::Table(table_of(split_char(strip_slashes(path), '/'))->0)
    } else if path.len() >= 5 && path.take(5) == "/tpr/"@ {
        RouteModel::Proxy(path.skip(1))
    } else if path == "/"@ {
        RouteModel::Root
    } else {
        RouteModel::NotFound
    }
}

/// How a request for `url` is answered.
#[verifier::loop_isolation(false)]
pub fn route(get_or_head: bool, url: &str) -> (r: Route)
    ensures
        route_view(r) == spec_route(get_or_head, url@),
{
    if !get_or_head {
        return Route::MethodNotAllowed;
    }
    let cs = chars_of(url);
    // The path: up to the first `?` or `#`.
    let mut end: usize = 0;
    while end < cs.len() && cs[end] != '?' && cs[end] != '#'
        invariant
            end <= cs@.len(),
            cs@ == url@,
            forall|k: int| 0 <= k < end ==> cs@[k] != '?' && cs@[k] != '#',
        decreases cs@.len() - end,
    {
        end += 1;
    }
    let path = slice_chars(cs.as_slice(), 0, end);
    proof {
        lemma_path_of(url@, end as int);
    }
    // Without leading slashes, split at `/`.
    let mut start: usize = 0;
    assert(path@.skip(0) =~= path@);
    while start < path.len() && path[start] == '/'
        invariant
            start <= path@.len(),
            strip_slashes(path@) == strip_slashes(path@.skip(start as int)),
        decreases path@.len() - start,
    {
        assert(path@.skip(start as int).drop_first() =~= path@.skip(start + 1));
        start += 1;
    }
    let body = slice_chars(path.as_slice(), start, path.len());
    assert(body@ =~= path@.skip(start as int));
    assert(strip_slashes(body@) == body@);
    let segments = split_on(body.as_slice(), '/');
    let ghost sv = pieces_view(segments@);
    if segments.len() == 2 {
        let product = chars_of(crate::client::product::PRODUCT);
        if crate::text::chars_eq_ignore_case(segments[0].as_slice(), product.as_slice()) {
            assert(sv[0] == segments@[0]@ && sv[1] == segments@[1]@);
            let e = segments[1].as_slice();
            if chars_eq(e, chars_of("versions").as_slice()) {
                return Route::Table(TableKind::Versions);
            } else if chars_eq(e, chars_of("cdns").as_slice()) {
                return Route::Table(TableKind::Cdns);
            } else if chars_eq(e, chars_of("bgdl").as_slice()) {
                return Route::Table(TableKind::Bgdl);
            }
        } else {
            assert(sv[0] == segments@[0]@);
        }
    }
    let tpr = chars_of("/tpr/");
    proof {
        reveal_strlit("/tpr/");
    }
    if path.len() >= 5 && chars_eq(slice_chars(path.as_slice(), 0, 5).as_slice(), tpr.as_slice()) {
        let rest = slice_chars(path.as_slice(), 1, path.len());
        assert(rest@ =~= path@.skip(1));
        return Route::Proxy(string_of(rest.as_slice()));
    }
    if chars_eq(path.as_slice(), chars_of("/").as_slice()) {
        return Route::Root;
    }
    Route::NotFound
}

proof fn lemma_path_of(url: Seq<char>, end: int)
    requires
        0 <= end <= url.len(),
        forall|k: int| 0 <= k < end ==> url[k] != '?' && url[k] != '#',
        end == url.len() || url[end] == '?' || url[end] == '#',
    ensures
        path_of(url) == url.take(end),
    decreases url.len(),
{
    if url.len() == end {
        assert(url.take(end) =~= url);
        if exists|k: int| 0 <= k < url.len() && (url[k] == '?' || url[k] == '#') {
            let k = choose|k: int| 0 <= k < url.len() && (url[k] == '?' || url[k] == '#');
            assert(false);
        }
    } else {
        let d = url.drop_last();
        assert(url[end] == '?' || url[end] == '#');
        if end < d.len() {
            assert(d[end] == url[end]);
            assert(exists|k: int| 0 <= k < url.len() && (url[k] == '?' || url[k] == '#'));
        } else {
            assert(url.last() == url[end]);
        }
        assert forall|k: int| 0 <= k < end implies d[k] != '?' && d[k] != '#' by {
            assert(d[k] == url[k]);
        }
        lemma_path_of(d, end);
        assert(d.take(end) =~= url.take(end));
    }
}

/// The answer to a request for a cached file of `total` bytes: status,
/// first byte and length sent, and the `Content-Range` header when there
/// is one (`bytes a-b/total` for a range, `bytes */total` when none can be
/// given).
pub open spec fn spec_range_reply(range: Option<Seq<char>>, total: u64) -> (u16, u64, u64, Option<Seq<char>>) {
    match spec_parse_range(range, total) {
        Ok(None) => (200, 0, total, None),
        Ok(Some((a, b))) => (
            206,
            a,
            (b - a + 1) as u64,
            Some("bytes "@ + decimal(a as nat) + seq!['-'] + decimal(b as nat) + seq!['/'] + decimal(total as nat)),
        ),
        Err(()) => (416, 0, 0, Some("bytes */"@ + decimal(total as nat))),
    }
}

/// The answer to a request for a cached file of `total` bytes, from its
/// `Range` header.
pub fn range_reply(range: Option<&str>, total: u64) -> (r: (u16, u64, u64, Option<String>))
    ensures
        (r.0, r.1, r.2, match r.3 {
            Some(s) => Some(s@),
            None => None,
        }) == spec_range_reply(
            match range {
                Some(t) => Some(t@),
                None => None,
            },
            total,
        ),
{
    proof {
        lemma_parse_range_in_file(
            match range {
                Some(t) => Some(t@),
                None => None,
            },
            total,
        );
    }
    match parse_range(range, total) {
        Ok(None) => (200, 0, total, None),
        Ok(Some((a, b))) => {
            let mut out: Vec<char> = Vec::new();
            push_str(&mut out, "bytes ");
            push_decimal(&mut out, a);
            out.push('-');
            push_decimal(&mut out, b);
            out.push('/');
            push_decimal(&mut out, total);
            (206, a, b - a + 1, Some(string_of(out.as_slice())))
        },
        Err(()) => {
            let mut out: Vec<char> = Vec::new();
            push_str(&mut out, "bytes */");
            push_decimal(&mut out, total);
            (416, 0, 0, Some(string_of(out.as_slice())))
        },
    }
}

/// An upstream of the CDN proxy: a Blizzard host (by its index in the
/// configured list) or the mirror.
#[derive(Debug, Clone, Copy, PartialEq, Eq, Structural)]
pub enum Upstream {
    Blizzard(usize),
    Mirror,
}

/// What the proxy does next: ask an upstream, stream the answer it just
/// got from an upstream, or answer the client itself with a status.
#[derive(Debug, Clone, Copy, PartialEq, Eq, Structural)]
pub enum ProxyAction {
    Ask(Upstream),
    Stream(Upstream),
    Respond(u16),
}

/// Where a proxied request stands.
#[derive(Debug, Clone, Copy, PartialEq, Eq, Structural)]
pub struct ProxyState {
    /// The Blizzard host asked now (or, once they are done, their number).
    pub next: usize,
    /// How many Blizzard hosts reported the path missing.
    pub missing: usize,
    /// Every upstream asked so far reported the path missing.
    pub all_missing: bool,
    /// The mirror is being asked.
    pub on_mirror: bool,
    /// Every Blizzard answer so far allows falling back to the mirror
    /// (missing, a server error or a failed request).
    pub mirror_allowed: bool,
}

/// An answer whose body is passed to the client: 200, 206 or 416.
pub open spec fn answer_streams(answer: Option<u16>) -> bool {
    answer matches Some(c) && (c == 200 || c == 206 || c == 416)
}

/// An answer that reports the path missing: 403, 404 or 410.
pub open spec fn answer_missing(answer: Option<u16>) -> bool {
    answer matches Some(c) && (c == 403 || c == 404 || c == 410)
}

/// A Blizzard answer after which the mirror may be asked: the path is
/// missing, the server failed (5xx) or the request itself failed.
pub open spec fn answer_allows_mirror(answer: Option<u16>) -> bool {
    match answer {
        None => true,
        Some(c) => c == 403 || c == 404 || c == 410 || (500 <= c && c <= 599),
    }
}

/// The status the proxy answers with when no upstream streams: 404 when
/// every upstream reported the path missing, else 502.
pub open spec fn final_status(all_missing: bool) -> u16 {
    if all_missing {
        404
    } else {
        502
    }
}

/// After the Blizzard hosts: the mirror when there is one and every
/// Blizzard answer allows it, else the final status.
pub open spec fn spec_after_blizzard(s: ProxyState, has_mirror: bool) -> (ProxyState, ProxyAction) {
    if has_mirror && s.mirror_allowed {
        (ProxyState { on_mirror: true, ..s }, ProxyAction::Ask(Upstream::Mirror))
    } else {
        (s, ProxyAction::Respond(final_status(s.all_missing)))
    }
}

/// The first step: the first Blizzard host, unless there is none or the
/// path is known to be missing there, in which case the mirror (or, without
/// one, 404).
pub open spec fn spec_proxy_start(n_blizzard: usize, skip_blizzard: bool, has_mirror: bool) -> (ProxyState, ProxyAction) {
    let s = ProxyState { next: 0, missing: 0, all_missing: true, on_mirror: false, mirror_allowed: true };
    if !skip_blizzard && n_blizzard > 0 {
        (s, ProxyAction::Ask(Upstream::Blizzard(0)))
    } else {
        spec_after_blizzard(s, has_mirror)
    }
}

/// A state the proxy can be in while it waits for an answer.
pub open spec fn proxy_waiting(s: ProxyState, n_blizzard: usize) -> bool {
    (s.on_mirror || s.next < n_blizzard) && s.missing <= s.next
}

/// The step after the asked upstream gave `answer` (`None`: the request
/// failed). A streaming answer is streamed. Otherwise the next Blizzard host
/// is asked; after the last one the mirror or the final status follows; after
/// the mirror the final status. The `bool` is `true` exactly when the Blizzard
/// hosts just ran out and every one of them (at least one) reported the path
/// missing: the path is then remembered as missing there.
pub open spec fn spec_proxy_next(s: ProxyState, n_blizzard: usize, has_mirror: bool, answer: Option<u16>) -> (ProxyState, ProxyAction, bool) {
    if s.on_mirror {
        if answer_streams(answer) {
            (s, ProxyAction::Stream(Upstream::Mirror), false)
        } else {
            let all = s.all_missing && answer_missing(answer);
            (ProxyState { all_missing: all, ..s }, ProxyAction::Respond(final_status(all)), false)
        }
    } else if answer_streams(answer) {
        (s, ProxyAction::Stream(Upstream::Blizzard(s.next)), false)
    } else {
        let s1 = ProxyState {
            next: (s.next + 1) as usize,
            missing: (if answer_missing(answer) { s.missing + 1 } else { s.missing as int }) as usize,
            all_missing: s.all_missing && answer_missing(answer),
            on_mirror: false,
            mirror_allowed: s.mirror_allowed && answer_allows_mirror(answer),
        };
        if s1.next < n_blizzard {
            (s1, ProxyAction::Ask(Upstream::Blizzard(s1.next)), false)
        } else {
            let t = spec_after_blizzard(s1, has_mirror);
            (t.0, t.1, s1.missing > 0 && s1.missing == n_blizzard)
        }
    }
}

fn after_blizzard(s: ProxyState, has_mirror: bool) -> (r: (ProxyState, ProxyAction))
    ensures
        r == spec_after_blizzard(s, has_mirror),
{
    if has_mirror && s.mirror_allowed {
        (ProxyState { on_mirror: true, ..s }, ProxyAction::Ask(Upstream::Mirror))
    } else {
        let status: u16 = if s.all_missing { 404 } else { 502 };
        (s, ProxyAction::Respond(status))
    }
}

/// First step of a proxied request (see [`spec_proxy_start`]).
pub fn proxy_start(n_blizzard: usize, skip_blizzard: bool, has_mirror: bool) -> (r: (ProxyState, ProxyAction))
    ensures
        r == spec_proxy_start(n_blizzard, skip_blizzard, has_mirror),
        r.1 is Ask ==> proxy_waiting(r.0, n_blizzard),
{
    let s = ProxyState { next: 0, missing: 0, all_missing: true, on_mirror: false, mirror_allowed: true };
    if !skip_blizzard && n_blizzard > 0 {
        (s, ProxyAction::Ask(Upstream::Blizzard(0)))
    } else {
        after_blizzard(s, has_mirror)
    }
}

fn is_streaming(answer: Option<u16>) -> (r: bool)
    ensures
        r == answer_streams(answer),
{
    match answer {
        Some(c) => c == 200 || c == 206 || c == 416,
        None => false,
    }
}

fn is_missing(answer: Option<u16>) -> (r: bool)
    ensures
        r == answer_missing(answer),
{
    match answer {
        Some(c) => c == 403 || c == 404 || c == 410,
        None => false,
    }
}

fn allows_mirror(answer: Option<u16>) -> (r: bool)
    ensures
        r == answer_allows_mirror(answer),
{
    match answer {
        Some(c) => c == 403 || c == 404 || c == 410 || (500 <= c && c <= 599),
        None => true,
    }
}

/// The step after the asked upstream answered (see [`spec_proxy_next`]).
pub fn proxy_next(s: ProxyState, n_blizzard: usize, has_mirror: bool, answer: Option<u16>) -> (r: (ProxyState, ProxyAction, bool))
    requires
        proxy_waiting(s, n_blizzard),
    ensures
        r == spec_proxy_next(s, n_blizzard, has_mirror, answer),
        r.1 is Ask ==> proxy_waiting(r.0, n_blizzard),
{
    if s.on_mirror {
        if is_streaming(answer) {
            (s, ProxyAction::Stream(Upstream::Mirror), false)
        } else {
            let all = s.all_missing && is_missing(answer);
            let status: u16 = if all { 404 } else { 502 };
            (ProxyState { all_missing: all, ..s }, ProxyAction::Respond(status), false)
        }
    } else if is_streaming(answer) {
        (s, ProxyAction::Stream(Upstream::Blizzard(s.next)), false)
    } else {
        let miss = is_missing(answer);
        let s1 = ProxyState {
            next: s.next + 1,
            missing: if miss { s.missing + 1 } else { s.missing },
            all_missing: s.all_missing && miss,
            on_mirror: false,
            mirror_allowed: s.mirror_allowed && allows_mirror(answer),
        };
        if s1.next < n_blizzard {
            (s1, ProxyAction::Ask(Upstream::Blizzard(s1.next)), false)
        } else {
            let remember = s1.missing > 0 && s1.missing == n_blizzard;
            let t = after_blizzard(s1, has_mirror);
            (t.0, t.1, remember)
        }
    }
}

/// Whether an upstream answer may be stored in the cache: only complete
/// `GET` answers (no `Range` header, not `HEAD`).
pub fn cache_complete(range: Option<&str>, head: bool) -> (r: bool)
    ensures
        r == (range is None && !head),
{
    range.is_none() && !head
}

/// Runs the proxy steps from `(s, a)` on the upstream answers in order; the
/// action it stops at (the first that is not `Ask`, or the last when the
/// answers run out) and how many answers it used.
pub open spec fn proxy_run(s: ProxyState, a: ProxyAction, n_blizzard: usize, has_mirror: bool, answers: Seq<Option<u16>>) -> (ProxyAction, nat)
    decreases answers.len(),
{
    if answers.len() == 0 {
        (a, 0)
    } else {
        match a {
            ProxyAction::Ask(_) => {
                let t = spec_proxy_next(s, n_blizzard, has_mirror, answers[0]);
                let r = proxy_run(t.0, t.1, n_blizzard, has_mirror, answers.drop_first());
                (r.0, r.1 + 1)
            },
            _ => (a, 0),
        }
    }
}

/// Every one of the first `k` answers reports the path missing.
pub open spec fn first_missing(answers: Seq<Option<u16>>, k: int) -> bool {
    forall|i: int| 0 <= i < k ==> answer_missing(#[trigger] answers[i])
}

proof fn lemma_run_status(s: ProxyState, a: ProxyAction, n: usize, hm: bool, answers: Seq<Option<u16>>)
    requires
        a is Ask ==> proxy_waiting(s, n),
        a matches ProxyAction::Respond(c) ==> (c == 404 <==> s.all_missing) && (c == 404 || c == 502),
    ensures
        ({
            let r = proxy_run(s, a, n, hm, answers);
            &&& r.1 <= answers.len()
            &&& r.0 matches ProxyAction::Respond(c) ==> (c == 404 || c == 502) && (c == 404 <==> s.all_missing
                && first_missing(answers, r.1 as int))
        }),
    decreases answers.len(),
{
    if answers.len() > 0 {
        if let ProxyAction::Ask(_) = a {
            let t = spec_proxy_next(s, n, hm, answers[0]);
            let rest = answers.drop_first();
            lemma_run_status(t.0, t.1, n, hm, rest);
            let r = proxy_run(t.0, t.1, n, hm, rest);
            if !answer_streams(answers[0]) {
                assert(t.0.all_missing == (s.all_missing && answer_missing(answers[0])));
            }
            assert forall|i: int| 0 <= i < r.1 + 1 implies answer_missing(#[trigger] answers[i]) == (if i == 0 {
                answer_missing(answers[0])
            } else {
                answer_missing(rest[i - 1])
            }) by {}
            if first_missing(answers, r.1 + 1 as int) {
                assert forall|i: int| 0 <= i < r.1 implies answer_missing(#[trigger] rest[i]) by {
                    assert(answer_missing(answers[i + 1]));
                }
            }
            if answer_missing(answers[0]) && first_missing(rest, r.1 as int) {
                assert forall|i: int| 0 <= i < r.1 + 1 implies answer_missing(#[trigger] answers[i]) by {
                    if i > 0 {
                        assert(answer_missing(rest[i - 1]));
                    }
                }
            }
        }
    }
}

/// When a proxied request ends without a streaming upstream, the client gets
/// 404 exactly when every upstream that was asked reported the path missing,
/// and 502 otherwise.
pub proof fn lemma_proxy_not_found(n_blizzard: usize, skip_blizzard: bool, has_mirror: bool, answers: Seq<Option<u16>>)
    ensures
        ({
            let st = spec_proxy_start(n_blizzard, skip_blizzard, has_mirror);
            let r = proxy_run(st.0, st.1, n_blizzard, has_mirror, answers);
            r.0 matches ProxyAction::Respond(c) ==> (c == 404 || c == 502) && (c == 404 <==> first_missing(
                answers,
                r.1 as int,
            ))
        }),
{
    let st = spec_proxy_start(n_blizzard, skip_blizzard, has_mirror);
    lemma_run_status(st.0, st.1, n_blizzard, has_mirror, answers);
}

} // verus!
