//! The one build this tool installs: `wow_classic` 3.4.3.54261
//! (`WOW-54261patch3.4.3_ClassicRetail`), plus the Blizzard patch-server
//! values the temporary server imitates.

use vstd::prelude::*;
use crate::text::{
    chars_eq_ignore_case, chars_of, eq_ignore_case, find_chars, first_occurrence, slice_chars,
    string_of, trim_start, trim_start_chars, lemma_first_occurrence,
};

verus! {

pub const PRODUCT: &'static str = "wow_classic";

pub const BUILD_CONFIG: &'static str = "c91609c69ed2ab39d44039390a1be969";

pub const CDN_CONFIG: &'static str = "a838aeb3cda2e027e9c96bd9953944b3";

pub const PRODUCT_CONFIG: &'static str = "fac7680539cd51bc0a791a88ade3da21";

pub const BUILD_ID: u32 = 54261;

pub const VERSIONS_NAME: &'static str = "3.4.3.54261";

/// `Path` column of `cdns`.
pub const CDN_PATH: &'static str = "tpr/wow";

/// `ConfigPath` column of `cdns` (product configs).
pub const CONFIG_PATH: &'static str = "tpr/configs/data";

/// Community mirror of old CDN content.
pub const DEFAULT_MIRROR: &'static str = "https://archive.wow.tools";

/// `product config` `shared_container_default_subfolder` fallback.
pub const DEFAULT_SUBFOLDER: &'static str = "_classic_";

/// One row of Blizzard's `cdns` table.
#[derive(Debug, Clone, Copy)]
pub struct RegionCdn {
    pub name: &'static str,
    pub hosts: &'static str,
    pub servers: &'static str,
}

/// A region row as plain values: `(name, hosts, servers)`.
pub type RegionModel = (Seq<char>, Seq<char>, Seq<char>);

/// The model of a region row.
pub open spec fn region_view(r: RegionCdn) -> RegionModel {
    (r.name@, r.hosts@, r.servers@)
}

/// The regions, in Blizzard's `versions`/`cdns` order.
pub open spec fn region_rows() -> Seq<RegionModel> {
    seq![
        ("us"@, "level3.blizzard.com us.cdn.blizzard.com"@, "http://level3.blizzard.com/?maxhosts=8 http://us.cdn.blizzard.com/?maxhosts=4&fallback=1 https://level3.ssl.blizzard.com/?maxhosts=4&fallback=1 https://us.cdn.blizzard.com/?maxhosts=4&fallback=1"@),
        ("eu"@, "level3.blizzard.com"@, "http://level3.blizzard.com/?maxhosts=8 https://level3.ssl.blizzard.com/?maxhosts=8&fallback=1"@),
        ("cn"@, "blzdist-wow.necdn.leihuo.netease.com"@, "http://blzdist-wow.necdn.leihuo.netease.com/?maxhosts=6 https://blzdist-wow.necdn.leihuo.netease.com/?maxhosts=4&fallback=1"@),
        ("kr"@, "level3.blizzard.com kr.cdn.blizzard.com blizzard.gcdn.cloudn.co.kr"@, "http://blizzard.gcdn.cloudn.co.kr/?fallback=1 http://kr.cdn.blizzard.com/?maxhosts=2 http://level3.blizzard.com/?maxhosts=4 https://blizzard.gcdn.cloudn.co.kr/?maxhosts=4&fallback=1 https://kr.cdn.blizzard.com/?maxhosts=4&fallback=1 https://level3.ssl.blizzard.com/?maxhosts=4&fallback=1"@),
        ("tw"@, "level3.blizzard.com us.cdn.blizzard.com"@, "http://level3.blizzard.com/?maxhosts=8 http://us.cdn.blizzard.com/?maxhosts=4&fallback=1 https://level3.ssl.blizzard.com/?maxhosts=4&fallback=1 https://us.cdn.blizzard.com/?maxhosts=4&fallback=1"@),
    ]
}

/// The regions, in Blizzard's `versions`/`cdns` order.
pub fn regions() -> (r: Vec<RegionCdn>)
    ensures
        r@.map_values(|x: RegionCdn| region_view(x)) == region_rows(),
{
    let r = vec![
        RegionCdn {
            name: "us",
            hosts: "level3.blizzard.com us.cdn.blizzard.com",
            servers: "http://level3.blizzard.com/?maxhosts=8 http://us.cdn.blizzard.com/?maxhosts=4&fallback=1 https://level3.ssl.blizzard.com/?maxhosts=4&fallback=1 https://us.cdn.blizzard.com/?maxhosts=4&fallback=1",
        },
        RegionCdn {
            name: "eu",
            hosts: "level3.blizzard.com",
            servers: "http://level3.blizzard.com/?maxhosts=8 https://level3.ssl.blizzard.com/?maxhosts=8&fallback=1",
        },
        RegionCdn {
            name: "cn",
            hosts: "blzdist-wow.necdn.leihuo.netease.com",
            servers: "http://blzdist-wow.necdn.leihuo.netease.com/?maxhosts=6 https://blzdist-wow.necdn.leihuo.netease.com/?maxhosts=4&fallback=1",
        },
        RegionCdn {
            name: "kr",
            hosts: "level3.blizzard.com kr.cdn.blizzard.com blizzard.gcdn.cloudn.co.kr",
            servers: "http://blizzard.gcdn.cloudn.co.kr/?fallback=1 http://kr.cdn.blizzard.com/?maxhosts=2 http://level3.blizzard.com/?maxhosts=4 https://blizzard.gcdn.cloudn.co.kr/?maxhosts=4&fallback=1 https://kr.cdn.blizzard.com/?maxhosts=4&fallback=1 https://level3.ssl.blizzard.com/?maxhosts=4&fallback=1",
        },
        RegionCdn {
            name: "tw",
            hosts: "level3.blizzard.com us.cdn.blizzard.com",
            servers: "http://level3.blizzard.com/?maxhosts=8 http://us.cdn.blizzard.com/?maxhosts=4&fallback=1 https://level3.ssl.blizzard.com/?maxhosts=4&fallback=1 https://us.cdn.blizzard.com/?maxhosts=4&fallback=1",
        },
    ];
    assert(r@.map_values(|x: RegionCdn| region_view(x)) =~= region_rows());
    r
}

/// The first region whose name equals `name`, ignoring ASCII case.
pub open spec fn spec_region_cdn(name: Seq<char>) -> Option<RegionModel> {
    let rows = region_rows();
    if exists|i: int| 0 <= i < rows.len() && eq_ignore_case(#[trigger] rows[i].0, name) {
        let i = choose|i: int|
            0 <= i < rows.len() && eq_ignore_case(#[trigger] rows[i].0, name) && (forall|j: int|
                0 <= j < i ==> !eq_ignore_case(#[trigger] rows[j].0, name));
        Some(rows[i])
    } else {
        None
    }
}

/// Region row by (case-insensitive) name.
pub fn region_cdn(name: &str) -> (r: Option<RegionCdn>)
    ensures
        match r {
            Some(rc) => spec_region_cdn(name@) == Some(region_view(rc)),
            None => spec_region_cdn(name@) is None,
        },
{
    let rs = regions();
    let ghost rows = region_rows();
    let wanted = chars_of(name);
    let mut i: usize = 0;
    while i < rs.len()
        invariant
            i <= rs@.len(),
            rows == region_rows(),
            rs@.map_values(|x: RegionCdn| region_view(x)) == rows,
            wanted@ == name@,
            forall|j: int| 0 <= j < i ==> !eq_ignore_case(#[trigger] rows[j].0, name@),
        decreases rs@.len() - i,
    {
        let rc = rs[i];
        let n = chars_of(rc.name);
        assert(rows[i as int] == region_view(rc));
        if chars_eq_ignore_case(n.as_slice(), wanted.as_slice()) {
            proof {
                let w = choose|w: int|
                    0 <= w < rows.len() && eq_ignore_case(#[trigger] rows[w].0, name@) && (forall|j: int|
                        0 <= j < w ==> !eq_ignore_case(#[trigger] rows[j].0, name@));
                assert(eq_ignore_case(rows[i as int].0, name@));
                if w < i {
                } else if w > i {
                    assert(!eq_ignore_case(rows[i as int].0, name@));
                }
            }
            return Some(rc);
        }
        i += 1;
    }
    None
}

/// The JSON key of the subfolder, quotes included.
pub open spec fn subfolder_key() -> Seq<char> {
    "\"shared_container_default_subfolder\""@
}

/// A character allowed in a subfolder name: ASCII letter, digit, `_` or `-`.
pub open spec fn is_subfolder_char(c: char) -> bool {
    ('0' <= c && c <= '9') || ('a' <= c && c <= 'z') || ('A' <= c && c <= 'Z') || c == '_' || c == '-'
}

/// `shared_container_default_subfolder` of the product config `t`: after the
/// first occurrence of the quoted key, optional white space, `:`, optional
/// white space, then a quoted non-empty value of letters, digits, `_` or `-`.
pub open spec fn spec_subfolder(t: Seq<char>) -> Option<Seq<char>> {
    let key = subfolder_key();
    match first_occurrence(t, key) {
        None => None,
        Some(i) => {
            let a = trim_start(t.subrange(i + key.len(), t.len() as int));
            if !(a.len() > 0 && a[0] == ':') {
                None
            } else {
                let b = trim_start(a.drop_first());
                if !(b.len() > 0 && b[0] == '"') {
                    None
                } else {
                    let c = b.drop_first();
                    match first_occurrence(c, seq!['"']) {
                        None => None,
                        Some(j) => {
                            let v = c.subrange(0, j);
                            if v.len() > 0 && forall|k: int| 0 <= k < v.len() ==> is_subfolder_char(#[trigger] v[k]) {
                                Some(v)
                            } else {
                                None
                            }
                        },
                    }
                }
            }
        },
    }
}

/// `shared_container_default_subfolder` from the product config JSON, found
/// by a plain text search (the file is one JSON object).
#[verifier::loop_isolation(false)]
pub fn subfolder_from_product_config(text: &str) -> (r: Option<String>)
    ensures
        match r {
            Some(s) => spec_subfolder(text@) == Some(s@),
            None => spec_subfolder(text@) is None,
        },
{
    let t = chars_of(text);
    let key = chars_of("\"shared_container_default_subfolder\"");
    let i = match find_chars(t.as_slice(), key.as_slice()) {
        Some(i) => i,
        None => return None,
    };
    let ghost ks = subfolder_key();
    assert(key@ == ks);
    proof {
        lemma_first_occurrence(t@, key@);
    }
    assert(crate::text::occurs_at(t@, key@, i as int));
    let tl = t.len();
    let kl = key.len();
    assert(i + kl <= tl);
    let a = trim_start_chars(slice_chars(t.as_slice(), i + kl, tl).as_slice());
    if !(a.len() > 0 && a[0] == ':') {
        return None;
    }
    let b = trim_start_chars(slice_chars(a.as_slice(), 1, a.len()).as_slice());
    assert(a@.subrange(1, a@.len() as int) =~= a@.drop_first());
    if !(b.len() > 0 && b[0] == '"') {
        return None;
    }
    let c = slice_chars(b.as_slice(), 1, b.len());
    assert(c@ =~= b@.drop_first());
    let quote = vec!['"'];
    assert(quote@ =~= seq!['"']);
    let j = match find_chars(c.as_slice(), quote.as_slice()) {
        Some(j) => j,
        None => return None,
    };
    proof {
        lemma_first_occurrence(c@, quote@);
    }
    let v = slice_chars(c.as_slice(), 0, j);
    if v.len() == 0 {
        return None;
    }
    let mut k: usize = 0;
    while k < v.len()
        invariant
            k <= v@.len(),
            forall|m: int| 0 <= m < k ==> is_subfolder_char(#[trigger] v@[m]),
        decreases v@.len() - k,
    {
        let ch = v[k];
        if !(('0' <= ch && ch <= '9') || ('a' <= ch && ch <= 'z') || ('A' <= ch && ch <= 'Z') || ch == '_' || ch == '-') {
            assert(!is_subfolder_char(v@[k as int]));
            return None;
        }
        k += 1;
    }
    Some(string_of(v.as_slice()))
}

} // verus!
