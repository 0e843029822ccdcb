//! `<install>/.build.info`, in the column layout the current Battle.net Agent
//! writes. `Install Key`, `IM Size`, `Armadillo`, `Last Activated` and
//! `KeyRing` are left empty. Rows of other products in an existing file with
//! the same header are kept (one install folder can hold several flavors).

use vstd::prelude::*;
use crate::client::tables::join;
use crate::text::{
    chars_eq, chars_eq_ignore_case, chars_of, eq_ignore_case, lines, lines_of, pieces_view,
    split_char, split_on, string_of, trim, trim_chars, trim_end, trim_end_chars, push_chars,
};

verus! {

/// The header line of `.build.info`.
pub const HEADER: &'static str = "Branch!STRING:0|Active!DEC:1|Build Key!HEX:16|CDN Key!HEX:16|Install Key!HEX:16|IM Size!DEC:4|CDN Path!STRING:0|CDN Hosts!STRING:0|CDN Servers!STRING:0|Tags!STRING:0|Armadillo!STRING:0|Last Activated!STRING:0|Version!STRING:0|KeyRing!HEX:16|Product!STRING:0";

/// One product row of `.build.info`.
#[derive(Debug, Clone, PartialEq, Eq)]
pub struct BuildInfoRow {
    pub branch: String,
    pub build_key: String,
    pub cdn_key: String,
    pub cdn_path: String,
    pub cdn_hosts: String,
    pub cdn_servers: String,
    pub tags: String,
    pub version: String,
    pub product: String,
}

/// The fields of a row, the empty ones included, in column order.
pub open spec fn row_fields(r: BuildInfoRow) -> Seq<Seq<char>> {
    seq![
        r.branch@,
        seq!['1'],
        r.build_key@,
        r.cdn_key@,
        Seq::empty(),
        Seq::empty(),
        r.cdn_path@,
        r.cdn_hosts@,
        r.cdn_servers@,
        r.tags@,
        Seq::empty(),
        Seq::empty(),
        r.version@,
        Seq::empty(),
        r.product@,
    ]
}

/// The kept lines of an existing file (after its header): not blank, and
/// whose last `|` field is not `product` (ignoring ASCII case); each with
/// its trailing white space removed and a line feed.
pub open spec fn kept_lines(ls: Seq<Seq<char>>, product: Seq<char>) -> Seq<char>
    decreases ls.len(),
{
    if ls.len() == 0 {
        Seq::empty()
    } else {
        let l = ls.last();
        let rest = kept_lines(ls.drop_last(), product);
        if trim(l).len() == 0 || eq_ignore_case(split_char(l, '|').last(), product) {
            rest
        } else {
            rest + trim_end(l).push('\n')
        }
    }
}

/// What [`render`] writes.
pub open spec fn spec_render(existing: Option<Seq<char>>, row: BuildInfoRow) -> Seq<char> {
    let head = HEADER@.push('\n');
    let middle = match existing {
        Some(text) => {
            let ls = lines(text);
            if ls.len() > 0 && trim_end(ls[0]) == HEADER@ {
                kept_lines(ls.drop_first(), row.product@)
            } else {
                Seq::empty()
            }
        },
        None => Seq::empty(),
    };
    head + middle + join(row_fields(row), '|').push('\n')
}


/// New file content: `existing` rows of other products (if the header
/// matches) followed by `row`.
pub fn render(existing: Option<&str>, row: &BuildInfoRow) -> (r: String)
    ensures
        r@ == spec_render(
            match existing {
                Some(t) => Some(t@),
                None => None,
            },
            *row,
        ),
{
    let header = chars_of(HEADER);
    let mut out: Vec<char> = Vec::new();
    push_chars(&mut out, header.as_slice());
    out.push('\n');
    let ghost head = out@;
    assert(head =~= HEADER@.push('\n'));
    let product = chars_of(row.product.as_str());
    match existing {
        Some(text) => {
            let cs = chars_of(text);
            let ls = lines_of(cs.as_slice());
            let ghost lv = pieces_view(ls@);
            if ls.len() > 0 {
                let first = trim_end_chars(ls[0].as_slice());
                assert(lv[0] == ls@[0]@);
                if chars_eq(first.as_slice(), header.as_slice()) {
                    let ghost rest = lv.drop_first();
                    let mut i: usize = 1;
                    assert(rest.take(0) =~= Seq::<Seq<char>>::empty());
                    while i < ls.len()
                        invariant
                            1 <= i <= ls@.len(),
                            lv == pieces_view(ls@),
                            rest == lv.drop_first(),
                            product@ == row.product@,
                            out@ == head + kept_lines(rest.take(i - 1), row.product@),
                        decreases ls@.len() - i,
                    {
                        let line = ls[i].as_slice();
                        assert(rest[i - 1] == line@);
                        assert(rest.take(i as int).drop_last() =~= rest.take(i - 1));
                        let t = trim_chars(line);
                        let parts = split_on(line, '|');
                        proof {
                            crate::text::lemma_split_char_len(line@, '|');
                        }
                        let last = parts.len() - 1;
                        assert(pieces_view(parts@)[last as int] == parts@[last as int]@);
                        if t.len() > 0 && !chars_eq_ignore_case(parts[last].as_slice(), product.as_slice()) {
                            let kept = trim_end_chars(line);
                            push_chars(&mut out, kept.as_slice());
                            out.push('\n');
                        }
                        i += 1;
                        assert(out@ =~= head + kept_lines(rest.take(i - 1), row.product@));
                    }
                    assert(rest.take(i - 1) =~= rest);
                }
            }
        },
        None => {},
    }
    let ghost mid = out@;
    let fields: Vec<&str> = vec![
        row.branch.as_str(),
        "1",
        row.build_key.as_str(),
        row.cdn_key.as_str(),
        "",
        "",
        row.cdn_path.as_str(),
        row.cdn_hosts.as_str(),
        row.cdn_servers.as_str(),
        row.tags.as_str(),
        "",
        "",
        row.version.as_str(),
        "",
        row.product.as_str(),
    ];
    proof {
        reveal_strlit("1");
        reveal_strlit("");
    }
    let ghost fv = row_fields(*row);
    assert(fields@.len() == 15);
    assert(fields@[1]@ == seq!['1']);
    assert(fields@[4]@ == Seq::<char>::empty());
    assert(fields@.map_values(|f: &str| f@) =~= fv);
    let mut k: usize = 0;
    assert(fv.take(0) =~= Seq::<Seq<char>>::empty());
    while k < 15
        invariant
            k <= 15,
            fields@.map_values(|f: &str| f@) == fv,
            fv.len() == 15,
            out@ == mid + join(fv.take(k as int), '|'),
        decreases 15 - k,
    {
        if k > 0 {
            out.push('|');
        }
        let f = chars_of(fields[k]);
        assert(fv[k as int] == f@);
        push_chars(&mut out, f.as_slice());
        proof {
            let t = fv.take(k + 1);
            assert(t.drop_last() =~= fv.take(k as int));
            if k == 0 {
                assert(t =~= seq![f@]);
            }
        }
        k += 1;
        assert(out@ =~= mid + join(fv.take(k as int), '|'));
    }
    assert(fv.take(15) =~= fv);
    out.push('\n');
    let r = string_of(out.as_slice());
    assert(r@ =~= spec_render(
        match existing {
            Some(t) => Some(t@),
            None => None,
        },
        *row,
    ));
    r
}

/// A line of an existing `.build.info` that rendering keeps: not blank, and
/// its last `|` field is not `product` (ASCII case ignored).
pub open spec fn kept_line(l: Seq<char>, product: Seq<char>) -> bool {
    !(trim(l).len() == 0 || eq_ignore_case(split_char(l, '|').last(), product))
}

/// [`kept_line`] for `product`, as a predicate.
pub open spec fn keeps(product: Seq<char>) -> spec_fn(Seq<char>) -> bool {
    |l: Seq<char>| kept_line(l, product)
}

/// A kept line as written: trailing white space removed, a line feed added.
pub open spec fn line_written() -> spec_fn(Seq<char>) -> Seq<char> {
    |l: Seq<char>| trim_end(l).push('\n')
}

/// The kept lines of `ls`, in order, each with trailing white space removed
/// and a line feed added.
pub open spec fn kept_text(ls: Seq<Seq<char>>, product: Seq<char>) -> Seq<char> {
    ls.filter(keeps(product)).map_values(line_written()).flatten()
}

proof fn lemma_kept_lines(ls: Seq<Seq<char>>, product: Seq<char>)
    ensures
        kept_lines(ls, product) == ls.filter(keeps(product)).map_values(line_written()).flatten_alt(),
    decreases ls.len(),
{
    if ls.len() > 0 {
        lemma_kept_lines(ls.drop_last(), product);
        reveal(Seq::filter);
        let f = keeps(product);
        let g = line_written();
        let fp = ls.drop_last().filter(f);
        if f(ls.last()) {
            assert(ls.filter(f) == fp.push(ls.last()));
            assert(fp.push(ls.last()).map_values(g) =~= fp.map_values(g).push(g(ls.last())));
            assert(fp.map_values(g).push(g(ls.last())).drop_last() =~= fp.map_values(g));
        } else {
            assert(ls.filter(f) == fp);
        }
    }
}

/// The text [`render`] writes: the header line, then, when the existing
/// text starts with that header, each of its later lines that is not blank
/// and is not of `row`'s product (last `|` field, ASCII case ignored), with
/// trailing white space removed, in order; then the row's fields joined with
/// `|`, and a line feed.
pub proof fn lemma_render_rule(existing: Option<Seq<char>>, row: BuildInfoRow)
    ensures
        spec_render(existing, row) == HEADER@.push('\n') + match existing {
            Some(text) => if lines(text).len() > 0 && trim_end(lines(text)[0]) == HEADER@ {
                kept_text(lines(text).drop_first(), row.product@)
            } else {
                Seq::empty()
            },
            None => Seq::empty(),
        } + join(row_fields(row), '|').push('\n'),
{
    if let Some(text) = existing {
        let ls = lines(text);
        if ls.len() > 0 && trim_end(ls[0]) == HEADER@ {
            let rest = ls.drop_first();
            lemma_kept_lines(rest, row.product@);
            rest.filter(keeps(row.product@)).map_values(line_written()).lemma_flatten_and_flatten_alt_are_equivalent();
        }
    }
}

} // verus!
