//! Decisions of the `download` command: which pending keys a limited test
//! download fetches, where a loose install file goes, and which install
//! files are executable.

use vstd::prelude::*;
use crate::client::plan::{Needed, NeededModel, needed_view, needed_views};
use crate::text::{chars_eq, chars_eq_ignore_case, chars_of, eq_ignore_case, find_chars, first_occurrence, split_char, split_on, string_of, pieces_view, lowercase, unicode_lower, push_chars};

verus! {

/// Some entry of `s` has key `k`.
pub open spec fn has_key(s: Seq<NeededModel>, k: Seq<u8>) -> bool {
    exists|j: int| 0 <= j < s.len() && #[trigger] s[j].0 == k
}

/// The limited walk over `rest` from `i`: stops before an entry once `out`
/// holds `limit_files` entries beyond the extras or `bytes` reached
/// `limit_bytes`; counts every visited entry's size and keeps it unless its
/// key is already in `out`.
pub open spec fn limited(
    rest: Seq<NeededModel>,
    i: int,
    out: Seq<NeededModel>,
    bytes: nat,
    extras: nat,
    limit_files: Option<usize>,
    limit_bytes: Option<u64>,
) -> Seq<NeededModel>
    decreases rest.len() - i,
{
    if i < 0 || i >= rest.len() {
        out
    } else if (limit_files matches Some(l) && out.len() >= l + extras) || (limit_bytes matches Some(l) && bytes >= l) {
        out
    } else {
        let n = rest[i];
        let next = if has_key(out, n.0) {
            out
        } else {
            out.push(n)
        };
        limited(rest, i + 1, next, bytes + n.1 as nat, extras, limit_files, limit_bytes)
    }
}

/// What [`apply_limits`] returns: `rest` itself when nothing limits it,
/// else the extras followed by the limited walk over `rest`.
pub open spec fn spec_apply_limits(
    rest: Seq<NeededModel>,
    extra: Seq<NeededModel>,
    limit_files: Option<usize>,
    limit_bytes: Option<u64>,
) -> Seq<NeededModel> {
    if limit_files is None && limit_bytes is None && extra.len() == 0 {
        rest
    } else {
        limited(rest, 0, extra, 0, extra.len(), limit_files, limit_bytes)
    }
}

/// Sum of the sizes of `s`.
pub open spec fn sizes(s: Seq<NeededModel>) -> nat
    decreases s.len(),
{
    if s.len() == 0 {
        0
    } else {
        sizes(s.drop_last()) + s.last().1 as nat
    }
}

proof fn lemma_sizes_prefix(s: Seq<NeededModel>, n: int)
    requires
        0 <= n <= s.len(),
    ensures
        sizes(s.take(n)) <= sizes(s),
    decreases s.len() - n,
{
    if n < s.len() {
        lemma_sizes_prefix(s, n + 1);
        assert(s.take(n + 1).drop_last() =~= s.take(n));
    } else {
        assert(s.take(n) =~= s);
    }
}

/// The keys a test download fetches: the extras first, then `rest` in
/// order until a limit is reached, each key once.
pub fn apply_limits(rest: Vec<Needed>, extra: &[Needed], limit_files: Option<usize>, limit_bytes: Option<u64>) -> (r: Vec<Needed>)
    requires
        sizes(needed_views(rest@)) <= u64::MAX,
        limit_files matches Some(l) ==> l + extra@.len() <= usize::MAX,
    ensures
        needed_views(r@) == spec_apply_limits(needed_views(rest@), needed_views(extra@), limit_files, limit_bytes),
{
    if limit_files.is_none() && limit_bytes.is_none() && extra.len() == 0 {
        return rest;
    }
    let ghost rv = needed_views(rest@);
    let ghost ev = needed_views(extra@);
    let mut out: Vec<Needed> = Vec::new();
    let mut k: usize = 0;
    while k < extra.len()
        invariant
            k <= extra@.len(),
            needed_views(out@) == ev.take(k as int),
            ev == needed_views(extra@),
        decreases extra@.len() - k,
    {
        let ghost before = out@;
        out.push(extra[k]);
        assert(needed_views(out@) =~= needed_views(before).push(needed_view(extra@[k as int])));
        assert(ev.take(k + 1) =~= ev.take(k as int).push(ev[k as int]));
        k += 1;
    }
    assert(ev.take(k as int) =~= ev);
    let mut bytes: u64 = 0;
    let mut i: usize = 0;
    while i < rest.len()
        invariant
            i <= rest@.len(),
            rv == needed_views(rest@),
            sizes(rv) <= u64::MAX,
            limit_files matches Some(l) ==> l + extra@.len() <= usize::MAX,
            bytes == sizes(rv.take(i as int)),
            limited(rv, 0, ev, 0, ev.len(), limit_files, limit_bytes) == limited(
                rv,
                i as int,
                needed_views(out@),
                bytes as nat,
                ev.len(),
                limit_files,
                limit_bytes,
            ),
            ev.len() == extra@.len(),
        ensures
            limited(rv, 0, ev, 0, ev.len(), limit_files, limit_bytes) == needed_views(out@),
        decreases rest@.len() - i,
    {
        let stop_files = match limit_files {
            Some(l) => out.len() >= l + extra.len(),
            None => false,
        };
        let stop_bytes = match limit_bytes {
            Some(l) => bytes >= l,
            None => false,
        };
        if stop_files || stop_bytes {
            break;
        }
        let n = rest[i];
        proof {
            lemma_sizes_prefix(rv, i + 1);
            assert(rv.take(i + 1).drop_last() =~= rv.take(i as int));
            assert(rv[i as int] == needed_view(n));
        }
        bytes = bytes + n.size;
        let mut seen = false;
        let mut j: usize = 0;
        while j < out.len()
            invariant
                j <= out@.len(),
                seen == (exists|m: int| 0 <= m < j && #[trigger] needed_views(out@)[m].0 == n.ekey@),
            decreases out@.len() - j,
        {
            let mut same = true;
            let mut b: usize = 0;
            while b < 16
                invariant
                    b <= 16,
                    j < out@.len(),
                    same == (forall|x: int| 0 <= x < b ==> out@[j as int].ekey@[x] == n.ekey@[x]),
                decreases 16 - b,
            {
                if out[j].ekey[b] != n.ekey[b] {
                    same = false;
                }
                b += 1;
            }
            assert(needed_views(out@)[j as int].0 == out@[j as int].ekey@);
            if same {
                assert(out@[j as int].ekey@ =~= n.ekey@);
                seen = true;
            }
            j += 1;
        }
        if !seen {
            let ghost before = out@;
            out.push(n);
            assert(needed_views(out@) =~= needed_views(before).push(needed_view(n)));
        }
        i += 1;
    }
    out
}

/// `s` with every `\` turned into `/`.
pub open spec fn slashes(s: Seq<char>) -> Seq<char> {
    s.map_values(|c: char| if c == '\\' { '/' } else { c })
}

/// The text after the last `.` of the last `/` piece, as
/// `Path::extension` gives it: none for names without a `.`, names that
/// start with their only `.`, and `..`.
pub open spec fn extension(path: Seq<char>) -> Option<Seq<char>> {
    let pieces = split_char(path, '/');
    let name = pieces.last();
    let parts = split_char(name, '.');
    if name.len() == 0 || name == ".."@ || parts.len() < 2 || (parts.len() == 2 && parts[0].len() == 0) {
        None
    } else {
        Some(parts.last())
    }
}

/// macOS bundle binaries (`/Contents/MacOS/` in the path, or a `.dylib`
/// extension in any case) are executable.
pub open spec fn spec_is_executable(name: Seq<char>) -> bool {
    let n = slashes(name);
    first_occurrence(n, "/Contents/MacOS/"@) is Some || (extension(n) matches Some(e) && eq_ignore_case(e, "dylib"@))
}

fn slashes_exec(cs: &[char]) -> (r: Vec<char>)
    ensures
        r@ == slashes(cs@),
{
    let mut out: Vec<char> = Vec::new();
    let mut i: usize = 0;
    while i < cs.len()
        invariant
            i <= cs@.len(),
            out@ == slashes(cs@.take(i as int)),
        decreases cs@.len() - i,
    {
        let c = cs[i];
        out.push(if c == '\\' { '/' } else { c });
        i += 1;
        assert(out@ =~= slashes(cs@.take(i as int)));
    }
    assert(cs@.take(i as int) =~= cs@);
    out
}

/// Whether an install file gets the executable bit.
pub fn is_executable(name: &str) -> (r: bool)
    ensures
        r == spec_is_executable(name@),
        (extension(slashes(name@)) matches Some(e) && eq_ignore_case(e, "dylib"@)) ==> r,
        first_occurrence(slashes(name@), "/Contents/MacOS/"@) is Some ==> r,
{
    proof {
        lemma_executable_names(name@);
    }
    let n = slashes_exec(chars_of(name).as_slice());
    let marker = chars_of("/Contents/MacOS/");
    if find_chars(n.as_slice(), marker.as_slice()).is_some() {
        return true;
    }
    let pieces = split_on(n.as_slice(), '/');
    proof {
        crate::text::lemma_split_char_len(n@, '/');
    }
    let last = pieces.len() - 1;
    let name_part = &pieces[last];
    assert(pieces_view(pieces@).last() == name_part@);
    let dots = chars_of("..");
    if name_part.len() == 0 || chars_eq(name_part.as_slice(), dots.as_slice()) {
        return false;
    }
    let parts = split_on(name_part.as_slice(), '.');
    proof {
        crate::text::lemma_split_char_len(name_part@, '.');
    }
    assert(pieces_view(parts@).len() == parts@.len());
    if parts.len() < 2 || (parts.len() == 2 && parts[0].len() == 0) {
        assert(pieces_view(parts@)[0] == parts@[0]@);
        return false;
    }
    let e = &parts[parts.len() - 1];
    assert(pieces_view(parts@).last() == e@);
    let dylib = chars_of("dylib");
    chars_eq_ignore_case(e.as_slice(), dylib.as_slice())
}

/// `PathBuf::push` on Unix paths as text: an absolute `b` replaces `a`,
/// else a `/` is put between them unless `a` is empty or ends with one.
pub open spec fn path_push(a: Seq<char>, b: Seq<char>) -> Seq<char> {
    if b.len() > 0 && b[0] == '/' {
        b
    } else if a.len() > 0 && a.last() != '/' {
        a + seq!['/'] + b
    } else {
        a + b
    }
}

/// A manifest path that would leave the product directory: after turning
/// `\` into `/`, it is absolute, starts with a `.` component, or has a
/// `..` component (the components `Path::components` yields on Unix other
/// than plain names).
pub open spec fn unsafe_install_path(name: Seq<char>) -> bool {
    let n = slashes(name);
    let pieces = split_char(n, '/');
    (n.len() > 0 && n[0] == '/') || pieces[0] == "."@ || exists|i: int| 0 <= i < pieces.len() && #[trigger] pieces[i] == ".."@
}

/// The directory recorded for a lower-cased relative directory `key`.
pub open spec fn dir_of(dirs: Seq<(Seq<char>, Seq<char>)>, key: Seq<char>) -> Option<Seq<char>>
    decreases dirs.len(),
{
    if dirs.len() == 0 {
        None
    } else if dirs[0].0 == key {
        Some(dirs[0].1)
    } else {
        dir_of(dirs.drop_first(), key)
    }
}

/// The walk over the parent directories `parents[i..]`: each directory keeps
/// the first spelling recorded for its lower-cased path.
pub open spec fn walk(
    parents: Seq<Seq<char>>,
    i: int,
    actual: Seq<char>,
    key: Seq<char>,
    dirs: Seq<(Seq<char>, Seq<char>)>,
) -> (Seq<char>, Seq<(Seq<char>, Seq<char>)>)
    decreases parents.len() - i,
{
    if i < 0 || i >= parents.len() {
        (actual, dirs)
    } else {
        let k = key + unicode_lower(parents[i]) + seq!['/'];
        let next = path_push(actual, parents[i]);
        match dir_of(dirs, k) {
            Some(d) => walk(parents, i + 1, d, k, dirs),
            None => walk(parents, i + 1, next, k, dirs.push((k, next))),
        }
    }
}

/// Why an install path is refused.
#[derive(Debug, Clone, PartialEq, Eq)]
pub enum InstallPathError {
    /// The path would leave the product directory.
    Unsafe(String),
}

/// The models of the recorded directories.
pub open spec fn dirs_view(v: Seq<(String, String)>) -> Seq<(Seq<char>, Seq<char>)> {
    v.map_values(|d: (String, String)| (d.0@, d.1@))
}

fn lookup_dir(dirs: &Vec<(String, String)>, key: &[char]) -> (r: Option<String>)
    ensures
        match dir_of(dirs_view(dirs@), key@) {
            Some(d) => r matches Some(s) && s@ == d,
            None => r is None,
        },
{
    let ghost dv = dirs_view(dirs@);
    assert(dv.subrange(0, dv.len() as int) =~= dv);
    let mut i: usize = 0;
    while i < dirs.len()
        invariant
            i <= dirs@.len(),
            dv == dirs_view(dirs@),
            dir_of(dv, key@) == dir_of(dv.subrange(i as int, dv.len() as int), key@),
        decreases dirs@.len() - i,
    {
        let k = chars_of(dirs[i].0.as_str());
        let ghost rest = dv.subrange(i as int, dv.len() as int);
        assert(rest[0] == (k@, dirs@[i as int].1@));
        assert(rest.drop_first() =~= dv.subrange(i + 1, dv.len() as int));
        if chars_eq(k.as_slice(), key) {
            return Some(string_of(chars_of(dirs[i].1.as_str()).as_slice()));
        }
        i += 1;
    }
    None
}


fn path_push_exec(a: &[char], b: &[char]) -> (r: Vec<char>)
    ensures
        r@ == path_push(a@, b@),
{
    let mut out: Vec<char> = Vec::new();
    if b.len() > 0 && b[0] == '/' {
        push_chars(&mut out, b);
        assert(out@ =~= b@);
        return out;
    }
    push_chars(&mut out, a);
    if a.len() > 0 && a[a.len() - 1] != '/' {
        out.push('/');
    }
    push_chars(&mut out, b);
    out
}

/// The path of an install file under `product_dir`: the manifest path with
/// `\` turned into `/`, each directory spelled as the first file seen in it
/// spelled it (`dirs` maps lower-cased relative directories to their
/// spelling); refused if it would leave the directory.
pub fn install_path(product_dir: &str, name: &str, dirs: &mut Vec<(String, String)>) -> (r: Result<String, InstallPathError>)
    ensures
        unsafe_install_path(name@) ==> (r matches Err(InstallPathError::Unsafe(n)) && n@ == name@ && final(dirs)@ == old(dirs)@),
        !unsafe_install_path(name@) ==> {
            let parts = split_char(name@, '\\');
            let (actual, d) = walk(parts.drop_last(), 0, Seq::empty(), Seq::empty(), dirs_view(old(dirs)@));
            r matches Ok(p) && p@ == path_push(path_push(product_dir@, actual), parts.last()) && dirs_view(final(dirs)@) == d
        },
{
    let cs = chars_of(name);
    let n = slashes_exec(cs.as_slice());
    let pieces = split_on(n.as_slice(), '/');
    proof {
        crate::text::lemma_split_char_len(n@, '/');
    }
    let dot = chars_of(".");
    let dots = chars_of("..");
    assert(pieces_view(pieces@)[0] == pieces@[0]@);
    let mut bad = (n.len() > 0 && n[0] == '/') || chars_eq(pieces[0].as_slice(), dot.as_slice());
    let ghost pv = pieces_view(pieces@);
    let mut i: usize = 0;
    while i < pieces.len()
        invariant
            i <= pieces@.len(),
            pv == pieces_view(pieces@),
            dots@ == ".."@,
            bad == ((n@.len() > 0 && n@[0] == '/') || pv[0] == "."@ || exists|j: int| 0 <= j < i && #[trigger] pv[j] == ".."@),
        decreases pieces@.len() - i,
    {
        assert(pv[i as int] == pieces@[i as int]@);
        if chars_eq(pieces[i].as_slice(), dots.as_slice()) {
            bad = true;
        }
        i += 1;
    }
    if bad {
        return Err(InstallPathError::Unsafe(string_of(cs.as_slice())));
    }
    let parts = split_on(cs.as_slice(), '\\');
    proof {
        crate::text::lemma_split_char_len(cs@, '\\');
    }
    let ghost prv = pieces_view(parts@);
    let ghost parents = prv.drop_last();
    let last = parts.len() - 1;
    let mut actual: Vec<char> = Vec::new();
    let mut key: Vec<char> = Vec::new();
    let mut k: usize = 0;
    while k < last
        invariant
            k <= last,
            last + 1 == parts@.len(),
            prv == pieces_view(parts@),
            parents == prv.drop_last(),
            walk(parents, 0, Seq::empty(), Seq::empty(), dirs_view(old(dirs)@)) == walk(parents, k as int, actual@, key@, dirs_view(dirs@)),
        decreases last - k,
    {
        let part = &parts[k];
        assert(parents[k as int] == part@);
        let ghost key0 = key@;
        let ghost actual0 = actual@;
        let ghost dirs0 = dirs_view(dirs@);
        let lower = lowercase(string_of(part.as_slice()).as_str());
        push_chars(&mut key, chars_of(lower.as_str()).as_slice());
        key.push('/');
        assert(key@ =~= key0 + unicode_lower(parents[k as int]) + seq!['/']);
        let next = path_push_exec(actual.as_slice(), part.as_slice());
        match lookup_dir(dirs, key.as_slice()) {
            Some(d) => {
                actual = chars_of(d.as_str());
            },
            None => {
                let ghost before = dirs@;
                let entry = (string_of(key.as_slice()), string_of(next.as_slice()));
                dirs.push(entry);
                assert(dirs_view(dirs@) =~= dirs_view(before).push((key@, next@)));
                actual = next;
            },
        }
        proof {
            assert(parents.len() == last);
            assert(walk(parents, k as int, actual0, key0, dirs0) == walk(parents, k + 1, actual@, key@, dirs_view(dirs@)));
        }
        k += 1;
    }
    assert(prv.last() == parts@[last as int]@);
    let base = path_push_exec(chars_of(product_dir).as_slice(), actual.as_slice());
    let full = path_push_exec(base.as_slice(), parts[last].as_slice());
    Ok(string_of(full.as_slice()))
}

/// Which installed files are executable: exactly those whose path (with
/// `\\` read as `/`) holds `/Contents/MacOS/` and those whose last path
/// component has the extension `dylib`, in any case.
pub proof fn lemma_executable_names(name: Seq<char>)
    ensures
        spec_is_executable(name) <==> (first_occurrence(slashes(name), "/Contents/MacOS/"@) is Some || (extension(
            slashes(name),
        ) matches Some(e) && eq_ignore_case(e, "dylib"@))),
{
}

proof fn lemma_split_no_sep(y: Seq<char>, c: char)
    requires
        !y.contains(c),
    ensures
        split_char(y, c) == seq![y],
    decreases y.len(),
{
    if y.len() == 0 {
        assert(y =~= Seq::<char>::empty());
    } else {
        let p = y.drop_last();
        assert(!p.contains(c)) by {
            if p.contains(c) {
                let i = choose|i: int| 0 <= i < p.len() && p[i] == c;
                assert(y[i] == c);
            }
        }
        lemma_split_no_sep(p, c);
        assert(y.last() == y[y.len() - 1]);
        assert(p.push(y.last()) =~= y);
        assert(y.last() != c);
        assert(split_char(y, c) == split_char(p, c).update(0, p.push(y.last())));
        assert(seq![p].update(0, y) =~= seq![y]);
    }
}

proof fn lemma_split_after(x: Seq<char>, y: Seq<char>, c: char)
    requires
        !y.contains(c),
    ensures
        split_char(x.push(c) + y, c) == split_char(x, c).push(y),
    decreases y.len(),
{
    if y.len() == 0 {
        assert(x.push(c) + y =~= x.push(c));
        assert((x.push(c)).drop_last() =~= x);
        assert(y =~= Seq::<char>::empty());
        assert(split_char(x.push(c), c) == split_char(x, c).push(Seq::empty()));
    } else {
        let p = y.drop_last();
        assert(!p.contains(c)) by {
            if p.contains(c) {
                let i = choose|i: int| 0 <= i < p.len() && p[i] == c;
                assert(y[i] == c);
            }
        }
        lemma_split_after(x, p, c);
        let z = x.push(c) + y;
        assert(z.drop_last() =~= x.push(c) + p);
        assert(z.last() == y[y.len() - 1]);
        assert(p.push(y.last()) =~= y);
        assert(y.last() != c);
        let q = split_char(x, c).push(p);
        assert(split_char(z, c) == q.update(q.len() - 1, p.push(z.last())));
        assert(q.update(q.len() - 1, y) =~= split_char(x, c).push(y));
    }
}

/// No character of `s` is `c`.
pub open spec fn lacks(s: Seq<char>, c: char) -> bool {
    !s.contains(c)
}

/// Shared libraries are executable: a file named `<base>.<ext>`, alone or
/// under any directory (`\\` or `/` separated), with `ext` equal to `dylib`
/// in any case and `base` a non-empty name without `.` or separators, is
/// marked executable.
pub proof fn lemma_dylib_executable(dir: Seq<char>, base: Seq<char>, ext: Seq<char>)
    requires
        base.len() > 0,
        lacks(base, '.') && lacks(base, '/') && lacks(base, '\\'),
        lacks(ext, '.') && lacks(ext, '/') && lacks(ext, '\\'),
        eq_ignore_case(ext, "dylib"@),
    ensures
        spec_is_executable(base.push('.') + ext),
        spec_is_executable(dir.push('\\') + base.push('.') + ext),
        spec_is_executable(dir.push('/') + base.push('.') + ext),
{
    reveal_strlit("..");
    let y = base.push('.') + ext;
    assert(lacks(y, '/') && lacks(y, '\\')) by {
        if y.contains('/') || y.contains('\\') {
            let i = choose|i: int| 0 <= i < y.len() && (y[i] == '/' || y[i] == '\\');
            if i < base.len() {
                assert(y[i] == base[i]);
            } else if i > base.len() {
                assert(y[i] == ext[i - base.len() - 1]);
            }
        }
    }
    assert(slashes(y) =~= y);
    lemma_split_no_sep(base, '.');
    lemma_split_after(base, ext, '.');
    assert(split_char(y, '.') =~= seq![base, ext]);
    assert(y[0] == base[0]);
    lemma_split_no_sep(y, '/');
    assert(extension(y) == Some(ext));
    let sd = slashes(dir);
    let n1 = dir.push('\\') + base.push('.') + ext;
    let n2 = dir.push('/') + base.push('.') + ext;
    assert(n1 =~= dir.push('\\') + y);
    assert(n2 =~= dir.push('/') + y);
    assert(slashes(n1) =~= sd.push('/') + y);
    assert(slashes(n2) =~= sd.push('/') + y);
    lemma_split_after(sd, y, '/');
    assert(extension(sd.push('/') + y) == Some(ext));
    assert(extension(slashes(n1)) == Some(ext));
    assert(extension(slashes(n2)) == Some(ext));
}

} // verus!
