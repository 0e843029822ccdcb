//! Build config / CDN config text files (`name = value value ...`): lines
//! starting with `#` are comments, other lines are `name = value`, and
//! values are split on white space.

use vstd::prelude::*;
use crate::client::util::{Key, is_key_text, key_of_hex, md5, md5_digest, parse_key};
use crate::text::{
    chars_of, find_chars, first_occurrence, lemma_first_occurrence, lines, lines_of, lossy_string,
    pieces_view, slice_chars, split_words, string_of, trim, trim_chars, trim_start, trim_start_chars,
    utf8_lossy, words,
};

verus! {

/// A parsed config file: its variables in file order.
#[derive(Debug, Clone)]
pub struct ConfigFile {
    entries: Vec<(String, Vec<String>)>,
}

/// Why a config file is refused.
#[derive(Debug, Clone, Copy, PartialEq, Eq)]
pub enum ConfigError {
    /// The text is an HTML/XML error page (starts with `<`).
    ErrorPage,
    /// The file does not hash to its key.
    WrongMd5,
}

/// A variable as plain values: `(name, values)`.
pub type VarModel = (Seq<char>, Seq<Seq<char>>);

/// The variable a line defines, if any: trimmed, not empty, not a `#`
/// comment, and holding a `=`; the name is trimmed, the values are the
/// white-space separated words after the first `=`.
pub open spec fn config_line(line: Seq<char>) -> Option<VarModel> {
    let l = trim(line);
    if l.len() == 0 || l[0] == '#' {
        None
    } else {
        match first_occurrence(l, seq!['=']) {
            None => None,
            Some(i) => Some((trim(l.subrange(0, i)), words(l.subrange(i + 1, l.len() as int)))),
        }
    }
}

/// The variables of a list of lines, in order.
pub open spec fn config_vars(ls: Seq<Seq<char>>) -> Seq<VarModel>
    decreases ls.len(),
{
    if ls.len() == 0 {
        Seq::empty()
    } else {
        match config_line(ls.last()) {
            Some(v) => config_vars(ls.drop_last()).push(v),
            None => config_vars(ls.drop_last()),
        }
    }
}

/// What [`ConfigFile::parse`] yields for the bytes `data` (read as UTF-8,
/// invalid sequences replaced).
pub open spec fn spec_config_parse(data: Seq<u8>) -> Result<Seq<VarModel>, ConfigError> {
    let t = utf8_lossy(data);
    let s = trim_start(t);
    if s.len() > 0 && s[0] == '<' {
        Err(ConfigError::ErrorPage)
    } else {
        Ok(config_vars(lines(t)))
    }
}

/// The model of one stored variable.
pub open spec fn var_view(v: (String, Vec<String>)) -> VarModel {
    (v.0@, v.1@.map_values(|s: String| s@))
}

/// The texts of a list of string slices.
pub open spec fn texts_view(v: Seq<&str>) -> Seq<Seq<char>> {
    v.map_values(|s: &str| s@)
}

/// The names of the variables.
pub open spec fn var_names(vars: Seq<VarModel>) -> Seq<Seq<char>> {
    vars.map_values(|v: VarModel| v.0)
}

/// The first variable named `name`.
pub open spec fn var_named(vars: Seq<VarModel>, name: Seq<char>) -> Option<int> {
    if exists|i: int| 0 <= i < vars.len() && #[trigger] vars[i].0 == name && (forall|j: int| 0 <= j < i ==> vars[j].0 != name) {
        Some(choose|i: int| 0 <= i < vars.len() && #[trigger] vars[i].0 == name && (forall|j: int| 0 <= j < i ==> vars[j].0 != name))
    } else {
        None
    }
}

/// Key number `index` of variable `name`: its text must be 32 hex digits.
pub open spec fn config_key(vars: Seq<VarModel>, name: Seq<char>, index: int) -> Option<Seq<u8>> {
    match var_named(vars, name) {
        Some(i) => if 0 <= index < vars[i].1.len() && is_key_text(vars[i].1[index]) {
            Some(key_of_hex(crate::text::trim(vars[i].1[index])))
        } else {
            None
        },
        None => None,
    }
}

/// Splits a line into its variable, if it defines one.
fn parse_line(line: &[char]) -> (r: Option<(String, Vec<String>)>)
    ensures
        match r {
            Some(v) => config_line(line@) == Some(var_view(v)),
            None => config_line(line@) is None,
        },
{
    let l = trim_chars(line);
    if l.len() == 0 || l[0] == '#' {
        return None;
    }
    let eq = vec!['='];
    assert(eq@ =~= seq!['=']);
    let i = match find_chars(l.as_slice(), eq.as_slice()) {
        Some(i) => i,
        None => return None,
    };
    proof {
        lemma_first_occurrence(l@, eq@);
    }
    let n = l.len();
    assert(i + 1 <= n);
    let name = trim_chars(slice_chars(l.as_slice(), 0, i).as_slice());
    let rest = slice_chars(l.as_slice(), i + 1, n);
    let ws = split_words(rest.as_slice());
    let mut values: Vec<String> = Vec::new();
    let mut k: usize = 0;
    while k < ws.len()
        invariant
            k <= ws@.len(),
            values@.map_values(|s: String| s@) == pieces_view(ws@).take(k as int),
        decreases ws@.len() - k,
    {
        let s = string_of(ws[k].as_slice());
        let ghost before = values@;
        values.push(s);
        assert(values@.map_values(|s: String| s@) =~= pieces_view(ws@).take(k + 1)) by {
            assert(values@.map_values(|s: String| s@) =~= before.map_values(|s: String| s@).push(s@));
        }
        k += 1;
    }
    assert(pieces_view(ws@).take(k as int) =~= pieces_view(ws@));
    Some((string_of(name.as_slice()), values))
}

impl ConfigFile {
    /// The variables, in file order.
    pub closed spec fn vars(&self) -> Seq<VarModel> {
        self.entries@.map_values(|v: (String, Vec<String>)| var_view(v))
    }

    /// A config file with no variables.
    pub fn new() -> (r: Self)
        ensures
            r.vars() == Seq::<VarModel>::empty(),
    {
        let r = ConfigFile { entries: Vec::new() };
        assert(r.vars() =~= Seq::<VarModel>::empty());
        r
    }

    /// Parses a config file.
    pub fn parse(data: &[u8]) -> (r: Result<Self, ConfigError>)
        ensures
            match (r, spec_config_parse(data@)) {
                (Ok(c), Ok(v)) => c.vars() == v,
                (Err(e), Err(s)) => e == s,
                _ => false,
            },
            r is Err <==> {
                let s = trim_start(utf8_lossy(data@));
                s.len() > 0 && s[0] == '<'
            },
            r matches Ok(c) ==> c.vars() == config_vars(lines(utf8_lossy(data@))),
    {
        let text = lossy_string(data);
        let cs = chars_of(text.as_str());
        let s = trim_start_chars(cs.as_slice());
        if s.len() > 0 && s[0] == '<' {
            return Err(ConfigError::ErrorPage);
        }
        let ls = lines_of(cs.as_slice());
        let ghost lv = pieces_view(ls@);
        let mut entries: Vec<(String, Vec<String>)> = Vec::new();
        let mut i: usize = 0;
        assert(entries@.map_values(|v: (String, Vec<String>)| var_view(v)) =~= config_vars(lv.take(0)));
        while i < ls.len()
            invariant
                i <= ls@.len(),
                lv == pieces_view(ls@),
                entries@.map_values(|v: (String, Vec<String>)| var_view(v)) == config_vars(lv.take(i as int)),
            decreases ls@.len() - i,
        {
            assert(lv.take(i + 1).drop_last() =~= lv.take(i as int));
            assert(lv[i as int] == ls@[i as int]@);
            match parse_line(ls[i].as_slice()) {
                Some(v) => {
                    let ghost before = entries@;
                    entries.push(v);
                    assert(entries@.map_values(|v: (String, Vec<String>)| var_view(v)) =~= before.map_values(|v: (String, Vec<String>)| var_view(v)).push(var_view(v)));
                },
                None => {},
            }
            i += 1;
        }
        assert(lv.take(i as int) =~= lv);
        let r = ConfigFile { entries };
        Ok(r)
    }

    /// Parses after checking the file's MD5 against its key (configs are
    /// content-addressed).
    pub fn parse_verified(data: &[u8], key: &Key) -> (r: Result<Self, ConfigError>)
        ensures
            md5_digest(data@) != key@ ==> r == Err::<Self, ConfigError>(ConfigError::WrongMd5),
            md5_digest(data@) == key@ ==> match (r, spec_config_parse(data@)) {
                (Ok(c), Ok(v)) => c.vars() == v,
                (Err(e), Err(s)) => e == s,
                _ => false,
            },
    {
        let digest = md5(data);
        let mut same = true;
        let mut k: usize = 0;
        while k < 16
            invariant
                k <= 16,
                same == (forall|j: int| 0 <= j < k ==> digest@[j] == key@[j]),
            decreases 16 - k,
        {
            if digest[k] != key[k] {
                same = false;
            }
            k += 1;
        }
        if !same {
            return Err(ConfigError::WrongMd5);
        }
        assert(digest@ =~= key@);
        Self::parse(data)
    }

    /// The values of the first variable named `name`.
    pub fn values(&self, name: &str) -> (r: Option<&[String]>)
        ensures
            match var_named(self.vars(), name@) {
                Some(i) => r matches Some(v) && v@.map_values(|s: String| s@) == self.vars()[i].1,
                None => r is None,
            },
    {
        let wanted = chars_of(name);
        let ghost vv = self.vars();
        let mut i: usize = 0;
        while i < self.entries.len()
            invariant
                i <= self.entries@.len(),
                vv == self.vars(),
                wanted@ == name@,
                forall|j: int| 0 <= j < i ==> vv[j].0 != name@,
            decreases self.entries@.len() - i,
        {
            let n = chars_of(self.entries[i].0.as_str());
            assert(vv[i as int] == var_view(self.entries@[i as int]));
            if crate::text::chars_eq(n.as_slice(), wanted.as_slice()) {
                proof {
                    let w = choose|w: int| 0 <= w < vv.len() && #[trigger] vv[w].0 == name@ && (forall|j: int| 0 <= j < w ==> vv[j].0 != name@);
                    assert(vv[i as int].0 == name@);
                    if w < i {
                    } else if w > i {
                        assert(vv[i as int].0 != name@);
                    }
                }
                return Some(self.entries[i].1.as_slice());
            }
            i += 1;
        }
        None
    }

    /// The first value of the first variable named `name`.
    pub fn first(&self, name: &str) -> (r: Option<&str>)
        ensures
            match var_named(self.vars(), name@) {
                Some(i) => if self.vars()[i].1.len() > 0 {
                    r matches Some(s) && s@ == self.vars()[i].1[0]
                } else {
                    r is None
                },
                None => r is None,
            },
    {
        match self.values(name) {
            Some(v) => {
                if v.len() == 0 {
                    return None;
                }
                Some(v[0].as_str())
            },
            None => None,
        }
    }

    /// Key number `index` of a hash-valued variable.
    pub fn key(&self, name: &str, index: usize) -> (r: Option<Key>)
        ensures
            match config_key(self.vars(), name@, index as int) {
                Some(k) => r matches Some(x) && x@ == k,
                None => r is None,
            },
    {
        match self.values(name) {
            Some(v) => {
                if index >= v.len() {
                    return None;
                }
                parse_key(v[index].as_str())
            },
            None => None,
        }
    }

    /// Every variable name, in file order.
    pub fn names(&self) -> (r: Vec<&str>)
        ensures
            texts_view(r@) == var_names(self.vars()),
    {
        let mut out: Vec<&str> = Vec::new();
        let mut i: usize = 0;
        while i < self.entries.len()
            invariant
                i <= self.entries@.len(),
                texts_view(out@) == var_names(self.vars()).take(i as int),
            decreases self.entries@.len() - i,
        {
            let ghost before = out@;
            let nm = self.entries[i].0.as_str();
            out.push(nm);
            assert(self.vars()[i as int] == var_view(self.entries@[i as int]));
            assert(texts_view(out@) =~= texts_view(before).push(nm@));
            assert(texts_view(out@) =~= var_names(self.vars()).take(i + 1));
            i += 1;
        }
        assert(var_names(self.vars()).take(i as int) =~= var_names(self.vars()));
        out
    }
}

impl Default for ConfigFile {
    fn default() -> (r: Self)
        ensures
            r.vars() == Seq::<VarModel>::empty(),
    {
        ConfigFile::new()
    }
}

proof fn lemma_config_vars_filter_map(ls: Seq<Seq<char>>)
    ensures
        config_vars(ls) == ls.filter_map(|l: Seq<char>| config_line(l)),
    decreases ls.len(),
{
    if ls.len() > 0 {
        lemma_config_vars_filter_map(ls.drop_last());
        let f = |l: Seq<char>| config_line(l);
        let rest = ls.drop_last().filter_map(f);
        match config_line(ls.last()) {
            Some(v) => {
                assert(rest.push(v) =~= rest + seq![v]);
            },
            None => {},
        }
    }
}

/// What a config file holds: an HTML or XML error page (text starting with
/// `<` after white space) is refused; otherwise the variables are, in file
/// order, `(name trimmed, value words)` of every line that, trimmed, is not
/// empty, is no `#` comment and has an `=` (split at the first one); every
/// other line is ignored ([`config_line`]).
pub proof fn lemma_config_parse_rule(data: Seq<u8>)
    ensures
        spec_config_parse(data) is Err <==> {
            let s = trim_start(utf8_lossy(data));
            s.len() > 0 && s[0] == '<'
        },
        spec_config_parse(data) matches Ok(v) ==> v == lines(utf8_lossy(data)).filter_map(|l: Seq<char>| config_line(l)),
{
    lemma_config_vars_filter_map(lines(utf8_lossy(data)));
}

} // verus!
