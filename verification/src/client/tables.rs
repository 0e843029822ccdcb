//! Blizzard patch-server tables (`/<product>/versions`, `/cdns`, `/bgdl`):
//! a header line of `Name!TYPE:size` columns, a `## seqn = N` line and
//! pipe-separated rows.
//!
//! Parsing skips `##` lines (but reads `seqn`), takes the first other line
//! (which must hold a `!`) as the header and splits columns at `|`;
//! rendering reproduces the byte layout the patch server returns (LF line
//! ends, trailing LF).

use vstd::prelude::*;
use crate::client::product::{
    BUILD_CONFIG, CDN_CONFIG, CDN_PATH, CONFIG_PATH, PRODUCT_CONFIG, VERSIONS_NAME, region_rows,
    region_view, regions, RegionCdn,
};
use crate::text::{
    chars_eq, chars_eq_ignore_case, chars_of, decimal, eq_ignore_case, find_chars, first_occurrence,
    lemma_first_occurrence, lemma_split_char_len, lines, lines_of, parse_u64, parse_u64_spec,
    pieces_view, push_decimal, slice_chars, split_char, split_on, string_of, trim, trim_chars,
    trim_end_char, trim_end_matching,
};

verus! {

/// A patch-server table.
#[derive(Debug, Clone, PartialEq, Eq)]
pub struct Table {
    /// Full column specs, e.g. `BuildConfig!HEX:16`.
    pub header: Vec<String>,
    pub seqn: Option<u64>,
    pub rows: Vec<Vec<String>>,
}

/// Why a table is refused.
#[derive(Debug, Clone, Copy, PartialEq, Eq)]
pub enum TableError {
    /// The first line that is neither empty nor a comment has no `!`.
    HeaderExpected,
    /// A row has another number of columns than the header.
    ColumnCount { found: usize, expected: usize },
    /// No header line.
    Empty,
}

/// A row (or the header) as plain values.
pub type RowModel = Seq<Seq<char>>;

/// A table as plain values: `(header, seqn, rows)`.
pub type TableModel = (RowModel, Option<u64>, Seq<RowModel>);

/// The texts of a list of strings.
pub open spec fn strings_view(v: Seq<String>) -> RowModel {
    v.map_values(|s: String| s@)
}

/// The texts of a list of rows.
pub open spec fn rows_view(v: Seq<Vec<String>>) -> Seq<RowModel> {
    v.map_values(|r: Vec<String>| strings_view(r@))
}

/// The model of a table.
pub open spec fn table_view(t: Table) -> TableModel {
    (strings_view(t.header@), t.seqn, rows_view(t.rows@))
}

/// `seqn` after the comment `comment` (the text after `##`): a comment
/// `name = value` with `name` trimmed equal to `seqn` sets it to the trimmed
/// value read as a number, or to nothing when that is no number.
pub open spec fn seqn_after(comment: Seq<char>, seqn: Option<u64>) -> Option<u64> {
    match first_occurrence(comment, seq!['=']) {
        Some(i) => if trim(comment.subrange(0, i)) == seq!['s', 'e', 'q', 'n'] {
            parse_u64_spec(trim(comment.subrange(i + 1, comment.len() as int)))
        } else {
            seqn
        },
        None => seqn,
    }
}

/// The parser's state: header so far, `seqn`, rows.
pub type ParseState = (Option<RowModel>, Option<u64>, Seq<RowModel>);

/// One line of the table applied to the state.
pub open spec fn table_step(line: Seq<char>, st: ParseState) -> Result<ParseState, TableError> {
    let l = trim_end_char(line, '\r');
    if l.len() == 0 {
        Ok(st)
    } else if l.len() >= 2 && l[0] == '#' && l[1] == '#' {
        Ok((st.0, seqn_after(l.subrange(2, l.len() as int), st.1), st.2))
    } else {
        let cols = split_char(l, '|');
        match st.0 {
            None => if l.contains('!') {
                Ok((Some(cols), st.1, st.2))
            } else {
                Err(TableError::HeaderExpected)
            },
            Some(h) => if h.len() == cols.len() {
                Ok((st.0, st.1, st.2.push(cols)))
            } else {
                Err(TableError::ColumnCount { found: cols.len() as usize, expected: h.len() as usize })
            },
        }
    }
}

/// Lines `i..` applied to the state.
pub open spec fn table_lines(ls: Seq<Seq<char>>, i: int, st: ParseState) -> Result<ParseState, TableError>
    decreases ls.len() - i,
{
    if i < 0 || i >= ls.len() {
        Ok(st)
    } else {
        match table_step(ls[i], st) {
            Err(e) => Err(e),
            Ok(next) => table_lines(ls, i + 1, next),
        }
    }
}

/// What [`Table::parse`] yields for `text`.
pub open spec fn spec_table_parse(text: Seq<char>) -> Result<TableModel, TableError> {
    match table_lines(lines(text), 0, (None, None, Seq::empty())) {
        Err(e) => Err(e),
        Ok((None, _, _)) => Err(TableError::Empty),
        Ok((Some(h), s, r)) => Ok((h, s, r)),
    }
}

/// `parts` joined with `sep` between them (`[String]::join`).
pub open spec fn join(parts: Seq<Seq<char>>, sep: char) -> Seq<char>
    decreases parts.len(),
{
    if parts.len() == 0 {
        Seq::empty()
    } else if parts.len() == 1 {
        parts[0]
    } else {
        join(parts.drop_last(), sep).push(sep) + parts.last()
    }
}

/// Each row joined with `|`, one per line.
pub open spec fn rows_text(rows: Seq<RowModel>) -> Seq<char>
    decreases rows.len(),
{
    if rows.len() == 0 {
        Seq::empty()
    } else {
        rows_text(rows.drop_last()) + join(rows.last(), '|').push('\n')
    }
}

/// The text of a table: header line, `## seqn = N` line when there is a
/// `seqn`, then the rows.
pub open spec fn render_spec(t: TableModel) -> Seq<char> {
    join(t.0, '|').push('\n') + match t.1 {
        Some(n) => "## seqn = "@ + decimal(n as nat).push('\n'),
        None => Seq::empty(),
    } + rows_text(t.2)
}

/// The name of a column spec: the part before the first `!`.
pub open spec fn column_name(h: Seq<char>) -> Seq<char> {
    split_char(h, '!')[0]
}

/// The first column whose name equals `name`, ignoring ASCII case.
pub open spec fn column_of(header: RowModel, name: Seq<char>) -> Option<int> {
    if exists|i: int|
        0 <= i < header.len() && eq_ignore_case(column_name(#[trigger] header[i]), name) && (forall|j: int|
            0 <= j < i ==> !eq_ignore_case(column_name(#[trigger] header[j]), name)) {
        Some(
            choose|i: int|
                0 <= i < header.len() && eq_ignore_case(column_name(#[trigger] header[i]), name) && (forall|j: int|
                    0 <= j < i ==> !eq_ignore_case(column_name(#[trigger] header[j]), name)),
        )
    } else {
        None
    }
}

/// The first row whose column `c` equals `value`, ignoring ASCII case.
pub open spec fn row_of(rows: Seq<RowModel>, c: int, value: Seq<char>) -> Option<int> {
    if exists|i: int|
        0 <= i < rows.len() && eq_ignore_case(#[trigger] rows[i][c], value) && (forall|j: int|
            0 <= j < i ==> !eq_ignore_case(#[trigger] rows[j][c], value)) {
        Some(
            choose|i: int|
                0 <= i < rows.len() && eq_ignore_case(#[trigger] rows[i][c], value) && (forall|j: int|
                    0 <= j < i ==> !eq_ignore_case(#[trigger] rows[j][c], value)),
        )
    } else {
        None
    }
}

/// Strings holding the pieces.
fn strings_of(pieces: &Vec<Vec<char>>) -> (r: Vec<String>)
    ensures
        strings_view(r@) == pieces_view(pieces@),
{
    let mut out: Vec<String> = Vec::new();
    let mut i: usize = 0;
    while i < pieces.len()
        invariant
            i <= pieces@.len(),
            strings_view(out@) == pieces_view(pieces@).take(i as int),
        decreases pieces@.len() - i,
    {
        let s = string_of(pieces[i].as_slice());
        let ghost before = out@;
        out.push(s);
        assert(strings_view(out@) =~= pieces_view(pieces@).take(i + 1)) by {
            assert(strings_view(out@) =~= strings_view(before).push(s@));
        }
        i += 1;
    }
    assert(pieces_view(pieces@).take(i as int) =~= pieces_view(pieces@));
    out
}

/// `seqn` after the comment `comment`.
fn apply_comment(comment: &[char], seqn: Option<u64>) -> (r: Option<u64>)
    ensures
        r == seqn_after(comment@, seqn),
{
    let eq = vec!['='];
    assert(eq@ =~= seq!['=']);
    match find_chars(comment, eq.as_slice()) {
        None => seqn,
        Some(i) => {
            proof {
                lemma_first_occurrence(comment@, eq@);
            }
            let name = trim_chars(slice_chars(comment, 0, i).as_slice());
            let seqn_word = vec!['s', 'e', 'q', 'n'];
            assert(seqn_word@ =~= seq!['s', 'e', 'q', 'n']);
            if chars_eq(name.as_slice(), seqn_word.as_slice()) {
                let n = comment.len();
                assert(crate::text::occurs_at(comment@, eq@, i as int));
                let value = trim_chars(slice_chars(comment, i + 1, n).as_slice());
                parse_u64(value.as_slice())
            } else {
                seqn
            }
        },
    }
}

impl Table {
    /// Parses a table.
    pub fn parse(text: &str) -> (r: Result<Self, TableError>)
        ensures
            match (r, spec_table_parse(text@)) {
                (Ok(t), Ok(m)) => table_view(t) == m,
                (Err(e), Err(s)) => e == s,
                _ => false,
            },
    {
        let cs = chars_of(text);
        let ls = lines_of(cs.as_slice());
        let ghost lv = lines(text@);
        let mut header: Option<Vec<String>> = None;
        let mut seqn: Option<u64> = None;
        let mut rows: Vec<Vec<String>> = Vec::new();
        let mut i: usize = 0;
        assert(rows_view(rows@) =~= Seq::<RowModel>::empty());
        while i < ls.len()
            invariant
                i <= ls@.len(),
                pieces_view(ls@) == lv,
                lv == lines(text@),
                table_lines(lv, 0, (None, None, Seq::empty())) == table_lines(
                    lv,
                    i as int,
                    (
                        match header {
                            Some(h) => Some(strings_view(h@)),
                            None => None,
                        },
                        seqn,
                        rows_view(rows@),
                    ),
                ),
            decreases ls@.len() - i,
        {
            assert(lv[i as int] == ls@[i as int]@);
            let line = trim_end_matching(ls[i].as_slice(), '\r');
            if line.len() == 0 {
                i += 1;
                continue;
            }
            if line.len() >= 2 && line[0] == '#' && line[1] == '#' {
                let comment = slice_chars(line.as_slice(), 2, line.len());
                seqn = apply_comment(comment.as_slice(), seqn);
                i += 1;
                continue;
            }
            let pieces = split_on(line.as_slice(), '|');
            let cols = strings_of(&pieces);
            match header {
                None => {
                    let mut k: usize = 0;
                    let mut bang = false;
                    while k < line.len()
                        invariant
                            k <= line@.len(),
                            bang == (exists|m: int| 0 <= m < k && line@[m] == '!'),
                        decreases line@.len() - k,
                    {
                        if line[k] == '!' {
                            bang = true;
                        }
                        k += 1;
                    }
                    if !bang {
                        return Err(TableError::HeaderExpected);
                    }
                    header = Some(cols);
                },
                Some(h) => {
                    if h.len() != cols.len() {
                        return Err(TableError::ColumnCount { found: cols.len(), expected: h.len() });
                    }
                    let ghost before = rows@;
                    rows.push(cols);
                    assert(rows_view(rows@) =~= rows_view(before).push(strings_view(cols@)));
                    header = Some(h);
                },
            }
            i += 1;
        }
        match header {
            Some(h) => Ok(Table { header: h, seqn, rows }),
            None => Err(TableError::Empty),
        }
    }

    /// Index of a column by its name (the part before `!`), ignoring case.
    pub fn column(&self, name: &str) -> (r: Option<usize>)
        ensures
            match r {
                Some(c) => column_of(strings_view(self.header@), name@) == Some(c as int),
                None => column_of(strings_view(self.header@), name@) is None,
            },
    {
        let ghost hv = strings_view(self.header@);
        let wanted = chars_of(name);
        let mut i: usize = 0;
        while i < self.header.len()
            invariant
                i <= self.header@.len(),
                hv == strings_view(self.header@),
                wanted@ == name@,
                forall|j: int| 0 <= j < i ==> !eq_ignore_case(column_name(#[trigger] hv[j]), name@),
            decreases self.header@.len() - i,
        {
            let h = chars_of(self.header[i].as_str());
            let parts = split_on(h.as_slice(), '!');
            proof {
                lemma_split_char_len(h@, '!');
            }
            assert(hv[i as int] == h@);
            assert(pieces_view(parts@)[0] == parts@[0]@);
            if chars_eq_ignore_case(parts[0].as_slice(), wanted.as_slice()) {
                proof {
                    let w = choose|w: int|
                        0 <= w < hv.len() && eq_ignore_case(column_name(#[trigger] hv[w]), name@) && (forall|j: int|
                            0 <= j < w ==> !eq_ignore_case(column_name(#[trigger] hv[j]), name@));
                    assert(eq_ignore_case(column_name(hv[i as int]), name@));
                    if w < i {
                    } else if w > i {
                        assert(!eq_ignore_case(column_name(hv[i as int]), name@));
                    }
                }
                return Some(i);
            }
            i += 1;
        }
        None
    }

    /// The cell of row `row` in the column named `column`.
    pub fn get(&self, row: usize, column: &str) -> (r: Option<&str>)
        ensures
            match column_of(strings_view(self.header@), column@) {
                Some(c) => if row < self.rows@.len() && c < self.rows@[row as int]@.len() {
                    r matches Some(s) && s@ == self.rows@[row as int]@[c]@
                } else {
                    r is None
                },
                None => r is None,
            },
    {
        let c = match self.column(column) {
            Some(c) => c,
            None => return None,
        };
        if row >= self.rows.len() {
            return None;
        }
        if c >= self.rows[row].len() {
            return None;
        }
        Some(self.rows[row][c].as_str())
    }

    /// First row whose `column` equals `value` (case-insensitive).
    pub fn find_row(&self, column: &str, value: &str) -> (r: Option<usize>)
        requires
            column_of(strings_view(self.header@), column@) matches Some(c) ==> forall|i: int|
                0 <= i < self.rows@.len() ==> c < (#[trigger] self.rows@[i])@.len(),
        ensures
            match column_of(strings_view(self.header@), column@) {
                Some(c) => match r {
                    Some(i) => row_of(rows_view(self.rows@), c, value@) == Some(i as int),
                    None => row_of(rows_view(self.rows@), c, value@) is None,
                },
                None => r is None,
            },
    {
        let c = match self.column(column) {
            Some(c) => c,
            None => return None,
        };
        let ghost rv = rows_view(self.rows@);
        let wanted = chars_of(value);
        let mut i: usize = 0;
        while i < self.rows.len()
            invariant
                i <= self.rows@.len(),
                rv == rows_view(self.rows@),
                wanted@ == value@,
                column_of(strings_view(self.header@), column@) == Some(c as int),
                forall|k: int| 0 <= k < self.rows@.len() ==> c < (#[trigger] self.rows@[k])@.len(),
                forall|j: int| 0 <= j < i ==> !eq_ignore_case(#[trigger] rv[j][c as int], value@),
            decreases self.rows@.len() - i,
        {
            let cell = chars_of(self.rows[i][c].as_str());
            assert(rv[i as int][c as int] == cell@);
            if chars_eq_ignore_case(cell.as_slice(), wanted.as_slice()) {
                proof {
                    let w = choose|w: int|
                        0 <= w < rv.len() && eq_ignore_case(#[trigger] rv[w][c as int], value@) && (forall|j: int|
                            0 <= j < w ==> !eq_ignore_case(#[trigger] rv[j][c as int], value@));
                    assert(eq_ignore_case(rv[i as int][c as int], value@));
                    assert(0 <= i < rv.len());
                    if w < i {
                    } else if w > i {
                        assert(!eq_ignore_case(rv[i as int][c as int], value@));
                    }
                    assert(w == i);
                    assert(row_of(rv, c as int, value@) == Some(i as int));
                }
                return Some(i);
            }
            i += 1;
        }
        None
    }

    /// The text of the table, as the patch server sends it.
    pub fn render(&self) -> (r: String)
        ensures
            r@ == render_spec(table_view(*self)),
    {
        let mut out: Vec<char> = Vec::new();
        push_joined(&mut out, &self.header);
        out.push('\n');
        match self.seqn {
            Some(n) => {
                let prefix = chars_of("## seqn = ");
                let mut k: usize = 0;
                let ghost start = out@;
                while k < prefix.len()
                    invariant
                        k <= prefix@.len(),
                        out@ == start + prefix@.take(k as int),
                    decreases prefix@.len() - k,
                {
                    out.push(prefix[k]);
                    k += 1;
                    assert(out@ =~= start + prefix@.take(k as int));
                }
                assert(prefix@.take(k as int) =~= prefix@);
                push_decimal(&mut out, n);
                out.push('\n');
                assert(out@ =~= start + ("## seqn = "@ + decimal(n as nat).push('\n')));
            },
            None => {},
        }
        let ghost head = out@;
        let mut i: usize = 0;
        assert(rows_view(self.rows@).take(0) =~= Seq::<RowModel>::empty());
        while i < self.rows.len()
            invariant
                i <= self.rows@.len(),
                out@ == head + rows_text(rows_view(self.rows@).take(i as int)),
            decreases self.rows@.len() - i,
        {
            push_joined(&mut out, &self.rows[i]);
            out.push('\n');
            proof {
                let t = rows_view(self.rows@).take(i + 1);
                assert(t.drop_last() =~= rows_view(self.rows@).take(i as int));
                assert(t.last() == strings_view(self.rows@[i as int]@));
            }
            i += 1;
            assert(out@ =~= head + rows_text(rows_view(self.rows@).take(i as int)));
        }
        assert(rows_view(self.rows@).take(i as int) =~= rows_view(self.rows@));
        let r = string_of(out.as_slice());
        assert(r@ =~= render_spec(table_view(*self)));
        r
    }
}

/// Appends `parts` joined with `|`.
fn push_joined(out: &mut Vec<char>, parts: &Vec<String>)
    ensures
        final(out)@ == old(out)@ + join(strings_view(parts@), '|'),
{
    let ghost start = out@;
    let mut i: usize = 0;
    assert(strings_view(parts@).take(0) =~= Seq::<Seq<char>>::empty());
    while i < parts.len()
        invariant
            i <= parts@.len(),
            out@ == start + join(strings_view(parts@).take(i as int), '|'),
        decreases parts@.len() - i,
    {
        let cs = chars_of(parts[i].as_str());
        let ghost t = strings_view(parts@).take(i + 1);
        assert(t.drop_last() =~= strings_view(parts@).take(i as int));
        assert(t.last() == cs@);
        if i > 0 {
            out.push('|');
        }
        let ghost mid = out@;
        let mut k: usize = 0;
        while k < cs.len()
            invariant
                k <= cs@.len(),
                out@ == mid + cs@.take(k as int),
            decreases cs@.len() - k,
        {
            out.push(cs[k]);
            k += 1;
            assert(out@ =~= mid + cs@.take(k as int));
        }
        assert(cs@.take(k as int) =~= cs@);
        proof {
            if i == 0 {
                assert(t =~= seq![cs@]);
                assert(out@ =~= start + join(t, '|'));
            } else {
                assert(out@ =~= start + join(t, '|'));
            }
        }
        i += 1;
    }
    assert(strings_view(parts@).take(i as int) =~= strings_view(parts@));
}

/// A `String` holding `s`.
fn owned(s: &str) -> (r: String)
    ensures
        r@ == s@,
{
    let cs = chars_of(s);
    string_of(cs.as_slice())
}

/// The column specs of `versions` (Blizzard's layout, including its
/// `VersionsName!String:0` spelling).
pub open spec fn versions_header() -> RowModel {
    seq![
        "Region!STRING:0"@,
        "BuildConfig!HEX:16"@,
        "CDNConfig!HEX:16"@,
        "KeyRing!HEX:16"@,
        "BuildId!DEC:4"@,
        "VersionsName!String:0"@,
        "ProductConfig!HEX:16"@,
    ]
}

/// The `versions` row of one region.
pub open spec fn version_row(region: Seq<char>) -> RowModel {
    seq![region, BUILD_CONFIG@, CDN_CONFIG@, Seq::empty(), decimal(54261), VERSIONS_NAME@, PRODUCT_CONFIG@]
}

/// The column specs of `cdns`.
pub open spec fn cdns_header() -> RowModel {
    seq!["Name!STRING:0"@, "Path!STRING:0"@, "Hosts!STRING:0"@, "Servers!STRING:0"@, "ConfigPath!STRING:0"@]
}

/// The `cdns` row of one region served from `host_port`.
pub open spec fn cdn_row(region: Seq<char>, host_port: Seq<char>) -> RowModel {
    seq![region, CDN_PATH@, host_port, "http://"@ + host_port + "/?maxhosts=4"@, CONFIG_PATH@]
}

fn versions_header_row() -> (r: Vec<String>)
    ensures
        strings_view(r@) == versions_header(),
{
    let r = vec![
        owned("Region!STRING:0"),
        owned("BuildConfig!HEX:16"),
        owned("CDNConfig!HEX:16"),
        owned("KeyRing!HEX:16"),
        owned("BuildId!DEC:4"),
        owned("VersionsName!String:0"),
        owned("ProductConfig!HEX:16"),
    ];
    assert(strings_view(r@) =~= versions_header());
    r
}

/// `versions` advertising the build for every region.
pub fn versions_table(seqn: u64) -> (t: Table)
    ensures
        table_view(t) == (versions_header(), Some(seqn), region_rows().map_values(|r: (Seq<char>, Seq<char>, Seq<char>)| version_row(r.0))),
{
    let header = versions_header_row();
    let rs = regions();
    let ghost want = region_rows().map_values(|r: (Seq<char>, Seq<char>, Seq<char>)| version_row(r.0));
    let mut rows: Vec<Vec<String>> = Vec::new();
    let mut i: usize = 0;
    while i < rs.len()
        invariant
            i <= rs@.len(),
            rs@.map_values(|x: RegionCdn| region_view(x)) == region_rows(),
            want == region_rows().map_values(|r: (Seq<char>, Seq<char>, Seq<char>)| version_row(r.0)),
            rows_view(rows@) == want.take(i as int),
        decreases rs@.len() - i,
    {
        let mut id: Vec<char> = Vec::new();
        push_decimal(&mut id, 54261);
        assert(id@ =~= decimal(54261));
        let row = vec![
            owned(rs[i].name),
            owned(BUILD_CONFIG),
            owned(CDN_CONFIG),
            String::new(),
            string_of(id.as_slice()),
            owned(VERSIONS_NAME),
            owned(PRODUCT_CONFIG),
        ];
        let ghost before = rows@;
        rows.push(row);
        proof {
            assert(region_rows()[i as int] == region_view(rs@[i as int]));
            assert(strings_view(row@) =~= version_row(rs@[i as int].name@));
            assert(rows_view(rows@) =~= rows_view(before).push(strings_view(row@)));
            assert(rows_view(rows@) =~= want.take(i + 1));
        }
        i += 1;
    }
    assert(want.take(i as int) =~= want);
    Table { header, seqn: Some(seqn), rows }
}

/// `cdns` whose hosts are the local server itself (`host:port`).
pub fn cdns_table(seqn: u64, host_port: &str) -> (t: Table)
    ensures
        table_view(t) == (cdns_header(), Some(seqn), region_rows().map_values(|r: (Seq<char>, Seq<char>, Seq<char>)| cdn_row(r.0, host_port@))),
{
    let header = vec![
        owned("Name!STRING:0"),
        owned("Path!STRING:0"),
        owned("Hosts!STRING:0"),
        owned("Servers!STRING:0"),
        owned("ConfigPath!STRING:0"),
    ];
    assert(strings_view(header@) =~= cdns_header());
    let rs = regions();
    let ghost want = region_rows().map_values(|r: (Seq<char>, Seq<char>, Seq<char>)| cdn_row(r.0, host_port@));
    let hp = chars_of(host_port);
    let mut rows: Vec<Vec<String>> = Vec::new();
    let mut i: usize = 0;
    while i < rs.len()
        invariant
            i <= rs@.len(),
            rs@.map_values(|x: RegionCdn| region_view(x)) == region_rows(),
            want == region_rows().map_values(|r: (Seq<char>, Seq<char>, Seq<char>)| cdn_row(r.0, host_port@)),
            hp@ == host_port@,
            rows_view(rows@) == want.take(i as int),
        decreases rs@.len() - i,
    {
        let mut server = chars_of("http://");
        let tail = chars_of("/?maxhosts=4");
        let ghost s0 = server@;
        let mut k: usize = 0;
        while k < hp.len()
            invariant
                k <= hp@.len(),
                server@ == s0 + hp@.take(k as int),
            decreases hp@.len() - k,
        {
            server.push(hp[k]);
            k += 1;
            assert(server@ =~= s0 + hp@.take(k as int));
        }
        let ghost s1 = server@;
        let mut k: usize = 0;
        while k < tail.len()
            invariant
                k <= tail@.len(),
                server@ == s1 + tail@.take(k as int),
            decreases tail@.len() - k,
        {
            server.push(tail[k]);
            k += 1;
            assert(server@ =~= s1 + tail@.take(k as int));
        }
        assert(hp@.take(hp@.len() as int) =~= hp@);
        assert(tail@.take(tail@.len() as int) =~= tail@);
        let row = vec![
            owned(rs[i].name),
            owned(CDN_PATH),
            owned(host_port),
            string_of(server.as_slice()),
            owned(CONFIG_PATH),
        ];
        let ghost before = rows@;
        rows.push(row);
        proof {
            assert(region_rows()[i as int] == region_view(rs@[i as int]));
            assert(strings_view(row@) =~= cdn_row(rs@[i as int].name@, host_port@));
            assert(rows_view(rows@) =~= rows_view(before).push(strings_view(row@)));
            assert(rows_view(rows@) =~= want.take(i + 1));
        }
        i += 1;
    }
    assert(want.take(i as int) =~= want);
    Table { header, seqn: Some(seqn), rows }
}

/// `bgdl` (background download): the `versions` header with no rows.
pub fn bgdl_table(seqn: u64) -> (t: Table)
    ensures
        table_view(t) == (versions_header(), Some(seqn), Seq::<RowModel>::empty()),
{
    let header = versions_header_row();
    let rows: Vec<Vec<String>> = Vec::new();
    assert(rows_view(rows@) =~= Seq::<RowModel>::empty());
    Table { header, seqn: Some(seqn), rows }
}

/// `f` can stand as a field of a rendered table: no `|`, no line break.
pub open spec fn field_ok(f: Seq<char>) -> bool {
    !f.contains('|') && !f.contains('\n')
}

/// `l` reads back as a table line: not empty, not a `##` comment, no
/// trailing `\r`.
pub open spec fn line_ok(l: Seq<char>) -> bool {
    l.len() > 0 && !(l.len() >= 2 && l[0] == '#' && l[1] == '#') && l.last() != '\r'
}

/// Every field of `row` is renderable.
pub open spec fn fields_ok(row: RowModel) -> bool {
    forall|i: int| 0 <= i < row.len() ==> field_ok(#[trigger] row[i])
}

/// A table that reads back as itself: a header of at least one column with
/// a `!`, rows as wide as the header, every field free of `|` and line
/// breaks, and every line a plain, non-empty line.
pub open spec fn renderable(t: TableModel) -> bool {
    &&& t.0.len() >= 1
    &&& fields_ok(t.0)
    &&& line_ok(join(t.0, '|'))
    &&& join(t.0, '|').contains('!')
    &&& forall|r: int| 0 <= r < t.2.len() ==> (#[trigger] t.2[r]).len() == t.0.len() && fields_ok(t.2[r]) && line_ok(join(t.2[r], '|'))
}

proof fn lemma_split_append(s: Seq<char>, t: Seq<char>, c: char)
    requires
        !t.contains(c),
    ensures
        split_char(s + t, c) == split_char(s, c).update(split_char(s, c).len() - 1, split_char(s, c).last() + t),
    decreases t.len(),
{
    crate::text::lemma_split_char_len(s, c);
    if t.len() == 0 {
        assert(s + t =~= s);
        assert(split_char(s, c).last() + t =~= split_char(s, c).last());
        assert(split_char(s, c).update(split_char(s, c).len() - 1, split_char(s, c).last()) =~= split_char(s, c));
    } else {
        let t1 = t.drop_last();
        let x = t.last();
        assert(!t1.contains(c)) by {
            if t1.contains(c) {
                let k = choose|k: int| 0 <= k < t1.len() && t1[k] == c;
                assert(t[k] == c);
            }
        }
        assert(x != c) by {
            assert(t[t.len() - 1] == x);
        }
        lemma_split_append(s, t1, c);
        assert((s + t).drop_last() =~= s + t1);
        assert((s + t).last() == x);
        let p = split_char(s, c);
        let q = split_char(s + t1, c);
        assert(q.len() == p.len());
        assert(split_char(s + t, c) =~= q.update(q.len() - 1, q.last().push(x)));
        assert(q.last() == p.last() + t1);
        assert((p.last() + t1).push(x) =~= p.last() + t);
        assert(q.update(q.len() - 1, q.last().push(x)) =~= p.update(p.len() - 1, p.last() + t));
    }
}

proof fn lemma_split_join(parts: Seq<Seq<char>>, c: char)
    requires
        parts.len() >= 1,
        forall|i: int| 0 <= i < parts.len() ==> !(#[trigger] parts[i]).contains(c),
    ensures
        split_char(join(parts, c), c) == parts,
    decreases parts.len(),
{
    if parts.len() == 1 {
        lemma_split_append(Seq::empty(), parts[0], c);
        assert(Seq::<char>::empty() + parts[0] =~= parts[0]);
        assert(split_char(Seq::<char>::empty(), c) =~= seq![Seq::<char>::empty()]);
        assert(Seq::<char>::empty() + parts[0] =~= parts[0]);
        assert(seq![Seq::<char>::empty()].update(0, parts[0]) =~= parts);
    } else {
        let p = parts.drop_last();
        assert forall|i: int| 0 <= i < p.len() implies !(#[trigger] p[i]).contains(c) by {
            assert(p[i] == parts[i]);
        }
        lemma_split_join(p, c);
        let j = join(p, c);
        assert(parts.last() == parts[parts.len() - 1]);
        lemma_split_append(j.push(c), parts.last(), c);
        assert(j.push(c).drop_last() =~= j);
        assert(split_char(j.push(c), c) =~= p.push(Seq::<char>::empty()));
        assert(Seq::<char>::empty() + parts.last() =~= parts.last());
        assert(p.push(Seq::<char>::empty()).update(p.len() as int, parts.last()) =~= parts);
    }
}

proof fn lemma_join_lacks(parts: Seq<Seq<char>>, c: char, x: char)
    requires
        x != c,
        forall|i: int| 0 <= i < parts.len() ==> !(#[trigger] parts[i]).contains(x),
    ensures
        !join(parts, c).contains(x),
    decreases parts.len(),
{
    if parts.len() >= 2 {
        let p = parts.drop_last();
        assert forall|i: int| 0 <= i < p.len() implies !(#[trigger] p[i]).contains(x) by {
            assert(p[i] == parts[i]);
        }
        lemma_join_lacks(p, c, x);
        assert(parts.last() == parts[parts.len() - 1]);
        let j = join(p, c).push(c) + parts.last();
        if j.contains(x) {
            let k = choose|k: int| 0 <= k < j.len() && j[k] == x;
            if k < join(p, c).len() {
                assert(join(p, c)[k] == x);
            } else if k > join(p, c).len() {
                assert(parts.last()[k - join(p, c).len() - 1] == x);
            }
        }
    } else if parts.len() == 1 {
        assert(parts[0] == join(parts, c));
    }
}

/// Lines, each followed by a line break.
pub open spec fn lines_text(ls: Seq<Seq<char>>) -> Seq<char>
    decreases ls.len(),
{
    if ls.len() == 0 {
        Seq::empty()
    } else {
        lines_text(ls.drop_last()) + ls.last().push('\n')
    }
}

/// The rows joined with `|`.
pub open spec fn joined_rows(rows: Seq<RowModel>) -> Seq<Seq<char>> {
    rows.map_values(|r: RowModel| join(r, '|'))
}

proof fn lemma_rows_text(rows: Seq<RowModel>)
    ensures
        rows_text(rows) == lines_text(joined_rows(rows)),
    decreases rows.len(),
{
    if rows.len() > 0 {
        lemma_rows_text(rows.drop_last());
        assert(joined_rows(rows).drop_last() =~= joined_rows(rows.drop_last()));
    }
}

proof fn lemma_lines_text_concat(a: Seq<Seq<char>>, b: Seq<Seq<char>>)
    ensures
        lines_text(a + b) == lines_text(a) + lines_text(b),
    decreases b.len(),
{
    if b.len() == 0 {
        assert(a + b =~= a);
        assert(lines_text(a) + Seq::<char>::empty() =~= lines_text(a));
    } else {
        lemma_lines_text_concat(a, b.drop_last());
        assert((a + b).drop_last() =~= a + b.drop_last());
        assert((a + b).last() == b.last());
    }
}

proof fn lemma_lines_text_join(ls: Seq<Seq<char>>)
    requires
        ls.len() >= 1,
    ensures
        lines_text(ls) == join(ls, '\n').push('\n'),
    decreases ls.len(),
{
    if ls.len() == 1 {
        assert(lines_text(ls.drop_last()) == Seq::<char>::empty());
        assert(lines_text(ls) == Seq::<char>::empty() + ls.last().push('\n'));
        assert(Seq::<char>::empty() + ls.last().push('\n') =~= ls.last().push('\n'));
        assert(join(ls, '\n') == ls[0]);
        assert(ls.last() == ls[0]);
    } else {
        let p = ls.drop_last();
        lemma_lines_text_join(p);
        assert(lines_text(ls) == lines_text(p) + ls.last().push('\n'));
        assert(join(ls, '\n') == join(p, '\n').push('\n') + ls.last());
        assert(join(p, '\n').push('\n') + ls.last().push('\n') =~= (join(p, '\n').push('\n') + ls.last()).push('\n'));
    }
}


proof fn lemma_split_push(s: Seq<char>, c: char)
    ensures
        split_char(s.push(c), c) == split_char(s, c).push(Seq::<char>::empty()),
{
    assert(s.push(c).drop_last() =~= s);
    assert(s.push(c).last() == c);
}

/// Plain lines, each ended by a line break, read back as themselves.
proof fn lemma_lines_of_text(ls: Seq<Seq<char>>)
    requires
        ls.len() >= 1,
        forall|i: int| 0 <= i < ls.len() ==> !(#[trigger] ls[i]).contains('\n') && ls[i].len() > 0 && ls[i].last() != '\r',
    ensures
        lines(lines_text(ls)) == ls,
{
    lemma_lines_text_join(ls);
    lemma_split_join(ls, '\n');
    lemma_split_push(join(ls, '\n'), '\n');
    let p = split_char(lines_text(ls), '\n');
    assert(p == ls.push(Seq::<char>::empty()));
    assert(p.drop_last() =~= ls);
    assert(p.last() == Seq::<char>::empty());
    assert(crate::text::strip_all(ls) =~= ls) by {
        assert forall|i: int| 0 <= i < ls.len() implies crate::text::strip_all(ls)[i] == ls[i] by {
            assert(crate::text::strip_cr(ls[i]) == ls[i]);
        }
    }
}

/// The `seqn` line reads back as its number.
proof fn lemma_seqn_line(n: u64, s: Option<u64>)
    ensures
        ("## seqn = "@ + decimal(n as nat)).len() >= 2,
        ("## seqn = "@ + decimal(n as nat))[0] == '#',
        ("## seqn = "@ + decimal(n as nat))[1] == '#',
        ("## seqn = "@ + decimal(n as nat)).last() != '\r',
        !("## seqn = "@ + decimal(n as nat)).contains('\n'),
        seqn_after(("## seqn = "@ + decimal(n as nat)).subrange(2, ("## seqn = "@ + decimal(n as nat)).len() as int), s) == Some(n),
{
    reveal_strlit("## seqn = ");
    crate::text::lemma_decimal_digits(n as nat);
    let d = decimal(n as nat);
    let sl = "## seqn = "@ + d;
    assert(sl.last() == d.last());
    assert(d.last() == d[d.len() - 1]);
    assert(crate::text::is_digit(d[d.len() - 1]));
    assert(!sl.contains('\n')) by {
        if sl.contains('\n') {
            let k = choose|k: int| 0 <= k < sl.len() && sl[k] == '\n';
            if k >= 10 {
                assert(sl[k] == d[k - 10]);
                assert(crate::text::is_digit(d[k - 10]));
            }
        }
    }
    let c = sl.subrange(2, sl.len() as int);
    let eqs = seq!['='];
    assert(c =~= seq![' ', 's', 'e', 'q', 'n', ' ', '=', ' '] + d);
    assert(crate::text::occurs_at(c, eqs, 6)) by {
        assert(c.subrange(6, 7) =~= eqs);
    }
    assert forall|j: int| 0 <= j < 6 implies !crate::text::occurs_at(c, eqs, j) by {
        if crate::text::occurs_at(c, eqs, j) {
            assert(c.subrange(j, j + 1)[0] == c[j]);
        }
    }
    assert(exists|i: int| crate::text::occurs_at(c, eqs, i) && (forall|j: int| 0 <= j < i ==> !crate::text::occurs_at(c, eqs, j))) by {
        assert(crate::text::occurs_at(c, eqs, 6) && (forall|j: int| 0 <= j < 6 ==> !crate::text::occurs_at(c, eqs, j)));
    }
    lemma_first_occurrence(c, eqs);
    assert(first_occurrence(c, eqs) == Some(6int)) by {
        let i = first_occurrence(c, eqs)->0;
        if i < 6 {
        } else if i > 6 {
            assert(!crate::text::occurs_at(c, eqs, 6));
        }
    }
    let name = c.subrange(0, 6);
    assert(name =~= seq![' ', 's', 'e', 'q', 'n', ' ']);
    let word = seq!['s', 'e', 'q', 'n'];
    assert(name.drop_first() =~= word.push(' '));
    assert(crate::text::trim_start(name) == crate::text::trim_start(word.push(' ')));
    assert(crate::text::trim_start(word.push(' ')) == word.push(' '));
    assert((word.push(' ')).drop_last() =~= word);
    assert(crate::text::trim_end(word.push(' ')) == crate::text::trim_end(word));
    assert(crate::text::trim_end(word) == word);
    assert(trim(name) == word);
    let value = c.subrange(7, c.len() as int);
    assert(value =~= seq![' '] + d);
    assert(value.drop_first() =~= d);
    assert(crate::text::is_digit(d[0]));
    assert(crate::text::trim_start(d) == d);
    assert(crate::text::trim_start(value) == d);
    assert(crate::text::trim_end(d) == d);
    assert(trim(value) == d);
    assert(crate::text::strip_plus(d) == d);
    assert(parse_u64_spec(d) == Some(n));
}

/// Lines `k..` of `ls` are the rows `rows[k - k0..]`, joined with `|`.
proof fn lemma_rows_read(
    ls: Seq<Seq<char>>,
    k0: int,
    h: RowModel,
    s: Option<u64>,
    rows: Seq<RowModel>,
    k: int,
)
    requires
        0 <= k0 <= k <= ls.len(),
        ls.len() == k0 + rows.len(),
        h.len() >= 1,
        forall|i: int|
            0 <= i < rows.len() ==> ls[k0 + i] == join(#[trigger] rows[i], '|') && rows[i].len() == h.len()
                && fields_ok(rows[i]) && line_ok(join(rows[i], '|')),
    ensures
        table_lines(ls, k, (Some(h), s, rows.take(k - k0))) == Ok::<ParseState, TableError>((Some(h), s, rows)),
    decreases ls.len() - k,
{
    if k == ls.len() {
        assert(rows.take(k - k0) =~= rows);
    } else {
        let r = rows[k - k0];
        let l = ls[k];
        assert(l == join(r, '|'));
        assert(trim_end_char(l, '\r') == l);
        assert forall|i: int| 0 <= i < r.len() implies !(#[trigger] r[i]).contains('|') by {
            assert(field_ok(r[i]));
        }
        lemma_split_join(r, '|');
        assert(rows.take(k - k0).push(r) =~= rows.take(k + 1 - k0));
        assert(table_step(l, (Some(h), s, rows.take(k - k0))) == Ok::<ParseState, TableError>((Some(h), s, rows.take(k + 1 - k0))));
        lemma_rows_read(ls, k0, h, s, rows, k + 1);
    }
}

/// A rendered table parses back as itself: for every renderable table `t`,
/// `Table::parse` of `render` gives `t` again.
pub proof fn lemma_table_round_trip(t: TableModel)
    requires
        renderable(t),
    ensures
        spec_table_parse(render_spec(t)) == Ok::<TableModel, TableError>(t),
{
    let h = t.0;
    let hl = join(h, '|');
    let rl = joined_rows(t.2);
    let sv: Seq<Seq<char>> = match t.1 {
        Some(n) => seq!["## seqn = "@ + decimal(n as nat)],
        None => Seq::empty(),
    };
    let head = seq![hl] + sv;
    let ls = head + rl;
    // The text is the lines, each ended by a line break.
    lemma_rows_text(t.2);
    lemma_lines_text_concat(head, rl);
    lemma_lines_text_concat(seq![hl], sv);
    assert(seq![hl].drop_last() =~= Seq::<Seq<char>>::empty());
    assert(lines_text(seq![hl].drop_last()) == Seq::<char>::empty());
    assert(seq![hl].last() == hl);
    assert(lines_text(seq![hl]) == lines_text(seq![hl].drop_last()) + seq![hl].last().push('\n'));
    assert(lines_text(seq![hl]) =~= hl.push('\n'));
    match t.1 {
        Some(n) => {
            assert(sv.drop_last() =~= Seq::<Seq<char>>::empty());
            assert(lines_text(sv.drop_last()) == Seq::<char>::empty());
            assert(sv.last() == "## seqn = "@ + decimal(n as nat));
            assert(lines_text(sv) == lines_text(sv.drop_last()) + sv.last().push('\n'));
            assert(lines_text(sv) =~= ("## seqn = "@ + decimal(n as nat)).push('\n'));
            assert(render_spec(t) =~= lines_text(ls));
        },
        None => {
            assert(lines_text(sv) == Seq::<char>::empty());
            assert(render_spec(t) =~= lines_text(ls));
        },
    }
    // Every line is plain.
    assert forall|i: int| 0 <= i < h.len() implies !(#[trigger] h[i]).contains('\n') by {
        assert(field_ok(h[i]));
    }
    lemma_join_lacks(h, '|', '\n');
    assert forall|j: int| 0 <= j < rl.len() implies !(#[trigger] rl[j]).contains('\n') by {
        let r = t.2[j];
        assert(fields_ok(r));
        assert forall|i: int| 0 <= i < r.len() implies !(#[trigger] r[i]).contains('\n') by {
            assert(field_ok(r[i]));
        }
        lemma_join_lacks(r, '|', '\n');
    }
    if let Some(n) = t.1 {
        lemma_seqn_line(n, None);
    }
    assert forall|i: int| 0 <= i < ls.len() implies !(#[trigger] ls[i]).contains('\n') && ls[i].len() > 0 && ls[i].last() != '\r' by {
        if i >= head.len() {
            assert(ls[i] == rl[i - head.len()]);
            assert(line_ok(join(t.2[i - head.len()], '|')));
        } else if i == 0 {
            assert(ls[i] == hl);
        } else {
            assert(ls[i] == sv[0]);
        }
    }
    lemma_lines_of_text(ls);
    assert(lines(render_spec(t)) == ls);
    // Reading the header.
    assert(trim_end_char(hl, '\r') == hl);
    assert forall|i: int| 0 <= i < h.len() implies !(#[trigger] h[i]).contains('|') by {
        assert(field_ok(h[i]));
    }
    lemma_split_join(h, '|');
    let init: ParseState = (None, None, Seq::empty());
    let after_header: ParseState = (Some(h), None, Seq::empty());
    assert(ls[0] == hl);
    assert(table_step(ls[0], init) == Ok::<ParseState, TableError>(after_header));
    assert(table_lines(ls, 0, init) == table_lines(ls, 1, after_header));
    let k0 = head.len() as int;
    assert forall|i: int|
        0 <= i < t.2.len() implies ls[k0 + i] == join(#[trigger] t.2[i], '|') && t.2[i].len() == h.len()
            && fields_ok(t.2[i]) && line_ok(join(t.2[i], '|')) by {
        assert(ls[k0 + i] == rl[i]);
    }
    assert(t.2.take(0) =~= Seq::<RowModel>::empty());
    lemma_rows_read(ls, k0, h, t.1, t.2, k0);
    match t.1 {
        Some(n) => {
            lemma_seqn_line(n, None);
            let sl = "## seqn = "@ + decimal(n as nat);
            assert(ls[1] == sl);
            assert(trim_end_char(sl, '\r') == sl);
            assert(table_step(ls[1], after_header) == Ok::<ParseState, TableError>((Some(h), Some(n), Seq::<RowModel>::empty())));
            assert(table_lines(ls, 1, after_header) == table_lines(ls, 2, (Some(h), Some(n), Seq::<RowModel>::empty())));
        },
        None => {},
    }
}

/// A line with its trailing `\r` removed, when it is neither empty nor a
/// `##` comment: a header or a row.
pub open spec fn content_line(line: Seq<char>) -> Option<Seq<char>> {
    let l = trim_end_char(line, '\r');
    if l.len() == 0 || (l.len() >= 2 && l[0] == '#' && l[1] == '#') {
        None
    } else {
        Some(l)
    }
}

/// The header and row lines among `ls[i..]`, in order.
pub open spec fn content_lines(ls: Seq<Seq<char>>, i: int) -> Seq<Seq<char>>
    decreases ls.len() - i,
{
    if i < 0 || i >= ls.len() {
        Seq::empty()
    } else {
        match content_line(ls[i]) {
            Some(l) => seq![l] + content_lines(ls, i + 1),
            None => content_lines(ls, i + 1),
        }
    }
}

/// Some of the lines `c` splits into another number of columns than `n`.
pub open spec fn some_width_differs(c: Seq<Seq<char>>, n: int) -> bool {
    exists|j: int| 0 <= j < c.len() && split_char(#[trigger] c[j], '|').len() != n
}

proof fn lemma_rows_fail(ls: Seq<Seq<char>>, i: int, h: RowModel, s: Option<u64>, r: Seq<RowModel>)
    requires
        0 <= i <= ls.len(),
    ensures
        table_lines(ls, i, (Some(h), s, r)) is Err <==> some_width_differs(content_lines(ls, i), h.len() as int),
        table_lines(ls, i, (Some(h), s, r)) matches Ok(st) ==> st.0 == Some(h),
    decreases ls.len() - i,
{
    if i < ls.len() {
        let st = (Some(h), s, r);
        let c = content_lines(ls, i + 1);
        match table_step(ls[i], st) {
            Err(_) => {},
            Ok(next) => {
                lemma_rows_fail(ls, i + 1, h, next.1, next.2);
            },
        }
        lemma_rows_fail(ls, i + 1, h, s, r);
        match content_line(ls[i]) {
            Some(l) => {
                let all = seq![l] + c;
                assert(all[0] == l);
                if some_width_differs(c, h.len() as int) {
                    let j = choose|j: int| 0 <= j < c.len() && split_char(#[trigger] c[j], '|').len() != h.len();
                    assert(all[j + 1] == c[j]);
                }
                if some_width_differs(all, h.len() as int) {
                    let j = choose|j: int| 0 <= j < all.len() && split_char(#[trigger] all[j], '|').len() != h.len();
                    if j > 0 {
                        assert(c[j - 1] == all[j]);
                    }
                }
            },
            None => {},
        }
    }
}

/// The lines were refused, or held no header.
pub open spec fn no_header(out: Result<ParseState, TableError>) -> bool {
    match out {
        Err(_) => true,
        Ok(st) => st.0 is None,
    }
}

proof fn lemma_header_fail(ls: Seq<Seq<char>>, i: int, s: Option<u64>, r: Seq<RowModel>)
    requires
        0 <= i <= ls.len(),
    ensures
        ({
            let c = content_lines(ls, i);
            let out = table_lines(ls, i, (None, s, r));
            no_header(out) <==> (c.len() == 0 || !c[0].contains('!')
                || some_width_differs(c.drop_first(), split_char(c[0], '|').len() as int))
        }),
    decreases ls.len() - i,
{
    if i < ls.len() {
        let st: ParseState = (None, s, r);
        let c1 = content_lines(ls, i + 1);
        match content_line(ls[i]) {
            None => {
                match table_step(ls[i], st) {
                    Ok(next) => {
                        assert(next.0 is None);
                        lemma_header_fail(ls, i + 1, next.1, next.2);
                    },
                    Err(_) => {},
                }
            },
            Some(l) => {
                let c = seq![l] + c1;
                assert(c[0] == l);
                assert(c.drop_first() =~= c1);
                if l.contains('!') {
                    lemma_rows_fail(ls, i + 1, split_char(l, '|'), s, r);
                }
            },
        }
    }
}

/// A table text is refused exactly when, among its header and row lines
/// (trailing `\r` removed, empty and `##` lines skipped), there is none,
/// the first has no `!`, or a later one has another number of `|`-separated
/// columns than the first.
pub proof fn lemma_table_refused(text: Seq<char>)
    ensures
        ({
            let c = content_lines(lines(text), 0);
            spec_table_parse(text) is Err <==> (c.len() == 0 || !c[0].contains('!') || some_width_differs(
                c.drop_first(),
                split_char(c[0], '|').len() as int,
            ))
        }),
{
    lemma_header_fail(lines(text), 0, None, Seq::empty());
}

proof fn lemma_join_prefix(parts: Seq<Seq<char>>, sep: char)
    requires
        parts.len() > 0,
    ensures
        join(parts, sep).len() >= parts[0].len(),
        forall|i: int| 0 <= i < parts[0].len() ==> join(parts, sep)[i] == parts[0][i],
        parts.len() > 1 ==> join(parts, sep).len() > parts[0].len() && join(parts, sep)[parts[0].len() as int] == sep,
    decreases parts.len(),
{
    if parts.len() > 1 {
        let p = parts.drop_last();
        lemma_join_prefix(p, sep);
        assert(p[0] == parts[0]);
        let jp = join(p, sep);
        assert(join(parts, sep) == jp.push(sep) + parts.last());
        if p.len() == 1 {
            assert(jp == parts[0]);
        }
    }
}

proof fn lemma_join_holds(parts: Seq<Seq<char>>, sep: char, k: int, j: int)
    requires
        0 <= k < parts.len(),
        0 <= j < parts[k].len(),
    ensures
        join(parts, sep).contains(parts[k][j]),
    decreases parts.len(),
{
    if parts.len() > 1 {
        let p = parts.drop_last();
        let jp = join(p, sep);
        let all = jp.push(sep) + parts.last();
        assert(join(parts, sep) == all);
        if k < p.len() {
            lemma_join_holds(p, sep, k, j);
            assert(p[k] == parts[k]);
            let q = choose|q: int| 0 <= q < jp.len() && jp[q] == parts[k][j];
            assert(all[q] == jp[q]);
        } else {
            assert(all[jp.len() + 1 + j] == parts.last()[j]);
        }
    } else {
        assert(join(parts, sep) == parts[0]);
        assert(join(parts, sep)[j] == parts[0][j]);
    }
}

proof fn lemma_join_last(parts: Seq<Seq<char>>, sep: char, c: char)
    requires
        parts.len() > 0,
        join(parts, sep).len() > 0,
        sep != c,
        forall|k: int| 0 <= k < parts.len() ==> !(#[trigger] parts[k]).contains(c),
    ensures
        join(parts, sep).last() != c,
{
    if parts.len() == 1 {
        let l = parts[0];
        assert(join(parts, sep) == l);
        assert(!l.contains(c));
        assert(l[l.len() - 1] != c);
    } else {
        let l = parts.last();
        let jp = join(parts.drop_last(), sep);
        assert(join(parts, sep) == jp.push(sep) + l);
        assert(!parts[parts.len() - 1].contains(c));
        if l.len() > 0 {
            assert(l[l.len() - 1] != c);
        }
    }
}

/// A cell of a renderable table: no `|`, no line break, no `\r`.
pub open spec fn plain_cell(c: Seq<char>) -> bool {
    !c.contains('|') && !c.contains('\n') && !c.contains('\r')
}

proof fn lemma_line_ok_of(parts: Seq<Seq<char>>)
    requires
        parts.len() > 0,
        forall|k: int| 0 <= k < parts.len() ==> plain_cell(#[trigger] parts[k]),
        join(parts, '|').len() > 0,
        !(join(parts, '|').len() >= 2 && join(parts, '|')[0] == '#' && join(parts, '|')[1] == '#'),
    ensures
        line_ok(join(parts, '|')),
        fields_ok(parts),
{
    lemma_join_last(parts, '|', '\r');
}

/// Rendering then parsing gives the table back, for every table whose
/// header has a cell with a `!` and does not start with `##`, whose rows
/// are as wide as the header, whose cells hold no `|`, `\n` or `\r`, and
/// whose rows joined with `|` are not empty and do not start with `##`.
pub proof fn lemma_rendered_table_parses_back(t: TableModel)
    requires
        exists|c: int| 0 <= c < t.0.len() && (#[trigger] t.0[c]).contains('!'),
        !(t.0[0].len() >= 2 && t.0[0][0] == '#' && t.0[0][1] == '#'),
        forall|c: int| 0 <= c < t.0.len() ==> plain_cell(#[trigger] t.0[c]),
        forall|r: int| 0 <= r < t.2.len() ==> (#[trigger] t.2[r]).len() == t.0.len(),
        forall|r: int, c: int| 0 <= r < t.2.len() && 0 <= c < t.2[r].len() ==> plain_cell(#[trigger] t.2[r][c]),
        forall|r: int| 0 <= r < t.2.len() ==> {
            let l = join(#[trigger] t.2[r], '|');
            l.len() > 0 && !(l.len() >= 2 && l[0] == '#' && l[1] == '#')
        },
    ensures
        spec_table_parse(render_spec(t)) == Ok::<TableModel, TableError>(t),
{
    let h = t.0;
    let c = choose|c: int| 0 <= c < h.len() && (#[trigger] h[c]).contains('!');
    let j = choose|j: int| 0 <= j < h[c].len() && h[c][j] == '!';
    lemma_join_holds(h, '|', c, j);
    let hl = join(h, '|');
    lemma_join_prefix(h, '|');
    if hl.len() >= 2 && hl[0] == '#' && hl[1] == '#' {
        let h0 = h[0];
        if h0.len() >= 2 {
            assert(hl[0] == h0[0] && hl[1] == h0[1]);
        } else if h0.len() == 1 {
            if h.len() > 1 {
                assert(hl[1] == '|');
            } else {
                assert(hl == h0);
            }
        } else {
            if h.len() > 1 {
                assert(hl[0] == '|');
            } else {
                assert(hl == h0);
            }
        }
    }
    lemma_line_ok_of(h);
    assert forall|r: int| 0 <= r < t.2.len() implies (#[trigger] t.2[r]).len() == t.0.len() && fields_ok(t.2[r])
        && line_ok(join(t.2[r], '|')) by {
        assert forall|k: int| 0 <= k < t.2[r].len() implies plain_cell(#[trigger] t.2[r][k]) by {}
        assert(t.2[r].len() > 0);
        lemma_line_ok_of(t.2[r]);
    }
    assert(renderable(t));
    lemma_table_round_trip(t);
}

} // verus!
