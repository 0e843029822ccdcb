//! Character-level text helpers with their mathematical meaning: Unicode
//! white space, ASCII case, trimming, splitting and number formatting.

use vstd::prelude::*;
use vstd::std_specs::iter::IteratorSpec;

verus! {

broadcast use vstd::string::group_string_axioms;

/// The characters of `s`, in order.
pub fn chars_of(s: &str) -> (r: Vec<char>)
    ensures
        r@ == s@,
{
    let mut out: Vec<char> = Vec::new();
    for c in it: s.chars()
        invariant
            out@ == it.seq().take(it.index() as int),
    {
        out.push(c);
    }
    assert(out@ =~= s@);
    out
}

/// Appends `c` to `s` (`String::push`).
#[verifier::external_body]
pub fn push_char(s: &mut String, c: char)
    ensures
        final(s)@ == old(s)@.push(c),
{
    s.push(c);
}

/// A `String` holding exactly `cs`.
pub fn string_of(cs: &[char]) -> (r: String)
    ensures
        r@ == cs@,
{
    let mut s = String::new();
    let mut i: usize = 0;
    while i < cs.len()
        invariant
            i <= cs@.len(),
            s@ == cs@.take(i as int),
        decreases cs@.len() - i,
    {
        push_char(&mut s, cs[i]);
        i += 1;
        assert(s@ =~= cs@.take(i as int));
    }
    assert(cs@.take(i as int) =~= cs@);
    s
}


/// Unicode `White_Space` (what `char::is_whitespace` and `str::trim` use).
pub open spec fn is_white_space(c: char) -> bool {
    ||| ('\u{9}' <= c && c <= '\u{d}')
    ||| c == ' '
    ||| c == '\u{85}'
    ||| c == '\u{a0}'
    ||| c == '\u{1680}'
    ||| ('\u{2000}' <= c && c <= '\u{200a}')
    ||| c == '\u{2028}'
    ||| c == '\u{2029}'
    ||| c == '\u{202f}'
    ||| c == '\u{205f}'
    ||| c == '\u{3000}'
}

/// `char::is_whitespace`.
pub fn is_whitespace(c: char) -> (r: bool)
    ensures
        r == is_white_space(c),
{
    ('\u{9}' <= c && c <= '\u{d}') || c == ' ' || c == '\u{85}' || c == '\u{a0}' || c == '\u{1680}'
        || ('\u{2000}' <= c && c <= '\u{200a}') || c == '\u{2028}' || c == '\u{2029}' || c
        == '\u{202f}' || c == '\u{205f}' || c == '\u{3000}'
}

/// `s` without its leading white space.
pub open spec fn trim_start(s: Seq<char>) -> Seq<char>
    decreases s.len(),
{
    if s.len() > 0 && is_white_space(s[0]) {
        trim_start(s.drop_first())
    } else {
        s
    }
}

/// `s` without its trailing white space.
pub open spec fn trim_end(s: Seq<char>) -> Seq<char>
    decreases s.len(),
{
    if s.len() > 0 && is_white_space(s.last()) {
        trim_end(s.drop_last())
    } else {
        s
    }
}

/// `str::trim`.
pub open spec fn trim(s: Seq<char>) -> Seq<char> {
    trim_end(trim_start(s))
}

/// `s` without every trailing `c` (`str::trim_end_matches(c)`).
pub open spec fn trim_end_char(s: Seq<char>, c: char) -> Seq<char>
    decreases s.len(),
{
    if s.len() > 0 && s.last() == c {
        trim_end_char(s.drop_last(), c)
    } else {
        s
    }
}

proof fn lemma_trim_start_suffix(s: Seq<char>, i: int)
    requires
        0 <= i <= s.len(),
        forall|j: int| 0 <= j < i ==> is_white_space(#[trigger] s[j]),
    ensures
        trim_start(s) == trim_start(s.subrange(i, s.len() as int)),
    decreases i,
{
    if i > 0 {
        assert(s.drop_first().subrange(i - 1, s.drop_first().len() as int) =~= s.subrange(
            i,
            s.len() as int,
        ));
        lemma_trim_start_suffix(s.drop_first(), i - 1);
    } else {
        assert(s.subrange(0, s.len() as int) =~= s);
    }
}

proof fn lemma_trim_end_prefix(s: Seq<char>, e: int)
    requires
        0 <= e <= s.len(),
        forall|j: int| e <= j < s.len() ==> is_white_space(#[trigger] s[j]),
    ensures
        trim_end(s) == trim_end(s.subrange(0, e)),
    decreases s.len() - e,
{
    if e < s.len() {
        assert(s.drop_last().subrange(0, e) =~= s.subrange(0, e));
        lemma_trim_end_prefix(s.drop_last(), e);
    } else {
        assert(s.subrange(0, e) =~= s);
    }
}

proof fn lemma_trim_end_char_prefix(s: Seq<char>, c: char, e: int)
    requires
        0 <= e <= s.len(),
        forall|j: int| e <= j < s.len() ==> #[trigger] s[j] == c,
    ensures
        trim_end_char(s, c) == trim_end_char(s.subrange(0, e), c),
    decreases s.len() - e,
{
    if e < s.len() {
        assert(s.drop_last().subrange(0, e) =~= s.subrange(0, e));
        lemma_trim_end_char_prefix(s.drop_last(), c, e);
    } else {
        assert(s.subrange(0, e) =~= s);
    }
}

/// Bounds `(a, b)` such that `cs[a..b]` is `cs` trimmed of white space.
pub fn trim_bounds(cs: &[char]) -> (r: (usize, usize))
    ensures
        r.0 <= r.1 <= cs@.len(),
        cs@.subrange(r.0 as int, r.1 as int) == trim(cs@),
{
    let mut a: usize = 0;
    while a < cs.len() && is_whitespace(cs[a])
        invariant
            a <= cs@.len(),
            forall|j: int| 0 <= j < a ==> is_white_space(#[trigger] cs@[j]),
        decreases cs@.len() - a,
    {
        a += 1;
    }
    proof {
        lemma_trim_start_suffix(cs@, a as int);
    }
    let ghost rest = cs@.subrange(a as int, cs@.len() as int);
    assert(trim_start(rest) == rest);
    let mut b: usize = cs.len();
    while b > a && is_whitespace(cs[b - 1])
        invariant
            a <= b <= cs@.len(),
            forall|j: int| b <= j < cs@.len() ==> is_white_space(#[trigger] cs@[j]),
        decreases b,
    {
        b -= 1;
    }
    proof {
        lemma_trim_end_prefix(rest, b - a);
        assert(rest.subrange(0, b - a) =~= cs@.subrange(a as int, b as int));
    }
    (a, b)
}

/// `cs` trimmed of white space.
pub fn trim_chars(cs: &[char]) -> (r: Vec<char>)
    ensures
        r@ == trim(cs@),
{
    let (a, b) = trim_bounds(cs);
    slice_chars(cs, a, b)
}

/// `cs[a..b]` as a new vector.
pub fn slice_chars(cs: &[char], a: usize, b: usize) -> (r: Vec<char>)
    requires
        a <= b <= cs@.len(),
    ensures
        r@ == cs@.subrange(a as int, b as int),
{
    let mut out: Vec<char> = Vec::new();
    let mut i = a;
    while i < b
        invariant
            a <= i <= b <= cs@.len(),
            out@ == cs@.subrange(a as int, i as int),
        decreases b - i,
    {
        out.push(cs[i]);
        i += 1;
        assert(out@ =~= cs@.subrange(a as int, i as int));
    }
    out
}

/// `cs` without every trailing `c`.
pub fn trim_end_matching(cs: &[char], c: char) -> (r: Vec<char>)
    ensures
        r@ == trim_end_char(cs@, c),
{
    let mut b: usize = cs.len();
    while b > 0 && cs[b - 1] == c
        invariant
            b <= cs@.len(),
            forall|j: int| b <= j < cs@.len() ==> #[trigger] cs@[j] == c,
        decreases b,
    {
        b -= 1;
    }
    proof {
        lemma_trim_end_char_prefix(cs@, c, b as int);
    }
    slice_chars(cs, 0, b)
}

/// The pieces of `s` between separators (`sep(c)`), empty ones included, as
/// `str::split` returns them.
pub open spec fn split_by(s: Seq<char>, sep: spec_fn(char) -> bool) -> Seq<Seq<char>>
    decreases s.len(),
{
    if s.len() == 0 {
        seq![Seq::empty()]
    } else {
        let p = split_by(s.drop_last(), sep);
        if sep(s.last()) {
            p.push(Seq::empty())
        } else {
            p.update(p.len() - 1, p.last().push(s.last()))
        }
    }
}

/// `str::split(c)`.
pub open spec fn split_char(s: Seq<char>, c: char) -> Seq<Seq<char>> {
    split_by(s, |x: char| x == c)
}

/// `str::split(char::is_whitespace)`.
pub open spec fn split_ws(s: Seq<char>) -> Seq<Seq<char>> {
    split_by(s, |x: char| is_white_space(x))
}

/// There is always at least one piece.
pub proof fn lemma_split_len(s: Seq<char>, sep: spec_fn(char) -> bool)
    ensures
        split_by(s, sep).len() >= 1,
    decreases s.len(),
{
    if s.len() > 0 {
        lemma_split_len(s.drop_last(), sep);
    }
}

/// There is always at least one piece.
pub proof fn lemma_split_char_len(s: Seq<char>, c: char)
    ensures
        split_char(s, c).len() >= 1,
    decreases s.len(),
{
    if s.len() > 0 {
        lemma_split_char_len(s.drop_last(), c);
    }
}

/// There is always at least one piece.
pub proof fn lemma_split_ws_len(s: Seq<char>)
    ensures
        split_ws(s).len() >= 1,
    decreases s.len(),
{
    if s.len() > 0 {
        lemma_split_ws_len(s.drop_last());
    }
}

/// The pieces of `v`, as character sequences.
pub open spec fn pieces_view(v: Seq<Vec<char>>) -> Seq<Seq<char>> {
    v.map_values(|x: Vec<char>| x@)
}

/// `cs.split(sep)`.
pub fn split_on(cs: &[char], sep: char) -> (r: Vec<Vec<char>>)
    ensures
        pieces_view(r@) == split_char(cs@, sep),
{
    let mut done: Vec<Vec<char>> = Vec::new();
    let mut cur: Vec<char> = Vec::new();
    let mut i: usize = 0;
    while i < cs.len()
        invariant
            i <= cs@.len(),
            pieces_view(done@).push(cur@) == split_char(cs@.take(i as int), sep),
        decreases cs@.len() - i,
    {
        let c = cs[i];
        proof {
            assert(cs@.take(i + 1).drop_last() =~= cs@.take(i as int));
            lemma_split_char_len(cs@.take(i as int), sep);
        }
        if c == sep {
            let piece = cur;
            done.push(piece);
            cur = Vec::new();
            assert(pieces_view(done@).push(cur@) =~= split_char(cs@.take(i + 1), sep));
        } else {
            cur.push(c);
            assert(pieces_view(done@).push(cur@) =~= split_char(cs@.take(i + 1), sep));
        }
        i += 1;
    }
    done.push(cur);
    assert(cs@.take(i as int) =~= cs@);
    assert(pieces_view(done@) =~= split_char(cs@, sep));
    done
}

/// `cs.split(char::is_whitespace)`.
pub fn split_on_white_space(cs: &[char]) -> (r: Vec<Vec<char>>)
    ensures
        pieces_view(r@) == split_ws(cs@),
{
    let mut done: Vec<Vec<char>> = Vec::new();
    let mut cur: Vec<char> = Vec::new();
    let mut i: usize = 0;
    while i < cs.len()
        invariant
            i <= cs@.len(),
            pieces_view(done@).push(cur@) == split_ws(cs@.take(i as int)),
        decreases cs@.len() - i,
    {
        let c = cs[i];
        proof {
            assert(cs@.take(i + 1).drop_last() =~= cs@.take(i as int));
            lemma_split_ws_len(cs@.take(i as int));
        }
        if is_whitespace(c) {
            let piece = cur;
            done.push(piece);
            cur = Vec::new();
            assert(pieces_view(done@).push(cur@) =~= split_ws(cs@.take(i + 1)));
        } else {
            cur.push(c);
            assert(pieces_view(done@).push(cur@) =~= split_ws(cs@.take(i + 1)));
        }
        i += 1;
    }
    done.push(cur);
    assert(cs@.take(i as int) =~= cs@);
    assert(pieces_view(done@) =~= split_ws(cs@));
    done
}

/// The non-empty pieces of `p`, in order.
pub open spec fn non_empty(p: Seq<Seq<char>>) -> Seq<Seq<char>>
    decreases p.len(),
{
    if p.len() == 0 {
        Seq::empty()
    } else if p.last().len() == 0 {
        non_empty(p.drop_last())
    } else {
        non_empty(p.drop_last()).push(p.last())
    }
}

/// `str::split_whitespace`.
pub open spec fn words(s: Seq<char>) -> Seq<Seq<char>> {
    non_empty(split_ws(s))
}

/// `cs.split_whitespace()`.
pub fn split_words(cs: &[char]) -> (r: Vec<Vec<char>>)
    ensures
        pieces_view(r@) == words(cs@),
{
    let pieces = split_on_white_space(cs);
    let mut out: Vec<Vec<char>> = Vec::new();
    let mut i: usize = 0;
    while i < pieces.len()
        invariant
            i <= pieces@.len(),
            pieces_view(out@) == non_empty(pieces_view(pieces@).take(i as int)),
        decreases pieces@.len() - i,
    {
        assert(pieces_view(pieces@).take(i + 1).drop_last() =~= pieces_view(pieces@).take(i as int));
        if pieces[i].len() > 0 {
            out.push(pieces[i].clone());
            assert(pieces_view(out@) =~= non_empty(pieces_view(pieces@).take(i + 1)));
        }
        i += 1;
    }
    assert(pieces_view(pieces@).take(i as int) =~= pieces_view(pieces@));
    out
}

/// One line of `str::lines`: a piece that ended with `\n` loses one `\r`.
pub open spec fn strip_cr(x: Seq<char>) -> Seq<char> {
    if x.len() > 0 && x.last() == '\r' {
        x.drop_last()
    } else {
        x
    }
}

/// Every piece with [`strip_cr`] applied.
pub open spec fn strip_all(p: Seq<Seq<char>>) -> Seq<Seq<char>> {
    p.map_values(|x: Seq<char>| strip_cr(x))
}

/// `str::lines`: pieces between `\n`, each terminated one without a
/// trailing `\r`, and no final empty line.
pub open spec fn lines(s: Seq<char>) -> Seq<Seq<char>> {
    let p = split_char(s, '\n');
    let done = strip_all(p.drop_last());
    if p.last().len() == 0 {
        done
    } else {
        done.push(p.last())
    }
}

/// `cs.lines()`.
pub fn lines_of(cs: &[char]) -> (r: Vec<Vec<char>>)
    ensures
        pieces_view(r@) == lines(cs@),
{
    let pieces = split_on(cs, '\n');
    proof {
        lemma_split_char_len(cs@, '\n');
    }
    let n = pieces.len();
    let mut out: Vec<Vec<char>> = Vec::new();
    let mut i: usize = 0;
    while i + 1 < n
        invariant
            i < n,
            n == pieces@.len(),
            pieces_view(out@) == strip_all(pieces_view(pieces@).take(i as int)),
        decreases n - i,
    {
        let p = &pieces[i];
        let len = p.len();
        let ghost pv = pieces_view(pieces@);
        assert(pv[i as int] == p@);
        assert(strip_all(pv.take(i + 1)) =~= strip_all(pv.take(i as int)).push(strip_cr(p@)));
        if len > 0 && p[len - 1] == '\r' {
            let q = slice_chars(p.as_slice(), 0, len - 1);
            assert(q@ =~= strip_cr(p@));
            out.push(q);
        } else {
            let q = p.clone();
            assert(q@ == strip_cr(p@));
            out.push(q);
        }
        i += 1;
    }
    let ghost pv = pieces_view(pieces@);
    assert(pv.drop_last() =~= pv.take(i as int));
    if pieces[n - 1].len() > 0 {
        out.push(pieces[n - 1].clone());
    }
    assert(pieces_view(out@) =~= lines(cs@));
    out
}

/// ASCII lower case of one character (`char::to_ascii_lowercase`).
pub open spec fn ascii_lower(c: char) -> char {
    if 'A' <= c && c <= 'Z' {
        ((c as u32) + 32) as char
    } else {
        c
    }
}

/// `char::to_ascii_lowercase`.
pub fn to_ascii_lower(c: char) -> (r: char)
    ensures
        r == ascii_lower(c),
{
    if 'A' <= c && c <= 'Z' {
        ((c as u8) + 32) as char
    } else {
        c
    }
}

/// `str::to_ascii_lowercase`.
pub open spec fn lower_ascii(s: Seq<char>) -> Seq<char> {
    s.map_values(|c: char| ascii_lower(c))
}

/// `str::eq_ignore_ascii_case`.
pub open spec fn eq_ignore_case(a: Seq<char>, b: Seq<char>) -> bool {
    lower_ascii(a) == lower_ascii(b)
}

/// `a.eq_ignore_ascii_case(b)`.
pub fn chars_eq_ignore_case(a: &[char], b: &[char]) -> (r: bool)
    ensures
        r == eq_ignore_case(a@, b@),
{
    if a.len() != b.len() {
        assert(lower_ascii(a@).len() != lower_ascii(b@).len());
        return false;
    }
    let mut i: usize = 0;
    while i < a.len()
        invariant
            i <= a@.len() == b@.len(),
            forall|j: int| 0 <= j < i ==> ascii_lower(#[trigger] a@[j]) == ascii_lower(b@[j]),
        decreases a@.len() - i,
    {
        if to_ascii_lower(a[i]) != to_ascii_lower(b[i]) {
            assert(lower_ascii(a@)[i as int] != lower_ascii(b@)[i as int]);
            return false;
        }
        i += 1;
    }
    assert(lower_ascii(a@) =~= lower_ascii(b@));
    true
}

/// `cs` in ASCII lower case.
pub fn lower_ascii_chars(cs: &[char]) -> (r: Vec<char>)
    ensures
        r@ == lower_ascii(cs@),
{
    let mut out: Vec<char> = Vec::new();
    let mut i: usize = 0;
    while i < cs.len()
        invariant
            i <= cs@.len(),
            out@ == lower_ascii(cs@.take(i as int)),
        decreases cs@.len() - i,
    {
        out.push(to_ascii_lower(cs[i]));
        i += 1;
        assert(out@ =~= lower_ascii(cs@.take(i as int)));
    }
    assert(cs@.take(i as int) =~= cs@);
    out
}

/// `a == b` on character slices.
pub fn chars_eq(a: &[char], b: &[char]) -> (r: bool)
    ensures
        r == (a@ == b@),
{
    if a.len() != b.len() {
        return false;
    }
    let mut i: usize = 0;
    while i < a.len()
        invariant
            i <= a@.len() == b@.len(),
            forall|j: int| 0 <= j < i ==> #[trigger] a@[j] == b@[j],
        decreases a@.len() - i,
    {
        if a[i] != b[i] {
            return false;
        }
        i += 1;
    }
    assert(a@ =~= b@);
    true
}

/// The decimal digit of `d < 10`.
pub open spec fn digit(d: nat) -> char {
    ((d + 48) as u32) as char
}

/// Decimal form of `n` (no sign, no leading zeros).
pub open spec fn decimal(n: nat) -> Seq<char>
    decreases n,
{
    if n < 10 {
        seq![digit(n)]
    } else {
        decimal(n / 10).push(digit(n % 10))
    }
}

/// `n` in decimal, left-padded with zeros to at least `width` digits
/// (`{:0width}`).
pub open spec fn decimal_padded(n: nat, width: nat) -> Seq<char> {
    let d = decimal(n);
    if d.len() >= width {
        d
    } else {
        Seq::new((width - d.len()) as nat, |i: int| '0') + d
    }
}

fn digit_char(d: u64) -> (r: char)
    requires
        d < 10,
    ensures
        r == digit(d as nat),
{
    ((d as u8) + 48) as char
}

/// Appends `n` in decimal.
pub fn push_decimal(out: &mut Vec<char>, n: u64)
    ensures
        final(out)@ == old(out)@ + decimal(n as nat),
    decreases n,
{
    if n >= 10 {
        push_decimal(out, n / 10);
    }
    out.push(digit_char(n % 10));
    assert(final(out)@ =~= old(out)@ + decimal(n as nat));
}

/// Appends `n` in decimal (for numbers wider than 64 bits).
pub fn push_decimal_wide(out: &mut Vec<char>, n: u128)
    ensures
        final(out)@ == old(out)@ + decimal(n as nat),
    decreases n,
{
    if n >= 10 {
        push_decimal_wide(out, n / 10);
    }
    out.push(digit_char((n % 10) as u64));
    assert(final(out)@ =~= old(out)@ + decimal(n as nat));
}

proof fn lemma_decimal_len_pos(n: nat)
    ensures
        decimal(n).len() >= 1,
    decreases n,
{
    if n >= 10 {
        lemma_decimal_len_pos(n / 10);
    }
}

/// Appends `n` in decimal, zero-padded to `width` digits.
pub fn push_decimal_padded(out: &mut Vec<char>, n: u64, width: usize)
    ensures
        final(out)@ == old(out)@ + decimal_padded(n as nat, width as nat),
{
    let mut digits: Vec<char> = Vec::new();
    push_decimal(&mut digits, n);
    assert(digits@ =~= decimal(n as nat));
    let mut k = digits.len();
    while k < width
        invariant
            digits@.len() <= k <= width || (k == digits@.len() && k >= width),
            out@ == old(out)@ + Seq::new((k - digits@.len()) as nat, |i: int| '0'),
        decreases width - k,
    {
        out.push('0');
        k += 1;
        assert(out@ =~= old(out)@ + Seq::new((k - digits@.len()) as nat, |i: int| '0'));
    }
    let mut i: usize = 0;
    while i < digits.len()
        invariant
            i <= digits@.len(),
            out@ == old(out)@ + Seq::new((k - digits@.len()) as nat, |i: int| '0')
                + digits@.take(i as int),
        decreases digits@.len() - i,
    {
        out.push(digits[i]);
        i += 1;
        assert(out@ =~= old(out)@ + Seq::new((k - digits@.len()) as nat, |i: int| '0')
            + digits@.take(i as int));
    }
    assert(digits@.take(i as int) =~= digits@);
    if digits.len() >= width {
        assert(Seq::new((k - digits@.len()) as nat, |i: int| '0') =~= Seq::<char>::empty());
        assert(out@ =~= old(out)@ + decimal_padded(n as nat, width as nat));
    } else {
        assert(out@ =~= old(out)@ + decimal_padded(n as nat, width as nat));
    }
}

/// The hex digit of `d < 16`, lower or upper case.
pub open spec fn hex_digit(d: nat, upper: bool) -> char {
    if d < 10 {
        digit(d)
    } else if upper {
        ((d - 10 + 65) as u32) as char
    } else {
        ((d - 10 + 97) as u32) as char
    }
}

/// The low `width` hex digits of `n`, most significant first
/// (`{:0width$x}` when `n < 16^width`).
pub open spec fn hex_fixed(n: nat, width: nat, upper: bool) -> Seq<char>
    decreases width,
{
    if width == 0 {
        Seq::empty()
    } else {
        hex_fixed(n / 16, (width - 1) as nat, upper).push(hex_digit(n % 16, upper))
    }
}

fn hex_digit_char(d: u64, upper: bool) -> (r: char)
    requires
        d < 16,
    ensures
        r == hex_digit(d as nat, upper),
{
    if d < 10 {
        ((d as u8) + 48) as char
    } else if upper {
        ((d as u8) - 10 + 65) as char
    } else {
        ((d as u8) - 10 + 97) as char
    }
}

/// Appends the low `width` hex digits of `n`.
pub fn push_hex_fixed(out: &mut Vec<char>, n: u64, width: usize, upper: bool)
    ensures
        final(out)@ == old(out)@ + hex_fixed(n as nat, width as nat, upper),
    decreases width,
{
    if width > 0 {
        push_hex_fixed(out, n / 16, width - 1, upper);
        out.push(hex_digit_char(n % 16, upper));
        assert(final(out)@ =~= old(out)@ + hex_fixed(n as nat, width as nat, upper));
    } else {
        assert(final(out)@ =~= old(out)@ + hex_fixed(n as nat, width as nat, upper));
    }
}

/// Whether `c` is an ASCII decimal digit.
pub open spec fn is_digit(c: char) -> bool {
    '0' <= c && c <= '9'
}

/// Value of a run of decimal digits.
pub open spec fn decimal_value(s: Seq<char>) -> nat
    decreases s.len(),
{
    if s.len() == 0 {
        0
    } else {
        decimal_value(s.drop_last()) * 10 + (s.last() as nat - 48) as nat
    }
}

/// The decimal form of `n` is a non-empty run of digits whose value is `n`.
pub proof fn lemma_decimal_digits(n: nat)
    ensures
        decimal(n).len() >= 1,
        forall|i: int| 0 <= i < decimal(n).len() ==> is_digit(#[trigger] decimal(n)[i]),
        decimal_value(decimal(n)) == n,
    decreases n,
{
    if n < 10 {
        let d = decimal(n);
        assert(d =~= seq![digit(n)]);
        assert(d.drop_last() =~= Seq::<char>::empty());
        assert(digit(n) as nat == n + 48);
        assert(decimal_value(d.drop_last()) == 0);
        assert(decimal_value(d) == decimal_value(d.drop_last()) * 10 + (d.last() as nat - 48) as nat);
    } else {
        lemma_decimal_digits(n / 10);
        let d = decimal(n);
        let p = decimal(n / 10);
        assert(d == p.push(digit(n % 10)));
        assert(d.drop_last() =~= p);
        assert(digit(n % 10) as nat == n % 10 + 48);
        assert(decimal_value(d) == decimal_value(p) * 10 + (d.last() as nat - 48) as nat);
        assert((n / 10) * 10 + n % 10 == n);
        assert forall|i: int| 0 <= i < d.len() implies is_digit(#[trigger] d[i]) by {
            if i < p.len() {
                assert(d[i] == p[i]);
            }
        }
    }
}

/// `s` without one leading `+`.
pub open spec fn strip_plus(s: Seq<char>) -> Seq<char> {
    if s.len() > 0 && s[0] == '+' {
        s.drop_first()
    } else {
        s
    }
}

/// `u64::from_str`: an optional `+`, then one or more decimal digits whose
/// value fits in 64 bits.
pub open spec fn parse_u64_spec(s: Seq<char>) -> Option<u64> {
    let d = strip_plus(s);
    if d.len() == 0 || !(forall|i: int| 0 <= i < d.len() ==> is_digit(#[trigger] d[i])) {
        None
    } else if decimal_value(d) > u64::MAX {
        None
    } else {
        Some(decimal_value(d) as u64)
    }
}

proof fn lemma_decimal_value_grows(s: Seq<char>, i: int)
    requires
        0 <= i <= s.len(),
        forall|k: int| 0 <= k < s.len() ==> is_digit(#[trigger] s[k]),
    ensures
        decimal_value(s.take(i)) <= decimal_value(s),
    decreases s.len() - i,
{
    if i < s.len() {
        lemma_decimal_value_grows(s, i + 1);
        assert(s.take(i + 1).drop_last() =~= s.take(i));
    } else {
        assert(s.take(i) =~= s);
    }
}

/// Parses `cs` as `u64::from_str` does.
pub fn parse_u64(cs: &[char]) -> (r: Option<u64>)
    ensures
        r == parse_u64_spec(cs@),
{
    let start: usize = if cs.len() > 0 && cs[0] == '+' { 1 } else { 0 };
    let ghost d = strip_plus(cs@);
    assert(d =~= cs@.subrange(start as int, cs@.len() as int));
    if cs.len() == start {
        return None;
    }
    let mut i: usize = start;
    while i < cs.len()
        invariant
            start <= i <= cs@.len(),
            d == cs@.subrange(start as int, cs@.len() as int),
            d == strip_plus(cs@),
            forall|k: int| start <= k < i ==> is_digit(#[trigger] cs@[k]),
        decreases cs@.len() - i,
    {
        if !('0' <= cs[i] && cs[i] <= '9') {
            assert(d[i - start] == cs@[i as int]);
            assert(!is_digit(d[i - start]));
            return None;
        }
        i += 1;
    }
    assert forall|k: int| 0 <= k < d.len() implies is_digit(#[trigger] d[k]) by {
        assert(d[k] == cs@[start + k]);
    }
    let mut acc: u64 = 0;
    let mut j: usize = start;
    while j < cs.len()
        invariant
            start <= j <= cs@.len(),
            d == cs@.subrange(start as int, cs@.len() as int),
            d == strip_plus(cs@),
            forall|k: int| 0 <= k < d.len() ==> is_digit(#[trigger] d[k]),
            acc == decimal_value(d.take(j - start)),
        decreases cs@.len() - j,
    {
        assert(d[j - start] == cs@[j as int]);
        assert(is_digit(d[j - start]));
        let v = (cs[j] as u32 - 48) as u64;
        assert(d.take(j - start + 1).drop_last() =~= d.take(j - start));
        assert(decimal_value(d.take(j - start + 1)) == decimal_value(d.take(j - start)) * 10 + v);
        match acc.checked_mul(10) {
            Some(m) => match m.checked_add(v) {
                Some(n) => {
                    acc = n;
                },
                None => {
                    proof {
                        lemma_decimal_value_grows(d, j - start + 1);
                    }
                    return None;
                },
            },
            None => {
                proof {
                    lemma_decimal_value_grows(d, j - start + 1);
                }
                return None;
            },
        }
        j += 1;
    }
    assert(d.take(j - start) =~= d);
    Some(acc)
}

/// `pat` occurs in `s` at `i`.
pub open spec fn occurs_at(s: Seq<char>, pat: Seq<char>, i: int) -> bool {
    0 <= i && i + pat.len() <= s.len() && s.subrange(i, i + pat.len()) == pat
}

/// `str::find`: where `pat` first occurs in `s`.
pub open spec fn first_occurrence(s: Seq<char>, pat: Seq<char>) -> Option<int> {
    if exists|i: int| occurs_at(s, pat, i) && (forall|j: int| 0 <= j < i ==> !occurs_at(s, pat, j)) {
        Some(choose|i: int| occurs_at(s, pat, i) && (forall|j: int| 0 <= j < i ==> !occurs_at(s, pat, j)))
    } else {
        None
    }
}

/// Where `pat` first occurs in `cs`.
pub fn find_chars(cs: &[char], pat: &[char]) -> (r: Option<usize>)
    ensures
        match r {
            Some(i) => first_occurrence(cs@, pat@) == Some(i as int),
            None => first_occurrence(cs@, pat@) is None,
        },
{
    if pat.len() > cs.len() {
        assert forall|i: int| !occurs_at(cs@, pat@, i) by {}
        return None;
    }
    let n = cs.len();
    let last = cs.len() - pat.len();
    let mut i: usize = 0;
    while i <= last
        invariant
            n == cs@.len(),
            last + pat@.len() == cs@.len(),
            forall|j: int| 0 <= j < i ==> !occurs_at(cs@, pat@, j),
        decreases last + 1 - i,
    {
        let mut k: usize = 0;
        let mut same = true;
        while k < pat.len()
            invariant
                n == cs@.len(),
                i <= last,
                last + pat@.len() == cs@.len(),
                k <= pat@.len(),
                same == (forall|m: int| 0 <= m < k ==> cs@[i + m] == pat@[m]),
            decreases pat@.len() - k,
        {
            if cs[i + k] != pat[k] {
                same = false;
            }
            k += 1;
        }
        if same {
            assert(cs@.subrange(i as int, i + pat@.len()) =~= pat@);
            assert(occurs_at(cs@, pat@, i as int));
            let ghost w = choose|w: int| occurs_at(cs@, pat@, w) && (forall|j: int| 0 <= j < w ==> !occurs_at(cs@, pat@, j));
            assert(w == i) by {
                if w < i {
                } else if w > i {
                    assert(!occurs_at(cs@, pat@, i as int));
                }
            }
            return Some(i);
        }
        proof {
            if occurs_at(cs@, pat@, i as int) {
                let m = choose|m: int| 0 <= m < k && cs@[i + m] != pat@[m];
                assert(cs@.subrange(i as int, i + pat@.len())[m] == cs@[i + m]);
            }
        }
        if i == last {
            assert forall|j: int| !occurs_at(cs@, pat@, j) by {
                if 0 <= j && j <= i {
                }
            }
            return None;
        }
        i += 1;
    }
    None
}

/// `cs` with leading white space removed.
pub fn trim_start_chars(cs: &[char]) -> (r: Vec<char>)
    ensures
        r@ == trim_start(cs@),
{
    let mut a: usize = 0;
    while a < cs.len() && is_whitespace(cs[a])
        invariant
            a <= cs@.len(),
            forall|j: int| 0 <= j < a ==> is_white_space(#[trigger] cs@[j]),
        decreases cs@.len() - a,
    {
        a += 1;
    }
    proof {
        lemma_trim_start_suffix(cs@, a as int);
        let rest = cs@.subrange(a as int, cs@.len() as int);
        if rest.len() > 0 {
            assert(rest[0] == cs@[a as int]);
        }
    }
    slice_chars(cs, a, cs.len())
}

/// A first occurrence is an occurrence, with none before it.
pub proof fn lemma_first_occurrence(s: Seq<char>, pat: Seq<char>)
    ensures
        first_occurrence(s, pat) matches Some(i) ==> occurs_at(s, pat, i) && forall|j: int| 0 <= j < i ==> !occurs_at(s, pat, j),
{
}

/// The text that `String::from_utf8_lossy` makes of `bytes`.
pub uninterp spec fn utf8_lossy(bytes: Seq<u8>) -> Seq<char>;

/// `String::from_utf8_lossy(bytes).into_owned()` (std): the result is the
/// text named [`utf8_lossy`] of the bytes; bytes that are all ASCII come back
/// as the same characters, since ASCII is valid UTF-8 and valid input is
/// returned unchanged. How invalid sequences are replaced is left unsaid.
#[verifier::external_body]
pub fn lossy_string(bytes: &[u8]) -> (r: String)
    ensures
        r@ == utf8_lossy(bytes@),
        (forall|i: int| 0 <= i < bytes@.len() ==> #[trigger] bytes@[i] < 128) ==> r@ == bytes@.map_values(
            |b: u8| b as char,
        ),
{
    String::from_utf8_lossy(bytes).into_owned()
}

/// `cs` with trailing white space removed.
pub fn trim_end_chars(cs: &[char]) -> (r: Vec<char>)
    ensures
        r@ == trim_end(cs@),
{
    let mut b: usize = cs.len();
    while b > 0 && is_whitespace(cs[b - 1])
        invariant
            b <= cs@.len(),
            forall|j: int| b <= j < cs@.len() ==> is_white_space(#[trigger] cs@[j]),
        decreases b,
    {
        b -= 1;
    }
    proof {
        lemma_trim_end_prefix(cs@, b as int);
        let head = cs@.subrange(0, b as int);
        if head.len() > 0 {
            assert(head.last() == cs@[b - 1]);
        }
    }
    slice_chars(cs, 0, b)
}

/// The text that `str::to_lowercase` makes of `s` (full Unicode case
/// mapping).
pub uninterp spec fn unicode_lower(s: Seq<char>) -> Seq<char>;

/// `str::to_lowercase` (std): the result is the text named
/// [`unicode_lower`] of the input; the Unicode case mapping itself is left
/// unsaid.
#[verifier::external_body]
pub fn lowercase(s: &str) -> (r: String)
    ensures
        r@ == unicode_lower(s@),
{
    s.to_lowercase()
}

/// Appends the characters `cs` to `out`.
pub fn push_chars(out: &mut Vec<char>, cs: &[char])
    ensures
        final(out)@ == old(out)@ + cs@,
{
    let ghost start = out@;
    let mut i: usize = 0;
    while i < cs.len()
        invariant
            i <= cs@.len(),
            out@ == start + cs@.take(i as int),
        decreases cs@.len() - i,
    {
        out.push(cs[i]);
        i += 1;
        assert(out@ =~= start + cs@.take(i as int));
    }
    assert(cs@.take(i as int) =~= cs@);
}

/// Appends the characters of `s` to `out`.
pub fn push_str(out: &mut Vec<char>, s: &str)
    ensures
        final(out)@ == old(out)@ + s@,
{
    let cs = chars_of(s);
    push_chars(out, cs.as_slice());
}

/// What `char::to_lowercase` yields for `c`.
pub uninterp spec fn char_lower(c: char) -> Seq<char>;

/// What `char::to_uppercase` yields for `c`.
pub uninterp spec fn char_upper(c: char) -> Seq<char>;

/// ASCII upper case of one character (`char::to_ascii_uppercase`).
pub open spec fn ascii_upper(c: char) -> char {
    if 'a' <= c && c <= 'z' {
        ((c as u32) - 32) as char
    } else {
        c
    }
}

/// `char::to_lowercase` (std), collected: the characters named
/// [`char_lower`] of `c`. An ASCII character maps to its ASCII lower case
/// alone; the Unicode mapping of other characters is left unsaid.
#[verifier::external_body]
pub(crate) fn char_to_lowercase(c: char) -> (r: Vec<char>)
    ensures
        r@ == char_lower(c),
        c <= '\x7f' ==> r@ == seq![ascii_lower(c)],
{
    c.to_lowercase().collect()
}

/// `char::to_uppercase` (std), collected: the characters named
/// [`char_upper`] of `c`. An ASCII character maps to its ASCII upper case
/// alone; the Unicode mapping of other characters is left unsaid.
#[verifier::external_body]
pub(crate) fn char_to_uppercase(c: char) -> (r: Vec<char>)
    ensures
        r@ == char_upper(c),
        c <= '\x7f' ==> r@ == seq![ascii_upper(c)],
{
    c.to_uppercase().collect()
}

/// The characters of `s`, each replaced by its lower-case mapping.
pub open spec fn lower_each(s: Seq<char>) -> Seq<char>
    decreases s.len(),
{
    if s.len() == 0 {
        Seq::empty()
    } else {
        lower_each(s.drop_last()) + char_lower(s.last())
    }
}

/// `cs` with every character replaced by its lower-case mapping (the
/// characters of `char::to_lowercase`, one character after the other).
pub fn lower_each_char(cs: &[char]) -> (r: Vec<char>)
    ensures
        r@ == lower_each(cs@),
{
    let mut out: Vec<char> = Vec::new();
    let mut i: usize = 0;
    while i < cs.len()
        invariant
            i <= cs@.len(),
            out@ == lower_each(cs@.take(i as int)),
        decreases cs@.len() - i,
    {
        let l = char_to_lowercase(cs[i]);
        proof {
            assert(cs@.take(i + 1).drop_last() =~= cs@.take(i as int));
        }
        push_chars(&mut out, l.as_slice());
        i += 1;
    }
    assert(cs@.take(i as int) =~= cs@);
    out
}

} // verus!
