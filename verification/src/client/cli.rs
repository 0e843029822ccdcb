//! The user's platform/locale/region selection.
//!
//! Only Blizzard's desktop clients are accepted: Windows (`Windows` tag) and
//! macOS (`OSX` tag) on `x86_64`/`arm64`. The region defaults from the
//! locale the way the Agent groups them.

use vstd::prelude::*;
use crate::text::{
    chars_eq, chars_eq_ignore_case, chars_of, eq_ignore_case, lower_ascii, lower_ascii_chars, parse_u64,
    parse_u64_spec, pieces_view, push_str, split_char, split_on, string_of, trim, trim_chars, trim_end_char,
    trim_end_matching,
};
use crate::client::product::DEFAULT_MIRROR;

verus! {

/// Locales of the manifests (tag type 3).
pub open spec fn locale_names() -> Seq<Seq<char>> {
    seq!["deDE"@, "enUS"@, "esES"@, "esMX"@, "frFR"@, "koKR"@, "ptBR"@, "ruRU"@, "zhCN"@, "zhTW"@]
}

/// Regions of the manifests (tag type 4).
pub open spec fn region_names() -> Seq<Seq<char>> {
    seq!["CN"@, "EU"@, "KR"@, "TW"@, "US"@]
}

/// The locales, in manifest order.
pub fn locales() -> (r: Vec<&'static str>)
    ensures
        r@.map_values(|s: &str| s@) == locale_names(),
{
    let r = vec!["deDE", "enUS", "esES", "esMX", "frFR", "koKR", "ptBR", "ruRU", "zhCN", "zhTW"];
    assert(r@.map_values(|s: &str| s@) =~= locale_names());
    r
}

/// The regions, in manifest order.
pub fn regions() -> (r: Vec<&'static str>)
    ensures
        r@.map_values(|s: &str| s@) == region_names(),
{
    let r = vec!["CN", "EU", "KR", "TW", "US"];
    assert(r@.map_values(|s: &str| s@) =~= region_names());
    r
}

/// Client platform.
#[derive(Debug, Clone, Copy, PartialEq, Eq)]
pub enum Os {
    Windows,
    MacOs,
}

/// Client architecture.
#[derive(Debug, Clone, Copy, PartialEq, Eq)]
pub enum Arch {
    X86_64,
    Arm64,
}

/// Why a selection is refused.
#[derive(Debug, Clone, PartialEq, Eq)]
pub enum SelectionError {
    /// A platform whose content the manifests tag but whose client Blizzard
    /// does not ship (`android`, `ios`, `web`).
    NoClient(String),
    /// Not a platform name.
    UnknownOs(String),
    /// A 32-bit architecture, no longer shipped.
    NoLongerShipped(String),
    /// Not an architecture name.
    UnknownArch(String),
    /// Not a locale of the manifests.
    UnknownLocale(String),
    /// Not a region of the manifests.
    UnknownRegion(String),
}

/// One of `words` equals `s`.
pub open spec fn one_of(s: Seq<char>, words: Seq<Seq<char>>) -> bool {
    exists|i: int| 0 <= i < words.len() && #[trigger] words[i] == s
}

proof fn lemma_one_of3(s: Seq<char>, a: Seq<char>, b: Seq<char>, c: Seq<char>)
    ensures
        one_of(s, seq![a, b, c]) == (s == a || s == b || s == c),
        one_of(s, seq![a]) == (s == a),
{
    let w = seq![a, b, c];
    if s == a {
        assert(w[0] == s);
        assert(seq![a][0] == s);
    }
    if s == b {
        assert(w[1] == s);
    }
    if s == c {
        assert(w[2] == s);
    }
}

fn is_one_of(s: &[char], words: Vec<&str>) -> (r: bool)
    ensures
        r == one_of(s@, words@.map_values(|w: &str| w@)),
{
    let ghost wv = words@.map_values(|w: &str| w@);
    let mut i: usize = 0;
    while i < words.len()
        invariant
            i <= words@.len(),
            wv == words@.map_values(|w: &str| w@),
            forall|j: int| 0 <= j < i ==> #[trigger] wv[j] != s@,
        decreases words@.len() - i,
    {
        let w = chars_of(words[i]);
        assert(wv[i as int] == w@);
        if chars_eq(w.as_slice(), s) {
            return true;
        }
        i += 1;
    }
    false
}

/// The manifest tag of a platform.
pub open spec fn os_tag(os: Os) -> Seq<char> {
    match os {
        Os::Windows => "Windows"@,
        Os::MacOs => "OSX"@,
    }
}

/// The manifest tag of an architecture.
pub open spec fn arch_tag(arch: Arch) -> Seq<char> {
    match arch {
        Arch::X86_64 => "x86_64"@,
        Arch::Arm64 => "arm64"@,
    }
}

/// What [`Os::parse`] yields for `text`, by its ASCII lower case.
pub open spec fn spec_os(text: Seq<char>) -> Option<Os> {
    let t = lower_ascii(text);
    if one_of(t, seq!["windows"@, "win"@, "win64"@]) {
        Some(Os::Windows)
    } else if one_of(t, seq!["macos"@, "mac"@, "osx"@]) {
        Some(Os::MacOs)
    } else {
        None
    }
}

/// What [`Arch::parse`] yields for `text`, by its ASCII lower case.
pub open spec fn spec_arch(text: Seq<char>) -> Option<Arch> {
    let t = lower_ascii(text);
    if one_of(t, seq!["x86_64"@, "x64"@, "amd64"@]) {
        Some(Arch::X86_64)
    } else if one_of(t, seq!["arm64"@, "aarch64"@]) {
        Some(Arch::Arm64)
    } else {
        None
    }
}

impl Os {
    /// The manifest tag of the platform.
    pub fn tag(self) -> (r: &'static str)
        ensures
            r@ == os_tag(self),
    {
        match self {
            Os::Windows => "Windows",
            Os::MacOs => "OSX",
        }
    }

    /// The command-line name of the platform.
    pub fn name(self) -> (r: &'static str)
        ensures
            r@ == match self {
                Os::Windows => "windows"@,
                Os::MacOs => "macos"@,
            },
    {
        match self {
            Os::Windows => "windows",
            Os::MacOs => "macos",
        }
    }

    /// Parses a platform name, ignoring ASCII case.
    pub fn parse(text: &str) -> (r: Result<Os, SelectionError>)
        ensures
            match spec_os(text@) {
                Some(o) => r == Ok::<Os, SelectionError>(o),
                None => match r {
                    Err(SelectionError::NoClient(t)) => t@ == text@ && one_of(lower_ascii(text@), seq!["android"@, "ios"@, "web"@]),
                    Err(SelectionError::UnknownOs(t)) => t@ == text@ && !one_of(lower_ascii(text@), seq!["android"@, "ios"@, "web"@]),
                    _ => false,
                },
            },
    {
        let t = lower_ascii_chars(chars_of(text).as_slice());
        let w1 = vec!["windows", "win", "win64"];
        let w2 = vec!["macos", "mac", "osx"];
        let w3 = vec!["android", "ios", "web"];
        assert(w1@.map_values(|w: &str| w@) =~= seq!["windows"@, "win"@, "win64"@]);
        assert(w2@.map_values(|w: &str| w@) =~= seq!["macos"@, "mac"@, "osx"@]);
        assert(w3@.map_values(|w: &str| w@) =~= seq!["android"@, "ios"@, "web"@]);
        if is_one_of(t.as_slice(), w1) {
            Ok(Os::Windows)
        } else if is_one_of(t.as_slice(), w2) {
            Ok(Os::MacOs)
        } else if is_one_of(t.as_slice(), w3) {
            Err(SelectionError::NoClient(string_of(chars_of(text).as_slice())))
        } else {
            Err(SelectionError::UnknownOs(string_of(chars_of(text).as_slice())))
        }
    }
}

impl Arch {
    /// The manifest tag of the architecture.
    pub fn tag(self) -> (r: &'static str)
        ensures
            r@ == arch_tag(self),
    {
        match self {
            Arch::X86_64 => "x86_64",
            Arch::Arm64 => "arm64",
        }
    }

    /// The command-line name of the architecture (its tag).
    pub fn name(self) -> (r: &'static str)
        ensures
            r@ == match self {
                Arch::X86_64 => "x86_64"@,
                Arch::Arm64 => "arm64"@,
            },
    {
        self.tag()
    }

    /// Parses an architecture name, ignoring ASCII case.
    pub fn parse(text: &str) -> (r: Result<Arch, SelectionError>)
        ensures
            match spec_arch(text@) {
                Some(a) => r == Ok::<Arch, SelectionError>(a),
                None => match r {
                    Err(SelectionError::NoLongerShipped(t)) => t@ == text@ && one_of(
                        lower_ascii(text@),
                        seq!["x86_32"@, "x86"@, "i386"@, "i686"@, "win32"@],
                    ),
                    Err(SelectionError::UnknownArch(t)) => t@ == text@ && !one_of(
                        lower_ascii(text@),
                        seq!["x86_32"@, "x86"@, "i386"@, "i686"@, "win32"@],
                    ),
                    _ => false,
                },
            },
    {
        let t = lower_ascii_chars(chars_of(text).as_slice());
        let w1 = vec!["x86_64", "x64", "amd64"];
        let w2 = vec!["arm64", "aarch64"];
        let w3 = vec!["x86_32", "x86", "i386", "i686", "win32"];
        assert(w1@.map_values(|w: &str| w@) =~= seq!["x86_64"@, "x64"@, "amd64"@]);
        assert(w2@.map_values(|w: &str| w@) =~= seq!["arm64"@, "aarch64"@]);
        assert(w3@.map_values(|w: &str| w@) =~= seq!["x86_32"@, "x86"@, "i386"@, "i686"@, "win32"@]);
        if is_one_of(t.as_slice(), w1) {
            Ok(Arch::X86_64)
        } else if is_one_of(t.as_slice(), w2) {
            Ok(Arch::Arm64)
        } else if is_one_of(t.as_slice(), w3) {
            Err(SelectionError::NoLongerShipped(string_of(chars_of(text).as_slice())))
        } else {
            Err(SelectionError::UnknownArch(string_of(chars_of(text).as_slice())))
        }
    }
}

/// The first of `words` that equals `text` ignoring ASCII case.
pub open spec fn first_ignoring_case(words: Seq<Seq<char>>, text: Seq<char>) -> Option<int> {
    if exists|i: int| 0 <= i < words.len() && eq_ignore_case(#[trigger] words[i], text) && (forall|j: int|
        0 <= j < i ==> !eq_ignore_case(#[trigger] words[j], text)) {
        Some(
            choose|i: int|
                0 <= i < words.len() && eq_ignore_case(#[trigger] words[i], text) && (forall|j: int|
                    0 <= j < i ==> !eq_ignore_case(#[trigger] words[j], text)),
        )
    } else {
        None
    }
}

fn find_ignoring_case(words: Vec<&'static str>, text: &str) -> (r: Option<&'static str>)
    ensures
        match first_ignoring_case(words@.map_values(|w: &str| w@), text@) {
            Some(i) => r matches Some(w) && w@ == words@[i]@,
            None => r is None,
        },
{
    let ghost wv = words@.map_values(|w: &str| w@);
    let t = chars_of(text);
    let mut i: usize = 0;
    while i < words.len()
        invariant
            i <= words@.len(),
            wv == words@.map_values(|w: &str| w@),
            t@ == text@,
            forall|j: int| 0 <= j < i ==> !eq_ignore_case(#[trigger] wv[j], text@),
        decreases words@.len() - i,
    {
        let w = chars_of(words[i]);
        assert(wv[i as int] == w@);
        if chars_eq_ignore_case(w.as_slice(), t.as_slice()) {
            proof {
                let k = choose|k: int|
                    0 <= k < wv.len() && eq_ignore_case(#[trigger] wv[k], text@) && (forall|j: int|
                        0 <= j < k ==> !eq_ignore_case(#[trigger] wv[j], text@));
                assert(eq_ignore_case(wv[i as int], text@));
                if k < i {
                } else if k > i {
                    assert(!eq_ignore_case(wv[i as int], text@));
                }
            }
            return Some(words[i]);
        }
        i += 1;
    }
    None
}

/// The locale tag that `text` names, ignoring ASCII case.
pub open spec fn spec_locale(text: Seq<char>) -> Option<Seq<char>> {
    match first_ignoring_case(locale_names(), text) {
        Some(i) => Some(locale_names()[i]),
        None => None,
    }
}

/// The region tag that `text` names, ignoring ASCII case.
pub open spec fn spec_region(text: Seq<char>) -> Option<Seq<char>> {
    match first_ignoring_case(region_names(), text) {
        Some(i) => Some(region_names()[i]),
        None => None,
    }
}

fn locale_tag(text: &str) -> (r: Result<&'static str, SelectionError>)
    ensures
        match spec_locale(text@) {
            Some(l) => r matches Ok(t) && t@ == l,
            None => r matches Err(SelectionError::UnknownLocale(t)) && t@ == text@,
        },
{
    match find_ignoring_case(locales(), text) {
        Some(l) => Ok(l),
        None => Err(SelectionError::UnknownLocale(string_of(chars_of(text).as_slice()))),
    }
}

/// The region the Agent uses for a locale.
pub open spec fn spec_default_region(locale: Seq<char>) -> Seq<char> {
    if locale == "enUS"@ || locale == "esMX"@ || locale == "ptBR"@ {
        "US"@
    } else if locale == "koKR"@ {
        "KR"@
    } else if locale == "zhTW"@ {
        "TW"@
    } else if locale == "zhCN"@ {
        "CN"@
    } else {
        "EU"@
    }
}

/// Region the Agent uses for a locale.
pub fn default_region(locale: &str) -> (r: &'static str)
    ensures
        r@ == spec_default_region(locale@),
{
    let l = chars_of(locale);
    let us = vec!["enUS", "esMX", "ptBR"];
    let kr = vec!["koKR"];
    let tw = vec!["zhTW"];
    let cn = vec!["zhCN"];
    assert(us@.map_values(|w: &str| w@) =~= seq!["enUS"@, "esMX"@, "ptBR"@]);
    assert(kr@.map_values(|w: &str| w@) =~= seq!["koKR"@]);
    assert(tw@.map_values(|w: &str| w@) =~= seq!["zhTW"@]);
    assert(cn@.map_values(|w: &str| w@) =~= seq!["zhCN"@]);
    proof {
        lemma_one_of3(locale@, "enUS"@, "esMX"@, "ptBR"@);
        lemma_one_of3(locale@, "koKR"@, "koKR"@, "koKR"@);
        lemma_one_of3(locale@, "zhTW"@, "zhTW"@, "zhTW"@);
        lemma_one_of3(locale@, "zhCN"@, "zhCN"@, "zhCN"@);
    }
    if is_one_of(l.as_slice(), us) {
        "US"
    } else if is_one_of(l.as_slice(), kr) {
        "KR"
    } else if is_one_of(l.as_slice(), tw) {
        "TW"
    } else if is_one_of(l.as_slice(), cn) {
        "CN"
    } else {
        "EU"
    }
}

/// The user's selection.
#[derive(Debug, Clone, PartialEq, Eq)]
pub struct Selection {
    pub os: Os,
    pub arch: Arch,
    pub speech: &'static str,
    pub text: &'static str,
    pub region: &'static str,
}

/// What [`Selection::new`] yields: the locale tag (default for speech and
/// text), the region named or else the locale's default; the first unknown
/// name, in that order, is the error.
pub open spec fn spec_selection(
    locale: Seq<char>,
    speech: Option<Seq<char>>,
    text: Option<Seq<char>>,
    region: Option<Seq<char>>,
) -> Option<(Seq<char>, Seq<char>, Seq<char>)> {
    match spec_locale(locale) {
        None => None,
        Some(l) => {
            let r = match region {
                Some(r) => spec_region(r),
                None => Some(spec_default_region(l)),
            };
            let s = match speech {
                Some(s) => spec_locale(s),
                None => Some(l),
            };
            let t = match text {
                Some(t) => spec_locale(t),
                None => Some(l),
            };
            if r is Some && s is Some && t is Some {
                Some((s.unwrap(), t.unwrap(), r.unwrap()))
            } else {
                None
            }
        },
    }
}

/// `unknown locale <text>; available: ...`.
pub open spec fn unknown_locale_text(t: Seq<char>) -> Seq<char> {
    "unknown locale "@ + t + "; available: deDE enUS esES esMX frFR koKR ptBR ruRU zhCN zhTW"@
}

/// `unknown region <text>; available: ...`.
pub open spec fn unknown_region_text(t: Seq<char>) -> Seq<char> {
    "unknown region "@ + t + "; available: CN EU KR TW US"@
}

/// `--os <text>: ... ships no <text> client ...`.
pub open spec fn no_client_text(t: Seq<char>) -> Seq<char> {
    "--os "@ + t + ": the manifests tag "@ + t + " content, but Blizzard ships no "@ + t
        + " client for this build; use windows or macos"@
}

/// `--os <text>: expected windows or macos`.
pub open spec fn unknown_os_text(t: Seq<char>) -> Seq<char> {
    "--os "@ + t + ": expected windows or macos"@
}

/// `--arch <text>: 32-bit clients are no longer shipped; ...`.
pub open spec fn no_longer_shipped_text(t: Seq<char>) -> Seq<char> {
    "--arch "@ + t + ": 32-bit clients are no longer shipped; use x86_64 or arm64"@
}

/// `--arch <text>: expected x86_64 or arm64`.
pub open spec fn unknown_arch_text(t: Seq<char>) -> Seq<char> {
    "--arch "@ + t + ": expected x86_64 or arm64"@
}

/// The message of a refused selection.
pub open spec fn selection_error_text(e: SelectionError) -> Seq<char> {
    match e {
        SelectionError::NoClient(t) => no_client_text(t@),
        SelectionError::UnknownOs(t) => unknown_os_text(t@),
        SelectionError::NoLongerShipped(t) => no_longer_shipped_text(t@),
        SelectionError::UnknownArch(t) => unknown_arch_text(t@),
        SelectionError::UnknownLocale(t) => unknown_locale_text(t@),
        SelectionError::UnknownRegion(t) => unknown_region_text(t@),
    }
}

/// The message of the first name that [`Selection::new`] refuses: the
/// locale, the region, the speech locale, the text locale.
pub open spec fn spec_selection_error(
    locale: Seq<char>,
    speech: Option<Seq<char>>,
    text: Option<Seq<char>>,
    region: Option<Seq<char>>,
) -> Seq<char> {
    if spec_locale(locale) is None {
        unknown_locale_text(locale)
    } else if region is Some && spec_region(region->0) is None {
        unknown_region_text(region->0)
    } else if speech is Some && spec_locale(speech->0) is None {
        unknown_locale_text(speech->0)
    } else {
        unknown_locale_text(text->0)
    }
}

impl SelectionError {
    /// The message of the error.
    pub fn message(&self) -> (r: String)
        ensures
            r@ == selection_error_text(*self),
    {
        let mut out: Vec<char> = Vec::new();
        match self {
            SelectionError::NoClient(t) => {
                push_str(&mut out, "--os ");
                push_str(&mut out, t.as_str());
                push_str(&mut out, ": the manifests tag ");
                push_str(&mut out, t.as_str());
                push_str(&mut out, " content, but Blizzard ships no ");
                push_str(&mut out, t.as_str());
                push_str(&mut out, " client for this build; use windows or macos");
            },
            SelectionError::UnknownOs(t) => {
                push_str(&mut out, "--os ");
                push_str(&mut out, t.as_str());
                push_str(&mut out, ": expected windows or macos");
            },
            SelectionError::NoLongerShipped(t) => {
                push_str(&mut out, "--arch ");
                push_str(&mut out, t.as_str());
                push_str(&mut out, ": 32-bit clients are no longer shipped; use x86_64 or arm64");
            },
            SelectionError::UnknownArch(t) => {
                push_str(&mut out, "--arch ");
                push_str(&mut out, t.as_str());
                push_str(&mut out, ": expected x86_64 or arm64");
            },
            SelectionError::UnknownLocale(t) => {
                push_str(&mut out, "unknown locale ");
                push_str(&mut out, t.as_str());
                push_str(&mut out, "; available: deDE enUS esES esMX frFR koKR ptBR ruRU zhCN zhTW");
            },
            SelectionError::UnknownRegion(t) => {
                push_str(&mut out, "unknown region ");
                push_str(&mut out, t.as_str());
                push_str(&mut out, "; available: CN EU KR TW US");
            },
        }
        let r = string_of(out.as_slice());
        assert(r@ =~= selection_error_text(*self));
        r
    }
}

/// The model of an optional text.
pub open spec fn opt_text(s: Option<&str>) -> Option<Seq<char>> {
    match s {
        Some(s) => Some(s@),
        None => None,
    }
}

/// `{os} {arch} {region}? {speech} speech?:{os} {arch} {region}? {text} text?`.
pub open spec fn spec_agent_tags(os: Seq<char>, arch: Seq<char>, region: Seq<char>, speech: Seq<char>, text: Seq<char>) -> Seq<char> {
    os + seq![' '] + arch + seq![' '] + region + "? "@ + speech + " speech?:"@ + os + seq![' '] + arch + seq![' ']
        + region + "? "@ + text + " text?"@
}

impl Selection {
    /// The selection of a platform and locale names.
    pub fn new(
        os: Os,
        arch: Arch,
        locale: &str,
        speech: Option<&str>,
        text: Option<&str>,
        region: Option<&str>,
    ) -> (r: Result<Self, SelectionError>)
        ensures
            match spec_selection(locale@, opt_text(speech), opt_text(text), opt_text(region)) {
                Some((s, t, g)) => r matches Ok(sel) && sel.os == os && sel.arch == arch && sel.speech@ == s
                    && sel.text@ == t && sel.region@ == g,
                None => r matches Err(e) && selection_error_text(e) == spec_selection_error(
                    locale@,
                    opt_text(speech),
                    opt_text(text),
                    opt_text(region),
                ),
            },
    {
        let locale = match locale_tag(locale) {
            Ok(l) => l,
            Err(e) => return Err(e),
        };
        let region = match region {
            Some(r) => match find_ignoring_case(regions(), r) {
                Some(x) => x,
                None => return Err(SelectionError::UnknownRegion(string_of(chars_of(r).as_slice()))),
            },
            None => default_region(locale),
        };
        let speech = match speech {
            Some(s) => match locale_tag(s) {
                Ok(l) => l,
                Err(e) => return Err(e),
            },
            None => locale,
        };
        let text = match text {
            Some(s) => match locale_tag(s) {
                Ok(l) => l,
                Err(e) => return Err(e),
            },
            None => locale,
        };
        Ok(Selection { os, arch, speech, text, region })
    }

    /// The Agent's `.build.info` `Tags` value for this selection.
    pub fn agent_tags(&self) -> (r: String)
        ensures
            r@ == spec_agent_tags(os_tag(self.os), arch_tag(self.arch), self.region@, self.speech@, self.text@),
    {
        let os = self.os.tag();
        let arch = self.arch.tag();
        let mut out: Vec<char> = Vec::new();
        push_str(&mut out, os);
        out.push(' ');
        push_str(&mut out, arch);
        out.push(' ');
        push_str(&mut out, self.region);
        push_str(&mut out, "? ");
        push_str(&mut out, self.speech);
        push_str(&mut out, " speech?:");
        push_str(&mut out, os);
        out.push(' ');
        push_str(&mut out, arch);
        out.push(' ');
        push_str(&mut out, self.region);
        push_str(&mut out, "? ");
        push_str(&mut out, self.text);
        push_str(&mut out, " text?");
        let r = string_of(out.as_slice());
        assert(r@ =~= spec_agent_tags(os@, arch@, self.region@, self.speech@, self.text@));
        r
    }

    /// `.build.info` branch (lower-case region).
    pub fn branch(&self) -> (r: String)
        ensures
            r@ == lower_ascii(self.region@),
    {
        string_of(lower_ascii_chars(chars_of(self.region).as_slice()).as_slice())
    }
}


/// Options of the commands that talk to the network.
#[derive(Debug, Clone)]
pub struct NetOptions {
    /// Port of the temporary local server (`0`: any free port).
    pub port: u16,
    pub mirror: Option<String>,
    /// Directory of the on-disk cache.
    pub cache: Option<String>,
    pub threads: usize,
}

/// Options of `download`.
#[derive(Debug, Clone)]
pub struct DownloadOptions {
    /// Install directory.
    pub output: String,
    pub selection: Selection,
    pub net: NetOptions,
    pub dry_run: bool,
    /// Cap on the number of tagged files.
    pub limit_files: Option<usize>,
    /// Cap on the bytes of tagged files.
    pub limit_bytes: Option<u64>,
    /// File data ids forced in.
    pub include_fdids: Vec<u32>,
    /// Only rewrite the `.idx` files and complete `Data/indices`.
    pub indices_only: bool,
}

/// Options of `serve`.
#[derive(Debug, Clone)]
pub struct ServeOptions {
    /// Address to listen on, as given (`127.0.0.1` unless set).
    pub bind: String,
    pub port: u16,
    pub mirror: Option<String>,
    pub cache: Option<String>,
}

/// A parsed command line.
#[derive(Debug)]
pub enum Command {
    Download(DownloadOptions),
    Serve(ServeOptions),
    List(NetOptions),
    Help,
}

/// Why a command line is refused.
#[derive(Debug, Clone)]
pub enum CliError {
    Selection(SelectionError),
    /// A flag without its value.
    NeedsValue(String),
    /// A flag whose value is not a number of its type.
    InvalidNumber { flag: String, text: String },
    UnknownOption(String),
    /// `--threads` outside `1..=32`.
    Threads,
    /// `download` without `--output`.
    NeedsOutput,
    UnknownCommand(String),
}

/// The usage text.
pub const USAGE: &'static str = "\
wow-client-downloader - download the WoW Classic 3.4.3.54261 client (wow_classic)

USAGE:
  wow-client-downloader download --output <dir> [options]
  wow-client-downloader list [--port P] [--mirror URL | --no-mirror] [--cache <dir>]
  wow-client-downloader serve [--port P] [--bind 127.0.0.1] [--mirror URL | --no-mirror] [--cache <dir>]

DOWNLOAD OPTIONS:
  --output <dir>      install directory (gets .build.info, Data/, _classic_/)
  --os windows|macos  client platform (default windows)
  --arch x86_64|arm64 client architecture (default x86_64)
  --locale <xxYY>     game locale (default enUS): deDE enUS esES esMX frFR koKR ptBR ruRU zhCN zhTW
  --speech <xxYY>     speech locale (default: --locale)
  --text <xxYY>       text locale (default: --locale)
  --region EU|US|KR|TW|CN  region (default derived from the locale)
  --threads N         parallel CDN connections (default 4)
  --dry-run           resolve manifests and print file count and size; write nothing
  --indices-only      existing install: rewrite the .idx files and fetch/build missing
                      Data/indices (archives, patch archives, groups, file indices);
                      data.### are not touched

COMMON OPTIONS:
  --port P            port of the temporary local server (default: random for download/list, 1119 for serve)
  --mirror URL        fallback mirror (default https://archive.wow.tools)
  --no-mirror         only use Blizzard's CDN
  --cache <dir>       on-disk cache of complete CDN files served by the local proxy
";

/// The text that `{:?}` makes of a string (quoted, with escapes).
pub uninterp spec fn debug_text(s: Seq<char>) -> Seq<char>;

/// `format!("{:?}", s)` (std `Debug` for `str`): the result is the text
/// named [`debug_text`] of `s`. How characters are escaped is left unsaid.
#[verifier::external_body]
pub(crate) fn debug_string(s: &str) -> (r: String)
    ensures
        r@ == debug_text(s@),
{
    format!("{:?}", s)
}

/// `<flag> needs a value`.
pub open spec fn needs_value_text(flag: Seq<char>) -> Seq<char> {
    flag + " needs a value"@
}

/// `<flag>: invalid number <text quoted>`.
pub open spec fn invalid_number_text(flag: Seq<char>, text: Seq<char>) -> Seq<char> {
    flag + ": invalid number "@ + debug_text(text)
}

/// `unknown option <flag>`, then the usage.
pub open spec fn unknown_option_text(flag: Seq<char>) -> Seq<char> {
    "unknown option "@ + flag + "\n\n"@ + USAGE@
}

/// `unknown command <name>`, then the usage.
pub open spec fn unknown_command_text(name: Seq<char>) -> Seq<char> {
    "unknown command "@ + name + "\n\n"@ + USAGE@
}

/// The message of a refused command line.
pub open spec fn cli_error_text(e: CliError) -> Seq<char> {
    match e {
        CliError::Selection(s) => selection_error_text(s),
        CliError::NeedsValue(f) => needs_value_text(f@),
        CliError::InvalidNumber { flag, text } => invalid_number_text(flag@, text@),
        CliError::UnknownOption(f) => unknown_option_text(f@),
        CliError::Threads => "--threads must be between 1 and 32"@,
        CliError::NeedsOutput => "download needs --output <dir>"@,
        CliError::UnknownCommand(c) => unknown_command_text(c@),
    }
}

impl CliError {
    /// The message of the error.
    pub fn message(&self) -> (r: String)
        ensures
            r@ == cli_error_text(*self),
    {
        match self {
            CliError::Selection(e) => e.message(),
            CliError::NeedsValue(f) => {
                let mut out: Vec<char> = Vec::new();
                push_str(&mut out, f.as_str());
                push_str(&mut out, " needs a value");
                string_of(out.as_slice())
            },
            CliError::InvalidNumber { flag, text } => {
                let mut out: Vec<char> = Vec::new();
                push_str(&mut out, flag.as_str());
                push_str(&mut out, ": invalid number ");
                let q = debug_string(text.as_str());
                push_str(&mut out, q.as_str());
                string_of(out.as_slice())
            },
            CliError::UnknownOption(f) => {
                let mut out: Vec<char> = Vec::new();
                push_str(&mut out, "unknown option ");
                push_str(&mut out, f.as_str());
                push_str(&mut out, "\n\n");
                push_str(&mut out, USAGE);
                string_of(out.as_slice())
            },
            CliError::Threads => string_of(chars_of("--threads must be between 1 and 32").as_slice()),
            CliError::NeedsOutput => string_of(chars_of("download needs --output <dir>").as_slice()),
            CliError::UnknownCommand(c) => {
                let mut out: Vec<char> = Vec::new();
                push_str(&mut out, "unknown command ");
                push_str(&mut out, c.as_str());
                push_str(&mut out, "\n\n");
                push_str(&mut out, USAGE);
                string_of(out.as_slice())
            },
        }
    }
}

/// The options read so far from a command line.
#[verifier::ext_equal]
pub struct ArgsModel {
    pub output: Option<Seq<char>>,
    pub os: Os,
    pub arch: Arch,
    pub locale: Seq<char>,
    pub speech: Option<Seq<char>>,
    pub text: Option<Seq<char>>,
    pub region: Option<Seq<char>>,
    pub threads: usize,
    pub port: Option<u16>,
    pub bind: Seq<char>,
    pub mirror: Option<Seq<char>>,
    pub cache: Option<Seq<char>>,
    pub dry_run: bool,
    pub indices_only: bool,
    pub limit_files: Option<usize>,
    pub limit_bytes: Option<u64>,
    pub include_fdids: Seq<u32>,
}

/// The defaults.
pub open spec fn initial_args() -> ArgsModel {
    ArgsModel {
        output: None,
        os: Os::Windows,
        arch: Arch::X86_64,
        locale: "enUS"@,
        speech: None,
        text: None,
        region: None,
        threads: 4,
        port: None,
        bind: "127.0.0.1"@,
        mirror: Some(DEFAULT_MIRROR@),
        cache: None,
        dry_run: false,
        indices_only: false,
        limit_files: None,
        limit_bytes: None,
        include_fdids: Seq::empty(),
    }
}

/// The message of a refused platform name.
pub open spec fn os_error_text(t: Seq<char>) -> Seq<char> {
    if one_of(lower_ascii(t), seq!["android"@, "ios"@, "web"@]) {
        no_client_text(t)
    } else {
        unknown_os_text(t)
    }
}

/// The message of a refused architecture name.
pub open spec fn arch_error_text(t: Seq<char>) -> Seq<char> {
    if one_of(lower_ascii(t), seq!["x86_32"@, "x86"@, "i386"@, "i686"@, "win32"@]) {
        no_longer_shipped_text(t)
    } else {
        unknown_arch_text(t)
    }
}

/// The unsigned number that `t` is (`FromStr`), when it is at most `max`.
pub open spec fn number_in(t: Seq<char>, max: int) -> Option<u64> {
    match parse_u64_spec(t) {
        Some(n) => if n <= max {
            Some(n)
        } else {
            None
        },
        None => None,
    }
}

/// The ids of the comma-separated `pieces`, each trimmed, or the message of
/// the first that is no `u32`.
pub open spec fn fdids_of(pieces: Seq<Seq<char>>) -> Result<Seq<u32>, Seq<char>>
    decreases pieces.len(),
{
    if pieces.len() == 0 {
        Ok(Seq::empty())
    } else {
        match fdids_of(pieces.drop_last()) {
            Err(e) => Err(e),
            Ok(ids) => match number_in(trim(pieces.last()), u32::MAX as int) {
                Some(n) => Ok(ids.push(n as u32)),
                None => Err(invalid_number_text("--include-fdid"@, trim(pieces.last()))),
            },
        }
    }
}

/// The flags that take a value.
pub open spec fn takes_value(f: Seq<char>) -> bool {
    f == "--output"@ || f == "-o"@ || f == "--os"@ || f == "--arch"@ || f == "--locale"@ || f == "--speech"@
        || f == "--text"@ || f == "--region"@ || f == "--threads"@ || f == "--port"@ || f == "--bind"@
        || f == "--mirror"@ || f == "--cache"@ || f == "--limit-files"@ || f == "--limit-bytes"@
        || f == "--include-fdid"@
}

/// The options after the flag `f` (one that takes a value) with value `v`.
pub open spec fn with_value(f: Seq<char>, v: Seq<char>, st: ArgsModel) -> Result<ArgsModel, Seq<char>> {
    if f == "--output"@ || f == "-o"@ {
        Ok(ArgsModel { output: Some(v), ..st })
    } else if f == "--os"@ {
        match spec_os(v) {
            Some(o) => Ok(ArgsModel { os: o, ..st }),
            None => Err(os_error_text(v)),
        }
    } else if f == "--arch"@ {
        match spec_arch(v) {
            Some(a) => Ok(ArgsModel { arch: a, ..st }),
            None => Err(arch_error_text(v)),
        }
    } else if f == "--locale"@ {
        Ok(ArgsModel { locale: v, ..st })
    } else if f == "--speech"@ {
        Ok(ArgsModel { speech: Some(v), ..st })
    } else if f == "--text"@ {
        Ok(ArgsModel { text: Some(v), ..st })
    } else if f == "--region"@ {
        Ok(ArgsModel { region: Some(v), ..st })
    } else if f == "--threads"@ {
        match number_in(v, usize::MAX as int) {
            Some(n) => Ok(ArgsModel { threads: n as usize, ..st }),
            None => Err(invalid_number_text(f, v)),
        }
    } else if f == "--port"@ {
        match number_in(v, u16::MAX as int) {
            Some(n) => Ok(ArgsModel { port: Some(n as u16), ..st }),
            None => Err(invalid_number_text(f, v)),
        }
    } else if f == "--bind"@ {
        Ok(ArgsModel { bind: v, ..st })
    } else if f == "--mirror"@ {
        Ok(ArgsModel { mirror: Some(trim_end_char(v, '/')), ..st })
    } else if f == "--cache"@ {
        Ok(ArgsModel { cache: Some(v), ..st })
    } else if f == "--limit-files"@ {
        match number_in(v, usize::MAX as int) {
            Some(n) => Ok(ArgsModel { limit_files: Some(n as usize), ..st }),
            None => Err(invalid_number_text(f, v)),
        }
    } else if f == "--limit-bytes"@ {
        match number_in(v, u64::MAX as int) {
            Some(n) => Ok(ArgsModel { limit_bytes: Some(n), ..st }),
            None => Err(invalid_number_text(f, v)),
        }
    } else {
        match fdids_of(split_char(v, ',')) {
            Ok(ids) => Ok(ArgsModel { include_fdids: st.include_fdids + ids, ..st }),
            Err(e) => Err(e),
        }
    }
}

/// The flags after position `p` applied to `st`: `Ok(None)` for a help
/// flag, or the message of the first refused flag.
pub open spec fn scan_args(a: Seq<Seq<char>>, p: int, st: ArgsModel) -> Result<Option<ArgsModel>, Seq<char>>
    decreases a.len() - p,
{
    if p < 0 || p + 1 >= a.len() {
        Ok(Some(st))
    } else {
        let f = a[p + 1];
        if f == "-h"@ || f == "--help"@ {
            Ok(None)
        } else if f == "--no-mirror"@ {
            scan_args(a, p + 1, ArgsModel { mirror: None, ..st })
        } else if f == "--dry-run"@ {
            scan_args(a, p + 1, ArgsModel { dry_run: true, ..st })
        } else if f == "--indices-only"@ {
            scan_args(a, p + 1, ArgsModel { indices_only: true, ..st })
        } else if !takes_value(f) {
            Err(unknown_option_text(f))
        } else if p + 2 >= a.len() {
            Err(needs_value_text(f))
        } else {
            match with_value(f, a[p + 2], st) {
                Err(e) => Err(e),
                Ok(next) => scan_args(a, p + 2, next),
            }
        }
    }
}

/// The command a command line names.
pub enum CommandKind {
    Download,
    Serve,
    List,
    Help,
}

/// What [`parse`] yields for the arguments `a`: the command and the
/// options it is given, or the message of the refusal.
pub open spec fn spec_parse(a: Seq<Seq<char>>) -> Result<(CommandKind, ArgsModel), Seq<char>> {
    if a.len() == 0 {
        Ok((CommandKind::Help, initial_args()))
    } else {
        match scan_args(a, 0, initial_args()) {
            Err(e) => Err(e),
            Ok(None) => Ok((CommandKind::Help, initial_args())),
            Ok(Some(st)) => {
                let c = a[0];
                if !(1 <= st.threads <= 32) {
                    Err("--threads must be between 1 and 32"@)
                } else if c == "download"@ {
                    if st.output is None {
                        Err("download needs --output <dir>"@)
                    } else if spec_selection(st.locale, st.speech, st.text, st.region) is None {
                        Err(spec_selection_error(st.locale, st.speech, st.text, st.region))
                    } else {
                        Ok((CommandKind::Download, st))
                    }
                } else if c == "list"@ {
                    Ok((CommandKind::List, st))
                } else if c == "serve"@ {
                    Ok((CommandKind::Serve, st))
                } else if c == "help"@ || c == "-h"@ || c == "--help"@ {
                    Ok((CommandKind::Help, st))
                } else {
                    Err(unknown_command_text(c))
                }
            },
        }
    }
}

/// The texts of optional strings.
pub open spec fn opt_view(o: Option<String>) -> Option<Seq<char>> {
    match o {
        Some(s) => Some(s@),
        None => None,
    }
}

/// The texts of the arguments.
pub open spec fn args_view(v: Seq<String>) -> Seq<Seq<char>> {
    v.map_values(|s: String| s@)
}

/// `n` holds the network options of `st`, with port `dflt` when none is
/// given.
pub open spec fn net_of(n: NetOptions, st: ArgsModel, dflt: u16) -> bool {
    &&& n.port == match st.port {
        Some(p) => p,
        None => dflt,
    }
    &&& opt_view(n.mirror) == st.mirror
    &&& opt_view(n.cache) == st.cache
    &&& n.threads == st.threads
}

/// `c` is the command `kind` with the options `st`.
pub open spec fn command_of(c: Command, kind: CommandKind, st: ArgsModel) -> bool {
    match c {
        Command::Help => kind is Help,
        Command::List(n) => kind is List && net_of(n, st, 0),
        Command::Serve(o) => kind is Serve && o.bind@ == st.bind && o.port == match st.port {
            Some(p) => p,
            None => 1119,
        } && opt_view(o.mirror) == st.mirror && opt_view(o.cache) == st.cache,
        Command::Download(o) => kind is Download && st.output == Some(o.output@) && net_of(o.net, st, 0)
            && o.selection.os == st.os && o.selection.arch == st.arch && spec_selection(
            st.locale,
            st.speech,
            st.text,
            st.region,
        ) == Some((o.selection.speech@, o.selection.text@, o.selection.region@)) && o.dry_run == st.dry_run
            && o.limit_files == st.limit_files && o.limit_bytes == st.limit_bytes && o.include_fdids@
            == st.include_fdids && o.indices_only == st.indices_only,
    }
}


/// The options read so far, as the parser holds them.
struct ArgFlags {
    output: Option<String>,
    os: Os,
    arch: Arch,
    locale: String,
    speech: Option<String>,
    text: Option<String>,
    region: Option<String>,
    threads: usize,
    port: Option<u16>,
    bind: String,
    mirror: Option<String>,
    cache: Option<String>,
    dry_run: bool,
    indices_only: bool,
    limit_files: Option<usize>,
    limit_bytes: Option<u64>,
    include_fdids: Vec<u32>,
}

/// The model of the options held.
spec fn flags_model(f: ArgFlags) -> ArgsModel {
    ArgsModel {
        output: opt_view(f.output),
        os: f.os,
        arch: f.arch,
        locale: f.locale@,
        speech: opt_view(f.speech),
        text: opt_view(f.text),
        region: opt_view(f.region),
        threads: f.threads,
        port: f.port,
        bind: f.bind@,
        mirror: opt_view(f.mirror),
        cache: opt_view(f.cache),
        dry_run: f.dry_run,
        indices_only: f.indices_only,
        limit_files: f.limit_files,
        limit_bytes: f.limit_bytes,
        include_fdids: f.include_fdids@,
    }
}

fn is_word(f: &[char], w: &str) -> (r: bool)
    ensures
        r == (f@ == w@),
{
    let wc = chars_of(w);
    chars_eq(f, wc.as_slice())
}

fn text_copy(s: &str) -> (r: String)
    ensures
        r@ == s@,
{
    string_of(chars_of(s).as_slice())
}

fn opt_copy(o: &Option<String>) -> (r: Option<String>)
    ensures
        opt_view(r) == opt_view(*o),
{
    match o {
        Some(s) => Some(text_copy(s.as_str())),
        None => None,
    }
}

fn opt_str(o: &Option<String>) -> (r: Option<&str>)
    ensures
        opt_text(r) == opt_view(*o),
{
    match o {
        Some(s) => Some(s.as_str()),
        None => None,
    }
}

fn takes_value_exec(f: &[char]) -> (r: bool)
    ensures
        r == takes_value(f@),
{
    is_word(f, "--output") || is_word(f, "-o") || is_word(f, "--os") || is_word(f, "--arch") || is_word(f, "--locale")
        || is_word(f, "--speech") || is_word(f, "--text") || is_word(f, "--region") || is_word(f, "--threads")
        || is_word(f, "--port") || is_word(f, "--bind") || is_word(f, "--mirror") || is_word(f, "--cache")
        || is_word(f, "--limit-files") || is_word(f, "--limit-bytes") || is_word(f, "--include-fdid")
}

/// The number `text` is, for the flag `flag`, when it is at most `max`.
fn number_value(flag: &[char], text: &str, max: u64) -> (r: Result<u64, CliError>)
    ensures
        match number_in(text@, max as int) {
            Some(n) => r matches Ok(x) && x == n,
            None => r matches Err(e) && cli_error_text(e) == invalid_number_text(flag@, text@),
        },
{
    match parse_u64(chars_of(text).as_slice()) {
        Some(n) => if n <= max {
            Ok(n)
        } else {
            Err(CliError::InvalidNumber { flag: string_of(flag), text: text_copy(text) })
        },
        None => Err(CliError::InvalidNumber { flag: string_of(flag), text: text_copy(text) }),
    }
}

proof fn lemma_fdids_err(pieces: Seq<Seq<char>>, k: int, m: int)
    requires
        0 <= k <= m <= pieces.len(),
        fdids_of(pieces.take(k)) is Err,
    ensures
        fdids_of(pieces.take(m)) == fdids_of(pieces.take(k)),
    decreases m - k,
{
    if m > k {
        lemma_fdids_err(pieces, k, m - 1);
        assert(pieces.take(m).drop_last() =~= pieces.take(m - 1));
    }
}

/// The ids of the comma-separated list `text`.
fn fdid_list(text: &str) -> (r: Result<Vec<u32>, CliError>)
    ensures
        match fdids_of(split_char(text@, ',')) {
            Ok(ids) => r matches Ok(v) && v@ == ids,
            Err(m) => r matches Err(e) && cli_error_text(e) == m,
        },
{
    let pieces = split_on(chars_of(text).as_slice(), ',');
    let ghost pv = pieces_view(pieces@);
    let mut ids: Vec<u32> = Vec::new();
    let mut i: usize = 0;
    let flag = chars_of("--include-fdid");
    while i < pieces.len()
        invariant
            i <= pieces@.len(),
            pv == pieces_view(pieces@),
            pv == split_char(text@, ','),
            flag@ == "--include-fdid"@,
            fdids_of(pv.take(i as int)) == Ok::<Seq<u32>, Seq<char>>(ids@),
        decreases pieces@.len() - i,
    {
        let piece = trim_chars(pieces[i].as_slice());
        assert(pv[i as int] == pieces@[i as int]@);
        assert(pv.take(i + 1).drop_last() =~= pv.take(i as int));
        assert(pv.take(i + 1).last() == pv[i as int]);
        let t = string_of(piece.as_slice());
        match number_value(flag.as_slice(), t.as_str(), 0xFFFF_FFFF) {
            Ok(n) => {
                ids.push(n as u32);
            },
            Err(e) => {
                proof {
                    lemma_fdids_err(pv, i + 1, pv.len() as int);
                    assert(pv.take(pv.len() as int) =~= pv);
                }
                return Err(e);
            },
        }
        i += 1;
    }
    assert(pv.take(i as int) =~= pv);
    Ok(ids)
}

/// Applies the flag `f`, one that takes a value, with the value `v`.
fn apply_value(flags: &mut ArgFlags, f: &[char], v: &str) -> (r: Result<(), CliError>)
    requires
        takes_value(f@),
    ensures
        match with_value(f@, v@, flags_model(*old(flags))) {
            Ok(next) => r is Ok && flags_model(*final(flags)) == next,
            Err(m) => r matches Err(e) && cli_error_text(e) == m,
        },
{
    let ghost st = flags_model(*flags);
    if is_word(f, "--output") || is_word(f, "-o") {
        flags.output = Some(text_copy(v));
    } else if is_word(f, "--os") {
        match Os::parse(v) {
            Ok(o) => flags.os = o,
            Err(e) => return Err(CliError::Selection(e)),
        }
    } else if is_word(f, "--arch") {
        match Arch::parse(v) {
            Ok(a) => flags.arch = a,
            Err(e) => return Err(CliError::Selection(e)),
        }
    } else if is_word(f, "--locale") {
        flags.locale = text_copy(v);
    } else if is_word(f, "--speech") {
        flags.speech = Some(text_copy(v));
    } else if is_word(f, "--text") {
        flags.text = Some(text_copy(v));
    } else if is_word(f, "--region") {
        flags.region = Some(text_copy(v));
    } else if is_word(f, "--threads") {
        match number_value(f, v, usize::MAX as u64) {
            Ok(n) => flags.threads = n as usize,
            Err(e) => return Err(e),
        }
    } else if is_word(f, "--port") {
        match number_value(f, v, 0xFFFF) {
            Ok(n) => flags.port = Some(n as u16),
            Err(e) => return Err(e),
        }
    } else if is_word(f, "--bind") {
        flags.bind = text_copy(v);
    } else if is_word(f, "--mirror") {
        flags.mirror = Some(string_of(trim_end_matching(chars_of(v).as_slice(), '/').as_slice()));
    } else if is_word(f, "--cache") {
        flags.cache = Some(text_copy(v));
    } else if is_word(f, "--limit-files") {
        match number_value(f, v, usize::MAX as u64) {
            Ok(n) => flags.limit_files = Some(n as usize),
            Err(e) => return Err(e),
        }
    } else if is_word(f, "--limit-bytes") {
        match number_value(f, v, u64::MAX) {
            Ok(n) => flags.limit_bytes = Some(n),
            Err(e) => return Err(e),
        }
    } else {
        match fdid_list(v) {
            Ok(ids) => {
                let mut more = ids;
                flags.include_fdids.append(&mut more);
            },
            Err(e) => return Err(e),
        }
    }
    assert(flags_model(*flags) =~= with_value(f@, v@, st)->Ok_0);
    Ok(())
}


/// Parses a command line (`argv[0]` is the command).
pub fn parse(argv: &[String]) -> (r: Result<Command, CliError>)
    ensures
        match (r, spec_parse(args_view(argv@))) {
            (Ok(c), Ok((kind, st))) => command_of(c, kind, st),
            (Err(e), Err(m)) => cli_error_text(e) == m,
            _ => false,
        },
{
    let ghost a = args_view(argv@);
    if argv.len() == 0 {
        return Ok(Command::Help);
    }
    let mut flags = ArgFlags {
        output: None,
        os: Os::Windows,
        arch: Arch::X86_64,
        locale: text_copy("enUS"),
        speech: None,
        text: None,
        region: None,
        threads: 4,
        port: None,
        bind: text_copy("127.0.0.1"),
        mirror: Some(text_copy(DEFAULT_MIRROR)),
        cache: None,
        dry_run: false,
        indices_only: false,
        limit_files: None,
        limit_bytes: None,
        include_fdids: Vec::new(),
    };
    assert(flags_model(flags) =~= initial_args());
    let n = argv.len();
    let mut pos: usize = 0;
    while pos + 1 < n
        invariant
            n == argv@.len(),
            a == args_view(argv@),
            pos < n,
            scan_args(a, 0, initial_args()) == scan_args(a, pos as int, flags_model(flags)),
        decreases n - pos,
    {
        let flag = chars_of(argv[pos + 1].as_str());
        assert(flag@ == a[pos + 1]);
        if is_word(flag.as_slice(), "-h") || is_word(flag.as_slice(), "--help") {
            return Ok(Command::Help);
        }
        if is_word(flag.as_slice(), "--no-mirror") {
            let ghost st = flags_model(flags);
            flags.mirror = None;
            assert(flags_model(flags) =~= ArgsModel { mirror: None, ..st });
            pos += 1;
            continue;
        }
        if is_word(flag.as_slice(), "--dry-run") {
            let ghost st = flags_model(flags);
            flags.dry_run = true;
            assert(flags_model(flags) =~= ArgsModel { dry_run: true, ..st });
            pos += 1;
            continue;
        }
        if is_word(flag.as_slice(), "--indices-only") {
            let ghost st = flags_model(flags);
            flags.indices_only = true;
            assert(flags_model(flags) =~= ArgsModel { indices_only: true, ..st });
            pos += 1;
            continue;
        }
        if !takes_value_exec(flag.as_slice()) {
            return Err(CliError::UnknownOption(string_of(flag.as_slice())));
        }
        if pos + 2 >= n {
            return Err(CliError::NeedsValue(string_of(flag.as_slice())));
        }
        assert(argv@[pos + 2]@ == a[pos + 2]);
        match apply_value(&mut flags, flag.as_slice(), argv[pos + 2].as_str()) {
            Ok(()) => {},
            Err(e) => return Err(e),
        }
        pos += 2;
    }
    let ghost st = flags_model(flags);
    if !(1 <= flags.threads && flags.threads <= 32) {
        return Err(CliError::Threads);
    }
    let command = chars_of(argv[0].as_str());
    assert(command@ == a[0]);
    let net = NetOptions {
        port: match flags.port {
            Some(p) => p,
            None => 0,
        },
        mirror: opt_copy(&flags.mirror),
        cache: opt_copy(&flags.cache),
        threads: flags.threads,
    };
    if is_word(command.as_slice(), "download") {
        let output = match flags.output {
            Some(o) => o,
            None => return Err(CliError::NeedsOutput),
        };
        let selection = match Selection::new(
            flags.os,
            flags.arch,
            flags.locale.as_str(),
            opt_str(&flags.speech),
            opt_str(&flags.text),
            opt_str(&flags.region),
        ) {
            Ok(s) => s,
            Err(e) => return Err(CliError::Selection(e)),
        };
        Ok(
            Command::Download(
                DownloadOptions {
                    output,
                    selection,
                    net,
                    dry_run: flags.dry_run,
                    limit_files: flags.limit_files,
                    limit_bytes: flags.limit_bytes,
                    include_fdids: flags.include_fdids,
                    indices_only: flags.indices_only,
                },
            ),
        )
    } else if is_word(command.as_slice(), "list") {
        Ok(Command::List(net))
    } else if is_word(command.as_slice(), "serve") {
        Ok(
            Command::Serve(
                ServeOptions {
                    bind: flags.bind,
                    port: match flags.port {
                        Some(p) => p,
                        None => 1119,
                    },
                    mirror: flags.mirror,
                    cache: flags.cache,
                },
            ),
        )
    } else if is_word(command.as_slice(), "help") || is_word(command.as_slice(), "-h") || is_word(
        command.as_slice(),
        "--help",
    ) {
        Ok(Command::Help)
    } else {
        Err(CliError::UnknownCommand(string_of(command.as_slice())))
    }
}

} // verus!

