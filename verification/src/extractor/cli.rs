//! The extractor's command line: single-letter switches with the lenient
//! number reading of C `atoi`, and the defaults.

use vstd::prelude::*;
use crate::extractor::casc::{locale_name_list, locale_names, TOTAL_LOCALES};
use crate::text::{chars_eq, chars_of, push_str, string_of, trim_start, trim_start_chars};

verus! {

/// Extract the maps.
pub const EXTRACT_MAP: i32 = 0x1;
/// Extract the client tables.
pub const EXTRACT_DBC: i32 = 0x2;
/// Extract the camera files.
pub const EXTRACT_CAMERA: i32 = 0x4;
/// Extract the gt tables.
pub const EXTRACT_GT: i32 = 0x8;
/// Extract everything.
pub const EXTRACT_ALL: i32 = 0xF;

/// Extractor options.
#[derive(Debug, Clone, PartialEq, Eq)]
pub struct Config {
    pub input_path: String,
    pub output_path: String,
    /// What to extract (a mask of the `EXTRACT_*` bits).
    pub extract: i32,
    /// Heights may be stored as integers.
    pub allow_float_to_int: bool,
    /// `1 << locale`; 0 for every installed locale.
    pub locale: u32,
    pub product: String,
    pub region: String,
    pub use_remote_casc: bool,
}

/// A configuration as plain values.
pub struct ConfigView {
    pub input_path: Seq<char>,
    pub output_path: Seq<char>,
    pub extract: i32,
    pub allow_float_to_int: bool,
    pub locale: u32,
    pub product: Seq<char>,
    pub region: Seq<char>,
    pub use_remote_casc: bool,
}

impl View for Config {
    type V = ConfigView;

    open spec fn view(&self) -> ConfigView {
        ConfigView {
            input_path: self.input_path@,
            output_path: self.output_path@,
            extract: self.extract,
            allow_float_to_int: self.allow_float_to_int,
            locale: self.locale,
            product: self.product@,
            region: self.region@,
            use_remote_casc: self.use_remote_casc,
        }
    }
}

/// The default configuration with input and output in `current_dir`.
pub open spec fn default_config(current_dir: Seq<char>) -> ConfigView {
    ConfigView {
        input_path: current_dir,
        output_path: current_dir,
        extract: EXTRACT_ALL,
        allow_float_to_int: true,
        locale: 0,
        product: "wow_classic"@,
        region: "eu"@,
        use_remote_casc: false,
    }
}

fn copy_string(s: &String) -> (r: String)
    ensures
        r@ == s@,
{
    string_of(chars_of(s.as_str()).as_slice())
}

impl Config {
    /// The defaults: everything extracted, integer heights allowed, every
    /// locale, product `wow_classic`, region `eu`, local storage.
    pub fn new(current_dir: String) -> (r: Config)
        ensures
            r@ == default_config(current_dir@),
    {
        let input_path = copy_string(&current_dir);
        proof {
            reveal_strlit("wow_classic");
            reveal_strlit("eu");
        }
        Config {
            input_path,
            output_path: current_dir,
            extract: EXTRACT_ALL,
            allow_float_to_int: true,
            locale: 0,
            product: string_of(chars_of("wow_classic").as_slice()),
            region: string_of(chars_of("eu").as_slice()),
            use_remote_casc: false,
        }
    }
}

/// The usage text's lines between the two program names.
pub const USAGE_MIDDLE: &'static str = " -[var] [value]\n-i set input path\n-o set output path\n-e extract only MAP(1)/DBC(2)/Camera(4)/gt(8) - standard: all(15)\n-f height stored as int (less map size but lost some accuracy) 1 by default\n-l dbc locale\n-p which installed product to open (wow/wowt/wow_beta)\n-c use remote casc\n-r set remote casc region - standard: eu\nExample: ";

/// The usage text's end.
pub const USAGE_END: &'static str = " -f 0 -i \"c:\\games\\game\"\n";

/// The usage text for program `prg`.
pub open spec fn spec_usage(prg: Seq<char>) -> Seq<char> {
    "Usage:\n"@ + prg + USAGE_MIDDLE@ + prg + USAGE_END@
}

/// The usage text for program `prg`.
pub fn usage(prg: &str) -> (r: String)
    ensures
        r@ == spec_usage(prg@),
{
    let mut out: Vec<char> = Vec::new();
    push_str(&mut out, "Usage:\n");
    push_str(&mut out, prg);
    push_str(&mut out, USAGE_MIDDLE);
    push_str(&mut out, prg);
    push_str(&mut out, USAGE_END);
    let r = string_of(out.as_slice());
    assert(r@ =~= spec_usage(prg@));
    r
}

/// An ASCII decimal digit.
pub open spec fn ascii_digit(c: char) -> bool {
    '0' <= c && c <= '9'
}

/// How many ASCII digits `s` starts with.
pub open spec fn digit_run(s: Seq<char>) -> nat
    decreases s.len(),
{
    if s.len() > 0 && ascii_digit(s[0]) {
        1 + digit_run(s.drop_first())
    } else {
        0
    }
}

/// The value of the first `k` digits of `s`, where each step is capped at
/// `2^32`.
pub open spec fn capped_value(s: Seq<char>, k: int) -> int
    decreases k,
{
    if k <= 0 {
        0
    } else {
        let v = capped_value(s, k - 1) * 10 + (s[k - 1] as int - '0' as int);
        if v < 0x1_0000_0000 { v } else { 0x1_0000_0000 }
    }
}

/// C `atoi` as the extractor reads numbers: leading white space, an
/// optional sign, then the leading decimal digits (their value capped at
/// `2^32`); the signed value is truncated to 32 bits; no digits read 0.
pub open spec fn spec_atoi(s: Seq<char>) -> i32 {
    let t = trim_start(s);
    let neg = t.len() > 0 && t[0] == '-';
    let rest = if t.len() > 0 && (t[0] == '-' || t[0] == '+') { t.drop_first() } else { t };
    let v = capped_value(rest, digit_run(rest) as int);
    (if neg { -v } else { v }) as i32
}

proof fn lemma_capped_range(s: Seq<char>, k: int)
    requires
        0 <= k,
        forall|i: int| 0 <= i < k ==> ascii_digit(#[trigger] s[i]),
    ensures
        0 <= capped_value(s, k) <= 0x1_0000_0000,
    decreases k,
{
    if k > 0 {
        lemma_capped_range(s, k - 1);
    }
}

proof fn lemma_digit_run(s: Seq<char>, k: int)
    requires
        0 <= k <= s.len(),
        forall|i: int| 0 <= i < k ==> ascii_digit(#[trigger] s[i]),
        k == s.len() || !ascii_digit(s[k]),
    ensures
        digit_run(s) == k,
    decreases k,
{
    if k > 0 {
        assert forall|i: int| 0 <= i < k - 1 implies ascii_digit(#[trigger] s.drop_first()[i]) by {
            assert(s.drop_first()[i] == s[i + 1]);
        }
        if k < s.len() {
            assert(s.drop_first()[k - 1] == s[k]);
        }
        lemma_digit_run(s.drop_first(), k - 1);
    }
}

/// C `atoi` of `s`, as [`spec_atoi`] states it.
pub fn atoi(s: &str) -> (r: i32)
    ensures
        r == spec_atoi(s@),
{
    let t = trim_start_chars(chars_of(s).as_slice());
    let neg = t.len() > 0 && t[0] == '-';
    let start: usize = if t.len() > 0 && (t[0] == '-' || t[0] == '+') { 1 } else { 0 };
    let ghost rest = if t@.len() > 0 && (t@[0] == '-' || t@[0] == '+') { t@.drop_first() } else { t@ };
    assert(rest =~= t@.subrange(start as int, t@.len() as int));
    let mut value: i64 = 0;
    let mut i: usize = start;
    while i < t.len() && '0' <= t[i] && t[i] <= '9'
        invariant
            start <= i <= t@.len(),
            rest =~= t@.subrange(start as int, t@.len() as int),
            forall|k: int| 0 <= k < i - start ==> ascii_digit(#[trigger] rest[k]),
            value == capped_value(rest, i - start),
        decreases t@.len() - i,
    {
        proof {
            lemma_capped_range(rest, i - start);
            assert(rest[i - start] == t@[i as int]);
        }
        let d = (t[i] as u32 - '0' as u32) as i64;
        let next = value * 10 + d;
        value = if next < 0x1_0000_0000 { next } else { 0x1_0000_0000 };
        i += 1;
    }
    proof {
        if i < t@.len() {
            assert(rest[i - start] == t@[i as int]);
        }
        lemma_digit_run(rest, i - start);
        lemma_capped_range(rest, i - start);
    }
    let signed = if neg { -value } else { value };
    signed as i32
}

/// The locale flag that switch `-l` sets for `name`: `1 << i` for the
/// locale named `name`; `None` keeps the configured locale.
pub open spec fn locale_flag_of(name: Seq<char>) -> Option<u32> {
    match last_locale_match(name, TOTAL_LOCALES as int) {
        Some(i) => Some((1u32 << (i as u32)) as u32),
        None => None,
    }
}

/// The last of the first `n` locales named `name`.
pub open spec fn last_locale_match(name: Seq<char>, n: int) -> Option<int>
    decreases n,
{
    if n <= 0 {
        None
    } else if locale_names()[n - 1] == name {
        Some(n - 1)
    } else {
        last_locale_match(name, n - 1)
    }
}

/// The options the arguments from position `i` on make of `c`; `Err` is
/// the usage text's case: an argument that is not a switch, a switch
/// without its value, an empty path, product or region, an extract mask
/// outside 1..=15, or `-h`. Unknown switches are skipped alone.
pub open spec fn spec_handle_args(args: Seq<Seq<char>>, i: int, c: ConfigView) -> Result<ConfigView, ()>
    decreases args.len() - i,
{
    if i < 0 || i >= args.len() {
        Ok(c)
    } else {
        let arg = args[i];
        let next: Option<Seq<char>> = if i + 1 < args.len() { Some(args[i + 1]) } else { None };
        if arg.len() == 0 || arg[0] != '-' {
            Err(())
        } else if arg.len() < 2 {
            spec_handle_args(args, i + 1, c)
        } else {
            let l = arg[1];
            if l == 'i' || l == 'o' || l == 'p' || l == 'r' {
                match next {
                    Some(v) if v.len() > 0 => spec_handle_args(
                        args,
                        i + 2,
                        if l == 'i' {
                            ConfigView { input_path: v, ..c }
                        } else if l == 'o' {
                            ConfigView { output_path: v, ..c }
                        } else if l == 'p' {
                            ConfigView { product: v, ..c }
                        } else {
                            ConfigView { region: v, ..c }
                        },
                    ),
                    _ => Err(()),
                }
            } else if l == 'f' || l == 'c' || l == 'e' || l == 'l' {
                match next {
                    None => Err(()),
                    Some(v) => if l == 'f' {
                        spec_handle_args(args, i + 2, ConfigView { allow_float_to_int: spec_atoi(v) != 0, ..c })
                    } else if l == 'c' {
                        spec_handle_args(args, i + 2, ConfigView { use_remote_casc: spec_atoi(v) != 0, ..c })
                    } else if l == 'e' {
                        let e = spec_atoi(v);
                        if !(e > 0 && e <= EXTRACT_ALL) {
                            Err(())
                        } else {
                            spec_handle_args(args, i + 2, ConfigView { extract: e, ..c })
                        }
                    } else {
                        match locale_flag_of(v) {
                            Some(f) => spec_handle_args(args, i + 2, ConfigView { locale: f, ..c }),
                            None => spec_handle_args(args, i + 2, c),
                        }
                    },
                }
            } else if l == 'h' {
                Err(())
            } else {
                spec_handle_args(args, i + 1, c)
            }
        }
    }
}

/// The views of a list of strings.
pub open spec fn args_view(v: Seq<String>) -> Seq<Seq<char>> {
    v.map_values(|s: String| s@)
}

fn locale_flag(v: &str) -> (r: Option<u32>)
    ensures
        r == locale_flag_of(v@),
{
    let names = locale_name_list();
    let vc = chars_of(v);
    let mut found: Option<u32> = None;
    let mut i: usize = 0;
    while i < TOTAL_LOCALES
        invariant
            i <= TOTAL_LOCALES,
            names@.len() == TOTAL_LOCALES,
            forall|k: int| 0 <= k < TOTAL_LOCALES ==> #[trigger] names@[k]@ == locale_names()[k],
            vc@ == v@,
            found == (match last_locale_match(v@, i as int) {
                Some(k) => Some((1u32 << (k as u32)) as u32),
                None => None,
            }),
        decreases TOTAL_LOCALES - i,
    {
        let n = chars_of(names[i]);
        if chars_eq(n.as_slice(), vc.as_slice()) {
            found = Some(1u32 << (i as u32));
        }
        i += 1;
    }
    proof {
        reveal_strlit("enUS");
        reveal_strlit("koKR");
        reveal_strlit("frFR");
        reveal_strlit("deDE");
        reveal_strlit("zhCN");
        reveal_strlit("zhTW");
        reveal_strlit("esES");
        reveal_strlit("esMX");
        reveal_strlit("ruRU");
        reveal_strlit("none");
        reveal_strlit("ptBR");
        reveal_strlit("itIT");
    }
    found
}

/// The options that `args` (program name first) make of `config`.
#[verifier::loop_isolation(false)]
pub fn handle_args(args: &[String], config: Config) -> (r: Result<Config, ()>)
    ensures
        match r {
            Ok(c) => spec_handle_args(args_view(args@), 1, config@) == Ok::<ConfigView, ()>(c@),
            Err(()) => spec_handle_args(args_view(args@), 1, config@) is Err,
        },
{
    let ghost av = args_view(args@);
    let ghost start = config@;
    let mut config = config;
    let mut c: usize = 1;
    while c < args.len()
        invariant
            av == args_view(args@),
            1 <= c,
            spec_handle_args(av, c as int, config@) == spec_handle_args(av, 1, start),
        decreases args@.len() - c,
    {
        let arg = chars_of(args[c].as_str());
        assert(arg@ == av[c as int]);
        if arg.len() == 0 || arg[0] != '-' {
            return Err(());
        }
        if arg.len() < 2 {
            c += 1;
            continue;
        }
        let has_next = c + 1 < args.len();
        proof {
            if has_next {
                assert(av[c + 1] == args@[c + 1]@);
            }
        }
        let l = arg[1];
        if l == 'i' || l == 'o' || l == 'p' || l == 'r' {
            if !has_next {
                return Err(());
            }
            let vc = chars_of(args[c + 1].as_str());
            if vc.len() == 0 {
                return Err(());
            }
            let v = string_of(vc.as_slice());
            if l == 'i' {
                config.input_path = v;
            } else if l == 'o' {
                config.output_path = v;
            } else if l == 'p' {
                config.product = v;
            } else {
                config.region = v;
            }
            c += 2;
        } else if l == 'f' || l == 'c' || l == 'e' || l == 'l' {
            if !has_next {
                return Err(());
            }
            let v = args[c + 1].as_str();
            if l == 'f' {
                config.allow_float_to_int = atoi(v) != 0;
            } else if l == 'c' {
                config.use_remote_casc = atoi(v) != 0;
            } else if l == 'e' {
                let e = atoi(v);
                if !(e > 0 && e <= EXTRACT_ALL) {
                    return Err(());
                }
                config.extract = e;
            } else {
                match locale_flag(v) {
                    Some(f) => {
                        config.locale = f;
                    },
                    None => {},
                }
            }
            c += 2;
        } else if l == 'h' {
            return Err(());
        } else {
            c += 1;
        }
    }
    Ok(config)
}

/// The extract mask stays a valid one: from options whose mask is in
/// `1..=15`, any arguments that are accepted leave it in `1..=15`.
pub proof fn lemma_extract_mask_valid(args: Seq<Seq<char>>, i: int, c: ConfigView)
    requires
        0 < c.extract <= EXTRACT_ALL,
    ensures
        spec_handle_args(args, i, c) matches Ok(r) ==> 0 < r.extract <= EXTRACT_ALL,
    decreases args.len() - i,
{
    if i < 0 || i >= args.len() {
    } else {
        let arg = args[i];
        if arg.len() == 0 || arg[0] != '-' {
        } else if arg.len() < 2 {
            lemma_extract_mask_valid(args, i + 1, c);
        } else {
            let l = arg[1];
            let next: Option<Seq<char>> = if i + 1 < args.len() { Some(args[i + 1]) } else { None };
            if l == 'i' || l == 'o' || l == 'p' || l == 'r' {
                match next {
                    Some(v) => if v.len() > 0 {
                        let c2 = if l == 'i' {
                            ConfigView { input_path: v, ..c }
                        } else if l == 'o' {
                            ConfigView { output_path: v, ..c }
                        } else if l == 'p' {
                            ConfigView { product: v, ..c }
                        } else {
                            ConfigView { region: v, ..c }
                        };
                        lemma_extract_mask_valid(args, i + 2, c2);
                    },
                    None => {},
                }
            } else if l == 'f' || l == 'c' || l == 'e' || l == 'l' {
                match next {
                    None => {},
                    Some(v) => if l == 'f' {
                        lemma_extract_mask_valid(args, i + 2, ConfigView { allow_float_to_int: spec_atoi(v) != 0, ..c });
                    } else if l == 'c' {
                        lemma_extract_mask_valid(args, i + 2, ConfigView { use_remote_casc: spec_atoi(v) != 0, ..c });
                    } else if l == 'e' {
                        let e = spec_atoi(v);
                        if e > 0 && e <= EXTRACT_ALL {
                            lemma_extract_mask_valid(args, i + 2, ConfigView { extract: e, ..c });
                        }
                    } else {
                        match locale_flag_of(v) {
                            Some(f) => lemma_extract_mask_valid(args, i + 2, ConfigView { locale: f, ..c }),
                            None => lemma_extract_mask_valid(args, i + 2, c),
                        }
                    },
                }
            } else if l == 'h' {
            } else {
                lemma_extract_mask_valid(args, i + 1, c);
            }
        }
    }
}

} // verus!
