//! Locale tables of the extractor: the client locale names and the CASC
//! locale flags each one selects.

use vstd::prelude::*;

verus! {

/// Number of client locales.
pub const TOTAL_LOCALES: usize = 12;
/// The index of the placeholder locale `none`.
pub const LOCALE_NONE: usize = 9;

/// CASC locale flag of enUS.
pub const CASC_LOCALE_ENUS: u32 = 0x2;
/// CASC locale flag of koKR.
pub const CASC_LOCALE_KOKR: u32 = 0x4;
/// CASC locale flag of frFR.
pub const CASC_LOCALE_FRFR: u32 = 0x10;
/// CASC locale flag of deDE.
pub const CASC_LOCALE_DEDE: u32 = 0x20;
/// CASC locale flag of zhCN.
pub const CASC_LOCALE_ZHCN: u32 = 0x40;
/// CASC locale flag of esES.
pub const CASC_LOCALE_ESES: u32 = 0x80;
/// CASC locale flag of zhTW.
pub const CASC_LOCALE_ZHTW: u32 = 0x100;
/// CASC locale flag of enGB.
pub const CASC_LOCALE_ENGB: u32 = 0x200;
/// CASC locale flag of esMX.
pub const CASC_LOCALE_ESMX: u32 = 0x1000;
/// CASC locale flag of ruRU.
pub const CASC_LOCALE_RURU: u32 = 0x2000;
/// CASC locale flag of ptBR.
pub const CASC_LOCALE_PTBR: u32 = 0x4000;
/// CASC locale flag of itIT.
pub const CASC_LOCALE_ITIT: u32 = 0x8000;
/// CASC locale flag of ptPT.
pub const CASC_LOCALE_PTPT: u32 = 0x1_0000;

/// Every World of Warcraft locale flag.
pub const CASC_LOCALE_ALL_WOW: u32 = 0x0001_F3F6;
/// No locale flag: the entry selected with the storage's open mask.
pub const CASC_LOCALE_NONE: u32 = 0;

/// The client locale names, by locale index.
pub open spec fn locale_names() -> Seq<Seq<char>> {
    seq!["enUS"@, "koKR"@, "frFR"@, "deDE"@, "zhCN"@, "zhTW"@, "esES"@, "esMX"@, "ruRU"@, "none"@, "ptBR"@, "itIT"@]
}

/// The client locale names, by locale index.
pub fn locale_name_list() -> (r: Vec<&'static str>)
    ensures
        r@.len() == TOTAL_LOCALES,
        forall|i: int| 0 <= i < TOTAL_LOCALES ==> #[trigger] r@[i]@ == locale_names()[i],
{
    let r = vec!["enUS", "koKR", "frFR", "deDE", "zhCN", "zhTW", "esES", "esMX", "ruRU", "none", "ptBR", "itIT"];
    proof {
        reveal_strlit("enUS");
        reveal_strlit("koKR");
        reveal_strlit("frFR");
        reveal_strlit("deDE");
        reveal_strlit("zhCN");
        reveal_strlit("zhTW");
        reveal_strlit("esES");
        reveal_strlit("esMX");
        reveal_strlit("ruRU");
        reveal_strlit("none");
        reveal_strlit("ptBR");
        reveal_strlit("itIT");
    }
    r
}

/// The CASC locale flags that a client locale selects: enUS also covers
/// enGB, ptBR also covers ptPT, and `none` selects nothing.
pub open spec fn locale_flags(i: int) -> u32 {
    if i == 0 {
        CASC_LOCALE_ENUS | CASC_LOCALE_ENGB
    } else if i == 1 {
        CASC_LOCALE_KOKR
    } else if i == 2 {
        CASC_LOCALE_FRFR
    } else if i == 3 {
        CASC_LOCALE_DEDE
    } else if i == 4 {
        CASC_LOCALE_ZHCN
    } else if i == 5 {
        CASC_LOCALE_ZHTW
    } else if i == 6 {
        CASC_LOCALE_ESES
    } else if i == 7 {
        CASC_LOCALE_ESMX
    } else if i == 8 {
        CASC_LOCALE_RURU
    } else if i == 10 {
        CASC_LOCALE_PTBR | CASC_LOCALE_PTPT
    } else if i == 11 {
        CASC_LOCALE_ITIT
    } else {
        0
    }
}

/// The CASC locale flags of each client locale, by locale index.
pub fn wow_locale_to_casc_locale_flags() -> (r: [u32; 12])
    ensures
        forall|i: int| 0 <= i < TOTAL_LOCALES ==> #[trigger] r@[i] == locale_flags(i),
{
    let r = [
        CASC_LOCALE_ENUS | CASC_LOCALE_ENGB,
        CASC_LOCALE_KOKR,
        CASC_LOCALE_FRFR,
        CASC_LOCALE_DEDE,
        CASC_LOCALE_ZHCN,
        CASC_LOCALE_ZHTW,
        CASC_LOCALE_ESES,
        CASC_LOCALE_ESMX,
        CASC_LOCALE_RURU,
        0,
        CASC_LOCALE_PTBR | CASC_LOCALE_PTPT,
        CASC_LOCALE_ITIT,
    ];
    r
}

/// The all-locales mask is the union of the locale flags.
pub proof fn lemma_all_wow_mask()
    ensures
        CASC_LOCALE_ALL_WOW == (CASC_LOCALE_ENUS | CASC_LOCALE_KOKR | CASC_LOCALE_FRFR | CASC_LOCALE_DEDE | CASC_LOCALE_ZHCN
            | CASC_LOCALE_ESES | CASC_LOCALE_ZHTW | CASC_LOCALE_ENGB | CASC_LOCALE_ESMX | CASC_LOCALE_RURU | CASC_LOCALE_PTBR
            | CASC_LOCALE_ITIT | CASC_LOCALE_PTPT),
{
    assert(0x0001_F3F6u32 == (0x2u32 | 0x4u32 | 0x10u32 | 0x20u32 | 0x40u32 | 0x80u32 | 0x100u32 | 0x200u32 | 0x1000u32
        | 0x2000u32 | 0x4000u32 | 0x8000u32 | 0x1_0000u32)) by (bit_vector);
}

} // verus!
