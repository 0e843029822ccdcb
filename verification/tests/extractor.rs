use std::collections::HashMap;

use wow_tools::extractor::adt::{transform_to_high_res, LiquidInstance, LVF_DEPTH};
use wow_tools::extractor::casc::{
    locale_name_list, wow_locale_to_casc_locale_flags, CASC_LOCALE_ALL_WOW, LOCALE_NONE,
};
use wow_tools::extractor::cli::{atoi, handle_args, usage, Config};
use wow_tools::extractor::loadlib::{chunk_scan_ends, ChunkedFile, FileData};
use wow_tools::extractor::maps::{camera_file_name, is_deep_water_ignored, tile_list_bytes};
use wow_tools::extractor::tables::{apply_copies, get_liquid_vertex_format, LiquidTables, LiquidTypeEntry};

#[test]
fn camera_file_name_is_upper_hex() {
    assert_eq!(camera_file_name(0x13_BF_1A), "FILE0013BF1A.xxx");
}

#[test]
fn all_wow_mask_matches_casclib() {
    assert_eq!(CASC_LOCALE_ALL_WOW, 0x0001_F3F6);
}

#[test]
fn locale_flags_follow_system_cpp() {
    let flags = wow_locale_to_casc_locale_flags();
    assert_eq!(flags[0], 0x2 | 0x200);
    assert_eq!(flags[LOCALE_NONE], 0);
    assert_eq!(flags[10], 0x4000 | 0x1_0000);
    assert_eq!(locale_name_list()[LOCALE_NONE], "none");
}

fn parse(args: &[&str]) -> Result<Config, ()> {
    let args: Vec<String> = std::iter::once("map_extractor")
        .chain(args.iter().copied())
        .map(String::from)
        .collect();
    handle_args(&args, Config::new("/cwd".to_owned()))
}

#[test]
fn defaults() {
    let c = parse(&[]).unwrap();
    assert_eq!(c.input_path, "/cwd");
    assert_eq!(c.output_path, "/cwd");
    assert_eq!(c.extract, 15);
    assert!(c.allow_float_to_int);
    assert_eq!(c.locale, 0);
    assert_eq!(c.product, "wow_classic");
    assert_eq!(c.region, "eu");
    assert!(!c.use_remote_casc);
}

#[test]
fn all_switches() {
    let c = parse(&[
        "-i",
        "/wow",
        "-o",
        "/out",
        "-e",
        "3",
        "-f",
        "0",
        "-l",
        "deDE",
        "-p",
        "wow_classic_era",
        "-c",
        "1",
        "-r",
        "us",
    ])
    .unwrap();
    assert_eq!(c.input_path, "/wow");
    assert_eq!(c.output_path, "/out");
    assert_eq!(c.extract, 3);
    assert!(!c.allow_float_to_int);
    assert_eq!(c.locale, 1 << 3);
    assert_eq!(c.product, "wow_classic_era");
    assert!(c.use_remote_casc);
    assert_eq!(c.region, "us");
}

#[test]
fn usage_cases() {
    assert!(parse(&["x"]).is_err());
    assert!(parse(&["-i"]).is_err());
    assert!(parse(&["-i", ""]).is_err());
    assert!(parse(&["-e", "0"]).is_err());
    assert!(parse(&["-e", "16"]).is_err());
    assert!(parse(&["-e", "abc"]).is_err());
    assert!(parse(&["-h"]).is_err());
    assert!(parse(&["-f"]).is_err());
}

#[test]
fn lenient_cases() {
    // Unknown locale keeps "all"; unknown switch is ignored (its value then fails).
    assert_eq!(parse(&["-l", "xxXX"]).unwrap().locale, 0);
    assert!(parse(&["-z"]).is_ok());
    assert!(parse(&["-z", "1"]).is_err());
    assert_eq!(parse(&["-e", "8abc"]).unwrap().extract, 8);
    assert!(
        parse(&["-f", "yes"])
            .map(|c| !c.allow_float_to_int)
            .unwrap()
    );
}

#[test]
fn atoi_like_c() {
    assert_eq!(atoi("  42x"), 42);
    assert_eq!(atoi("-7"), -7);
    assert_eq!(atoi("+3"), 3);
    assert_eq!(atoi(""), 0);
    assert_eq!(atoi("x1"), 0);
}

#[test]
fn atoi_caps_and_truncates() {
    assert_eq!(atoi("4294967295"), -1);
    assert_eq!(atoi("4294967296"), 0);
    assert_eq!(atoi("99999999999999999999"), 0);
    assert_eq!(atoi("-2147483648"), i32::MIN);
    assert_eq!(atoi("\t\n 12"), 12);
}

#[test]
fn usage_text_names_the_program() {
    let u = usage("ext");
    assert!(u.starts_with("Usage:\next -[var] [value]\n-i set input path\n"));
    assert!(u.ends_with("Example: ext -f 0 -i \"c:\\games\\game\"\n"));
}

#[test]
fn transform_to_high_res_expands_quadrants() {
    let mut hi = [0u8; 8];
    assert!(transform_to_high_res(0x0001, &mut hi));
    assert_eq!(hi, [0b11, 0b11, 0, 0, 0, 0, 0, 0]);
    let mut hi = [0u8; 8];
    assert!(transform_to_high_res(0x8000, &mut hi));
    assert_eq!(hi, [0, 0, 0, 0, 0, 0, 0b1100_0000, 0b1100_0000]);
    let mut hi = [0u8; 8];
    assert!(!transform_to_high_res(0, &mut hi));
}

#[test]
fn transform_matches_the_bit_by_bit_expansion() {
    for low in [0x1234u16, 0xFFFF, 0x0F0F, 0xA5A5] {
        let mut expected = [0u8; 8];
        for i in 0..8u8 {
            for j in 0..8u8 {
                let l = (i / 2) * 4 + (j / 2);
                if (low >> l) & 1 == 1 {
                    expected[i as usize] |= 1 << j;
                }
            }
        }
        let mut hi = [0u8; 8];
        assert!(transform_to_high_res(low, &mut hi));
        assert_eq!(hi, expected, "{low:#x}");
    }
}

fn tables() -> LiquidTables {
    LiquidTables {
        materials: HashMap::from([(3, 2i8), (4, -1i8)]),
        objects: HashMap::new(),
        types: HashMap::from([
            (
                2,
                LiquidTypeEntry {
                    sound_bank: 2,
                    material_id: 0,
                },
            ),
            (
                5,
                LiquidTypeEntry {
                    sound_bank: 1,
                    material_id: 0,
                },
            ),
            (
                7,
                LiquidTypeEntry {
                    sound_bank: 0,
                    material_id: 3,
                },
            ),
            (
                8,
                LiquidTypeEntry {
                    sound_bank: 9,
                    material_id: 4,
                },
            ),
        ]),
    }
}

#[test]
fn liquid_vertex_format_lookup() {
    let t = tables();
    let inst = |liquid_type, lvf| LiquidInstance {
        liquid_type,
        liquid_vertex_format: lvf,
        offset_x: 0,
        offset_y: 0,
        width: 0,
        height: 0,
        offset_exists_bitmap: 0,
        offset_vertex_data: 0,
    };
    assert_eq!(get_liquid_vertex_format(&inst(5, 1), &t), 1);
    assert_eq!(get_liquid_vertex_format(&inst(2, 42), &t), LVF_DEPTH);
    assert_eq!(get_liquid_vertex_format(&inst(7, 42), &t), 2); // material 3 -> LVF 2
    assert_eq!(get_liquid_vertex_format(&inst(8, 42), &t), u16::MAX); // LVF -1
    assert_eq!(get_liquid_vertex_format(&inst(99, 42), &t), u16::MAX); // unknown type
    let i = inst(9, 42);
    assert_eq!((i.get_width(), i.get_height(), i.get_offset_x()), (8, 8, 0));
}

/// Builds a chunk: reversed FourCC, u32 payload size, payload (takes `b"NAME"`).
fn chunk(name: &[u8; 4], payload: &[u8]) -> Vec<u8> {
    let mut out = Vec::with_capacity(payload.len() + 8);
    let mut fcc = name.to_owned();
    fcc.reverse();
    out.extend_from_slice(&fcc);
    out.extend_from_slice(&(payload.len() as u32).to_le_bytes());
    out.extend_from_slice(payload);
    out
}

fn mver() -> Vec<u8> {
    chunk(b"MVER", &18u32.to_le_bytes())
}

fn load(bytes: Vec<u8>) -> Option<ChunkedFile> {
    assert!(chunk_scan_ends(&bytes));
    ChunkedFile::from_bytes(bytes)
}

#[test]
fn parses_interesting_chunks_and_skips_unknown_bytes() {
    let mut bytes = mver();
    bytes.extend_from_slice(&chunk(b"MHDR", &[0; 16])); // not interesting: skipped bytewise
    bytes.extend_from_slice(&chunk(b"MFBO", &[1; 36]));
    let file = load(bytes).expect("valid MVER");
    let mfbo = file.get_chunk("MFBO").expect("MFBO");
    assert_eq!(mfbo.size, 36);
    assert_eq!(file.data.u8_at(mfbo.offset + 8), 1);
    assert!(file.get_chunk("MHDR").is_none());
}

#[test]
fn rejects_missing_or_wrong_version() {
    assert!(load(chunk(b"MFBO", &[0; 36])).is_none());
    assert!(load(chunk(b"MVER", &17u32.to_le_bytes())).is_none());
    // Two MVER chunks: GetChunk returns null -> prepareLoadedData fails.
    let mut two = mver();
    two.extend_from_slice(&mver());
    assert!(load(two).is_none());
    assert!(load(Vec::new()).is_none());
}

#[test]
fn duplicate_names_are_not_returned_but_iterate_in_order() {
    let mut bytes = mver();
    bytes.extend_from_slice(&chunk(b"MCNK", &[0; 8]));
    bytes.extend_from_slice(&chunk(b"MCNK", &[1; 8]));
    let file = load(bytes).unwrap();
    assert!(file.get_chunk("MCNK").is_none());
    let offsets: Vec<_> = file.chunks_named("MCNK").iter().map(|c| c.offset).collect();
    assert_eq!(offsets, vec![12, 28]);
}

#[test]
fn sub_chunks_are_found_inside_a_chunk() {
    // MCNK with a 128-byte header of zeros, then MCVT, then MCLQ; plus 8 trailing bytes
    // (the scan stops at data + size, i.e. 8 bytes before the payload end).
    let mut payload = vec![0u8; 120];
    payload.extend_from_slice(&chunk(b"MCVT", &[2; 580]));
    payload.extend_from_slice(&chunk(b"MCLQ", &[3; 16]));
    payload.extend_from_slice(&[0; 8]);
    let mut bytes = mver();
    bytes.extend_from_slice(&chunk(b"MCNK", &payload));
    let file = load(bytes).unwrap();
    let mcnk = file.get_chunk("MCNK").unwrap();
    let mcvt = mcnk.get_sub_chunk("MCVT").expect("MCVT");
    assert_eq!(mcvt.offset, mcnk.offset + 8 + 120);
    assert_eq!(mcvt.size, 580);
    assert!(mcnk.get_sub_chunk("MCLQ").is_some());
    assert!(mcnk.get_sub_chunk("MH2O").is_none());
}

#[test]
fn sub_chunk_must_be_smaller_than_parent() {
    // A sub-chunk header claiming size >= parent size is skipped (but still jumped over).
    let mut payload = Vec::new();
    payload.extend_from_slice(&chunk(b"MCVT", &[0; 4]));
    let size = (payload.len() as u32) + 100;
    payload[4..8].copy_from_slice(&size.to_le_bytes());
    payload.extend_from_slice(&[0; 8]);
    let mut bytes = mver();
    bytes.extend_from_slice(&chunk(b"MCNK", &payload));
    let file = load(bytes).unwrap();
    assert!(
        file.get_chunk("MCNK")
            .unwrap()
            .get_sub_chunk("MCVT")
            .is_none()
    );
}

#[test]
fn out_of_range_reads_are_zero() {
    let data = FileData::new(vec![1, 2]);
    assert_eq!(data.u16_at(0), 0x0201);
    assert_eq!(data.u32_at(0), 0x0201);
    assert_eq!(data.u64_at(10), 0);
}

#[test]
fn a_header_whose_step_wraps_to_zero_never_ends_the_scan() {
    let mut bytes = mver();
    bytes.extend_from_slice(b"KNCM");
    bytes.extend_from_slice(&0xFFFF_FFF8u32.to_le_bytes());
    assert!(!chunk_scan_ends(&bytes));
}

#[test]
fn deep_water_grids() {
    assert!(is_deep_water_ignored(0, 39, 24));
    assert!(is_deep_water_ignored(0, 46, 18));
    assert!(!is_deep_water_ignored(0, 39, 23));
    assert!(!is_deep_water_ignored(0, 47, 20));
    assert!(is_deep_water_ignored(1, 43, 39));
    assert!(is_deep_water_ignored(1, 43, 40));
    assert!(!is_deep_water_ignored(1, 43, 41));
    assert!(!is_deep_water_ignored(530, 43, 39));
}

#[test]
fn tile_list_is_msb_first_bitset_string() {
    let mut tiles = vec![false; 4096];
    tiles[0] = true; // y 0, x 0 -> last character
    tiles[64 + 2] = true; // y 1, x 2
    let bytes = tile_list_bytes(54261, &tiles);
    assert_eq!(&bytes[0..4], b"MAPS");
    assert_eq!(u32::from_le_bytes(bytes[4..8].try_into().unwrap()), 10);
    assert_eq!(u32::from_le_bytes(bytes[8..12].try_into().unwrap()), 54261);
    let s = &bytes[12..];
    assert_eq!(s.len(), 4096);
    assert_eq!(s[4095], b'1');
    assert_eq!(s[4095 - 66], b'1');
    let ones: Vec<usize> = (0..s.len()).filter(|&i| s[i] == b'1').collect();
    assert_eq!(ones, vec![4095 - 66, 4095]);
    assert!(s.iter().all(|&c| c == b'0' || c == b'1'));
}

#[test]
fn liquid_copies_use_operator_brackets() {
    let mut map = HashMap::from([(1u32, 7i8)]);
    apply_copies(&mut map, &[(2, 1), (3, 99)], 0);
    assert_eq!(map.get(&2), Some(&7));
    assert_eq!(map.get(&3), Some(&0));
    assert_eq!(map.get(&99), Some(&0)); // default-inserted source
}
