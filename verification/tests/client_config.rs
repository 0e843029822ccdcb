use wow_tools::client::cli::default_region;
use wow_tools::client::config::ConfigFile;
use wow_tools::client::index_set::{CdnKind, IndexSet};
use wow_tools::client::product::{region_cdn, subfolder_from_product_config};
use wow_tools::client::util::{hex, md5};

const SAMPLE: &str = "# Build Configuration\n\nroot = 28f965732c7762e2ef3d1c00d9d2f801\n\
install = 8c3b9bb3248a8d718f76a7092ac0cc24 59bebcea12d0a9ceba2af8859653bcc6\n\
install-size = 17491 16957\n\
build-name = WOW-54261patch3.4.3_ClassicRetail\n";

#[test]
fn parses_values() {
    let cfg = ConfigFile::parse(SAMPLE.as_bytes()).unwrap();
    assert_eq!(cfg.key("root", 0).unwrap()[0], 0x28);
    assert!(cfg.key("root", 1).is_none());
    assert_eq!(cfg.key("install", 1).unwrap()[15], 0xc6);
    assert_eq!(cfg.values("install-size").unwrap(), ["17491", "16957"]);
    assert_eq!(
        cfg.first("build-name"),
        Some("WOW-54261patch3.4.3_ClassicRetail")
    );
    assert_eq!(cfg.names().len(), 4);
}

#[test]
fn md5_is_checked() {
    let key = md5(SAMPLE.as_bytes());
    assert!(ConfigFile::parse_verified(SAMPLE.as_bytes(), &key).is_ok());
    assert!(ConfigFile::parse_verified(b"root = 00", &key).is_err());
    assert!(ConfigFile::parse(b"<?xml version=\"1.0\"?><Error/>").is_err());
}

fn k(b: u8) -> String {
    hex(&[b; 16])
}

#[test]
fn selection_matches_the_agent_set() {
    let text = format!(
        "# CDN Configuration\narchives = {} {}\narchives-index-size = 1 2\narchive-group = {}\npatch-archives = {} {}\npatch-archives-index-size = 3 4\npatch-archive-group = {}\nfile-index = {}\nfile-index-size = 5\npatch-file-index = {}\npatch-file-index-size = 6\n",
        k(1),
        k(2),
        k(3),
        k(4),
        k(5),
        k(6),
        k(7),
        k(8)
    );
    let set = IndexSet::from_cdn_config(&ConfigFile::parse(text.as_bytes()).unwrap()).unwrap();
    let dl: Vec<(u8, CdnKind)> = set.downloads().iter().map(|(k, c)| (k[0], *c)).collect();
    assert_eq!(
        dl,
        [
            (1, CdnKind::Data),
            (2, CdnKind::Data),
            (7, CdnKind::Data),
            (4, CdnKind::Patch),
            (5, CdnKind::Patch),
            (8, CdnKind::Patch),
        ]
    );
    assert_eq!(set.archive_group, Some([3; 16]));
    assert_eq!(set.patch_archive_group, Some([6; 16]));
    let names = set.file_names();
    assert_eq!(names.len(), 8);
    assert!(names.contains(&format!("{}.index", k(3))));
    assert_eq!(CdnKind::Patch.dir(), "patch");
}

#[test]
fn optional_fields_and_errors() {
    let only = format!("archives = {}\n", k(1));
    let set = IndexSet::from_cdn_config(&ConfigFile::parse(only.as_bytes()).unwrap()).unwrap();
    assert_eq!(set.downloads().len(), 1);
    assert!(set.patch_archives.is_empty() && set.archive_group.is_none());
    assert!(
        IndexSet::from_cdn_config(&ConfigFile::parse(b"file-index = 00").unwrap()).is_err()
    );
    let bad = format!("archives = {} zz\n", k(1));
    assert!(IndexSet::from_cdn_config(&ConfigFile::parse(bad.as_bytes()).unwrap()).is_err());
}

#[test]
fn subfolder_is_extracted() {
    let json = r#"{"all":{"config":{"data_dir":"Data/","shared_container_default_subfolder": "_classic_","x":1}}}"#;
    assert_eq!(
        subfolder_from_product_config(json).as_deref(),
        Some("_classic_")
    );
    assert_eq!(subfolder_from_product_config("{}"), None);
    assert_eq!(
        subfolder_from_product_config(r#"{"shared_container_default_subfolder":"../x"}"#),
        None
    );
}

#[test]
fn regions() {
    assert_eq!(region_cdn("EU").unwrap().hosts, "level3.blizzard.com");
    assert!(region_cdn("xx").is_none());
}

#[test]
fn region_defaults() {
    let r = |l| default_region(l);
    assert_eq!(
        [
            r("enUS"),
            r("esMX"),
            r("ptBR"),
            r("deDE"),
            r("frFR"),
            r("ruRU")
        ],
        ["US", "US", "US", "EU", "EU", "EU"]
    );
    assert_eq!([r("koKR"), r("zhTW"), r("zhCN")], ["KR", "TW", "CN"]);
}

#[test]
fn config_values_keep_their_order() {
    let cfg = ConfigFile::parse(b"a = 1 2 3\nb =\n# c = 4\n").unwrap();
    assert_eq!(cfg.values("a").unwrap(), ["1", "2", "3"]);
    assert_eq!(cfg.first("b"), None);
    assert!(cfg.values("c").is_none());
}
