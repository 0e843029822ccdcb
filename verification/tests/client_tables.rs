use wow_tools::client::server::{cache_complete, proxy_next, proxy_start, ProxyAction, Upstream};
use wow_tools::client::progress::{format_hms, Progress};
use wow_tools::client::server::{parse_range, range_reply, route, valid_path, Route, Stats, TableKind};
use wow_tools::client::tables::{bgdl_table, cdns_table, versions_table, Table};
use wow_tools::client::util::human_size;

const REAL_CDNS: &str = "Name!STRING:0|Path!STRING:0|Hosts!STRING:0|Servers!STRING:0|ConfigPath!STRING:0\n\
## seqn = 4019526\n\
us|tpr/wow|level3.blizzard.com us.cdn.blizzard.com|http://level3.blizzard.com/?maxhosts=8|tpr/configs/data\n\
eu|tpr/wow|level3.blizzard.com|http://level3.blizzard.com/?maxhosts=8|tpr/configs/data\n";

#[test]
fn parses_real_cdns() {
    let t = Table::parse(REAL_CDNS).unwrap();
    assert_eq!(t.seqn, Some(4_019_526));
    assert_eq!(t.rows.len(), 2);
    let eu = t.find_row("Name", "EU").unwrap();
    assert_eq!(t.get(eu, "hosts"), Some("level3.blizzard.com"));
    assert_eq!(t.get(0, "ConfigPath"), Some("tpr/configs/data"));
    assert_eq!(t.render(), REAL_CDNS, "render reproduces Blizzard bytes");
}

#[test]
fn versions_round_trip() {
    let text = versions_table(42).render();
    assert!(text.starts_with("Region!STRING:0|BuildConfig!HEX:16|CDNConfig!HEX:16|KeyRing!HEX:16|BuildId!DEC:4|VersionsName!String:0|ProductConfig!HEX:16\n## seqn = 42\nus|c91609c69ed2ab39d44039390a1be969|a838aeb3cda2e027e9c96bd9953944b3||54261|3.4.3.54261|fac7680539cd51bc0a791a88ade3da21\n"));
    let t = Table::parse(&text).unwrap();
    assert_eq!(t.rows.len(), 5);
    let kr = t.find_row("Region", "kr").unwrap();
    assert_eq!(t.get(kr, "VersionsName"), Some("3.4.3.54261"));

    let c = Table::parse(&cdns_table(42, "127.0.0.1:1119").render()).unwrap();
    assert_eq!(c.get(0, "Hosts"), Some("127.0.0.1:1119"));
    assert_eq!(c.get(0, "Path"), Some("tpr/wow"));
    assert!(bgdl_table(1).rows.is_empty());
}

#[test]
fn rejects_garbage() {
    assert!(Table::parse("").is_err());
    assert!(Table::parse("no header\n").is_err());
    assert!(Table::parse("A!STRING:0|B!STRING:0\nx\n").is_err());
}

#[test]
fn rendered_tables_parse_back_to_themselves() {
    for t in [versions_table(7), cdns_table(0, "h:1"), bgdl_table(u64::MAX)] {
        assert_eq!(Table::parse(&t.render()).unwrap(), t);
    }
}

#[test]
fn range_parsing() {
    assert_eq!(parse_range(None, 10), Ok(None));
    assert_eq!(parse_range(Some("bytes=2-5"), 10), Ok(Some((2, 5))));
    assert_eq!(parse_range(Some("bytes=2-"), 10), Ok(Some((2, 9))));
    assert_eq!(parse_range(Some("bytes=-3"), 10), Ok(Some((7, 9))));
    assert_eq!(parse_range(Some("bytes=5-100"), 10), Ok(Some((5, 9))));
    assert_eq!(parse_range(Some("bytes=10-"), 10), Err(()));
    assert_eq!(parse_range(Some("bytes=1-2,4-5"), 10), Ok(None));
    assert_eq!(parse_range(Some("items=1-2"), 10), Ok(None));
    assert!(valid_path("tpr/wow/data/aa/bb/x.index"));
    assert!(!valid_path("tpr/../x") && !valid_path("tpr//x") && !valid_path("tpr/a b"));
}

#[test]
fn range_edge_cases() {
    assert_eq!(parse_range(Some("  bytes= 3 - 4 "), 10), Ok(Some((3, 4))));
    assert_eq!(parse_range(Some("bytes=-30"), 10), Ok(Some((0, 9))));
    assert_eq!(parse_range(Some("bytes=-0"), 10), Err(()));
    assert_eq!(parse_range(Some("bytes=-3"), 0), Err(()));
    assert_eq!(parse_range(Some("bytes=5-2"), 10), Ok(None));
    assert_eq!(parse_range(Some("bytes=x-2"), 10), Ok(None));
    assert!(!valid_path("") && !valid_path("./x") && !valid_path("/abs"));
}

#[test]
fn line_format() {
    // The rate, percentage and ETA of the line are measured in floating
    // point by the program; the rest of the line is the library's.
    let mut p = Progress::new("data", 10, 2048, false);
    p.done_files = 5;
    p.done_bytes = 1024;
    let line = format!("{}, {}", p.count_text(), p.bytes_text());
    assert!(line.starts_with("data: 5/10 files, 1.00 KiB/2.00 KiB"), "{line}");
    assert_eq!(format_hms(3725), "01:02:05");
    let count_only = format!("{}, ", Progress::new("indices", 4, 0, false).count_text());
    assert!(count_only.starts_with("indices: 0/4 files, "), "{count_only}");
}

#[test]
fn progress_redraw_interval() {
    let mut p = Progress::new("data", 10, 2048, true);
    assert!(!p.add(1, 100, 999));
    assert!(p.add(1, 100, 1000));
    assert_eq!((p.done_files, p.done_bytes), (2, 200));
    let mut q = Progress::new("data", 10, 2048, false);
    assert!(!q.add(1, 1, 14_999));
    assert!(q.add(0, 0, 15_000));
    assert!(q.counts_bytes());
    assert!(!Progress::new("indices", 4, 0, false).counts_bytes());
    assert_eq!(human_size(1024), "1.00 KiB");
}

#[test]
fn hms_keeps_counting_hours() {
    assert_eq!(format_hms(0), "00:00:00");
    assert_eq!(format_hms(360_000 + 59), "100:00:59");
}

#[test]
fn stats_summary_line() {
    let s = Stats {
        requests: 5,
        blizzard_bytes: 2048,
        blizzard_hits: 2,
        mirror_bytes: 0,
        mirror_hits: 0,
        cache_bytes: 512,
        cache_hits: 1,
        not_found: 2,
    };
    assert_eq!(
        s.summary(),
        "5 requests: Blizzard CDN 2 (2.00 KiB), mirror 0 (0 B), cache 1 (512 B), not found 2"
    );
}

#[test]
fn requests_are_routed() {
    assert_eq!(route(false, "/wow_classic/versions"), Route::MethodNotAllowed);
    assert_eq!(route(true, "/wow_classic/versions"), Route::Table(TableKind::Versions));
    assert_eq!(route(true, "/WOW_CLASSIC/cdns?x=1"), Route::Table(TableKind::Cdns));
    assert_eq!(route(true, "//wow_classic/bgdl#frag"), Route::Table(TableKind::Bgdl));
    assert_eq!(route(true, "/wow_classic/other"), Route::NotFound);
    assert_eq!(route(true, "/tpr/wow/config/ab/cd/abcd?q"), Route::Proxy("tpr/wow/config/ab/cd/abcd".to_owned()));
    assert_eq!(route(true, "/"), Route::Root);
    assert_eq!(route(true, "/?x"), Route::Root);
    assert_eq!(route(true, "/nothing"), Route::NotFound);
}

#[test]
fn cached_file_replies() {
    assert_eq!(range_reply(None, 10), (200, 0, 10, None));
    assert_eq!(range_reply(Some("bytes=2-5"), 10), (206, 2, 4, Some("bytes 2-5/10".to_owned())));
    assert_eq!(range_reply(Some("bytes=-3"), 10), (206, 7, 3, Some("bytes 7-9/10".to_owned())));
    assert_eq!(range_reply(Some("bytes=20-"), 10), (416, 0, 0, Some("bytes */10".to_owned())));
}

#[test]
fn proxy_walks_blizzard_then_mirror() {
    // Two Blizzard hosts, both missing: remembered, then the mirror streams.
    let (s, a) = proxy_start(2, false, true);
    assert_eq!(a, ProxyAction::Ask(Upstream::Blizzard(0)));
    let (s, a, remember) = proxy_next(s, 2, true, Some(404));
    assert_eq!((a, remember), (ProxyAction::Ask(Upstream::Blizzard(1)), false));
    let (s, a, remember) = proxy_next(s, 2, true, Some(410));
    assert_eq!((a, remember), (ProxyAction::Ask(Upstream::Mirror), true));
    let (_, a, _) = proxy_next(s, 2, true, Some(206));
    assert_eq!(a, ProxyAction::Stream(Upstream::Mirror));

    // A Blizzard answer streams at once.
    let (s, _) = proxy_start(2, false, true);
    let (_, a, _) = proxy_next(s, 2, true, Some(200));
    assert_eq!(a, ProxyAction::Stream(Upstream::Blizzard(0)));

    // Missing everywhere: 404; a failure on the way: 502.
    let (s, _) = proxy_start(1, false, true);
    let (s, _, _) = proxy_next(s, 1, true, Some(403));
    let (_, a, _) = proxy_next(s, 1, true, Some(404));
    assert_eq!(a, ProxyAction::Respond(404));
    let (s, _) = proxy_start(1, false, true);
    let (s, a, remember) = proxy_next(s, 1, true, None);
    assert_eq!((a, remember), (ProxyAction::Ask(Upstream::Mirror), false));
    let (_, a, _) = proxy_next(s, 1, true, Some(404));
    assert_eq!(a, ProxyAction::Respond(502));

    // A redirect from Blizzard does not open the mirror.
    let (s, _) = proxy_start(1, false, true);
    let (_, a, _) = proxy_next(s, 1, true, Some(301));
    assert_eq!(a, ProxyAction::Respond(502));

    // A path known missing at Blizzard goes to the mirror, or is 404 without one.
    assert_eq!(proxy_start(2, true, true).1, ProxyAction::Ask(Upstream::Mirror));
    assert_eq!(proxy_start(2, true, false).1, ProxyAction::Respond(404));
    assert_eq!(proxy_start(0, false, false).1, ProxyAction::Respond(404));

    assert!(cache_complete(None, false));
    assert!(!cache_complete(Some("bytes=0-1"), false));
    assert!(!cache_complete(None, true));
}

#[test]
fn refused_tables_are_those_with_a_bad_first_or_later_line() {
    // Comments, empty lines and trailing CRs are skipped before the header.
    let t = Table::parse("## seqn = 3\r\n\r\nA!STRING:0|B!HEX:16\r\nx|y\r\n").unwrap();
    assert_eq!(t.rows.len(), 1);
    assert_eq!(t.seqn, Some(3));
    assert!(Table::parse("## only comments\n\n").is_err());
    assert!(Table::parse("## c\nA|B\n").is_err());
    assert!(Table::parse("A!x|B\nz|1|2\n").is_err());
}
