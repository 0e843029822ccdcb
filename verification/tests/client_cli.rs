use wow_tools::client::cli::{parse, Arch, CliError, Command, Os};

fn argv(s: &str) -> Vec<String> {
    s.split_whitespace().map(str::to_owned).collect()
}

#[test]
fn download_defaults_and_tags() {
    let Command::Download(o) = parse(&argv("download --output /tmp/x --locale eses")).unwrap() else {
        panic!()
    };
    assert_eq!(o.selection.region, "EU");
    assert_eq!(
        o.selection.agent_tags(),
        "Windows x86_64 EU? esES speech?:Windows x86_64 EU? esES text?"
    );
    assert_eq!(o.selection.branch(), "eu");
    assert_eq!(o.net.threads, 4);
    assert_eq!(o.net.mirror.as_deref(), Some("https://archive.wow.tools"));
    assert!(!o.dry_run);
}

#[test]
fn download_options() {
    let Command::Download(o) = parse(&argv(
        "download -o d --os macos --arch arm64 --locale deDE --text enUS --region US --threads 8 --no-mirror --dry-run --limit-files 5 --include-fdid 1349477,1",
    ))
    .unwrap() else {
        panic!()
    };
    assert_eq!(o.selection.os, Os::MacOs);
    assert_eq!(o.selection.arch, Arch::Arm64);
    assert_eq!((o.selection.speech, o.selection.text), ("deDE", "enUS"));
    assert_eq!(o.selection.region, "US");
    assert_eq!(
        o.selection.agent_tags(),
        "OSX arm64 US? deDE speech?:OSX arm64 US? enUS text?"
    );
    assert!(o.net.mirror.is_none() && o.dry_run);
    assert_eq!(o.limit_files, Some(5));
    assert_eq!(o.include_fdids, [1_349_477, 1]);
    assert!(!o.indices_only);
    let Command::Download(r) = parse(&argv("download -o d --indices-only")).unwrap() else {
        panic!()
    };
    assert!(r.indices_only);
}

#[test]
fn rejections() {
    for bad in [
        "download --os android -o x",
        "download --os ios -o x",
        "download --os web -o x",
        "download --arch x86_32 -o x",
        "download --locale xxYY -o x",
        "download --region MARS -o x",
        "download",
        "download -o x --threads 0",
        "frobnicate",
    ] {
        assert!(parse(&argv(bad)).is_err(), "{bad}");
    }
    let err = parse(&argv("download --os android -o x"))
        .unwrap_err()
        .message();
    assert!(err.contains("no android client"), "{err}");
}

#[test]
fn serve_and_list() {
    let Command::Serve(s) = parse(&argv("serve --bind 0.0.0.0 --cache c")).unwrap() else {
        panic!()
    };
    assert_eq!(s.port, 1119);
    assert_eq!(s.bind, "0.0.0.0");
    assert!(matches!(parse(&argv("list --port 5")).unwrap(), Command::List(n) if n.port == 5));
    assert!(matches!(parse(&[]).unwrap(), Command::Help));
}

#[test]
fn cli_error_messages() {
    assert_eq!(
        parse(&argv("download -o x --threads 0")).unwrap_err().message(),
        "--threads must be between 1 and 32"
    );
    assert_eq!(parse(&argv("download")).unwrap_err().message(), "download needs --output <dir>");
    assert_eq!(parse(&argv("list --port")).unwrap_err().message(), "--port needs a value");
    assert_eq!(
        parse(&argv("list --port 70000")).unwrap_err().message(),
        "--port: invalid number \"70000\""
    );
    assert_eq!(
        parse(&argv("download -o x --include-fdid 1,x")).unwrap_err().message(),
        "--include-fdid: invalid number \"x\""
    );
    assert!(matches!(parse(&argv("list --bogus")).unwrap_err(), CliError::UnknownOption(o) if o == "--bogus"));
    assert!(parse(&argv("frobnicate")).unwrap_err().message().starts_with("unknown command frobnicate\n\n"));
    assert_eq!(
        parse(&argv("download -o x --region MARS")).unwrap_err().message(),
        "unknown region MARS; available: CN EU KR TW US"
    );
}

#[test]
fn help_flags_and_defaults() {
    assert!(matches!(parse(&argv("download --help")).unwrap(), Command::Help));
    assert!(matches!(parse(&argv("help")).unwrap(), Command::Help));
    let Command::List(n) = parse(&argv("list --mirror https://m.example/ --cache c")).unwrap() else {
        panic!()
    };
    assert_eq!(n.port, 0);
    assert_eq!(n.mirror.as_deref(), Some("https://m.example"));
    assert_eq!(n.cache.as_deref(), Some("c"));
}
