use resource_merger::{
    merge_packs_to_bytes, merge_packs_to_bytes_with_options, run_with_settings, DirPack,
    FetchOutcome, FetchedBody, MergeError, MergeOptions, MergeOutcome, OverwritePolicy,
    PackInput, Settings, SupportedFormatsPolicy, UrlPack, ZipFilePack,
};
use std::io::{Cursor, Read, Write};

fn dir_pack(root: &str, files: &[(&str, &str)]) -> PackInput {
    PackInput::Dir(DirPack {
        root: root.to_string(),
        files: files
            .iter()
            .map(|(p, c)| (p.to_string(), c.as_bytes().to_vec()))
            .collect(),
    })
}

fn zip_of(files: &[(&str, &str)]) -> Vec<u8> {
    let mut cursor = Cursor::new(Vec::new());
    {
        let mut zw = zip::ZipWriter::new(&mut cursor);
        for (name, content) in files {
            zw.start_file(*name, zip::write::SimpleFileOptions::default())
                .unwrap();
            zw.write_all(content.as_bytes()).unwrap();
        }
        zw.finish().unwrap();
    }
    cursor.into_inner()
}

fn read_text(bytes: &[u8], name: &str) -> Option<String> {
    let mut archive = zip::ZipArchive::new(Cursor::new(bytes.to_vec())).unwrap();
    let mut file = match archive.by_name(name) {
        Ok(f) => f,
        Err(_) => return None,
    };
    let mut s = String::new();
    file.read_to_string(&mut s).unwrap();
    Some(s)
}

fn names_in(bytes: &[u8]) -> Vec<String> {
    let mut archive = zip::ZipArchive::new(Cursor::new(bytes.to_vec())).unwrap();
    (0..archive.len())
        .map(|i| archive.by_index(i).unwrap().name().to_string())
        .collect()
}

fn with_policy(policy: OverwritePolicy) -> MergeOptions {
    let mut o = MergeOptions::default();
    o.overwrite = policy;
    o
}

#[test]
fn merge_dirs_and_zipbytes() {
    let base = dir_pack(
        "base",
        &[
            ("assets/test/a.txt", "hello"),
            ("assets/test/only_in_base.txt", "base"),
        ],
    );
    let over = dir_pack("over", &[("assets/test/a.txt", "world")]);
    let bytes = zip_of(&[("assets/test/b.txt", "fromzip")]);
    let packs = vec![base, over, PackInput::ZipBytes(bytes)];
    let out = merge_packs_to_bytes(&packs).unwrap();
    assert_eq!(read_text(&out, "assets/test/a.txt").unwrap(), "world");
    assert_eq!(read_text(&out, "assets/test/b.txt").unwrap(), "fromzip");
}

#[test]
fn end_to_end_directory_then_archive() {
    let a = dir_pack("A", &[("assets/x.txt", "hello")]);
    let b = PackInput::ZipBytes(zip_of(&[("assets/x.txt", "world"), ("assets/y.txt", "new")]));
    let out = merge_packs_to_bytes(&[a, b]).unwrap();
    assert_eq!(read_text(&out, "assets/x.txt").unwrap(), "world");
    assert_eq!(read_text(&out, "assets/y.txt").unwrap(), "new");
    let meta = read_text(&out, "pack.mcmeta").unwrap();
    assert!(meta.contains("\"min_format\":1"));
    assert!(meta.contains("\"max_format\":1"));
    assert!(read_text(&out, "README.md").unwrap().contains("- Dir: A\n- ZipBytes: <in-memory>\n"));
    let mut archive = zip::ZipArchive::new(Cursor::new(out.clone())).unwrap();
    let mut icon = Vec::new();
    archive.by_name("pack.png").unwrap().read_to_end(&mut icon).unwrap();
    assert_eq!(&icon[0..8], &[0x89, b'P', b'N', b'G', 0x0d, 0x0a, 0x1a, 0x0a]);
}

#[test]
fn last_wins_takes_latest_content() {
    let packs = vec![
        dir_pack("one", &[("f.txt", "1"), ("g.txt", "g1")]),
        dir_pack("two", &[("f.txt", "2")]),
        dir_pack("three", &[("f.txt", "3")]),
    ];
    let out = merge_packs_to_bytes_with_options(&packs, &with_policy(OverwritePolicy::LastWins)).unwrap();
    assert_eq!(read_text(&out, "f.txt").unwrap(), "3");
    assert_eq!(read_text(&out, "g.txt").unwrap(), "g1");
}

#[test]
fn first_wins_and_skip_keep_earliest_content() {
    let packs = vec![
        dir_pack("one", &[("f.txt", "1")]),
        dir_pack("two", &[("f.txt", "2"), ("h.txt", "h2")]),
    ];
    for policy in [OverwritePolicy::FirstWins, OverwritePolicy::SkipIfExists] {
        let out = merge_packs_to_bytes_with_options(&packs, &with_policy(policy)).unwrap();
        assert_eq!(read_text(&out, "f.txt").unwrap(), "1");
        assert_eq!(read_text(&out, "h.txt").unwrap(), "h2");
    }
}

#[test]
fn error_if_conflict_names_the_path() {
    let packs = vec![
        dir_pack("one", &[("a/f.txt", "1")]),
        dir_pack("two", &[("a/f.txt", "2")]),
    ];
    match merge_packs_to_bytes_with_options(&packs, &with_policy(OverwritePolicy::ErrorIfConflict)) {
        Err(MergeError::InvalidInput(m)) => assert_eq!(m, "conflicting path in inputs: a/f.txt"),
        other => panic!("expected a conflict, got {:?}", other.map(|b| b.len())),
    }
    let disjoint = vec![
        dir_pack("one", &[("a/f.txt", "1")]),
        dir_pack("two", &[("a/g.txt", "2")]),
    ];
    assert!(merge_packs_to_bytes_with_options(&disjoint, &with_policy(OverwritePolicy::ErrorIfConflict)).is_ok());
}

#[test]
fn archive_entries_sorted_and_runs_identical() {
    let packs = vec![
        dir_pack("one", &[("b.txt", "b"), ("a/z.txt", "z"), ("a/b.txt", "ab"), ("C.txt", "c")]),
        PackInput::ZipBytes(zip_of(&[("aa.txt", "x")])),
    ];
    let first = merge_packs_to_bytes(&packs).unwrap();
    let second = merge_packs_to_bytes(&packs).unwrap();
    assert_eq!(first, second);
    let names = names_in(&first);
    assert_eq!(
        names,
        vec!["C.txt", "a/b.txt", "a/z.txt", "aa.txt", "b.txt", "pack.mcmeta", "pack.png", "README.md"]
    );
}

#[test]
fn unsafe_archive_entries_are_dropped() {
    let bytes = zip_of(&[("../evil.txt", "x"), ("ok\\inner.txt", "y"), ("dir/", "")]);
    let out = merge_packs_to_bytes(&[PackInput::ZipBytes(bytes)]).unwrap();
    let names = names_in(&out);
    assert_eq!(names, vec!["ok/inner.txt", "pack.mcmeta", "pack.png", "README.md"]);
}

#[test]
fn input_descriptor_is_replaced_and_read() {
    let packs = vec![
        dir_pack("one", &[("pack.mcmeta", "{\"pack\":{\"pack_format\":\"15\",\"description\":\"x\"}}")]),
        PackInput::ZipBytes(zip_of(&[("pack.mcmeta", "{\"pack\":{\"pack_format\":7}}")])),
    ];
    let out = merge_packs_to_bytes(&packs).unwrap();
    let meta = read_text(&out, "pack.mcmeta").unwrap();
    assert_eq!(
        meta,
        "{\"pack\":{\"description\":\"Made with Rust API: resource_merger:0.1.0\",\"max_format\":15,\"min_format\":1,\"pack_format\":15,\"supported_formats\":[1,15]}}"
    );
}

#[test]
fn override_wins_over_declared_formats() {
    let packs = vec![dir_pack("one", &[("pack.mcmeta", "{\"pack\":{\"pack_format\":30}}")])];
    let mut opts = MergeOptions::default();
    opts.pack_format_override = Some(99);
    opts.supported_formats_policy = SupportedFormatsPolicy::LowestToHighest;
    opts.description_override = Some("mine".to_string());
    let out = merge_packs_to_bytes_with_options(&packs, &opts).unwrap();
    assert_eq!(
        read_text(&out, "pack.mcmeta").unwrap(),
        "{\"pack\":{\"description\":\"mine\",\"max_format\":30,\"min_format\":30,\"pack_format\":99,\"supported_formats\":[30]}}"
    );
}

#[test]
fn overlays_merge_across_inputs() {
    let a = "{\"pack\":{\"pack_format\":10},\"overlays\":{\"entries\":[{\"directory\":\"ov_b\",\"formats\":1},{\"directory\":\"ov_a\",\"formats\":2}]}}";
    let b = "{\"pack\":{\"pack_format\":12},\"overlays\":{\"entries\":[{\"directory\":\"ov_b\",\"formats\":3}]}}";
    let packs = vec![dir_pack("a", &[("pack.mcmeta", a)]), dir_pack("b", &[("pack.mcmeta", b)])];
    let mut opts = MergeOptions::default();
    opts.overwrite = OverwritePolicy::FirstWins;
    let out = merge_packs_to_bytes_with_options(&packs, &opts).unwrap();
    let meta = read_text(&out, "pack.mcmeta").unwrap();
    assert!(meta.starts_with(
        "{\"overlays\":{\"entries\":[{\"directory\":\"ov_a\",\"formats\":2},{\"directory\":\"ov_b\",\"formats\":3}]},"
    ));
    assert!(meta.contains("\"max_format\":12"));
}

#[test]
fn nested_descriptor_copies_count_for_formats() {
    let packs = vec![dir_pack(
        "one",
        &[("pack.mcmeta", "{\"pack\":{\"pack_format\":3}}"), ("ov/pack.mcmeta", "{\"pack_format\":9,\"max_format\":\"11\"}")],
    )];
    let mut opts = MergeOptions::default();
    opts.supported_formats_policy = SupportedFormatsPolicy::LowestToHighest;
    let out = merge_packs_to_bytes_with_options(&packs, &opts).unwrap();
    let meta = read_text(&out, "pack.mcmeta").unwrap();
    assert!(meta.contains("\"max_format\":11"));
    assert!(meta.contains("\"min_format\":3"));
    assert!(meta.contains("\"pack_format\":9"));
    assert!(meta.contains("\"supported_formats\":[3,9]"));
    assert_eq!(read_text(&out, "ov/pack.mcmeta").unwrap(), "{\"pack_format\":9,\"max_format\":\"11\"}");
}

#[test]
fn modern_descriptor_shape_at_threshold() {
    let packs = vec![dir_pack("one", &[("pack.mcmeta", "{\"pack\":{\"pack_format\":70}}")])];
    let mut opts = MergeOptions::default();
    opts.supported_formats_policy = SupportedFormatsPolicy::LowestToHighest;
    opts.description_override = Some("d".to_string());
    let out = merge_packs_to_bytes_with_options(&packs, &opts).unwrap();
    assert_eq!(
        read_text(&out, "pack.mcmeta").unwrap(),
        "{\"pack\":{\"description\":\"d\",\"max_format\":70,\"min_format\":70}}"
    );
}

#[test]
fn zip_file_input_is_read() {
    let z = PackInput::ZipFile(ZipFilePack { path: "p.zip".to_string(), bytes: zip_of(&[("q.txt", "Q")]) });
    let out = merge_packs_to_bytes(&[z]).unwrap();
    assert_eq!(read_text(&out, "q.txt").unwrap(), "Q");
    assert!(read_text(&out, "README.md").unwrap().contains("- ZipFile: p.zip\n"));
}

#[test]
fn broken_archive_is_a_zip_error() {
    let r = merge_packs_to_bytes(&[PackInput::ZipBytes(b"not a zip".to_vec())]);
    assert!(matches!(r, Err(MergeError::Zip(_))));
    let good = dir_pack("d", &[("k.txt", "K")]);
    let bad = PackInput::ZipFile(ZipFilePack { path: "bad.zip".to_string(), bytes: b"PK junk".to_vec() });
    assert!(matches!(merge_packs_to_bytes(&[good, bad]), Err(MergeError::Zip(_))));
    let mut session = resource_merger::MergeSession::new();
    assert!(matches!(session.absorb_archive_bytes(&b"junk".to_vec(), OverwritePolicy::LastWins), Err(MergeError::Zip(_))));
}

#[test]
fn conflict_reports_first_refused_path() {
    let packs = vec![
        dir_pack("one", &[("b.txt", "1"), ("a.txt", "1")]),
        PackInput::ZipBytes(zip_of(&[("x.txt", "x"), ("a.txt", "2"), ("b.txt", "2")])),
    ];
    let mut s = settings_for(packs, false, false);
    s.options.overwrite = OverwritePolicy::ErrorIfConflict;
    match run_with_settings(&s) {
        Err(MergeError::InvalidInput(m)) => assert_eq!(m, "conflicting path in inputs: a.txt"),
        _ => panic!("expected a conflict"),
    }
}

fn url_pack(outcome: FetchOutcome) -> PackInput {
    PackInput::Url(UrlPack { url: "http://host/p.zip".to_string(), outcome })
}

#[test]
fn fetched_archive_is_merged() {
    let body = zip_of(&[("u.txt", "U")]);
    let p = url_pack(FetchOutcome::Received(FetchedBody {
        status: 200,
        status_text: "200 OK".to_string(),
        content_type: Some("application/zip".to_string()),
        body,
    }));
    let out = merge_packs_to_bytes(&[p]).unwrap();
    assert_eq!(read_text(&out, "u.txt").unwrap(), "U");
    assert!(read_text(&out, "README.md").unwrap().contains("- Url: http://host/p.zip\n"));
}

#[test]
fn fetch_failures_fail_or_are_skipped() {
    let failed = || url_pack(FetchOutcome::Failed("connection refused".to_string()));
    match merge_packs_to_bytes(&[failed()]) {
        Err(MergeError::InvalidInput(m)) => {
            assert_eq!(m, "failed to GET http://host/p.zip: connection refused")
        }
        _ => panic!("expected an invalid input error"),
    }
    let not_found = url_pack(FetchOutcome::Received(FetchedBody {
        status: 404,
        status_text: "404 Not Found".to_string(),
        content_type: None,
        body: vec![],
    }));
    match merge_packs_to_bytes(&[not_found]) {
        Err(MergeError::InvalidInput(m)) => assert_eq!(m, "GET http://host/p.zip returned 404 Not Found"),
        _ => panic!("expected an invalid input error"),
    }
    let html = url_pack(FetchOutcome::Received(FetchedBody {
        status: 200,
        status_text: "200 OK".to_string(),
        content_type: Some("text/html".to_string()),
        body: b"<html>".to_vec(),
    }));
    match merge_packs_to_bytes(&[html]) {
        Err(MergeError::InvalidInput(m)) => assert_eq!(
            m,
            "GET http://host/p.zip did not return a zip file (content-type: text/html)."
        ),
        _ => panic!("expected an invalid input error"),
    }
    let mut opts = MergeOptions::default();
    opts.tolerate_missing_inputs = true;
    let out = merge_packs_to_bytes_with_options(&[failed(), dir_pack("d", &[("k.txt", "K")])], &opts).unwrap();
    assert_eq!(read_text(&out, "k.txt").unwrap(), "K");
}

fn settings_for(inputs: Vec<PackInput>, dir: bool, dry_run: bool) -> Settings {
    let mut options = MergeOptions::default();
    options.dry_run = dry_run;
    Settings { inputs, out: "out".to_string(), dir, options }
}

#[test]
fn dry_run_leaves_nothing_to_write() {
    let s = settings_for(vec![dir_pack("d", &[("k.txt", "K")])], false, true);
    assert!(matches!(run_with_settings(&s), Ok(MergeOutcome::DryRun)));
    let s = settings_for(vec![dir_pack("d", &[("k.txt", "K")])], true, true);
    assert!(matches!(run_with_settings(&s), Ok(MergeOutcome::DryRun)));
    let mut bad = settings_for(
        vec![dir_pack("a", &[("k.txt", "1")]), dir_pack("b", &[("k.txt", "2")])],
        false,
        true,
    );
    bad.options.overwrite = OverwritePolicy::ErrorIfConflict;
    assert!(run_with_settings(&bad).is_err());
}

#[test]
fn settings_give_archive_or_directory() {
    let s = settings_for(vec![dir_pack("d", &[("k.txt", "K")])], false, false);
    match run_with_settings(&s) {
        Ok(MergeOutcome::Archive(b)) => assert_eq!(read_text(&b, "k.txt").unwrap(), "K"),
        _ => panic!("expected an archive"),
    }
    let s = settings_for(vec![dir_pack("d", &[("x/k.txt", "K")])], true, false);
    match run_with_settings(&s) {
        Ok(MergeOutcome::Directory(files)) => {
            let names: Vec<&str> = files.iter().map(|f| f.0.as_str()).collect();
            assert_eq!(names, vec!["x/k.txt", "pack.mcmeta", "pack.png", "README.md"]);
            assert_eq!(files[0].1, b"K".to_vec());
        }
        _ => panic!("expected a directory"),
    }
}

#[test]
fn overlong_entry_name_fails_archive_runs_alike() {
    let long = "a".repeat(70_000);
    let files = [(long.as_str(), "x")];
    let expected = format!("entry too large for an archive: {}", long);
    match merge_packs_to_bytes(&[dir_pack("d", &files)]) {
        Err(MergeError::InvalidInput(m)) => assert_eq!(m, expected),
        _ => panic!("expected an invalid input error"),
    }
    match run_with_settings(&settings_for(vec![dir_pack("d", &files)], false, true)) {
        Err(MergeError::InvalidInput(m)) => assert_eq!(m, expected),
        _ => panic!("a dry run must fail as the archive run does"),
    }
    assert!(matches!(
        run_with_settings(&settings_for(vec![dir_pack("d", &files)], true, true)),
        Ok(MergeOutcome::DryRun)
    ));
    match run_with_settings(&settings_for(vec![dir_pack("d", &files)], true, false)) {
        Ok(MergeOutcome::Directory(f)) => assert_eq!(f[0].0, long),
        _ => panic!("expected a directory"),
    }
}
