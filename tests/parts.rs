use resource_merger::descriptor::{
    descriptor_formats, extract_pack_format_from_mcmeta, finding_from_json, make_pack_mcmeta,
    parse_decimal_u32, peek_descriptor,
};
use resource_merger::formats::{actual_max_format, final_pack_format, max_of, min_of, supported_formats};
use resource_merger::output::{default_pack_png_bytes, make_readme};
use resource_merger::overlays::merge_overlays;
use resource_merger::{
    sanitize_zip_entry_name, Config, DirPack, MergeError, MergeOptions, OverwritePolicy, PackInput,
    SupportedFormatsPolicy,
};

#[test]
fn sanitizer_rejects_and_normalizes() {
    assert_eq!(sanitize_zip_entry_name("../evil"), None);
    assert_eq!(sanitize_zip_entry_name("/etc/passwd"), None);
    assert_eq!(sanitize_zip_entry_name("a/b/c.txt"), Some("a/b/c.txt".to_string()));
    assert_eq!(sanitize_zip_entry_name("a\\b.txt"), Some("a/b.txt".to_string()));
    assert_eq!(sanitize_zip_entry_name("\\x"), None);
    assert_eq!(sanitize_zip_entry_name(""), None);
    assert_eq!(sanitize_zip_entry_name("//"), None);
    assert_eq!(sanitize_zip_entry_name("a//b/"), Some("a/b".to_string()));
    assert_eq!(sanitize_zip_entry_name("a/../b"), None);
    assert_eq!(sanitize_zip_entry_name("a/.../b"), Some("a/.../b".to_string()));
}

#[test]
fn supported_bounds_by_policy() {
    let f = vec![3u32, 7];
    assert_eq!(supported_formats(SupportedFormatsPolicy::OneToHighest, &f, 7), vec![1, 7]);
    assert_eq!(supported_formats(SupportedFormatsPolicy::LowestToHighest, &f, 7), vec![3, 7]);
    assert_eq!(supported_formats(SupportedFormatsPolicy::OneToLatest, &f, 7), vec![1, 7]);
    let one = vec![5u32];
    assert_eq!(supported_formats(SupportedFormatsPolicy::OneToHighest, &one, 5), vec![1, 5]);
    assert_eq!(supported_formats(SupportedFormatsPolicy::LowestToHighest, &one, 5), vec![5]);
    let none: Vec<u32> = vec![];
    assert_eq!(supported_formats(SupportedFormatsPolicy::OneToHighest, &none, 1), vec![1]);
    assert_eq!(supported_formats(SupportedFormatsPolicy::LowestToHighest, &none, 42), vec![42]);
    assert_eq!(supported_formats(SupportedFormatsPolicy::OneToHighest, &none, 42), vec![1, 42]);
}

#[test]
fn final_and_max_formats() {
    let f = vec![4u32, 9, 2];
    assert_eq!(max_of(&f), 9);
    assert_eq!(min_of(&f), 2);
    assert_eq!(final_pack_format(None, &f), 9);
    assert_eq!(final_pack_format(Some(3), &f), 3);
    assert_eq!(final_pack_format(None, &vec![]), 1);
    assert_eq!(actual_max_format(&vec![], &vec![1, 9]), 9);
    assert_eq!(actual_max_format(&vec![12, 20], &vec![1, 9]), 20);
}

#[test]
fn decimal_reading() {
    assert_eq!(parse_decimal_u32("42"), Some(42));
    assert_eq!(parse_decimal_u32("+5"), Some(5));
    assert_eq!(parse_decimal_u32("4294967295"), Some(u32::MAX));
    assert_eq!(parse_decimal_u32("4294967296"), None);
    assert_eq!(parse_decimal_u32(""), None);
    assert_eq!(parse_decimal_u32("+"), None);
    assert_eq!(parse_decimal_u32("-1"), None);
    assert_eq!(parse_decimal_u32("1a"), None);
}

#[test]
fn formats_read_from_descriptors() {
    let v: serde_json::Value = serde_json::from_str(
        "{\"pack\":{\"pack_format\":\"8\",\"max_format\":10,\"supported_formats\":{\"max_inclusive\":12}}}",
    )
    .unwrap();
    assert_eq!(extract_pack_format_from_mcmeta(&v), Some((8, Some(12))));
    let v: serde_json::Value = serde_json::from_str("{\"pack_format\":4294967301,\"max_format\":\"x\"}").unwrap();
    assert_eq!(extract_pack_format_from_mcmeta(&v), None);
    let v: serde_json::Value = serde_json::from_str("{\"pack\":{\"pack_format\":1.5}}").unwrap();
    assert_eq!(extract_pack_format_from_mcmeta(&v), None);
    assert_eq!(descriptor_formats(b"{\"pack\":{\"pack_format\":6,\"max_format\":\"9\"}}"), Some((6, Some(9))));
    assert_eq!(descriptor_formats(b"not json"), None);
}

#[test]
fn findings_keep_overlays() {
    let v: serde_json::Value =
        serde_json::from_str("{\"pack\":{\"pack_format\":3},\"overlays\":{\"entries\":[]}}").unwrap();
    let f = finding_from_json(&v).unwrap();
    assert_eq!(f.pack_format, 3);
    assert_eq!(f.max_format, None);
    assert_eq!(f.overlays.unwrap().to_string(), "{\"entries\":[]}");
    assert!(peek_descriptor(b"{\"overlays\":{}}").is_none());
    assert!(peek_descriptor(b"{\"pack\":{\"pack_format\":2}}").unwrap().overlays.is_none());
}

#[test]
fn overlay_later_declaration_wins() {
    let a: serde_json::Value = serde_json::from_str(
        "{\"entries\":[{\"directory\":\"x\",\"n\":1},{\"directory\":\"b\",\"n\":2},{\"nodir\":true}]}",
    )
    .unwrap();
    let b: serde_json::Value = serde_json::from_str("{\"entries\":[{\"directory\":\"x\",\"n\":3}]}").unwrap();
    let merged = merge_overlays(&vec![a, b]).unwrap();
    assert_eq!(
        merged.to_string(),
        "{\"entries\":[{\"directory\":\"b\",\"n\":2},{\"directory\":\"x\",\"n\":3}]}"
    );
    let empty: serde_json::Value = serde_json::from_str("{\"entries\":[{\"nodir\":1}]}").unwrap();
    assert!(merge_overlays(&vec![empty]).is_none());
    assert!(merge_overlays(&vec![]).is_none());
}

#[test]
fn descriptor_rendering_shapes() {
    assert_eq!(
        make_pack_mcmeta(7, &vec![1, 7], Some("d\"q"), 7, None),
        "{\"pack\":{\"description\":\"d\\\"q\",\"max_format\":7,\"min_format\":1,\"pack_format\":7,\"supported_formats\":[1,7]}}"
    );
    assert_eq!(
        make_pack_mcmeta(80, &vec![65, 80], None, 81, None),
        "{\"pack\":{\"description\":\"Made with Rust API: resource_merger:0.1.0\",\"max_format\":81,\"min_format\":65}}"
    );
    let ov: serde_json::Value = serde_json::from_str("{\"entries\":[]}").unwrap();
    assert_eq!(
        make_pack_mcmeta(64, &vec![], Some("d"), 64, Some(&ov)),
        "{\"overlays\":{\"entries\":[]},\"pack\":{\"description\":\"d\",\"max_format\":64,\"min_format\":64,\"pack_format\":64,\"supported_formats\":[]}}"
    );
}

#[test]
fn provenance_and_icon() {
    let packs = vec![
        PackInput::Dir(DirPack { root: "base".to_string(), files: vec![] }),
        PackInput::ZipBytes(vec![]),
    ];
    assert_eq!(
        make_readme(&packs),
        "This resource pack was generated by resource_merger.\n\nInputs used (in order, first -> last):\n- Dir: base\n- ZipBytes: <in-memory>\n\nGenerated with resource_merger 0.1.0"
    );
    let icon = default_pack_png_bytes();
    assert_eq!(icon.len(), 165);
    assert_eq!(&icon[1..4], b"PNG");
}

#[test]
fn policy_words() {
    assert_eq!(OverwritePolicy::parse("LAST"), Some(OverwritePolicy::LastWins));
    assert_eq!(OverwritePolicy::parse("first_wins"), Some(OverwritePolicy::FirstWins));
    assert_eq!(OverwritePolicy::parse("ErrorIfConflict"), Some(OverwritePolicy::ErrorIfConflict));
    assert_eq!(OverwritePolicy::parse("skip"), Some(OverwritePolicy::SkipIfExists));
    assert_eq!(OverwritePolicy::parse("lastt"), None);
    assert_eq!("Lowest".parse::<SupportedFormatsPolicy>(), Ok(SupportedFormatsPolicy::LowestToHighest));
    assert_eq!("1-to-high".parse::<SupportedFormatsPolicy>(), Ok(SupportedFormatsPolicy::OneToHighest));
    assert_eq!("one_to_latest".parse::<SupportedFormatsPolicy>(), Ok(SupportedFormatsPolicy::OneToLatest));
    assert_eq!(
        "NoPe".parse::<OverwritePolicy>(),
        Err("unknown overwrite policy: nope".to_string())
    );
    assert_eq!(
        SupportedFormatsPolicy::from_name("Sideways-Ä"),
        Err("unknown supported formats policy: sideways-Ä".to_string())
    );
    assert_eq!(OverwritePolicy::from_name("Skip_If_Exists"), Ok(OverwritePolicy::SkipIfExists));
}

#[test]
fn default_options_values() {
    let o = MergeOptions::default();
    assert_eq!(o.overwrite, OverwritePolicy::LastWins);
    assert!(o.atomic);
    assert_eq!(o.buffer_size, 32 * 1024);
    assert!(!o.dry_run);
    assert!(!o.tolerate_missing_inputs);
    assert_eq!(o.supported_formats_policy, SupportedFormatsPolicy::OneToHighest);
}

#[test]
fn config_layers_and_options() {
    let mut file = Config::empty();
    file.inputs = Some(vec!["a".to_string()]);
    file.overwrite = Some("first".to_string());
    file.atomic = Some(false);
    file.out = Some("from_file".to_string());
    let mut cli = Config::empty();
    cli.inputs = Some(vec!["b".to_string()]);
    cli.overwrite = Some("skip".to_string());
    cli.pack_format = Some(12);
    let c = cli.layered_over(&file);
    assert_eq!(c.inputs, Some(vec!["a".to_string(), "b".to_string()]));
    assert_eq!(c.out, Some("from_file".to_string()));
    let o = c.merge_options().unwrap();
    assert_eq!(o.overwrite, OverwritePolicy::SkipIfExists);
    assert!(!o.atomic);
    assert_eq!(o.pack_format_override, Some(12));
    let mut bad = Config::empty();
    bad.supported_formats = Some("sideways".to_string());
    match bad.merge_options() {
        Err(MergeError::InvalidInput(m)) => assert_eq!(m, "unknown supported formats policy: sideways"),
        _ => panic!("expected an invalid input error"),
    }
}

#[test]
fn session_absorbs_and_plans() {
    let mut session = resource_merger::MergeSession::new();
    let files = vec![
        ("z.txt".to_string(), b"z".to_vec()),
        ("/abs.txt".to_string(), b"no".to_vec()),
        ("pack.png".to_string(), b"mine".to_vec()),
    ];
    session.absorb_files(&files, OverwritePolicy::ErrorIfConflict).unwrap();
    let again = vec![("z.txt".to_string(), b"again".to_vec())];
    assert!(session.absorb_files(&again, OverwritePolicy::ErrorIfConflict).is_err());
    let plan = session.plan_output(&MergeOptions::default(), &[]);
    let names: Vec<&str> = plan.iter().map(|f| f.0.as_str()).collect();
    assert_eq!(names, vec!["z.txt", "pack.mcmeta", "pack.png", "README.md"]);
    assert_eq!(plan[0].1, b"z".to_vec());
    assert_eq!(plan[2].1, default_pack_png_bytes());
}

#[test]
fn merging_nothing_gives_generated_files_only() {
    let out = resource_merger::merge_packs_to_bytes(&[]).unwrap();
    let mut archive = zip::ZipArchive::new(std::io::Cursor::new(out)).unwrap();
    assert_eq!(archive.len(), 3);
    let mut meta = String::new();
    std::io::Read::read_to_string(&mut archive.by_name("pack.mcmeta").unwrap(), &mut meta).unwrap();
    assert_eq!(
        meta,
        "{\"pack\":{\"description\":\"Made with Rust API: resource_merger:0.1.0\",\"max_format\":1,\"min_format\":1,\"pack_format\":1,\"supported_formats\":[1]}}"
    );
}
