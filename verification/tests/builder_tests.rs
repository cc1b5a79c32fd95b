use fontchan::builder::{
    compute_digest, gc_paths, make_fid, Backend, BuildResult, BuildResults, DestInfo,
};
use fontchan::digest::Digester;
use fontchan::history::{FileNameMatcher, History};
use fontchan::routine::{Routine, RoutineParseError};
use fontchan::tmpl::{PathTmpl, Tmpl, TmplError};
use fontchan::unicode::URangeBuilder;

#[test]
fn test_routine() {
    let r = Routine::new("test[");
    assert!(matches!(r, Err(RoutineParseError::Invalid(_))));
}

#[test]
fn routine_parses_name_and_arg() {
    let r = Routine::new("glob[posts/**/*.html]").unwrap();
    assert_eq!(r.name, "glob");
    assert_eq!(r.arg.get().as_deref(), Some("posts/**/*.html"));
    let plain = Routine::new("from_fonts").unwrap();
    assert_eq!(plain.name, "from_fonts");
    assert!(plain.arg.get().is_none());
    assert!(plain.arg.required().is_err());
    assert!(matches!(Routine::new(""), Err(RoutineParseError::Required)));
    assert!(matches!(Routine::new("[x]"), Err(RoutineParseError::Invalid(_))));
    assert!(matches!(Routine::new("a[b]c"), Err(RoutineParseError::Invalid(_))));
}

#[test]
fn digester_known_value() {
    let d = Digester::new().push(b"abc").base64_result();
    assert_eq!(
        String::from_utf8(d.as_bytes().clone()).unwrap(),
        "3a81oZNherrMQXNJriBBMRLm-k6JqX6iCp7u5ktV05ohkpkqJ0+BqDa6PCOj+uu9RU1EI2Q86A4qmslPpUyknw=="
    );
}

#[test]
fn fingerprint_covers_font_range_backend() {
    let chars: Vec<char> = "ab".chars().collect();
    let range = URangeBuilder::from_chars(&chars).build();
    let d = compute_digest(b"FD", &range, Backend::Harfbuzz);
    assert_eq!(
        String::from_utf8(d.as_bytes().clone()).unwrap(),
        "51DkJXBH+PdXgksiEKYXukXB0eCQ7VzGtXy7a-xIaA-65AkMax+vIJ+0GeLzRZ0t9TzxyILxTvy5dtdsd4FVvA=="
    );
    // a different backend must change the digest
    let d2 = compute_digest(b"FD", &range, Backend::Pyft);
    assert_ne!(d.as_bytes(), d2.as_bytes());
}

#[test]
fn fid_is_name_underscore_digest_prefix() {
    let d = Digester::new().push(b"abc").base64_result();
    let fid = make_fid(b"0", &d);
    assert_eq!(String::from_utf8(fid).unwrap(), "0_3a81oZNh");
}

#[test]
fn dest_info_renders_template() {
    let tmpl = PathTmpl::new(b"out/font_<FID>.woff", b"<FID>").unwrap();
    let d = Digester::new().push(b"abc").base64_result();
    let info = DestInfo::new(&tmpl, b"7", d);
    assert_eq!(
        String::from_utf8(info.file_path.clone()).unwrap(),
        "out/font_7_3a81oZNh.woff"
    );
    assert!(info.needs_subset(false));
    assert!(!info.needs_subset(true));
}

#[test]
fn path_template_validation() {
    assert!(matches!(
        PathTmpl::new(b"out/<FID>/x.woff", b"<FID>"),
        Err(TmplError::MetavarInDirectory)
    ));
    assert!(matches!(
        PathTmpl::new(b"out/plain.woff", b"<FID>"),
        Err(TmplError::MetavarCount)
    ));
    // a trailing separator is ignored, as a path lookup would
    assert!(matches!(
        PathTmpl::new(b"out/", b"<FID>"),
        Err(TmplError::MetavarCount)
    ));
    let trailing = PathTmpl::new(b"out/font_<FID>.woff/", b"<FID>").unwrap();
    assert_eq!(trailing.directory, b"out".to_vec());
    assert_eq!(trailing.name_template.as_bytes().clone(), b"font_<FID>.woff".to_vec());
    let doubled = PathTmpl::new(b"out//font_<FID>.woff", b"<FID>").unwrap();
    assert_eq!(doubled.directory, b"out".to_vec());
    // nothing, or only separators, has no parent directory
    assert!(matches!(PathTmpl::new(b"", b"<FID>"), Err(TmplError::NoParent)));
    assert!(matches!(PathTmpl::new(b"///", b"<FID>"), Err(TmplError::NoParent)));
    // a name of `..` is no file name
    assert!(matches!(
        PathTmpl::new(b"a/..", b"<FID>"),
        Err(TmplError::NoFileName)
    ));
    let rooted = PathTmpl::new(b"/font_<FID>.woff", b"<FID>").unwrap();
    assert_eq!(rooted.directory, b"/".to_vec());
    let ok = PathTmpl::new(b"font_<FID>.woff", b"<FID>").unwrap();
    assert_eq!(ok.directory, b".".to_vec());
}

#[test]
fn template_render_replaces_every_occurrence() {
    let t = Tmpl::new(b"x=<A>,y=<A>,z=<B>".to_vec());
    let vars = vec![
        (b"<A>".to_vec(), b"1".to_vec()),
        (b"<B>".to_vec(), b"2".to_vec()),
    ];
    assert_eq!(t.render(&vars), b"x=1,y=1,z=2".to_vec());
}

#[test]
fn stale_cleanup_shares_the_token() {
    // the history built from a prior run holds the old digest's file
    let name_tmpl = Tmpl::new(b"font_<FID>.woff".to_vec());
    let matcher = FileNameMatcher::new(&name_tmpl, b"<FID>").unwrap();
    assert_eq!(matcher.prefix, b"font_".to_vec());
    assert_eq!(matcher.suffix, b".woff".to_vec());
    let old_name = b"font_0_deadbeef.woff";
    let new_name = b"font_0_3a81oZNh.woff";
    let old_stem = matcher.matches(old_name).unwrap();
    let new_stem = matcher.matches(new_name).unwrap();
    // the token of the two filenames is identical
    assert_eq!(old_stem, new_stem);
    assert_eq!(old_stem, b"0".to_vec());

    let mut h = History::new();
    h.add_path(
        b"out",
        matcher.prefix.as_slice(),
        matcher.suffix.as_slice(),
        old_stem.as_slice(),
        b"out/font_0_deadbeef.woff".to_vec(),
    );
    let listed = h
        .query(
            b"out",
            matcher.prefix.as_slice(),
            matcher.suffix.as_slice(),
            new_stem.as_slice(),
        )
        .unwrap()
        .clone();
    // the old file is deleted, the new one is kept
    let stale = gc_paths(&listed, b"out/font_0_3a81oZNh.woff");
    assert_eq!(stale, vec![b"out/font_0_deadbeef.woff".to_vec()]);
}

#[test]
fn unchanged_run_deletes_nothing_and_subsets_nothing() {
    let mut h = History::new();
    h.add_path(b"out", b"font_", b".woff", b"font_0", b"out/font_0_3a81oZNh.woff".to_vec());
    let listed = h.query(b"out", b"font_", b".woff", b"font_0").unwrap().clone();
    let stale = gc_paths(&listed, b"out/font_0_3a81oZNh.woff");
    assert!(stale.is_empty());
    // the destination already exists, so no subsetter invocation is due
    let tmpl = PathTmpl::new(b"out/font_<FID>.woff", b"<FID>").unwrap();
    let d = Digester::new().push(b"abc").base64_result();
    let info = DestInfo::new(&tmpl, b"0", d);
    assert!(!info.needs_subset(true));
}

#[test]
fn matcher_rejects_foreign_names() {
    let name_tmpl = Tmpl::new(b"font_<FID>.woff".to_vec());
    let matcher = FileNameMatcher::new(&name_tmpl, b"<FID>").unwrap();
    assert!(matcher.matches(b"other_0_x.woff").is_none());
    assert!(matcher.matches(b"font_nodigest.woff").is_none());
    assert!(matcher.matches(b"font_0_x.ttf").is_none());
}

#[test]
fn results_reorder_entry_minor() {
    fn res(tag: &str) -> BuildResult {
        BuildResult {
            fid: tag.as_bytes().to_vec(),
            digest: Digester::new().push(tag.as_bytes()).base64_result(),
        }
    }
    // entry-major, context-minor: e0c0 e0c1 e1c0 e1c1 e2c0 e2c1
    let results = vec![res("e0c0"), res("e0c1"), res("e1c0"), res("e1c1"), res("e2c0"), res("e2c1")];
    let all = BuildResults::new(2, results);
    let minor = all.entry_minor_iter();
    let fids: Vec<String> = minor
        .iter()
        .map(|r| String::from_utf8(r.fid.clone()).unwrap())
        .collect();
    assert_eq!(fids, vec!["e0c0", "e1c0", "e2c0", "e0c1", "e1c1", "e2c1"]);
}
