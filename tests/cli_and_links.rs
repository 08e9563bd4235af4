use lndir::argument_error::ArgumentError;
use lndir::cli::parse_args;
use lndir::materialize::{
    clearing_for, inspects_source_links, reports_links, target_for, Clearing, Prior, Target,
};
use lndir::options::Options;

fn args(a: &[&str]) -> Vec<String> {
    a.iter().map(|s| s.to_string()).collect()
}

#[test]
fn options_new_is_all_off() {
    let o = Options::new();
    assert!(!o.silent && !o.ignore_links && !o.with_rev_info);
    assert_eq!(o.max_depth, None);
    let d = Options::default();
    assert!(!d.silent && !d.ignore_links && !d.with_rev_info && d.max_depth.is_none());
}

#[test]
fn argument_error_keeps_its_parts() {
    let e = ArgumentError::new("bad".to_string(), Some("why".to_string()));
    assert_eq!(e.description(), "bad");
    assert_eq!(e.cause(), Some(&"why".to_string()));
    assert_eq!(e.to_string(), "ArgumentError");
    let e = ArgumentError::new("bad".to_string(), None);
    assert_eq!(e.cause(), None);
}

#[test]
fn parse_flags_sources_and_destination() {
    let (o, s, d) = parse_args(&args(&["-silent", "-ignorelinks", "-withrevinfo", "-maxdepth", "3", "a", "b", "dest"])).unwrap();
    assert!(o.silent && o.ignore_links && o.with_rev_info);
    assert_eq!(o.max_depth, Some(3));
    assert_eq!(s, args(&["a", "b"]));
    assert_eq!(d, Some("dest".to_string()));
}

#[test]
fn parse_single_path_means_current_directory() {
    let (o, s, d) = parse_args(&args(&["src"])).unwrap();
    assert!(!o.silent);
    assert_eq!(s, args(&["src"]));
    assert_eq!(d, None);
}

#[test]
fn parse_stops_reading_options_after_first_path() {
    let (o, s, d) = parse_args(&args(&["a", "-silent", "dest"])).unwrap();
    assert!(!o.silent);
    assert_eq!(s, args(&["a", "-silent"]));
    assert_eq!(d, Some("dest".to_string()));
}

#[test]
fn parse_double_dash_ends_options() {
    let (o, s, d) = parse_args(&args(&["--", "-silent", "dest"])).unwrap();
    assert!(!o.silent);
    assert_eq!(s, args(&["-silent"]));
    assert_eq!(d, Some("dest".to_string()));
}

#[test]
fn parse_max_depth_with_plus_sign() {
    let (o, _, _) = parse_args(&args(&["-maxdepth", "+7", "a", "b"])).unwrap();
    assert_eq!(o.max_depth, Some(7));
    let (o, _, _) = parse_args(&args(&["-maxdepth", "4294967295", "a", "b"])).unwrap();
    assert_eq!(o.max_depth, Some(4294967295));
}

#[test]
fn parse_missing_max_depth_value() {
    let e = parse_args(&args(&["-maxdepth"])).unwrap_err();
    assert_eq!(e.description(), "no value specified for -maxdepth");
    assert!(e.cause().is_none());
}

#[test]
fn parse_bad_max_depth_value() {
    for bad in ["x", "-1", "", "4294967296", " 1", "+"] {
        let e = parse_args(&args(&["-maxdepth", bad, "a", "b"])).unwrap_err();
        let cause = e.cause().unwrap().clone();
        assert!(!cause.is_empty());
        assert_eq!(e.description(), format!("failed to parse -maxdepth argument \"{}\": {}", bad, cause));
    }
}

#[test]
fn parse_without_sources_fails() {
    let e = parse_args(&args(&[])).unwrap_err();
    assert_eq!(e.description(), "no source directory specified");
    let e = parse_args(&args(&["-silent", "--"])).unwrap_err();
    assert_eq!(e.description(), "no source directory specified");
}

#[test]
fn clearing_matches_what_is_there() {
    assert_eq!(clearing_for(Prior::Absent), Clearing::Nothing);
    assert_eq!(clearing_for(Prior::Directory), Clearing::RemoveDirectory);
    assert_eq!(clearing_for(Prior::Other), Clearing::RemoveFile);
}

#[test]
fn relative_source_link_is_kept_verbatim() {
    let o = Options::new();
    assert!(inspects_source_links(&o));
    assert_eq!(target_for(&o, true), Target::SourceLinkText);
    assert_eq!(target_for(&o, false), Target::SourcePath);
    let mut i = Options::new();
    i.ignore_links = true;
    assert!(!inspects_source_links(&i));
    assert_eq!(target_for(&i, true), Target::SourcePath);
}

#[test]
fn silent_suppresses_reports() {
    let mut o = Options::new();
    assert!(reports_links(&o));
    o.silent = true;
    assert!(!reports_links(&o));
}
