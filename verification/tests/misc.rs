use tagd::event::{after_read_error, is_live_path};
use tagd::scan::{is_executable, is_tagger, is_tagger_file_name, is_tagger_name, Tagger};
use tagd::strutil::{basename, clean, eq_ignore_ascii_case, fmt_u64, same_text};
use tagd::tagger::{
    invocation, tag_file_response, tagger_info, Dependency, Invocation, TagFileError, TagRequest, TaggerInfo,
};
use tagd::taggers::content::{content_tags, ext_match};
use tagd::taggers::std_mime::{mime_tags, MimeError};
use tagd::taggers::{audio, code, content, exif, image, std_mime, text};

fn strings(items: &[&str]) -> Vec<String> {
    items.iter().map(|s| s.to_string()).collect()
}

#[test]
fn strutil_decimal_and_clean() {
    assert_eq!(fmt_u64(0), "0");
    assert_eq!(fmt_u64(10), "10");
    assert_eq!(fmt_u64(u64::MAX), "18446744073709551615");
    assert_eq!(clean(" \u{3000}a b\0\0 "), "a b");
    assert_eq!(clean("\0 x \0"), "x");
    assert!(same_text("abc", "abc"));
    assert!(!same_text("abc", "abd"));
    assert!(eq_ignore_ascii_case("JPG", "jpg"));
    assert!(!eq_ignore_ascii_case("jpeg", "jpg"));
}

#[test]
fn strutil_basename_follows_path_file_name() {
    assert_eq!(basename("/usr/bin/python3"), "python3");
    assert_eq!(basename("/usr/bin/"), "bin");
    assert_eq!(basename("foo.txt/."), "foo.txt");
    assert_eq!(basename("/"), "/");
    assert_eq!(basename("a/.."), "a/..");
    assert_eq!(basename("."), ".");
    assert_eq!(basename("sh"), "sh");
}

#[test]
fn content_ext_match_cases() {
    let jpeg = strings(&["jpg", "jpeg"]);
    assert_eq!(ext_match("/p/photo.JPG", &jpeg), "yes");
    assert_eq!(ext_match("/p/photo.png", &jpeg), "no");
    assert_eq!(ext_match("/p/photo", &jpeg), "none");
    assert_eq!(ext_match("/p/.bashrc", &jpeg), "none");
    assert_eq!(ext_match("/p/photo.jpg", &vec![]), "none");
    assert_eq!(ext_match("/p/archive.tar.gz", &strings(&["gz"])), "yes");
    assert_eq!(ext_match("/p/x.", &strings(&["gz"])), "no");
}

#[test]
fn content_tags_in_order() {
    let tags = content_tags(
        "image/png".to_string(),
        "png".to_string(),
        "image".to_string(),
        false,
        "true".to_string(),
        "0.99".to_string(),
    );
    let keys: Vec<&str> = tags.iter().map(|(k, _)| k.as_str()).collect();
    assert_eq!(keys, vec!["mime", "label", "group", "is-text", "ext-match", "magika-score"]);
    assert_eq!(tags[3].1, "false");
}

#[test]
fn std_mime_refuses_cannot_open() {
    assert_eq!(mime_tags("text/plain".to_string()).ok(), Some(vec![("mime".to_string(), "text/plain".to_string())]));
    assert!(matches!(
        mime_tags("cannot open `x' (No such file or directory)".to_string()),
        Err(MimeError::FileMissing)
    ));
}

#[test]
fn scan_name_and_mode_filters() {
    assert!(is_tagger_name("tagger-text"));
    assert!(is_tagger_name("tagger-text.d"));
    assert!(!is_tagger_name("tagd"));
    assert!(is_tagger_file_name("tagger-text"));
    assert!(!is_tagger_file_name("tagger-text.d"));
    assert!(is_executable(Some(0o755)));
    assert!(is_executable(Some(0o100)));
    assert!(!is_executable(Some(0o644)));
    assert!(!is_executable(None));
    assert!(is_tagger(Some(0o755), true));
    assert!(!is_tagger(Some(0o755), false));
    assert_eq!(Tagger::new("/t/tagger-a".to_string(), Some(0o700), true).map(|t| t.path), Some("/t/tagger-a".to_string()));
    assert!(Tagger::new("/t/tagger-a".to_string(), Some(0o600), true).is_none());
}

#[test]
fn event_deleted_paths_and_retries() {
    assert!(is_live_path("/home/u/a.txt"));
    assert!(!is_live_path("/home/u/a.txt (deleted)"));
    assert_eq!(after_read_error(0), (1, false));
    assert_eq!(after_read_error(9), (10, false));
    assert_eq!(after_read_error(10), (11, true));
}

#[test]
fn driver_invocations() {
    assert!(matches!(invocation(&strings(&["tagger-x", "--tagd-info"])), Invocation::Info));
    match invocation(&strings(&["tagger-x", "/tmp/f"])) {
        Invocation::Manual(req) => {
            assert_eq!(req.path, "/tmp/f");
            assert!(req.deps.is_empty());
        }
        _ => panic!("expected a manual request"),
    }
    assert!(matches!(invocation(&strings(&["tagger-x"])), Invocation::Stdin));
    match invocation(&strings(&["tagger-x", "a", "b"])) {
        Invocation::Usage(p) => assert_eq!(p, "tagger-x"),
        _ => panic!("expected usage"),
    }
    match invocation(&vec![]) {
        Invocation::Usage(p) => assert_eq!(p, "tagger"),
        _ => panic!("expected usage"),
    }
}

#[test]
fn driver_mtime_check() {
    let tags = vec![("k".to_string(), "v".to_string())];
    match tag_file_response("text", tags.clone(), 100, 100) {
        Ok(r) => {
            assert_eq!(r.tagger, "text");
            assert_eq!(r.tags, tags);
            assert_eq!(r.mtime_at_tag, 100);
        }
        Err(_) => panic!("unchanged file"),
    }
    assert!(matches!(tag_file_response("text", tags, 100, 101), Err(TagFileError::Modified)));
}

#[test]
fn tagger_infos() {
    let a = audio::info("1.0");
    assert_eq!(a.name, "audio");
    assert_eq!(a.version, "1.0");
    assert_eq!(a.keys.len(), 18);
    assert_eq!(a.dependencies[0].key, "mime");
    assert_eq!(a.dependencies[0].matches.as_deref(), Some("audio/*"));
    let c = code::info("2");
    assert_eq!(c.dependencies.len(), 2);
    assert!(c.dependencies[1].matches.is_none());
    assert_eq!(c.keys, strings(&["code-lines", "code-size-class", "code-markers", "code-has-markers", "code-license"]));
    assert_eq!(exif::info("1").keys.len(), 13);
    assert_eq!(image::info("1").keys.len(), 9);
    let m = content::info("1");
    assert!(m.dependencies.is_empty());
    assert_eq!(m.keys, strings(&["mime", "label", "group", "is-text", "ext-match", "magika-score"]));
    assert_eq!(std_mime::info("1").keys, strings(&["mime"]));
    let t = text::info("1");
    assert_eq!(t.dependencies[0].matches.as_deref(), Some("true"));
    assert_eq!(t.keys.len(), 10);
}

/// A tagger that echoes the value of its one dependency.
struct Echo {
    calls: u32,
}

impl tagd::tagger::Tagger for Echo {
    fn info() -> TaggerInfo {
        tagger_info("echo", "1", vec![Dependency::on("mime")], &["echo"])
    }

    fn new() -> Result<Self, String> {
        Ok(Echo { calls: 0 })
    }

    fn tag(&mut self, req: &TagRequest) -> Result<Vec<(String, String)>, String> {
        self.calls += 1;
        match req.dep("mime") {
            Some(v) => Ok(vec![("echo".to_string(), v.to_string())]),
            None => Err("no mime".to_string()),
        }
    }
}

fn tag_once<T: tagd::tagger::Tagger>(req: &TagRequest) -> Result<Vec<(String, String)>, String> {
    let mut t = T::new()?;
    t.tag(req)
}

#[test]
fn tagger_trait_drives_an_implementation() {
    assert_eq!(<Echo as tagd::tagger::Tagger>::info().keys, strings(&["echo"]));
    let req = TagRequest { path: "/f".to_string(), deps: vec![("mime".to_string(), "text/plain".to_string())] };
    assert_eq!(tag_once::<Echo>(&req), Ok(vec![("echo".to_string(), "text/plain".to_string())]));
    let bare = TagRequest { path: "/f".to_string(), deps: Vec::new() };
    assert_eq!(tag_once::<Echo>(&bare), Err("no mime".to_string()));
    let mut e = Echo::new_for_count();
    let _ = tagd::tagger::Tagger::tag(&mut e, &bare);
    assert_eq!(e.calls, 1);
}

impl Echo {
    fn new_for_count() -> Echo {
        Echo { calls: 0 }
    }
}

#[test]
fn content_ext_match_folds_unicode_case() {
    // Only the file's extension is lower-cased in full; the comparison itself
    // folds ASCII case alone.
    assert_eq!(ext_match("/p/notes.ÉX", &strings(&["éx"])), "yes");
    assert_eq!(ext_match("/p/notes.éx", &strings(&["ÉX"])), "no");
}
