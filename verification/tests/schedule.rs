use tagd::queue::{Resolved, TagSchedule};
use tagd::registry::{Tagger, TaggerRegistry};
use tagd::tagger::{Dependency, TaggerInfo};

fn tagger(name: &str, deps: Vec<Dependency>, keys: &[&str]) -> Tagger {
    Tagger {
        path: format!("tagger-{name}"),
        info: TaggerInfo {
            name: name.to_string(),
            version: "1".to_string(),
            dependencies: deps,
            keys: keys.iter().map(|k| k.to_string()).collect(),
        },
    }
}

fn schedule() -> TagSchedule {
    let reg = TaggerRegistry {
        taggers: vec![
            tagger("magika", vec![], &["mime", "is-text"]),
            tagger("image", vec![Dependency::matching("mime", "image/*")], &["width"]),
            tagger("text", vec![Dependency::matching("is-text", "true")], &["text-lines"]),
            tagger("code", vec![Dependency::on("text-lines")], &["code-lines"]),
        ],
    };
    match TagSchedule::new(reg) {
        Ok(s) => s,
        Err(_) => panic!("no cycle"),
    }
}

fn tags(pairs: &[(&str, &str)]) -> Vec<(String, String)> {
    pairs.iter().map(|(k, v)| (k.to_string(), v.to_string())).collect()
}

#[test]
fn schedule_runs_only_satisfied_taggers() {
    let s = schedule();
    assert_eq!(s.stages(), &vec![vec![0], vec![1, 2], vec![3]]);
    let mut run = s.start("/home/u/notes.txt");

    let (i, req) = s.next_request(&mut run).expect("magika first");
    assert_eq!(i, 0);
    assert_eq!(req.path, "/home/u/notes.txt");
    assert!(req.deps.is_empty());
    run.record(&tags(&[("mime", "text/plain"), ("is-text", "true")]));

    // image is passed over: text/plain fails its image/* filter.
    let (i, req) = s.next_request(&mut run).expect("text next");
    assert_eq!(i, 2);
    assert_eq!(req.deps, tags(&[("is-text", "true")]));
    run.record(&tags(&[("text-lines", "12")]));

    let (i, req) = s.next_request(&mut run).expect("code last");
    assert_eq!(i, 3);
    assert_eq!(req.deps, tags(&[("text-lines", "12")]));
    run.record(&tags(&[("code-lines", "10")]));

    assert!(s.next_request(&mut run).is_none());
    assert!(s.next_request(&mut run).is_none());
}

#[test]
fn schedule_skips_taggers_whose_dependency_was_never_produced() {
    let s = schedule();
    let mut run = s.start("/img.png");
    let _ = s.next_request(&mut run).expect("magika");
    run.record(&tags(&[("mime", "image/png"), ("is-text", "false")]));
    let (i, req) = s.next_request(&mut run).expect("image");
    assert_eq!(i, 1);
    assert_eq!(req.deps, tags(&[("mime", "image/png")]));
    // text fails its filter and code has no text-lines: nothing else runs.
    assert!(s.next_request(&mut run).is_none());
}

#[test]
fn schedule_starts_each_file_afresh() {
    let s = schedule();
    let mut first = s.start("/a");
    let _ = s.next_request(&mut first);
    first.record(&tags(&[("mime", "image/png")]));
    let second = s.start("/b");
    assert_eq!(second.value("mime"), None);
    assert_eq!(first.value("mime"), Some("image/png"));
}

#[test]
fn resolved_later_value_wins() {
    let mut r = Resolved::new();
    r.record(&tags(&[("k", "1"), ("j", "2"), ("k", "3")]));
    assert_eq!(r.get("k"), Some("3"));
    assert_eq!(r.get("j"), Some("2"));
    assert_eq!(r.get("x"), None);
    r.insert(&"j".to_string(), &"4".to_string());
    assert_eq!(r.get("j"), Some("4"));
}

#[test]
fn resolved_resolve_lists_values_in_dependency_order() {
    let mut r = Resolved::new();
    r.record(&tags(&[("group", "code"), ("text-lines", "3")]));
    let deps = vec![Dependency::matching("group", "code"), Dependency::on("text-lines")];
    assert_eq!(r.resolve(&deps), Some(tags(&[("group", "code"), ("text-lines", "3")])));
    let rejected = vec![Dependency::matching("group", "image")];
    assert_eq!(r.resolve(&rejected), None);
    let missing = vec![Dependency::on("group"), Dependency::on("nope")];
    assert_eq!(r.resolve(&missing), None);
    assert_eq!(r.resolve(&vec![]), Some(vec![]));
}

#[test]
fn schedule_resets_values_per_file() {
    let s = schedule();
    let mut first = s.start("/a.png");
    let _ = s.next_request(&mut first).expect("magika first");
    first.record(&tags(&[("mime", "image/png"), ("is-text", "false")]));
    assert_eq!(first.value("mime"), Some("image/png"));

    // A later file starts from nothing: magika runs first again, and until it
    // answers, no tagger that needs `mime` is offered.
    let mut second = s.start("/b.txt");
    assert_eq!(second.value("mime"), None);
    let (i, req) = s.next_request(&mut second).expect("magika first again");
    assert_eq!(i, 0);
    assert_eq!(req.path, "/b.txt");
    assert!(s.next_request(&mut second).is_none());
}

/// Runs a pass over `path`, answering each request with the next list of
/// `answers`, and returns the requests made.
fn pass(s: &TagSchedule, path: &str, answers: &[Vec<(String, String)>]) -> Vec<(usize, Vec<(String, String)>)> {
    let mut run = s.start(path);
    let mut made = Vec::new();
    let mut k = 0;
    while let Some((i, req)) = s.next_request(&mut run) {
        made.push((i, req.deps.clone()));
        if k < answers.len() {
            run.record(&answers[k]);
        }
        k += 1;
    }
    made
}

#[test]
fn schedule_same_answers_same_requests_whatever_came_before() {
    let s = schedule();
    let answers = vec![tags(&[("mime", "text/x-rust"), ("is-text", "true")]), tags(&[("text-lines", "12")])];
    let alone = pass(&s, "/src/main.rs", &answers);
    let _ = pass(&s, "/img/a.png", &[tags(&[("mime", "image/png"), ("is-text", "false")]), tags(&[("width", "9")])]);
    let after_other = pass(&s, "/src/main.rs", &answers);
    assert_eq!(alone, after_other);
    assert_eq!(alone.iter().map(|r| r.0).collect::<Vec<_>>(), vec![0, 2, 3]);
}
