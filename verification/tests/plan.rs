use tagd::registry::{PlanError, Tagger, TaggerRegistry};
use tagd::tagger::{Dependency, TaggerInfo};

fn tagger(name: &str, deps: Vec<Dependency>, keys: &[&str]) -> Tagger {
    Tagger {
        path: format!("/usr/lib/tagd/taggers/tagger-{name}"),
        info: TaggerInfo {
            name: name.to_string(),
            version: "0.1.0".to_string(),
            dependencies: deps,
            keys: keys.iter().map(|k| k.to_string()).collect(),
        },
    }
}

fn names(reg: &TaggerRegistry, stages: &[Vec<usize>]) -> Vec<Vec<String>> {
    stages
        .iter()
        .map(|s| s.iter().map(|&i| reg.taggers[i].info.name.clone()).collect())
        .collect()
}

fn shipped_taggers() -> TaggerRegistry {
    TaggerRegistry {
        taggers: vec![
            tagger("code", vec![Dependency::matching("group", "code"), Dependency::on("text-lines")], &["code-lines"]),
            tagger("magika", vec![], &["mime", "label", "group", "is-text"]),
            tagger("text", vec![Dependency::matching("is-text", "true")], &["text-lines"]),
            tagger("image", vec![Dependency::matching("mime", "image/*")], &["width"]),
            tagger("exif", vec![Dependency::matching("mime", "image/*")], &["exif"]),
            tagger("audio", vec![Dependency::matching("mime", "audio/*")], &["duration"]),
        ],
    }
}

#[test]
fn plan_stages_follow_key_dependencies() {
    let reg = shipped_taggers();
    let stages = match reg.run_plan() {
        Ok(s) => s,
        Err(_) => panic!("no cycle among the shipped taggers"),
    };
    assert_eq!(
        names(&reg, &stages),
        vec![
            vec!["magika".to_string()],
            vec!["text".to_string(), "image".to_string(), "exif".to_string(), "audio".to_string()],
            vec!["code".to_string()],
        ]
    );
}

#[test]
fn plan_drops_taggers_with_unprovided_keys_and_their_dependents() {
    let reg = TaggerRegistry {
        taggers: vec![
            tagger("a", vec![], &["x"]),
            tagger("b", vec![Dependency::on("missing")], &["y"]),
            tagger("c", vec![Dependency::on("y")], &["z"]),
            tagger("d", vec![Dependency::on("x")], &["w"]),
        ],
    };
    let stages = match reg.run_plan() {
        Ok(s) => s,
        Err(_) => panic!("unexpected cycle"),
    };
    assert_eq!(stages, vec![vec![0], vec![3]]);
}

#[test]
fn plan_cycle_is_an_error_naming_the_cycle() {
    let reg = TaggerRegistry {
        taggers: vec![
            tagger("free", vec![], &["f"]),
            tagger("p", vec![Dependency::on("q-key")], &["p-key"]),
            tagger("q", vec![Dependency::on("p-key")], &["q-key"]),
            tagger("after", vec![Dependency::on("p-key")], &["r"]),
        ],
    };
    match reg.run_plan() {
        Ok(_) => panic!("a cycle must be an error"),
        Err(PlanError::Cycle(names)) => {
            assert_eq!(names, vec!["p".to_string(), "q".to_string(), "after".to_string()]);
        }
    }
}

#[test]
fn plan_ignores_a_tagger_providing_its_own_dependency() {
    // A tagger's own keys never satisfy its dependencies.
    let reg = TaggerRegistry { taggers: vec![tagger("self", vec![Dependency::on("k")], &["k"])] };
    match reg.run_plan() {
        Ok(stages) => assert!(stages.is_empty()),
        Err(_) => panic!("a dropped tagger is no cycle"),
    }
}

#[test]
fn plan_ignores_value_filters() {
    let filtered = TaggerRegistry {
        taggers: vec![
            tagger("a", vec![], &["mime"]),
            tagger("b", vec![Dependency::matching("mime", "image/*")], &["w"]),
        ],
    };
    let unfiltered = TaggerRegistry {
        taggers: vec![tagger("a", vec![], &["mime"]), tagger("b", vec![Dependency::on("mime")], &["w"])],
    };
    let (Ok(p1), Ok(p2)) = (filtered.run_plan(), unfiltered.run_plan()) else {
        panic!("no cycles here")
    };
    assert_eq!(p1, p2);
    assert_eq!(p1, vec![vec![0], vec![1]]);
}

#[test]
fn plan_of_empty_registry_is_empty() {
    let reg = TaggerRegistry { taggers: vec![] };
    match reg.run_plan() {
        Ok(stages) => assert!(stages.is_empty()),
        Err(_) => panic!("empty registry has no cycle"),
    }
}

#[test]
fn plan_counts_a_shared_provider_once() {
    // Two dependency keys provided by the same tagger make one prerequisite.
    let reg = TaggerRegistry {
        taggers: vec![
            tagger("c", vec![Dependency::on("x"), Dependency::on("y")], &["z"]),
            tagger("p", vec![], &["x", "y"]),
            tagger("q", vec![], &["y"]),
        ],
    };
    match reg.run_plan() {
        Ok(stages) => assert_eq!(stages, vec![vec![1, 2], vec![0]]),
        Err(_) => panic!("no cycle"),
    }
}

#[test]
fn plan_stage_order_follows_release_by_last_prerequisite() {
    // Stage 0 is `p` then `q`; `late` waits only on `q`, `early` waits on `p`,
    // and `both` waits on both, so it is released by `q`, the later one.
    let reg = TaggerRegistry {
        taggers: vec![
            tagger("late", vec![Dependency::on("b")], &["l"]),
            tagger("both", vec![Dependency::on("a"), Dependency::on("b")], &["m"]),
            tagger("p", vec![], &["a"]),
            tagger("q", vec![], &["b"]),
            tagger("early", vec![Dependency::matching("a", "x*")], &["e"]),
        ],
    };
    let stages = match reg.run_plan() {
        Ok(s) => s,
        Err(_) => panic!("no cycle"),
    };
    assert_eq!(stages, vec![vec![2, 3], vec![4, 0, 1]]);
    // The same registry without the value filter gives the same positions.
    let mut unfiltered = reg;
    unfiltered.taggers[4].info.dependencies = vec![Dependency::on("a")];
    assert_eq!(unfiltered.run_plan().ok(), Some(vec![vec![2, 3], vec![4, 0, 1]]));
}
