//! Running the tagger plan against one file: which tagger runs next, with
//! which dependency values, and how its tags feed the taggers after it.
use vstd::prelude::*;

use crate::registry::{increasing, lists_exactly, PlanError, TaggerRegistry};
use crate::strutil::same_text;
use crate::tagger::{tag_views, Dependency, TagRequest};

verus! {

/// The map that `entries` build on top of `m`, each entry replacing any
/// earlier value for its key.
pub open spec fn with_tags(
    m: Map<Seq<char>, Seq<char>>,
    entries: Seq<(Seq<char>, Seq<char>)>,
) -> Map<Seq<char>, Seq<char>>
    decreases entries.len(),
{
    if entries.len() == 0 {
        m
    } else {
        with_tags(m, entries.drop_last()).insert(entries.last().0, entries.last().1)
    }
}

/// Every dependency in `deps` has a value in `m` that passes its filter.
pub open spec fn deps_satisfied(m: Map<Seq<char>, Seq<char>>, deps: Seq<Dependency>) -> bool {
    forall|t: int|
        0 <= t < deps.len() ==> m.contains_key(#[trigger] deps[t].key@) && deps[t].admits(
            m[deps[t].key@],
        )
}

/// The `(key, value)` entry `m` gives each dependency in `deps`, in order.
pub open spec fn deps_values(m: Map<Seq<char>, Seq<char>>, deps: Seq<Dependency>) -> Seq<
    (Seq<char>, Seq<char>),
> {
    deps.map_values(|d: Dependency| (d.key@, m[d.key@]))
}

proof fn lemma_with_tags_append(
    m: Map<Seq<char>, Seq<char>>,
    s: Seq<(Seq<char>, Seq<char>)>,
    e: (Seq<char>, Seq<char>),
)
    ensures
        with_tags(m, s.push(e)) == with_tags(m, s).insert(e.0, e.1),
{
    assert(s.push(e).drop_last() =~= s);
}

/// Looking a key up in the map that entries build finds the last entry with
/// that key.
proof fn lemma_with_tags_lookup(s: Seq<(Seq<char>, Seq<char>)>, j: int, key: Seq<char>)
    requires
        0 <= j <= s.len(),
        forall|j2: int| j <= j2 < s.len() ==> #[trigger] s[j2].0 != key,
    ensures
        with_tags(Map::empty(), s).contains_key(key) == with_tags(Map::empty(), s.take(j)).contains_key(
            key,
        ),
        with_tags(Map::empty(), s)[key] == with_tags(Map::empty(), s.take(j))[key],
    decreases s.len() - j,
{
    if j < s.len() {
        assert(s.take(j + 1).drop_last() =~= s.take(j));
        lemma_with_tags_lookup(s, j + 1, key);
    } else {
        assert(s.take(j) =~= s);
    }
}

/// After recording tags, a key holds the value of the last tag that sets it.
pub proof fn lemma_last_tag_wins(m: Map<Seq<char>, Seq<char>>, tags: Seq<(Seq<char>, Seq<char>)>, j: int)
    requires
        0 <= j < tags.len(),
        forall|j2: int| j < j2 < tags.len() ==> #[trigger] tags[j2].0 != tags[j].0,
    ensures
        with_tags(m, tags).contains_key(tags[j].0),
        with_tags(m, tags)[tags[j].0] == tags[j].1,
    decreases tags.len(),
{
    if j < tags.len() - 1 {
        let rest = tags.drop_last();
        assert forall|j2: int| j < j2 < rest.len() implies #[trigger] rest[j2].0 != rest[j].0 by {
            assert(rest[j2] == tags[j2]);
        }
        lemma_last_tag_wins(m, rest, j);
        assert(rest[j] == tags[j]);
        assert(tags.last().0 != tags[j].0);
    }
}

/// Recording tags that do not set a key leaves that key as it was.
pub proof fn lemma_untagged_key_kept(
    m: Map<Seq<char>, Seq<char>>,
    tags: Seq<(Seq<char>, Seq<char>)>,
    key: Seq<char>,
)
    requires
        forall|j: int| 0 <= j < tags.len() ==> #[trigger] tags[j].0 != key,
    ensures
        with_tags(m, tags).contains_key(key) == m.contains_key(key),
        with_tags(m, tags)[key] == m[key],
    decreases tags.len(),
{
    if tags.len() > 0 {
        let rest = tags.drop_last();
        assert forall|j: int| 0 <= j < rest.len() implies #[trigger] rest[j].0 != key by {
            assert(rest[j] == tags[j]);
        }
        lemma_untagged_key_kept(m, rest, key);
        assert(tags.last().0 != key);
    }
}

/// The tag values that the tag lists `answers`, recorded one after the
/// other, build from nothing.
pub open spec fn replay(answers: Seq<Seq<(Seq<char>, Seq<char>)>>) -> Map<Seq<char>, Seq<char>>
    decreases answers.len(),
{
    if answers.len() == 0 {
        Map::empty()
    } else {
        with_tags(replay(answers.drop_last()), answers.last())
    }
}

proof fn lemma_with_tags_origin(m: Map<Seq<char>, Seq<char>>, tags: Seq<(Seq<char>, Seq<char>)>, key: Seq<char>)
    ensures
        with_tags(m, tags).contains_key(key) <==> (m.contains_key(key) || exists|j: int|
            0 <= j < tags.len() && #[trigger] tags[j].0 == key),
        with_tags(m, tags).contains_key(key) ==> (m.contains_key(key) && with_tags(m, tags)[key] == m[key])
            || exists|j: int| 0 <= j < tags.len() && #[trigger] tags[j] == (key, with_tags(m, tags)[key]),
    decreases tags.len(),
{
    if tags.len() > 0 {
        let rest = tags.drop_last();
        lemma_with_tags_origin(m, rest, key);
        if exists|j: int| 0 <= j < rest.len() && #[trigger] rest[j].0 == key {
            let j = choose|j: int| 0 <= j < rest.len() && #[trigger] rest[j].0 == key;
            assert(tags[j] == rest[j]);
        }
        if exists|j: int| 0 <= j < tags.len() && #[trigger] tags[j].0 == key {
            let j = choose|j: int| 0 <= j < tags.len() && #[trigger] tags[j].0 == key;
            if j < rest.len() {
                assert(rest[j] == tags[j]);
            }
        }
        if tags.last().0 != key && with_tags(m, rest).contains_key(key) && !(m.contains_key(key)
            && with_tags(m, rest)[key] == m[key]) {
            let j = choose|j: int| 0 <= j < rest.len() && #[trigger] rest[j] == (key, with_tags(m, rest)[key]);
            assert(tags[j] == rest[j]);
        }
        if tags.last().0 == key {
            assert(tags[tags.len() - 1] == (key, with_tags(m, tags)[key]));
        }
    }
}

/// Tag values are reset per file: the values a pass offers its taggers hold a
/// key only if a tag recorded in that same pass set it, and each value is one
/// that such a tag carried. Nothing comes from the tags of another file.
pub proof fn lemma_values_reset_per_file(answers: Seq<Seq<(Seq<char>, Seq<char>)>>, key: Seq<char>)
    ensures
        replay(answers).contains_key(key) <==> exists|k: int, j: int|
            0 <= k < answers.len() && 0 <= j < answers[k].len() && #[trigger] answers[k][j].0 == key,
        replay(answers).contains_key(key) ==> exists|k: int, j: int|
            0 <= k < answers.len() && 0 <= j < answers[k].len() && #[trigger] answers[k][j] == (
                key,
                replay(answers)[key],
            ),
    decreases answers.len(),
{
    if answers.len() > 0 {
        let rest = answers.drop_last();
        let last = answers.last();
        lemma_values_reset_per_file(rest, key);
        lemma_with_tags_origin(replay(rest), last, key);
        let kl = answers.len() - 1;
        if exists|k: int, j: int| 0 <= k < rest.len() && 0 <= j < rest[k].len() && #[trigger] rest[k][j].0 == key {
            let (k, j) = choose|k: int, j: int|
                0 <= k < rest.len() && 0 <= j < rest[k].len() && #[trigger] rest[k][j].0 == key;
            assert(answers[k] == rest[k]);
            assert(answers[k][j].0 == key);
        }
        if exists|j: int| 0 <= j < last.len() && #[trigger] last[j].0 == key {
            let j = choose|j: int| 0 <= j < last.len() && #[trigger] last[j].0 == key;
            assert(answers[kl][j].0 == key);
        }
        if exists|k: int, j: int| 0 <= k < answers.len() && 0 <= j < answers[k].len() && #[trigger] answers[k][j].0 == key {
            let (k, j) = choose|k: int, j: int|
                0 <= k < answers.len() && 0 <= j < answers[k].len() && #[trigger] answers[k][j].0 == key;
            if k < rest.len() {
                assert(rest[k][j].0 == key);
            } else {
                assert(last[j].0 == key);
            }
        }
        if replay(answers).contains_key(key) {
            let v = replay(answers)[key];
            if replay(rest).contains_key(key) && v == replay(rest)[key] {
                let (k, j) = choose|k: int, j: int|
                    0 <= k < rest.len() && 0 <= j < rest[k].len() && #[trigger] rest[k][j] == (key, replay(rest)[key]);
                assert(answers[k] == rest[k]);
                assert(answers[k][j] == (key, v));
            } else {
                let j = choose|j: int| 0 <= j < last.len() && #[trigger] last[j] == (key, v);
                assert(answers[kl][j] == (key, v));
            }
        }
    }
}

/// Tag values produced so far for one file, by key. A later value for a key
/// replaces the earlier one.
pub struct Resolved {
    entries: Vec<(String, String)>,
}

impl View for Resolved {
    type V = Map<Seq<char>, Seq<char>>;

    closed spec fn view(&self) -> Map<Seq<char>, Seq<char>> {
        with_tags(Map::empty(), tag_views(self.entries@))
    }
}

impl Resolved {
    /// No values yet.
    pub fn new() -> (r: Resolved)
        ensures
            r@ == Map::<Seq<char>, Seq<char>>::empty(),
    {
        let r = Resolved { entries: Vec::new() };
        assert(tag_views(r.entries@) =~= Seq::empty());
        r
    }

    /// The value recorded for `key`, if any.
    pub fn get(&self, key: &str) -> (r: Option<&str>)
        ensures
            r is Some <==> self@.contains_key(key@),
            r matches Some(v) ==> v@ == self@[key@],
    {
        let ghost s = tag_views(self.entries@);
        let mut j: usize = self.entries.len();
        while j > 0
            invariant
                s == tag_views(self.entries@),
                j <= self.entries@.len(),
                forall|j2: int| j <= j2 < s.len() ==> #[trigger] s[j2].0 != key@,
            decreases j,
        {
            if same_text(self.entries[j - 1].0.as_str(), key) {
                proof {
                    lemma_with_tags_lookup(s, j as int, key@);
                    assert(s.take(j as int).drop_last() =~= s.take(j - 1));
                }
                return Some(self.entries[j - 1].1.as_str());
            }
            j -= 1;
        }
        proof {
            lemma_with_tags_lookup(s, 0, key@);
            assert(s.take(0) =~= Seq::<(Seq<char>, Seq<char>)>::empty());
        }
        None
    }

    /// Records `value` for `key`, replacing any earlier value.
    pub fn insert(&mut self, key: &String, value: &String)
        ensures
            final(self)@ == old(self)@.insert(key@, value@),
    {
        let ghost before = self.entries@;
        self.entries.push((key.clone(), value.clone()));
        proof {
            assert(tag_views(self.entries@) =~= tag_views(before).push((key@, value@)));
            lemma_with_tags_append(Map::empty(), tag_views(before), (key@, value@));
        }
    }

    /// Records every tag of `tags` in order, so a later tag for a key wins.
    pub fn record(&mut self, tags: &Vec<(String, String)>)
        ensures
            final(self)@ == with_tags(old(self)@, tag_views(tags@)),
    {
        let ghost start = self@;
        let mut j: usize = 0;
        while j < tags.len()
            invariant
                j <= tags@.len(),
                self@ == with_tags(start, tag_views(tags@).take(j as int)),
            decreases tags.len() - j,
        {
            self.insert(&tags[j].0, &tags[j].1);
            proof {
                assert(tag_views(tags@).take(j + 1) =~= tag_views(tags@).take(j as int).push(
                    (tags@[j as int].0@, tags@[j as int].1@),
                ));
                lemma_with_tags_append(
                    start,
                    tag_views(tags@).take(j as int),
                    (tags@[j as int].0@, tags@[j as int].1@),
                );
            }
            j += 1;
        }
        assert(tag_views(tags@).take(tags@.len() as int) =~= tag_views(tags@));
    }

    /// The values for `deps`, one `(key, value)` entry per dependency in
    /// order, when every dependency has a value passing its filter; `None` as
    /// soon as one is missing or rejected.
    pub fn resolve(&self, deps: &Vec<Dependency>) -> (r: Option<Vec<(String, String)>>)
        ensures
            r is Some <==> deps_satisfied(self@, deps@),
            r matches Some(v) ==> tag_views(v@) == deps_values(self@, deps@),
    {
        let mut out: Vec<(String, String)> = Vec::new();
        let mut t: usize = 0;
        while t < deps.len()
            invariant
                t <= deps@.len(),
                forall|t2: int|
                    0 <= t2 < t ==> self@.contains_key(#[trigger] deps@[t2].key@) && deps@[t2].admits(
                        self@[deps@[t2].key@],
                    ),
                tag_views(out@) == deps_values(self@, deps@.take(t as int)),
            decreases deps.len() - t,
        {
            let dep = &deps[t];
            let value = match self.get(dep.key.as_str()) {
                Some(v) => v,
                None => {
                    return None;
                },
            };
            if !dep.accepts(value) {
                return None;
            }
            let ghost before = out@;
            out.push((dep.key.clone(), value.to_owned()));
            proof {
                assert(deps@.take(t + 1) =~= deps@.take(t as int).push(deps@[t as int]));
                assert(tag_views(out@) =~= tag_views(before).push((dep.key@, value@)));
                assert(deps_values(self@, deps@.take(t + 1)) =~= deps_values(self@, deps@.take(t as int)).push(
                    (dep.key@, self@[dep.key@]),
                ));
            }
            t += 1;
        }
        assert(deps@.take(deps@.len() as int) =~= deps@);
        Some(out)
    }
}

/// The stages of a plan, run one after the other, each in its own order.
pub open spec fn flatten(stages: Seq<Vec<usize>>) -> Seq<usize>
    decreases stages.len(),
{
    if stages.len() == 0 {
        Seq::empty()
    } else {
        flatten(stages.drop_last()) + stages.last()@
    }
}

/// The daemon's tagger plan, fixed for its lifetime, ready to be run against
/// one file after another.
pub struct TagSchedule {
    registry: TaggerRegistry,
    stages: Vec<Vec<usize>>,
    order: Vec<usize>,
}

impl TagSchedule {
    #[verifier::type_invariant]
    spec fn well_formed(&self) -> bool {
        &&& self.registry.is_plan(self.stages@)
        &&& self.order@ == flatten(self.stages@)
        &&& forall|c: int| 0 <= c < self.order@.len() ==> #[trigger] self.order@[c] < self.registry.taggers@.len()
    }

    /// The registry the schedule runs.
    pub closed spec fn registry_view(&self) -> TaggerRegistry {
        self.registry
    }

    /// The plan's stages.
    pub closed spec fn plan(&self) -> Seq<Vec<usize>> {
        self.stages@
    }

    /// The order in which taggers are offered to each file.
    pub closed spec fn order(&self) -> Seq<usize> {
        self.order@
    }

    /// Whether tagger `i` would run given the values in `m`.
    pub open spec fn ready_to_run(&self, i: usize, m: Map<Seq<char>, Seq<char>>) -> bool {
        deps_satisfied(m, self.registry_view().taggers@[i as int].info.dependencies@)
    }

    /// The position, at or after `c`, of the first tagger in the order that
    /// would run given the values in `m`; the end of the order (or `c`, when
    /// that lies beyond it) when there is none.
    pub open spec fn first_ready(&self, c: int, m: Map<Seq<char>, Seq<char>>) -> int
        decreases self.order().len() - c,
    {
        if c < 0 || c >= self.order().len() {
            c
        } else if self.ready_to_run(self.order()[c], m) {
            c
        } else {
            self.first_ready(c + 1, m)
        }
    }

    /// The request a pass over `path`, at position `c` with values `m`, makes
    /// next: the tagger, the path, and the values of its dependencies.
    pub open spec fn pass_request(&self, path: Seq<char>, c: int, m: Map<Seq<char>, Seq<char>>) -> Option<
        (usize, Seq<char>, Seq<(Seq<char>, Seq<char>)>),
    > {
        let f = self.first_ready(c, m);
        if 0 <= f < self.order().len() {
            let i = self.order()[f];
            Some((i, path, deps_values(m, self.registry_view().taggers@[i as int].info.dependencies@)))
        } else {
            None
        }
    }

    /// The position a pass at `c` with values `m` moves to once it has made
    /// its next request (or found there is none).
    pub open spec fn pass_position(&self, c: int, m: Map<Seq<char>, Seq<char>>) -> int {
        let f = self.first_ready(c, m);
        if 0 <= f < self.order().len() {
            f + 1
        } else {
            f
        }
    }

    /// Plans the registry once (see `TaggerRegistry::run_plan`); the plan's
    /// error is returned unchanged.
    pub fn new(registry: TaggerRegistry) -> (r: Result<TagSchedule, PlanError>)
        ensures
            r is Ok <==> !exists|s: Set<int>| registry.cyclic(s),
            r matches Ok(s) ==> s.registry_view() == registry && registry.is_plan(s.plan())
                && registry.plan_in_order(s.plan()) && s.order() == flatten(s.plan()),
            r matches Err(PlanError::Cycle(names)) ==> exists|idx: Seq<usize>|
                #![trigger idx.len()]
                lists_exactly(idx, registry.unstageable()) && increasing(idx) && idx.len()
                    == names@.len() && forall|j: int|
                    0 <= j < idx.len() ==> #[trigger] names@[j]@ == registry.taggers@[idx[j] as int].info.name@,
    {
        let stages = match registry.run_plan() {
            Ok(stages) => stages,
            Err(e) => {
                return Err(e);
            },
        };
        let mut order: Vec<usize> = Vec::new();
        let mut k: usize = 0;
        while k < stages.len()
            invariant
                registry.is_plan(stages@),
                k <= stages@.len(),
                order@ == flatten(stages@.take(k as int)),
                forall|c: int| 0 <= c < order@.len() ==> #[trigger] order@[c] < registry.taggers@.len(),
            decreases stages.len() - k,
        {
            let stage = &stages[k];
            let ghost start = order@;
            let mut a: usize = 0;
            while a < stage.len()
                invariant
                    registry.is_plan(stages@),
                    k < stages@.len(),
                    stage@ == stages@[k as int]@,
                    a <= stage@.len(),
                    order@ == start + stage@.take(a as int),
                    forall|c: int| 0 <= c < order@.len() ==> #[trigger] order@[c] < registry.taggers@.len(),
                decreases stage.len() - a,
            {
                proof {
                    registry.lemma_plan_members_registered(stages@, k as int, a as int);
                }
                order.push(stage[a]);
                proof {
                    assert(stage@.take(a + 1) =~= stage@.take(a as int).push(stage@[a as int]));
                }
                a += 1;
            }
            proof {
                assert(stage@.take(stage@.len() as int) =~= stage@);
                assert(stages@.take(k + 1).drop_last() =~= stages@.take(k as int));
            }
            k += 1;
        }
        assert(stages@.take(stages@.len() as int) =~= stages@);
        Ok(TagSchedule { registry, stages, order })
    }

    /// The registry the schedule runs.
    pub fn registry(&self) -> (r: &TaggerRegistry)
        ensures
            *r == self.registry_view(),
    {
        &self.registry
    }

    /// The plan's stages, as indices into the registry.
    pub fn stages(&self) -> (r: &Vec<Vec<usize>>)
        ensures
            r@ == self.plan(),
            self.registry_view().is_plan(self.plan()),
            self.order() == flatten(self.plan()),
    {
        proof {
            use_type_invariant(self);
        }
        &self.stages
    }

    /// Begins a pass over `path` with no tag values yet: nothing recorded for
    /// an earlier file carries over.
    pub fn start(&self, path: &str) -> (run: FileRun)
        ensures
            run.path_view() == path@,
            run.cursor() == 0,
            run.values() == Map::<Seq<char>, Seq<char>>::empty(),
            run.recorded() == Seq::<Seq<(Seq<char>, Seq<char>)>>::empty(),
            run.values() == replay(run.recorded()),
    {
        FileRun { path: path.to_owned(), cursor: 0, resolved: Resolved::new(), recorded: Ghost(Seq::empty()) }
    }

    /// The next tagger to run on the file: the first one at or after the
    /// pass's position whose dependencies all have values passing their
    /// filters, with the request to send it. Taggers passed over do not run on
    /// this file. `None` once the plan is exhausted.
    pub fn next_request(&self, run: &mut FileRun) -> (r: Option<(usize, TagRequest)>)
        ensures
            final(run).path_view() == old(run).path_view(),
            final(run).values() == old(run).values(),
            final(run).recorded() == old(run).recorded(),
            final(run).values() == replay(final(run).recorded()),
            final(run).cursor() == self.pass_position(old(run).cursor(), old(run).values()),
            r is None <==> self.pass_request(old(run).path_view(), old(run).cursor(), old(run).values()) is None,
            r matches Some(f) ==> self.pass_request(old(run).path_view(), old(run).cursor(), old(run).values())
                == Some((f.0, f.1.path@, tag_views(f.1.deps@))),
            old(run).cursor() <= final(run).cursor(),
            forall|c: int|
                old(run).cursor() <= c < final(run).cursor() - (if r is Some {
                    1int
                } else {
                    0int
                }) ==> !self.ready_to_run(#[trigger] self.order()[c], old(run).values()),
            r is None ==> final(run).cursor() >= self.order().len(),
            r matches Some(found) ==> {
                let i = found.0;
                let req = found.1;
                &&& final(run).cursor() <= self.order().len()
                &&& self.order()[final(run).cursor() - 1] == i
                &&& i < self.registry_view().taggers@.len()
                &&& self.ready_to_run(i, old(run).values())
                &&& req.path@ == old(run).path_view()
                &&& tag_views(req.deps@) == deps_values(
                    old(run).values(),
                    self.registry_view().taggers@[i as int].info.dependencies@,
                )
            },
    {
        proof {
            use_type_invariant(self);
            use_type_invariant(&*run);
        }
        let ghost start = run.cursor;
        while run.cursor < self.order.len()
            invariant
                start == old(run).cursor,
                start <= run.cursor,
                forall|c: int| 0 <= c < self.order@.len() ==> #[trigger] self.order@[c] < self.registry.taggers@.len(),
                forall|c: int|
                    start <= c < run.cursor ==> !self.ready_to_run(#[trigger] self.order@[c], run.resolved@),
                run.path@ == old(run).path@,
                run.resolved@ == old(run).resolved@,
                run.recorded@ == old(run).recorded@,
                run.resolved@ == replay(run.recorded@),
                self.first_ready(start as int, run.resolved@) == self.first_ready(run.cursor as int, run.resolved@),
                self.order() == self.order@,
            decreases self.order.len() - run.cursor,
        {
            let i = self.order[run.cursor];
            let ghost c = run.cursor as int;
            run.cursor = run.cursor + 1;
            let deps = run.resolved.resolve(&self.registry.taggers[i].info.dependencies);
            if let Some(deps) = deps {
                assert(self.first_ready(c, run.resolved@) == c);
                let req = TagRequest { path: run.path.clone(), deps };
                return Some((i, req));
            }
            assert(self.first_ready(c, run.resolved@) == self.first_ready(c + 1, run.resolved@));
        }
        None
    }
}

/// One file's pass through the plan: its path, how far the pass has got, and
/// the tag values produced so far.
pub struct FileRun {
    path: String,
    cursor: usize,
    resolved: Resolved,
    recorded: Ghost<Seq<Seq<(Seq<char>, Seq<char>)>>>,
}

impl FileRun {
    #[verifier::type_invariant]
    spec fn values_from_recorded(&self) -> bool {
        self.resolved@ == replay(self.recorded@)
    }

    /// The tag lists recorded in this pass, in order.
    pub closed spec fn recorded(&self) -> Seq<Seq<(Seq<char>, Seq<char>)>> {
        self.recorded@
    }

    pub closed spec fn path_view(&self) -> Seq<char> {
        self.path@
    }

    pub closed spec fn cursor(&self) -> int {
        self.cursor as int
    }

    /// The tag values produced so far in this pass.
    pub closed spec fn values(&self) -> Map<Seq<char>, Seq<char>> {
        self.resolved@
    }

    /// Makes a tagger's tags visible to the taggers after it; for a key set
    /// twice, the later tag wins.
    pub fn record(&mut self, tags: &Vec<(String, String)>)
        ensures
            final(self).values() == with_tags(old(self).values(), tag_views(tags@)),
            final(self).path_view() == old(self).path_view(),
            final(self).cursor() == old(self).cursor(),
            final(self).recorded() == old(self).recorded().push(tag_views(tags@)),
            final(self).values() == replay(final(self).recorded()),
    {
        proof {
            use_type_invariant(&*self);
        }
        let mut run = FileRun {
            path: String::new(),
            cursor: 0,
            resolved: Resolved::new(),
            recorded: Ghost(Seq::empty()),
        };
        std::mem::swap(self, &mut run);
        let FileRun { path, cursor, mut resolved, recorded } = run;
        resolved.record(tags);
        let ghost now = recorded@.push(tag_views(tags@));
        proof {
            assert(now.drop_last() =~= recorded@);
        }
        *self = FileRun { path, cursor, resolved, recorded: Ghost(now) };
    }

    /// The tag value produced so far for `key`, if any.
    pub fn value(&self, key: &str) -> (r: Option<&str>)
        ensures
            r is Some <==> self.values().contains_key(key@),
            r matches Some(v) ==> v@ == self.values()[key@],
    {
        self.resolved.get(key)
    }
}

/// Tag values are reset per file, so a pass depends on nothing but its own
/// file: two passes over the same path that stand at the same position and
/// have recorded the same tags in the same order, whatever files either one
/// followed, hold the same values, make the same next request and move to the
/// same position. Every pass begins alike (`TagSchedule::start`: position 0,
/// nothing recorded), so two passes whose taggers give the same answers make
/// the same requests from first to last.
pub proof fn lemma_same_answers_same_requests(sched: &TagSchedule, r1: &FileRun, r2: &FileRun)
    requires
        r1.values() == replay(r1.recorded()),
        r2.values() == replay(r2.recorded()),
        r1.path_view() == r2.path_view(),
        r1.cursor() == r2.cursor(),
        r1.recorded() == r2.recorded(),
    ensures
        r1.values() == r2.values(),
        sched.pass_request(r1.path_view(), r1.cursor(), r1.values()) == sched.pass_request(
            r2.path_view(),
            r2.cursor(),
            r2.values(),
        ),
        sched.pass_position(r1.cursor(), r1.values()) == sched.pass_position(r2.cursor(), r2.values()),
{
}

} // verus!
