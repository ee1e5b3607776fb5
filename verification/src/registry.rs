//! The set of installed taggers and the staged order in which they run.
use vstd::prelude::*;
use vstd::set_lib::*;

use crate::tagger::TaggerInfo;

verus! {

/// An installed tagger: the executable and what it reported for `--tagd-info`.
pub struct Tagger {
    pub path: String,
    pub info: TaggerInfo,
}

/// Every tagger found at startup.
pub struct TaggerRegistry {
    pub taggers: Vec<Tagger>,
}

/// Why no run plan could be built.
pub enum PlanError {
    /// The named runnable taggers depend on one another in a cycle, so none of
    /// them can ever run first. Names are in registry order.
    Cycle(Vec<String>),
}

/// Number of `true` entries in `s`.
pub open spec fn count_true(s: Seq<bool>) -> nat
    decreases s.len(),
{
    if s.len() == 0 {
        0
    } else {
        count_true(s.drop_last()) + if s.last() {
            1nat
        } else {
            0nat
        }
    }
}

proof fn lemma_count_true_clear(s: Seq<bool>, i: int)
    requires
        0 <= i < s.len(),
        s[i],
    ensures
        count_true(s.update(i, false)) + 1 == count_true(s),
    decreases s.len(),
{
    if i < s.len() - 1 {
        lemma_count_true_clear(s.drop_last(), i);
        assert(s.update(i, false).drop_last() =~= s.drop_last().update(i, false));
    } else {
        assert(s.update(i, false).drop_last() =~= s.drop_last());
    }
}

/// The indices `i < len` with `flags[i]` set.
pub open spec fn flag_set(flags: Seq<bool>) -> Set<int> {
    Set::new(|i: int| 0 <= i < flags.len() && flags[i])
}

/// `s` lists every member of `set` exactly once and nothing else.
pub open spec fn lists_exactly(s: Seq<usize>, set: Set<int>) -> bool {
    &&& s.no_duplicates()
    &&& forall|a: int| 0 <= a < s.len() ==> set.contains(#[trigger] s[a] as int)
    &&& forall|i: int| set.contains(i) ==> exists|a: int| 0 <= a < s.len() && #[trigger] s[a] as int == i
}

/// The members of `s`, as integers.
pub open spec fn seq_set(s: Seq<usize>) -> Set<int> {
    Set::new(|x: int| exists|a: int| 0 <= a < s.len() && s[a] as int == x)
}

/// Each element of `s` is smaller than the next.
pub open spec fn increasing(s: Seq<usize>) -> bool {
    forall|a: int, b: int| 0 <= a < b < s.len() ==> s[a] < s[b]
}

impl TaggerRegistry {
    pub open spec fn len(&self) -> int {
        self.taggers@.len() as int
    }

    /// Number of dependencies tagger `i` declares.
    pub open spec fn num_deps(&self, i: int) -> int {
        self.taggers@[i].info.dependencies@.len() as int
    }

    /// The key of the `t`-th dependency of tagger `i`.
    pub open spec fn dep_key(&self, i: int, t: int) -> Seq<char> {
        self.taggers@[i].info.dependencies@[t].key@
    }

    /// The keys tagger `i` provides.
    pub open spec fn key_views(&self, i: int) -> Seq<Seq<char>> {
        self.taggers@[i].info.keys@.map_values(|k: String| k@)
    }

    /// Tagger `p` lists `key` among the keys it provides.
    pub open spec fn provides(&self, p: int, key: Seq<char>) -> bool {
        exists|j: int|
            0 <= j < self.taggers@[p].info.keys@.len() && #[trigger] self.taggers@[p].info.keys@[j]@
                == key
    }

    /// Some member of `s` other than `i` provides the `t`-th dependency key of `i`.
    pub open spec fn dep_met(&self, s: Set<int>, i: int, t: int) -> bool {
        exists|p: int|
            #![trigger self.provides(p, self.dep_key(i, t))]
            s.contains(p) && p != i && self.provides(p, self.dep_key(i, t))
    }

    /// Every dependency key of `i` is provided by some member of `s` other than `i`.
    pub open spec fn supported_in(&self, s: Set<int>, i: int) -> bool {
        forall|t: int| 0 <= t < self.num_deps(i) ==> #[trigger] self.dep_met(s, i, t)
    }

    /// A set of taggers that could all run together: each of its dependency
    /// keys is provided by another member.
    pub open spec fn closed(&self, s: Set<int>) -> bool {
        &&& forall|i: int| s.contains(i) ==> 0 <= i < self.len()
        &&& forall|i: int| #[trigger] s.contains(i) ==> self.supported_in(s, i)
    }

    /// The runnable taggers: those in some closed set, which is to say the
    /// largest closed set. A tagger whose dependency no runnable tagger
    /// provides is dropped, and so is everything that depends on it in turn.
    pub open spec fn runnable(&self) -> Set<int> {
        Set::new(|i: int| exists|s: Set<int>| #[trigger] self.closed(s) && s.contains(i))
    }

    /// Runnable tagger `i` must wait for runnable tagger `p`: `p` provides one
    /// of `i`'s dependency keys.
    pub open spec fn edge(&self, i: int, p: int) -> bool {
        &&& self.runnable().contains(i)
        &&& self.runnable().contains(p)
        &&& p != i
        &&& exists|t: int| 0 <= t < self.num_deps(i) && #[trigger] self.provides(p, self.dep_key(i, t))
    }

    /// The runnable taggers not in `done` whose prerequisites are all in `done`.
    pub open spec fn ready(&self, done: Set<int>) -> Set<int> {
        Set::new(
            |i: int|
                self.runnable().contains(i) && !done.contains(i) && forall|p: int|
                    #[trigger] self.edge(i, p) ==> done.contains(p),
        )
    }

    /// The taggers placed in the first `k` stages.
    pub open spec fn staged(&self, k: nat) -> Set<int>
        decreases k,
    {
        if k == 0 {
            Set::empty()
        } else {
            let prev = self.staged((k - 1) as nat);
            prev.union(self.ready(prev))
        }
    }

    /// Stage `k`: the taggers whose prerequisites all sit in earlier stages.
    pub open spec fn layer(&self, k: nat) -> Set<int> {
        self.ready(self.staged(k))
    }

    /// Runnable taggers that no stage ever holds.
    pub open spec fn unstageable(&self) -> Set<int> {
        Set::new(
            |i: int| self.runnable().contains(i) && forall|k: nat| !#[trigger] self.staged(k).contains(i),
        )
    }

    /// Tagger `i` waits for some member of `s`.
    pub open spec fn waits_in(&self, s: Set<int>, i: int) -> bool {
        exists|p: int| s.contains(p) && self.edge(i, p)
    }

    /// A non-empty set of runnable taggers each of which waits for another
    /// member: a dependency cycle.
    pub open spec fn cyclic(&self, s: Set<int>) -> bool {
        &&& exists|i: int| s.contains(i)
        &&& s.subset_of(self.runnable())
        &&& forall|i: int| s.contains(i) ==> #[trigger] self.waits_in(s, i)
    }

    /// `stages` is the staged run order: stage `k` holds exactly the
    /// taggers of `layer(k)`, every stage is non-empty, and together they hold
    /// every runnable tagger.
    pub open spec fn is_plan(&self, stages: Seq<Vec<usize>>) -> bool {
        &&& forall|k: int| 0 <= k < stages.len() ==> lists_exactly(#[trigger] stages[k]@, self.layer(k as nat))
        &&& forall|k: int| 0 <= k < stages.len() ==> #[trigger] stages[k]@.len() > 0
        &&& self.layer(stages.len()).is_empty()
        &&& self.staged(stages.len()) == self.runnable()
    }

    /// The position in `prev` of the last tagger that `d` must wait for;
    /// `-1` when it waits for none of them.
    pub open spec fn last_prereq(&self, prev: Seq<usize>, d: int) -> int
        decreases prev.len(),
    {
        if prev.len() == 0 {
            -1
        } else if self.edge(d, prev.last() as int) {
            prev.len() - 1
        } else {
            self.last_prereq(prev.drop_last(), d)
        }
    }

    /// Within the stage after `prev`, `d1` comes before `d2`: its last
    /// prerequisite sits earlier in `prev`, or at the same place and `d1` has
    /// the smaller index.
    pub open spec fn runs_before(&self, prev: Seq<usize>, d1: int, d2: int) -> bool {
        ||| self.last_prereq(prev, d1) < self.last_prereq(prev, d2)
        ||| self.last_prereq(prev, d1) == self.last_prereq(prev, d2) && d1 < d2
    }

    /// `stage` lists its taggers in the order `runs_before` gives after `prev`.
    pub open spec fn stage_in_order(&self, prev: Seq<usize>, stage: Seq<usize>) -> bool {
        forall|a: int, b: int|
            0 <= a < b < stage.len() ==> self.runs_before(prev, #[trigger] stage[a] as int, #[trigger] stage[b] as int)
    }

    /// The stage before stage `k` of `stages`; nothing before the first.
    pub open spec fn stage_before(stages: Seq<Vec<usize>>, k: int) -> Seq<usize> {
        if k == 0 {
            Seq::empty()
        } else {
            stages[k - 1]@
        }
    }

    /// The order within each stage: the first stage by index; each later
    /// stage by the position in the stage before it of each tagger's last
    /// prerequisite, then by index. This is the order in which a tagger's
    /// last prerequisite releases it.
    pub open spec fn plan_in_order(&self, stages: Seq<Vec<usize>>) -> bool {
        forall|k: int|
            0 <= k < stages.len() ==> self.stage_in_order(Self::stage_before(stages, k), #[trigger] stages[k]@)
    }

    /// The last prerequisite of `d` in `prev` sits at `j` when `d` waits for
    /// `prev[j]` and for nothing after it.
    proof fn lemma_last_prereq_at(&self, prev: Seq<usize>, d: int, j: int)
        requires
            0 <= j < prev.len(),
            self.edge(d, prev[j] as int),
            forall|a: int| j < a < prev.len() ==> !self.edge(d, #[trigger] prev[a] as int),
        ensures
            self.last_prereq(prev, d) == j,
        decreases prev.len(),
    {
        if j < prev.len() - 1 {
            let q = prev.drop_last();
            assert(!self.edge(d, prev[prev.len() - 1] as int));
            assert forall|a: int| j < a < q.len() implies !self.edge(d, #[trigger] q[a] as int) by {
                assert(q[a] == prev[a]);
            }
            assert(q[j] == prev[j]);
            self.lemma_last_prereq_at(q, d, j);
        }
    }

    /// With no stage before, the order is by index.
    proof fn lemma_first_stage_order(&self, stage: Seq<usize>)
        requires
            increasing(stage),
        ensures
            self.stage_in_order(Seq::empty(), stage),
    {
    }

    /// Two lists of the same taggers, each without repeats and both in the
    /// order `runs_before` gives after `prev`, are the same list.
    proof fn lemma_ordered_unique(&self, prev: Seq<usize>, s1: Seq<usize>, s2: Seq<usize>)
        requires
            s1.no_duplicates(),
            s2.no_duplicates(),
            forall|x: int| seq_set(s1).contains(x) <==> seq_set(s2).contains(x),
            self.stage_in_order(prev, s1),
            self.stage_in_order(prev, s2),
        ensures
            s1 == s2,
        decreases s1.len() + s2.len(),
    {
        if s1.len() == 0 {
            if s2.len() > 0 {
                assert(seq_set(s2).contains(s2[0] as int));
            }
            assert(s1 =~= s2);
        } else if s2.len() == 0 {
            assert(seq_set(s1).contains(s1[0] as int));
        } else {
            let x1 = s1[0];
            let x2 = s2[0];
            assert(seq_set(s1).contains(x1 as int));
            assert(seq_set(s2).contains(x2 as int));
            let a2 = choose|a: int| 0 <= a < s2.len() && s2[a] as int == x1 as int;
            let a1 = choose|a: int| 0 <= a < s1.len() && s1[a] as int == x2 as int;
            if x1 != x2 {
                assert(a2 > 0);
                assert(a1 > 0);
                assert(self.runs_before(prev, s2[0] as int, s2[a2] as int));
                assert(self.runs_before(prev, s1[0] as int, s1[a1] as int));
            }
            let t1 = s1.drop_first();
            let t2 = s2.drop_first();
            assert forall|x: int| seq_set(t1).contains(x) <==> seq_set(t2).contains(x) by {
                if seq_set(t1).contains(x) {
                    let a = choose|a: int| 0 <= a < t1.len() && t1[a] as int == x;
                    assert(s1[a + 1] as int == x);
                    assert(seq_set(s1).contains(x));
                    let b = choose|b: int| 0 <= b < s2.len() && s2[b] as int == x;
                    assert(s1[a + 1] != s1[0]);
                    assert(b != 0);
                    assert(t2[b - 1] as int == x);
                }
                if seq_set(t2).contains(x) {
                    let a = choose|a: int| 0 <= a < t2.len() && t2[a] as int == x;
                    assert(s2[a + 1] as int == x);
                    assert(seq_set(s2).contains(x));
                    let b = choose|b: int| 0 <= b < s1.len() && s1[b] as int == x;
                    assert(s2[a + 1] != s2[0]);
                    assert(b != 0);
                    assert(t1[b - 1] as int == x);
                }
            }
            assert forall|a: int, b: int| 0 <= a < b < t1.len() implies self.runs_before(
                prev,
                #[trigger] t1[a] as int,
                #[trigger] t1[b] as int,
            ) by {
                assert(t1[a] == s1[a + 1] && t1[b] == s1[b + 1]);
            }
            assert forall|a: int, b: int| 0 <= a < b < t2.len() implies self.runs_before(
                prev,
                #[trigger] t2[a] as int,
                #[trigger] t2[b] as int,
            ) by {
                assert(t2[a] == s2[a + 1] && t2[b] == s2[b + 1]);
            }
            assert(t1.no_duplicates()) by {
                assert forall|a: int, b: int| 0 <= a < t1.len() && 0 <= b < t1.len() && a != b implies t1[a]
                    != t1[b] by {
                    assert(t1[a] == s1[a + 1] && t1[b] == s1[b + 1]);
                }
            }
            assert(t2.no_duplicates()) by {
                assert forall|a: int, b: int| 0 <= a < t2.len() && 0 <= b < t2.len() && a != b implies t2[a]
                    != t2[b] by {
                    assert(t2[a] == s2[a + 1] && t2[b] == s2[b + 1]);
                }
            }
            self.lemma_ordered_unique(prev, t1, t2);
            assert(s1 =~= seq![x1] + t1);
            assert(s2 =~= seq![x2] + t2);
        }
    }

    /// Whether tagger `p` provides `key`.
    fn provides_key(&self, p: usize, key: &String) -> (b: bool)
        requires
            p < self.taggers@.len(),
        ensures
            b == self.provides(p as int, key@),
    {
        let keys = &self.taggers[p].info.keys;
        let mut j: usize = 0;
        while j < keys.len()
            invariant
                keys == &self.taggers@[p as int].info.keys,
                j <= keys.len(),
                forall|j2: int| 0 <= j2 < j ==> keys@[j2]@ != key@,
            decreases keys.len() - j,
        {
            if keys[j] == *key {
                return true;
            }
            j += 1;
        }
        false
    }

    /// Whether some tagger other than `skip` with its flag set provides `key`.
    fn provided_by_other(&self, key: &String, flags: &Vec<bool>, skip: usize) -> (b: bool)
        requires
            flags@.len() == self.taggers@.len(),
        ensures
            b == exists|p: int|
                #![trigger self.provides(p, key@)]
                flag_set(flags@).contains(p) && p != skip && self.provides(p, key@),
    {
        let n = self.taggers.len();
        let mut p: usize = 0;
        while p < n
            invariant
                n == self.taggers@.len(),
                flags@.len() == n,
                p <= n,
                forall|q: int|
                    0 <= q < p && #[trigger] self.provides(q, key@) ==> !flags@[q] || q == skip,
            decreases n - p,
        {
            if p != skip && flags[p] && self.provides_key(p, key) {
                return true;
            }
            p += 1;
        }
        false
    }

    /// The first dependency of tagger `i` that no other flagged tagger provides.
    fn first_unsupported(&self, flags: &Vec<bool>, i: usize) -> (r: Option<usize>)
        requires
            flags@.len() == self.taggers@.len(),
            i < self.taggers@.len(),
        ensures
            r is None ==> self.supported_in(flag_set(flags@), i as int),
            r matches Some(t) ==> 0 <= t < self.num_deps(i as int) && !self.dep_met(
                flag_set(flags@),
                i as int,
                t as int,
            ),
    {
        let deps = &self.taggers[i].info.dependencies;
        let mut t: usize = 0;
        while t < deps.len()
            invariant
                flags@.len() == self.taggers@.len(),
                i < self.taggers@.len(),
                deps@ == self.taggers@[i as int].info.dependencies@,
                t <= deps@.len(),
                forall|t2: int| 0 <= t2 < t ==> #[trigger] self.dep_met(flag_set(flags@), i as int, t2),
            decreases deps.len() - t,
        {
            let found = self.provided_by_other(&deps[t].key, flags, i);
            assert(deps@[t as int].key@ == self.dep_key(i as int, t as int));
            assert(found == self.dep_met(flag_set(flags@), i as int, t as int));
            if !found {
                return Some(t);
            }
            t += 1;
        }
        None
    }

    /// Flags the runnable taggers by dropping, until nothing changes, every
    /// tagger with a dependency key that no other still-flagged tagger provides.
    fn runnable_flags(&self) -> (flags: Vec<bool>)
        ensures
            flags@.len() == self.taggers@.len(),
            flag_set(flags@) == self.runnable(),
    {
        let n = self.taggers.len();
        let mut flags: Vec<bool> = Vec::new();
        for i in 0..n
            invariant
                flags@.len() == i,
                forall|j: int| 0 <= j < i ==> flags@[j],
        {
            flags.push(true);
        }
        assert forall|s: Set<int>| self.closed(s) implies s.subset_of(flag_set(flags@)) by {}
        let mut changed = true;
        while changed
            invariant
                n == self.taggers@.len(),
                flags@.len() == n,
                forall|s: Set<int>| #[trigger] self.closed(s) ==> s.subset_of(flag_set(flags@)),
                !changed ==> self.closed(flag_set(flags@)),
            decreases count_true(flags@) + if changed {
                1nat
            } else {
                0nat
            },
        {
            let ghost start = flags@;
            changed = false;
            let mut i: usize = 0;
            while i < n
                invariant
                    n == self.taggers@.len(),
                    flags@.len() == n,
                    i <= n,
                    forall|s: Set<int>| #[trigger] self.closed(s) ==> s.subset_of(flag_set(flags@)),
                    !changed ==> flags@ == start,
                    changed ==> count_true(flags@) < count_true(start),
                    !changed ==> forall|j: int|
                        0 <= j < i && flags@[j] ==> #[trigger] self.supported_in(flag_set(flags@), j),
                decreases n - i,
            {
                if flags[i] {
                    let missing = self.first_unsupported(&flags, i);
                    if let Some(t) = missing {
                        let ghost before = flags@;
                        proof {
                            assert forall|s: Set<int>| #[trigger] self.closed(s) implies !s.contains(
                                i as int,
                            ) by {
                                if s.contains(i as int) {
                                    assert(self.supported_in(s, i as int));
                                    assert(self.dep_met(s, i as int, t as int));
                                    let p = choose|p: int|
                                        s.contains(p) && p != i && self.provides(
                                            p,
                                            self.dep_key(i as int, t as int),
                                        );
                                    assert(s.subset_of(flag_set(before)));
                                    assert(flag_set(before).contains(p));
                                }
                            }
                            lemma_count_true_clear(before, i as int);
                        }
                        flags.set(i, false);
                        changed = true;
                        proof {
                            assert forall|s: Set<int>| #[trigger] self.closed(s) implies s.subset_of(
                                flag_set(flags@),
                            ) by {
                                assert(s.subset_of(flag_set(before)));
                                assert(!s.contains(i as int));
                            }
                        }
                    } else {
                        assert(self.supported_in(flag_set(flags@), i as int));
                    }
                }
                i += 1;
            }
        }
        proof {
            let r = flag_set(flags@);
            assert forall|i: int| r.contains(i) <==> self.runnable().contains(i) by {
                if r.contains(i) {
                    assert(self.closed(r));
                }
                if self.runnable().contains(i) {
                    let s = choose|s: Set<int>| #[trigger] self.closed(s) && s.contains(i);
                    assert(s.subset_of(r));
                }
            }
            assert(r =~= self.runnable());
        }
        flags
    }

    /// Number of prerequisites `p < upto` of tagger `i` that are not in `done`.
    pub open spec fn undone(&self, i: int, done: Set<int>, upto: int) -> nat
        decreases upto,
    {
        if upto <= 0 {
            0
        } else {
            self.undone(i, done, upto - 1) + if self.edge(i, upto - 1) && !done.contains(upto - 1) {
                1nat
            } else {
                0nat
            }
        }
    }

    /// The taggers that must wait for `p`.
    pub open spec fn waiting_on(&self, p: int) -> Set<int> {
        Set::new(|i: int| self.edge(i, p))
    }

    proof fn lemma_runnable_bound(&self, i: int)
        requires
            self.runnable().contains(i),
        ensures
            0 <= i < self.len(),
    {
        let s = choose|s: Set<int>| #[trigger] self.closed(s) && s.contains(i);
    }

    proof fn lemma_undone_zero(&self, i: int, done: Set<int>, upto: int)
        ensures
            self.undone(i, done, upto) == 0 <==> forall|p: int|
                0 <= p < upto && #[trigger] self.edge(i, p) ==> done.contains(p),
        decreases upto,
    {
        if upto > 0 {
            self.lemma_undone_zero(i, done, upto - 1);
        }
    }

    proof fn lemma_undone_insert(&self, i: int, done: Set<int>, q: int, upto: int)
        ensures
            self.undone(i, done.insert(q), upto) + (if 0 <= q < upto && self.edge(i, q) && !done.contains(
                q,
            ) {
                1int
            } else {
                0int
            }) == self.undone(i, done, upto),
        decreases upto,
    {
        if upto > 0 {
            self.lemma_undone_insert(i, done, q, upto - 1);
        }
    }

    proof fn lemma_staged_mono(&self, k1: nat, k2: nat)
        requires
            k1 <= k2,
        ensures
            self.staged(k1).subset_of(self.staged(k2)),
        decreases k2,
    {
        if k1 < k2 {
            self.lemma_staged_mono(k1, (k2 - 1) as nat);
        }
    }

    proof fn lemma_staged_runnable(&self, k: nat)
        ensures
            self.staged(k).subset_of(self.runnable()),
            self.staged(k).subset_of(set_int_range(0, self.len())),
        decreases k,
    {
        if k > 0 {
            self.lemma_staged_runnable((k - 1) as nat);
            assert forall|i: int| self.staged(k).contains(i) implies 0 <= i < self.len() by {
                self.lemma_runnable_bound(i);
            }
        }
    }

    /// A staged tagger's prerequisites are staged too.
    proof fn lemma_staged_edges(&self, k: nat, i: int, p: int)
        requires
            self.staged(k).contains(i),
            self.edge(i, p),
        ensures
            self.staged(k).contains(p),
        decreases k,
    {
        let prev = self.staged((k - 1) as nat);
        if prev.contains(i) {
            self.lemma_staged_edges((k - 1) as nat, i, p);
        }
    }

    /// Once a stage comes out empty, no later stage adds anything.
    proof fn lemma_staged_stable(&self, k: nat, m: nat)
        requires
            self.layer(k).is_empty(),
            k <= m,
        ensures
            self.staged(m) == self.staged(k),
        decreases m,
    {
        if k < m {
            self.lemma_staged_stable(k, (m - 1) as nat);
            assert(self.staged(m) =~= self.staged(k));
        }
    }

    /// Once a stage comes out empty, the taggers never staged are exactly the
    /// runnable ones staged so far left out.
    proof fn lemma_unstageable_at(&self, k: nat)
        requires
            self.layer(k).is_empty(),
        ensures
            self.unstageable() == self.runnable().difference(self.staged(k)),
    {
        assert forall|i: int| self.unstageable().contains(i) <==> self.runnable().difference(
            self.staged(k),
        ).contains(i) by {
            if self.runnable().contains(i) && !self.staged(k).contains(i) {
                assert forall|m: nat| !#[trigger] self.staged(m).contains(i) by {
                    if m <= k {
                        self.lemma_staged_mono(m, k);
                    } else {
                        self.lemma_staged_stable(k, m);
                    }
                }
            }
        }
        assert(self.unstageable() =~= self.runnable().difference(self.staged(k)));
    }

    /// Once a stage comes out empty, every runnable tagger has been staged
    /// exactly when no dependency cycle exists.
    pub proof fn lemma_staged_all_iff_acyclic(&self, k: nat)
        requires
            self.layer(k).is_empty(),
        ensures
            self.staged(k) == self.runnable() <==> !exists|s: Set<int>| self.cyclic(s),
    {
        self.lemma_staged_runnable(k);
        if self.staged(k) != self.runnable() {
            let t = self.runnable().difference(self.staged(k));
            assert(!(self.runnable() =~= self.staged(k)));
            let x = choose|x: int| self.runnable().contains(x) && !self.staged(k).contains(x);
            assert(t.contains(x));
            assert forall|i: int| t.contains(i) implies #[trigger] self.waits_in(t, i) by {
                assert(!self.layer(k).contains(i));
                let p = choose|p: int| #[trigger] self.edge(i, p) && !self.staged(k).contains(p);
                assert(t.contains(p));
            }
            assert(self.cyclic(t));
        } else {
            assert forall|s: Set<int>| !self.cyclic(s) by {
                if self.cyclic(s) {
                    self.lemma_cyclic_never_staged(s, k);
                    let x = choose|x: int| s.contains(x);
                    assert(self.runnable().contains(x));
                }
            }
        }
    }

    /// No member of a dependency cycle is ever staged.
    proof fn lemma_cyclic_never_staged(&self, s: Set<int>, k: nat)
        requires
            self.cyclic(s),
        ensures
            s.disjoint(self.staged(k)),
        decreases k,
    {
        if k > 0 {
            self.lemma_cyclic_never_staged(s, (k - 1) as nat);
            let prev = self.staged((k - 1) as nat);
            assert forall|x: int| s.contains(x) implies !self.staged(k).contains(x) by {
                assert(self.waits_in(s, x));
                let p = choose|p: int| s.contains(p) && self.edge(x, p);
                assert(!prev.contains(p));
            }
        }
    }

    /// Whether runnable tagger `i` must wait for runnable tagger `p`.
    fn edge_exec(&self, flags: &Vec<bool>, i: usize, p: usize) -> (b: bool)
        requires
            flags@.len() == self.taggers@.len(),
            flag_set(flags@) == self.runnable(),
            i < self.taggers@.len(),
            p < self.taggers@.len(),
        ensures
            b == self.edge(i as int, p as int),
    {
        proof {
            assert(flag_set(flags@).contains(i as int) == flags@[i as int]);
            assert(flag_set(flags@).contains(p as int) == flags@[p as int]);
        }
        if !flags[i] || !flags[p] || p == i {
            return false;
        }
        let deps = &self.taggers[i].info.dependencies;
        let mut t: usize = 0;
        while t < deps.len()
            invariant
                i < self.taggers@.len(),
                p < self.taggers@.len(),
                p != i,
                self.runnable().contains(i as int),
                self.runnable().contains(p as int),
                deps@ == self.taggers@[i as int].info.dependencies@,
                t <= deps@.len(),
                forall|t2: int| 0 <= t2 < t ==> !#[trigger] self.provides(p as int, self.dep_key(i as int, t2)),
            decreases deps.len() - t,
        {
            let found = self.provides_key(p, &deps[t].key);
            assert(deps@[t as int].key@ == self.dep_key(i as int, t as int));
            if found {
                return true;
            }
            t += 1;
        }
        false
    }

    /// For each tagger `q`, the taggers that must wait for it, in index order.
    fn waiting_lists(&self, flags: &Vec<bool>) -> (lists: Vec<Vec<usize>>)
        requires
            flags@.len() == self.taggers@.len(),
            flag_set(flags@) == self.runnable(),
        ensures
            lists@.len() == self.taggers@.len(),
            forall|q: int|
                0 <= q < self.len() ==> lists_exactly(#[trigger] lists@[q]@, self.waiting_on(q))
                    && increasing(lists@[q]@),
    {
        let n = self.taggers.len();
        let mut lists: Vec<Vec<usize>> = Vec::new();
        for q in 0..n
            invariant
                n == self.taggers@.len(),
                flags@.len() == n,
                flag_set(flags@) == self.runnable(),
                lists@.len() == q,
                forall|q2: int|
                    0 <= q2 < q ==> lists_exactly(#[trigger] lists@[q2]@, self.waiting_on(q2))
                        && increasing(lists@[q2]@),
        {
            let mut ds: Vec<usize> = Vec::new();
            for i in 0..n
                invariant
                    n == self.taggers@.len(),
                    q < n,
                    flags@.len() == n,
                    flag_set(flags@) == self.runnable(),
                    increasing(ds@),
                    forall|a: int| 0 <= a < ds@.len() ==> ds@[a] < i,
                    forall|a: int| 0 <= a < ds@.len() ==> #[trigger] self.edge(ds@[a] as int, q as int),
                    forall|x: int| 0 <= x < i && #[trigger] self.edge(x, q as int) ==> seq_set(ds@).contains(x),
            {
                if self.edge_exec(flags, i, q) {
                    let ghost before = ds@;
                    ds.push(i);
                    proof {
                        assert forall|x: int| 0 <= x < i + 1 && #[trigger] self.edge(x, q as int) implies seq_set(
                            ds@,
                        ).contains(x) by {
                            if x < i {
                                let a = choose|a: int| 0 <= a < before.len() && before[a] as int == x;
                                assert(ds@[a] as int == x);
                            } else {
                                assert(ds@[before.len() as int] as int == x);
                            }
                        }
                    }
                }
            }
            proof {
                assert(ds@.no_duplicates()) by {
                    assert forall|a: int, b: int| 0 <= a < ds@.len() && 0 <= b < ds@.len() && a != b implies ds@[a]
                        != ds@[b] by {
                        if a < b {
                        } else {
                        }
                    }
                }
                assert forall|x: int| self.waiting_on(q as int).contains(x) implies exists|a: int|
                    0 <= a < ds@.len() && #[trigger] ds@[a] as int == x by {
                    assert(self.edge(x, q as int));
                    self.lemma_runnable_bound(x);
                    assert(seq_set(ds@).contains(x));
                }
                assert forall|a: int| 0 <= a < ds@.len() implies self.waiting_on(q as int).contains(
                    #[trigger] ds@[a] as int,
                ) by {
                    assert(self.edge(ds@[a] as int, q as int));
                }
            }
            lists.push(ds);
        }
        lists
    }

    /// For each tagger, the number of its prerequisites.
    fn prerequisite_counts(&self, flags: &Vec<bool>) -> (counts: Vec<usize>)
        requires
            flags@.len() == self.taggers@.len(),
            flag_set(flags@) == self.runnable(),
        ensures
            counts@.len() == self.taggers@.len(),
            forall|d: int|
                0 <= d < self.len() ==> #[trigger] counts@[d] == self.undone(d, Set::empty(), self.len()),
    {
        let n = self.taggers.len();
        let mut counts: Vec<usize> = Vec::new();
        for i in 0..n
            invariant
                n == self.taggers@.len(),
                flags@.len() == n,
                flag_set(flags@) == self.runnable(),
                counts@.len() == i,
                forall|d: int| 0 <= d < i ==> #[trigger] counts@[d] == self.undone(d, Set::empty(), n as int),
        {
            let mut c: usize = 0;
            for p in 0..n
                invariant
                    n == self.taggers@.len(),
                    i < n,
                    flags@.len() == n,
                    flag_set(flags@) == self.runnable(),
                    c <= p,
                    c == self.undone(i as int, Set::empty(), p as int),
            {
                if self.edge_exec(flags, i, p) {
                    c += 1;
                }
            }
            counts.push(c);
        }
        counts
    }

    /// The first stage: runnable taggers with no prerequisites, in index order.
    fn first_stage(&self, flags: &Vec<bool>, counts: &Vec<usize>) -> (stage: Vec<usize>)
        requires
            flags@.len() == self.taggers@.len(),
            flag_set(flags@) == self.runnable(),
            counts@.len() == self.taggers@.len(),
            forall|d: int|
                0 <= d < self.len() ==> #[trigger] counts@[d] == self.undone(d, Set::empty(), self.len()),
        ensures
            lists_exactly(stage@, self.layer(0)),
            increasing(stage@),
    {
        let n = self.taggers.len();
        let mut stage: Vec<usize> = Vec::new();
        for i in 0..n
            invariant
                n == self.taggers@.len(),
                flags@.len() == n,
                flag_set(flags@) == self.runnable(),
                counts@.len() == n,
                forall|d: int| 0 <= d < n ==> #[trigger] counts@[d] == self.undone(d, Set::empty(), n as int),
                increasing(stage@),
                forall|a: int| 0 <= a < stage@.len() ==> stage@[a] < i,
                forall|a: int| 0 <= a < stage@.len() ==> self.layer(0).contains(#[trigger] stage@[a] as int),
                forall|x: int| 0 <= x < i && #[trigger] self.layer(0).contains(x) ==> seq_set(stage@).contains(x),
        {
            proof {
                self.lemma_undone_zero(i as int, Set::empty(), n as int);
                assert(flag_set(flags@).contains(i as int) == flags@[i as int]);
                assert(self.staged(0) =~= Set::<int>::empty());
                assert forall|p: int| #[trigger] self.edge(i as int, p) implies 0 <= p < n by {
                    self.lemma_runnable_bound(p);
                }
            }
            if flags[i] && counts[i] == 0 {
                let ghost before = stage@;
                stage.push(i);
                proof {
                    assert forall|x: int| 0 <= x < i + 1 && #[trigger] self.layer(0).contains(x) implies seq_set(
                        stage@,
                    ).contains(x) by {
                        if x < i {
                            let a = choose|a: int| 0 <= a < before.len() && before[a] as int == x;
                            assert(stage@[a] as int == x);
                        } else {
                            assert(stage@[before.len() as int] as int == x);
                        }
                    }
                }
            }
        }
        proof {
            assert(stage@.no_duplicates()) by {
                assert forall|a: int, b: int| 0 <= a < stage@.len() && 0 <= b < stage@.len() && a != b implies stage@[a]
                    != stage@[b] by {
                    if a < b {
                    } else {
                    }
                }
            }
            assert forall|x: int| self.layer(0).contains(x) implies exists|a: int|
                0 <= a < stage@.len() && #[trigger] stage@[a] as int == x by {
                self.lemma_runnable_bound(x);
                assert(seq_set(stage@).contains(x));
            }
        }
        stage
    }

    /// Emits stage `k` (`current`): lowers the count of every tagger waiting on
    /// one of its members and collects, in the order their counts reach zero,
    /// the taggers of stage `k + 1`.
    fn emit_stage(
        &self,
        flags: &Vec<bool>,
        waiting: &Vec<Vec<usize>>,
        counts: &mut Vec<usize>,
        current: &Vec<usize>,
        Ghost(k): Ghost<nat>,
    ) -> (next: Vec<usize>)
        requires
            flags@.len() == self.taggers@.len(),
            flag_set(flags@) == self.runnable(),
            waiting@.len() == self.taggers@.len(),
            forall|q: int|
                0 <= q < self.len() ==> lists_exactly(#[trigger] waiting@[q]@, self.waiting_on(q))
                    && increasing(waiting@[q]@),
            old(counts)@.len() == self.taggers@.len(),
            forall|d: int|
                0 <= d < self.len() ==> #[trigger] old(counts)@[d] == self.undone(
                    d,
                    self.staged(k),
                    self.len(),
                ),
            lists_exactly(current@, self.layer(k)),
        ensures
            final(counts)@.len() == self.taggers@.len(),
            forall|d: int|
                0 <= d < self.len() ==> #[trigger] final(counts)@[d] == self.undone(
                    d,
                    self.staged(k + 1),
                    self.len(),
                ),
            lists_exactly(next@, self.layer(k + 1)),
            self.stage_in_order(current@, next@),
    {
        let n = self.taggers.len();
        let ghost base = self.staged(k);
        let ghost cur = seq_set(current@);
        proof {
            assert(cur =~= self.layer(k)) by {
                assert forall|x: int| cur.contains(x) implies self.layer(k).contains(x) by {
                    let a = choose|a: int| 0 <= a < current@.len() && current@[a] as int == x;
                    assert(self.layer(k).contains(current@[a] as int));
                }
                assert forall|x: int| self.layer(k).contains(x) implies cur.contains(x) by {
                    let a = choose|a: int| 0 <= a < current@.len() && #[trigger] current@[a] as int == x;
                }
            }
            assert(current@.take(0) =~= Seq::<usize>::empty());
            assert(base.union(seq_set(current@.take(0))) =~= base);
            assert forall|d: int| #[trigger] seq_set(Seq::<usize>::empty()).contains(d) <==> (0 <= d < n
                && self.runnable().contains(d) && !base.contains(d) && !cur.contains(d) && counts@[d] == 0) by {
                if 0 <= d < n && self.runnable().contains(d) && !base.contains(d) && counts@[d] == 0 {
                    self.lemma_undone_zero(d, base, n as int);
                    assert forall|p: int| #[trigger] self.edge(d, p) implies base.contains(p) by {
                        self.lemma_runnable_bound(p);
                    }
                    assert(self.layer(k).contains(d));
                }
            }
        }
        let mut next: Vec<usize> = Vec::new();
        let mut j: usize = 0;
        while j < current.len()
            invariant
                n == self.taggers@.len(),
                flags@.len() == n,
                flag_set(flags@) == self.runnable(),
                waiting@.len() == n,
                forall|q: int|
                    0 <= q < n ==> lists_exactly(#[trigger] waiting@[q]@, self.waiting_on(q))
                        && increasing(waiting@[q]@),
                lists_exactly(current@, self.layer(k)),
                base == self.staged(k),
                cur == self.layer(k),
                cur == seq_set(current@),
                j <= current@.len(),
                counts@.len() == n,
                forall|d: int|
                    0 <= d < n ==> #[trigger] counts@[d] == self.undone(
                        d,
                        base.union(seq_set(current@.take(j as int))),
                        n as int,
                    ),
                next@.no_duplicates(),
                forall|d: int|
                    #[trigger] seq_set(next@).contains(d) <==> (0 <= d < n && self.runnable().contains(d)
                        && !base.contains(d) && !cur.contains(d) && counts@[d] == 0),
                forall|a: int| 0 <= a < next@.len() ==> self.last_prereq(current@, #[trigger] next@[a] as int) < j,
                self.stage_in_order(current@, next@),
            decreases current@.len() - j,
        {
            let i = current[j];
            let ghost done_j = base.union(seq_set(current@.take(j as int)));
            let ghost done_i = done_j.insert(i as int);
            proof {
                assert(self.layer(k).contains(i as int));
                self.lemma_runnable_bound(i as int);
                assert(!done_j.contains(i as int)) by {
                    if seq_set(current@.take(j as int)).contains(i as int) {
                        let a = choose|a: int| 0 <= a < j && current@.take(j as int)[a] as int == i;
                        assert(current@[a] == current@[j as int]);
                    }
                }
                assert forall|d: int| 0 <= d < n implies #[trigger] counts@[d] == self.undone(d, done_i, n as int)
                    + (if self.edge(d, i as int) && !seq_set(waiting@[i as int]@.take(0)).contains(d) {
                    1int
                } else {
                    0int
                }) by {
                    self.lemma_undone_insert(d, done_j, i as int, n as int);
                    assert(!seq_set(waiting@[i as int]@.take(0)).contains(d));
                }
            }
            let ds = &waiting[i];
            let mut t: usize = 0;
            while t < ds.len()
                invariant
                    n == self.taggers@.len(),
                    i < n,
                    ds@ == waiting@[i as int]@,
                    lists_exactly(ds@, self.waiting_on(i as int)),
                    increasing(ds@),
                    self.layer(k).contains(i as int),
                    !base.contains(i as int),
                    base == self.staged(k),
                    cur == self.layer(k),
                    t <= ds@.len(),
                    counts@.len() == n,
                    forall|d: int|
                        0 <= d < n ==> #[trigger] counts@[d] == self.undone(d, done_i, n as int) + (if self.edge(
                            d,
                            i as int,
                        ) && !seq_set(ds@.take(t as int)).contains(d) {
                            1int
                        } else {
                            0int
                        }),
                    next@.no_duplicates(),
                    forall|d: int|
                        #[trigger] seq_set(next@).contains(d) <==> (0 <= d < n && self.runnable().contains(
                            d,
                        ) && !base.contains(d) && !cur.contains(d) && counts@[d] == 0),
                    lists_exactly(current@, self.layer(k)),
                    j < current@.len(),
                    current@[j as int] == i,
                    done_i == base.union(seq_set(current@.take(j as int))).insert(i as int),
                    forall|a: int|
                        0 <= a < next@.len() ==> self.last_prereq(current@, #[trigger] next@[a] as int) < j || (
                        self.last_prereq(current@, next@[a] as int) == j && seq_set(ds@.take(t as int)).contains(
                            next@[a] as int,
                        )),
                    self.stage_in_order(current@, next@),
                decreases ds@.len() - t,
            {
                let d = ds[t];
                let ghost before_next = next@;
                let ghost before_counts = counts@;
                proof {
                    assert(self.waiting_on(i as int).contains(d as int));
                    assert(self.edge(d as int, i as int));
                    self.lemma_runnable_bound(d as int);
                    assert(!seq_set(ds@.take(t as int)).contains(d as int)) by {
                        if seq_set(ds@.take(t as int)).contains(d as int) {
                            let a = choose|a: int| 0 <= a < t && ds@.take(t as int)[a] as int == d;
                            assert(ds@[a] < ds@[t as int]);
                        }
                    }
                    assert(!base.contains(d as int)) by {
                        if base.contains(d as int) {
                            self.lemma_staged_edges(k, d as int, i as int);
                        }
                    }
                    assert(!cur.contains(d as int)) by {
                        if cur.contains(d as int) {
                            assert(self.layer(k).contains(d as int));
                            assert(self.edge(d as int, i as int));
                        }
                    }
                    assert(counts@[d as int] >= 1);
                    assert(!seq_set(next@).contains(d as int));
                }
                let c = counts[d] - 1;
                counts.set(d, c);
                if c == 0 {
                    next.push(d);
                }
                t += 1;
                proof {
                    let tp = t as int - 1;
                    assert(seq_set(ds@.take(t as int)) =~= seq_set(ds@.take(tp)).insert(d as int)) by {
                        assert forall|x: int| seq_set(ds@.take(t as int)).contains(x) implies seq_set(
                            ds@.take(tp),
                        ).insert(d as int).contains(x) by {
                            let a = choose|a: int| 0 <= a < t && ds@.take(t as int)[a] as int == x;
                            if a < tp {
                                assert(ds@.take(tp)[a] as int == x);
                            }
                        }
                        assert forall|x: int| seq_set(ds@.take(tp)).insert(d as int).contains(x) implies seq_set(
                            ds@.take(t as int),
                        ).contains(x) by {
                            if x == d {
                                assert(ds@.take(t as int)[tp] as int == x);
                            } else {
                                let a = choose|a: int| 0 <= a < tp && ds@.take(tp)[a] as int == x;
                                assert(ds@.take(t as int)[a] as int == x);
                            }
                        }
                    }
                    if c == 0 {
                        assert(self.undone(d as int, done_i, n as int) == 0);
                        self.lemma_undone_zero(d as int, done_i, n as int);
                        assert forall|a: int| j < a < current@.len() implies !self.edge(
                            d as int,
                            #[trigger] current@[a] as int,
                        ) by {
                            let p = current@[a] as int;
                            assert(self.layer(k).contains(p));
                            self.lemma_runnable_bound(p);
                            if self.edge(d as int, p) {
                                assert(done_i.contains(p));
                                assert(current@[a] != current@[j as int]);
                                if seq_set(current@.take(j as int)).contains(p) {
                                    let a2 = choose|a2: int| 0 <= a2 < j && current@.take(j as int)[a2] as int == p;
                                    assert(current@[a2] == current@[a]);
                                }
                            }
                        }
                        assert(current@[j as int] as int == i as int);
                        self.lemma_last_prereq_at(current@, d as int, j as int);
                        assert forall|a: int| 0 <= a < before_next.len() implies self.runs_before(
                            current@,
                            #[trigger] before_next[a] as int,
                            d as int,
                        ) by {
                            if self.last_prereq(current@, before_next[a] as int) == j {
                                let b = choose|b: int| 0 <= b < tp && ds@.take(tp)[b] as int == before_next[a] as int;
                                assert(ds@[b] < ds@[tp]);
                            }
                        }
                        assert(next@ == before_next.push(d));
                        assert(next@.no_duplicates()) by {
                            assert forall|a: int, b: int|
                                0 <= a < next@.len() && 0 <= b < next@.len() && a != b implies next@[a]
                                != next@[b] by {
                                if a < before_next.len() && b < before_next.len() {
                                } else if a < before_next.len() {
                                    assert(seq_set(before_next).contains(next@[a] as int));
                                } else if b < before_next.len() {
                                    assert(seq_set(before_next).contains(next@[b] as int));
                                }
                            }
                        }
                        assert forall|x: int| #[trigger] seq_set(next@).contains(x) <==> seq_set(
                            before_next,
                        ).contains(x) || x == d by {
                            if seq_set(next@).contains(x) {
                                let a = choose|a: int| 0 <= a < next@.len() && next@[a] as int == x;
                                if a < before_next.len() {
                                    assert(before_next[a] as int == x);
                                }
                            }
                            if seq_set(before_next).contains(x) {
                                let a = choose|a: int| 0 <= a < before_next.len() && before_next[a] as int == x;
                                assert(next@[a] as int == x);
                            }
                            if x == d {
                                assert(next@[before_next.len() as int] as int == x);
                            }
                        }
                    }
                }
            }
            proof {
                assert(seq_set(ds@.take(ds@.len() as int)) =~= self.waiting_on(i as int)) by {
                    assert(ds@.take(ds@.len() as int) =~= ds@);
                    assert forall|x: int| seq_set(ds@).contains(x) implies self.waiting_on(i as int).contains(
                        x,
                    ) by {
                        let a = choose|a: int| 0 <= a < ds@.len() && ds@[a] as int == x;
                        assert(self.waiting_on(i as int).contains(ds@[a] as int));
                    }
                    assert forall|x: int| self.waiting_on(i as int).contains(x) implies seq_set(ds@).contains(
                        x,
                    ) by {
                        let a = choose|a: int| 0 <= a < ds@.len() && #[trigger] ds@[a] as int == x;
                    }
                }
                let jn = j as int + 1;
                assert(base.union(seq_set(current@.take(jn))) =~= done_i) by {
                    assert forall|x: int| seq_set(current@.take(jn)).contains(x) <==> seq_set(
                        current@.take(j as int),
                    ).contains(x) || x == i by {
                        if seq_set(current@.take(jn)).contains(x) {
                            let a = choose|a: int| 0 <= a < jn && current@.take(jn)[a] as int == x;
                            if a < j {
                                assert(current@.take(j as int)[a] as int == x);
                            }
                        }
                        if seq_set(current@.take(j as int)).contains(x) {
                            let a = choose|a: int| 0 <= a < j && current@.take(j as int)[a] as int == x;
                            assert(current@.take(jn)[a] as int == x);
                        }
                        if x == i {
                            assert(current@.take(jn)[j as int] as int == x);
                        }
                    }
                }
            }
            j += 1;
        }
        proof {
            let k1: nat = k + 1;
            let done = base.union(seq_set(current@.take(j as int)));
            assert(current@.take(j as int) =~= current@);
            assert(done =~= self.staged(k1));
            assert forall|d: int| seq_set(next@).contains(d) <==> self.layer(k1).contains(d) by {
                if 0 <= d < n {
                    self.lemma_undone_zero(d, done, n as int);
                }
                if self.layer(k1).contains(d) {
                    self.lemma_runnable_bound(d);
                    assert forall|p: int| 0 <= p < n && #[trigger] self.edge(d, p) implies done.contains(p) by {}
                }
                if seq_set(next@).contains(d) {
                    assert forall|p: int| #[trigger] self.edge(d, p) implies done.contains(p) by {
                        self.lemma_runnable_bound(p);
                    }
                }
            }
            assert forall|a: int| 0 <= a < next@.len() implies self.layer(k1).contains(
                #[trigger] next@[a] as int,
            ) by {
                assert(seq_set(next@).contains(next@[a] as int));
            }
            assert forall|x: int| self.layer(k1).contains(x) implies exists|a: int|
                0 <= a < next@.len() && #[trigger] next@[a] as int == x by {
                assert(seq_set(next@).contains(x));
            }
        }
        next
    }

    /// Produces the taggers to run for a full retag, grouped into ordered
    /// stages, as indices into `taggers`. Every tagger within a stage is
    /// independent of the others; each stage depends only on keys produced by
    /// earlier stages, so the stages themselves must run in order.
    ///
    /// Ordering is a topological sort over tag-key dependencies: a tagger runs
    /// after every runnable tagger that provides one of its dependency keys. The
    /// value filter (glob) of a dependency does not affect ordering. Within a
    /// stage, taggers come in the order their last prerequisite releases them
    /// (`plan_in_order`), which decides whose value wins when two taggers of a
    /// stage provide the same key.
    ///
    /// Taggers with a dependency key that no runnable tagger provides are left
    /// out, and so is anything that transitively depends on them. A dependency
    /// cycle is an error naming the taggers that can never be staged.
    pub fn run_plan(&self) -> (r: Result<Vec<Vec<usize>>, PlanError>)
        ensures
            r matches Ok(stages) ==> self.is_plan(stages@) && self.plan_in_order(stages@),
            r matches Err(PlanError::Cycle(names)) ==> exists|idx: Seq<usize>|
                #![trigger idx.len()]
                lists_exactly(idx, self.unstageable()) && increasing(idx) && idx.len()
                    == names@.len() && forall|j: int|
                    0 <= j < idx.len() ==> #[trigger] names@[j]@ == self.taggers@[idx[j] as int].info.name@,
            r is Ok <==> !exists|s: Set<int>| self.cyclic(s),
    {
        let n = self.taggers.len();
        let flags = self.runnable_flags();
        let waiting = self.waiting_lists(&flags);
        let mut counts = self.prerequisite_counts(&flags);
        proof {
            assert(self.staged(0) =~= Set::<int>::empty());
        }
        let mut current = self.first_stage(&flags, &counts);
        proof {
            self.lemma_first_stage_order(current@);
        }
        let mut stages: Vec<Vec<usize>> = Vec::new();
        while current.len() > 0
            invariant
                n == self.taggers@.len(),
                flags@.len() == n,
                flag_set(flags@) == self.runnable(),
                waiting@.len() == n,
                forall|q: int|
                    0 <= q < n ==> lists_exactly(#[trigger] waiting@[q]@, self.waiting_on(q))
                        && increasing(waiting@[q]@),
                counts@.len() == n,
                forall|d: int|
                    0 <= d < n ==> #[trigger] counts@[d] == self.undone(
                        d,
                        self.staged(stages@.len()),
                        n as int,
                    ),
                lists_exactly(current@, self.layer(stages@.len())),
                forall|k: int|
                    0 <= k < stages@.len() ==> lists_exactly(#[trigger] stages@[k]@, self.layer(k as nat)),
                forall|k: int| 0 <= k < stages@.len() ==> #[trigger] stages@[k]@.len() > 0,
                self.plan_in_order(stages@),
                self.stage_in_order(Self::stage_before(stages@.push(current), stages@.len() as int), current@),
                self.staged(stages@.len()).finite(),
                stages@.len() <= self.staged(stages@.len()).len() <= n,
            decreases n - stages@.len(),
        {
            let ghost k = stages@.len();
            let next = self.emit_stage(&flags, &waiting, &mut counts, &current, Ghost(k));
            proof {
                let k1: nat = k + 1;
                let x = current@[0] as int;
                assert(self.layer(k).contains(x));
                assert(!self.staged(k).contains(x));
                assert(self.staged(k).insert(x).subset_of(self.staged(k1)));
                self.lemma_staged_runnable(k1);
                lemma_int_range(0, n as int);
                lemma_len_subset(self.staged(k1), set_int_range(0, n as int));
                lemma_len_subset(self.staged(k).insert(x), self.staged(k1));
            }
            let ghost old_stages = stages@;
            let ghost old_current = current;
            stages.push(current);
            proof {
                assert forall|k2: int| 0 <= k2 < stages@.len() implies self.stage_in_order(
                    Self::stage_before(stages@, k2),
                    #[trigger] stages@[k2]@,
                ) by {
                    if k2 < old_stages.len() {
                        assert(stages@[k2] == old_stages[k2]);
                        if k2 > 0 {
                            assert(stages@[k2 - 1] == old_stages[k2 - 1]);
                        }
                        assert(Self::stage_before(stages@, k2) == Self::stage_before(old_stages, k2));
                    } else {
                        assert(stages@ == old_stages.push(old_current));
                    }
                }
                assert(Self::stage_before(stages@.push(next), stages@.len() as int) == old_current@);
            }
            current = next;
        }
        let ghost k = stages@.len();
        proof {
            assert(self.layer(k).is_empty()) by {
                if !self.layer(k).is_empty() {
                    let x = choose|x: int| self.layer(k).contains(x);
                    let a = choose|a: int| 0 <= a < current@.len() && #[trigger] current@[a] as int == x;
                }
            }
            self.lemma_unstageable_at(k);
            self.lemma_staged_all_iff_acyclic(k);
            self.lemma_staged_runnable(k);
        }
        let mut stuck: Vec<usize> = Vec::new();
        let mut names: Vec<String> = Vec::new();
        for i in 0..n
            invariant
                n == self.taggers@.len(),
                flags@.len() == n,
                flag_set(flags@) == self.runnable(),
                counts@.len() == n,
                forall|d: int| 0 <= d < n ==> #[trigger] counts@[d] == self.undone(d, self.staged(k), n as int),
                self.layer(k).is_empty(),
                self.unstageable() == self.runnable().difference(self.staged(k)),
                increasing(stuck@),
                stuck@.len() == names@.len(),
                forall|a: int| 0 <= a < stuck@.len() ==> stuck@[a] < i,
                forall|a: int| 0 <= a < stuck@.len() ==> self.unstageable().contains(#[trigger] stuck@[a] as int),
                forall|x: int| 0 <= x < i && #[trigger] self.unstageable().contains(x) ==> seq_set(stuck@).contains(x),
                forall|j: int| 0 <= j < stuck@.len() ==> #[trigger] names@[j]@ == self.taggers@[stuck@[j] as int].info.name@,
        {
            proof {
                assert(flag_set(flags@).contains(i as int) == flags@[i as int]);
                self.lemma_undone_zero(i as int, self.staged(k), n as int);
                if self.runnable().contains(i as int) {
                    if self.staged(k).contains(i as int) {
                        assert forall|p: int| 0 <= p < n && #[trigger] self.edge(i as int, p) implies self.staged(k).contains(p) by {
                            self.lemma_staged_edges(k, i as int, p);
                        }
                    } else {
                        assert(!self.layer(k).contains(i as int));
                        let p = choose|p: int| #[trigger] self.edge(i as int, p) && !self.staged(k).contains(p);
                        self.lemma_runnable_bound(p);
                    }
                }
            }
            if flags[i] && counts[i] > 0 {
                let ghost before = stuck@;
                stuck.push(i);
                names.push(self.taggers[i].info.name.clone());
                proof {
                    assert forall|x: int| 0 <= x < i + 1 && #[trigger] self.unstageable().contains(x) implies seq_set(
                        stuck@,
                    ).contains(x) by {
                        if x < i {
                            let a = choose|a: int| 0 <= a < before.len() && before[a] as int == x;
                            assert(stuck@[a] as int == x);
                        } else {
                            assert(stuck@[before.len() as int] as int == x);
                        }
                    }
                }
            }
        }
        proof {
            assert(stuck@.no_duplicates()) by {
                assert forall|a: int, b: int| 0 <= a < stuck@.len() && 0 <= b < stuck@.len() && a != b implies stuck@[a]
                    != stuck@[b] by {
                    if a < b {
                    } else {
                    }
                }
            }
            assert forall|x: int| self.unstageable().contains(x) implies exists|a: int|
                0 <= a < stuck@.len() && #[trigger] stuck@[a] as int == x by {
                self.lemma_runnable_bound(x);
                assert(seq_set(stuck@).contains(x));
            }
            assert(lists_exactly(stuck@, self.unstageable()));
        }
        if stuck.len() == 0 {
            proof {
                assert(self.staged(k) =~= self.runnable()) by {
                    assert forall|x: int| self.runnable().contains(x) implies self.staged(k).contains(x) by {
                        if !self.staged(k).contains(x) {
                            assert(self.unstageable().contains(x));
                            let a = choose|a: int| 0 <= a < stuck@.len() && #[trigger] stuck@[a] as int == x;
                        }
                    }
                }
            }
            Ok(stages)
        } else {
            proof {
                assert(self.unstageable().contains(stuck@[0] as int));
            }
            Err(PlanError::Cycle(names))
        }
    }

    /// Every runnable tagger has each of its dependency keys provided by
    /// another runnable tagger; and any set of taggers with that property is
    /// runnable.
    pub proof fn lemma_runnable_is_largest_closed(&self, s: Set<int>)
        ensures
            self.closed(self.runnable()),
            self.closed(s) ==> s.subset_of(self.runnable()),
    {
        assert forall|i: int| #[trigger] self.runnable().contains(i) implies 0 <= i < self.len()
            && self.supported_in(self.runnable(), i) by {
            self.lemma_runnable_bound(i);
            let s2 = choose|s2: Set<int>| #[trigger] self.closed(s2) && s2.contains(i);
            assert forall|t: int| 0 <= t < self.num_deps(i) implies #[trigger] self.dep_met(
                self.runnable(),
                i,
                t,
            ) by {
                assert(self.dep_met(s2, i, t));
                let p = choose|p: int|
                    s2.contains(p) && p != i && self.provides(p, self.dep_key(i, t));
                assert(self.runnable().contains(p));
            }
        }
    }

    /// In a plan, a tagger's prerequisites all run in strictly earlier stages,
    /// and no tagger appears in two stages.
    pub proof fn lemma_plan_orders_prerequisites(
        &self,
        stages: Seq<Vec<usize>>,
        a: int,
        b: int,
        x: int,
        y: int,
    )
        requires
            self.is_plan(stages),
            0 <= a < stages.len(),
            0 <= b < stages.len(),
            seq_set(stages[a]@).contains(x),
            seq_set(stages[b]@).contains(y),
        ensures
            self.edge(x, y) ==> b < a,
            x == y ==> a == b,
    {
        let ka = a as nat;
        let kb = b as nat;
        assert(lists_exactly(stages[a]@, self.layer(ka)));
        assert(lists_exactly(stages[b]@, self.layer(kb)));
        let ia = choose|ia: int| 0 <= ia < stages[a]@.len() && stages[a]@[ia] as int == x;
        let ib = choose|ib: int| 0 <= ib < stages[b]@.len() && stages[b]@[ib] as int == y;
        assert(self.layer(ka).contains(stages[a]@[ia] as int));
        assert(self.layer(kb).contains(stages[b]@[ib] as int));
        if self.edge(x, y) && b >= a {
            assert(self.staged(ka).contains(y));
            self.lemma_staged_mono(ka, kb);
        }
        if x == y && a != b {
            if a < b {
                self.lemma_staged_mono((ka + 1) as nat, kb);
            } else {
                self.lemma_staged_mono((kb + 1) as nat, ka);
            }
        }
    }

    /// A plan lists only runnable, registered taggers.
    pub proof fn lemma_plan_members_registered(&self, stages: Seq<Vec<usize>>, k: int, a: int)
        requires
            self.is_plan(stages),
            0 <= k < stages.len(),
            0 <= a < stages[k]@.len(),
        ensures
            self.runnable().contains(stages[k]@[a] as int),
            stages[k]@[a] < self.len(),
    {
        assert(lists_exactly(stages[k]@, self.layer(k as nat)));
        assert(self.layer(k as nat).contains(stages[k]@[a] as int));
        self.lemma_runnable_bound(stages[k]@[a] as int);
    }

    /// In a plan, every runnable tagger appears in some stage.
    pub proof fn lemma_plan_covers_runnable(&self, stages: Seq<Vec<usize>>, x: int)
        requires
            self.is_plan(stages),
            self.runnable().contains(x),
        ensures
            exists|a: int| 0 <= a < stages.len() && #[trigger] seq_set(stages[a]@).contains(x),
    {
        let m = stages.len();
        assert(self.staged(m).contains(x));
        let a = self.lemma_first_stage_of(m, x);
        assert(lists_exactly(stages[a as int]@, self.layer(a)));
        let i = choose|i: int| 0 <= i < stages[a as int]@.len() && #[trigger] stages[a as int]@[i] as int == x;
        assert(seq_set(stages[a as int]@).contains(x));
    }

    /// A plan in run order is unique: two plans whose stages both keep the
    /// order in which prerequisites release their taggers are the same list
    /// of stages, tagger for tagger.
    pub proof fn lemma_ordered_plan_unique(&self, s1: Seq<Vec<usize>>, s2: Seq<Vec<usize>>)
        requires
            self.is_plan(s1),
            self.plan_in_order(s1),
            self.is_plan(s2),
            self.plan_in_order(s2),
        ensures
            s1.len() == s2.len(),
            forall|k: int| 0 <= k < s1.len() ==> #[trigger] s1[k]@ == s2[k]@,
    {
        if s1.len() < s2.len() {
            let m = s1.len() as int;
            assert(lists_exactly(s2[m]@, self.layer(m as nat)));
            assert(s2[m]@.len() > 0);
            assert(self.layer(m as nat).contains(s2[m]@[0] as int));
        }
        if s2.len() < s1.len() {
            let m = s2.len() as int;
            assert(lists_exactly(s1[m]@, self.layer(m as nat)));
            assert(s1[m]@.len() > 0);
            assert(self.layer(m as nat).contains(s1[m]@[0] as int));
        }
        assert forall|k: int| 0 <= k < s1.len() implies #[trigger] s1[k]@ == s2[k]@ by {
            self.lemma_ordered_stages_agree(s1, s2, k);
        }
    }

    proof fn lemma_ordered_stages_agree(&self, s1: Seq<Vec<usize>>, s2: Seq<Vec<usize>>, k: int)
        requires
            self.is_plan(s1),
            self.plan_in_order(s1),
            self.is_plan(s2),
            self.plan_in_order(s2),
            s1.len() == s2.len(),
            0 <= k < s1.len(),
        ensures
            s1[k]@ == s2[k]@,
        decreases k,
    {
        if k > 0 {
            self.lemma_ordered_stages_agree(s1, s2, k - 1);
        }
        assert(Self::stage_before(s1, k) == Self::stage_before(s2, k));
        let kn = k as nat;
        assert(lists_exactly(s1[k]@, self.layer(kn)));
        assert(lists_exactly(s2[k]@, self.layer(kn)));
        assert forall|x: int| seq_set(s1[k]@).contains(x) <==> seq_set(s2[k]@).contains(x) by {
            if seq_set(s1[k]@).contains(x) {
                let a = choose|a: int| 0 <= a < s1[k]@.len() && s1[k]@[a] as int == x;
                assert(self.layer(kn).contains(s1[k]@[a] as int));
                let b = choose|b: int| 0 <= b < s2[k]@.len() && #[trigger] s2[k]@[b] as int == x;
            }
            if seq_set(s2[k]@).contains(x) {
                let a = choose|a: int| 0 <= a < s2[k]@.len() && s2[k]@[a] as int == x;
                assert(self.layer(kn).contains(s2[k]@[a] as int));
                let b = choose|b: int| 0 <= b < s1[k]@.len() && #[trigger] s1[k]@[b] as int == x;
            }
        }
        self.lemma_ordered_unique(Self::stage_before(s1, k), s1[k]@, s2[k]@);
    }

    proof fn lemma_first_stage_of(&self, m: nat, x: int) -> (a: nat)
        requires
            self.staged(m).contains(x),
        ensures
            a < m,
            self.layer(a).contains(x),
        decreases m,
    {
        let prev = self.staged((m - 1) as nat);
        if prev.contains(x) {
            self.lemma_first_stage_of((m - 1) as nat, x)
        } else {
            (m - 1) as nat
        }
    }
}

/// Two registries list the same taggers with the same provided keys and the
/// same dependency keys, whatever their names, paths, versions and value filters.
pub open spec fn same_key_graph(r1: &TaggerRegistry, r2: &TaggerRegistry) -> bool {
    &&& r1.len() == r2.len()
    &&& forall|i: int| 0 <= i < r1.len() ==> #[trigger] r1.num_deps(i) == r2.num_deps(i)
    &&& forall|i: int, t: int|
        0 <= i < r1.len() && 0 <= t < r1.num_deps(i) ==> #[trigger] r1.dep_key(i, t) == r2.dep_key(i, t)
    &&& forall|i: int|
        0 <= i < r1.len() ==> #[trigger] r1.key_views(i) == r2.key_views(i)
}

proof fn lemma_same_provides(r1: &TaggerRegistry, r2: &TaggerRegistry, p: int, key: Seq<char>)
    requires
        same_key_graph(r1, r2),
        0 <= p < r1.len(),
    ensures
        r1.provides(p, key) == r2.provides(p, key),
{
    let k1 = r1.taggers@[p].info.keys@;
    let k2 = r2.taggers@[p].info.keys@;
    assert(r1.key_views(p) == r2.key_views(p));
    assert(k1.len() == r1.key_views(p).len());
    if r1.provides(p, key) {
        let j = choose|j: int| 0 <= j < k1.len() && #[trigger] k1[j]@ == key;
        assert(r1.key_views(p)[j] == r2.key_views(p)[j]);
        assert(k2[j]@ == key);
    }
    if r2.provides(p, key) {
        let j = choose|j: int| 0 <= j < k2.len() && #[trigger] k2[j]@ == key;
        assert(r1.key_views(p)[j] == r2.key_views(p)[j]);
        assert(k1[j]@ == key);
    }
}

proof fn lemma_same_closed(r1: &TaggerRegistry, r2: &TaggerRegistry, s: Set<int>)
    requires
        same_key_graph(r1, r2),
        r1.closed(s),
    ensures
        r2.closed(s),
{
    assert forall|i: int| #[trigger] s.contains(i) implies r2.supported_in(s, i) by {
        assert(r1.supported_in(s, i));
        assert forall|t: int| 0 <= t < r2.num_deps(i) implies #[trigger] r2.dep_met(s, i, t) by {
            assert(r1.dep_met(s, i, t));
            let p = choose|p: int| s.contains(p) && p != i && r1.provides(p, r1.dep_key(i, t));
            lemma_same_provides(r1, r2, p, r1.dep_key(i, t));
        }
    }
}

proof fn lemma_same_staged(r1: &TaggerRegistry, r2: &TaggerRegistry, k: nat)
    requires
        same_key_graph(r1, r2),
        same_key_graph(r2, r1),
        r1.runnable() == r2.runnable(),
        forall|i: int, p: int| r1.edge(i, p) == r2.edge(i, p),
    ensures
        r1.staged(k) == r2.staged(k),
    decreases k,
{
    if k > 0 {
        lemma_same_staged(r1, r2, (k - 1) as nat);
        let prev = r1.staged((k - 1) as nat);
        assert(r1.ready(prev) =~= r2.ready(prev));
        assert(r1.staged(k) =~= r2.staged(k));
    }
}

proof fn lemma_same_last_prereq(r1: &TaggerRegistry, r2: &TaggerRegistry, prev: Seq<usize>, d: int)
    requires
        forall|i: int, p: int| r1.edge(i, p) == r2.edge(i, p),
    ensures
        r1.last_prereq(prev, d) == r2.last_prereq(prev, d),
    decreases prev.len(),
{
    if prev.len() > 0 {
        lemma_same_last_prereq(r1, r2, prev.drop_last(), d);
    }
}

/// Registries with the same key graph have the same runnable taggers and the
/// same edges between them.
proof fn lemma_same_runnable_edges(r1: &TaggerRegistry, r2: &TaggerRegistry)
    requires
        same_key_graph(r1, r2),
    ensures
        same_key_graph(r2, r1),
        r1.runnable() == r2.runnable(),
        forall|i: int, p: int| r1.edge(i, p) == r2.edge(i, p),
{
    assert(same_key_graph(r2, r1)) by {
        assert forall|i: int| 0 <= i < r2.len() implies #[trigger] r2.key_views(i) == r1.key_views(i) by {
            assert(r1.key_views(i) == r2.key_views(i));
        }
    }
    assert forall|i: int| r1.runnable().contains(i) <==> r2.runnable().contains(i) by {
        if r1.runnable().contains(i) {
            let s = choose|s: Set<int>| #[trigger] r1.closed(s) && s.contains(i);
            lemma_same_closed(r1, r2, s);
        }
        if r2.runnable().contains(i) {
            let s = choose|s: Set<int>| #[trigger] r2.closed(s) && s.contains(i);
            lemma_same_closed(r2, r1, s);
        }
    }
    assert(r1.runnable() =~= r2.runnable());
    assert forall|i: int, p: int| r1.edge(i, p) == r2.edge(i, p) by {
        if r1.runnable().contains(i) && r1.runnable().contains(p) {
            r1.lemma_runnable_bound(i);
            r1.lemma_runnable_bound(p);
            if r1.edge(i, p) {
                let t = choose|t: int| 0 <= t < r1.num_deps(i) && #[trigger] r1.provides(p, r1.dep_key(i, t));
                lemma_same_provides(r1, r2, p, r1.dep_key(i, t));
            }
            if r2.edge(i, p) {
                let t = choose|t: int| 0 <= t < r2.num_deps(i) && #[trigger] r2.provides(p, r2.dep_key(i, t));
                lemma_same_provides(r1, r2, p, r1.dep_key(i, t));
            }
        }
    }
}

/// A set is a cycle in one registry exactly when it is one in another with
/// the same runnable taggers and edges.
proof fn lemma_same_cyclic_set(r1: &TaggerRegistry, r2: &TaggerRegistry, s: Set<int>)
    requires
        r1.runnable() == r2.runnable(),
        forall|i: int, p: int| r1.edge(i, p) == r2.edge(i, p),
    ensures
        r1.cyclic(s) == r2.cyclic(s),
{
    if r1.cyclic(s) {
        assert forall|i: int| s.contains(i) implies #[trigger] r2.waits_in(s, i) by {
            assert(r1.waits_in(s, i));
            let p = choose|p: int| s.contains(p) && r1.edge(i, p);
            assert(r2.edge(i, p));
        }
        assert(s.subset_of(r2.runnable()));
    }
    if r2.cyclic(s) {
        assert forall|i: int| s.contains(i) implies #[trigger] r1.waits_in(s, i) by {
            assert(r2.waits_in(s, i));
            let p = choose|p: int| s.contains(p) && r2.edge(i, p);
            assert(r1.edge(i, p));
        }
        assert(s.subset_of(r1.runnable()));
    }
}

/// Registries with the same runnable taggers and edges have the same cycles.
proof fn lemma_same_cycles(r1: &TaggerRegistry, r2: &TaggerRegistry)
    requires
        r1.runnable() == r2.runnable(),
        forall|i: int, p: int| r1.edge(i, p) == r2.edge(i, p),
    ensures
        forall|s: Set<int>| #[trigger] r1.cyclic(s) == r2.cyclic(s),
        (exists|s: Set<int>| r1.cyclic(s)) == (exists|s: Set<int>| r2.cyclic(s)),
{
    assert forall|s: Set<int>| #[trigger] r1.cyclic(s) == r2.cyclic(s) by {
        lemma_same_cyclic_set(r1, r2, s);
    }
    if exists|s: Set<int>| r1.cyclic(s) {
        let s = choose|s: Set<int>| r1.cyclic(s);
        lemma_same_cyclic_set(r1, r2, s);
    }
    if exists|s: Set<int>| r2.cyclic(s) {
        let s = choose|s: Set<int>| r2.cyclic(s);
        lemma_same_cyclic_set(r1, r2, s);
    }
}

/// Registries with the same edges order every stage alike.
proof fn lemma_same_stage_order(r1: &TaggerRegistry, r2: &TaggerRegistry)
    requires
        forall|i: int, p: int| r1.edge(i, p) == r2.edge(i, p),
    ensures
        forall|prev: Seq<usize>, st: Seq<usize>| #[trigger] r1.stage_in_order(prev, st) == r2.stage_in_order(prev, st),
{
    assert forall|prev: Seq<usize>, st: Seq<usize>| #[trigger] r1.stage_in_order(prev, st) == r2.stage_in_order(prev, st) by {
        assert forall|a: int, b: int| 0 <= a < b < st.len() implies r1.runs_before(
            prev,
            st[a] as int,
            st[b] as int,
        ) == r2.runs_before(prev, st[a] as int, st[b] as int) by {
            lemma_same_last_prereq(r1, r2, prev, st[a] as int);
            lemma_same_last_prereq(r1, r2, prev, st[b] as int);
        }
    }
}

/// The value filters of dependencies play no part in the plan: two registries
/// with the same provided keys and dependency keys have the same runnable
/// taggers, the same dependency cycles (so planning both fails or neither
/// does), and accept exactly the same plans in the same order; their plans in
/// run order are equal, stage for stage and tagger for tagger.
pub proof fn lemma_plan_ignores_filters(
    r1: &TaggerRegistry,
    r2: &TaggerRegistry,
    s1: Seq<Vec<usize>>,
    s2: Seq<Vec<usize>>,
)
    requires
        same_key_graph(r1, r2),
    ensures
        r1.runnable() == r2.runnable(),
        forall|s: Set<int>| #[trigger] r1.cyclic(s) == r2.cyclic(s),
        (exists|s: Set<int>| r1.cyclic(s)) == (exists|s: Set<int>| r2.cyclic(s)),
        r1.is_plan(s2) == r2.is_plan(s2),
        r1.plan_in_order(s2) == r2.plan_in_order(s2),
        r1.is_plan(s1) && r1.plan_in_order(s1) && r2.is_plan(s2) && r2.plan_in_order(s2) ==> s1.len()
            == s2.len() && forall|k: int| 0 <= k < s1.len() ==> #[trigger] s1[k]@ == s2[k]@,
{
    lemma_same_runnable_edges(r1, r2);
    lemma_same_cycles(r1, r2);
    assert forall|k: nat| #[trigger] r1.layer(k) == r2.layer(k) by {
        lemma_same_staged(r1, r2, k);
        assert(r1.layer(k) =~= r2.layer(k));
    }
    lemma_same_staged(r1, r2, s2.len());
    lemma_same_stage_order(r1, r2);
    assert(r1.plan_in_order(s2) == r2.plan_in_order(s2));
    if r1.is_plan(s1) && r1.plan_in_order(s1) && r2.is_plan(s2) && r2.plan_in_order(s2) {
        r1.lemma_ordered_plan_unique(s1, s2);
    }
}

} // verus!