//! Install planning: the transitive dependency set, dependencies first.
use vstd::prelude::*;
use crate::index::{Dep, Index, MAX_DEPTH, lemma_find_last};
use crate::text::{lemma_push_contains, views, lex_lt, lex_less, chars_of, lemma_lex_total, lemma_lex_transitive, lemma_lex_irreflexive};

verus! {

/// The state of a planning walk.
pub struct Plan {
    /// Mods queued so far, in install order.
    pub order: Seq<usize>,
    /// Dependency strings met that no published mod answers, in the order met.
    pub missing: Seq<String>,
    /// `on_path[i]` while mod `i` is being expanded: the current chain.
    pub on_path: Seq<bool>,
}

pub open spec fn plan_of(order: Seq<usize>, missing: Seq<String>, on_path: Seq<bool>) -> Plan {
    Plan { order, missing, on_path }
}

/// Budget left for descending from `depth`; it shrinks with every level.
pub open spec fn depth_budget(depth: nat) -> nat {
    if depth <= MAX_DEPTH + 1 {
        (MAX_DEPTH + 1 - depth) as nat
    } else {
        0
    }
}

/// Strictly increasing in text order: sorted, and no entry twice.
pub open spec fn strictly_sorted(ss: Seq<Seq<char>>) -> bool {
    forall|i: int, j: int| 0 <= i < j < ss.len() ==> lex_lt(#[trigger] ss[i], #[trigger] ss[j])
}

impl Index {
    /// Visiting `idx` at `depth`: skipped when already queued, on the current
    /// chain (a cycle), or past the depth guard; otherwise its dependencies are
    /// visited one level deeper and then `idx` itself is queued.
    pub open spec fn plan_visit(&self, idx: usize, st: Plan, depth: nat) -> Plan
        decreases depth_budget(depth), 0nat, 0nat,
    {
        if st.order.contains(idx) || depth > MAX_DEPTH || st.on_path[idx as int] {
            st
        } else {
            let entered = Plan { on_path: st.on_path.update(idx as int, true), ..st };
            let after = self.plan_deps(self.spec_deps(idx as int), 0, entered, depth + 1);
            let left = Plan { on_path: after.on_path.update(idx as int, false), ..after };
            if left.order.contains(idx) {
                left
            } else {
                Plan { order: left.order.push(idx), ..left }
            }
        }
    }

    /// Visiting the dependencies `ds[k..]` in order.
    pub open spec fn plan_deps(&self, ds: Seq<Dep>, k: int, st: Plan, depth: nat) -> Plan
        decreases depth_budget(depth), 1nat, ds.len() - k,
    {
        if k < 0 || k >= ds.len() {
            st
        } else {
            let next = match ds[k] {
                Dep::Known(i) => self.plan_visit(i, st, depth),
                Dep::Missing(d) => Plan { missing: st.missing.push(d), ..st },
            };
            self.plan_deps(ds, k + 1, next, depth)
        }
    }

    /// Visiting the chosen roots `chosen[k..]` in order, each at depth 0.
    pub open spec fn plan_roots(&self, chosen: Seq<usize>, k: int, st: Plan) -> Plan
        decreases chosen.len() - k,
    {
        if k < 0 || k >= chosen.len() {
            st
        } else {
            self.plan_roots(chosen, k + 1, self.plan_visit(chosen[k], st, 0))
        }
    }

    pub open spec fn plan_start(&self) -> Plan {
        Plan {
            order: Seq::empty(),
            missing: Seq::empty(),
            on_path: Seq::new(self.mods@.len(), |_i: int| false),
        }
    }

    /// The walk over all chosen roots.
    pub open spec fn spec_plan(&self, chosen: Seq<usize>) -> Plan {
        self.plan_roots(chosen, 0, self.plan_start())
    }

    pub proof fn lemma_deps_known_valid(&self, idx: int)
        requires
            0 <= idx < self.mods@.len(),
        ensures
            forall|k: int|
                0 <= k < self.spec_deps(idx).len() ==> (#[trigger] self.spec_deps(idx)[k] matches Dep::Known(i)
                    ==> i < self.mods@.len()),
    {
        assert forall|k: int| 0 <= k < self.spec_deps(idx).len() implies (
        #[trigger] self.spec_deps(idx)[k] matches Dep::Known(i) ==> i < self.mods@.len()) by {
            let d = self.mods@[idx].dependencies@[k];
            lemma_find_last(
                self.mods@,
                crate::index::spec_dep_key(d@),
                self.mods@.len() as int,
            );
        }
    }

    /// A walk leaves the chain marks as it found them.
    pub proof fn lemma_visit_keeps_path(&self, idx: usize, st: Plan, depth: nat)
        requires
            idx < self.mods@.len(),
            st.on_path.len() == self.mods@.len(),
        ensures
            self.plan_visit(idx, st, depth).on_path == st.on_path,
        decreases depth_budget(depth), 0nat, 0nat,
    {
        if st.order.contains(idx) || depth > MAX_DEPTH || st.on_path[idx as int] {
        } else {
            let entered = Plan { on_path: st.on_path.update(idx as int, true), ..st };
            self.lemma_deps_known_valid(idx as int);
            self.lemma_deps_keep_path(self.spec_deps(idx as int), 0, entered, depth + 1);
            assert(st.on_path.update(idx as int, true).update(idx as int, false) =~= st.on_path);
        }
    }

    pub proof fn lemma_deps_keep_path(&self, ds: Seq<Dep>, k: int, st: Plan, depth: nat)
        requires
            st.on_path.len() == self.mods@.len(),
            forall|j: int| 0 <= j < ds.len() ==> (#[trigger] ds[j] matches Dep::Known(i) ==> i < self.mods@.len()),
        ensures
            self.plan_deps(ds, k, st, depth).on_path == st.on_path,
        decreases depth_budget(depth), 1nat, ds.len() - k,
    {
        if k < 0 || k >= ds.len() {
        } else {
            let next = match ds[k] {
                Dep::Known(i) => self.plan_visit(i, st, depth),
                Dep::Missing(d) => Plan { missing: st.missing.push(d), ..st },
            };
            match ds[k] {
                Dep::Known(i) => {
                    self.lemma_visit_keeps_path(i, st, depth);
                },
                Dep::Missing(d) => {},
            }
            self.lemma_deps_keep_path(ds, k + 1, next, depth);
        }
    }

    /// Every published dependency of each queued mod is queued before it.
    pub open spec fn deps_before(&self, order: Seq<usize>) -> bool {
        forall|p: int, k: int|
            #![trigger order[p], self.spec_deps(order[p] as int)[k]]
            0 <= p < order.len() && 0 <= k < self.spec_deps(order[p] as int).len()
                ==> (self.spec_deps(order[p] as int)[k] matches Dep::Known(j) ==> order.take(p).contains(j))
    }

    /// A rank over the mods the choice needs that drops along each of their
    /// published dependencies and stays within the depth guard: the part of
    /// the graph reachable from the choice has no cycle and no chain the guard
    /// would cut.
    pub open spec fn ranked_for(&self, chosen: Seq<usize>, rank: spec_fn(usize) -> nat) -> bool {
        &&& forall|i: usize| #[trigger] self.needed_by(chosen, i) ==> rank(i) <= MAX_DEPTH
        &&& forall|i: usize, k: int|
            #![trigger self.needed_by(chosen, i), self.spec_deps(i as int)[k]]
            self.needed_by(chosen, i) && 0 <= k < self.spec_deps(i as int).len()
                ==> (self.spec_deps(i as int)[k] matches Dep::Known(j) ==> rank(j) < rank(i))
    }

    /// What any walk keeps: earlier queue entries stay, entries stay valid and
    /// distinct, and the chain marks come back as they were.
    pub proof fn lemma_visit_basic(&self, idx: usize, st: Plan, depth: nat)
        requires
            idx < self.mods@.len(),
            st.on_path.len() == self.mods@.len(),
            valid_queue(st.order, self.mods@.len()),
        ensures
            is_prefix(st.order, self.plan_visit(idx, st, depth).order),
            valid_queue(self.plan_visit(idx, st, depth).order, self.mods@.len()),
            self.plan_visit(idx, st, depth).on_path == st.on_path,
            self.plan_visit(idx, st, depth).order.contains(idx) || st.on_path[idx as int] || depth > MAX_DEPTH,
        decreases depth_budget(depth), 0nat, 0nat,
    {
        assert(st.order.take(st.order.len() as int) =~= st.order);
        self.lemma_visit_keeps_path(idx, st, depth);
        if st.order.contains(idx) || depth > MAX_DEPTH || st.on_path[idx as int] {
        } else {
            let entered = Plan { on_path: st.on_path.update(idx as int, true), ..st };
            self.lemma_deps_known_valid(idx as int);
            self.lemma_deps_basic(self.spec_deps(idx as int), 0, entered, depth + 1);
            let after = self.plan_deps(self.spec_deps(idx as int), 0, entered, depth + 1);
            if !after.order.contains(idx) {
                lemma_push_contains(after.order, idx);
                assert(after.order.push(idx).take(st.order.len() as int) =~= after.order.take(st.order.len() as int));
                assert forall|i: int, j: int| 0 <= i < j < after.order.push(idx).len() implies
                    #[trigger] after.order.push(idx)[i] != #[trigger] after.order.push(idx)[j] by {
                    if j == after.order.len() {
                        assert(after.order.contains(after.order[i]));
                    }
                }
            }
        }
    }

    pub proof fn lemma_deps_basic(&self, ds: Seq<Dep>, k: int, st: Plan, depth: nat)
        requires
            st.on_path.len() == self.mods@.len(),
            valid_queue(st.order, self.mods@.len()),
            forall|j: int| 0 <= j < ds.len() ==> (#[trigger] ds[j] matches Dep::Known(i) ==> i < self.mods@.len()),
        ensures
            is_prefix(st.order, self.plan_deps(ds, k, st, depth).order),
            valid_queue(self.plan_deps(ds, k, st, depth).order, self.mods@.len()),
            self.plan_deps(ds, k, st, depth).on_path == st.on_path,
        decreases depth_budget(depth), 1nat, ds.len() - k,
    {
        assert(st.order.take(st.order.len() as int) =~= st.order);
        if k < 0 || k >= ds.len() {
        } else {
            let next = match ds[k] {
                Dep::Known(i) => self.plan_visit(i, st, depth),
                Dep::Missing(d) => Plan { missing: st.missing.push(d), ..st },
            };
            match ds[k] {
                Dep::Known(i) => {
                    self.lemma_visit_basic(i, st, depth);
                },
                Dep::Missing(d) => {},
            }
            self.lemma_deps_basic(ds, k + 1, next, depth);
            lemma_prefix_trans(st.order, next.order, self.plan_deps(ds, k + 1, next, depth).order);
        }
    }

    /// Under a rank, a walk queues the mod it visits and keeps dependencies
    /// ahead of their dependents.
    pub proof fn lemma_visit_ranked(&self, chosen: Seq<usize>, idx: usize, st: Plan, depth: nat, rank: spec_fn(usize) -> nat)
        requires
            self.ranked_for(chosen, rank),
            self.needed_by(chosen, idx),
            idx < self.mods@.len(),
            st.on_path.len() == self.mods@.len(),
            valid_queue(st.order, self.mods@.len()),
            self.deps_before(st.order),
            forall|q: usize| q < self.mods@.len() && st.on_path[q as int] ==> rank(q) > rank(idx),
            depth + rank(idx) <= MAX_DEPTH,
        ensures
            self.deps_before(self.plan_visit(idx, st, depth).order),
            self.plan_visit(idx, st, depth).order.contains(idx),
        decreases depth_budget(depth), 0nat, 0nat,
    {
        self.lemma_visit_basic(idx, st, depth);
        if st.order.contains(idx) || depth > MAX_DEPTH || st.on_path[idx as int] {
        } else {
            let ds = self.spec_deps(idx as int);
            let entered = Plan { on_path: st.on_path.update(idx as int, true), ..st };
            self.lemma_deps_known_valid(idx as int);
            assert forall|q: usize, m: int|
                #![trigger entered.on_path[q as int], ds[m]]
                q < self.mods@.len() && entered.on_path[q as int] && 0 <= m < ds.len()
                    implies (ds[m] matches Dep::Known(j) ==> rank(q) > rank(j)) by {
                assert(ds[m] matches Dep::Known(jj) ==> rank(jj) < rank(idx));
            }
            self.lemma_deps_ranked(chosen, ds, 0, entered, depth + 1, rank, idx);
            let after = self.plan_deps(ds, 0, entered, depth + 1);
            if !after.order.contains(idx) {
                let fin = after.order.push(idx);
                assert(fin.take(after.order.len() as int) =~= after.order);
                assert forall|p: int, k: int|
                    0 <= p < fin.len() && 0 <= k < self.spec_deps(fin[p] as int).len()
                        implies (#[trigger] self.spec_deps(fin[p] as int)[k] matches Dep::Known(j) ==> fin.take(p).contains(j)) by {
                    if p < after.order.len() {
                        assert(fin[p] == after.order[p]);
                        assert(fin.take(p) =~= after.order.take(p));
                        assert(self.spec_deps(after.order[p] as int)[k] matches Dep::Known(j) ==> after.order.take(p).contains(j));
                    } else {
                        assert(fin[p] == idx);
                        assert(fin.take(p) =~= after.order);
                    }
                }
                lemma_push_contains(after.order, idx);
            }
        }
    }

    pub proof fn lemma_deps_ranked(
        &self,
        chosen: Seq<usize>,
        ds: Seq<Dep>,
        k: int,
        st: Plan,
        depth: nat,
        rank: spec_fn(usize) -> nat,
        parent: usize,
    )
        requires
            self.ranked_for(chosen, rank),
            self.needed_by(chosen, parent),
            parent < self.mods@.len(),
            ds == self.spec_deps(parent as int),
            0 <= k,
            st.on_path.len() == self.mods@.len(),
            valid_queue(st.order, self.mods@.len()),
            self.deps_before(st.order),
            forall|j: int| 0 <= j < ds.len() ==> (#[trigger] ds[j] matches Dep::Known(i) ==> i < self.mods@.len()),
            forall|q: usize, m: int|
                #![trigger st.on_path[q as int], ds[m]]
                q < self.mods@.len() && st.on_path[q as int] && 0 <= m < ds.len()
                    ==> (ds[m] matches Dep::Known(j) ==> rank(q) > rank(j)),
            depth + rank(parent) <= MAX_DEPTH + 1,
            forall|m: int| 0 <= m < k && m < ds.len() ==> (#[trigger] ds[m] matches Dep::Known(j) ==> st.order.contains(j)),
        ensures
            self.deps_before(self.plan_deps(ds, k, st, depth).order),
            forall|m: int| 0 <= m < ds.len() ==> (#[trigger] ds[m] matches Dep::Known(j)
                ==> self.plan_deps(ds, k, st, depth).order.contains(j)),
        decreases depth_budget(depth), 1nat, ds.len() - k,
    {
        if k >= ds.len() {
        } else {
            let next = match ds[k] {
                Dep::Known(i) => self.plan_visit(i, st, depth),
                Dep::Missing(d) => Plan { missing: st.missing.push(d), ..st },
            };
            match ds[k] {
                Dep::Known(i) => {
                    assert(rank(i) < rank(parent));
                    assert(self.depends_on(parent, i));
                    self.lemma_needed_below(chosen, parent, i);
                    self.lemma_visit_ranked(chosen, i, st, depth, rank);
                    self.lemma_visit_basic(i, st, depth);
                    assert forall|m: int| 0 <= m < k + 1 && m < ds.len() implies (#[trigger] ds[m] matches Dep::Known(j) ==> next.order.contains(j)) by {
                        if m < k {
                            if let Dep::Known(j) = ds[m] {
                                lemma_prefix_contains(st.order, next.order, j);
                            }
                        }
                    }
                },
                Dep::Missing(d) => {},
            }
            self.lemma_deps_ranked(chosen, ds, k + 1, next, depth, rank, parent);
        }
    }

    /// Visiting the roots `chosen[k..]` keeps the basic properties.
    pub proof fn lemma_roots_basic(&self, chosen: Seq<usize>, k: int, st: Plan)
        requires
            forall|i: int| 0 <= i < chosen.len() ==> chosen[i] < self.mods@.len(),
            st.on_path.len() == self.mods@.len(),
            forall|q: int| 0 <= q < st.on_path.len() ==> !st.on_path[q],
            valid_queue(st.order, self.mods@.len()),
            0 <= k,
            forall|m: int| 0 <= m < k && m < chosen.len() ==> st.order.contains(#[trigger] chosen[m]),
        ensures
            valid_queue(self.plan_roots(chosen, k, st).order, self.mods@.len()),
            forall|m: int| 0 <= m < chosen.len() ==> self.plan_roots(chosen, k, st).order.contains(#[trigger] chosen[m]),
            is_prefix(st.order, self.plan_roots(chosen, k, st).order),
        decreases chosen.len() - k,
    {
        assert(st.order.take(st.order.len() as int) =~= st.order);
        if k < chosen.len() {
            let next = self.plan_visit(chosen[k], st, 0);
            self.lemma_visit_basic(chosen[k], st, 0);
            assert forall|m: int| 0 <= m < k + 1 && m < chosen.len() implies next.order.contains(#[trigger] chosen[m]) by {
                if m < k {
                    lemma_prefix_contains(st.order, next.order, chosen[m]);
                }
            }
            self.lemma_roots_basic(chosen, k + 1, next);
            lemma_prefix_trans(st.order, next.order, self.plan_roots(chosen, k + 1, next).order);
        }
    }

    pub proof fn lemma_roots_ranked(&self, chosen: Seq<usize>, k: int, st: Plan, rank: spec_fn(usize) -> nat)
        requires
            self.ranked_for(chosen, rank),
            forall|i: int| 0 <= i < chosen.len() ==> chosen[i] < self.mods@.len(),
            st.on_path.len() == self.mods@.len(),
            forall|q: int| 0 <= q < st.on_path.len() ==> !st.on_path[q],
            valid_queue(st.order, self.mods@.len()),
            self.deps_before(st.order),
            0 <= k,
        ensures
            self.deps_before(self.plan_roots(chosen, k, st).order),
        decreases chosen.len() - k,
    {
        if k < chosen.len() {
            let next = self.plan_visit(chosen[k], st, 0);
            self.lemma_visit_basic(chosen[k], st, 0);
            let p = seq![chosen[k]];
            assert(chosen.contains(chosen[k]));
            assert(self.dep_chain(p) && chosen.contains(p[0]) && p.last() == chosen[k]);
            assert(self.needed_by(chosen, chosen[k]));
            assert(rank(chosen[k]) <= MAX_DEPTH);
            self.lemma_visit_ranked(chosen, chosen[k], st, 0, rank);
            self.lemma_roots_ranked(chosen, k + 1, next, rank);
        }
    }

    /// Every planned entry names a mod of the index, no mod is planned twice,
    /// and every chosen mod is planned.
    pub proof fn lemma_plan_covers_choice(&self, chosen: Seq<usize>)
        requires
            forall|i: int| 0 <= i < chosen.len() ==> chosen[i] < self.mods@.len(),
        ensures
            valid_queue(self.spec_plan(chosen).order, self.mods@.len()),
            forall|m: int| 0 <= m < chosen.len() ==> self.spec_plan(chosen).order.contains(#[trigger] chosen[m]),
    {
        self.lemma_roots_basic(chosen, 0, self.plan_start());
    }

    /// Dependencies install before the mods that need them: when the part of
    /// the dependency graph the choice reaches has no cycle and no chain the
    /// depth guard would cut (witnessed by a rank over the needed mods that
    /// drops along each of their dependencies and stays within the guard),
    /// every published dependency of a planned mod is planned, and planned
    /// ahead of it. Cycles elsewhere in the catalogue do not matter.
    pub proof fn lemma_plan_dependencies_first(&self, chosen: Seq<usize>, rank: spec_fn(usize) -> nat)
        requires
            forall|i: int| 0 <= i < chosen.len() ==> chosen[i] < self.mods@.len(),
            self.ranked_for(chosen, rank),
        ensures
            self.deps_before(self.spec_plan(chosen).order),
    {
        self.lemma_roots_ranked(chosen, 0, self.plan_start(), rank);
    }

    /// Mod `j` is a published dependency of mod `i`.
    pub open spec fn depends_on(&self, i: usize, j: usize) -> bool {
        exists|k: int| 0 <= k < self.spec_deps(i as int).len() && #[trigger] self.spec_deps(i as int)[k] == Dep::Known(j)
    }

    /// `d` is a dependency of mod `i` that no published mod answers.
    pub open spec fn misses(&self, i: usize, d: String) -> bool {
        exists|k: int| 0 <= k < self.spec_deps(i as int).len() && #[trigger] self.spec_deps(i as int)[k] == Dep::Missing(d)
    }

    /// `p` is a chain of published dependencies: each mod in it depends on
    /// the next.
    pub open spec fn dep_chain(&self, p: Seq<usize>) -> bool {
        &&& p.len() > 0
        &&& forall|i: int| 0 <= i < p.len() - 1 ==> #[trigger] self.depends_on(p[i], p[i + 1])
    }

    /// Mod `x` is a chosen mod or lies below one: a chain of published
    /// dependencies leads from a chosen mod to it.
    pub open spec fn needed_by(&self, chosen: Seq<usize>, x: usize) -> bool {
        exists|p: Seq<usize>| #[trigger] self.dep_chain(p) && chosen.contains(p[0]) && p.last() == x
    }

    /// What the walk keeps true: whatever is queued is needed; every
    /// unpublished dependency listed belongs to a needed mod; and every
    /// unpublished dependency of a queued mod is listed.
    pub open spec fn walk_sound(&self, chosen: Seq<usize>, st: Plan) -> bool {
        &&& forall|x: usize| #[trigger] st.order.contains(x) ==> self.needed_by(chosen, x)
        &&& forall|d: String| #[trigger] st.missing.contains(d) ==> exists|y: usize| self.needed_by(chosen, y) && #[trigger] self.misses(y, d)
        &&& forall|x: usize, d: String| st.order.contains(x) && #[trigger] self.misses(x, d) ==> st.missing.contains(d)
    }

    proof fn lemma_needed_below(&self, chosen: Seq<usize>, y: usize, j: usize)
        requires
            self.needed_by(chosen, y),
            self.depends_on(y, j),
        ensures
            self.needed_by(chosen, j),
    {
        let p = choose|p: Seq<usize>| #[trigger] self.dep_chain(p) && chosen.contains(p[0]) && p.last() == y;
        let q = p.push(j);
        assert forall|i: int| 0 <= i < q.len() - 1 implies #[trigger] self.depends_on(q[i], q[i + 1]) by {
            if i < p.len() - 1 {
                assert(q[i] == p[i] && q[i + 1] == p[i + 1]);
            } else {
                assert(q[i] == y && q[i + 1] == j);
            }
        }
        assert(self.dep_chain(q) && chosen.contains(q[0]) && q.last() == j);
    }

    proof fn lemma_visit_sound(&self, chosen: Seq<usize>, idx: usize, st: Plan, depth: nat)
        requires
            self.needed_by(chosen, idx),
            self.walk_sound(chosen, st),
        ensures
            self.walk_sound(chosen, self.plan_visit(idx, st, depth)),
            is_prefix(st.missing, self.plan_visit(idx, st, depth).missing),
        decreases depth_budget(depth), 0nat, 0nat,
    {
        assert(st.missing.take(st.missing.len() as int) =~= st.missing);
        if st.order.contains(idx) || depth > MAX_DEPTH || st.on_path[idx as int] {
        } else {
            let entered = Plan { on_path: st.on_path.update(idx as int, true), ..st };
            let ds = self.spec_deps(idx as int);
            self.lemma_deps_sound(chosen, idx, 0, entered, depth + 1);
            let after = self.plan_deps(ds, 0, entered, depth + 1);
            let left = Plan { on_path: after.on_path.update(idx as int, false), ..after };
            if !left.order.contains(idx) {
                let out = Plan { order: left.order.push(idx), ..left };
                assert forall|x: usize| #[trigger] out.order.contains(x) implies self.needed_by(chosen, x) by {
                    if x != idx {
                        assert(left.order.contains(x)) by {
                            let q = choose|q: int| 0 <= q < out.order.len() && out.order[q] == x;
                            assert(left.order[q] == x);
                        }
                    }
                }
                assert forall|x: usize, d: String| out.order.contains(x) && #[trigger] self.misses(x, d) implies out.missing.contains(d) by {
                    if x == idx {
                        let k = choose|k: int| 0 <= k < ds.len() && #[trigger] ds[k] == Dep::Missing(d);
                        assert(ds[k] matches Dep::Missing(e) && e == d);
                    } else {
                        let q = choose|q: int| 0 <= q < out.order.len() && out.order[q] == x;
                        assert(left.order[q] == x);
                        assert(left.order.contains(x));
                    }
                }
            }
        }
    }

    proof fn lemma_deps_sound(&self, chosen: Seq<usize>, y: usize, k: int, st: Plan, depth: nat)
        requires
            self.needed_by(chosen, y),
            self.walk_sound(chosen, st),
            0 <= k,
        ensures
            self.walk_sound(chosen, self.plan_deps(self.spec_deps(y as int), k, st, depth)),
            is_prefix(st.missing, self.plan_deps(self.spec_deps(y as int), k, st, depth).missing),
            forall|j: int|
                k <= j < self.spec_deps(y as int).len() ==> (#[trigger] self.spec_deps(y as int)[j] matches Dep::Missing(d)
                    ==> self.plan_deps(self.spec_deps(y as int), k, st, depth).missing.contains(d)),
        decreases depth_budget(depth), 1nat, self.spec_deps(y as int).len() - k,
    {
        let ds = self.spec_deps(y as int);
        assert(st.missing.take(st.missing.len() as int) =~= st.missing);
        if k < ds.len() {
            let next = match ds[k] {
                Dep::Known(i) => self.plan_visit(i, st, depth),
                Dep::Missing(d) => Plan { missing: st.missing.push(d), ..st },
            };
            match ds[k] {
                Dep::Known(i) => {
                    assert(self.depends_on(y, i));
                    self.lemma_needed_below(chosen, y, i);
                    self.lemma_visit_sound(chosen, i, st, depth);
                },
                Dep::Missing(d) => {
                    assert(self.misses(y, d));
                    assert(next.missing.take(st.missing.len() as int) =~= st.missing);
                    assert forall|e: String| #[trigger] next.missing.contains(e) implies exists|z: usize| self.needed_by(chosen, z) && #[trigger] self.misses(z, e) by {
                        if e != d {
                            let q = choose|q: int| 0 <= q < next.missing.len() && next.missing[q] == e;
                            assert(st.missing[q] == e);
                            assert(st.missing.contains(e));
                        }
                    }
                    assert forall|x: usize, e: String| next.order.contains(x) && #[trigger] self.misses(x, e) implies next.missing.contains(e) by {
                        assert(st.missing.contains(e));
                        let q = choose|q: int| 0 <= q < st.missing.len() && st.missing[q] == e;
                        assert(next.missing[q] == e);
                    }
                },
            }
            self.lemma_deps_sound(chosen, y, k + 1, next, depth);
            let out = self.plan_deps(ds, k + 1, next, depth);
            lemma_prefix_trans(st.missing, next.missing, out.missing);
            match ds[k] {
                Dep::Missing(d) => {
                    assert(next.missing[st.missing.len() as int] == d);
                    assert(next.missing.contains(d));
                    lemma_prefix_contains(next.missing, out.missing, d);
                },
                Dep::Known(i) => {},
            }
        }
    }

    proof fn lemma_roots_sound(&self, chosen: Seq<usize>, k: int, st: Plan)
        requires
            self.walk_sound(chosen, st),
            0 <= k,
        ensures
            self.walk_sound(chosen, self.plan_roots(chosen, k, st)),
        decreases chosen.len() - k,
    {
        if k < chosen.len() {
            let p = seq![chosen[k]];
            assert(chosen.contains(chosen[k]));
            assert(self.dep_chain(p) && chosen.contains(p[0]) && p.last() == chosen[k]);
            self.lemma_visit_sound(chosen, chosen[k], st, 0);
            self.lemma_roots_sound(chosen, k + 1, self.plan_visit(chosen[k], st, 0));
        }
    }

    /// The plan holds only what the choice needs, and all the unpublished
    /// dependencies of what it holds: every planned mod is a chosen mod or lies
    /// below one through published dependencies; every unpublished dependency
    /// listed belongs to such a mod; and every unpublished dependency of a
    /// planned mod is listed.
    pub proof fn lemma_plan_only_what_is_needed(&self, chosen: Seq<usize>)
        ensures
            forall|x: usize| #[trigger] self.spec_plan(chosen).order.contains(x) ==> self.needed_by(chosen, x),
            forall|d: String| #[trigger] self.spec_plan(chosen).missing.contains(d) ==> exists|y: usize|
                self.needed_by(chosen, y) && #[trigger] self.misses(y, d),
            forall|x: usize, d: String|
                self.spec_plan(chosen).order.contains(x) && #[trigger] self.misses(x, d)
                    ==> self.spec_plan(chosen).missing.contains(d),
    {
        self.lemma_roots_sound(chosen, 0, self.plan_start());
    }

    /// When the part of the dependency graph the choice reaches has no cycle
    /// and no chain the depth guard would cut (a rank as for
    /// `lemma_plan_dependencies_first`), the plan holds every mod the choice
    /// needs.
    pub proof fn lemma_plan_holds_all_that_is_needed(&self, chosen: Seq<usize>, rank: spec_fn(usize) -> nat, x: usize)
        requires
            forall|i: int| 0 <= i < chosen.len() ==> chosen[i] < self.mods@.len(),
            self.ranked_for(chosen, rank),
            self.needed_by(chosen, x),
        ensures
            self.spec_plan(chosen).order.contains(x),
    {
        let p = choose|p: Seq<usize>| #[trigger] self.dep_chain(p) && chosen.contains(p[0]) && p.last() == x;
        self.lemma_plan_covers_choice(chosen);
        self.lemma_plan_dependencies_first(chosen, rank);
        self.lemma_chain_planned(chosen, p);
    }

    proof fn lemma_chain_planned(&self, chosen: Seq<usize>, p: Seq<usize>)
        requires
            self.dep_chain(p),
            chosen.contains(p[0]),
            forall|m: int| 0 <= m < chosen.len() ==> self.spec_plan(chosen).order.contains(#[trigger] chosen[m]),
            self.deps_before(self.spec_plan(chosen).order),
        ensures
            self.spec_plan(chosen).order.contains(p.last()),
        decreases p.len(),
    {
        let order = self.spec_plan(chosen).order;
        if p.len() == 1 {
            let m = choose|m: int| 0 <= m < chosen.len() && chosen[m] == p[0];
            assert(order.contains(chosen[m]));
        } else {
            let q = p.drop_last();
            assert forall|i: int| 0 <= i < q.len() - 1 implies #[trigger] self.depends_on(q[i], q[i + 1]) by {
                assert(q[i] == p[i] && q[i + 1] == p[i + 1]);
            }
            self.lemma_chain_planned(chosen, q);
            let mid = q.last();
            let x = p.last();
            assert(self.depends_on(p[p.len() - 2], p[(p.len() - 2) + 1]));
            assert(self.depends_on(mid, x));
            let pi = choose|pi: int| 0 <= pi < order.len() && order[pi] == mid;
            let k = choose|k: int| 0 <= k < self.spec_deps(mid as int).len() && #[trigger] self.spec_deps(mid as int)[k] == Dep::Known(x);
            assert(self.spec_deps(order[pi] as int)[k] matches Dep::Known(j) ==> order.take(pi).contains(j));
            let qq = choose|qq: int| 0 <= qq < order.take(pi).len() && order.take(pi)[qq] == x;
            assert(order[qq] == x);
        }
    }

    /// Transitive install set for the chosen mods, dependencies first.
    ///
    /// Returns the install order plus any dependency that is not published on
    /// Thunderstore and therefore cannot be fetched automatically, sorted and
    /// without repeats.
    pub fn install_plan(&self, chosen: &[usize]) -> (r: (Vec<usize>, Vec<String>))
        requires
            forall|i: int| 0 <= i < chosen@.len() ==> chosen@[i] < self.mods@.len(),
        ensures
            r.0@ == self.spec_plan(chosen@).order,
            strictly_sorted(views(r.1@)),
            forall|s: Seq<char>| views(r.1@).contains(s) <==> views(self.spec_plan(chosen@).missing).contains(s),
    {
        let n = self.mods.len();
        let mut order: Vec<usize> = Vec::new();
        let mut done: Vec<bool> = Vec::new();
        let mut on_path: Vec<bool> = Vec::new();
        let mut missing: Vec<String> = Vec::new();
        let mut i: usize = 0;
        while i < n
            invariant
                i <= n,
                n == self.mods@.len(),
                done@.len() == i,
                on_path@.len() == i,
                forall|j: int| 0 <= j < i ==> !done@[j] && !on_path@[j],
            decreases n - i,
        {
            done.push(false);
            on_path.push(false);
            i += 1;
        }
        assert(on_path@ =~= self.plan_start().on_path);
        let mut k: usize = 0;
        while k < chosen.len()
            invariant
                n == self.mods@.len(),
                k <= chosen@.len(),
                forall|i: int| 0 <= i < chosen@.len() ==> chosen@[i] < self.mods@.len(),
                done@.len() == n,
                on_path@.len() == n,
                forall|j: int| 0 <= j < n ==> !on_path@[j],
                forall|j: usize| j < n ==> (done@[j as int] <==> order@.contains(j)),
                forall|j: int| 0 <= j < order@.len() ==> order@[j] < n,
                self.spec_plan(chosen@) == self.plan_roots(
                    chosen@,
                    k as int,
                    plan_of(order@, missing@, on_path@),
                ),
            decreases chosen.len() - k,
        {
            let ghost before = plan_of(order@, missing@, on_path@);
            self.visit_plan(chosen[k], &mut order, &mut done, &mut missing, &mut on_path, 0);
            proof {
                self.lemma_visit_keeps_path(chosen@[k as int], before, 0);
            }
            k += 1;
        }
        let sorted = sort_dedup(&missing);
        (order, sorted)
    }

    /// The walk below `idx`, mirroring `plan_visit`.
    fn visit_plan(
        &self,
        idx: usize,
        order: &mut Vec<usize>,
        done: &mut Vec<bool>,
        missing: &mut Vec<String>,
        on_path: &mut Vec<bool>,
        depth: usize,
    )
        requires
            idx < self.mods@.len(),
            old(done)@.len() == self.mods@.len(),
            old(on_path)@.len() == self.mods@.len(),
            forall|j: usize| j < self.mods@.len() ==> (old(done)@[j as int] <==> old(order)@.contains(j)),
            forall|j: int| 0 <= j < old(order)@.len() ==> old(order)@[j] < self.mods@.len(),
            depth <= MAX_DEPTH + 1,
        ensures
            plan_of(final(order)@, final(missing)@, final(on_path)@)
                == self.plan_visit(
                idx,
                plan_of(old(order)@, old(missing)@, old(on_path)@),
                depth as nat,
            ),
            final(done)@.len() == self.mods@.len(),
            final(on_path)@.len() == self.mods@.len(),
            forall|j: usize| j < self.mods@.len() ==> (final(done)@[j as int] <==> final(order)@.contains(j)),
            forall|j: int| 0 <= j < final(order)@.len() ==> final(order)@[j] < self.mods@.len(),
        decreases depth_budget(depth as nat),
    {
        if done[idx] || depth > MAX_DEPTH {
            return;
        }
        // A cycle would otherwise recurse forever; the node still gets emitted
        // once the outer call for it unwinds.
        if on_path[idx] {
            return;
        }
        on_path.set(idx, true);
        let ghost entered = plan_of(order@, missing@, on_path@);
        let ds = self.deps(idx);
        proof {
            self.lemma_deps_known_valid(idx as int);
        }
        let mut k: usize = 0;
        while k < ds.len()
            invariant
                k <= ds@.len(),
                ds@ == self.spec_deps(idx as int),
                idx < self.mods@.len(),
                depth < MAX_DEPTH + 1,
                done@.len() == self.mods@.len(),
                on_path@.len() == self.mods@.len(),
                forall|j: usize| j < self.mods@.len() ==> (done@[j as int] <==> order@.contains(j)),
                forall|j: int| 0 <= j < order@.len() ==> order@[j] < self.mods@.len(),
                forall|k: int|
                    0 <= k < ds@.len() ==> (#[trigger] ds@[k] matches Dep::Known(i) ==> i
                        < self.mods@.len()),
                self.plan_deps(ds@, 0, entered, (depth + 1) as nat) == self.plan_deps(
                    ds@,
                    k as int,
                    plan_of(order@, missing@, on_path@),
                    (depth + 1) as nat,
                ),
            decreases ds.len() - k,
        {
            match &ds[k] {
                Dep::Known(i) => {
                    self.visit_plan(*i, order, done, missing, on_path, depth + 1);
                },
                Dep::Missing(d) => {
                    missing.push(d.clone());
                },
            }
            k += 1;
        }
        on_path.set(idx, false);
        if !done[idx] {
            let ghost prev = order@;
            done.set(idx, true);
            order.push(idx);
            proof {
                lemma_push_contains(prev, idx);
                assert forall|j: usize| j < self.mods@.len() implies (done@[j as int]
                    <==> order@.contains(j)) by {
                    if j != idx {
                    } else {
                        assert(order@[order@.len() - 1] == idx);
                    }
                }
            }
        }
    }
}

/// Entries name mods of an index of `n` mods, each at most once.
pub open spec fn valid_queue(order: Seq<usize>, n: nat) -> bool {
    &&& forall|i: int| 0 <= i < order.len() ==> order[i] < n
    &&& forall|i: int, j: int| 0 <= i < j < order.len() ==> #[trigger] order[i] != #[trigger] order[j]
}

pub open spec fn is_prefix<A>(a: Seq<A>, b: Seq<A>) -> bool {
    a.len() <= b.len() && b.take(a.len() as int) == a
}

proof fn lemma_prefix_trans<A>(a: Seq<A>, b: Seq<A>, c: Seq<A>)
    requires
        is_prefix(a, b),
        is_prefix(b, c),
    ensures
        is_prefix(a, c),
{
    assert(c.take(a.len() as int) =~= c.take(b.len() as int).take(a.len() as int));
}

proof fn lemma_prefix_contains<A>(a: Seq<A>, b: Seq<A>, x: A)
    requires
        is_prefix(a, b),
        a.contains(x),
    ensures
        b.contains(x),
{
    let q = choose|q: int| 0 <= q < a.len() && a[q] == x;
    assert(b.take(a.len() as int)[q] == x);
}

proof fn lemma_insert_contains<A>(s: Seq<A>, p: int, x: A)
    requires
        0 <= p <= s.len(),
    ensures
        forall|y: A| s.insert(p, x).contains(y) <==> (s.contains(y) || y == x),
{
    assert forall|y: A| s.insert(p, x).contains(y) <==> (s.contains(y) || y == x) by {
        let t = s.insert(p, x);
        if t.contains(y) {
            let q = choose|q: int| 0 <= q < t.len() && t[q] == y;
            if q < p {
                assert(s[q] == y);
            } else if q > p {
                assert(s[q - 1] == y);
            }
        }
        if s.contains(y) {
            let q = choose|q: int| 0 <= q < s.len() && s[q] == y;
            if q < p {
                assert(t[q] == y);
            } else {
                assert(t[q + 1] == y);
            }
        }
        if y == x {
            assert(t[p] == y);
        }
    }
}

/// The given strings sorted in text order with repeats removed.
fn sort_dedup(ms: &Vec<String>) -> (r: Vec<String>)
    ensures
        strictly_sorted(views(r@)),
        forall|s: Seq<char>| views(r@).contains(s) <==> views(ms@).contains(s),
{
    let mut out: Vec<String> = Vec::new();
    let mut k: usize = 0;
    while k < ms.len()
        invariant
            k <= ms@.len(),
            strictly_sorted(views(out@)),
            forall|s: Seq<char>| views(out@).contains(s) <==> views(ms@.take(k as int)).contains(s),
        decreases ms.len() - k,
    {
        let cur = chars_of(ms[k].as_str());
        // Find the first entry not below `cur`.
        let mut p: usize = 0;
        while p < out.len() && lex_less(&chars_of(out[p].as_str()), &cur)
            invariant
                p <= out@.len(),
                k < ms@.len(),
                cur@ == ms@[k as int]@,
                forall|q: int| 0 <= q < p ==> lex_lt(#[trigger] out@[q]@, cur@),
            decreases out.len() - p,
        {
            p += 1;
        }
        let ghost old_out = views(out@);
        assert(ms@.take(k + 1) =~= ms@.take(k as int).push(ms@[k as int]));
        assert(views(ms@.take(k + 1)) =~= views(ms@.take(k as int)).push(cur@));
        proof {
            if p < out@.len() {
                lemma_lex_total(out@[p as int]@, cur@);
            }
            assert forall|q: int| p <= q < out@.len() implies !lex_lt(#[trigger] old_out[q], cur@) by {
                if q > p {
                    lemma_lex_total(old_out[p as int], cur@);
                    if lex_lt(old_out[q], cur@) {
                        lemma_lex_transitive(old_out[p as int], old_out[q], cur@);
                    }
                }
                lemma_lex_total(old_out[p as int], cur@);
            }
        }
        let present = p < out.len() && out[p] == ms[k];
        proof {
            lemma_push_contains(views(ms@.take(k as int)), cur@);
            lemma_push_contains(old_out, cur@);
        }
        if !present {
            out.insert(p, ms[k].clone());
            proof {
                let nv = views(out@);
                assert(nv =~= old_out.insert(p as int, cur@));
                lemma_insert_contains(old_out, p as int, cur@);
                assert forall|i: int, j: int| 0 <= i < j < nv.len() implies lex_lt(#[trigger] nv[i], #[trigger] nv[j]) by {
                    if j == p {
                        assert(nv[i] == old_out[i]);
                    } else if i == p {
                        assert(nv[j] == old_out[j - 1]);
                        lemma_lex_total(old_out[j - 1], cur@);
                        if old_out[j - 1] == cur@ {
                            if j - 1 == p {
                            } else {
                                lemma_lex_irreflexive(cur@);
                                lemma_lex_transitive(old_out[p as int], old_out[j - 1], cur@);
                            }
                        }
                    } else if i < p && j < p {
                        assert(nv[i] == old_out[i] && nv[j] == old_out[j]);
                    } else if i < p && j > p {
                        assert(nv[i] == old_out[i] && nv[j] == old_out[j - 1]);
                    } else {
                        assert(nv[i] == old_out[i - 1] && nv[j] == old_out[j - 1]);
                    }
                }
            }
        } else {
            proof {
                assert(old_out[p as int] == cur@);
                assert forall|s: Seq<char>| views(out@).contains(s) <==> old_out.push(cur@).contains(s) by {
                    if s == cur@ {
                        assert(views(out@)[p as int] == s);
                    }
                }
            }
        }
        proof {
            assert forall|s: Seq<char>| views(out@).contains(s) <==> views(ms@.take(k + 1)).contains(s) by {
                assert(views(ms@.take(k + 1)) == views(ms@.take(k as int)).push(cur@));
                assert(views(ms@.take(k as int)).push(cur@).contains(s) <==> (views(ms@.take(k as int)).contains(s) || s == cur@));
                assert(views(ms@.take(k + 1)).contains(s) <==> (views(ms@.take(k as int)).contains(s) || s == cur@));
                assert(views(ms@.take(k as int)).contains(s) <==> old_out.contains(s));
                if present {
                    assert(views(out@) == old_out);
                    assert(old_out.push(cur@).contains(s) <==> (old_out.contains(s) || s == cur@));
                } else {
                    assert(views(out@) =~= old_out.insert(p as int, cur@));
                }
            }
        }
        k += 1;
    }
    assert(ms@.take(k as int) =~= ms@);
    out
}

} // verus!
