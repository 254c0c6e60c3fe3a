//! Flattening the root list and its expanded dependency subtrees into rows.
use vstd::prelude::*;
use crate::index::{Dep, Index, MAX_DEPTH};
use crate::keyset::KeySet;
use crate::text::push_str;

verus! {

/// One rendered line of the mod list: a root mod or a nested dependency.
pub struct Row {
    /// Stable identity of this node within the tree, used for expand state.
    pub key: String,
    pub mod_idx: Option<usize>,
    /// Set when the dependency is not published on Thunderstore.
    pub missing: Option<String>,
    pub depth: usize,
    /// Pre-rendered box-drawing prefix.
    pub prefix: String,
    pub has_children: bool,
    pub expanded: bool,
    /// The dependency chain loops back on itself here.
    pub cycle: bool,
}

/// What a row says, with its text as character sequences.
pub struct RowView {
    pub key: Seq<char>,
    pub mod_idx: Option<usize>,
    pub missing: Option<Seq<char>>,
    pub depth: nat,
    pub prefix: Seq<char>,
    pub has_children: bool,
    pub expanded: bool,
    pub cycle: bool,
}

impl View for Row {
    type V = RowView;

    open spec fn view(&self) -> RowView {
        RowView {
            key: self.key@,
            mod_idx: self.mod_idx,
            missing: match self.missing {
                Some(d) => Some(d@),
                None => None,
            },
            depth: self.depth as nat,
            prefix: self.prefix@,
            has_children: self.has_children,
            expanded: self.expanded,
            cycle: self.cycle,
        }
    }
}

pub open spec fn row_views(rows: Seq<Row>) -> Seq<RowView> {
    rows.map_values(|r: Row| r@)
}

/// Levels left below `depth` before the depth guard.
pub open spec fn levels_left(depth: nat) -> nat {
    if depth <= MAX_DEPTH {
        (MAX_DEPTH - depth) as nat
    } else {
        0
    }
}

/// The connector drawn in front of a dependency.
pub open spec fn connector(is_last: bool) -> Seq<char> {
    if is_last {
        "└─ "@
    } else {
        "├─ "@
    }
}

/// The column continued below a dependency for its own children.
pub open spec fn continuation(is_last: bool) -> Seq<char> {
    if is_last {
        "   "@
    } else {
        "│  "@
    }
}

/// Either a row for a mod or one for an unpublished dependency.
pub open spec fn row_of(
    key: Seq<char>,
    node: Dep,
    depth: nat,
    prefix: Seq<char>,
    has_children: bool,
    expanded: bool,
    cycle: bool,
) -> RowView {
    RowView {
        key,
        mod_idx: match node {
            Dep::Known(i) => Some(i),
            Dep::Missing(_) => None,
        },
        missing: match node {
            Dep::Known(_) => None,
            Dep::Missing(d) => Some(d@),
        },
        depth,
        prefix,
        has_children,
        expanded,
        cycle,
    }
}

impl Index {
    /// The dependencies shown below a mod: none when the mod repeats one of
    /// its ancestors (a cycle) or sits at the depth guard.
    pub open spec fn shown_children(&self, idx: usize, depth: nat, ancestors: Seq<usize>) -> Seq<Dep> {
        if ancestors.contains(idx) || depth >= MAX_DEPTH {
            Seq::empty()
        } else {
            self.spec_deps(idx as int)
        }
    }

    /// The rows of one node and, when it is expanded, of its subtree.
    pub open spec fn node_rows(
        &self,
        node: Dep,
        key: Seq<char>,
        depth: nat,
        prefix: Seq<char>,
        is_last: bool,
        expanded: Set<Seq<char>>,
        ancestors: Seq<usize>,
    ) -> Seq<RowView>
        decreases levels_left(depth), 0nat, 0nat,
    {
        let own_prefix = if depth == 0 {
            Seq::empty()
        } else {
            prefix + connector(is_last)
        };
        match node {
            Dep::Missing(d) => seq![row_of(key, node, depth, own_prefix, false, false, false)],
            Dep::Known(idx) => {
                let cycle = ancestors.contains(idx);
                let children = self.shown_children(idx, depth, ancestors);
                let has_children = children.len() > 0;
                let is_expanded = has_children && expanded.contains(key);
                let row = row_of(key, node, depth, own_prefix, has_children, is_expanded, cycle);
                if !is_expanded {
                    seq![row]
                } else {
                    let child_prefix = if depth == 0 {
                        Seq::empty()
                    } else {
                        prefix + continuation(is_last)
                    };
                    seq![row] + self.children_rows(
                        children,
                        0,
                        key,
                        depth + 1,
                        child_prefix,
                        expanded,
                        ancestors.push(idx),
                    )
                }
            },
        }
    }

    /// The key of a child node: the parent's key, a slash, and the child's
    /// full name (or the dependency string when it is not published).
    pub open spec fn child_key(&self, key: Seq<char>, child: Dep) -> Seq<char> {
        key + "/"@ + match child {
            Dep::Known(i) => self.mods@[i as int].full_name@,
            Dep::Missing(d) => d@,
        }
    }

    /// The rows of `children[n..]`, each child followed by its own subtree.
    pub open spec fn children_rows(
        &self,
        children: Seq<Dep>,
        n: int,
        key: Seq<char>,
        depth: nat,
        prefix: Seq<char>,
        expanded: Set<Seq<char>>,
        ancestors: Seq<usize>,
    ) -> Seq<RowView>
        decreases levels_left(depth), 1nat, children.len() - n,
    {
        if n < 0 || n >= children.len() {
            Seq::empty()
        } else {
            self.node_rows(
                children[n],
                self.child_key(key, children[n]),
                depth,
                prefix,
                n + 1 == children.len(),
                expanded,
                ancestors,
            ) + self.children_rows(children, n + 1, key, depth, prefix, expanded, ancestors)
        }
    }

    /// The rows of the roots `roots[k..]`, each keyed by its full name.
    pub open spec fn roots_rows(&self, roots: Seq<usize>, k: int, expanded: Set<Seq<char>>) -> Seq<RowView>
        decreases roots.len() - k,
    {
        if k < 0 || k >= roots.len() {
            Seq::empty()
        } else {
            self.node_rows(
                Dep::Known(roots[k]),
                self.mods@[roots[k] as int].full_name@,
                0,
                Seq::empty(),
                true,
                expanded,
                Seq::empty(),
            ) + self.roots_rows(roots, k + 1, expanded)
        }
    }
}

/// Each row after the first is at most one level deeper than the row above
/// it, and deeper only when that row is expanded.
pub open spec fn steps_by_one(s: Seq<RowView>) -> bool {
    forall|i: int|
        0 <= i < s.len() - 1 ==> #[trigger] s[i + 1].depth <= s[i].depth + 1 && (s[i + 1].depth > s[i].depth
            ==> s[i].expanded)
}

/// The rows of a subtree hung at `depth`: the first at that depth, none
/// above it, stepping down by one level at a time.
pub open spec fn hangs_at(s: Seq<RowView>, depth: nat) -> bool {
    &&& (s.len() > 0 ==> s[0].depth == depth)
    &&& forall|i: int| 0 <= i < s.len() ==> (#[trigger] s[i]).depth >= depth
    &&& steps_by_one(s)
}

/// A flush-left row.
pub open spec fn is_top(r: RowView) -> bool {
    r.depth == 0
}

/// The flush-left rows, in order.
pub open spec fn top_rows(s: Seq<RowView>) -> Seq<RowView> {
    s.filter(|r: RowView| is_top(r))
}

proof fn lemma_hangs_concat(a: Seq<RowView>, b: Seq<RowView>, depth: nat)
    requires
        hangs_at(a, depth),
        hangs_at(b, depth),
    ensures
        hangs_at(a + b, depth),
{
    let s = a + b;
    assert forall|i: int| 0 <= i < s.len() implies (#[trigger] s[i]).depth >= depth by {
        if i < a.len() {
            assert(s[i] == a[i]);
        } else {
            assert(s[i] == b[i - a.len()]);
        }
    }
    assert forall|i: int| 0 <= i < s.len() - 1 implies #[trigger] s[i + 1].depth <= s[i].depth + 1 && (s[i
        + 1].depth > s[i].depth ==> s[i].expanded) by {
        if i + 1 < a.len() {
            assert(s[i + 1] == a[i + 1] && s[i] == a[i]);
        } else if i + 1 == a.len() {
            assert(s[i + 1] == b[0] && s[i] == a[i]);
            assert(a[i].depth >= depth);
        } else {
            assert(s[i + 1] == b[i + 1 - a.len()] && s[i] == b[i - a.len()]);
            assert(b[(i - a.len()) + 1] == b[i + 1 - a.len()]);
        }
    }
    if a.len() > 0 {
        assert(s[0] == a[0]);
    }
}

proof fn lemma_filter_no_top(s: Seq<RowView>)
    requires
        forall|i: int| 0 <= i < s.len() ==> !is_top(#[trigger] s[i]),
    ensures
        s.filter(|r: RowView| is_top(r)) =~= Seq::<RowView>::empty(),
    decreases s.len(),
{
    reveal(Seq::filter);
    if s.len() > 0 {
        assert(!is_top(s[s.len() - 1]));
        lemma_filter_no_top(s.drop_last());
    }
}

impl Index {
    proof fn lemma_node_rows_hang(
        &self,
        node: Dep,
        key: Seq<char>,
        depth: nat,
        prefix: Seq<char>,
        is_last: bool,
        expanded: Set<Seq<char>>,
        ancestors: Seq<usize>,
    )
        ensures
            hangs_at(self.node_rows(node, key, depth, prefix, is_last, expanded, ancestors), depth),
            self.node_rows(node, key, depth, prefix, is_last, expanded, ancestors).len() > 0,
            forall|i: int|
                0 < i < self.node_rows(node, key, depth, prefix, is_last, expanded, ancestors).len() ==> (
                #[trigger] self.node_rows(node, key, depth, prefix, is_last, expanded, ancestors)[i]).depth > depth,
        decreases levels_left(depth), 0nat, 0nat,
    {
        match node {
            Dep::Missing(d) => {},
            Dep::Known(idx) => {
                let children = self.shown_children(idx, depth, ancestors);
                let has_children = children.len() > 0;
                let is_expanded = has_children && expanded.contains(key);
                if is_expanded {
                    let child_prefix = if depth == 0 {
                        Seq::empty()
                    } else {
                        prefix + continuation(is_last)
                    };
                    assert(depth < MAX_DEPTH);
                    self.lemma_children_rows_hang(children, 0, key, depth + 1, child_prefix, expanded, ancestors.push(idx));
                    let all = self.node_rows(node, key, depth, prefix, is_last, expanded, ancestors);
                    let rest = self.children_rows(children, 0, key, depth + 1, child_prefix, expanded, ancestors.push(idx));
                    assert(all == seq![all[0]] + rest);
                    assert forall|i: int| 0 <= i < all.len() implies (#[trigger] all[i]).depth >= depth && (i > 0
                        ==> all[i].depth > depth) by {
                        if i > 0 {
                            assert(all[i] == rest[i - 1]);
                        }
                    }
                    assert forall|i: int| 0 <= i < all.len() - 1 implies #[trigger] all[i + 1].depth <= all[i].depth + 1
                        && (all[i + 1].depth > all[i].depth ==> all[i].expanded) by {
                        if i == 0 {
                            assert(all[1] == rest[0]);
                        } else {
                            assert(all[i + 1] == rest[i] && all[i] == rest[i - 1]);
                            assert(rest[(i - 1) + 1] == rest[i]);
                        }
                    }
                }
            },
        }
    }

    proof fn lemma_children_rows_hang(
        &self,
        children: Seq<Dep>,
        n: int,
        key: Seq<char>,
        depth: nat,
        prefix: Seq<char>,
        expanded: Set<Seq<char>>,
        ancestors: Seq<usize>,
    )
        ensures
            hangs_at(self.children_rows(children, n, key, depth, prefix, expanded, ancestors), depth),
        decreases levels_left(depth), 1nat, children.len() - n,
    {
        if n >= 0 && n < children.len() {
            let first = self.node_rows(children[n], self.child_key(key, children[n]), depth, prefix, n + 1 == children.len(), expanded, ancestors);
            self.lemma_node_rows_hang(children[n], self.child_key(key, children[n]), depth, prefix, n + 1 == children.len(), expanded, ancestors);
            self.lemma_children_rows_hang(children, n + 1, key, depth, prefix, expanded, ancestors);
            lemma_hangs_concat(first, self.children_rows(children, n + 1, key, depth, prefix, expanded, ancestors), depth);
        }
    }

    /// The list's shape: its flush-left rows are the roots, in order, each
    /// keyed by the root's full name; below a root, each row is at most one
    /// level deeper than the row above it, and deeper only when that row is
    /// expanded.
    pub proof fn lemma_rows_follow_roots(&self, roots: Seq<usize>, k: int, expanded: Set<Seq<char>>)
        requires
            0 <= k <= roots.len(),
        ensures
            hangs_at(self.roots_rows(roots, k, expanded), 0),
            top_rows(self.roots_rows(roots, k, expanded)).len() == roots.len() - k,
            forall|i: int| 0 <= i < roots.len() - k ==> {
                let r = #[trigger] top_rows(self.roots_rows(roots, k, expanded))[i];
                &&& r.mod_idx == Some(roots[k + i])
                &&& r.key == self.mods@[roots[k + i] as int].full_name@
            },
        decreases roots.len() - k,
    {
        if k < roots.len() {
            let first = self.node_rows(Dep::Known(roots[k]), self.mods@[roots[k] as int].full_name@, 0, Seq::empty(), true, expanded, Seq::empty());
            let rest = self.roots_rows(roots, k + 1, expanded);
            self.lemma_node_rows_hang(Dep::Known(roots[k]), self.mods@[roots[k] as int].full_name@, 0, Seq::empty(), true, expanded, Seq::empty());
            self.lemma_rows_follow_roots(roots, k + 1, expanded);
            lemma_hangs_concat(first, rest, 0);
            let pred = |r: RowView| is_top(r);
            let head = seq![first[0]];
            let tail = first.drop_first();
            assert(first == head + tail);
            assert forall|i: int| 0 <= i < tail.len() implies !is_top(#[trigger] tail[i]) by {
                assert(tail[i] == first[i + 1]);
            }
            lemma_filter_no_top(tail);
            reveal(Seq::filter);
            Seq::filter_distributes_over_add(head, tail, pred);
            Seq::filter_distributes_over_add(first, rest, pred);
            assert(head.filter(pred) =~= head) by {
                assert(head.drop_last() =~= Seq::<RowView>::empty());
            }
            let all = self.roots_rows(roots, k, expanded);
            assert(all == first + rest);
            assert(all.filter(pred) =~= head + rest.filter(pred));
            assert(top_rows(all) == all.filter(pred));
            assert(top_rows(rest) == rest.filter(pred));
            assert forall|i: int| 0 <= i < roots.len() - k implies {
                let r = #[trigger] all.filter(pred)[i];
                &&& r.mod_idx == Some(roots[k + i])
                &&& r.key == self.mods@[roots[k + i] as int].full_name@
            } by {
                if i > 0 {
                    assert(all.filter(pred)[i] == rest.filter(pred)[i - 1]);
                    assert(k + 1 + (i - 1) == k + i);
                }
            }
        } else {
            reveal(Seq::filter);
        }
    }
}

/// A row is consistent: a repeated (cyclic) node is never expandable, only
/// expandable rows are expanded, rows stay within the depth guard, and a row
/// names either a published mod or an unpublished dependency, never both.
pub open spec fn row_shape(r: RowView) -> bool {
    &&& r.cycle ==> !r.has_children
    &&& r.expanded ==> r.has_children
    &&& r.depth <= MAX_DEPTH
    &&& (r.mod_idx is Some <==> r.missing is None)
}

impl Index {
    pub proof fn lemma_node_rows_shape(
        &self,
        node: Dep,
        key: Seq<char>,
        depth: nat,
        prefix: Seq<char>,
        is_last: bool,
        expanded: Set<Seq<char>>,
        ancestors: Seq<usize>,
    )
        requires
            depth <= MAX_DEPTH,
        ensures
            forall|i: int|
                0 <= i < self.node_rows(node, key, depth, prefix, is_last, expanded, ancestors).len()
                    ==> row_shape(#[trigger] self.node_rows(node, key, depth, prefix, is_last, expanded, ancestors)[i]),
        decreases levels_left(depth), 0nat, 0nat,
    {
        match node {
            Dep::Missing(d) => {},
            Dep::Known(idx) => {
                let children = self.shown_children(idx, depth, ancestors);
                let has_children = children.len() > 0;
                let is_expanded = has_children && expanded.contains(key);
                if is_expanded {
                    let child_prefix = if depth == 0 {
                        Seq::empty()
                    } else {
                        prefix + continuation(is_last)
                    };
                    self.lemma_children_rows_shape(children, 0, key, depth + 1, child_prefix, expanded, ancestors.push(idx));
                    let all = self.node_rows(node, key, depth, prefix, is_last, expanded, ancestors);
                    let rest = self.children_rows(children, 0, key, depth + 1, child_prefix, expanded, ancestors.push(idx));
                    assert forall|i: int| 0 <= i < all.len() implies row_shape(#[trigger] all[i]) by {
                        if i > 0 {
                            assert(all[i] == rest[i - 1]);
                        }
                    }
                }
            },
        }
    }

    pub proof fn lemma_children_rows_shape(
        &self,
        children: Seq<Dep>,
        n: int,
        key: Seq<char>,
        depth: nat,
        prefix: Seq<char>,
        expanded: Set<Seq<char>>,
        ancestors: Seq<usize>,
    )
        requires
            depth <= MAX_DEPTH,
        ensures
            forall|i: int|
                0 <= i < self.children_rows(children, n, key, depth, prefix, expanded, ancestors).len()
                    ==> row_shape(#[trigger] self.children_rows(children, n, key, depth, prefix, expanded, ancestors)[i]),
        decreases levels_left(depth), 1nat, children.len() - n,
    {
        if n >= 0 && n < children.len() {
            let first = self.node_rows(children[n], self.child_key(key, children[n]), depth, prefix, n + 1 == children.len(), expanded, ancestors);
            let rest = self.children_rows(children, n + 1, key, depth, prefix, expanded, ancestors);
            self.lemma_node_rows_shape(children[n], self.child_key(key, children[n]), depth, prefix, n + 1 == children.len(), expanded, ancestors);
            self.lemma_children_rows_shape(children, n + 1, key, depth, prefix, expanded, ancestors);
            let all = first + rest;
            assert forall|i: int| 0 <= i < all.len() implies row_shape(#[trigger] all[i]) by {
                if i < first.len() {
                    assert(all[i] == first[i]);
                } else {
                    assert(all[i] == rest[i - first.len()]);
                }
            }
        }
    }

    /// Every rendered row is consistent (see `row_shape`).
    pub proof fn lemma_rows_well_shaped(&self, roots: Seq<usize>, k: int, expanded: Set<Seq<char>>)
        ensures
            forall|i: int| 0 <= i < self.roots_rows(roots, k, expanded).len()
                ==> row_shape(#[trigger] self.roots_rows(roots, k, expanded)[i]),
        decreases roots.len() - k,
    {
        if k >= 0 && k < roots.len() {
            let first = self.node_rows(Dep::Known(roots[k]), self.mods@[roots[k] as int].full_name@, 0, Seq::empty(), true, expanded, Seq::empty());
            let rest = self.roots_rows(roots, k + 1, expanded);
            self.lemma_node_rows_shape(Dep::Known(roots[k]), self.mods@[roots[k] as int].full_name@, 0, Seq::empty(), true, expanded, Seq::empty());
            self.lemma_rows_well_shaped(roots, k + 1, expanded);
            let all = first + rest;
            assert forall|i: int| 0 <= i < all.len() implies row_shape(#[trigger] all[i]) by {
                if i < first.len() {
                    assert(all[i] == first[i]);
                } else {
                    assert(all[i] == rest[i - first.len()]);
                }
            }
        }
    }
}

/// The row is expanded only when its key is among the expanded keys.
pub open spec fn opened_as_asked(expanded: Set<Seq<char>>, r: RowView) -> bool {
    r.expanded ==> expanded.contains(r.key)
}

impl Index {
    pub proof fn lemma_node_rows_open(
        &self,
        node: Dep,
        key: Seq<char>,
        depth: nat,
        prefix: Seq<char>,
        is_last: bool,
        expanded: Set<Seq<char>>,
        ancestors: Seq<usize>,
    )
        ensures
            forall|i: int|
                0 <= i < self.node_rows(node, key, depth, prefix, is_last, expanded, ancestors).len()
                    ==> opened_as_asked(expanded, #[trigger] self.node_rows(node, key, depth, prefix, is_last, expanded, ancestors)[i]),
        decreases levels_left(depth), 0nat, 0nat,
    {
        match node {
            Dep::Missing(d) => {},
            Dep::Known(idx) => {
                let children = self.shown_children(idx, depth, ancestors);
                let has_children = children.len() > 0;
                let is_expanded = has_children && expanded.contains(key);
                if is_expanded {
                    let child_prefix = if depth == 0 {
                        Seq::empty()
                    } else {
                        prefix + continuation(is_last)
                    };
                    self.lemma_children_rows_open(children, 0, key, depth + 1, child_prefix, expanded, ancestors.push(idx));
                    let all = self.node_rows(node, key, depth, prefix, is_last, expanded, ancestors);
                    let rest = self.children_rows(children, 0, key, depth + 1, child_prefix, expanded, ancestors.push(idx));
                    assert forall|i: int| 0 <= i < all.len() implies opened_as_asked(expanded, #[trigger] all[i]) by {
                        if i > 0 {
                            assert(all[i] == rest[i - 1]);
                        }
                    }
                }
            },
        }
    }

    pub proof fn lemma_children_rows_open(
        &self,
        children: Seq<Dep>,
        n: int,
        key: Seq<char>,
        depth: nat,
        prefix: Seq<char>,
        expanded: Set<Seq<char>>,
        ancestors: Seq<usize>,
    )
        ensures
            forall|i: int|
                0 <= i < self.children_rows(children, n, key, depth, prefix, expanded, ancestors).len()
                    ==> opened_as_asked(expanded, #[trigger] self.children_rows(children, n, key, depth, prefix, expanded, ancestors)[i]),
        decreases levels_left(depth), 1nat, children.len() - n,
    {
        if n >= 0 && n < children.len() {
            let first = self.node_rows(children[n], self.child_key(key, children[n]), depth, prefix, n + 1 == children.len(), expanded, ancestors);
            let rest = self.children_rows(children, n + 1, key, depth, prefix, expanded, ancestors);
            self.lemma_node_rows_open(children[n], self.child_key(key, children[n]), depth, prefix, n + 1 == children.len(), expanded, ancestors);
            self.lemma_children_rows_open(children, n + 1, key, depth, prefix, expanded, ancestors);
            let all = first + rest;
            assert forall|i: int| 0 <= i < all.len() implies opened_as_asked(expanded, #[trigger] all[i]) by {
                if i < first.len() {
                    assert(all[i] == first[i]);
                } else {
                    assert(all[i] == rest[i - first.len()]);
                }
            }
        }
    }

    /// A row is open only when its key is among the expanded keys.
    pub proof fn lemma_rows_open_as_asked(&self, roots: Seq<usize>, k: int, expanded: Set<Seq<char>>)
        ensures
            forall|i: int| 0 <= i < self.roots_rows(roots, k, expanded).len()
                ==> opened_as_asked(expanded, #[trigger] self.roots_rows(roots, k, expanded)[i]),
        decreases roots.len() - k,
    {
        if k >= 0 && k < roots.len() {
            let first = self.node_rows(Dep::Known(roots[k]), self.mods@[roots[k] as int].full_name@, 0, Seq::empty(), true, expanded, Seq::empty());
            let rest = self.roots_rows(roots, k + 1, expanded);
            self.lemma_node_rows_open(Dep::Known(roots[k]), self.mods@[roots[k] as int].full_name@, 0, Seq::empty(), true, expanded, Seq::empty());
            self.lemma_rows_open_as_asked(roots, k + 1, expanded);
            let all = first + rest;
            assert forall|i: int| 0 <= i < all.len() implies opened_as_asked(expanded, #[trigger] all[i]) by {
                if i < first.len() {
                    assert(all[i] == first[i]);
                } else {
                    assert(all[i] == rest[i - first.len()]);
                }
            }
        }
    }

}

impl Index {
    /// With nothing expanded, the list is exactly one flush-left row per
    /// root, keyed by the root's full name.
    pub proof fn lemma_collapsed_rows(&self, roots: Seq<usize>, k: int)
        requires
            0 <= k <= roots.len(),
        ensures
            self.roots_rows(roots, k, Set::empty()).len() == roots.len() - k,
            forall|i: int| 0 <= i < roots.len() - k ==> {
                let r = #[trigger] self.roots_rows(roots, k, Set::empty())[i];
                &&& r.depth == 0
                &&& r.mod_idx == Some(roots[k + i])
                &&& r.key == self.mods@[roots[k + i] as int].full_name@
                &&& r.prefix == Seq::<char>::empty()
                &&& !r.expanded
            },
        decreases roots.len() - k,
    {
        if k < roots.len() {
            self.lemma_collapsed_rows(roots, k + 1);
            let all = self.roots_rows(roots, k, Set::empty());
            let rest = self.roots_rows(roots, k + 1, Set::empty());
            assert forall|i: int| 0 <= i < roots.len() - k implies {
                let r = #[trigger] all[i];
                &&& r.depth == 0
                &&& r.mod_idx == Some(roots[k + i])
                &&& r.key == self.mods@[roots[k + i] as int].full_name@
                &&& r.prefix == Seq::<char>::empty()
                &&& !r.expanded
            } by {
                if i > 0 {
                    assert(all[i] == rest[i - 1]);
                    assert(k + 1 + (i - 1) == k + i);
                }
            }
        }
    }
}

/// Flattens the root list into visible rows, expanding dependency subtrees.
pub fn build_rows(index: &Index, roots: &[usize], expanded: &KeySet) -> (rows: Vec<Row>)
    requires
        forall|i: int| 0 <= i < roots@.len() ==> roots@[i] < index.mods@.len(),
    ensures
        row_views(rows@) == index.roots_rows(roots@, 0, expanded@),
{
    let mut rows: Vec<Row> = Vec::new();
    let mut k: usize = 0;
    while k < roots.len()
        invariant
            k <= roots@.len(),
            forall|i: int| 0 <= i < roots@.len() ==> roots@[i] < index.mods@.len(),
            index.roots_rows(roots@, 0, expanded@) == row_views(rows@) + index.roots_rows(
                roots@,
                k as int,
                expanded@,
            ),
        decreases roots.len() - k,
    {
        let root = roots[k];
        let key = index.get(root).full_name.clone();
        let mut ancestors: Vec<usize> = Vec::new();
        let ghost before = row_views(rows@);
        push_node(index, Dep::Known(root), key, 0, String::new(), true, expanded, &mut ancestors, &mut rows);
        proof {
            assert(ancestors@ =~= Seq::<usize>::empty());
            assert(before + index.roots_rows(roots@, k as int, expanded@) =~= row_views(rows@)
                + index.roots_rows(roots@, k + 1, expanded@));
        }
        k += 1;
    }
    assert(row_views(rows@) + index.roots_rows(roots@, k as int, expanded@) =~= row_views(rows@));
    rows
}

fn push_node(
    index: &Index,
    node: Dep,
    key: String,
    depth: usize,
    prefix: String,
    is_last: bool,
    expanded: &KeySet,
    ancestors: &mut Vec<usize>,
    rows: &mut Vec<Row>,
)
    requires
        node matches Dep::Known(i) ==> i < index.mods@.len(),
        forall|j: int| 0 <= j < old(ancestors)@.len() ==> old(ancestors)@[j] < index.mods@.len(),
        depth <= MAX_DEPTH,
    ensures
        final(ancestors)@ == old(ancestors)@,
        row_views(final(rows)@) == row_views(old(rows)@) + index.node_rows(
            node,
            key@,
            depth as nat,
            prefix@,
            is_last,
            expanded@,
            old(ancestors)@,
        ),
    decreases levels_left(depth as nat),
{
    let ghost anc = ancestors@;
    let ghost old_rows = row_views(rows@);
    // Roots sit flush left; dependencies get a connector under their parent.
    let own_prefix = if depth == 0 {
        String::new()
    } else {
        let mut p = prefix.clone();
        if is_last {
            push_str(&mut p, "└─ ");
        } else {
            push_str(&mut p, "├─ ");
        }
        p
    };

    let idx = match node {
        Dep::Missing(d) => {
            let ghost dv = d;
            rows.push(
                Row {
                    key,
                    mod_idx: None,
                    missing: Some(d),
                    depth,
                    prefix: own_prefix,
                    has_children: false,
                    expanded: false,
                    cycle: false,
                },
            );
            proof {
                assert(row_views(rows@) =~= old_rows.push(rows@.last()@));
            }
            return;
        },
        Dep::Known(i) => i,
    };

    let cycle = contains_index(ancestors, idx);
    let children = if cycle || depth >= MAX_DEPTH {
        Vec::new()
    } else {
        index.deps(idx)
    };
    assert(children@ == index.shown_children(idx, depth as nat, anc));
    let has_children = children.len() > 0;
    let is_expanded = has_children && expanded.contains(key.as_str());

    rows.push(
        Row {
            key: key.clone(),
            mod_idx: Some(idx),
            missing: None,
            depth,
            prefix: own_prefix,
            has_children,
            expanded: is_expanded,
            cycle,
        },
    );
    let ghost after_row = row_views(rows@);
    proof {
        assert(after_row =~= old_rows.push(rows@.last()@));
    }

    if !is_expanded {
        return;
    }

    // Continuation bar for deeper levels: a vertical rule unless this branch
    // was the last child, in which case the column goes blank.
    let child_prefix = if depth == 0 {
        String::new()
    } else {
        let mut p = prefix.clone();
        if is_last {
            push_str(&mut p, "   ");
        } else {
            push_str(&mut p, "│  ");
        }
        p
    };

    proof {
        index.lemma_deps_known_valid(idx as int);
    }
    ancestors.push(idx);
    let count = children.len();
    let mut n: usize = 0;
    while n < count
        invariant
            n <= count,
            count == children@.len(),
            children@ == index.spec_deps(idx as int),
            depth < MAX_DEPTH,
            idx < index.mods@.len(),
            ancestors@ == anc.push(idx),
            forall|j: int| 0 <= j < ancestors@.len() ==> ancestors@[j] < index.mods@.len(),
            forall|m: int|
                0 <= m < children@.len() ==> (#[trigger] children@[m] matches Dep::Known(i) ==> i
                    < index.mods@.len()),
            index.children_rows(
                children@,
                0,
                key@,
                (depth + 1) as nat,
                child_prefix@,
                expanded@,
                anc.push(idx),
            ) == row_views(rows@).skip(after_row.len() as int) + index.children_rows(
                children@,
                n as int,
                key@,
                (depth + 1) as nat,
                child_prefix@,
                expanded@,
                anc.push(idx),
            ),
            row_views(rows@).take(after_row.len() as int) == after_row,
            row_views(rows@).len() >= after_row.len(),
        decreases count - n,
    {
        let child = children[n].clone_dep();
        let mut child_key = key.clone();
        push_str(&mut child_key, "/");
        match &child {
            Dep::Known(i) => push_str(&mut child_key, index.get(*i).full_name.as_str()),
            Dep::Missing(d) => push_str(&mut child_key, d.as_str()),
        }
        let ghost mid = row_views(rows@);
        push_node(
            index,
            child,
            child_key,
            depth + 1,
            child_prefix.clone(),
            n + 1 == count,
            expanded,
            ancestors,
            rows,
        );
        proof {
            let added = index.node_rows(
                children@[n as int],
                index.child_key(key@, children@[n as int]),
                (depth + 1) as nat,
                child_prefix@,
                n + 1 == count,
                expanded@,
                anc.push(idx),
            );
            assert(row_views(rows@) =~= mid + added);
            assert(row_views(rows@).skip(after_row.len() as int) =~= mid.skip(after_row.len() as int) + added);
            assert(row_views(rows@).take(after_row.len() as int) =~= mid.take(after_row.len() as int));
        }
        n += 1;
    }
    ancestors.pop();
    proof {
        assert(ancestors@ =~= anc);
        assert(row_views(rows@) =~= row_views(rows@).take(after_row.len() as int) + row_views(rows@).skip(after_row.len() as int));
    }
}

/// Whether `idx` is one of the ancestors.
fn contains_index(v: &Vec<usize>, idx: usize) -> (r: bool)
    ensures
        r == v@.contains(idx),
{
    let mut i: usize = 0;
    while i < v.len()
        invariant
            i <= v@.len(),
            forall|j: int| 0 <= j < i ==> v@[j] != idx,
        decreases v.len() - i,
    {
        if v[i] == idx {
            return true;
        }
        i += 1;
    }
    false
}

impl Dep {
    /// A copy of this dependency.
    pub fn clone_dep(&self) -> (r: Dep)
        ensures
            r == *self,
    {
        match self {
            Dep::Known(i) => Dep::Known(*i),
            Dep::Missing(d) => Dep::Missing(d.clone()),
        }
    }
}

/// The row names a published mod of the index, if any.
pub open spec fn row_in(r: RowView, n: nat) -> bool {
    r.mod_idx matches Some(i) ==> i < n
}

impl Index {
    pub proof fn lemma_node_rows_in(
        &self,
        node: Dep,
        key: Seq<char>,
        depth: nat,
        prefix: Seq<char>,
        is_last: bool,
        expanded: Set<Seq<char>>,
        ancestors: Seq<usize>,
    )
        requires
            node matches Dep::Known(i) ==> i < self.mods@.len(),
        ensures
            forall|i: int|
                0 <= i < self.node_rows(node, key, depth, prefix, is_last, expanded, ancestors).len()
                    ==> row_in(#[trigger] self.node_rows(node, key, depth, prefix, is_last, expanded, ancestors)[i], self.mods@.len()),
        decreases levels_left(depth), 0nat, 0nat,
    {
        match node {
            Dep::Missing(d) => {},
            Dep::Known(idx) => {
                let children = self.shown_children(idx, depth, ancestors);
                let has_children = children.len() > 0;
                let is_expanded = has_children && expanded.contains(key);
                if is_expanded {
                    let child_prefix = if depth == 0 {
                        Seq::empty()
                    } else {
                        prefix + continuation(is_last)
                    };
                    self.lemma_deps_known_valid(idx as int);
                    self.lemma_children_rows_in(children, 0, key, depth + 1, child_prefix, expanded, ancestors.push(idx));
                    let all = self.node_rows(node, key, depth, prefix, is_last, expanded, ancestors);
                    let rest = self.children_rows(children, 0, key, depth + 1, child_prefix, expanded, ancestors.push(idx));
                    assert forall|i: int| 0 <= i < all.len() implies row_in(#[trigger] all[i], self.mods@.len()) by {
                        if i > 0 {
                            assert(all[i] == rest[i - 1]);
                        }
                    }
                }
            },
        }
    }

    pub proof fn lemma_children_rows_in(
        &self,
        children: Seq<Dep>,
        n: int,
        key: Seq<char>,
        depth: nat,
        prefix: Seq<char>,
        expanded: Set<Seq<char>>,
        ancestors: Seq<usize>,
    )
        requires
            forall|k: int| 0 <= k < children.len() ==> (#[trigger] children[k] matches Dep::Known(i) ==> i < self.mods@.len()),
        ensures
            forall|i: int|
                0 <= i < self.children_rows(children, n, key, depth, prefix, expanded, ancestors).len()
                    ==> row_in(#[trigger] self.children_rows(children, n, key, depth, prefix, expanded, ancestors)[i], self.mods@.len()),
        decreases levels_left(depth), 1nat, children.len() - n,
    {
        if 0 <= n < children.len() {
            let ck = self.child_key(key, children[n]);
            let last = n + 1 == children.len();
            self.lemma_node_rows_in(children[n], ck, depth, prefix, last, expanded, ancestors);
            self.lemma_children_rows_in(children, n + 1, key, depth, prefix, expanded, ancestors);
            let first = self.node_rows(children[n], ck, depth, prefix, last, expanded, ancestors);
            let rest = self.children_rows(children, n + 1, key, depth, prefix, expanded, ancestors);
            let all = first + rest;
            assert forall|i: int| 0 <= i < all.len() implies row_in(#[trigger] all[i], self.mods@.len()) by {
                if i < first.len() {
                    assert(all[i] == first[i]);
                } else {
                    assert(all[i] == rest[i - first.len()]);
                }
            }
        }
    }

    /// Every row of a root list names a mod of the index, or none.
    pub proof fn lemma_rows_in(&self, roots: Seq<usize>, k: int, expanded: Set<Seq<char>>)
        requires
            forall|i: int| 0 <= i < roots.len() ==> roots[i] < self.mods@.len(),
        ensures
            forall|i: int| 0 <= i < self.roots_rows(roots, k, expanded).len()
                ==> row_in(#[trigger] self.roots_rows(roots, k, expanded)[i], self.mods@.len()),
        decreases roots.len() - k,
    {
        if k >= 0 && k < roots.len() {
            let key = self.mods@[roots[k] as int].full_name@;
            let first = self.node_rows(Dep::Known(roots[k]), key, 0, Seq::empty(), true, expanded, Seq::empty());
            let rest = self.roots_rows(roots, k + 1, expanded);
            self.lemma_node_rows_in(Dep::Known(roots[k]), key, 0, Seq::empty(), true, expanded, Seq::empty());
            self.lemma_rows_in(roots, k + 1, expanded);
            let all = first + rest;
            assert forall|i: int| 0 <= i < all.len() implies row_in(#[trigger] all[i], self.mods@.len()) by {
                if i < first.len() {
                    assert(all[i] == first[i]);
                } else {
                    assert(all[i] == rest[i - first.len()]);
                }
            }
        }
    }
}

} // verus!
