//! Application state and input handling.
//!
//! The state machine decides; the caller performs what an [`Action`] asks for
//! (fetching the catalogue, installing mods) and hands the outcome back as a
//! [`Msg`].
use vstd::prelude::*;
use crate::config::Layout;
use crate::index::{lemma_find_last, Filter, Index, Sort};
use crate::keyset::KeySet;
use crate::plan::strictly_sorted;
use crate::sort::{lemma_sorted_unique, sort_positions, PositionOrder};
use crate::text::{chars_of, decimal, decimal_string, lemma_push_contains, push_str, string_of, views};
use crate::rows::{build_rows, row_in, row_views, Row, RowView};
use crate::thunderstore::Mod;

verus! {

/// A key as the terminal reports it.
#[derive(Debug, Clone, Copy, PartialEq, Eq, Structural)]
pub enum Key {
    Char(char),
    Enter,
    Esc,
    Backspace,
    Tab,
    Up,
    Down,
    Left,
    Right,
    PageUp,
    PageDown,
    Home,
    End,
    /// Any key the browser has no use for.
    Other,
}

/// A key press, with whether Control was held.
#[derive(Debug, Clone, Copy, PartialEq, Eq, Structural)]
pub struct KeyPress {
    pub code: Key,
    pub ctrl: bool,
}

/// Outcomes of background work, handed back to the state machine.
pub enum Msg {
    Catalog(Result<Vec<Mod>, String>),
    Log(String),
    InstallDone(Result<String, String>),
}

/// Which modal, if any, is on screen.
pub enum Modal {
    /// No modal: the list has the keys.
    Closed,
    Help,
    Confirm { plan: Vec<usize>, missing: Vec<String> },
}

/// Work the caller is asked to start.
pub enum Action {
    Nothing,
    /// Fetch the catalogue (from the cache unless `force`) and answer with
    /// `Msg::Catalog`.
    Load { force: bool },
    /// Install these mods of the index, in order, into the app's layout,
    /// reporting with `Msg::Log` and finally `Msg::InstallDone`.
    Install { plan: Vec<usize> },
}

pub struct App {
    pub index: Index,
    pub filter: Filter,
    pub sort: Sort,
    pub query: String,
    pub searching: bool,
    pub rows: Vec<Row>,
    pub expanded: KeySet,
    /// Chosen mods, keyed by full name so a mod stays selected wherever it
    /// appears in the tree.
    pub selected: KeySet,
    pub cursor: usize,
    pub status: String,
    pub log: Vec<String>,
    pub busy: bool,
    pub loading: bool,
    pub modal: Modal,
    pub layout: Option<Layout>,
    pub install_dir_hint: String,
    pub quit: bool,
    /// Viewport height of the list, updated each render for paging.
    pub page: usize,
}

/// A cursor position kept on the list: the last row when past the end.
pub open spec fn clamp_cursor(c: int, n: int) -> int {
    if n <= 0 || c < 0 {
        0
    } else if c >= n {
        n - 1
    } else {
        c
    }
}

/// Messages kept in the log by `Msg::Log`.
pub const LOG_LIMIT: usize = 200;

impl App {
    /// The state every operation keeps: the cursor sits on a row (or at the
    /// top of an empty list), rows only name mods of the index, and the page
    /// fits a signed step.
    pub open spec fn wf(&self) -> bool {
        &&& (self.rows@.len() == 0 ==> self.cursor == 0)
        &&& (self.rows@.len() > 0 ==> self.cursor < self.rows@.len())
        &&& forall|i: int| 0 <= i < self.rows@.len() ==> row_in(#[trigger] self.rows@[i]@, self.index.mods@.len())
        &&& (self.modal is Confirm ==> !self.loading)
        &&& self.page <= isize::MAX
    }

    /// The rows the current catalogue, filter, search, sort and expansion give.
    pub open spec fn listed(&self) -> Seq<RowView> {
        self.index.roots_rows(self.index.spec_roots(self.filter, self.query@, self.sort), 0, self.expanded@)
    }

    /// The rows are those `listed`, with the cursor kept from `cursor`.
    pub open spec fn shows(&self, cursor: int) -> bool {
        &&& row_views(self.rows@) == self.listed()
        &&& self.cursor == clamp_cursor(cursor, self.rows@.len() as int)
    }

    /// The row under the cursor.
    pub open spec fn spec_current(&self) -> Option<RowView> {
        if self.cursor < self.rows@.len() {
            Some(self.rows@[self.cursor as int]@)
        } else {
            None
        }
    }

    /// The published mod under the cursor.
    pub open spec fn current_idx(&self) -> Option<usize> {
        match self.spec_current() {
            Some(r) => r.mod_idx,
            None => None,
        }
    }

    /// Catalogue, list settings, rows and cursor are the same.
    pub open spec fn same_view(a: App, b: App) -> bool {
        &&& a.index == b.index
        &&& a.filter == b.filter
        &&& a.sort == b.sort
        &&& a.query@ == b.query@
        &&& a.searching == b.searching
        &&& a.expanded@ == b.expanded@
        &&& a.rows@ == b.rows@
        &&& a.cursor == b.cursor
    }

    /// Catalogue and list settings are the same; rows and cursor may differ.
    pub open spec fn same_settings(a: App, b: App) -> bool {
        &&& a.index == b.index
        &&& a.filter == b.filter
        &&& a.sort == b.sort
        &&& a.query@ == b.query@
        &&& a.searching == b.searching
        &&& a.expanded@ == b.expanded@
    }

    /// Status line and log are the same.
    pub open spec fn same_status(a: App, b: App) -> bool {
        &&& a.status@ == b.status@
        &&& a.log@ == b.log@
    }

    /// Everything but the catalogue view, selection and messages is the same.
    pub open spec fn same_flags(a: App, b: App) -> bool {
        &&& a.busy == b.busy
        &&& a.loading == b.loading
        &&& a.quit == b.quit
        &&& a.modal == b.modal
        &&& a.layout == b.layout
        &&& a.install_dir_hint@ == b.install_dir_hint@
        &&& a.page == b.page
    }

    /// Nothing changed.
    pub open spec fn same(a: App, b: App) -> bool {
        &&& Self::same_view(a, b)
        &&& a.selected@ == b.selected@
        &&& Self::same_status(a, b)
        &&& Self::same_flags(a, b)
    }

    /// State with no catalogue loaded and no fetch started.
    pub fn blank(layout: Option<Layout>, install_dir_hint: String) -> (app: App)
        ensures
            app.wf(),
            app.index.mods@.len() == 0,
            app.filter == Filter::V1Ready,
            app.sort == Sort::Downloads,
            app.query@.len() == 0,
            !app.searching,
            app.rows@.len() == 0,
            app.expanded@ == Set::<Seq<char>>::empty(),
            app.selected@ == Set::<Seq<char>>::empty(),
            app.cursor == 0,
            app.status@ == "loading catalogue from Thunderstore…"@,
            app.log@.len() == 0,
            !app.busy,
            app.loading,
            app.modal is Closed,
            app.layout == layout,
            app.install_dir_hint@ == install_dir_hint@,
            !app.quit,
            app.page == 20,
    {
        App {
            index: Index::new(Vec::new()),
            filter: Filter::V1Ready,
            sort: Sort::Downloads,
            query: String::new(),
            searching: false,
            rows: Vec::new(),
            expanded: KeySet::new(),
            selected: KeySet::new(),
            cursor: 0,
            status: String::from_str("loading catalogue from Thunderstore…"),
            log: Vec::new(),
            busy: false,
            loading: true,
            modal: Modal::Closed,
            layout,
            install_dir_hint,
            quit: false,
            page: 20,
        }
    }

    /// A fresh app, and the catalogue fetch it starts with.
    pub fn new(layout: Option<Layout>, install_dir_hint: String) -> (r: (App, Action))
        ensures
            r.0.wf(),
            r.0.index.mods@.len() == 0,
            r.0.rows@.len() == 0,
            r.0.status@ == "loading catalogue from Thunderstore…"@,
            r.0.loading,
            r.0.layout == layout,
            r.0.install_dir_hint@ == install_dir_hint@,
            r.1 == (Action::Load { force: false }),
    {
        (App::blank(layout, install_dir_hint), Action::Load { force: false })
    }

    /// Recomputes the rows from the catalogue and list settings, keeping the
    /// cursor on the list.
    pub fn rebuild(&mut self)
        ensures
            final(self).shows(old(self).cursor as int),
            Self::same_settings(*old(self), *final(self)),
            final(self).selected@ == old(self).selected@,
            Self::same_status(*old(self), *final(self)),
            Self::same_flags(*old(self), *final(self)),
            forall|i: int| 0 <= i < final(self).rows@.len() ==> row_in(
                #[trigger] final(self).rows@[i]@,
                final(self).index.mods@.len(),
            ),
    {
        let roots = self.index.roots(self.filter, self.query.as_str(), self.sort);
        proof {
            assert forall|i: int| 0 <= i < roots@.len() implies roots@[i] < self.index.mods@.len() by {
                assert(roots@.contains(roots@[i]));
            }
            self.index.lemma_rows_in(roots@, 0, self.expanded@);
        }
        self.rows = build_rows(&self.index, roots.as_slice(), &self.expanded);
        if self.cursor >= self.rows.len() {
            self.cursor = if self.rows.len() == 0 {
                0
            } else {
                self.rows.len() - 1
            };
        }
        proof {
            assert forall|i: int| 0 <= i < self.rows@.len() implies row_in(#[trigger] self.rows@[i]@, self.index.mods@.len()) by {
                assert(row_views(self.rows@)[i] == self.rows@[i]@);
            }
        }
    }

    /// The row under the cursor.
    pub fn current(&self) -> (r: Option<&Row>)
        ensures
            match r {
                Some(row) => self.spec_current() == Some(row@),
                None => self.spec_current() is None,
            },
    {
        if self.cursor < self.rows.len() {
            Some(&self.rows[self.cursor])
        } else {
            None
        }
    }

    /// The published mod under the cursor.
    pub fn current_mod(&self) -> (r: Option<&Mod>)
        requires
            self.wf(),
        ensures
            match r {
                Some(m) => self.current_idx() matches Some(i) && *m == self.index.mods@[i as int],
                None => self.current_idx() is None,
            },
    {
        match self.current() {
            Some(row) => match row.mod_idx {
                Some(i) => {
                    assert(row_in(self.rows@[self.cursor as int]@, self.index.mods@.len()));
                    Some(self.index.get(i))
                },
                None => None,
            },
            None => None,
        }
    }

    /// The index of the published mod under the cursor.
    pub fn current_index(&self) -> (r: Option<usize>)
        ensures
            r == self.current_idx(),
    {
        match self.current() {
            Some(row) => row.mod_idx,
            None => None,
        }
    }
}

/// The nearest row above `c` that is shallower than `depth`: the parent of a
/// nested row.
pub open spec fn parent_row(rows: Seq<RowView>, c: int, depth: nat) -> Option<int>
    decreases c,
{
    if c <= 0 {
        None
    } else if rows[c - 1].depth < depth {
        Some(c - 1)
    } else {
        parent_row(rows, c - 1, depth)
    }
}

pub proof fn lemma_parent_row(rows: Seq<RowView>, c: int, depth: nat)
    ensures
        parent_row(rows, c, depth) matches Some(p) ==> 0 <= p < c,
    decreases c,
{
    if c > 0 {
        lemma_parent_row(rows, c - 1, depth);
    }
}

impl App {
    /// Only the cursor changed, to `c`.
    pub open spec fn cursor_to(a: App, b: App, c: int) -> bool {
        &&& Self::same_settings(a, b)
        &&& a.rows@ == b.rows@
        &&& b.cursor == c
        &&& a.selected@ == b.selected@
        &&& Self::same_status(a, b)
        &&& Self::same_flags(a, b)
    }

    /// The cursor moved by `delta` rows, stopping at either end.
    pub open spec fn moved(a: App, b: App, delta: int) -> bool {
        Self::cursor_to(
            a,
            b,
            if a.rows@.len() == 0 {
                a.cursor as int
            } else {
                clamp_cursor(a.cursor + delta, a.rows@.len() as int)
            },
        )
    }

    /// The list was rebuilt after `expanded` became `keys`; nothing else changed.
    pub open spec fn reexpanded(a: App, b: App, keys: Set<Seq<char>>) -> bool {
        &&& b.expanded@ == keys
        &&& b.index == a.index
        &&& b.filter == a.filter
        &&& b.sort == a.sort
        &&& b.query@ == a.query@
        &&& b.searching == a.searching
        &&& b.shows(a.cursor as int)
        &&& a.selected@ == b.selected@
        &&& Self::same_status(a, b)
        &&& Self::same_flags(a, b)
    }

    /// `l`: open the row's subtree, or step onto its first dependency when it
    /// is already open.
    pub open spec fn expand_step(a: App, b: App) -> bool {
        match a.spec_current() {
            Some(row) => if row.has_children && !row.expanded {
                Self::reexpanded(a, b, a.expanded@.insert(row.key))
            } else if row.has_children {
                Self::moved(a, b, 1)
            } else {
                Self::same(a, b)
            },
            None => Self::same(a, b),
        }
    }

    /// `h`: close the row's subtree, or jump to the parent row.
    pub open spec fn collapse_step(a: App, b: App) -> bool {
        match a.spec_current() {
            Some(row) => if row.expanded {
                Self::reexpanded(a, b, a.expanded@.remove(row.key))
            } else if row.depth > 0 {
                match parent_row(row_views(a.rows@), a.cursor as int, row.depth) {
                    Some(p) => Self::cursor_to(a, b, p),
                    None => Self::same(a, b),
                }
            } else {
                Self::same(a, b)
            },
            None => Self::same(a, b),
        }
    }

    /// Tab: open or close the row's subtree.
    pub open spec fn toggle_expand_step(a: App, b: App) -> bool {
        match a.spec_current() {
            Some(row) => if !row.has_children {
                Self::same(a, b)
            } else if row.expanded {
                Self::reexpanded(a, b, a.expanded@.remove(row.key))
            } else {
                Self::reexpanded(a, b, a.expanded@.insert(row.key))
            },
            None => Self::same(a, b),
        }
    }

    fn move_cursor(&mut self, delta: isize)
        requires
            old(self).wf(),
        ensures
            final(self).wf(),
            Self::moved(*old(self), *final(self), delta as int),
    {
        if self.rows.len() == 0 {
            return;
        }
        let max = self.rows.len() - 1;
        let target: i128 = self.cursor as i128 + delta as i128;
        self.cursor = if target < 0 {
            0
        } else if target > max as i128 {
            max
        } else {
            target as usize
        };
    }

    fn expand(&mut self)
        requires
            old(self).wf(),
        ensures
            final(self).wf(),
            Self::expand_step(*old(self), *final(self)),
    {
        if self.cursor < self.rows.len() {
            let has_children = self.rows[self.cursor].has_children;
            let is_open = self.rows[self.cursor].expanded;
            if has_children && !is_open {
                let key = self.rows[self.cursor].key.clone();
                self.expanded.insert(key);
                self.rebuild();
            } else if has_children {
                self.move_cursor(1);
            }
        }
    }

    fn collapse(&mut self)
        requires
            old(self).wf(),
        ensures
            final(self).wf(),
            Self::collapse_step(*old(self), *final(self)),
    {
        if self.cursor >= self.rows.len() {
            return;
        }
        if self.rows[self.cursor].expanded {
            let key = self.rows[self.cursor].key.clone();
            self.expanded.remove(key.as_str());
            self.rebuild();
        } else if self.rows[self.cursor].depth > 0 {
            let depth = self.rows[self.cursor].depth;
            proof {
                assert(row_views(self.rows@)[self.cursor as int] == self.rows@[self.cursor as int]@);
                lemma_parent_row(row_views(self.rows@), self.cursor as int, depth as nat);
            }
            if let Some(p) = parent_of_row(&self.rows, self.cursor, depth) {
                self.cursor = p;
            }
        }
    }

    fn toggle_expand(&mut self)
        requires
            old(self).wf(),
        ensures
            final(self).wf(),
            Self::toggle_expand_step(*old(self), *final(self)),
    {
        if self.cursor >= self.rows.len() || !self.rows[self.cursor].has_children {
            return;
        }
        let key = self.rows[self.cursor].key.clone();
        if self.rows[self.cursor].expanded {
            self.expanded.remove(key.as_str());
        } else {
            self.expanded.insert(key);
        }
        self.rebuild();
    }
}

/// `parent_row`, computed.
fn parent_of_row(rows: &Vec<Row>, c: usize, depth: usize) -> (r: Option<usize>)
    requires
        c <= rows@.len(),
    ensures
        match r {
            Some(p) => parent_row(row_views(rows@), c as int, depth as nat) == Some(p as int),
            None => parent_row(row_views(rows@), c as int, depth as nat) is None,
        },
{
    let ghost rv = row_views(rows@);
    let mut i = c;
    while i > 0
        invariant
            i <= c <= rows@.len(),
            rv == row_views(rows@),
            parent_row(rv, c as int, depth as nat) == parent_row(rv, i as int, depth as nat),
        decreases i,
    {
        assert(rv[i - 1] == rows@[i - 1]@);
        if rows[i - 1].depth < depth {
            return Some(i - 1);
        }
        i -= 1;
    }
    None
}

/// Positions in increasing order.
pub struct Ascending;

impl PositionOrder for Ascending {
    open spec fn valid(&self, a: usize) -> bool {
        true
    }

    open spec fn before(&self, a: usize, b: usize) -> bool {
        a < b
    }

    proof fn lemma_irreflexive(&self, a: usize) {
    }

    proof fn lemma_transitive(&self, a: usize, b: usize, c: usize) {
    }

    proof fn lemma_total(&self, a: usize, b: usize) {
    }

    fn less(&self, a: usize, b: usize) -> (r: bool) {
        a < b
    }
}

pub open spec fn increasing(s: Seq<usize>) -> bool {
    forall|i: int, j: int| 0 <= i < j < s.len() ==> #[trigger] s[i] < #[trigger] s[j]
}

pub open spec fn not_published() -> Seq<char> {
    "that dependency is not published on Thunderstore"@
}

pub open spec fn no_install_dir(hint: Seq<char>) -> Seq<char> {
    "no install directory set — pass --install-dir <valheim server root> ("@ + hint + ")"@
}

impl App {
    /// Only the status line changed, to `msg`.
    pub open spec fn messaged(a: App, b: App, msg: Seq<char>) -> bool {
        &&& Self::same_view(a, b)
        &&& a.selected@ == b.selected@
        &&& b.status@ == msg
        &&& a.log@ == b.log@
        &&& Self::same_flags(a, b)
    }

    /// Flags other than the modal are the same.
    pub open spec fn same_flags_but_modal(a: App, b: App) -> bool {
        &&& a.busy == b.busy
        &&& a.loading == b.loading
        &&& a.quit == b.quit
        &&& a.layout == b.layout
        &&& a.install_dir_hint@ == b.install_dir_hint@
        &&& a.page == b.page
    }

    /// Space: select the mod under the cursor, or deselect it.
    pub open spec fn toggle_select_step(a: App, b: App) -> bool {
        match a.current_idx() {
            None => Self::messaged(a, b, not_published()),
            Some(i) => {
                let m = a.index.mods@[i as int];
                &&& Self::same_view(a, b)
                &&& a.log@ == b.log@
                &&& Self::same_flags(a, b)
                &&& if a.selected@.contains(m.full_name@) {
                    &&& b.selected@ == a.selected@.remove(m.full_name@)
                    &&& b.status@ == "deselected "@ + m.name@
                } else {
                    &&& b.selected@ == a.selected@.insert(m.full_name@)
                    &&& b.status@ == "selected "@ + m.name@ + " ("@ + decimal(b.selected@.len()) + " total)"@
                }
            },
        }
    }

    /// `x` is the position a selected key names.
    pub open spec fn names_selected(&self, x: usize) -> bool {
        exists|k: Seq<char>| #[trigger] self.selected@.contains(k) && self.index.spec_lookup(k) == Some(x as int)
    }

    /// The mods an install starts from: those selected, in catalogue order, or
    /// the one under the cursor when none are.
    pub open spec fn spec_chosen(&self) -> Seq<usize> {
        if self.selected@.len() == 0 {
            match self.current_idx() {
                Some(i) => seq![i],
                None => Seq::empty(),
            }
        } else {
            choose|s: Seq<usize>| increasing(s) && forall|x: usize| s.contains(x) <==> self.names_selected(x)
        }
    }

    /// Enter: ask for confirmation of the install plan.
    pub open spec fn confirm_step(a: App, b: App) -> bool {
        if a.busy || a.loading {
            Self::same(a, b)
        } else if a.layout is None {
            Self::messaged(a, b, no_install_dir(a.install_dir_hint@))
        } else if a.spec_chosen().len() == 0 {
            Self::messaged(a, b, "nothing selected"@)
        } else {
            let p = a.index.spec_plan(a.spec_chosen());
            &&& Self::same_view(a, b)
            &&& a.selected@ == b.selected@
            &&& Self::same_status(a, b)
            &&& Self::same_flags_but_modal(a, b)
            &&& b.modal matches Modal::Confirm { plan, missing } && {
                &&& plan@ == p.order
                &&& strictly_sorted(views(missing@))
                &&& forall|t: Seq<char>| views(missing@).contains(t) <==> views(p.missing).contains(t)
            }
        }
    }

    fn set_status(&mut self, msg: String)
        ensures
            Self::messaged(*old(self), *final(self), msg@),
    {
        self.status = msg;
    }

    fn toggle_select(&mut self)
        requires
            old(self).wf(),
        ensures
            final(self).wf(),
            Self::toggle_select_step(*old(self), *final(self)),
    {
        let i = match self.current_index() {
            Some(i) => i,
            None => {
                self.set_status(String::from_str("that dependency is not published on Thunderstore"));
                return;
            },
        };
        proof {
            assert(row_in(self.rows@[self.cursor as int]@, self.index.mods@.len()));
        }
        let key = self.index.get(i).full_name.clone();
        let name = self.index.get(i).name.clone();
        let mut msg = String::new();
        let ghost before = self.selected@;
        if self.selected.remove(key.as_str()) {
            push_str(&mut msg, "deselected ");
            push_str(&mut msg, name.as_str());
        } else {
            assert(self.selected@ =~= before);
            self.selected.insert(key);
            push_str(&mut msg, "selected ");
            push_str(&mut msg, name.as_str());
            push_str(&mut msg, " (");
            let count = decimal_string(self.selected.len() as u64);
            push_str(&mut msg, count.as_str());
            push_str(&mut msg, " total)");
        }
        self.status = msg;
    }

    /// Mods explicitly chosen, or the one under the cursor when none are.
    fn chosen(&self) -> (r: Vec<usize>)
        requires
            self.wf(),
        ensures
            r@ == self.spec_chosen(),
            forall|i: int| 0 <= i < r@.len() ==> #[trigger] r@[i] < self.index.mods@.len(),
    {
        if self.selected.is_empty() {
            let mut v: Vec<usize> = Vec::new();
            if let Some(i) = self.current_index() {
                assert(row_in(self.rows@[self.cursor as int]@, self.index.mods@.len()));
                v.push(i);
            }
            assert(v@ =~= self.spec_chosen());
            return v;
        }
        let keys = self.selected.keys();
        let ghost ks = views(keys@);
        let n = self.index.mods.len();
        let mut v: Vec<usize> = Vec::new();
        let mut j: usize = 0;
        while j < keys.len()
            invariant
                j <= keys@.len(),
                ks == views(keys@),
                ks.no_duplicates(),
                n == self.index.mods@.len(),
                v@.no_duplicates(),
                forall|x: usize| v@.contains(x) <==> exists|q: int| 0 <= q < j && self.index.spec_lookup(#[trigger] ks[q]) == Some(x as int),
                forall|q: int| 0 <= q < v@.len() ==> #[trigger] v@[q] < n,
            decreases keys.len() - j,
        {
            let ghost prev = v@;
            if let Some(i) = self.index.lookup(keys[j].as_str()) {
                assert(ks[j as int] == keys@[j as int]@);
                proof {
                    lemma_find_last(self.index.mods@, ks[j as int], n as int);
                    if prev.contains(i) {
                        let q = choose|q: int| 0 <= q < j && self.index.spec_lookup(#[trigger] ks[q]) == Some(i as int);
                        lemma_find_last(self.index.mods@, ks[q], n as int);
                        assert(ks[q] == ks[j as int]);
                    }
                }
                v.push(i);
                proof {
                    lemma_push_contains(prev, i);
                }
            }
            proof {
                assert forall|x: usize| v@.contains(x) <==> exists|q: int| 0 <= q < j + 1 && self.index.spec_lookup(#[trigger] ks[q]) == Some(x as int) by {
                    if exists|q: int| 0 <= q < j + 1 && self.index.spec_lookup(#[trigger] ks[q]) == Some(x as int) {
                        let q = choose|q: int| 0 <= q < j + 1 && self.index.spec_lookup(#[trigger] ks[q]) == Some(x as int);
                        if q < j {
                            assert(prev.contains(x));
                        }
                    }
                    if prev.contains(x) {
                        let q = choose|q: int| 0 <= q < j && self.index.spec_lookup(#[trigger] ks[q]) == Some(x as int);
                        assert(0 <= q < j + 1);
                    }
                }
            }
            j += 1;
        }
        let r = sort_positions(&Ascending, v.as_slice());
        proof {
            assert(views(keys@).to_set() == self.selected@);
            assert forall|x: usize| r@.contains(x) <==> self.names_selected(x) by {
                assert(r@.to_set().contains(x) <==> v@.to_set().contains(x));
                if v@.contains(x) {
                    let q = choose|q: int| 0 <= q < j && self.index.spec_lookup(#[trigger] ks[q]) == Some(x as int);
                    assert(self.selected@.contains(ks[q]));
                }
                if self.names_selected(x) {
                    let k = choose|k: Seq<char>| #[trigger] self.selected@.contains(k) && self.index.spec_lookup(k) == Some(x as int);
                    assert(ks.contains(k));
                    let q = choose|q: int| 0 <= q < ks.len() && ks[q] == k;
                    assert(self.index.spec_lookup(ks[q]) == Some(x as int));
                }
            }
            assert forall|i: int, j2: int| 0 <= i < j2 < r@.len() implies #[trigger] r@[i] < #[trigger] r@[j2] by {
                assert(Ascending.before(r@[i], r@[j2]));
            }
            assert(increasing(r@));
            let c = choose|s: Seq<usize>| increasing(s) && forall|x: usize| s.contains(x) <==> self.names_selected(x);
            let before = |a: usize, b: usize| a < b;
            assert forall|i: int, j2: int| 0 <= i < j2 < r@.len() implies before(#[trigger] r@[i], #[trigger] r@[j2]) by {}
            assert forall|i: int, j2: int| 0 <= i < j2 < c.len() implies before(#[trigger] c[i], #[trigger] c[j2]) by {}
            lemma_sorted_unique(r@, c, before);
            assert forall|i: int| 0 <= i < r@.len() implies #[trigger] r@[i] < self.index.mods@.len() by {
                assert(r@.to_set().contains(r@[i]));
                assert(v@.contains(r@[i]));
            }
        }
        r
    }

    fn confirm_install(&mut self)
        requires
            old(self).wf(),
        ensures
            final(self).wf(),
            Self::confirm_step(*old(self), *final(self)),
    {
        if self.busy || self.loading {
            return;
        }
        if self.layout.is_none() {
            let mut msg = String::from_str("no install directory set — pass --install-dir <valheim server root> (");
            push_str(&mut msg, self.install_dir_hint.as_str());
            push_str(&mut msg, ")");
            self.set_status(msg);
            return;
        }
        let chosen = self.chosen();
        if chosen.len() == 0 {
            self.set_status(String::from_str("nothing selected"));
            return;
        }
        let (plan, missing) = self.index.install_plan(chosen.as_slice());
        proof {
            self.index.lemma_plan_covers_choice(chosen@);
        }
        self.modal = Modal::Confirm { plan, missing };
    }

    /// Hands the plan to the caller when there is somewhere to install it.
    fn start_install(&mut self, plan: Vec<usize>) -> (r: Action)
        ensures
            old(self).layout is None ==> Self::same(*old(self), *final(self)) && r is Nothing,
            old(self).layout is Some ==> {
                &&& Self::same_view(*old(self), *final(self))
                &&& old(self).selected@ == final(self).selected@
                &&& Self::same_status(*old(self), *final(self))
                &&& final(self).busy
                &&& final(self).loading == old(self).loading
                &&& final(self).quit == old(self).quit
                &&& final(self).modal == old(self).modal
                &&& final(self).layout == old(self).layout
                &&& final(self).install_dir_hint@ == old(self).install_dir_hint@
                &&& final(self).page == old(self).page
                &&& r == (Action::Install { plan })
            },
    {
        if self.layout.is_none() {
            return Action::Nothing;
        }
        self.busy = true;
        Action::Install { plan }
    }
}

/// Human-readable age of the cached catalogue.
pub open spec fn ago_text(secs: nat) -> Seq<char> {
    if secs <= 90 {
        "just fetched"@
    } else if secs < 3600 {
        decimal(secs / 60) + "m old"@
    } else {
        decimal(secs / 3600) + "h old"@
    }
}

/// Human-readable age for the cached catalogue.
pub fn ago(secs: u64) -> (r: String)
    ensures
        r@ == ago_text(secs as nat),
{
    if secs <= 90 {
        String::from_str("just fetched")
    } else if secs < 3600 {
        let mut r = decimal_string(secs / 60);
        push_str(&mut r, "m old");
        r
    } else {
        let mut r = decimal_string(secs / 3600);
        push_str(&mut r, "h old");
        r
    }
}

/// How many rows are roots (not nested dependencies).
pub open spec fn count_top(rows: Seq<RowView>) -> nat
    decreases rows.len(),
{
    if rows.len() == 0 {
        0
    } else {
        count_top(rows.drop_last()) + if rows.last().depth == 0 {
            1nat
        } else {
            0nat
        }
    }
}

/// The status after a catalogue arrives.
pub open spec fn ready_status(shown: nat, total: nat, age: Option<u64>) -> Seq<char> {
    decimal(shown) + " mods ready for Valheim 1.0 (of "@ + decimal(total) + " published)"@ + match age {
        Some(secs) => "  ·  catalogue "@ + ago_text(secs as nat),
        None => Seq::empty(),
    }
}

/// The log after a line is added: only the latest `LOG_LIMIT` lines stay.
pub open spec fn logged(log: Seq<String>, line: String) -> Seq<String> {
    if log.push(line).len() > LOG_LIMIT {
        log.push(line).drop_first()
    } else {
        log.push(line)
    }
}

pub fn count_top_rows(rows: &Vec<Row>) -> (n: usize)
    ensures
        n == count_top(row_views(rows@)),
{
    let ghost rv = row_views(rows@);
    let mut n: usize = 0;
    let mut i: usize = 0;
    while i < rows.len()
        invariant
            i <= rows@.len(),
            rv == row_views(rows@),
            n == count_top(rv.take(i as int)),
            n <= i,
        decreases rows.len() - i,
    {
        assert(rv.take(i + 1).drop_last() =~= rv.take(i as int));
        assert(rv[i as int] == rows@[i as int]@);
        if rows[i].depth == 0 {
            n += 1;
        }
        i += 1;
    }
    assert(rv.take(i as int) =~= rv);
    n
}

impl App {
    /// What a message from background work does.
    pub open spec fn handled(a: App, b: App, msg: Msg, age: Option<u64>) -> bool {
        match msg {
            Msg::Catalog(Ok(mods)) => {
                &&& b.index.mods@ == mods@
                &&& b.filter == a.filter
                &&& b.sort == a.sort
                &&& b.query@ == a.query@
                &&& b.searching == a.searching
                &&& b.expanded@ == a.expanded@
                &&& b.shows(a.cursor as int)
                &&& b.selected@ == a.selected@
                &&& b.log@ == a.log@
                &&& !b.loading
                &&& b.busy == a.busy
                &&& b.quit == a.quit
                &&& b.modal == a.modal
                &&& b.layout == a.layout
                &&& b.install_dir_hint@ == a.install_dir_hint@
                &&& b.page == a.page
                &&& b.status@ == ready_status(count_top(row_views(b.rows@)), mods@.len(), age)
            },
            Msg::Catalog(Err(e)) => {
                &&& Self::same_view(a, b)
                &&& b.selected@ == a.selected@
                &&& b.log@ == a.log@
                &&& !b.loading
                &&& b.busy == a.busy
                &&& b.quit == a.quit
                &&& b.modal == a.modal
                &&& b.layout == a.layout
                &&& b.install_dir_hint@ == a.install_dir_hint@
                &&& b.page == a.page
                &&& b.status@ == "failed to load catalogue: "@ + e@
            },
            Msg::Log(line) => {
                &&& Self::same_view(a, b)
                &&& b.selected@ == a.selected@
                &&& Self::same_flags(a, b)
                &&& b.status@ == line@
                &&& b.log@ == logged(a.log@, line)
            },
            Msg::InstallDone(res) => {
                &&& Self::same_view(a, b)
                &&& b.selected@ == a.selected@
                &&& !b.busy
                &&& b.loading == a.loading
                &&& b.quit == a.quit
                &&& b.modal == a.modal
                &&& b.layout == a.layout
                &&& b.install_dir_hint@ == a.install_dir_hint@
                &&& b.page == a.page
                &&& b.status@ == match res {
                    Ok(summary) => summary@,
                    Err(e) => "install failed: "@ + e@,
                }
                &&& b.log@.len() == a.log@.len() + 1
                &&& b.log@.drop_last() == a.log@
                &&& b.log@.last()@ == b.status@
            },
        }
    }

    /// Applies a message from background work. `cache_age` is how old the
    /// cached catalogue is, in seconds, when there is one; it is shown when a
    /// catalogue arrives.
    pub fn handle_msg(&mut self, msg: Msg, cache_age: Option<u64>)
        requires
            old(self).wf(),
        ensures
            final(self).wf(),
            Self::handled(*old(self), *final(self), msg, cache_age),
    {
        match msg {
            Msg::Catalog(Ok(mods)) => {
                let total = mods.len();
                self.index = Index::new(mods);
                self.loading = false;
                self.rebuild();
                let shown = count_top_rows(&self.rows);
                let mut status = decimal_string(shown as u64);
                push_str(&mut status, " mods ready for Valheim 1.0 (of ");
                let t = decimal_string(total as u64);
                push_str(&mut status, t.as_str());
                push_str(&mut status, " published)");
                if let Some(secs) = cache_age {
                    push_str(&mut status, "  ·  catalogue ");
                    let a = ago(secs);
                    push_str(&mut status, a.as_str());
                }
                assert(status@ == ready_status(count_top(row_views(self.rows@)), total as nat, cache_age));
                self.status = status;
            },
            Msg::Catalog(Err(e)) => {
                self.loading = false;
                let mut status = String::from_str("failed to load catalogue: ");
                push_str(&mut status, e.as_str());
                self.status = status;
            },
            Msg::Log(line) => {
                self.status = line.clone();
                self.log.push(line);
                if self.log.len() > LOG_LIMIT {
                    self.log.remove(0);
                }
                assert(self.log@ =~= logged(old(self).log@, line));
            },
            Msg::InstallDone(res) => {
                self.busy = false;
                match res {
                    Ok(summary) => {
                        self.status = summary.clone();
                        self.log.push(summary);
                        assert(self.log@.drop_last() =~= old(self).log@);
                    },
                    Err(e) => {
                        let mut status = String::from_str("install failed: ");
                        push_str(&mut status, e.as_str());
                        self.status = status;
                        self.log.push(self.status.clone());
                        assert(self.log@.drop_last() =~= old(self).log@);
                    },
                }
            },
        }
    }
}

/// The search text without its last character.
pub open spec fn without_last(q: Seq<char>) -> Seq<char> {
    if q.len() == 0 {
        q
    } else {
        q.drop_last()
    }
}

pub open spec fn filter_status(f: Filter) -> Seq<char> {
    "filter: "@ + f.spec_label() + " — "@ + f.spec_describe()
}

pub open spec fn sort_status(s: Sort) -> Seq<char> {
    "sorted by "@ + s.spec_label()
}

/// The key answers the confirmation with yes.
pub open spec fn accepts(code: Key) -> bool {
    code == Key::Char('y') || code == Key::Char('Y') || code == Key::Enter
}

impl App {
    /// The list was rebuilt for a new search text and search mode, with the
    /// cursor kept from `cursor`; nothing else changed.
    pub open spec fn requeried(a: App, b: App, q: Seq<char>, searching: bool, cursor: int) -> bool {
        &&& b.query@ == q
        &&& b.searching == searching
        &&& b.index == a.index
        &&& b.filter == a.filter
        &&& b.sort == a.sort
        &&& b.expanded@ == a.expanded@
        &&& b.shows(cursor)
        &&& b.selected@ == a.selected@
        &&& Self::same_status(a, b)
        &&& Self::same_flags(a, b)
    }

    /// A key typed into the search box.
    pub open spec fn search_step(a: App, b: App, code: Key) -> bool {
        match code {
            Key::Esc => Self::requeried(a, b, Seq::empty(), false, a.cursor as int),
            Key::Enter => {
                &&& b.searching == false
                &&& b.index == a.index
                &&& b.filter == a.filter
                &&& b.sort == a.sort
                &&& b.query@ == a.query@
                &&& b.expanded@ == a.expanded@
                &&& b.rows@ == a.rows@
                &&& b.cursor == a.cursor
                &&& b.selected@ == a.selected@
                &&& Self::same_status(a, b)
                &&& Self::same_flags(a, b)
            },
            Key::Backspace => Self::requeried(a, b, without_last(a.query@), a.searching, 0),
            Key::Char(c) => Self::requeried(a, b, a.query@.push(c), a.searching, 0),
            _ => Self::same(a, b),
        }
    }

    /// Only the flags changed: `quit`, `modal`, `busy` and `loading` as given.
    pub open spec fn flagged(a: App, b: App, quit: bool, modal: Modal, busy: bool) -> bool {
        &&& Self::same_view(a, b)
        &&& a.selected@ == b.selected@
        &&& Self::same_status(a, b)
        &&& b.quit == quit
        &&& b.modal == modal
        &&& b.busy == busy
        &&& b.loading == a.loading
        &&& b.layout == a.layout
        &&& b.install_dir_hint@ == a.install_dir_hint@
        &&& b.page == a.page
    }

    /// `f` and `s`: a new filter and sort, listed from the top, announced.
    pub open spec fn resorted(a: App, b: App, filter: Filter, sort: Sort, msg: Seq<char>) -> bool {
        &&& b.filter == filter
        &&& b.sort == sort
        &&& b.index == a.index
        &&& b.query@ == a.query@
        &&& b.searching == a.searching
        &&& b.expanded@ == a.expanded@
        &&& b.shows(0)
        &&& b.selected@ == a.selected@
        &&& b.status@ == msg
        &&& b.log@ == a.log@
        &&& Self::same_flags(a, b)
    }

    /// A key on the list, with no modal open and no search being typed.
    pub open spec fn key_step(a: App, b: App, key: KeyPress, r: Action) -> bool {
        let c = key.code;
        let n = a.rows@.len() as int;
        let page = a.page as int;
        if (c == Key::Char('c') && key.ctrl) || c == Key::Char('q') || c == Key::Esc {
            Self::flagged(a, b, true, a.modal, a.busy) && r is Nothing
        } else if c == Key::Char('?') {
            Self::flagged(a, b, a.quit, Modal::Help, a.busy) && r is Nothing
        } else if c == Key::Char('j') || c == Key::Down {
            Self::moved(a, b, 1) && r is Nothing
        } else if c == Key::Char('k') || c == Key::Up {
            Self::moved(a, b, -1) && r is Nothing
        } else if c == Key::Char('d') && key.ctrl {
            Self::moved(a, b, page / 2) && r is Nothing
        } else if c == Key::Char('u') && key.ctrl {
            Self::moved(a, b, -(page / 2)) && r is Nothing
        } else if c == Key::PageDown {
            Self::moved(a, b, page) && r is Nothing
        } else if c == Key::PageUp {
            Self::moved(a, b, -page) && r is Nothing
        } else if c == Key::Char('g') || c == Key::Home {
            Self::cursor_to(a, b, 0) && r is Nothing
        } else if c == Key::Char('G') || c == Key::End {
            Self::cursor_to(a, b, if n == 0 { 0 } else { n - 1 }) && r is Nothing
        } else if c == Key::Char('l') || c == Key::Right {
            Self::expand_step(a, b) && r is Nothing
        } else if c == Key::Char('h') || c == Key::Left {
            Self::collapse_step(a, b) && r is Nothing
        } else if c == Key::Tab {
            Self::toggle_expand_step(a, b) && r is Nothing
        } else if c == Key::Char(' ') {
            Self::toggle_select_step(a, b) && r is Nothing
        } else if c == Key::Char('c') {
            &&& Self::same_view(a, b)
            &&& b.selected@ == Set::<Seq<char>>::empty()
            &&& b.status@ == "selection cleared"@
            &&& b.log@ == a.log@
            &&& Self::same_flags(a, b)
            &&& r is Nothing
        } else if c == Key::Enter {
            Self::confirm_step(a, b) && r is Nothing
        } else if c == Key::Char('/') {
            &&& b.searching
            &&& b.query@.len() == 0
            &&& b.index == a.index
            &&& b.filter == a.filter
            &&& b.sort == a.sort
            &&& b.expanded@ == a.expanded@
            &&& b.rows@ == a.rows@
            &&& b.cursor == a.cursor
            &&& b.selected@ == a.selected@
            &&& Self::same_status(a, b)
            &&& Self::same_flags(a, b)
            &&& r is Nothing
        } else if c == Key::Char('f') {
            Self::resorted(a, b, a.filter.spec_next(), a.sort, filter_status(a.filter.spec_next())) && r is Nothing
        } else if c == Key::Char('s') {
            Self::resorted(a, b, a.filter, a.sort.spec_next(), sort_status(a.sort.spec_next())) && r is Nothing
        } else if c == Key::Char('r') && !a.loading {
            &&& Self::same_view(a, b)
            &&& b.selected@ == a.selected@
            &&& b.status@ == "refreshing catalogue…"@
            &&& b.log@ == a.log@
            &&& b.loading
            &&& b.busy == a.busy
            &&& b.quit == a.quit
            &&& b.modal == a.modal
            &&& b.layout == a.layout
            &&& b.install_dir_hint@ == a.install_dir_hint@
            &&& b.page == a.page
            &&& r == (Action::Load { force: true })
        } else {
            Self::same(a, b) && r is Nothing
        }
    }

    /// What a key press does. A modal swallows the key so a stray press cannot
    /// act on the list behind it; while a search is typed, keys edit the search.
    pub open spec fn on_key_step(a: App, b: App, key: KeyPress, r: Action) -> bool {
        match a.modal {
            Modal::Help => Self::flagged(a, b, a.quit, Modal::Closed, a.busy) && r is Nothing,
            Modal::Confirm { plan, .. } => if accepts(key.code) && a.layout is Some {
                Self::flagged(a, b, a.quit, Modal::Closed, true) && r == (Action::Install { plan })
            } else {
                Self::flagged(a, b, a.quit, Modal::Closed, a.busy) && r is Nothing
            },
            Modal::Closed => if a.searching {
                Self::search_step(a, b, key.code) && r is Nothing
            } else {
                Self::key_step(a, b, key, r)
            },
        }
    }

    /// Handles one key press and says what work, if any, to start.
    pub fn on_key(&mut self, key: KeyPress) -> (r: Action)
        requires
            old(self).wf(),
        ensures
            final(self).wf(),
            Self::on_key_step(*old(self), *final(self), key, r),
    {
        match self.modal {
            Modal::Help => {
                self.modal = Modal::Closed;
                return Action::Nothing;
            },
            Modal::Confirm { .. } => {
                let mut m = Modal::Closed;
                std::mem::swap(&mut m, &mut self.modal);
                if key.code == Key::Char('y') || key.code == Key::Char('Y') || key.code == Key::Enter {
                    if let Modal::Confirm { plan, .. } = m {
                        return self.start_install(plan);
                    }
                }
                return Action::Nothing;
            },
            Modal::Closed => {},
        }
        if self.searching {
            self.search_key(key);
            return Action::Nothing;
        }
        self.list_key(key)
    }

    fn search_key(&mut self, key: KeyPress)
        requires
            old(self).wf(),
        ensures
            final(self).wf(),
            Self::search_step(*old(self), *final(self), key.code),
    {
        match key.code {
            Key::Esc => {
                self.searching = false;
                self.query = String::new();
                self.rebuild();
            },
            Key::Enter => {
                self.searching = false;
            },
            Key::Backspace => {
                let cs = chars_of(self.query.as_str());
                let kept = if cs.len() == 0 {
                    cs
                } else {
                    let mut t = cs;
                    t.pop();
                    t
                };
                self.query = string_of(kept.as_slice());
                self.cursor = 0;
                self.rebuild();
            },
            Key::Char(c) => {
                let mut q = self.query.clone();
                crate::text::push_char(&mut q, c);
                self.query = q;
                self.cursor = 0;
                self.rebuild();
            },
            _ => {},
        }
    }

    fn list_key(&mut self, key: KeyPress) -> (r: Action)
        requires
            old(self).wf(),
            old(self).modal is Closed,
        ensures
            final(self).wf(),
            Self::key_step(*old(self), *final(self), key, r),
    {
        let c = key.code;
        let ctrl = key.ctrl;
        if (c == Key::Char('c') && ctrl) || c == Key::Char('q') || c == Key::Esc {
            self.quit = true;
        } else if c == Key::Char('?') {
            self.modal = Modal::Help;
        } else if c == Key::Char('j') || c == Key::Down {
            self.move_cursor(1);
        } else if c == Key::Char('k') || c == Key::Up {
            self.move_cursor(-1);
        } else if c == Key::Char('d') && ctrl {
            self.move_cursor((self.page / 2) as isize);
        } else if c == Key::Char('u') && ctrl {
            self.move_cursor(-((self.page / 2) as isize));
        } else if c == Key::PageDown {
            self.move_cursor(self.page as isize);
        } else if c == Key::PageUp {
            self.move_cursor(-(self.page as isize));
        } else if c == Key::Char('g') || c == Key::Home {
            self.cursor = 0;
        } else if c == Key::Char('G') || c == Key::End {
            self.cursor = if self.rows.len() == 0 {
                0
            } else {
                self.rows.len() - 1
            };
        } else if c == Key::Char('l') || c == Key::Right {
            self.expand();
        } else if c == Key::Char('h') || c == Key::Left {
            self.collapse();
        } else if c == Key::Tab {
            self.toggle_expand();
        } else if c == Key::Char(' ') {
            self.toggle_select();
        } else if c == Key::Char('c') {
            self.selected.clear();
            self.status = String::from_str("selection cleared");
        } else if c == Key::Enter {
            self.confirm_install();
        } else if c == Key::Char('/') {
            self.searching = true;
            self.query = String::new();
        } else if c == Key::Char('f') {
            self.filter = self.filter.next();
            self.cursor = 0;
            self.rebuild();
            let mut msg = String::from_str("filter: ");
            push_str(&mut msg, self.filter.label());
            push_str(&mut msg, " — ");
            push_str(&mut msg, self.filter.describe());
            self.status = msg;
        } else if c == Key::Char('s') {
            self.sort = self.sort.next();
            self.cursor = 0;
            self.rebuild();
            let mut msg = String::from_str("sorted by ");
            push_str(&mut msg, self.sort.label());
            self.status = msg;
        } else if c == Key::Char('r') && !self.loading {
            self.status = String::from_str("refreshing catalogue…");
            self.loading = true;
            return Action::Load { force: true };
        }
        Action::Nothing
    }
}

/// Counts kept while a plan is installed, one mod after another.
pub struct InstallRun {
    pub total: usize,
    pub installed: usize,
    pub kept_configs: usize,
}

pub open spec fn kept_note(kept: nat) -> Seq<char> {
    if kept > 0 {
        ", kept "@ + decimal(kept) + " existing config files"@
    } else {
        Seq::empty()
    }
}

impl InstallRun {
    /// A run over `total` mods, none installed yet.
    pub fn new(total: usize) -> (r: InstallRun)
        ensures
            r.total == total,
            r.installed == 0,
            r.kept_configs == 0,
    {
        InstallRun { total, installed: 0, kept_configs: 0 }
    }

    /// The log line announcing mod `n` (counting from 0).
    pub fn announce(&self, n: usize, full_name: &str) -> (r: String)
        requires
            n < usize::MAX,
        ensures
            r@ == "["@ + decimal(n as nat + 1) + "/"@ + decimal(self.total as nat) + "] "@ + full_name@,
    {
        let mut r = String::from_str("[");
        let a = decimal_string((n + 1) as u64);
        push_str(&mut r, a.as_str());
        push_str(&mut r, "/");
        let b = decimal_string(self.total as u64);
        push_str(&mut r, b.as_str());
        push_str(&mut r, "] ");
        push_str(&mut r, full_name);
        r
    }

    /// Counts one installed mod and gives its log line.
    pub fn record(&mut self, name: &str, version: &str, written: usize, skipped_config: usize) -> (r: String)
        requires
            old(self).installed < usize::MAX,
            old(self).kept_configs + skipped_config <= usize::MAX,
        ensures
            final(self).total == old(self).total,
            final(self).installed == old(self).installed + 1,
            final(self).kept_configs == old(self).kept_configs + skipped_config,
            r@ == "  installed "@ + name@ + " "@ + version@ + " ("@ + decimal(written as nat) + " files)"@,
    {
        self.installed = self.installed + 1;
        self.kept_configs = self.kept_configs + skipped_config;
        let mut r = String::from_str("  installed ");
        push_str(&mut r, name);
        push_str(&mut r, " ");
        push_str(&mut r, version);
        push_str(&mut r, " (");
        let w = decimal_string(written as u64);
        push_str(&mut r, w.as_str());
        push_str(&mut r, " files)");
        r
    }

    /// Why the run stopped at a mod, and how far it got.
    pub fn failure(&self, full_name: &str, error: &str) -> (r: String)
        ensures
            r@ == full_name@ + " — "@ + error@ + " ("@ + decimal(self.installed as nat) + " of "@ + decimal(
                self.total as nat,
            ) + " installed)"@,
    {
        let mut r = String::from_str(full_name);
        push_str(&mut r, " — ");
        push_str(&mut r, error);
        push_str(&mut r, " (");
        let a = decimal_string(self.installed as u64);
        push_str(&mut r, a.as_str());
        push_str(&mut r, " of ");
        let b = decimal_string(self.total as u64);
        push_str(&mut r, b.as_str());
        push_str(&mut r, " installed)");
        r
    }

    /// The closing summary of a completed run into `plugins`.
    pub fn summary(&self, plugins: &str) -> (r: String)
        ensures
            r@ == "installed "@ + decimal(self.installed as nat) + " mods into "@ + plugins@ + kept_note(
                self.kept_configs as nat,
            ) + " — restart the server to load them"@,
    {
        let mut r = String::from_str("installed ");
        let a = decimal_string(self.installed as u64);
        push_str(&mut r, a.as_str());
        push_str(&mut r, " mods into ");
        push_str(&mut r, plugins);
        if self.kept_configs > 0 {
            push_str(&mut r, ", kept ");
            let k = decimal_string(self.kept_configs as u64);
            push_str(&mut r, k.as_str());
            push_str(&mut r, " existing config files");
        }
        push_str(&mut r, " — restart the server to load them");
        r
    }
}

// ---------------------------------------------------------------------------
// What holds across key presses
// ---------------------------------------------------------------------------

/// While a search is being typed, every key edits the search: none quits,
/// selects, opens a modal or starts work.
pub proof fn lemma_search_keys_only_edit_the_search(a: App, b: App, key: KeyPress, r: Action)
    requires
        a.modal is Closed,
        a.searching,
        App::on_key_step(a, b, key, r),
    ensures
        r is Nothing,
        b.selected@ == a.selected@,
        b.quit == a.quit,
        b.modal == a.modal,
        b.busy == a.busy,
        b.loading == a.loading,
        b.index == a.index,
        b.filter == a.filter,
        b.sort == a.sort,
        b.expanded@ == a.expanded@,
{
}

/// An open modal takes the key: the list, selection and status are left
/// alone and the modal closes; only the confirming key of an install plan
/// starts work, and only that plan.
pub proof fn lemma_modals_swallow_keys(a: App, b: App, key: KeyPress, r: Action)
    requires
        !(a.modal is Closed),
        App::on_key_step(a, b, key, r),
    ensures
        b.modal is Closed,
        App::same_view(a, b),
        b.selected@ == a.selected@,
        App::same_status(a, b),
        b.quit == a.quit,
        r is Nothing || (a.modal matches Modal::Confirm { plan, .. } && accepts(key.code) && r == (Action::Install {
            plan,
        })),
{
}

/// The list is determined by the catalogue, filter, search text, sort and
/// expanded nodes: two states that agree on those show the same rows.
pub proof fn lemma_list_is_determined(a: App, b: App, ca: int, cb: int)
    requires
        a.shows(ca),
        b.shows(cb),
        a.index == b.index,
        a.filter == b.filter,
        a.sort == b.sort,
        a.query@ == b.query@,
        a.expanded@ == b.expanded@,
    ensures
        row_views(a.rows@) == row_views(b.rows@),
{
}

/// Four presses of `f` bring the filter back, and the list with it.
pub proof fn lemma_filter_key_cycles(a: App, b: App, c: App, d: App, e: App)
    requires
        App::resorted(a, b, a.filter.spec_next(), a.sort, filter_status(a.filter.spec_next())),
        App::resorted(b, c, b.filter.spec_next(), b.sort, filter_status(b.filter.spec_next())),
        App::resorted(c, d, c.filter.spec_next(), c.sort, filter_status(c.filter.spec_next())),
        App::resorted(d, e, d.filter.spec_next(), d.sort, filter_status(d.filter.spec_next())),
    ensures
        e.filter == a.filter,
        e.sort == a.sort,
        e.cursor == 0 || e.rows@.len() == 0,
{
    crate::index::lemma_filter_cycle(a.filter);
}


/// Nothing is installed without confirmation: the only key press that asks
/// for an install is the confirming key of an open confirmation, with a
/// layout to install into, and it installs exactly the plan that was shown.
pub proof fn lemma_installs_need_confirmation(a: App, b: App, key: KeyPress, r: Action)
    requires
        App::on_key_step(a, b, key, r),
        r is Install,
    ensures
        a.modal is Confirm,
        accepts(key.code),
        a.layout is Some,
        a.modal matches Modal::Confirm { plan, .. } && r == (Action::Install { plan }),
        b.busy,
        b.modal is Closed,
{
}

/// A refresh is only asked for when no fetch is already in flight.
pub proof fn lemma_one_fetch_at_a_time(a: App, b: App, key: KeyPress, r: Action)
    requires
        App::on_key_step(a, b, key, r),
        r is Load,
    ensures
        !a.loading,
        b.loading,
{
}

/// Space twice on the same row gives the selection back: the mod under the
/// cursor is selected and deselected again (or the other way round), and an
/// unpublished row leaves the selection alone both times.
pub proof fn lemma_space_twice_restores_selection(a: App, b: App, c: App, key: KeyPress, r1: Action, r2: Action)
    requires
        a.modal is Closed,
        !a.searching,
        key.code == Key::Char(' '),
        App::on_key_step(a, b, key, r1),
        App::on_key_step(b, c, key, r2),
    ensures
        c.selected@ == a.selected@,
{
    assert(App::toggle_select_step(a, b));
    assert(App::toggle_select_step(b, c));
    match a.current_idx() {
        None => {},
        Some(i) => {
            let k = a.index.mods@[i as int].full_name@;
            if a.selected@.contains(k) {
                assert(a.selected@.remove(k).insert(k) =~= a.selected@);
            } else {
                assert(a.selected@.insert(k).remove(k) =~= a.selected@);
            }
        },
    }
}

/// Space on a row toggles exactly the mod under the cursor: the new
/// selection is the old one with that mod's full name added or removed (their
/// symmetric difference); on an unpublished row, or with no row, the
/// selection stays as it was.
pub proof fn lemma_toggle_is_symmetric_difference(a: App, b: App)
    requires
        App::toggle_select_step(a, b),
    ensures
        match a.current_idx() {
            Some(i) => {
                let one = Set::<Seq<char>>::empty().insert(a.index.mods@[i as int].full_name@);
                b.selected@ == a.selected@.difference(one).union(one.difference(a.selected@))
            },
            None => b.selected@ == a.selected@,
        },
{
    if let Some(i) = a.current_idx() {
        let k = a.index.mods@[i as int].full_name@;
        let one = Set::<Seq<char>>::empty().insert(k);
        assert(b.selected@ =~= a.selected@.difference(one).union(one.difference(a.selected@)));
    }
}

} // verus!
