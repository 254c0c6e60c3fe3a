//! The root list: filtered by game-version signal and free text, then sorted.
use vstd::prelude::*;
use crate::index::{Filter, Index, Sort};
use crate::sort::{KeyedOrder, PositionOrder, key_before, lemma_sorted_unique, sort_positions, sorted_by};
use crate::text::{
    chars_of, contains_chars, contains_text, lemma_lex_irreflexive, lemma_lex_total, lemma_lex_transitive, lemma_push_contains, lex_lt,
    lowercase, string_of, to_lowercase, trim, trim_chars,
};
use crate::thunderstore::Mod;

verus! {

/// The numeric part of a mod's sort key: larger counts first.
pub open spec fn sort_num(sort: Sort, m: Mod) -> int {
    match sort {
        Sort::Downloads => -(m.downloads as int),
        Sort::Rating => -(m.rating as int),
        _ => 0,
    }
}

/// The text part of a mod's sort key: the update date (newest first) or the
/// lower-cased name (A to Z).
pub open spec fn sort_text(sort: Sort, m: Mod) -> Seq<char> {
    match sort {
        Sort::Updated => m.date_updated@,
        Sort::Name => lowercase(m.name@),
        _ => Seq::empty(),
    }
}

/// `a` is listed before `b`: by the chosen key (most downloads, best rating,
/// newest update, or name A to Z ignoring case), then by full name, and
/// finally by catalogue position. Text compares by code point, which is the
/// byte order of UTF-8 that `str` comparison uses.
pub open spec fn root_before(mods: Seq<Mod>, sort: Sort, a: usize, b: usize) -> bool {
    key_before(
        sort == Sort::Updated,
        sort_num(sort, mods[a as int]),
        sort_text(sort, mods[a as int]),
        mods[a as int].full_name@,
        a,
        sort_num(sort, mods[b as int]),
        sort_text(sort, mods[b as int]),
        mods[b as int].full_name@,
        b,
    )
}

/// The search text: trimmed and lower-cased.
pub open spec fn spec_query(query: Seq<char>) -> Seq<char> {
    lowercase(trim(query))
}

/// An empty search matches everything; otherwise the name, owner or
/// description must contain it, ignoring case.
pub open spec fn matches_query(m: Mod, q: Seq<char>) -> bool {
    ||| q.len() == 0
    ||| contains_text(lowercase(m.name@), q)
    ||| contains_text(lowercase(m.owner@), q)
    ||| contains_text(lowercase(m.description@), q)
}

impl Index {
    /// The mod at `i` belongs in the list for this filter and search.
    pub open spec fn keeps(&self, filter: Filter, query: Seq<char>, i: usize) -> bool {
        &&& i < self.mods@.len()
        &&& filter.spec_accepts(self.mods@[i as int])
        &&& matches_query(self.mods@[i as int], spec_query(query))
    }

    /// Root entries for the list, filtered by game-version signal, free-text
    /// query, and sorted.
    pub fn roots(&self, filter: Filter, query: &str, sort: Sort) -> (r: Vec<usize>)
        ensures
            forall|x: usize| r@.contains(x) <==> self.keeps(filter, query@, x),
            forall|i: int, j: int|
                0 <= i < j < r@.len() ==> root_before(self.mods@, sort, #[trigger] r@[i], #[trigger] r@[j]),
            r@ == self.spec_roots(filter, query@, sort),
            trim(query@).len() == 0 ==> forall|x: usize|
                r@.contains(x) <==> (x < self.mods@.len() && filter.spec_accepts(self.mods@[x as int])),
    {
        let trimmed = string_of(trim_chars(&chars_of(query)).as_slice());
        let q = chars_of(to_lowercase(trimmed.as_str()).as_str());
        assert(trim(query@).len() == 0 ==> q@.len() == 0);
        let n = self.mods.len();
        let mut kept: Vec<usize> = Vec::new();
        let mut i: usize = 0;
        while i < n
            invariant
                i <= n,
                n == self.mods@.len(),
                q@ == spec_query(query@),
                forall|x: usize| kept@.contains(x) <==> (x < i && self.keeps(filter, query@, x)),
                forall|p: int, s: int| 0 <= p < s < kept@.len() ==> #[trigger] kept@[p] < #[trigger] kept@[s],
                forall|p: int| 0 <= p < kept@.len() ==> #[trigger] kept@[p] < i,
            decreases n - i,
        {
            let m = &self.mods[i];
            let keep = filter.accepts(m) && (q.len() == 0 || contains_chars(
                &chars_of(to_lowercase(m.name.as_str()).as_str()),
                &q,
            ) || contains_chars(&chars_of(to_lowercase(m.owner.as_str()).as_str()), &q)
                || contains_chars(&chars_of(to_lowercase(m.description.as_str()).as_str()), &q));
            let ghost prev = kept@;
            if keep {
                kept.push(i);
            }
            proof {
                assert(keep == self.keeps(filter, query@, i));
                lemma_push_contains(prev, i);
                assert forall|x: usize| kept@.contains(x) <==> (x < i + 1 && self.keeps(filter, query@, x)) by {
                    assert(prev.contains(x) <==> (x < i && self.keeps(filter, query@, x)));
                    if x == i && prev.contains(x) {
                        let p = choose|p: int| 0 <= p < prev.len() && prev[p] == x;
                        assert(prev[p] < i);
                    }
                }
            }
            i += 1;
        }
        let order = self.root_order(sort);
        proof {
            assert(kept@.no_duplicates());
            assert forall|p: int| 0 <= p < kept@.len() implies order.valid(#[trigger] kept@[p]) by {
                assert(kept@[p] < n);
            }
        }
        let r = sort_positions(&order, kept.as_slice());
        proof {
            assert forall|x: usize| r@.contains(x) <==> self.keeps(filter, query@, x) by {
                assert(r@.to_set().contains(x) <==> kept@.to_set().contains(x));
            }
            assert forall|i: int, j: int|
                0 <= i < j < r@.len() implies root_before(self.mods@, sort, #[trigger] r@[i], #[trigger] r@[j]) by {
                assert(sorted_by(&order, r@));
                assert(order.before(r@[i], r@[j]));
                assert(order.valid(r@[i]) && order.valid(r@[j]));
            }
            self.lemma_root_list_unique(filter, query@, sort, r@);
        }
        r
    }

    /// The sort keys of every mod for the given order.
    fn root_order(&self, sort: Sort) -> (o: KeyedOrder)
        ensures
            o.nums@.len() == self.mods@.len(),
            o.texts@.len() == self.mods@.len(),
            o.names@.len() == self.mods@.len(),
            o.desc == (sort == Sort::Updated),
            forall|a: usize, b: usize|
                a < self.mods@.len() && b < self.mods@.len() ==> (o.before(a, b) <==> root_before(
                    self.mods@,
                    sort,
                    a,
                    b,
                )),
    {
        let n = self.mods.len();
        let mut nums: Vec<i128> = Vec::new();
        let mut texts: Vec<Vec<char>> = Vec::new();
        let mut names: Vec<Vec<char>> = Vec::new();
        let mut i: usize = 0;
        while i < n
            invariant
                i <= n,
                n == self.mods@.len(),
                nums@.len() == i,
                texts@.len() == i,
                names@.len() == i,
                forall|a: int| 0 <= a < i ==> #[trigger] nums@[a] as int == sort_num(sort, self.mods@[a]),
                forall|a: int| 0 <= a < i ==> #[trigger] texts@[a]@ == sort_text(sort, self.mods@[a]),
                forall|a: int| 0 <= a < i ==> #[trigger] names@[a]@ == self.mods@[a].full_name@,
            decreases n - i,
        {
            let m = &self.mods[i];
            let num: i128 = match sort {
                Sort::Downloads => -(m.downloads as i128),
                Sort::Rating => -(m.rating as i128),
                _ => 0,
            };
            let text: Vec<char> = match sort {
                Sort::Updated => chars_of(m.date_updated.as_str()),
                Sort::Name => chars_of(to_lowercase(m.name.as_str()).as_str()),
                _ => Vec::new(),
            };
            nums.push(num);
            texts.push(text);
            names.push(chars_of(m.full_name.as_str()));
            i += 1;
        }
        let desc = match sort {
            Sort::Updated => true,
            _ => false,
        };
        KeyedOrder { nums, texts, names, desc }
    }
}

/// The list order never puts an entry before itself.
pub proof fn lemma_root_before_irreflexive(mods: Seq<Mod>, sort: Sort, a: usize)
    ensures
        !root_before(mods, sort, a, a),
{
    lemma_lex_irreflexive(sort_text(sort, mods[a as int]));
    lemma_lex_irreflexive(mods[a as int].full_name@);
}

/// The list order is transitive.
pub proof fn lemma_root_before_transitive(mods: Seq<Mod>, sort: Sort, a: usize, b: usize, c: usize)
    requires
        root_before(mods, sort, a, b),
        root_before(mods, sort, b, c),
    ensures
        root_before(mods, sort, a, c),
{
    let (ta, tb, tc) = (sort_text(sort, mods[a as int]), sort_text(sort, mods[b as int]), sort_text(sort, mods[c as int]));
    let (fa, fb, fc) = (mods[a as int].full_name@, mods[b as int].full_name@, mods[c as int].full_name@);
    if lex_lt(ta, tb) && lex_lt(tb, tc) {
        lemma_lex_transitive(ta, tb, tc);
    }
    if lex_lt(tc, tb) && lex_lt(tb, ta) {
        lemma_lex_transitive(tc, tb, ta);
    }
    if lex_lt(fa, fb) && lex_lt(fb, fc) {
        lemma_lex_transitive(fa, fb, fc);
    }
}

impl Index {
    /// `r` lists exactly the kept mods, in list order.
    pub open spec fn is_root_list(&self, filter: Filter, query: Seq<char>, sort: Sort, r: Seq<usize>) -> bool {
        &&& forall|x: usize| r.contains(x) <==> self.keeps(filter, query, x)
        &&& forall|i: int, j: int| 0 <= i < j < r.len() ==> root_before(self.mods@, sort, #[trigger] r[i], #[trigger] r[j])
    }

    /// The root list for a filter, search text and sort; `roots` returns it.
    pub open spec fn spec_roots(&self, filter: Filter, query: Seq<char>, sort: Sort) -> Seq<usize> {
        choose|r: Seq<usize>| self.is_root_list(filter, query, sort, r)
    }

    /// Only one list is the root list.
    pub proof fn lemma_root_list_unique(&self, filter: Filter, query: Seq<char>, sort: Sort, r: Seq<usize>)
        requires
            self.is_root_list(filter, query, sort, r),
        ensures
            r == self.spec_roots(filter, query, sort),
    {
        let c = self.spec_roots(filter, query, sort);
        let mods = self.mods@;
        let before = |x: usize, y: usize| root_before(mods, sort, x, y);
        assert forall|x: usize| !#[trigger] before(x, x) by {
            lemma_root_before_irreflexive(mods, sort, x);
        }
        assert forall|x: usize, y: usize, z: usize| #[trigger] before(x, y) && #[trigger] before(y, z) implies before(x, z) by {
            lemma_root_before_transitive(mods, sort, x, y, z);
        }
        assert forall|i: int, j: int| 0 <= i < j < r.len() implies before(#[trigger] r[i], #[trigger] r[j]) by {}
        assert forall|i: int, j: int| 0 <= i < j < c.len() implies before(#[trigger] c[i], #[trigger] c[j]) by {}
        lemma_sorted_unique(r, c, before);
    }
}

/// Of two different positions, one is listed before the other.
pub proof fn lemma_root_before_total(mods: Seq<Mod>, sort: Sort, a: usize, b: usize)
    requires
        a != b,
    ensures
        root_before(mods, sort, a, b) || root_before(mods, sort, b, a),
{
    lemma_lex_total(sort_text(sort, mods[a as int]), sort_text(sort, mods[b as int]));
    lemma_lex_total(mods[a as int].full_name@, mods[b as int].full_name@);
}

/// The needle occurs in the text through an occurrence of a longer needle
/// that contains it.
proof fn lemma_contains_text_trans(hay: Seq<char>, mid: Seq<char>, needle: Seq<char>)
    requires
        contains_text(hay, mid),
        contains_text(mid, needle),
    ensures
        contains_text(hay, needle),
{
    let i = choose|i: int| crate::text::occurs_at(hay, mid, i);
    let j = choose|j: int| crate::text::occurs_at(mid, needle, j);
    assert(hay.subrange(i + j, i + j + needle.len()) =~= mid.subrange(j, j + needle.len()));
    assert(crate::text::occurs_at(hay, needle, i + j));
}

impl Index {
    /// Where position `n` goes in a list sorted by `sort`: every entry
    /// before the slot comes before `n`, every entry from it on after.
    proof fn lemma_slot(&self, sort: Sort, r: Seq<usize>, n: usize, i: int) -> (p: int)
        requires
            0 <= i <= r.len(),
            !r.contains(n),
            forall|a: int, b: int| 0 <= a < b < r.len() ==> root_before(self.mods@, sort, #[trigger] r[a], #[trigger] r[b]),
            forall|a: int| 0 <= a < i ==> root_before(self.mods@, sort, #[trigger] r[a], n),
        ensures
            i <= p <= r.len(),
            forall|a: int| 0 <= a < p ==> root_before(self.mods@, sort, #[trigger] r[a], n),
            forall|a: int| p <= a < r.len() ==> root_before(self.mods@, sort, n, #[trigger] r[a]),
        decreases r.len() - i,
    {
        if i == r.len() {
            i
        } else if root_before(self.mods@, sort, n, r[i]) {
            assert forall|a: int| i <= a < r.len() implies root_before(self.mods@, sort, n, #[trigger] r[a]) by {
                if a > i {
                    lemma_root_before_transitive(self.mods@, sort, n, r[i], r[a]);
                }
            }
            i
        } else {
            assert(r[i] != n);
            lemma_root_before_total(self.mods@, sort, r[i], n);
            self.lemma_slot(sort, r, n, i + 1)
        }
    }

    /// The kept positions below `n`, in list order.
    proof fn lemma_root_prefix(&self, filter: Filter, query: Seq<char>, sort: Sort, n: nat) -> (r: Seq<usize>)
        requires
            n <= self.mods@.len(),
        ensures
            forall|x: usize| r.contains(x) <==> (x < n && self.keeps(filter, query, x)),
            forall|a: int, b: int| 0 <= a < b < r.len() ==> root_before(self.mods@, sort, #[trigger] r[a], #[trigger] r[b]),
        decreases n,
    {
        if n == 0 {
            Seq::empty()
        } else {
            let r0 = self.lemma_root_prefix(filter, query, sort, (n - 1) as nat);
            let m = (n - 1) as usize;
            if n - 1 > usize::MAX {
                r0
            } else if !self.keeps(filter, query, m) {
                assert(m == n - 1);
                r0
            } else {
                assert(m == n - 1);
                assert(!r0.contains(m));
                let p = self.lemma_slot(sort, r0, m, 0);
                let r = r0.insert(p, m);
                assert forall|x: usize| r.contains(x) <==> (x < n && self.keeps(filter, query, x)) by {
                    if r.contains(x) {
                        let q = choose|q: int| 0 <= q < r.len() && r[q] == x;
                        if q < p {
                            assert(r0[q] == x);
                            assert(r0.contains(x));
                        } else if q > p {
                            assert(r0[q - 1] == x);
                            assert(r0.contains(x));
                        }
                    }
                    if x < n && self.keeps(filter, query, x) {
                        if x == m {
                            assert(r[p] == m);
                        } else {
                            assert(x < n - 1);
                            assert(r0.contains(x));
                            let q = choose|q: int| 0 <= q < r0.len() && r0[q] == x;
                            if q < p {
                                assert(r[q] == x);
                            } else {
                                assert(r[q + 1] == x);
                            }
                        }
                    }
                }
                assert forall|a: int, b: int| 0 <= a < b < r.len() implies root_before(self.mods@, sort, #[trigger] r[a], #[trigger] r[b]) by {
                    if b < p {
                        assert(r[a] == r0[a] && r[b] == r0[b]);
                    } else if b == p {
                        assert(r[a] == r0[a] && r[b] == m);
                    } else if a < p {
                        assert(r[a] == r0[a] && r[b] == r0[b - 1]);
                        if a < b - 1 {
                        } else {
                        }
                        assert(root_before(self.mods@, sort, r0[a], m));
                        assert(root_before(self.mods@, sort, m, r0[b - 1]));
                        lemma_root_before_transitive(self.mods@, sort, r0[a], m, r0[b - 1]);
                    } else if a == p {
                        assert(r[a] == m && r[b] == r0[b - 1]);
                    } else {
                        assert(r[a] == r0[a - 1] && r[b] == r0[b - 1]);
                    }
                }
                r
            }
        }
    }

    /// The root list exists: the kept mods, in list order.
    pub proof fn lemma_root_list_exists(&self, filter: Filter, query: Seq<char>, sort: Sort)
        ensures
            self.is_root_list(filter, query, sort, self.spec_roots(filter, query, sort)),
    {
        let r = self.lemma_root_prefix(filter, query, sort, self.mods@.len());
        assert(self.is_root_list(filter, query, sort, r));
    }

    /// A narrower search lists no root the wider one does not: when the
    /// (trimmed, lower-cased) search `q2` contains the search `q1`, every
    /// root listed for `q2` is listed for `q1`. And the sort never changes
    /// which roots are listed: two sorts list the same positions, each once,
    /// in as many entries.
    pub proof fn lemma_roots_narrow_and_reorder(&self, filter: Filter, q1: Seq<char>, q2: Seq<char>, s1: Sort, s2: Sort)
        ensures
            contains_text(spec_query(q2), spec_query(q1)) ==> forall|x: usize|
                #[trigger] self.spec_roots(filter, q2, s1).contains(x) ==> self.spec_roots(filter, q1, s1).contains(x),
            forall|x: usize|
                #[trigger] self.spec_roots(filter, q1, s1).contains(x) <==> self.spec_roots(filter, q1, s2).contains(x),
            self.spec_roots(filter, q1, s1).no_duplicates(),
            self.spec_roots(filter, q1, s2).no_duplicates(),
            self.spec_roots(filter, q1, s1).len() == self.spec_roots(filter, q1, s2).len(),
    {
        self.lemma_root_list_exists(filter, q1, s1);
        self.lemma_root_list_exists(filter, q2, s1);
        self.lemma_root_list_exists(filter, q1, s2);
        let a = self.spec_roots(filter, q1, s1);
        let b = self.spec_roots(filter, q1, s2);
        if contains_text(spec_query(q2), spec_query(q1)) {
            assert forall|x: usize| #[trigger] self.spec_roots(filter, q2, s1).contains(x) implies a.contains(x) by {
                let m = self.mods@[x as int];
                let (w2, w1) = (spec_query(q2), spec_query(q1));
                if w2.len() == 0 {
                    let j = choose|j: int| crate::text::occurs_at(w2, w1, j);
                    assert(w1.len() == 0);
                } else if contains_text(lowercase(m.name@), w2) {
                    lemma_contains_text_trans(lowercase(m.name@), w2, w1);
                } else if contains_text(lowercase(m.owner@), w2) {
                    lemma_contains_text_trans(lowercase(m.owner@), w2, w1);
                } else {
                    lemma_contains_text_trans(lowercase(m.description@), w2, w1);
                }
            }
        }
        let before1 = |x: usize, y: usize| root_before(self.mods@, s1, x, y);
        let before2 = |x: usize, y: usize| root_before(self.mods@, s2, x, y);
        assert(a.no_duplicates()) by {
            assert forall|i: int, j: int| 0 <= i < a.len() && 0 <= j < a.len() && i != j implies a[i] != a[j] by {
                if i < j {
                    assert(root_before(self.mods@, s1, a[i], a[j]));
                    lemma_root_before_irreflexive(self.mods@, s1, a[i]);
                } else {
                    assert(root_before(self.mods@, s1, a[j], a[i]));
                    lemma_root_before_irreflexive(self.mods@, s1, a[j]);
                }
            }
        }
        assert(b.no_duplicates()) by {
            assert forall|i: int, j: int| 0 <= i < b.len() && 0 <= j < b.len() && i != j implies b[i] != b[j] by {
                if i < j {
                    assert(root_before(self.mods@, s2, b[i], b[j]));
                    lemma_root_before_irreflexive(self.mods@, s2, b[i]);
                } else {
                    assert(root_before(self.mods@, s2, b[j], b[i]));
                    lemma_root_before_irreflexive(self.mods@, s2, b[j]);
                }
            }
        }
        a.unique_seq_to_set();
        b.unique_seq_to_set();
        assert(a.to_set() =~= b.to_set());
    }
}

} // verus!
