//! Merge sort of position lists under a strict total order.
use vstd::prelude::*;
use crate::text::{chars_eq, lemma_lex_irreflexive, lemma_lex_total, lemma_lex_transitive, lemma_push_contains, lex_less, lex_lt};

verus! {

/// A strict total order on positions, with an executable comparison.
pub trait PositionOrder {
    /// The positions the order speaks of.
    spec fn valid(&self, a: usize) -> bool;

    /// `a` comes strictly before `b`.
    spec fn before(&self, a: usize, b: usize) -> bool;

    proof fn lemma_irreflexive(&self, a: usize)
        ensures
            !self.before(a, a),
    ;

    proof fn lemma_transitive(&self, a: usize, b: usize, c: usize)
        requires
            self.before(a, b),
            self.before(b, c),
        ensures
            self.before(a, c),
    ;

    proof fn lemma_total(&self, a: usize, b: usize)
        requires
            a != b,
        ensures
            self.before(a, b) || self.before(b, a),
    ;

    fn less(&self, a: usize, b: usize) -> (r: bool)
        requires
            self.valid(a),
            self.valid(b),
        ensures
            r == self.before(a, b),
    ;
}

/// Strictly increasing under the order.
pub open spec fn sorted_by<O: PositionOrder>(o: &O, s: Seq<usize>) -> bool {
    forall|i: int, j: int| 0 <= i < j < s.len() ==> o.before(#[trigger] s[i], #[trigger] s[j])
}

pub open spec fn all_valid<O: PositionOrder>(o: &O, s: Seq<usize>) -> bool {
    forall|i: int| 0 <= i < s.len() ==> o.valid(#[trigger] s[i])
}

/// The positions of `v`, sorted under the order.
pub fn sort_positions<O: PositionOrder>(o: &O, v: &[usize]) -> (r: Vec<usize>)
    requires
        all_valid(o, v@),
        v@.no_duplicates(),
    ensures
        sorted_by(o, r@),
        r@.to_set() == v@.to_set(),
        r@.len() == v@.len(),
        all_valid(o, r@),
    decreases v@.len(),
{
    let n = v.len();
    if n <= 1 {
        let mut r: Vec<usize> = Vec::new();
        if n == 1 {
            r.push(v[0]);
        }
        assert(r@ =~= v@);
        return r;
    }
    let mid = n / 2;
    let left = slice_positions(v, 0, mid);
    let right = slice_positions(v, mid, n);
    proof {
        assert(left@.no_duplicates());
        assert(right@.no_duplicates());
    }
    let a = sort_positions(o, left.as_slice());
    let b = sort_positions(o, right.as_slice());
    proof {
        assert(v@ =~= left@ + right@);
        assert forall|x: usize| a@.contains(x) implies !b@.contains(x) by {
            assert(a@.to_set().contains(x));
            assert(left@.contains(x));
            if b@.contains(x) {
                assert(b@.to_set().contains(x));
                assert(right@.contains(x));
                let p = choose|p: int| 0 <= p < left@.len() && left@[p] == x;
                let q = choose|q: int| 0 <= q < right@.len() && right@[q] == x;
                assert(v@[p] == v@[mid + q]);
            }
        }
    }
    let r = merge(o, &a, &b);
    proof {
        assert forall|x: usize| r@.to_set().contains(x) <==> v@.to_set().contains(x) by {
            if v@.contains(x) {
                let p = choose|p: int| 0 <= p < v@.len() && v@[p] == x;
                if p < mid {
                    assert(left@[p] == x);
                    assert(left@.to_set().contains(x));
                } else {
                    assert(right@[p - mid] == x);
                    assert(right@.to_set().contains(x));
                }
            }
            if r@.to_set().contains(x) {
                if a@.to_set().contains(x) {
                    assert(left@.contains(x));
                    let p = choose|p: int| 0 <= p < left@.len() && left@[p] == x;
                    assert(v@[p] == x);
                } else {
                    assert(b@.to_set().contains(x));
                    assert(right@.contains(x));
                    let p = choose|p: int| 0 <= p < right@.len() && right@[p] == x;
                    assert(v@[mid + p] == x);
                }
            }
        }
        assert(r@.to_set() =~= v@.to_set());
    }
    r
}

fn slice_positions(v: &[usize], from: usize, to: usize) -> (r: Vec<usize>)
    requires
        from <= to <= v@.len(),
    ensures
        r@ == v@.subrange(from as int, to as int),
{
    let mut r: Vec<usize> = Vec::new();
    let mut i = from;
    while i < to
        invariant
            from <= i <= to <= v@.len(),
            r@ == v@.subrange(from as int, i as int),
        decreases to - i,
    {
        r.push(v[i]);
        assert(r@ =~= v@.subrange(from as int, i + 1));
        i += 1;
    }
    r
}

/// Merges two sorted lists with no position in common.
fn merge<O: PositionOrder>(o: &O, a: &Vec<usize>, b: &Vec<usize>) -> (r: Vec<usize>)
    requires
        sorted_by(o, a@),
        sorted_by(o, b@),
        all_valid(o, a@),
        all_valid(o, b@),
        forall|x: usize| a@.contains(x) ==> !b@.contains(x),
    ensures
        sorted_by(o, r@),
        forall|x: usize| r@.to_set().contains(x) <==> (a@.to_set().contains(x) || b@.to_set().contains(x)),
        r@.len() == a@.len() + b@.len(),
        all_valid(o, r@),
{
    let mut r: Vec<usize> = Vec::new();
    let mut i: usize = 0;
    let mut j: usize = 0;
    while i < a.len() || j < b.len()
        invariant
            i <= a@.len(),
            j <= b@.len(),
            sorted_by(o, a@),
            sorted_by(o, b@),
            all_valid(o, a@),
            all_valid(o, b@),
            forall|x: usize| a@.contains(x) ==> !b@.contains(x),
            sorted_by(o, r@),
            all_valid(o, r@),
            r@.len() == i + j,
            forall|x: usize| r@.contains(x) <==> (a@.take(i as int).contains(x) || b@.take(j as int).contains(x)),
            r@.len() > 0 && i < a@.len() ==> o.before(r@.last(), a@[i as int]),
            r@.len() > 0 && j < b@.len() ==> o.before(r@.last(), b@[j as int]),
        decreases a@.len() + b@.len() - i - j,
    {
        let take_a = if i < a.len() && j < b.len() {
            o.less(a[i], b[j])
        } else {
            i < a.len()
        };
        let ghost prev = r@;
        let ghost old_i = i;
        let ghost old_j = j;
        let x = if take_a {
            a[i]
        } else {
            b[j]
        };
        proof {
            if i < a@.len() && j < b@.len() && !take_a {
                assert(a@[i as int] != b@[j as int]) by {
                    assert(a@.contains(a@[i as int]));
                    assert(b@.contains(b@[j as int]));
                }
                o.lemma_total(a@[i as int], b@[j as int]);
            }
        }
        r.push(x);
        proof {
            assert forall|p: int, q: int| 0 <= p < q < r@.len() implies o.before(#[trigger] r@[p], #[trigger] r@[q]) by {
                if q == r@.len() - 1 {
                    if p < prev.len() - 1 {
                        assert(o.before(prev[p], prev.last()));
                        o.lemma_transitive(prev[p], prev.last(), x);
                    } else {
                        assert(r@[p] == prev.last());
                    }
                } else {
                    assert(r@[p] == prev[p] && r@[q] == prev[q]);
                }
            }
        }
        if take_a {
            proof {
                assert(a@.take(i + 1) =~= a@.take(i as int).push(x));
                if i + 1 < a@.len() {
                    assert(o.before(a@[i as int], a@[i + 1]));
                }
            }
            i += 1;
        } else {
            proof {
                assert(b@.take(j + 1) =~= b@.take(j as int).push(x));
                if j + 1 < b@.len() {
                    assert(o.before(b@[j as int], b@[j + 1]));
                }
            }
            j += 1;
        }
        proof {
            lemma_push_contains(prev, x);
            lemma_push_contains(a@.take(old_i as int), x);
            lemma_push_contains(b@.take(old_j as int), x);
            if take_a {
                assert(b@.take(j as int) == b@.take(old_j as int));
                assert(a@.take(i as int) == a@.take(old_i as int).push(x));
            } else {
                assert(a@.take(i as int) == a@.take(old_i as int));
                assert(b@.take(j as int) == b@.take(old_j as int).push(x));
            }
            assert forall|y: usize| r@.contains(y) <==> (a@.take(i as int).contains(y) || b@.take(j as int).contains(y)) by {
                assert(prev.contains(y) <==> (a@.take(old_i as int).contains(y) || b@.take(old_j as int).contains(y)));
            }
        }
    }
    assert(a@.take(i as int) =~= a@);
    assert(b@.take(j as int) =~= b@);
    proof {
        assert forall|x: usize| r@.to_set().contains(x) <==> (a@.to_set().contains(x) || b@.to_set().contains(x)) by {}
    }
    r
}

/// Two lists that are strictly increasing under the same strict order and
/// hold the same elements are the same list.
pub proof fn lemma_sorted_unique(a: Seq<usize>, b: Seq<usize>, before: spec_fn(usize, usize) -> bool)
    requires
        forall|x: usize| !#[trigger] before(x, x),
        forall|x: usize, y: usize, z: usize| #[trigger] before(x, y) && #[trigger] before(y, z) ==> before(x, z),
        forall|i: int, j: int| 0 <= i < j < a.len() ==> before(#[trigger] a[i], #[trigger] a[j]),
        forall|i: int, j: int| 0 <= i < j < b.len() ==> before(#[trigger] b[i], #[trigger] b[j]),
        forall|x: usize| a.contains(x) <==> b.contains(x),
    ensures
        a == b,
    decreases a.len(),
{
    if a.len() == 0 {
        if b.len() > 0 {
            assert(b.contains(b[0]));
        }
        assert(a =~= b);
    } else {
        assert(a.contains(a[0]));
        assert(b.len() > 0);
        if a[0] != b[0] {
            assert(b.contains(b[0]));
            assert(a.contains(b[0]));
            let j = choose|j: int| 0 <= j < b.len() && b[j] == a[0];
            let k = choose|k: int| 0 <= k < a.len() && a[k] == b[0];
            assert(j > 0 && k > 0);
            assert(before(b[0], b[j]));
            assert(before(a[0], a[k]));
            assert(before(a[0], a[0]));
        }
        let (ta, tb) = (a.drop_first(), b.drop_first());
        assert forall|x: usize| ta.contains(x) <==> tb.contains(x) by {
            if ta.contains(x) {
                let i = choose|i: int| 0 <= i < ta.len() && ta[i] == x;
                assert(a[i + 1] == x);
                assert(before(a[0], a[i + 1]));
                assert(a.contains(x));
                let q = choose|q: int| 0 <= q < b.len() && b[q] == x;
                assert(q != 0);
                assert(tb[q - 1] == x);
            }
            if tb.contains(x) {
                let i = choose|i: int| 0 <= i < tb.len() && tb[i] == x;
                assert(b[i + 1] == x);
                assert(before(b[0], b[i + 1]));
                assert(b.contains(x));
                let q = choose|q: int| 0 <= q < a.len() && a[q] == x;
                assert(q != 0);
                assert(ta[q - 1] == x);
            }
        }
        assert forall|i: int, j: int| 0 <= i < j < ta.len() implies before(#[trigger] ta[i], #[trigger] ta[j]) by {
            assert(ta[i] == a[i + 1] && ta[j] == a[j + 1]);
        }
        assert forall|i: int, j: int| 0 <= i < j < tb.len() implies before(#[trigger] tb[i], #[trigger] tb[j]) by {
            assert(tb[i] == b[i + 1] && tb[j] == b[j + 1]);
        }
        lemma_sorted_unique(ta, tb, before);
        assert(a =~= seq![a[0]] + ta);
        assert(b =~= seq![b[0]] + tb);
    }
}

} // verus!

verus! {

/// Lexicographic order on (number, text, name, position); the text part runs
/// backwards when `desc` is set. Positions break every remaining tie, which is
/// what a stable sort of a list in position order gives.
pub open spec fn key_before(
    desc: bool,
    na: int,
    ta: Seq<char>,
    fa: Seq<char>,
    a: usize,
    nb: int,
    tb: Seq<char>,
    fb: Seq<char>,
    b: usize,
) -> bool {
    ||| na < nb
    ||| na == nb && (if desc { lex_lt(tb, ta) } else { lex_lt(ta, tb) })
    ||| na == nb && ta == tb && lex_lt(fa, fb)
    ||| na == nb && ta == tb && fa == fb && a < b
}

/// Per-position sort keys.
pub struct KeyedOrder {
    pub nums: Vec<i128>,
    pub texts: Vec<Vec<char>>,
    pub names: Vec<Vec<char>>,
    pub desc: bool,
}

impl KeyedOrder {
    pub open spec fn key_at_before(&self, a: usize, b: usize) -> bool {
        key_before(
            self.desc,
            self.nums@[a as int] as int,
            self.texts@[a as int]@,
            self.names@[a as int]@,
            a,
            self.nums@[b as int] as int,
            self.texts@[b as int]@,
            self.names@[b as int]@,
            b,
        )
    }
}

impl PositionOrder for KeyedOrder {
    open spec fn valid(&self, a: usize) -> bool {
        &&& a < self.nums@.len()
        &&& a < self.texts@.len()
        &&& a < self.names@.len()
    }

    open spec fn before(&self, a: usize, b: usize) -> bool {
        self.key_at_before(a, b)
    }

    proof fn lemma_irreflexive(&self, a: usize) {
        lemma_lex_irreflexive(self.texts@[a as int]@);
        lemma_lex_irreflexive(self.names@[a as int]@);
    }

    proof fn lemma_transitive(&self, a: usize, b: usize, c: usize) {
        let (ta, tb, tc) = (self.texts@[a as int]@, self.texts@[b as int]@, self.texts@[c as int]@);
        let (fa, fb, fc) = (self.names@[a as int]@, self.names@[b as int]@, self.names@[c as int]@);
        if lex_lt(ta, tb) && lex_lt(tb, tc) {
            lemma_lex_transitive(ta, tb, tc);
        }
        if lex_lt(tc, tb) && lex_lt(tb, ta) {
            lemma_lex_transitive(tc, tb, ta);
        }
        if lex_lt(fa, fb) && lex_lt(fb, fc) {
            lemma_lex_transitive(fa, fb, fc);
        }
    }

    proof fn lemma_total(&self, a: usize, b: usize) {
        lemma_lex_total(self.texts@[a as int]@, self.texts@[b as int]@);
        lemma_lex_total(self.names@[a as int]@, self.names@[b as int]@);
    }

    fn less(&self, a: usize, b: usize) -> (r: bool) {
        let (na, nb) = (self.nums[a], self.nums[b]);
        if na != nb {
            return na < nb;
        }
        let (ta, tb) = (&self.texts[a], &self.texts[b]);
        let t_less = if self.desc {
            lex_less(tb, ta)
        } else {
            lex_less(ta, tb)
        };
        if t_less {
            return true;
        }
        if !chars_eq(ta, tb) {
            return false;
        }
        let (fa, fb) = (&self.names[a], &self.names[b]);
        if lex_less(fa, fb) {
            return true;
        }
        chars_eq(fa, fb) && a < b
    }
}

} // verus!
