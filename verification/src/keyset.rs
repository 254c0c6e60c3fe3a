//! A set of text keys, such as the expanded tree nodes or the chosen mods.
use vstd::prelude::*;
use crate::text::views;

verus! {

/// A finite set of strings, kept as a list without repeats.
pub struct KeySet {
    items: Vec<String>,
}

impl View for KeySet {
    type V = Set<Seq<char>>;

    closed spec fn view(&self) -> Set<Seq<char>> {
        views(self.items@).to_set()
    }
}

impl KeySet {
    #[verifier::type_invariant]
    closed spec fn wf(&self) -> bool {
        views(self.items@).no_duplicates()
    }

    pub fn new() -> (r: KeySet)
        ensures
            r@ == Set::<Seq<char>>::empty(),
    {
        let r = KeySet { items: Vec::new() };
        assert(views(r.items@).to_set() =~= Set::<Seq<char>>::empty());
        r
    }

    /// Position of the key in the list, if present.
    fn position(&self, key: &str) -> (r: Option<usize>)
        ensures
            r matches Some(i) ==> i < self.items@.len() && self.items@[i as int]@ == key@,
            r is None ==> !self@.contains(key@),
    {
        let k = String::from_str(key);
        let mut i: usize = 0;
        while i < self.items.len()
            invariant
                i <= self.items@.len(),
                k@ == key@,
                forall|j: int| 0 <= j < i ==> self.items@[j]@ != key@,
            decreases self.items.len() - i,
        {
            if self.items[i] == k {
                return Some(i);
            }
            i += 1;
        }
        proof {
            if self@.contains(key@) {
                let j = choose|j: int| 0 <= j < self.items@.len() && views(self.items@)[j] == key@;
                assert(self.items@[j]@ == key@);
            }
        }
        None
    }

    pub fn contains(&self, key: &str) -> (r: bool)
        ensures
            r == self@.contains(key@),
    {
        match self.position(key) {
            Some(i) => {
                assert(views(self.items@)[i as int] == key@);
                true
            },
            None => false,
        }
    }

    /// Adds a key; true when it was not there before.
    pub fn insert(&mut self, key: String) -> (r: bool)
        ensures
            r == !old(self)@.contains(key@),
            final(self)@ == old(self)@.insert(key@),
    {
        proof {
            use_type_invariant(&*self);
        }
        if self.contains(key.as_str()) {
            assert(self@.insert(key@) =~= self@);
            return false;
        }
        let ghost old_views = views(self.items@);
        let mut items = Vec::new();
        std::mem::swap(&mut items, &mut self.items);
        items.push(key);
        proof {
            assert(views(items@) =~= old_views.push(key@));
            assert(views(items@).no_duplicates()) by {
                assert forall|i: int, j: int|
                    0 <= i < views(items@).len() && 0 <= j < views(items@).len() && i != j
                    implies views(items@)[i] != views(items@)[j] by {
                    if i == old_views.len() as int {
                        assert(old_views.contains(views(items@)[j]));
                    } else if j == old_views.len() as int {
                        assert(old_views.contains(views(items@)[i]));
                    }
                }
            }
            assert(views(items@).to_set() =~= old_views.to_set().insert(key@)) by {
                assert forall|s: Seq<char>| views(items@).to_set().contains(s) <==> old_views.to_set().insert(key@).contains(s) by {
                    if views(items@).contains(s) {
                        let q = choose|q: int| 0 <= q < views(items@).len() && views(items@)[q] == s;
                        if q < old_views.len() {
                            assert(old_views[q] == s);
                        }
                    }
                    if old_views.contains(s) {
                        let q = choose|q: int| 0 <= q < old_views.len() && old_views[q] == s;
                        assert(views(items@)[q] == s);
                    }
                    if s == key@ {
                        assert(views(items@)[old_views.len() as int] == s);
                    }
                }
            }
        }
        self.items = items;
        true
    }

    /// Removes a key; true when it was there.
    pub fn remove(&mut self, key: &str) -> (r: bool)
        ensures
            r == old(self)@.contains(key@),
            final(self)@ == old(self)@.remove(key@),
    {
        proof {
            use_type_invariant(&*self);
        }
        match self.position(key) {
            None => {
                assert(self@.remove(key@) =~= self@);
                false
            },
            Some(i) => {
                let ghost old_views = views(self.items@);
                assert(old_views[i as int] == key@);
                let mut items = Vec::new();
                std::mem::swap(&mut items, &mut self.items);
                let _gone = items.remove(i);
                proof {
                    assert(views(items@) =~= old_views.remove(i as int));
                    assert(views(items@).no_duplicates()) by {
                        assert forall|a: int, b: int|
                            0 <= a < views(items@).len() && 0 <= b < views(items@).len() && a != b
                            implies views(items@)[a] != views(items@)[b] by {
                            let a2 = if a < i { a } else { a + 1 };
                            let b2 = if b < i { b } else { b + 1 };
                            assert(views(items@)[a] == old_views[a2]);
                            assert(views(items@)[b] == old_views[b2]);
                        }
                    }
                    assert(views(items@).to_set() =~= old_views.to_set().remove(key@)) by {
                        assert forall|s: Seq<char>| views(items@).to_set().contains(s) <==> old_views.to_set().remove(key@).contains(s) by {
                            if views(items@).contains(s) {
                                let q = choose|q: int| 0 <= q < views(items@).len() && views(items@)[q] == s;
                                let q2 = if q < i { q } else { q + 1 };
                                assert(old_views[q2] == s);
                                assert(q2 != i);
                            }
                            if old_views.contains(s) && s != key@ {
                                let q = choose|q: int| 0 <= q < old_views.len() && old_views[q] == s;
                                assert(q != i);
                                if q < i {
                                    assert(views(items@)[q] == s);
                                } else {
                                    assert(views(items@)[q - 1] == s);
                                }
                            }
                        }
                    }
                }
                self.items = items;
                true
            },
        }
    }

    pub fn len(&self) -> (r: usize)
        ensures
            r == self@.len(),
    {
        proof {
            use_type_invariant(self);
            views(self.items@).unique_seq_to_set();
        }
        self.items.len()
    }

    pub fn is_empty(&self) -> (r: bool)
        ensures
            r == (self@.len() == 0),
    {
        self.len() == 0
    }

    pub fn clear(&mut self)
        ensures
            final(self)@ == Set::<Seq<char>>::empty(),
    {
        self.items = Vec::new();
        assert(views(self.items@).to_set() =~= Set::<Seq<char>>::empty());
    }

    /// The keys, each once, in no particular order.
    pub fn keys(&self) -> (r: &Vec<String>)
        ensures
            views(r@).to_set() == self@,
            views(r@).no_duplicates(),
    {
        proof {
            use_type_invariant(self);
        }
        &self.items
    }
}

} // verus!
