//! An owned header map with unique keys, backed by a vector of key/value
//! pairs kept in insertion order. The view is a `Map` from key characters to
//! value characters; the pair order is exposed separately so that the
//! response serializer can be given a deterministic contract.

use crate::strutil::str_eq;
use vstd::prelude::*;

verus! {

/// The mapping that a sequence of key/value pairs denotes: a later pair with
/// the same key overrides an earlier one.
pub open spec fn map_of(pairs: Seq<(Seq<char>, Seq<char>)>) -> Map<Seq<char>, Seq<char>>
    decreases pairs.len(),
{
    if pairs.len() == 0 {
        Map::empty()
    } else {
        map_of(pairs.drop_last()).insert(pairs.last().0, pairs.last().1)
    }
}

/// Some pair in `pairs` has key `k`.
pub open spec fn has_key(pairs: Seq<(Seq<char>, Seq<char>)>, k: Seq<char>) -> bool {
    exists|i: int| 0 <= i < pairs.len() && pairs[i].0 == k
}

/// No two pairs share a key.
pub open spec fn unique_keys(pairs: Seq<(Seq<char>, Seq<char>)>) -> bool {
    forall|i: int, j: int| 0 <= i < j < pairs.len() ==> pairs[i].0 != pairs[j].0
}

/// The domain of `map_of(pairs)` is exactly the keys of `pairs`.
pub proof fn lemma_map_of_domain(pairs: Seq<(Seq<char>, Seq<char>)>)
    ensures
        forall|k: Seq<char>| #[trigger] map_of(pairs).contains_key(k) <==> has_key(pairs, k),
    decreases pairs.len(),
{
    if pairs.len() == 0 {
    } else {
        lemma_map_of_domain(pairs.drop_last());
        assert forall|k: Seq<char>| #[trigger] map_of(pairs).contains_key(k) implies has_key(
            pairs,
            k,
        ) by {
            if k == pairs.last().0 {
                assert(pairs[pairs.len() - 1].0 == k);
            } else {
                assert(map_of(pairs.drop_last()).contains_key(k));
                assert(has_key(pairs.drop_last(), k));
                let i = choose|i: int|
                    0 <= i < pairs.drop_last().len() && pairs.drop_last()[i].0 == k;
                assert(pairs.drop_last()[i] == pairs[i]);
                assert(pairs[i].0 == k);
            }
        }
        assert forall|k: Seq<char>| has_key(pairs, k) implies #[trigger] map_of(
            pairs,
        ).contains_key(k) by {
            let i = choose|i: int| 0 <= i < pairs.len() && pairs[i].0 == k;
            if i < pairs.len() - 1 {
                assert(pairs.drop_last()[i] == pairs[i]);
                assert(has_key(pairs.drop_last(), k));
                assert(map_of(pairs.drop_last()).contains_key(k));
            } else {
                assert(k == pairs.last().0);
            }
        }
    }
}

/// Under unique keys, the mapping holds each pair's value at its key.
pub proof fn lemma_map_of_get(pairs: Seq<(Seq<char>, Seq<char>)>, i: int)
    requires
        unique_keys(pairs),
        0 <= i < pairs.len(),
    ensures
        map_of(pairs).contains_key(pairs[i].0),
        map_of(pairs)[pairs[i].0] == pairs[i].1,
    decreases pairs.len(),
{
    if i == pairs.len() - 1 {
    } else {
        assert(pairs[i].0 != pairs.last().0);
        assert(pairs.drop_last()[i] == pairs[i]);
        lemma_map_of_get(pairs.drop_last(), i);
    }
}

/// Updating the pair at an existing key denotes the same mapping as a `Map`
/// insertion at that key.
pub proof fn lemma_map_of_update(pairs: Seq<(Seq<char>, Seq<char>)>, i: int, v: Seq<char>)
    requires
        unique_keys(pairs),
        0 <= i < pairs.len(),
    ensures
        map_of(pairs.update(i, (pairs[i].0, v))) == map_of(pairs).insert(pairs[i].0, v),
    decreases pairs.len(),
{
    let updated = pairs.update(i, (pairs[i].0, v));
    if i == pairs.len() - 1 {
        assert(updated.drop_last() =~= pairs.drop_last());
        assert(map_of(updated) =~= map_of(pairs).insert(pairs[i].0, v));
    } else {
        assert(updated.drop_last() =~= pairs.drop_last().update(i, (pairs[i].0, v)));
        assert(pairs.drop_last()[i] == pairs[i]);
        lemma_map_of_update(pairs.drop_last(), i, v);
        assert(pairs[i].0 != pairs.last().0);
        assert(map_of(updated) =~= map_of(pairs).insert(pairs[i].0, v));
    }
}

/// An owned mapping from header names to header values, keys unique,
/// insertion order preserved.
#[derive(Debug)]
pub struct Headers {
    pairs: Vec<(String, String)>,
}

impl View for Headers {
    type V = Map<Seq<char>, Seq<char>>;

    open spec fn view(&self) -> Map<Seq<char>, Seq<char>> {
        map_of(self.seq_view())
    }
}

impl Headers {
    /// The key/value pairs in insertion order.
    pub closed spec fn seq_view(&self) -> Seq<(Seq<char>, Seq<char>)> {
        self.pairs.deep_view()
    }

    #[verifier::type_invariant]
    closed spec fn wf(&self) -> bool {
        unique_keys(self.seq_view())
    }

    /// An empty header map.
    pub fn new() -> (h: Headers)
        ensures
            h.seq_view() == Seq::<(Seq<char>, Seq<char>)>::empty(),
            h@ == Map::<Seq<char>, Seq<char>>::empty(),
    {
        let h = Headers { pairs: Vec::new() };
        proof {
            assert(h.seq_view() =~= Seq::<(Seq<char>, Seq<char>)>::empty());
        }
        h
    }

    /// How many entries the map holds.
    pub fn len(&self) -> (n: usize)
        ensures
            n == self.seq_view().len(),
    {
        self.pairs.len()
    }

    /// The entry at position `i` in insertion order.
    pub fn pair_at(&self, i: usize) -> (kv: &(String, String))
        requires
            i < self.seq_view().len(),
        ensures
            kv.0@ == self.seq_view()[i as int].0,
            kv.1@ == self.seq_view()[i as int].1,
    {
        &self.pairs[i]
    }

    /// Index of the pair holding key `k`, when one exists.
    fn lookup_index(&self, k: &str) -> (r: Option<usize>)
        ensures
            match r {
                Some(i) => i < self.seq_view().len() && self.seq_view()[i as int].0 == k@,
                None => !has_key(self.seq_view(), k@),
            },
    {
        let n = self.pairs.len();
        let mut i: usize = 0;
        while i < n
            invariant
                i <= n,
                n == self.seq_view().len(),
                n == self.pairs@.len(),
                forall|t: int| 0 <= t < i ==> self.seq_view()[t].0 != k@,
        decreases n - i,
        {
            if str_eq(self.pairs[i].0.as_str(), k) {
                return Some(i);
            }
            i += 1;
        }
        None
    }

    /// Whether the map holds key `k`.
    pub fn contains_key(&self, k: &str) -> (r: bool)
        ensures
            r == self@.contains_key(k@),
    {
        proof {
            lemma_map_of_domain(self.seq_view());
        }
        match self.lookup_index(k) {
            Some(_) => true,
            None => false,
        }
    }

    /// The value at key `k`, when the map holds that key.
    pub fn get<'a>(&'a self, k: &str) -> (r: Option<&'a String>)
        ensures
            match r {
                Some(v) => self@.contains_key(k@) && v@ == self@[k@],
                None => !self@.contains_key(k@),
            },
    {
        proof {
            use_type_invariant(self);
            lemma_map_of_domain(self.seq_view());
        }
        match self.lookup_index(k) {
            Some(i) => {
                proof {
                    lemma_map_of_get(self.seq_view(), i as int);
                }
                Some(&self.pairs[i].1)
            },
            None => None,
        }
    }

    /// Insert `k = v`: an existing entry with key `k` is overwritten in
    /// place, otherwise the pair is appended.
    pub fn insert(&mut self, k: String, v: String)
        ensures
            final(self)@ == old(self)@.insert(k@, v@),
            !has_key(old(self).seq_view(), k@) ==> final(self).seq_view() == old(
                self,
            ).seq_view().push((k@, v@)),
            has_key(old(self).seq_view(), k@) ==> final(self).seq_view().len() == old(
                self,
            ).seq_view().len(),
    {
        proof {
            use_type_invariant(&*self);
        }
        let ghost old_sv = self.seq_view();
        let idx = self.lookup_index(k.as_str());
        let mut pairs: Vec<(String, String)> = Vec::new();
        core::mem::swap(&mut pairs, &mut self.pairs);
        proof {
            assert(self.seq_view() =~= Seq::<(Seq<char>, Seq<char>)>::empty());
        }
        match idx {
            Some(i) => {
                pairs[i] = (k, v);
                proof {
                    let dv = pairs.deep_view();
                    assert(dv =~= old_sv.update(i as int, (k@, v@)));
                    assert(old_sv.update(i as int, (k@, v@)) == old_sv.update(
                        i as int,
                        (old_sv[i as int].0, v@),
                    ));
                    lemma_map_of_update(old_sv, i as int, v@);
                    assert forall|a: int, b: int| 0 <= a < b < dv.len() implies dv[a].0
                        != dv[b].0 by {
                        assert(dv[a].0 == old_sv[a].0);
                        assert(dv[b].0 == old_sv[b].0);
                    }
                }
                self.pairs = pairs;
            },
            None => {
                proof {
                    lemma_map_of_domain(old_sv);
                }
                pairs.push((k, v));
                proof {
                    let dv = pairs.deep_view();
                    assert(dv =~= old_sv.push((k@, v@)));
                    assert(dv.drop_last() =~= old_sv);
                    assert(dv.last() == (k@, v@));
                    assert forall|a: int, b: int| 0 <= a < b < dv.len() implies dv[a].0
                        != dv[b].0 by {
                        assert(dv[a].0 == old_sv[a].0);
                        if b < dv.len() - 1 {
                            assert(dv[b].0 == old_sv[b].0);
                        } else {
                            assert(!has_key(old_sv, k@));
                        }
                    }
                }
                self.pairs = pairs;
            },
        }
    }
}

impl PartialEq for Headers {
    /// Two header maps are equal when they denote the same mapping,
    /// whatever the insertion order was.
    fn eq(&self, other: &Headers) -> (r: bool) {
        proof {
            use_type_invariant(self);
            use_type_invariant(other);
            lemma_map_of_domain(self.seq_view());
            lemma_map_of_domain(other.seq_view());
        }
        let n = self.pairs.len();
        let mut i: usize = 0;
        while i < n
            invariant
                i <= n,
                n == self.seq_view().len(),
                n == self.pairs@.len(),
                unique_keys(self.seq_view()),
                forall|t: int|
                    0 <= t < i ==> #[trigger] other@.contains_key(self.seq_view()[t].0)
                        && other@[self.seq_view()[t].0] == self.seq_view()[t].1,
            decreases n - i,
        {
            proof {
                lemma_map_of_get(self.seq_view(), i as int);
            }
            match other.get(self.pairs[i].0.as_str()) {
                Some(v) => {
                    if !str_eq(v.as_str(), self.pairs[i].1.as_str()) {
                        proof {
                            assert(self@[self.seq_view()[i as int].0] == self.seq_view()[
                                i as int
                            ].1);
                        }
                        return false;
                    }
                },
                None => {
                    return false;
                },
            }
            i += 1;
        }
        let m = other.pairs.len();
        let mut j: usize = 0;
        while j < m
            invariant
                j <= m,
                m == other.seq_view().len(),
                m == other.pairs@.len(),
                unique_keys(self.seq_view()),
                unique_keys(other.seq_view()),
                forall|t: int|
                    0 <= t < self.seq_view().len() ==> #[trigger] other@.contains_key(
                        self.seq_view()[t].0,
                    ) && other@[self.seq_view()[t].0] == self.seq_view()[t].1,
                forall|t: int|
                    0 <= t < j ==> #[trigger] self@.contains_key(other.seq_view()[t].0),
            decreases m - j,
        {
            if !self.contains_key(other.pairs[j].0.as_str()) {
                proof {
                    lemma_map_of_get(other.seq_view(), j as int);
                }
                return false;
            }
            j += 1;
        }
        proof {
            lemma_map_of_domain(self.seq_view());
            lemma_map_of_domain(other.seq_view());
            assert(self@ =~= other@) by {
                assert forall|k: Seq<char>| #[trigger] self@.contains_key(k) implies other@
                    .contains_key(k) && self@[k] == other@[k] by {
                    assert(has_key(self.seq_view(), k));
                    let t = choose|t: int|
                        0 <= t < self.seq_view().len() && self.seq_view()[t].0 == k;
                    lemma_map_of_get(self.seq_view(), t);
                    assert(other@.contains_key(self.seq_view()[t].0));
                    assert(other@[self.seq_view()[t].0] == self.seq_view()[t].1);
                }
                assert forall|k: Seq<char>| #[trigger] other@.contains_key(k) implies self@
                    .contains_key(k) by {
                    assert(has_key(other.seq_view(), k));
                    let t = choose|t: int|
                        0 <= t < other.seq_view().len() && other.seq_view()[t].0 == k;
                    assert(self@.contains_key(other.seq_view()[t].0));
                }
            }
        }
        true
    }
}

impl vstd::std_specs::cmp::PartialEqSpecImpl for Headers {
    open spec fn obeys_eq_spec() -> bool {
        true
    }

    open spec fn eq_spec(&self, other: &Headers) -> bool {
        self@ == other@
    }
}

} // verus!
