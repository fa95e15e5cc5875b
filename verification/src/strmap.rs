//! A string-keyed map with insertion-order entries, used for query
//! parameters, headers and cookies. Later insertions of an existing key
//! overwrite its value, and keys are unique, so the map view fully
//! describes the contents.

use vstd::prelude::*;

verus! {

use crate::strutil::str_eq;

/// The key/value texts of a sequence of owned string pairs.
pub open spec fn kv_of(v: Seq<(String, String)>) -> Seq<(Seq<char>, Seq<char>)> {
    Seq::new(v.len(), |i: int| (v[i].0@, v[i].1@))
}

/// The map described by a sequence of key/value pairs, later pairs winning.
pub open spec fn map_of_pairs(ps: Seq<(Seq<char>, Seq<char>)>) -> Map<Seq<char>, Seq<char>>
    decreases ps.len(),
{
    if ps.len() == 0 {
        Map::empty()
    } else {
        map_of_pairs(ps.drop_last()).insert(ps.last().0, ps.last().1)
    }
}

/// Unique keys: no two entries share a key.
pub open spec fn unique_keys(ps: Seq<(Seq<char>, Seq<char>)>) -> bool {
    forall|i: int, j: int| 0 <= i < j < ps.len() ==> (#[trigger] ps[i]).0 != (#[trigger] ps[j]).0
}

/// With unique keys, the map agrees with the entry sequence pointwise.
pub proof fn lemma_map_of_pairs(ps: Seq<(Seq<char>, Seq<char>)>)
    requires
        unique_keys(ps),
    ensures
        forall|k: Seq<char>|
            map_of_pairs(ps).contains_key(k) <==> exists|i: int|
                0 <= i < ps.len() && (#[trigger] ps[i]).0 == k,
        forall|i: int|
            0 <= i < ps.len() ==> map_of_pairs(ps)[(#[trigger] ps[i]).0] == ps[i].1,
    decreases ps.len(),
{
    if ps.len() > 0 {
        let head = ps.drop_last();
        let last = ps.last();
        let m = map_of_pairs(ps);
        assert(forall|i: int| 0 <= i < head.len() ==> #[trigger] head[i] == ps[i]);
        lemma_map_of_pairs(head);
        assert forall|k: Seq<char>| map_of_pairs(ps).contains_key(k) implies exists|i: int|
            0 <= i < ps.len() && (#[trigger] ps[i]).0 == k by {
            if k == last.0 {
                assert(ps[ps.len() - 1].0 == k);
            } else {
                assert(map_of_pairs(head).contains_key(k));
                let i = choose|i: int| 0 <= i < head.len() && (#[trigger] head[i]).0 == k;
                assert(ps[i].0 == k);
            }
        }
        assert forall|k: Seq<char>|
            (exists|i: int| 0 <= i < ps.len() && (#[trigger] ps[i]).0 == k) implies map_of_pairs(
            ps,
        ).contains_key(k) by {
            let i = choose|i: int| 0 <= i < ps.len() && (#[trigger] ps[i]).0 == k;
            if i < ps.len() - 1 {
                assert(head[i].0 == k);
                assert(map_of_pairs(head).contains_key(k));
            }
        }
        assert forall|i: int| 0 <= i < ps.len() implies map_of_pairs(ps)[(#[trigger] ps[i]).0]
            == ps[i].1 by {
            if i < ps.len() - 1 {
                assert(ps[i].0 != last.0);
                assert(head[i].0 == ps[i].0 && head[i].1 == ps[i].1);
                assert(map_of_pairs(head)[head[i].0] == head[i].1);
            }
        }
    }
}

/// An insertion-ordered map from strings to strings.
#[derive(Debug)]
pub struct StrMap {
    pairs: Vec<(String, String)>,
}

impl View for StrMap {
    type V = Map<Seq<char>, Seq<char>>;

    closed spec fn view(&self) -> Map<Seq<char>, Seq<char>> {
        map_of_pairs(kv_of(self.pairs@))
    }
}

impl StrMap {
    /// The entries, in order.
    pub closed spec fn kv(self) -> Seq<(Seq<char>, Seq<char>)> {
        kv_of(self.pairs@)
    }

    /// Keys are unique; the map view then fully determines the entries up
    /// to order.
    pub open spec fn wf(self) -> bool {
        unique_keys(self.kv())
    }

    /// The map view is exactly the fold of the entries.
    pub proof fn lemma_view_is_map(self)
        ensures
            self@ == map_of_pairs(self.kv()),
    {
    }

    pub proof fn lemma_view_kv(self)
        requires
            self.wf(),
        ensures
            forall|k: Seq<char>|
                self@.contains_key(k) <==> exists|i: int|
                    0 <= i < self.kv().len() && (#[trigger] self.kv()[i]).0 == k,
            forall|i: int|
                0 <= i < self.kv().len() ==> self@[(#[trigger] self.kv()[i]).0] == self.kv()[i].1,
    {
        lemma_map_of_pairs(self.kv());
    }

    pub fn new() -> (r: StrMap)
        ensures
            r@ == Map::<Seq<char>, Seq<char>>::empty(),
            r.kv() == Seq::<(Seq<char>, Seq<char>)>::empty(),
            r.wf(),
    {
        let r = StrMap { pairs: Vec::new() };
        proof {
            assert(r.kv() =~~= Seq::<(Seq<char>, Seq<char>)>::empty());
        }
        r
    }

    /// The entry pairs, for serialization.
    pub fn entries(&self) -> (r: &Vec<(String, String)>)
        ensures
            kv_of(r@) == self.kv(),
    {
        &self.pairs
    }

    pub fn len(&self) -> (r: usize)
        ensures
            r == self.kv().len(),
    {
        self.pairs.len()
    }

    pub fn is_empty(&self) -> (r: bool)
        requires
            self.wf(),
        ensures
            r == (self@ == Map::<Seq<char>, Seq<char>>::empty()),
    {
        proof {
            self.lemma_view_kv();
            if self.kv().len() > 0 {
                assert(self@.contains_key(self.kv()[0].0));
            } else {
                assert(self@ =~= Map::<Seq<char>, Seq<char>>::empty());
            }
        }
        self.pairs.len() == 0
    }

    /// Inserts, overwriting the value of an existing key.
    pub fn insert(&mut self, k: String, v: String)
        requires
            old(self).wf(),
        ensures
            final(self)@ == old(self)@.insert(k@, v@),
            final(self).wf(),
            old(self)@.contains_key(k@) ==> final(self).kv() == old(self).kv().update(
                key_index(old(self).kv(), k@),
                (k@, v@),
            ),
            !old(self)@.contains_key(k@) ==> final(self).kv() == old(self).kv().push((k@, v@)),
    {
        let ghost old_kv = self.kv();
        proof {
            assert(old_kv == old(self).kv());
            assert(unique_keys(old_kv));
        }
        let mut i: usize = 0;
        let n = self.pairs.len();
        while i < n
            invariant
                n == self.pairs@.len(),
                i <= n,
                forall|j: int| 0 <= j < i ==> (#[trigger] kv_of(self.pairs@)[j]).0 != k@,
                self.kv() == old_kv,
                unique_keys(old_kv),
                self == old(self),
            decreases n - i,
        {
            if str_eq(self.pairs[i].0.as_str(), k.as_str()) {
                let ghost new_kv = old_kv.update(i as int, (k@, v@));
                let mut out: Vec<(String, String)> = Vec::new();
                let mut j: usize = 0;
                while j < n
                    invariant
                        n == self.pairs@.len(),
                        j <= n,
                        i < n,
                        kv_of(self.pairs@) == old_kv,
                        new_kv == old_kv.update(i as int, (k@, v@)),
                        self.pairs@[i as int].0@ == k@,
                        out@.len() == j,
                        forall|m: int| 0 <= m < j ==> #[trigger] kv_of(out@)[m] == new_kv[m],
                    decreases n - j,
                {
                    let ghost old_out = out@;
                    if j == i {
                        out.push((k.clone(), v.clone()));
                    } else {
                        let kj = self.pairs[j].0.clone();
                        let vj = self.pairs[j].1.clone();
                        out.push((kj, vj));
                    }
                    j += 1;
                    proof {
                        assert forall|m: int| 0 <= m < j implies #[trigger] kv_of(out@)[m]
                            == new_kv[m] by {
                            assert(out@[m] == if m < j - 1 {
                                old_out[m]
                            } else {
                                out@[j - 1]
                            });
                            if m < j - 1 {
                                assert(kv_of(old_out)[m] == new_kv[m]);
                            } else {
                                if m == i {
                                    assert((out@[m].0@, out@[m].1@) == (k@, v@));
                                } else {
                                    assert(out@[m].0@ == self.pairs@[m].0@ && out@[m].1@
                                        == self.pairs@[m].1@);
                                    assert(kv_of(self.pairs@)[m] == old_kv[m]);
                                }
                            }
                        }
                    }
                }
                self.pairs = out;
                proof {
                    assert(kv_of(self.pairs@) =~= new_kv);
                    assert(old_kv[i as int].0 == k@);
                    lemma_map_of_pairs(old_kv);
                    assert(old(self)@.contains_key(k@));
                    lemma_key_index(old_kv, k@, i as int);
                    assert(unique_keys(new_kv)) by {
                        assert(forall|m: int|
                            0 <= m < new_kv.len() && m != i ==> #[trigger] new_kv[m] == old_kv[m]);
                    }
                    lemma_map_of_pairs(new_kv);
                    assert(map_of_pairs(new_kv) =~= map_of_pairs(old_kv).insert(k@, v@)) by {
                        assert(forall|m: int|
                            0 <= m < new_kv.len() && m != i ==> #[trigger] new_kv[m] == old_kv[m]);
                        assert(forall|kk: Seq<char>|
                            map_of_pairs(new_kv).contains_key(kk)
                                <==> map_of_pairs(old_kv).insert(k@, v@).contains_key(kk)) by {
                            assert forall|kk: Seq<char>|
                                map_of_pairs(new_kv).contains_key(kk) implies map_of_pairs(
                                old_kv,
                            ).insert(k@, v@).contains_key(kk) by {
                                let m = choose|m: int|
                                    0 <= m < new_kv.len() && (#[trigger] new_kv[m]).0 == kk;
                                if m != i {
                                    assert(old_kv[m].0 == kk);
                                }
                            }
                            assert forall|kk: Seq<char>|
                                map_of_pairs(old_kv).insert(k@, v@).contains_key(kk)
                                implies map_of_pairs(new_kv).contains_key(kk) by {
                                if kk == k@ {
                                    assert(new_kv[i as int].0 == kk);
                                } else {
                                    let m = choose|m: int|
                                        0 <= m < old_kv.len() && (#[trigger] old_kv[m]).0 == kk;
                                    assert(new_kv[m].0 == kk);
                                }
                            }
                        }
                        assert forall|kk: Seq<char>|
                            map_of_pairs(new_kv).contains_key(kk) implies map_of_pairs(new_kv)[kk]
                            == map_of_pairs(old_kv).insert(k@, v@)[kk] by {
                            let m = choose|m: int|
                                0 <= m < new_kv.len() && (#[trigger] new_kv[m]).0 == kk;
                            assert(map_of_pairs(new_kv)[new_kv[m].0] == new_kv[m].1);
                            if m == i {
                                assert(kk == k@);
                            } else {
                                assert(old_kv[m].0 == kk && old_kv[m].1 == new_kv[m].1);
                                assert(kk != k@);
                                assert(map_of_pairs(old_kv)[old_kv[m].0] == old_kv[m].1);
                            }
                        }
                    }
                }
                return ;
            }
            i += 1;
        }
        proof {
            lemma_map_of_pairs(old_kv);
            assert(!old(self)@.contains_key(k@));
        }
        self.pairs.push((k, v));
        proof {
            let new_kv = old_kv.push((k@, v@));
            assert(self.kv() =~~= new_kv);
            assert(unique_keys(new_kv)) by {
                assert(forall|m: int| 0 <= m < old_kv.len() ==> (#[trigger] new_kv[m]) == old_kv[m]);
            }
            assert(new_kv.drop_last() =~~= old_kv);
            assert(map_of_pairs(new_kv) == map_of_pairs(old_kv).insert(k@, v@));
        }
    }

    /// The value stored for a key, if any.
    pub fn get(&self, k: &str) -> (r: Option<&String>)
        requires
            self.wf(),
        ensures
            match r {
                Some(v) => self@.contains_key(k@) && v@ == self@[k@],
                None => !self@.contains_key(k@),
            },
    {
        proof {
            self.lemma_view_kv();
        }
        let mut i: usize = 0;
        let n = self.pairs.len();
        while i < n
            invariant
                self.wf(),
                n == self.pairs@.len(),
                i <= n,
                forall|j: int| 0 <= j < i ==> (#[trigger] self.kv()[j]).0 != k@,
            decreases n - i,
        {
            if str_eq(self.pairs[i].0.as_str(), k) {
                proof {
                    self.lemma_view_kv();
                    assert(self.kv()[i as int].0 == k@);
                }
                return Some(&self.pairs[i].1);
            }
            i += 1;
        }
        proof {
            self.lemma_view_kv();
        }
        None
    }

    /// Whether the map holds the key.
    pub fn contains_key(&self, k: &str) -> (r: bool)
        requires
            self.wf(),
        ensures
            r == self@.contains_key(k@),
    {
        match self.get(k) {
            Some(_) => true,
            None => false,
        }
    }
}

/// Index of the entry holding a key (meaningful under `unique_keys`).
pub open spec fn key_index(ps: Seq<(Seq<char>, Seq<char>)>, k: Seq<char>) -> int {
    choose|i: int| 0 <= i < ps.len() && (#[trigger] ps[i]).0 == k
}

proof fn lemma_key_index(ps: Seq<(Seq<char>, Seq<char>)>, k: Seq<char>, i: int)
    requires
        unique_keys(ps),
        0 <= i < ps.len(),
        ps[i].0 == k,
    ensures
        key_index(ps, k) == i,
{
    let j = key_index(ps, k);
    assert(0 <= j < ps.len() && ps[j].0 == k);
}

impl Clone for StrMap {
    /// An equal map: same entries in the same order.
    fn clone(&self) -> (r: Self)
        ensures
            r.kv() == self.kv(),
            r@ == self@,
            r.wf() == self.wf(),
    {
        let mut out: Vec<(String, String)> = Vec::new();
        let n = self.pairs.len();
        let mut i: usize = 0;
        while i < n
            invariant
                n == self.pairs@.len(),
                out@.len() == i <= n,
                forall|m: int| 0 <= m < i ==> #[trigger] kv_of(out@)[m] == kv_of(self.pairs@)[m],
            decreases n - i,
        {
            let ghost old_out = out@;
            let k = self.pairs[i].0.clone();
            let v = self.pairs[i].1.clone();
            out.push((k, v));
            i += 1;
            proof {
                assert forall|m: int| 0 <= m < i implies #[trigger] kv_of(out@)[m] == kv_of(
                    self.pairs@,
                )[m] by {
                    assert(out@[m] == if m < i - 1 {
                        old_out[m]
                    } else {
                        out@[i - 1]
                    });
                    if m < i - 1 {
                        assert(kv_of(old_out)[m] == kv_of(self.pairs@)[m]);
                    } else {
                        assert(out@[m].0@ == self.pairs@[m].0@ && out@[m].1@ == self.pairs@[m].1@);
                    }
                }
            }
        }
        proof {
            assert(kv_of(out@) =~= kv_of(self.pairs@));
        }
        StrMap { pairs: out }
    }
}

} // verus!
