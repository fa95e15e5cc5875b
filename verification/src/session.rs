//! The session table: one owned map from session identifiers to session
//! state, touched on every contact and swept of idle entries on a fixed
//! window. The caller provides every timestamp, so the table's behaviour
//! is exact for any clock.

use vstd::prelude::*;

verus! {

use crate::strmap::StrMap;
use crate::strutil::{str_eq, str_to_string};

/// Seconds a session may sit idle before a sweep evicts it.
pub const SESSION_IDLE_SECONDS: i64 = 900;

/// One session's state: its data and the moment it was last touched.
#[derive(Debug)]
pub struct SessionData {
    pub data: StrMap,
    pub last_accessed: i64,
}

/// The mathematical content of one session.
pub ghost struct SessionView {
    pub data: Map<Seq<char>, Seq<char>>,
    pub last_accessed: int,
}

impl View for SessionData {
    type V = SessionView;

    open spec fn view(&self) -> SessionView {
        SessionView { data: self.data@, last_accessed: self.last_accessed as int }
    }
}

impl SessionData {
    pub open spec fn wf(self) -> bool {
        self.data.wf()
    }
}

impl Clone for SessionData {
    /// An equal session.
    fn clone(&self) -> (r: Self)
        ensures
            r@ == self@,
            r.wf() == self.wf(),
    {
        SessionData { data: self.data.clone(), last_accessed: self.last_accessed }
    }
}

/// The id/session pairs of an entry list.
pub open spec fn skv_of(v: Seq<(String, SessionData)>) -> Seq<(Seq<char>, SessionView)> {
    Seq::new(v.len(), |i: int| (v[i].0@, v[i].1@))
}

/// The map described by an entry list, later entries winning.
pub open spec fn smap_of(ps: Seq<(Seq<char>, SessionView)>) -> Map<Seq<char>, SessionView>
    decreases ps.len(),
{
    if ps.len() == 0 {
        Map::empty()
    } else {
        smap_of(ps.drop_last()).insert(ps.last().0, ps.last().1)
    }
}

/// No two entries share an identifier.
pub open spec fn s_unique(ps: Seq<(Seq<char>, SessionView)>) -> bool {
    forall|i: int, j: int| 0 <= i < j < ps.len() ==> (#[trigger] ps[i]).0 != (#[trigger] ps[j]).0
}

/// With unique identifiers, the map agrees with the entry list pointwise.
pub proof fn lemma_smap_of(ps: Seq<(Seq<char>, SessionView)>)
    requires
        s_unique(ps),
    ensures
        forall|k: Seq<char>|
            smap_of(ps).contains_key(k) <==> exists|i: int|
                0 <= i < ps.len() && (#[trigger] ps[i]).0 == k,
        forall|i: int| 0 <= i < ps.len() ==> smap_of(ps)[(#[trigger] ps[i]).0] == ps[i].1,
    decreases ps.len(),
{
    if ps.len() > 0 {
        let head = ps.drop_last();
        let last = ps.last();
        assert(forall|i: int| 0 <= i < head.len() ==> #[trigger] head[i] == ps[i]);
        lemma_smap_of(head);
        assert forall|k: Seq<char>| smap_of(ps).contains_key(k) implies exists|i: int|
            0 <= i < ps.len() && (#[trigger] ps[i]).0 == k by {
            if k == last.0 {
                assert(ps[ps.len() - 1].0 == k);
            } else {
                assert(smap_of(head).contains_key(k));
                let i = choose|i: int| 0 <= i < head.len() && (#[trigger] head[i]).0 == k;
                assert(ps[i].0 == k);
            }
        }
        assert forall|k: Seq<char>|
            (exists|i: int| 0 <= i < ps.len() && (#[trigger] ps[i]).0 == k) implies smap_of(
            ps,
        ).contains_key(k) by {
            let i = choose|i: int| 0 <= i < ps.len() && (#[trigger] ps[i]).0 == k;
            if i < ps.len() - 1 {
                assert(head[i].0 == k);
                assert(smap_of(head).contains_key(k));
            }
        }
        assert forall|i: int| 0 <= i < ps.len() implies smap_of(ps)[(#[trigger] ps[i]).0]
            == ps[i].1 by {
            if i < ps.len() - 1 {
                assert(ps[i].0 != last.0);
                assert(head[i].0 == ps[i].0 && head[i].1 == ps[i].1);
                assert(smap_of(head)[head[i].0] == head[i].1);
            }
        }
    }
}

/// The process-wide session table.
#[derive(Debug)]
pub struct SessionTable {
    entries: Vec<(String, SessionData)>,
}

impl View for SessionTable {
    type V = Map<Seq<char>, SessionView>;

    closed spec fn view(&self) -> Map<Seq<char>, SessionView> {
        smap_of(skv_of(self.entries@))
    }
}

impl SessionTable {
    /// The entries, in order.
    pub closed spec fn kv(self) -> Seq<(Seq<char>, SessionView)> {
        skv_of(self.entries@)
    }

    /// Each entry's data map is well-formed.
    pub closed spec fn data_wf(self) -> bool {
        forall|i: int| 0 <= i < self.entries@.len() ==> (#[trigger] self.entries@[i]).1.data.wf()
    }

    /// Identifiers are unique and each session's data is well-formed.
    pub open spec fn wf(self) -> bool {
        s_unique(self.kv()) && self.data_wf()
    }

    pub proof fn lemma_view_kv(self)
        requires
            self.wf(),
        ensures
            forall|k: Seq<char>|
                self@.contains_key(k) <==> exists|i: int|
                    0 <= i < self.kv().len() && (#[trigger] self.kv()[i]).0 == k,
            forall|i: int|
                0 <= i < self.kv().len() ==> self@[(#[trigger] self.kv()[i]).0] == self.kv()[i].1,
    {
        lemma_smap_of(self.kv());
    }

    /// An empty table.
    pub fn new() -> (r: SessionTable)
        ensures
            r@ == Map::<Seq<char>, SessionView>::empty(),
            r.kv() == Seq::<(Seq<char>, SessionView)>::empty(),
            r.wf(),
    {
        let r = SessionTable { entries: Vec::new() };
        proof {
            assert(r.kv() =~~= Seq::<(Seq<char>, SessionView)>::empty());
        }
        r
    }

    pub fn len(&self) -> (r: usize)
        ensures
            r == self.kv().len(),
    {
        self.entries.len()
    }

    /// The session stored under an identifier, if any.
    pub fn get(&self, id: &str) -> (r: Option<&SessionData>)
        requires
            self.wf(),
        ensures
            match r {
                Some(s) => self@.contains_key(id@) && s@ == self@[id@] && s.wf(),
                None => !self@.contains_key(id@),
            },
    {
        proof {
            self.lemma_view_kv();
        }
        let mut i: usize = 0;
        let n = self.entries.len();
        while i < n
            invariant
                self.wf(),
                n == self.entries@.len(),
                i <= n,
                forall|j: int| 0 <= j < i ==> (#[trigger] self.kv()[j]).0 != id@,
            decreases n - i,
        {
            if str_eq(self.entries[i].0.as_str(), id) {
                proof {
                    self.lemma_view_kv();
                    assert(self.kv()[i as int].0 == id@);
                }
                return Some(&self.entries[i].1);
            }
            i += 1;
        }
        proof {
            self.lemma_view_kv();
        }
        None
    }

    /// Whether the table holds the identifier.
    pub fn contains(&self, id: &str) -> (r: bool)
        requires
            self.wf(),
        ensures
            r == self@.contains_key(id@),
    {
        match self.get(id) {
            Some(_) => true,
            None => false,
        }
    }

    /// Stores a session, overwriting the one under the same identifier.
    #[verifier::rlimit(100)]
    pub fn insert_session(&mut self, id: String, s: SessionData)
        requires
            old(self).wf(),
            s.wf(),
        ensures
            final(self)@ == old(self)@.insert(id@, s@),
            final(self).wf(),
    {
        let ghost old_kv = self.kv();
        proof {
            assert(old_kv == old(self).kv());
            assert(s_unique(old_kv));
        }
        let mut i: usize = 0;
        let n = self.entries.len();
        while i < n
            invariant
                n == self.entries@.len(),
                i <= n,
                forall|j: int| 0 <= j < i ==> (#[trigger] skv_of(self.entries@)[j]).0 != id@,
                self.kv() == old_kv,
                s_unique(old_kv),
                s.wf(),
                old(self).data_wf(),
                self == old(self),
            decreases n - i,
        {
            if str_eq(self.entries[i].0.as_str(), id.as_str()) {
                let ghost new_kv = old_kv.update(i as int, (id@, s@));
                let mut out: Vec<(String, SessionData)> = Vec::new();
                let mut j: usize = 0;
                while j < n
                    invariant
                        n == self.entries@.len(),
                        j <= n,
                        i < n,
                        self == old(self),
                        old(self).data_wf(),
                        s.wf(),
                        skv_of(self.entries@) == old_kv,
                        new_kv == old_kv.update(i as int, (id@, s@)),
                        self.entries@[i as int].0@ == id@,
                        out@.len() == j,
                        forall|m: int| 0 <= m < j ==> #[trigger] skv_of(out@)[m] == new_kv[m],
                        forall|m: int| 0 <= m < j ==> (#[trigger] out@[m]).1.data.wf(),
                    decreases n - j,
                {
                    let ghost old_out = out@;
                    if j == i {
                        let di = s.data.clone();
                        proof {
                            assert(di.wf());
                        }
                        let element = (id.clone(), SessionData { data: di, last_accessed: s.last_accessed });
                        proof {
                            assert(element.1.data.wf());
                        }
                        out.push(element);
                        proof {
                            assert(out@[out@.len() - 1].1.data.wf());
                        }
                    } else {
                        let kj = self.entries[j].0.clone();
                        let vj = self.entries[j].1.clone();
                        proof {
                            assert(old(self).data_wf());
                            assert(self.entries@[j as int].1.data.wf());
                            assert(vj.data.wf());
                        }
                        out.push((kj, vj));
                        proof {
                            assert(out@[out@.len() - 1].1.data.wf());
                        }
                    }
                    j += 1;
                    proof {
                        assert forall|m: int| 0 <= m < j implies (#[trigger] out@[m]).1.data.wf() by {
                            assert(out@[m] == if m < j - 1 {
                                old_out[m]
                            } else {
                                out@[j - 1]
                            });
                        }
                        assert forall|m: int| 0 <= m < j implies #[trigger] skv_of(out@)[m]
                            == new_kv[m] by {
                            assert(out@[m] == if m < j - 1 {
                                old_out[m]
                            } else {
                                out@[j - 1]
                            });
                            if m < j - 1 {
                                assert(skv_of(old_out)[m] == new_kv[m]);
                            } else {
                                if m == i {
                                    assert((out@[m].0@, out@[m].1@) == (id@, s@));
                                } else {
                                    assert(out@[m].0@ == self.entries@[m].0@ && out@[m].1@
                                        == self.entries@[m].1@);
                                    assert(skv_of(self.entries@)[m] == old_kv[m]);
                                }
                            }
                        }
                    }
                }
                self.entries = out;
                proof {
                    assert(skv_of(self.entries@) =~= new_kv);
                    assert(old_kv[i as int].0 == id@);
                    lemma_smap_of(old_kv);
                    assert(s_unique(new_kv)) by {
                        assert(forall|m: int|
                            0 <= m < new_kv.len() && m != i ==> #[trigger] new_kv[m] == old_kv[m]);
                    }
                    assert(final(self).data_wf());
                    lemma_smap_of(new_kv);
                    assert(smap_of(new_kv) =~= smap_of(old_kv).insert(id@, s@)) by {
                        assert(forall|m: int|
                            0 <= m < new_kv.len() && m != i ==> #[trigger] new_kv[m] == old_kv[m]);
                        assert forall|kk: Seq<char>|
                            smap_of(new_kv).contains_key(kk) implies smap_of(old_kv).insert(
                            id@,
                            s@,
                        ).contains_key(kk) by {
                            let m = choose|m: int|
                                0 <= m < new_kv.len() && (#[trigger] new_kv[m]).0 == kk;
                            if m != i {
                                assert(old_kv[m].0 == kk);
                            }
                        }
                        assert forall|kk: Seq<char>|
                            smap_of(old_kv).insert(id@, s@).contains_key(kk) implies smap_of(
                            new_kv,
                        ).contains_key(kk) by {
                            if kk == id@ {
                                assert(new_kv[i as int].0 == kk);
                            } else {
                                let m = choose|m: int|
                                    0 <= m < old_kv.len() && (#[trigger] old_kv[m]).0 == kk;
                                assert(new_kv[m].0 == kk);
                            }
                        }
                        assert forall|kk: Seq<char>|
                            smap_of(new_kv).contains_key(kk) implies smap_of(new_kv)[kk]
                            == smap_of(old_kv).insert(id@, s@)[kk] by {
                            let m = choose|m: int|
                                0 <= m < new_kv.len() && (#[trigger] new_kv[m]).0 == kk;
                            assert(smap_of(new_kv)[new_kv[m].0] == new_kv[m].1);
                            if m == i {
                                assert(kk == id@);
                            } else {
                                assert(old_kv[m].0 == kk && old_kv[m].1 == new_kv[m].1);
                                assert(kk != id@);
                                assert(smap_of(old_kv)[old_kv[m].0] == old_kv[m].1);
                            }
                        }
                    }
                }
                return ;
            }
            i += 1;
        }
        proof {
            lemma_smap_of(old_kv);
            assert(!old(self)@.contains_key(id@));
        }
        self.entries.push((id, s));
        proof {
            let new_kv = old_kv.push((id@, s@));
            assert(self.kv() =~~= new_kv);
            assert(s_unique(new_kv)) by {
                assert(forall|m: int| 0 <= m < old_kv.len() ==> (#[trigger] new_kv[m]) == old_kv[m]);
            }
            assert(new_kv.drop_last() =~~= old_kv);
            assert(final(self).data_wf());
            assert(smap_of(new_kv) == smap_of(old_kv).insert(id@, s@));
        }
    }

    /// Refreshes the timestamp of a known session; an unknown identifier
    /// leaves the table unchanged.
    pub fn touch(&mut self, id: &str, now: i64)
        requires
            old(self).wf(),
        ensures
            old(self)@.contains_key(id@) ==> final(self)@ == old(self)@.insert(
                id@,
                SessionView { data: old(self)@[id@].data, last_accessed: now as int },
            ),
            !old(self)@.contains_key(id@) ==> final(self)@ == old(self)@,
            final(self).wf(),
    {
        let refreshed: Option<SessionData> = match self.get(id) {
            Some(entry) => {
                let data = entry.data.clone();
                Some(SessionData { data, last_accessed: now })
            },
            None => None,
        };
        match refreshed {
            Some(s) => {
                self.insert_session(str_to_string(id), s);
            },
            None => {},
        }
    }

    /// Creates (or resets) the session under a fresh identifier, with its
    /// data marked initialized and its timestamp set to now.
    pub fn create(&mut self, id: String, now: i64)
        requires
            old(self).wf(),
        ensures
            final(self)@ == old(self)@.insert(
                id@,
                SessionView {
                    data: Map::<Seq<char>, Seq<char>>::empty().insert("init"@, "true"@),
                    last_accessed: now as int,
                },
            ),
            final(self).wf(),
    {
        let mut data = StrMap::new();
        data.insert(str_to_string("init"), str_to_string("true"));
        let s = SessionData { data, last_accessed: now };
        self.insert_session(id, s);
    }

    /// A session the sweep keeps: touched within the idle window.
    pub open spec fn sweep_keeps(now: int) -> spec_fn((Seq<char>, SessionView)) -> bool {
        |p: (Seq<char>, SessionView)| now - p.1.last_accessed <= SESSION_IDLE_SECONDS
    }

    /// Evicts every session idle longer than the window; fresh sessions
    /// keep their state.
    #[verifier::rlimit(100)]
    pub fn sweep(&mut self, now: i64)
        requires
            old(self).wf(),
        ensures
            forall|k: Seq<char>|
                final(self)@.contains_key(k) <==> (#[trigger] old(self)@.contains_key(k) && now
                    - old(self)@[k].last_accessed <= SESSION_IDLE_SECONDS),
            forall|k: Seq<char>|
                #[trigger] final(self)@.contains_key(k) ==> final(self)@[k] == old(self)@[k],
            final(self).wf(),
    {
        let ghost old_kv = self.kv();
        let ghost pred = Self::sweep_keeps(now as int);
        proof {
            assert(s_unique(old_kv));
            lemma_smap_of(old_kv);
            
            assert(old_kv.take(0).filter(pred) =~~= Seq::<(Seq<char>, SessionView)>::empty()) by {
                reveal(Seq::filter);
            }
        }
        let mut out: Vec<(String, SessionData)> = Vec::new();
        let n = self.entries.len();
        let mut i: usize = 0;
        while i < n
            invariant
                n == self.entries@.len(),
                i <= n,
                skv_of(self.entries@) == old_kv,
                pred == Self::sweep_keeps(now as int),
                skv_of(out@) == old_kv.take(i as int).filter(pred),
                old(self).data_wf(),
                self.entries@ == old(self).entries@,
                forall|m: int| 0 <= m < out@.len() ==> (#[trigger] out@[m]).1.data.wf(),
            decreases n - i,
        {
            let last = self.entries[i].1.last_accessed;
            let fresh = (now as i128) - (last as i128) <= SESSION_IDLE_SECONDS as i128;
            proof {
                assert(old_kv[i as int].1.last_accessed == last as int);
                assert(fresh == pred(old_kv[i as int]));
                assert(old_kv.take(i + 1).drop_last() =~~= old_kv.take(i as int));
                assert(old_kv.take(i + 1).last() == old_kv[i as int]);
                reveal(Seq::filter);
            }
            if fresh {
                let ghost old_out = out@;
                let ki = self.entries[i].0.clone();
                let vi = self.entries[i].1.clone();
                out.push((ki, vi));
                proof {
                    assert(skv_of(out@) =~~= skv_of(old_out).push(old_kv[i as int])) by {
                        assert forall|m: int| 0 <= m < out@.len() implies (#[trigger] skv_of(
                            out@,
                        )[m]) == skv_of(old_out).push(old_kv[i as int])[m] by {
                            assert(out@[m] == if m < out@.len() - 1 {
                                old_out[m]
                            } else {
                                out@[out@.len() - 1]
                            });
                        }
                    }
                    assert(old_kv.take(i + 1).filter(pred) == old_kv.take(i as int).filter(
                        pred,
                    ).push(old_kv[i as int]));
                }
            } else {
                proof {
                    assert(old_kv.take(i + 1).filter(pred) == old_kv.take(i as int).filter(pred));
                }
            }
            i += 1;
        }
        self.entries = out;
        proof {
            assert(final(self).data_wf());
            assert(old_kv.take(n as int) =~~= old_kv);
            let new_kv = skv_of(self.entries@);
            assert(new_kv == old_kv.filter(pred));
            lemma_filter_members(old_kv, pred);
            lemma_filter_unique(old_kv, pred);
            lemma_smap_of(new_kv);
            assert forall|k: Seq<char>| #[trigger] self@.contains_key(k) implies old(
                self,
            )@.contains_key(k) && now as int - old(self)@[k].last_accessed <= SESSION_IDLE_SECONDS
                && self@[k] == old(self)@[k] by {
                let m = choose|m: int| 0 <= m < new_kv.len() && (#[trigger] new_kv[m]).0 == k;
                assert(old_kv.contains(new_kv[m]));
                let j = choose|j: int| 0 <= j < old_kv.len() && old_kv[j] == new_kv[m];
                assert(old_kv[j].0 == k);
                assert(old(self)@[k] == old_kv[j].1);
                assert(self@[k] == new_kv[m].1);
                old_kv.lemma_filter_pred(pred, m);
            }
            assert forall|k: Seq<char>|
                #[trigger] old(self)@.contains_key(k) && now as int - old(self)@[k].last_accessed
                    <= SESSION_IDLE_SECONDS implies self@.contains_key(k) by {
                let j = choose|j: int| 0 <= j < old_kv.len() && (#[trigger] old_kv[j]).0 == k;
                assert(old_kv[j].1 == old(self)@[k]);
                assert(pred(old_kv[j]));
                old_kv.lemma_filter_contains(pred, j);
                assert(new_kv.contains(old_kv[j]));
                let m = choose|m: int| 0 <= m < new_kv.len() && new_kv[m] == old_kv[j];
                assert(new_kv[m].0 == k);
            }
        }
    }
}

/// Every entry of a filtered list is an entry of the original.
proof fn lemma_filter_members(
    ps: Seq<(Seq<char>, SessionView)>,
    pred: spec_fn((Seq<char>, SessionView)) -> bool,
)
    ensures
        forall|m: int|
            0 <= m < ps.filter(pred).len() ==> ps.contains(#[trigger] ps.filter(pred)[m]),
    decreases ps.len(),
{
    reveal(Seq::filter);
    if ps.len() > 0 {
        let head = ps.drop_last();
        lemma_filter_members(head, pred);
        assert forall|m: int|
            0 <= m < ps.filter(pred).len() implies ps.contains(#[trigger] ps.filter(pred)[m]) by {
            if m < head.filter(pred).len() {
                assert(ps.filter(pred)[m] == head.filter(pred)[m]);
                assert(head.contains(head.filter(pred)[m]));
                let j = choose|j: int|
                    0 <= j < head.len() && head[j] == head.filter(pred)[m];
                assert(ps[j] == head.filter(pred)[m]);
            } else {
                assert(ps.filter(pred)[m] == ps.last());
                assert(ps[ps.len() - 1] == ps.last());
            }
        }
    }
}

/// Filtering keeps identifiers unique.
proof fn lemma_filter_unique(
    ps: Seq<(Seq<char>, SessionView)>,
    pred: spec_fn((Seq<char>, SessionView)) -> bool,
)
    requires
        s_unique(ps),
    ensures
        s_unique(ps.filter(pred)),
    decreases ps.len(),
{
    reveal(Seq::filter);
    if ps.len() > 0 {
        let head = ps.drop_last();
        assert(forall|i: int| 0 <= i < head.len() ==> #[trigger] head[i] == ps[i]);
        lemma_filter_unique(head, pred);
        lemma_filter_members(head, pred);
        let f = ps.filter(pred);
        assert forall|m: int, mm: int| 0 <= m < mm < f.len() implies (#[trigger] f[m]).0 != (
        #[trigger] f[mm]).0 by {
            if mm == f.len() - 1 && pred(ps.last()) && f.len() > head.filter(pred).len() {
                assert(f[m] == head.filter(pred)[m]);
                assert(head.contains(head.filter(pred)[m]));
                let j = choose|j: int|
                    0 <= j < head.len() && head[j] == head.filter(pred)[m];
                assert(ps[j].0 == f[m].0);
                assert(ps[j].0 != ps[ps.len() - 1].0);
            } else {
                assert(f[m] == head.filter(pred)[m] && f[mm] == head.filter(pred)[mm]);
            }
        }
    }
}

} // verus!
