//! A key–value store with nested transactions. `begin` opens one, `commit`
//! keeps its writes (an enclosing transaction can still undo them) and
//! `rollback` undoes them, leaving the contents as they were at `begin`.
use vstd::prelude::*;
use crate::names::slice_to_vec;
use crate::types::compare_bytes;

verus! {

/// The contents that a list of entries with distinct keys holds.
pub open spec fn map_of(s: Seq<(Vec<u8>, Vec<u8>)>) -> Map<Seq<u8>, Seq<u8>>
    decreases s.len(),
{
    if s.len() == 0 {
        Map::empty()
    } else {
        map_of(s.drop_last()).insert(s.last().0@, s.last().1@)
    }
}

pub open spec fn keys_unique(s: Seq<(Vec<u8>, Vec<u8>)>) -> bool {
    forall|i: int, j: int| 0 <= i < j < s.len() ==> (#[trigger] s[i]).0@ != (#[trigger] s[j]).0@
}

proof fn lemma_map_of_has(s: Seq<(Vec<u8>, Vec<u8>)>, k: Seq<u8>)
    ensures
        map_of(s).contains_key(k) <==> exists|i: int| 0 <= i < s.len() && (#[trigger] s[i]).0@ == k,
    decreases s.len(),
{
    if s.len() > 0 {
        lemma_map_of_has(s.drop_last(), k);
        if map_of(s).contains_key(k) && s.last().0@ != k {
            let i = choose|i: int| 0 <= i < s.drop_last().len() && (#[trigger] s.drop_last()[i]).0@ == k;
            assert(s[i] == s.drop_last()[i]);
        }
        if exists|i: int| 0 <= i < s.len() && (#[trigger] s[i]).0@ == k {
            let i = choose|i: int| 0 <= i < s.len() && (#[trigger] s[i]).0@ == k;
            if i < s.len() - 1 {
                assert(s.drop_last()[i] == s[i]);
            }
        }
    }
}

proof fn lemma_map_of_get(s: Seq<(Vec<u8>, Vec<u8>)>, i: int)
    requires
        keys_unique(s),
        0 <= i < s.len(),
    ensures
        map_of(s).contains_key(s[i].0@),
        map_of(s)[s[i].0@] == s[i].1@,
    decreases s.len(),
{
    if i < s.len() - 1 {
        assert(s.drop_last()[i] == s[i]);
        assert(keys_unique(s.drop_last())) by {
            assert forall|a: int, b: int| 0 <= a < b < s.drop_last().len() implies (#[trigger] s.drop_last()[a]).0@ != (#[trigger] s.drop_last()[b]).0@ by {
                assert(s.drop_last()[a] == s[a] && s.drop_last()[b] == s[b]);
            }
        }
        lemma_map_of_get(s.drop_last(), i);
        assert(s[i].0@ != s[s.len() - 1].0@);
    }
}

proof fn lemma_unique_drop_last(s: Seq<(Vec<u8>, Vec<u8>)>)
    requires
        keys_unique(s),
        s.len() > 0,
    ensures
        keys_unique(s.drop_last()),
        forall|i: int| 0 <= i < s.len() - 1 ==> (#[trigger] s.drop_last()[i]).0@ != s.last().0@,
{
    assert forall|a: int, b: int| 0 <= a < b < s.drop_last().len() implies (#[trigger] s.drop_last()[a]).0@ != (#[trigger] s.drop_last()[b]).0@ by {
        assert(s.drop_last()[a] == s[a] && s.drop_last()[b] == s[b]);
    }
    assert forall|i: int| 0 <= i < s.len() - 1 implies (#[trigger] s.drop_last()[i]).0@ != s.last().0@ by {
        assert(s.drop_last()[i] == s[i]);
    }
}

proof fn lemma_map_of_update(s: Seq<(Vec<u8>, Vec<u8>)>, i: int, e: (Vec<u8>, Vec<u8>))
    requires
        keys_unique(s),
        0 <= i < s.len(),
        e.0@ == s[i].0@,
    ensures
        map_of(s.update(i, e)) == map_of(s).insert(e.0@, e.1@),
        keys_unique(s.update(i, e)),
    decreases s.len(),
{
    let u = s.update(i, e);
    assert forall|a: int, b: int| 0 <= a < b < u.len() implies (#[trigger] u[a]).0@ != (#[trigger] u[b]).0@ by {
        assert(u[a].0@ == s[a].0@ && u[b].0@ == s[b].0@);
    }
    lemma_unique_drop_last(s);
    if i == s.len() - 1 {
        assert(u.drop_last() =~= s.drop_last());
        assert(map_of(u) =~= map_of(s).insert(e.0@, e.1@));
    } else {
        assert(u.drop_last() =~= s.drop_last().update(i, e));
        lemma_map_of_update(s.drop_last(), i, e);
        assert(s.drop_last()[i] == s[i]);
        assert(map_of(u) =~= map_of(s).insert(e.0@, e.1@));
    }
}

proof fn lemma_map_of_remove(s: Seq<(Vec<u8>, Vec<u8>)>, i: int)
    requires
        keys_unique(s),
        0 <= i < s.len(),
    ensures
        map_of(s.remove(i)) == map_of(s).remove(s[i].0@),
        keys_unique(s.remove(i)),
    decreases s.len(),
{
    let r = s.remove(i);
    assert forall|a: int, b: int| 0 <= a < b < r.len() implies (#[trigger] r[a]).0@ != (#[trigger] r[b]).0@ by {
        let a2 = if a < i { a } else { a + 1 };
        let b2 = if b < i { b } else { b + 1 };
        assert(r[a] == s[a2] && r[b] == s[b2]);
    }
    lemma_unique_drop_last(s);
    if i == s.len() - 1 {
        assert(r =~= s.drop_last());
        lemma_map_of_has(s.drop_last(), s[i].0@);
        assert(map_of(r) =~= map_of(s).remove(s[i].0@));
    } else {
        assert(r.drop_last() =~= s.drop_last().remove(i));
        assert(r.last() == s.last());
        lemma_map_of_remove(s.drop_last(), i);
        assert(s.drop_last()[i] == s[i]);
        assert(map_of(r) =~= map_of(s).remove(s[i].0@));
    }
}

/// What undoing one write does: put the old value back, or drop the key.
pub open spec fn restore(m: Map<Seq<u8>, Seq<u8>>, e: (Seq<u8>, Option<Seq<u8>>)) -> Map<Seq<u8>, Seq<u8>> {
    match e.1 {
        Some(v) => m.insert(e.0, v),
        None => m.remove(e.0),
    }
}

/// Undoes the writes of `log`, latest first.
pub open spec fn undo(log: Seq<(Seq<u8>, Option<Seq<u8>>)>, m: Map<Seq<u8>, Seq<u8>>) -> Map<Seq<u8>, Seq<u8>>
    decreases log.len(),
{
    if log.len() == 0 {
        m
    } else {
        undo(log.drop_last(), restore(m, log.last()))
    }
}

proof fn lemma_undo_concat(a: Seq<(Seq<u8>, Option<Seq<u8>>)>, b: Seq<(Seq<u8>, Option<Seq<u8>>)>, m: Map<Seq<u8>, Seq<u8>>)
    ensures
        undo(a + b, m) == undo(a, undo(b, m)),
    decreases b.len(),
{
    if b.len() > 0 {
        assert((a + b).drop_last() =~= a + b.drop_last());
        assert((a + b).last() == b.last());
        lemma_undo_concat(a, b.drop_last(), restore(m, b.last()));
    } else {
        assert(a + b =~= a);
    }
}

pub open spec fn log_view(log: Seq<(Vec<u8>, Option<Vec<u8>>)>) -> Seq<(Seq<u8>, Option<Seq<u8>>)> {
    Seq::new(log.len(), |i: int| (log[i].0@, match log[i].1 {
        Some(v) => Some(v@),
        None => None,
    }))
}

/// A key–value store with nested transactions.
pub struct RollbackStore {
    data: Vec<(Vec<u8>, Vec<u8>)>,
    logs: Vec<Vec<(Vec<u8>, Option<Vec<u8>>)>>,
    /// The contents when each open transaction began, outermost first.
    opened: Ghost<Seq<Map<Seq<u8>, Seq<u8>>>>,
}

impl RollbackStore {
    /// What the store holds now.
    pub closed spec fn contents(&self) -> Map<Seq<u8>, Seq<u8>> {
        map_of(self.data@)
    }

    /// The contents when each open transaction began, outermost first.
    pub closed spec fn opened_at(&self) -> Seq<Map<Seq<u8>, Seq<u8>>> {
        self.opened@
    }

    pub closed spec fn wf(&self) -> bool {
        &&& keys_unique(self.data@)
        &&& self.logs@.len() == self.opened@.len()
        &&& self.logs@.len() > 0 ==> undo(log_view(self.logs@.last()@), map_of(self.data@)) == self.opened@.last()
        &&& forall|i: int| 0 <= i < self.logs@.len() - 1 ==> undo(log_view(#[trigger] self.logs@[i]@), self.opened@[i + 1]) == self.opened@[i]
    }

    /// An empty store with no transaction open.
    pub fn new() -> (r: RollbackStore)
        ensures
            r.wf(),
            r.contents() == Map::<Seq<u8>, Seq<u8>>::empty(),
            r.opened_at().len() == 0,
    {
        RollbackStore { data: Vec::new(), logs: Vec::new(), opened: Ghost(Seq::empty()) }
    }

    /// How many transactions are open.
    pub fn depth(&self) -> (r: usize)
        requires
            self.wf(),
        ensures
            r == self.opened_at().len(),
    {
        self.logs.len()
    }

    fn find(&self, key: &[u8]) -> (r: Option<usize>)
        ensures
            r matches Some(i) ==> i < self.data@.len() && self.data@[i as int].0@ == key@,
            r is None ==> forall|i: int| 0 <= i < self.data@.len() ==> (#[trigger] self.data@[i]).0@ != key@,
    {
        let mut i: usize = 0;
        while i < self.data.len()
            invariant
                i <= self.data@.len(),
                forall|j: int| 0 <= j < i ==> (#[trigger] self.data@[j]).0@ != key@,
            decreases self.data@.len() - i,
        {
            if compare_bytes(self.data[i].0.as_slice(), key) == 0 {
                return Some(i);
            }
            i = i + 1;
        }
        None
    }

    /// The value under `key`.
    pub fn get(&self, key: &[u8]) -> (r: Option<Vec<u8>>)
        requires
            self.wf(),
        ensures
            r is Some <==> self.contents().contains_key(key@),
            r matches Some(v) ==> v@ == self.contents()[key@],
    {
        proof { lemma_map_of_has(self.data@, key@); }
        match self.find(key) {
            Some(i) => {
                proof { lemma_map_of_get(self.data@, i as int); }
                Some(slice_to_vec(self.data[i].1.as_slice()))
            },
            None => None,
        }
    }

    /// Sets `key` to `value`, within the innermost open transaction if any.
    pub fn put(&mut self, key: &[u8], value: &[u8])
        requires
            old(self).wf(),
        ensures
            final(self).wf(),
            final(self).contents() == old(self).contents().insert(key@, value@),
            final(self).opened_at() == old(self).opened_at(),
    {
        let ghost m0 = map_of(self.data@);
        proof { lemma_map_of_has(self.data@, key@); }
        let found = self.find(key);
        let previous: Option<Vec<u8>> = match found {
            Some(i) => {
                proof { lemma_map_of_get(self.data@, i as int); }
                Some(slice_to_vec(self.data[i].1.as_slice()))
            },
            None => None,
        };
        let entry = (slice_to_vec(key), slice_to_vec(value));
        match found {
            Some(i) => {
                let ghost before = self.data@;
                proof { lemma_map_of_update(before, i as int, entry); }
                self.data.set(i, entry);
            },
            None => {
                let ghost before = self.data@;
                self.data.push(entry);
                proof {
                    assert(self.data@.drop_last() =~= before);
                    assert forall|a: int, b: int| 0 <= a < b < self.data@.len() implies (#[trigger] self.data@[a]).0@ != (#[trigger] self.data@[b]).0@ by {
                        if b == before.len() {
                            assert(self.data@[a] == before[a]);
                        } else {
                            assert(self.data@[a] == before[a] && self.data@[b] == before[b]);
                        }
                    }
                }
            },
        }
        assert(map_of(self.data@) =~= m0.insert(key@, value@));
        let n = self.logs.len();
        if n > 0 {
            let ghost logs_before = self.logs@;
            let mut top = self.logs.pop().unwrap();
            let ghost top_before = top@;
            let k2 = slice_to_vec(key);
            top.push((k2, previous));
            proof {
                let lv = log_view(top@);
                assert(lv.drop_last() =~= log_view(top_before));
                let e = lv.last();
                assert(e.0 == key@);
                assert(restore(map_of(self.data@), e) =~= m0);
            }
            self.logs.push(top);
            proof {
                assert forall|i: int| 0 <= i < self.logs@.len() - 1 implies undo(log_view(#[trigger] self.logs@[i]@), self.opened@[i + 1]) == self.opened@[i] by {
                    assert(self.logs@[i] == logs_before[i]);
                }
            }
        }
    }

    /// Opens a transaction.
    pub fn begin(&mut self)
        requires
            old(self).wf(),
        ensures
            final(self).wf(),
            final(self).contents() == old(self).contents(),
            final(self).opened_at() == old(self).opened_at().push(old(self).contents()),
    {
        let ghost logs_before = self.logs@;
        let ghost m = map_of(self.data@);
        self.logs.push(Vec::new());
        self.opened = Ghost(self.opened@.push(m));
        proof {
            assert(log_view(Seq::<(Vec<u8>, Option<Vec<u8>>)>::empty()) =~= Seq::empty());
            assert(self.logs@.last()@ =~= Seq::<(Vec<u8>, Option<Vec<u8>>)>::empty());
            assert forall|i: int| 0 <= i < self.logs@.len() - 1 implies undo(log_view(#[trigger] self.logs@[i]@), self.opened@[i + 1]) == self.opened@[i] by {
                assert(self.logs@[i] == logs_before[i]);
                if i == self.logs@.len() - 2 {
                } 
            }
        }
    }

    /// Closes the innermost transaction, keeping its writes; an enclosing
    /// transaction can still undo them.
    pub fn commit(&mut self)
        requires
            old(self).wf(),
            old(self).opened_at().len() > 0,
        ensures
            final(self).wf(),
            final(self).contents() == old(self).contents(),
            final(self).opened_at() == old(self).opened_at().drop_last(),
    {
        let ghost logs_before = self.logs@;
        let ghost op = self.opened@;
        let mut top = self.logs.pop().unwrap();
        if self.logs.len() > 0 {
            let mut parent = self.logs.pop().unwrap();
            let ghost pv = parent@;
            let ghost tv = top@;
            parent.append(&mut top);
            proof {
                assert(log_view(parent@) =~= log_view(pv) + log_view(tv));
                lemma_undo_concat(log_view(pv), log_view(tv), map_of(self.data@));
                assert(pv == logs_before[logs_before.len() - 2]@);
            }
            self.logs.push(parent);
        }
        self.opened = Ghost(op.drop_last());
        proof {
            assert forall|i: int| 0 <= i < self.logs@.len() - 1 implies undo(log_view(#[trigger] self.logs@[i]@), self.opened@[i + 1]) == self.opened@[i] by {
                assert(self.logs@[i] == logs_before[i]);
            }
        }
    }

    /// Closes the innermost transaction, undoing its writes: the contents are
    /// again what they were when it began.
    pub fn rollback(&mut self)
        requires
            old(self).wf(),
            old(self).opened_at().len() > 0,
        ensures
            final(self).wf(),
            final(self).contents() == old(self).opened_at().last(),
            final(self).opened_at() == old(self).opened_at().drop_last(),
    {
        let ghost logs_before = self.logs@;
        let ghost op = self.opened@;
        let top = self.logs.pop().unwrap();
        assert(top == logs_before.last());
        assert(top@.subrange(0, top@.len() as int) =~= top@);
        let mut k: usize = top.len();
        while k > 0
            invariant
                k <= top@.len(),
                keys_unique(self.data@),
                undo(log_view(top@.subrange(0, k as int)), map_of(self.data@)) == op.last(),
                self.logs@ == logs_before.drop_last(),
            decreases k,
        {
            let ghost m = map_of(self.data@);
            let ghost lv = log_view(top@.subrange(0, k as int));
            assert(lv.drop_last() =~= log_view(top@.subrange(0, k - 1)));
            let key = &top[k - 1].0;
            proof { lemma_map_of_has(self.data@, key@); }
            let found = self.find(key.as_slice());
            match &top[k - 1].1 {
                Some(v) => {
                    let entry = (slice_to_vec(key.as_slice()), slice_to_vec(v.as_slice()));
                    match found {
                        Some(i) => {
                            proof { lemma_map_of_update(self.data@, i as int, entry); }
                            self.data.set(i, entry);
                        },
                        None => {
                            let ghost before = self.data@;
                            self.data.push(entry);
                            proof {
                                assert(self.data@.drop_last() =~= before);
                                assert forall|a: int, b: int| 0 <= a < b < self.data@.len() implies (#[trigger] self.data@[a]).0@ != (#[trigger] self.data@[b]).0@ by {
                                    if b == before.len() {
                                        assert(self.data@[a] == before[a]);
                                    } else {
                                        assert(self.data@[a] == before[a] && self.data@[b] == before[b]);
                                    }
                                }
                            }
                        },
                    }
                    assert(map_of(self.data@) =~= restore(m, lv.last()));
                },
                None => {
                    match found {
                        Some(i) => {
                            proof { lemma_map_of_remove(self.data@, i as int); }
                            let _ = self.data.remove(i);
                        },
                        None => {},
                    }
                    assert(map_of(self.data@) =~= restore(m, lv.last()));
                },
            }
            k = k - 1;
        }
        assert(top@.subrange(0, 0) =~= Seq::<(Vec<u8>, Option<Vec<u8>>)>::empty());
        assert(log_view(Seq::<(Vec<u8>, Option<Vec<u8>>)>::empty()) =~= Seq::empty());
        self.opened = Ghost(op.drop_last());
        proof {
            assert forall|i: int| 0 <= i < self.logs@.len() - 1 implies undo(log_view(#[trigger] self.logs@[i]@), self.opened@[i + 1]) == self.opened@[i] by {
                assert(self.logs@[i] == logs_before[i]);
            }
        }
    }

    /// Ends the innermost transaction the way a contract call does: its
    /// writes stay only when the work succeeded and the caller's abort
    /// check did not ask to drop them.
    pub fn finish_transaction(&mut self, succeeded: bool, abort: bool)
        requires
            old(self).wf(),
            old(self).opened_at().len() > 0,
        ensures
            final(self).wf(),
            final(self).opened_at() == old(self).opened_at().drop_last(),
            succeeded && !abort ==> final(self).contents() == old(self).contents(),
            !succeeded || abort ==> final(self).contents() == old(self).opened_at().last(),
    {
        if succeeded && !abort {
            self.commit();
        } else {
            self.rollback();
        }
    }
}

} // verus!
