use vstd::prelude::*;
use vstd::pervasive::VecAdditionalExecFns;
use crate::cell::Cell;

verus! {

/// The mathematical contents of an association list: later entries win,
/// mirroring repeated insertion.
pub open spec fn map_of<V>(s: Seq<(Cell, V)>) -> Map<Cell, V>
    decreases s.len(),
{
    if s.len() == 0 {
        Map::empty()
    } else {
        map_of(s.drop_last()).insert(s.last().0, s.last().1)
    }
}

/// No two entries share a key.
pub open spec fn distinct_keys<V>(s: Seq<(Cell, V)>) -> bool {
    forall|i: int, j: int|
        0 <= i < j < s.len() ==> (#[trigger] s[i]).0 != (#[trigger] s[j]).0
}

pub proof fn lemma_map_of_contains<V>(s: Seq<(Cell, V)>, k: Cell)
    ensures
        map_of(s).contains_key(k) <==> exists|i: int| 0 <= i < s.len() && (#[trigger] s[i]).0 == k,
    decreases s.len(),
{
    if s.len() > 0 {
        lemma_map_of_contains(s.drop_last(), k);
        if s.last().0 == k {
            assert((s[s.len() - 1]).0 == k);
        } else if map_of(s).contains_key(k) {
            let i = choose|i: int| 0 <= i < s.drop_last().len() && (#[trigger] s.drop_last()[i]).0 == k;
            assert((s[i]).0 == k);
        } else if exists|i: int| 0 <= i < s.len() && (#[trigger] s[i]).0 == k {
            let i = choose|i: int| 0 <= i < s.len() && (#[trigger] s[i]).0 == k;
            assert(i < s.len() - 1);
            assert((s.drop_last()[i]).0 == k);
        }
    }
}

pub proof fn lemma_map_of_get<V>(s: Seq<(Cell, V)>, k: Cell, i: int)
    requires
        distinct_keys(s),
        0 <= i < s.len(),
        (s[i]).0 == k,
    ensures
        map_of(s).contains_key(k),
        map_of(s)[k] == (s[i]).1,
    decreases s.len(),
{
    if i == s.len() - 1 {
    } else {
        assert((s[s.len() - 1]).0 != k);
        assert((s.drop_last()[i]).0 == k);
        lemma_map_of_get(s.drop_last(), k, i);
    }
}

pub proof fn lemma_map_of_update<V>(s: Seq<(Cell, V)>, k: Cell, v: V, i: int)
    requires
        distinct_keys(s),
        0 <= i < s.len(),
        (s[i]).0 == k,
    ensures
        map_of(s.update(i, (k, v))) =~= map_of(s).insert(k, v),
        distinct_keys(s.update(i, (k, v))),
    decreases s.len(),
{
    let t = s.update(i, (k, v));
    assert(distinct_keys(t));
    if i == s.len() - 1 {
        assert(t.drop_last() =~= s.drop_last());
        assert(map_of(t) =~= map_of(s).insert(k, v));
    } else {
        assert((s[s.len() - 1]).0 != k);
        assert(t.last() == s.last());
        assert(t.drop_last() =~= s.drop_last().update(i, (k, v)));
        assert((s.drop_last()[i]).0 == k);
        lemma_map_of_update(s.drop_last(), k, v, i);
        assert(map_of(t) =~= map_of(s).insert(k, v));
    }
}

pub proof fn lemma_map_of_push<V>(s: Seq<(Cell, V)>, k: Cell, v: V)
    ensures
        map_of(s.push((k, v))) == map_of(s).insert(k, v),
{
    assert(s.push((k, v)).drop_last() =~= s);
    assert(s.push((k, v)).last() == (k, v));
}

pub proof fn lemma_map_of_remove<V>(s: Seq<(Cell, V)>, k: Cell, i: int)
    requires
        distinct_keys(s),
        0 <= i < s.len(),
        (s[i]).0 == k,
    ensures
        map_of(s.remove(i)) =~= map_of(s).remove(k),
        distinct_keys(s.remove(i)),
    decreases s.len(),
{
    let t = s.remove(i);
    assert(forall|p: int, q: int| 0 <= p < q < t.len() ==> (#[trigger] t[p]).0 != (#[trigger] t[q]).0) by {
        assert(forall|p: int| 0 <= p < t.len() ==> #[trigger] t[p] == (if p < i { s[p] } else { s[p + 1] }));
    }
    if i == s.len() - 1 {
        assert(t =~= s.drop_last());
        lemma_map_of_contains(s.drop_last(), k);
        assert(!map_of(s.drop_last()).contains_key(k)) by {
            if exists|j: int| 0 <= j < s.drop_last().len() && (#[trigger] s.drop_last()[j]).0 == k {
                let j = choose|j: int| 0 <= j < s.drop_last().len() && (#[trigger] s.drop_last()[j]).0 == k;
                assert((s[j]).0 == k);
            }
        }
        assert(map_of(s.remove(i)) =~= map_of(s).remove(k));
    } else {
        assert((s[s.len() - 1]).0 != k);
        assert(t.last() == s.last());
        assert(t.drop_last() =~= s.drop_last().remove(i));
        assert((s.drop_last()[i]).0 == k);
        lemma_map_of_remove(s.drop_last(), k, i);
        assert(map_of(t) =~= map_of(s).remove(k));
    }
}

/// The grid's mutable classification store: a map from cells to copies of
/// `V`, kept as an association vector with distinct keys so that both
/// lookup and deterministic enumeration are verified.  `V` is `CellType`
/// for the occupancy store and `Cell` for the symmetric pair map and for
/// the stitcher's successor map.
pub struct CellMap<V> {
    entries: Vec<(Cell, V)>,
}

impl<V> View for CellMap<V> {
    type V = Map<Cell, V>;

    closed spec fn view(&self) -> Map<Cell, V> {
        map_of(self.entries@)
    }
}

impl<V: Copy> CellMap<V> {
    /// The underlying entry sequence, in insertion order.
    pub closed spec fn kv_seq(&self) -> Seq<(Cell, V)> {
        self.entries@
    }

    pub open spec fn wf(&self) -> bool {
        distinct_keys(self.kv_seq())
    }

    /// The view is the association-list contents of the entry sequence.
    pub proof fn lemma_view(&self)
        ensures
            self@ == map_of(self.kv_seq()),
    {
    }

    pub fn new() -> (r: Self)
        ensures
            r.wf(),
            r@ == Map::<Cell, V>::empty(),
            r.kv_seq() == Seq::<(Cell, V)>::empty(),
    {
        let r = CellMap { entries: Vec::new() };
        proof {
            assert(r@ =~= Map::<Cell, V>::empty());
        }
        r
    }

    fn find_index(&self, k: Cell) -> (r: Option<usize>)
        ensures
            match r {
                Some(i) => i < self.kv_seq().len() && (self.kv_seq()[i as int]).0 == k,
                None => forall|i: int| 0 <= i < self.kv_seq().len() ==> (#[trigger] self.kv_seq()[i]).0 != k,
            },
    {
        let mut i: usize = 0;
        while i < self.entries.len()
            invariant
                i <= self.kv_seq().len(),
                forall|j: int| 0 <= j < i ==> (#[trigger] self.kv_seq()[j]).0 != k,
            decreases self.kv_seq().len() - i,
        {
            if self.entries[i].0 == k {
                return Some(i);
            }
            i = i + 1;
        }
        None
    }

    pub fn get(&self, k: Cell) -> (r: Option<V>)
        requires
            self.wf(),
        ensures
            (r is Some) == self@.contains_key(k),
            r matches Some(v) ==> self@[k] == v,
    {
        proof {
            lemma_map_of_contains(self.kv_seq(), k);
        }
        match self.find_index(k) {
            Some(i) => {
                proof {
                    lemma_map_of_get(self.kv_seq(), k, i as int);
                }
                Some(self.entries[i].1)
            }
            None => None,
        }
    }

    pub fn contains_key(&self, k: Cell) -> (r: bool)
        requires
            self.wf(),
        ensures
            r == self@.contains_key(k),
    {
        self.get(k).is_some()
    }

    pub fn insert(&mut self, k: Cell, v: V)
        requires
            old(self).wf(),
        ensures
            final(self).wf(),
            final(self)@ == old(self)@.insert(k, v),
    {
        match self.find_index(k) {
            Some(i) => {
                proof {
                    lemma_map_of_update(self.kv_seq(), k, v, i as int);
                }
                self.entries.set(i, (k, v));
            }
            None => {
                proof {
                    lemma_map_of_push(self.kv_seq(), k, v);
                    assert(distinct_keys(self.kv_seq().push((k, v))));
                }
                self.entries.push((k, v));
            }
        }
    }

    /// Removes `k` and returns the value it mapped to, if any.
    pub fn remove(&mut self, k: Cell) -> (r: Option<V>)
        requires
            old(self).wf(),
        ensures
            final(self).wf(),
            final(self)@ == old(self)@.remove(k),
            (r is Some) == old(self)@.contains_key(k),
            r matches Some(v) ==> old(self)@[k] == v,
            !old(self)@.contains_key(k) ==> *final(self) == *old(self),
    {
        proof {
            lemma_map_of_contains(self.kv_seq(), k);
        }
        match self.find_index(k) {
            Some(i) => {
                proof {
                    lemma_map_of_get(self.kv_seq(), k, i as int);
                    lemma_map_of_remove(self.kv_seq(), k, i as int);
                }
                let e = self.entries.remove(i);
                Some(e.1)
            }
            None => {
                proof {
                    assert(old(self)@.remove(k) =~= old(self)@);
                }
                None
            }
        }
    }

    pub fn len(&self) -> (r: usize)
        ensures
            r == self.kv_seq().len(),
    {
        self.entries.len()
    }

    /// The entries in insertion order, for enumeration by display and
    /// problem-generation collaborators.
    pub fn entries(&self) -> (r: &Vec<(Cell, V)>)
        ensures
            r@ == self.kv_seq(),
    {
        &self.entries
    }
}

} // verus!
