use vstd::prelude::*;

verus! {

/// The sparse entry that names no dense position.
pub const ABSENT: u32 = 0xffff_ffff;

/// Whether slot `i` is present in the two arrays: its sparse entry names a
/// dense position within bounds whose stored slot is `i` again.
pub open spec fn present<T>(sparse: Seq<u32>, dense: Seq<(u32, T)>, i: u32) -> bool {
    &&& (i as int) < sparse.len()
    &&& (sparse[i as int] as int) < dense.len()
    &&& dense[sparse[i as int] as int].0 == i
}

/// The map from present slots to their values that two arrays stand for.
pub open spec fn decoded<T>(sparse: Seq<u32>, dense: Seq<(u32, T)>) -> Map<u32, T> {
    Map::new(|i: u32| present(sparse, dense, i), |i: u32| dense[sparse[i as int] as int].1)
}

/// What is left of the dense array when the entry at `d` is removed by moving
/// the last entry into its place.
pub open spec fn swap_removed<T>(dense: Seq<(u32, T)>, d: int) -> Seq<(u32, T)> {
    dense.update(d, dense.last()).drop_last()
}

/// The slots of a run of dense entries, in order.
pub open spec fn keys<T>(entries: Seq<(u32, T)>) -> Seq<u32> {
    entries.map_values(|e: (u32, T)| e.0)
}

/// One structural operation on a pool, as far as membership goes.
pub enum PoolOp {
    Insert(u32),
    Remove(u32),
}

/// The set of present slots after one operation.
pub open spec fn step(present: Set<u32>, op: PoolOp) -> Set<u32> {
    match op {
        PoolOp::Insert(i) => present.insert(i),
        PoolOp::Remove(i) => present.remove(i),
    }
}

/// Whether the most recent operation in `ops` that touches `i` is an insert
/// (`Some(true)`), a removal (`Some(false)`), or there is none.
pub open spec fn last_touch(ops: Seq<PoolOp>, i: u32) -> Option<bool>
    decreases ops.len(),
{
    if ops.len() == 0 {
        None
    } else {
        match ops.last() {
            PoolOp::Insert(j) if j == i => Some(true),
            PoolOp::Remove(j) if j == i => Some(false),
            _ => last_touch(ops.drop_last(), i),
        }
    }
}

/// Membership after any run of inserts and removals is decided by the most
/// recent operation on that slot alone: `pools[k + 1]` is what `insert` or
/// `remove` left of `pools[k]` for `ops[k]`.
pub proof fn lemma_membership_follows_last_op<T>(pools: Seq<Pool<T>>, ops: Seq<PoolOp>, i: u32)
    requires
        pools.len() == ops.len() + 1,
        forall|k: int| 0 <= k < ops.len() ==> #[trigger] pools[k + 1]@.dom() == step(pools[k]@.dom(), ops[k]),
    ensures
        pools.last()@.contains_key(i) == match last_touch(ops, i) {
            Some(b) => b,
            None => pools[0]@.contains_key(i),
        },
    decreases ops.len(),
{
    if ops.len() > 0 {
        let n = ops.len() - 1;
        assert(pools[n + 1]@.dom() == step(pools[n]@.dom(), ops[n]));
        lemma_membership_follows_last_op(pools.drop_last(), ops.drop_last(), i);
        assert(pools.drop_last().last() == pools[n]);
    }
}

/// Sparse-set map from slots to values: `sparse` is indexed by slot and names
/// a position in `dense`, which holds the (slot, value) pairs without gaps.
#[derive(Clone, Debug)]
pub struct Pool<T> {
    sparse: Vec<u32>,
    dense: Vec<(u32, T)>,
}

impl<T> View for Pool<T> {
    type V = Map<u32, T>;

    open spec fn view(&self) -> Map<u32, T> {
        decoded(self.slots(), self.entries())
    }
}

impl<T> Pool<T> {
    /// The (slot, value) pairs in dense order.
    pub closed spec fn entries(&self) -> Seq<(u32, T)> {
        self.dense@
    }

    /// The sparse array, indexed by slot.
    pub closed spec fn slots(&self) -> Seq<u32> {
        self.sparse@
    }

    /// The dense position of slot `i`.
    pub open spec fn position(&self, i: u32) -> int {
        self.slots()[i as int] as int
    }

    /// Every dense entry is named back by the sparse entry of its slot, and
    /// no dense position can be mistaken for the absent marker.
    pub open spec fn wf(&self) -> bool {
        &&& self.entries().len() <= ABSENT
        &&& forall|d: int|
            #![trigger self.entries()[d]]
            0 <= d < self.entries().len() ==> {
                &&& (self.entries()[d].0 as int) < self.slots().len()
                &&& self.slots()[self.entries()[d].0 as int] == d
            }
    }

    /// Iterating a well-formed pool yields each stored slot exactly once,
    /// with its value, and nothing else.
    pub proof fn lemma_entries_exact(&self)
        requires
            self.wf(),
        ensures
            keys(self.entries()).no_duplicates(),
            forall|k: int|
                #![trigger self.entries()[k]]
                0 <= k < self.entries().len() ==> {
                    &&& self@.contains_key(self.entries()[k].0)
                    &&& self@[self.entries()[k].0] == self.entries()[k].1
                },
            forall|j: u32|
                #[trigger] self@.contains_key(j) ==> {
                    &&& 0 <= self.position(j) < self.entries().len()
                    &&& self.entries()[self.position(j)] == (j, self@[j])
                },
            keys(self.entries()).to_set() == self@.dom(),
            self@.len() == self.entries().len(),
    {
        let ks = keys(self.entries());
        assert forall|a: int, b: int| 0 <= a < ks.len() && 0 <= b < ks.len() && a != b implies ks[a] != ks[b] by {
            assert(self.entries()[a].0 == ks[a]);
            assert(self.entries()[b].0 == ks[b]);
        }
        assert forall|j: u32| ks.to_set().contains(j) == self@.dom().contains(j) by {
            if self@.dom().contains(j) {
                assert(ks[self.position(j)] == j);
            }
            if ks.to_set().contains(j) {
                let k = choose|k: int| 0 <= k < ks.len() && ks[k] == j;
                assert(self.entries()[k].0 == j);
            }
        }
        assert(ks.to_set() =~= self@.dom());
        ks.unique_seq_to_set();
    }

    /// Taking a well-formed pool apart with `into_parts` and rebuilding it
    /// with `from_parts` is accepted and keeps every slot and its value.
    pub proof fn lemma_parts_round_trip(&self)
        requires
            self.wf(),
        ensures
            self.entries().len() <= ABSENT,
            decoded(self.slots(), self.entries()) == self@,
    {
    }

    /// A pool whose sparse array and dense slots are those of a well-formed
    /// pool, whatever its values (as `iter_mut` leaves it), is well formed
    /// and holds the same slots, each with the value at its old position.
    pub proof fn lemma_same_shape(&self, other: Pool<T>)
        requires
            self.wf(),
            other.slots() == self.slots(),
            other.entries().len() == self.entries().len(),
            forall|k: int| 0 <= k < self.entries().len() ==> #[trigger] other.entries()[k].0 == self.entries()[k].0,
        ensures
            other.wf(),
            other@.dom() == self@.dom(),
            forall|i: u32| #[trigger] other@.contains_key(i) ==> other@[i] == other.entries()[self.position(i)].1,
    {
        assert forall|d: int| 0 <= d < other.entries().len() implies
            (#[trigger] other.entries()[d].0 as int) < other.slots().len()
            && other.slots()[other.entries()[d].0 as int] == d by {
            assert(self.entries()[d].0 == other.entries()[d].0);
        }
        assert(other@.dom() =~= self@.dom());
    }

    /// An empty pool.
    pub fn new() -> (r: Self)
        ensures
            r.wf(),
            r@ == Map::<u32, T>::empty(),
            r.entries() == Seq::<(u32, T)>::empty(),
    {
        let r = Pool { sparse: Vec::new(), dense: Vec::new() };
        assert(r@ =~= Map::<u32, T>::empty());
        r
    }

    /// An empty pool whose dense array has room for `cap` entries.
    pub fn with_dense_capacity(cap: u32) -> (r: Self)
        ensures
            r.wf(),
            r@ == Map::<u32, T>::empty(),
            r.entries() == Seq::<(u32, T)>::empty(),
    {
        let r = Pool { sparse: Vec::new(), dense: Vec::with_capacity(cap as usize) };
        assert(r@ =~= Map::<u32, T>::empty());
        r
    }

    /// Whether slot `i` holds a value.
    pub fn contains(&self, i: u32) -> (r: bool)
        ensures
            r == self@.contains_key(i),
    {
        (i as usize) < self.sparse.len() && {
            let d = self.sparse[i as usize] as usize;
            d < self.dense.len() && self.dense[d].0 == i
        }
    }
    /// Stores `v` under slot `i`, in place when `i` already holds a value,
    /// else as a new last dense entry. Returns whether `i` held a value.
    pub fn insert(&mut self, i: u32, v: T) -> (r: bool)
        requires
            old(self).wf(),
            old(self)@.contains_key(i) || old(self).entries().len() < ABSENT,
        ensures
            final(self).wf(),
            r == old(self)@.contains_key(i),
            final(self)@ == old(self)@.insert(i, v),
            r ==> final(self).entries() == old(self).entries().update(old(self).position(i), (i, v)),
            !r ==> final(self).entries() == old(self).entries().push((i, v)),
    {
        if self.contains(i) {
            let d = self.sparse[i as usize] as usize;
            self.dense.set(d, (i, v));
            assert(self@ =~= old(self)@.insert(i, v));
            true
        } else {
            let d = self.dense.len() as u32;
            while self.sparse.len() <= i as usize
                invariant
                    self.wf(),
                    self.dense@ == old(self).dense@,
                    old(self).sparse@.len() <= self.sparse@.len(),
                    forall|k: int| 0 <= k < old(self).sparse@.len() ==> self.sparse@[k] == old(self).sparse@[k],
                    forall|k: int| old(self).sparse@.len() <= k < self.sparse@.len() ==> self.sparse@[k] == ABSENT,
                decreases i as int + 1 - self.sparse@.len(),
            {
                self.sparse.push(ABSENT);
            }
            self.sparse.set(i as usize, d);
            self.dense.push((i, v));
            assert forall|j: u32| j != i implies present(self.slots(), self.entries(), j) == present(old(self).slots(), old(self).entries(), j) by {
                if (j as int) < old(self).sparse@.len() {
                    assert(self.sparse@[j as int] == old(self).sparse@[j as int]);
                }
            }
            assert(self@ =~= old(self)@.insert(i, v));
            false
        }
    }

    /// The value under slot `i`, if any.
    pub fn get(&self, i: u32) -> (r: Option<&T>)
        ensures
            match r {
                Some(x) => self@.contains_key(i) && *x == self@[i],
                None => !self@.contains_key(i),
            },
    {
        if !self.contains(i) {
            return None;
        }
        let d = self.sparse[i as usize] as usize;
        Some(&self.dense[d].1)
    }

    /// A mutable handle on the value under slot `i`, if any; what is written
    /// through it becomes the value of `i`.
    pub fn get_mut(&mut self, i: u32) -> (r: Option<&mut T>)
        requires
            old(self).wf(),
        ensures
            match r {
                Some(x) => {
                    &&& old(self)@.contains_key(i)
                    &&& *x == old(self)@[i]
                    &&& final(self).wf()
                    &&& final(self)@ == old(self)@.insert(i, *final(x))
                    &&& final(self).entries() == old(self).entries().update(old(self).position(i), (i, *final(x)))
                },
                None => !old(self)@.contains_key(i) && *final(self) == *old(self),
            },
    {
        if !self.contains(i) {
            return None;
        }
        let d = self.sparse[i as usize] as usize;
        Some(&mut self.dense[d].1)
    }

    /// Removes the value under slot `i`: the last dense entry moves into the
    /// vacated position. Returns whether `i` held a value.
    pub fn remove(&mut self, i: u32) -> (r: bool)
        requires
            old(self).wf(),
        ensures
            final(self).wf(),
            r == old(self)@.contains_key(i),
            final(self)@ == old(self)@.remove(i),
            r ==> final(self).entries() == swap_removed(old(self).entries(), old(self).position(i)),
            !r ==> *final(self) == *old(self),
    {
        if !self.contains(i) {
            assert(self@ =~= old(self)@.remove(i));
            return false;
        }
        let d = self.sparse[i as usize];
        let tail = self.dense.pop().unwrap();
        let tail_slot = tail.0;
        if (d as usize) < self.dense.len() {
            self.dense.set(d as usize, tail);
        }
        self.sparse.set(tail_slot as usize, d);
        proof {
            let od = old(self).dense@;
            let os = old(self).sparse@;
            let last = od.len() - 1;
            assert(self.dense@ =~= swap_removed(od, d as int));
            assert forall|j: u32| j != i && j != tail_slot implies
                present(self.slots(), self.entries(), j) == present(os, od, j) by {
                if present(os, od, j) {
                    assert(os[j as int] != d);
                    assert(os[j as int] != last);
                }
            }
            assert forall|k: int| 0 <= k < self.entries().len() implies
                (self.entries()[k].0 as int) < self.slots().len()
                && self.slots()[self.entries()[k].0 as int] == k by {
                if k != d {
                    assert(od[k].0 != tail_slot);
                }
            }
            assert(self@ =~= old(self)@.remove(i));
        }
        true
    }

    /// Removes every value.
    pub fn clear(&mut self)
        ensures
            final(self).wf(),
            final(self)@ == Map::<u32, T>::empty(),
            final(self).entries() == Seq::<(u32, T)>::empty(),
    {
        self.sparse.clear();
        self.dense.clear();
        assert(self@ =~= Map::<u32, T>::empty());
    }

    /// The (slot, value) pairs in dense order.
    pub fn iter(&self) -> (r: Vec<(u32, &T)>)
        ensures
            r@.len() == self.entries().len(),
            forall|k: int|
                0 <= k < r@.len() ==> r@[k].0 == self.entries()[k].0 && *r@[k].1 == self.entries()[k].1,
    {
        let mut r: Vec<(u32, &T)> = Vec::new();
        let mut k: usize = 0;
        while k < self.dense.len()
            invariant
                k <= self.dense@.len(),
                r@.len() == k,
                forall|m: int|
                    0 <= m < k ==> r@[m].0 == self.dense@[m].0 && *r@[m].1 == self.dense@[m].1,
            decreases self.dense@.len() - k,
        {
            let e = &self.dense[k];
            r.push((e.0, &e.1));
            k += 1;
        }
        r
    }

    /// Takes the pool apart into its sparse and dense arrays, as they stand.
    pub fn into_parts(self) -> (r: (Vec<u32>, Vec<(u32, T)>))
        ensures
            r.0@ == self.slots(),
            r.1@ == self.entries(),
    {
        (self.sparse, self.dense)
    }

    /// Rebuilds a pool from a sparse and a dense array of any content: a
    /// slot is kept exactly when its sparse entry names a dense position
    /// within bounds whose stored slot is that slot again.
    pub fn from_parts(sparse: Vec<u32>, dense: Vec<(u32, T)>) -> (r: Self)
        requires
            dense@.len() <= ABSENT,
        ensures
            r.wf(),
            r@ == decoded(sparse@, dense@),
    {
        let ghost orig = dense@;
        let mut dense = dense;
        let mut r: Pool<T> = Pool::new();
        while dense.len() > 0
            invariant
                r.wf(),
                orig.len() <= ABSENT,
                dense@.len() <= orig.len(),
                dense@ == orig.subrange(0, dense@.len() as int),
                r.entries().len() <= orig.len() - dense@.len(),
                r@ == Map::new(
                    |i: u32| present(sparse@, orig, i) && sparse@[i as int] >= dense@.len(),
                    |i: u32| orig[sparse@[i as int] as int].1,
                ),
            decreases dense@.len(),
        {
            let d = dense.len() - 1;
            let e = dense.pop().unwrap();
            assert(e == orig[d as int]);
            let ghost before = r@;
            if (e.0 as usize) < sparse.len() && sparse[e.0 as usize] as usize == d {
                r.insert(e.0, e.1);
            }
            assert(r@ =~= Map::new(
                |i: u32| present(sparse@, orig, i) && sparse@[i as int] >= dense@.len(),
                |i: u32| orig[sparse@[i as int] as int].1,
            ));
        }
        assert(r@ =~= decoded(sparse@, orig));
        r
    }

    /// Mutable handles on the values, with their slots, in dense order; what
    /// is written through the `k`-th handle becomes the value of the `k`-th
    /// dense entry.
    pub fn iter_mut(&mut self) -> (r: Vec<(u32, &mut T)>)
        ensures
            r@.len() == old(self).entries().len(),
            forall|k: int|
                0 <= k < r@.len() ==> r@[k].0 == old(self).entries()[k].0 && *r@[k].1 == old(self).entries()[k].1,
            final(self).slots() == old(self).slots(),
            final(self).entries() == Seq::new(r@.len(), |k: int| (r@[k].0, *final(r@[k].1))),
            old(self).wf() ==> final(self).wf() && final(self)@.dom() == old(self)@.dom(),
    {
        let ghost orig = self.dense@;
        let ghost fin = final(self).dense@;
        let ghost after = *final(self);
        let mut r: Vec<(u32, &mut T)> = Vec::new();
        let mut rest: &mut [(u32, T)] = self.dense.as_mut_slice();
        while rest.len() > 0
            invariant
                r@.len() + rest@.len() == orig.len(),
                rest@ == orig.subrange(r@.len() as int, orig.len() as int),
                forall|k: int| 0 <= k < r@.len() ==> r@[k].0 == orig[k].0 && *r@[k].1 == orig[k].1,
                fin == Seq::new(r@.len(), |k: int| (r@[k].0, *final(r@[k].1))) + final(rest)@,
            decreases rest@.len(),
        {
            let (head, tail) = rest.split_at_mut(1);
            let e = &mut head[0];
            r.push((e.0, &mut e.1));
            rest = tail;
        }
        proof {
            if old(self).wf() {
                old(self).lemma_same_shape(after);
            }
        }
        r
    }

    /// The number of dense entries.
    pub fn len(&self) -> (r: u32)
        requires
            self.wf(),
        ensures
            r == self.entries().len(),
            r == self@.len(),
    {
        proof {
            self.lemma_entries_exact();
        }
        self.dense.len() as u32
    }

    /// Whether the dense array is empty.
    pub fn is_empty(&self) -> (r: bool)
        ensures
            r == (self.entries().len() == 0),
            self.wf() ==> r == (self@.len() == 0),
    {
        proof {
            if self.wf() {
                self.lemma_entries_exact();
            }
        }
        self.dense.len() == 0
    }
}

impl<T> Default for Pool<T> {
    fn default() -> (r: Self)
        ensures
            r.wf(),
            r@ == Map::<u32, T>::empty(),
    {
        Self::new()
    }
}

} // verus!
