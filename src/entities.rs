use vstd::prelude::*;

use crate::entity::Entity;
use crate::pool::{Pool, ABSENT};

verus! {

/// The generation a slot takes when its entity is despawned: one more,
/// wrapping from the largest value back to one, never to zero.
pub open spec fn next_version(v: u32) -> u32 {
    if v == 0xffff_ffff {
        1
    } else {
        (v + 1) as u32
    }
}

/// The generational allocator: a pool from live slots to their current
/// generation, and a stack of retired handles that already carry the
/// generation they will be issued under next.
pub struct Entities {
    existence: Pool<u32>,
    free_list: Vec<Entity>,
}

impl View for Entities {
    type V = Map<u32, u32>;

    /// The live slots and their generations.
    open spec fn view(&self) -> Map<u32, u32> {
        self.table()@
    }
}

/// Whether an existence table and a free list can stand together: with `n`
/// the number of slots in either, no more than `ABSENT` slots; live slots
/// below `n` under a nonzero generation; retired slots below `n`, not live,
/// under a nonzero generation, and each retired once.
pub open spec fn valid_parts(existence: Pool<u32>, free: Seq<Entity>) -> bool {
    let n = existence.entries().len() + free.len();
    &&& n <= ABSENT
    &&& forall|s: u32| #[trigger] existence@.contains_key(s) ==> s < n && existence@[s] != 0
    &&& forall|k: int|
        #![trigger free[k]]
        0 <= k < free.len() ==> {
            &&& free[k].id < n
            &&& !existence@.contains_key(free[k].id)
            &&& free[k].version != 0
        }
    &&& forall|a: int, b: int|
        0 <= a < free.len() && 0 <= b < free.len() && a != b ==> #[trigger] free[a].id != #[trigger] free[b].id
}

/// What `spawn` does: the handle `e` it returns is new to `old`, it is now
/// alive in `new`, and it is the top of the free list if there was one,
/// else the next unused slot under generation one.
pub open spec fn spawned(old: Entities, new: Entities, e: Entity) -> bool {
    &&& new.wf()
    &&& !old@.contains_key(e.id)
    &&& new@ == old@.insert(e.id, e.version)
    &&& if old.free().len() > 0 {
        &&& e == old.free().last()
        &&& new.free() == old.free().drop_last()
        &&& new.allocated() == old.allocated()
    } else {
        &&& e == Entity { id: old.allocated() as u32, version: 1 }
        &&& new.free() == old.free()
        &&& new.allocated() == old.allocated() + 1
    }
}

/// What `despawn` does: a live handle `e` is retired and pushed back, one
/// generation on; a stale one changes nothing.
pub open spec fn despawned(old: Entities, new: Entities, e: Entity) -> bool {
    &&& new.wf()
    &&& if old.is_alive_spec(e) {
        &&& new@ == old@.remove(e.id)
        &&& new.free() == old.free().push(Entity { id: e.id, version: next_version(e.version) })
        &&& new.allocated() == old.allocated()
    } else {
        new == old
    }
}

/// A slot that is despawned and handed out again comes back under another
/// generation, never zero; the old handle is then dead and the new one alive.
pub proof fn lemma_generational_reuse(
    a0: Entities,
    a1: Entities,
    a2: Entities,
    a3: Entities,
    e: Entity,
    f: Entity,
)
    requires
        a0.wf(),
        spawned(a0, a1, e),
        despawned(a1, a2, e),
        spawned(a2, a3, f),
    ensures
        f.id == e.id,
        f.version == next_version(e.version),
        f.version != e.version,
        f.version != 0,
        !a3.is_alive_spec(e),
        a3.is_alive_spec(f),
{
    assert(a1.is_alive_spec(e));
    assert(a2.free().last() == Entity { id: e.id, version: next_version(e.version) });
}

/// Retired handles are reused last in, first out: after despawning `e1` and
/// then `e2`, the next two spawns take the slot of `e2` and then that of `e1`.
pub proof fn lemma_free_list_lifo(
    a0: Entities,
    a1: Entities,
    a2: Entities,
    a3: Entities,
    a4: Entities,
    e1: Entity,
    e2: Entity,
    f1: Entity,
    f2: Entity,
)
    requires
        a0.wf(),
        a0.is_alive_spec(e1),
        a0.is_alive_spec(e2),
        e1.id != e2.id,
        despawned(a0, a1, e1),
        despawned(a1, a2, e2),
        spawned(a2, a3, f1),
        spawned(a3, a4, f2),
    ensures
        f1.id == e2.id,
        f2.id == e1.id,
{
    assert(a1.is_alive_spec(e2));
    assert(a2.free().last().id == e2.id);
    assert(a3.free() == a1.free());
    assert(a3.free().last().id == e1.id);
}

/// Taking a well-formed allocator apart and putting it back together is
/// accepted, with the same live slots, generations and free list, whatever
/// well-formed pool the existence table comes back as, so long as it holds
/// the same live slots and generations.
pub proof fn lemma_parts_round_trip(a: Entities, table: Pool<u32>)
    requires
        a.wf(),
        table.wf(),
        table@ == a.table()@,
    ensures
        valid_parts(table, a.free()),
{
    table.lemma_entries_exact();
    a.table().lemma_entries_exact();
}

impl Entities {
    /// The existence table.
    pub closed spec fn table(&self) -> Pool<u32> {
        self.existence
    }

    /// The free list, bottom first.
    pub closed spec fn free(&self) -> Seq<Entity> {
        self.free_list@
    }

    /// How many slots have ever been handed out: each is alive or retired.
    pub open spec fn allocated(&self) -> int {
        (self.table().entries().len() + self.free().len()) as int
    }

    /// Whether `e` names the current lifetime of its slot.
    pub open spec fn is_alive_spec(&self, e: Entity) -> bool {
        self@.contains_key(e.id) && self@[e.id] == e.version
    }

    /// Whether another entity can be spawned without running out of slots.
    pub open spec fn can_spawn(&self) -> bool {
        self.free().len() > 0 || self.allocated() < ABSENT
    }

    /// The existence table is well formed, and it stands together with the
    /// free list as `valid_parts` asks.
    pub open spec fn wf(&self) -> bool {
        &&& self.table().wf()
        &&& valid_parts(self.table(), self.free())
    }

    /// An allocator with nothing spawned.
    pub fn new() -> (r: Self)
        ensures
            r.wf(),
            r@ == Map::<u32, u32>::empty(),
            r.free() == Seq::<Entity>::empty(),
            r.allocated() == 0,
    {
        Entities { existence: Pool::new(), free_list: Vec::new() }
    }

    /// Takes the allocator apart into its existence table and free list.
    pub fn into_parts(self) -> (r: (Pool<u32>, Vec<Entity>))
        ensures
            r.0 == self.table(),
            r.1@ == self.free(),
    {
        (self.existence, self.free_list)
    }

    /// Puts an allocator together from an existence table and a free list;
    /// `None` exactly when the two cannot stand together.
    pub fn from_parts(existence: Pool<u32>, free_list: Vec<Entity>) -> (r: Option<Self>)
        requires
            existence.wf(),
        ensures
            r is Some <==> valid_parts(existence, free_list@),
            r matches Some(x) ==> x.wf() && x.table() == existence && x.free() == free_list@,
    {
        proof {
            existence.lemma_entries_exact();
        }
        let n_alive = existence.len() as u64;
        if free_list.len() as u64 > ABSENT as u64 - n_alive {
            return None;
        }
        let n: u64 = n_alive + free_list.len() as u64;
        let ghost fr = free_list@;
        let items = existence.iter();
        let mut k: usize = 0;
        while k < items.len()
            invariant
                existence.wf(),
                n == existence.entries().len() + free_list@.len(),
                items@.len() == existence.entries().len(),
                forall|m: int|
                    0 <= m < items@.len() ==> items@[m].0 == existence.entries()[m].0
                        && *items@[m].1 == existence.entries()[m].1,
                k <= items@.len(),
                forall|m: int|
                    #![trigger existence.entries()[m]]
                    0 <= m < k ==> existence.entries()[m].0 < n && existence.entries()[m].1 != 0,
            decreases items@.len() - k,
        {
            let s = items[k].0;
            let v = *items[k].1;
            if s as u64 >= n || v == 0 {
                proof {
                    existence.lemma_entries_exact();
                    assert(existence@.contains_key(existence.entries()[k as int].0));
                }
                return None;
            }
            k += 1;
        }
        assert forall|s: u32| #[trigger] existence@.contains_key(s) implies s < n && existence@[s] != 0 by {
            assert(existence.entries()[existence.position(s)] == (s, existence@[s]));
        }
        let mut seen: Vec<bool> = Vec::new();
        while (seen.len() as u64) < n
            invariant
                seen@.len() <= n,
                forall|t: int| 0 <= t < seen@.len() ==> !seen@[t],
            decreases n - seen@.len(),
        {
            seen.push(false);
        }
        let mut j: usize = 0;
        while j < free_list.len()
            invariant
                free_list@ == fr,
                n == existence.entries().len() + fr.len(),
                seen@.len() == n,
                j <= fr.len(),
                forall|m: int|
                    #![trigger fr[m]]
                    0 <= m < j ==> {
                        &&& fr[m].id < n
                        &&& !existence@.contains_key(fr[m].id)
                        &&& fr[m].version != 0
                        &&& seen@[fr[m].id as int]
                    },
                forall|a: int, b: int|
                    0 <= a < j && 0 <= b < j && a != b ==> #[trigger] fr[a].id != #[trigger] fr[b].id,
                forall|t: int| 0 <= t < n && #[trigger] seen@[t] ==> exists|m: int| 0 <= m < j && fr[m].id == t,
            decreases fr.len() - j,
        {
            let f = free_list[j];
            if f.id as u64 >= n || existence.contains(f.id) || f.version == 0 || seen[f.id as usize] {
                proof {
                    if f.id < n && seen@[f.id as int] {
                        let m = choose|m: int| 0 <= m < j && fr[m].id == f.id;
                        assert(fr[m].id == fr[j as int].id);
                    }
                    assert(fr[j as int] == f);
                }
                return None;
            }
            seen.set(f.id as usize, true);
            proof {
                assert(fr[j as int] == f);
                assert forall|t: int| 0 <= t < n && #[trigger] seen@[t] implies exists|m: int| 0 <= m < j + 1 && fr[m].id == t by {
                    if t == f.id {
                        assert(fr[j as int].id == t);
                    } else {
                        let m = choose|m: int| 0 <= m < j && fr[m].id == t;
                        assert(fr[m].id == t);
                    }
                }
            }
            j += 1;
        }
        Some(Entities { existence, free_list })
    }


    /// Whether `e` is alive: its slot is live under exactly its generation.
    pub fn is_alive(&self, e: Entity) -> (r: bool)
        ensures
            r == self.is_alive_spec(e),
    {
        match self.existence.get(e.id) {
            Some(v) => *v == e.version,
            None => false,
        }
    }

    /// The live handle on slot `id`, if the slot is live.
    pub fn get_entity_from_id(&self, id: u32) -> (r: Option<Entity>)
        ensures
            r == if self@.contains_key(id) {
                Some(Entity { id, version: self@[id] })
            } else {
                None
            },
    {
        match self.existence.get(id) {
            Some(v) => Some(Entity { id, version: *v }),
            None => None,
        }
    }

    /// Issues a handle: the most recently retired one if any, else the next
    /// unused slot under generation one.
    pub fn spawn(&mut self) -> (r: Entity)
        requires
            old(self).wf(),
            old(self).can_spawn(),
        ensures
            spawned(*old(self), *final(self), r),
    {
        proof {
            self.existence.lemma_entries_exact();
        }
        let e = match self.free_list.pop() {
            Some(v) => v,
            None => Entity { id: self.existence.len(), version: 1 },
        };
        self.existence.insert(e.id, e.version);
        proof {
            let o = *old(self);
            if o.free().len() > 0 {
                assert(o.free()[o.free().len() - 1] == e);
            }
            assert forall|s: u32| #[trigger] self@.contains_key(s) implies s < self.allocated() && self@[s] != 0 by {
                if s != e.id {
                    assert(o@.contains_key(s));
                }
            }
            assert forall|a: int, b: int|
                0 <= a < self.free().len() && 0 <= b < self.free().len() && a != b
                    implies self.free()[a].id != self.free()[b].id by {
                assert(self.free()[a] == o.free()[a]);
                assert(self.free()[b] == o.free()[b]);
            }
            assert forall|k: int| 0 <= k < self.free().len() implies !self@.contains_key(#[trigger] self.free()[k].id) by {
                assert(self.free()[k] == o.free()[k]);
                if o.free().len() > 0 {
                    assert(o.free()[o.free().len() - 1] == e);
                }
            }
        }
        e
    }

    /// Retires `e` if it is alive, pushing it back one generation on; a
    /// stale handle is ignored.
    pub fn despawn(&mut self, e: Entity)
        requires
            old(self).wf(),
        ensures
            despawned(*old(self), *final(self), e),
    {
        if self.is_alive(e) {
            self.existence.remove(e.id);
            let v: u32 = if e.version == 0xffff_ffff {
                1
            } else {
                e.version + 1
            };
            self.free_list.push(Entity { id: e.id, version: v });
            proof {
                let o = *old(self);
                assert forall|k: int| 0 <= k < self.free().len() implies
                    (#[trigger] self.free()[k]).id < self.allocated() && !self@.contains_key(self.free()[k].id)
                    && self.free()[k].version != 0 by {
                    if k < o.free().len() {
                        assert(self.free()[k] == o.free()[k]);
                    }
                }
                assert forall|a: int, b: int|
                    0 <= a < self.free().len() && 0 <= b < self.free().len() && a != b
                        implies self.free()[a].id != self.free()[b].id by {
                    if a < o.free().len() {
                        assert(self.free()[a] == o.free()[a]);
                    }
                    if b < o.free().len() {
                        assert(self.free()[b] == o.free()[b]);
                    }
                }
            }
        }
    }
}

} // verus!
