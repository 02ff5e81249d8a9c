use vstd::prelude::*;
use crate::access::needs_borrow;
use crate::archetype::{Archetype, Entity, EntityMeta};
use crate::fetch::Slot;
use crate::query::{Query, access_of, acquire, release_all, lemma_release_undoes_acquire};

verus! {

/// Sum of `lens[i..]`.
pub open spec fn rows_from(lens: Seq<nat>, i: int) -> nat
    decreases lens.len() - i,
{
    if i < 0 || i >= lens.len() {
        0
    } else {
        lens[i] + rows_from(lens, i + 1)
    }
}

proof fn lemma_rows_push_empty(lens: Seq<nat>, i: int)
    requires
        0 <= i,
    ensures
        rows_from(lens.push(0), i) == rows_from(lens, i),
    decreases lens.len() - i,
{
    if i < lens.len() {
        lemma_rows_push_empty(lens, i + 1);
    } else {
        assert(rows_from(lens.push(0), i + 1) == 0);
    }
}

proof fn lemma_rows_bump(lens: Seq<nat>, k: int, i: int)
    requires
        0 <= i,
        0 <= k < lens.len(),
    ensures
        rows_from(lens.update(k, lens[k] + 1), i) == rows_from(lens, i) + if i <= k {
            1nat
        } else {
            0nat
        },
    decreases lens.len() - i,
{
    if i < lens.len() {
        lemma_rows_bump(lens, k, i + 1);
    }
}

/// The tail sums shrink as the start moves right.
pub proof fn lemma_rows_from_mono(lens: Seq<nat>, i: int, j: int)
    requires
        0 <= i <= j,
    ensures
        rows_from(lens, j) <= rows_from(lens, i),
    decreases j - i,
{
    if i < j {
        lemma_rows_from_mono(lens, i + 1, j);
    }
}

/// The error of a query whose borrows conflict with borrows already live.
#[derive(Debug, Clone, Copy, PartialEq, Eq, Structural)]
pub struct BorrowError {
    /// The archetype where the borrow was refused.
    pub archetype: usize,
    /// The component whose column was already borrowed.
    pub component: u32,
}

impl BorrowError {
    /// A human-readable description.
    pub fn message(&self) -> (r: String)
        ensures
            r@ == "already borrowed"@,
    {
        String::from_str("already borrowed")
    }
}

/// The archetypes of a world and its entity metadata table.
pub struct World<V> {
    meta: Vec<EntityMeta>,
    archetypes: Vec<Archetype<V>>,
}

impl<V> World<V> {
    pub closed spec fn meta(&self) -> Seq<EntityMeta> {
        self.meta@
    }

    pub closed spec fn archetypes(&self) -> Seq<Archetype<V>> {
        self.archetypes@
    }

    /// Row count of each archetype.
    pub open spec fn lens(&self) -> Seq<nat> {
        self.archetypes().map_values(|a: Archetype<V>| a.spec_len())
    }

    pub open spec fn wf(&self) -> bool {
        &&& self.meta().len() <= u32::MAX
        &&& self.archetypes().len() <= usize::MAX
        &&& rows_from(self.lens(), 0) <= self.meta().len()
        &&& forall|i: int| 0 <= i < self.archetypes().len() ==> #[trigger] self.archetypes()[i].wf()
        &&& forall|i: int, r: int|
            0 <= i < self.archetypes().len() && 0 <= r < self.archetypes()[i].spec_len() ==> (
            #[trigger] self.archetypes()[i].entities()[r]) < self.meta().len()
    }

    /// Everything but the borrow counters agrees.
    pub open spec fn same_data(&self, other: &World<V>) -> bool {
        &&& self.meta() == other.meta()
        &&& self.archetypes().len() == other.archetypes().len()
        &&& forall|i: int|
            0 <= i < self.archetypes().len() ==> #[trigger] self.archetypes()[i].same_data(
                &other.archetypes()[i],
            )
    }

    /// The entity at `row` of archetype `i`, with the generation that the metadata holds.
    pub open spec fn entity_at(&self, i: int, row: int) -> Entity {
        let id = self.archetypes()[i].entities()[row];
        Entity { id, generation: self.meta()[id as int].generation }
    }

    /// Whether `slot` names a value of the world.
    pub open spec fn valid_slot(&self, slot: Slot) -> bool {
        &&& slot.archetype < self.archetypes().len()
        &&& slot.column < self.archetypes()[slot.archetype as int].types().len()
        &&& slot.row < self.archetypes()[slot.archetype as int].spec_len()
    }

    /// An empty world.
    pub fn new() -> (r: World<V>)
        ensures
            r.wf(),
            r.meta().len() == 0,
            r.archetypes().len() == 0,
    {
        let w = World { meta: Vec::new(), archetypes: Vec::new() };
        assert(rows_from(w.lens(), 0) == 0);
        w
    }

    /// Number of archetypes.
    pub fn archetype_count(&self) -> (r: usize)
        ensures
            r == self.archetypes().len(),
    {
        self.archetypes.len()
    }

    /// Archetype number `i`.
    pub fn archetype(&self, i: usize) -> (r: &Archetype<V>)
        requires
            i < self.archetypes().len(),
        ensures
            *r == self.archetypes()[i as int],
    {
        &self.archetypes[i]
    }

    /// The metadata of entity id `id`.
    pub fn meta_of(&self, id: u32) -> (r: EntityMeta)
        requires
            id < self.meta().len(),
        ensures
            r == self.meta()[id as int],
    {
        self.meta[id as usize]
    }

    /// Adds an empty archetype over `types` and returns its number; `None` where a type
    /// repeats.
    pub fn add_archetype(&mut self, types: Vec<u32>) -> (r: Option<usize>)
        requires
            old(self).wf(),
        ensures
            final(self).wf(),
            final(self).meta() == old(self).meta(),
            r is Some <==> types@.no_duplicates(),
            r matches Some(i) ==> {
                &&& i == old(self).archetypes().len()
                &&& final(self).archetypes().len() == i + 1
                &&& final(self).archetypes()[i as int].types() == types@
                &&& final(self).archetypes()[i as int].spec_len() == 0
                &&& forall|c: int|
                    0 <= c < types@.len() ==> #[trigger] final(self).archetypes()[i as int].counters().0[c]
                        == 0 && !final(self).archetypes()[i as int].counters().1[c]
                &&& forall|j: int|
                    0 <= j < i ==> #[trigger] final(self).archetypes()[j]
                        == old(self).archetypes()[j]
            },
            r is None ==> final(self).archetypes() == old(self).archetypes(),
    {
        match Archetype::new(types) {
            None => None,
            Some(a) => {
                let i = self.archetypes.len();
                proof {
                    lemma_rows_push_empty(self.lens(), 0);
                }
                self.archetypes.push(a);
                assert(self.archetypes@.len() == self.archetypes.len());
                assert(self.lens() =~= old(self).lens().push(0));
                Some(i)
            },
        }
    }

    /// Adds an entity to archetype `archetype`, with one value per column in column
    /// order. It gets the next unused id and generation 0. `None`, with nothing changed,
    /// where the archetype does not exist, the values do not match its columns, or the
    /// ids are used up.
    pub fn spawn(&mut self, archetype: usize, values: Vec<V>) -> (r: Option<Entity>)
        requires
            old(self).wf(),
        ensures
            final(self).wf(),
            r is Some <==> archetype < old(self).archetypes().len() && values@.len() == old(
                self,
            ).archetypes()[archetype as int].types().len() && old(self).meta().len() < u32::MAX,
            r is None ==> *final(self) == *old(self),
            r matches Some(e) ==> {
                &&& e.id == old(self).meta().len()
                &&& e.generation == 0
                &&& final(self).meta() == old(self).meta().push(EntityMeta { generation: 0 })
                &&& final(self).archetypes().len() == old(self).archetypes().len()
                &&& final(self).archetypes()[archetype as int].entities() == old(
                    self,
                ).archetypes()[archetype as int].entities().push(e.id)
                &&& final(self).archetypes()[archetype as int].types() == old(
                    self,
                ).archetypes()[archetype as int].types()
                &&& final(self).archetypes()[archetype as int].counters() == old(
                    self,
                ).archetypes()[archetype as int].counters()
                &&& forall|c: int|
                    0 <= c < values@.len()
                        ==> #[trigger] final(self).archetypes()[archetype as int].columns()[c]
                        == old(self).archetypes()[archetype as int].columns()[c].push(values@[c])
                &&& forall|j: int|
                    0 <= j < final(self).archetypes().len() && j != archetype
                        ==> #[trigger] final(self).archetypes()[j] == old(self).archetypes()[j]
            },
    {
        if archetype >= self.archetypes.len() {
            return None;
        }
        if values.len() != self.archetypes[archetype].column_count() {
            return None;
        }
        if self.meta.len() >= 0xffff_ffff {
            return None;
        }
        let id = self.meta.len() as u32;
        proof {
            assert(self.archetypes()[archetype as int].wf());
            lemma_rows_bump(self.lens(), archetype as int, 0);
        }
        self.archetypes[archetype].push(id, values);
        self.meta.push(EntityMeta { generation: 0 });
        assert(self.lens() =~= old(self).lens().update(
            archetype as int,
            old(self).lens()[archetype as int] + 1,
        ));
        assert forall|i: int, r: int|
            0 <= i < self.archetypes().len() && 0 <= r < self.archetypes()[i].spec_len() implies (
            #[trigger] self.archetypes()[i].entities()[r]) < self.meta().len() by {
            if i != archetype && r < old(self).archetypes()[i].spec_len() {
                assert(old(self).archetypes()[i].entities()[r] < old(self).meta().len());
            } else if r < old(self).archetypes()[i].spec_len() {
                assert(old(self).archetypes()[i].entities()[r] < old(self).meta().len());
            }
        }
        Some(Entity { id, generation: 0 })
    }

    /// Whether `q` borrows on archetype `i`: its access there is `Read` or more.
    pub open spec fn borrows_on(&self, q: Query, i: int) -> bool {
        needs_borrow(access_of(q, self.archetypes()[i].types()))
    }

    /// Whether every archetype that `q` borrows on accepts its borrows.
    pub open spec fn borrows_fit(&self, q: Query) -> bool {
        forall|i: int|
            0 <= i < self.archetypes().len() && #[trigger] self.borrows_on(q, i) ==> acquire(
                q,
                self.archetypes()[i].types(),
                self.archetypes()[i].counters(),
            ) is Ok
    }

    /// The counters of `self` are those of `before` after `q` took its borrows.
    pub open spec fn acquired_from(&self, before: &World<V>, q: Query) -> bool {
        forall|i: int|
            0 <= i < self.archetypes().len() ==> #[trigger] self.archetypes()[i].counters() == if before.borrows_on(q, i) {
                acquire(q, before.archetypes()[i].types(), before.archetypes()[i].counters())->Ok_0
            } else {
                before.archetypes()[i].counters()
            }
    }

    /// The counters of `self` are those of `before` after `q` gave its borrows back.
    pub open spec fn released_from(&self, before: &World<V>, q: Query) -> bool {
        forall|i: int|
            0 <= i < self.archetypes().len() ==> #[trigger] self.archetypes()[i].counters() == if before.borrows_on(q, i) {
                release_all(q, before.archetypes()[i].types(), before.archetypes()[i].counters())
            } else {
                before.archetypes()[i].counters()
            }
    }

    /// The counters of `self` and `before` agree.
    pub open spec fn same_counters(&self, before: &World<V>) -> bool {
        forall|i: int|
            0 <= i < self.archetypes().len() ==> #[trigger] self.archetypes()[i].counters()
                == before.archetypes()[i].counters()
    }

    /// Agreeing on everything but the counters goes both ways.
    pub proof fn lemma_same_data_symmetric(&self, other: &World<V>)
        requires
            self.same_data(other),
        ensures
            other.same_data(self),
    {
        assert forall|i: int| 0 <= i < other.archetypes().len() implies #[trigger] other.archetypes()[i].same_data(
            &self.archetypes()[i],
        ) by {
            assert(self.archetypes()[i].same_data(&other.archetypes()[i]));
        }
    }

    proof fn lemma_same_data_wf(&self, before: &World<V>)
        requires
            before.wf(),
            self.same_data(before),
            forall|i: int| 0 <= i < self.archetypes().len() ==> #[trigger] self.archetypes()[i].wf(),
        ensures
            self.wf(),
    {
        assert forall|i: int| 0 <= i < self.lens().len() implies self.lens()[i] == before.lens()[i] by {
            assert(self.archetypes()[i].same_data(&before.archetypes()[i]));
        }
        assert(self.lens() =~= before.lens());
        assert forall|i: int, r: int|
            0 <= i < self.archetypes().len() && 0 <= r < self.archetypes()[i].spec_len() implies (
            #[trigger] self.archetypes()[i].entities()[r]) < self.meta().len() by {
            assert(self.archetypes()[i].same_data(&before.archetypes()[i]));
            assert(before.archetypes()[i].entities()[r] < before.meta().len());
        }
    }

    /// Takes the borrows of `q` on every archetype where its access is `Read` or more.
    /// Where one is refused, every borrow taken so far is given back, and the error
    /// names the first archetype, in order, that refused, and the component refused.
    pub fn acquire_borrows(&mut self, q: &Query) -> (r: Result<(), BorrowError>)
        requires
            old(self).wf(),
        ensures
            final(self).wf(),
            final(self).same_data(old(self)),
            r is Ok <==> old(self).borrows_fit(*q),
            r is Ok ==> final(self).acquired_from(old(self), *q),
            r matches Err(e) ==> {
                &&& final(self).same_counters(old(self))
                &&& e.archetype < old(self).archetypes().len()
                &&& old(self).borrows_on(*q, e.archetype as int)
                &&& acquire(
                    *q,
                    old(self).archetypes()[e.archetype as int].types(),
                    old(self).archetypes()[e.archetype as int].counters(),
                ) == Err::<(Seq<u32>, Seq<bool>), u32>(e.component)
                &&& forall|j: int|
                    0 <= j < e.archetype && #[trigger] old(self).borrows_on(*q, j) ==> acquire(
                        *q,
                        old(self).archetypes()[j].types(),
                        old(self).archetypes()[j].counters(),
                    ) is Ok
            },
    {
        let ghost orig = *old(self);
        let n = self.archetypes.len();
        let mut i: usize = 0;
        while i < n
            invariant
                self.wf(),
                orig == *old(self),
                orig.wf(),
                self.same_data(old(self)),
                n == self.archetypes().len(),
                i <= n,
                forall|j: int|
                    0 <= j < i && #[trigger] old(self).borrows_on(*q, j) ==> acquire(
                        *q,
                        old(self).archetypes()[j].types(),
                        old(self).archetypes()[j].counters(),
                    ) is Ok,
                forall|j: int|
                    0 <= j < i ==> #[trigger] self.archetypes()[j].counters() == if old(self).borrows_on(*q, j) {
                        acquire(*q, old(self).archetypes()[j].types(), old(self).archetypes()[j].counters())->Ok_0
                    } else {
                        old(self).archetypes()[j].counters()
                    },
                forall|j: int|
                    i <= j < n ==> #[trigger] self.archetypes()[j].counters()
                        == old(self).archetypes()[j].counters(),
            decreases n - i,
        {
            assert(self.archetypes()[i as int].wf());
            assert(self.archetypes()[i as int].same_data(&old(self).archetypes()[i as int]));
            if q.needs_borrow(&self.archetypes[i]) {
                let ghost before = *self;
                match q.borrow(&mut self.archetypes[i]) {
                    Ok(()) => {
                        proof {
                            self.lemma_same_data_wf(&before);
                        }
                    },
                    Err(t) => {
                        proof {
                            self.lemma_same_data_wf(&before);
                            assert(old(self).borrows_on(*q, i as int));
                            assert(before.archetypes()[i as int].counters() == orig.archetypes()[i as int].counters());
                        }
                        self.release_prefix(q, i, Ghost(orig));
                        return Err(BorrowError { archetype: i, component: t });
                    },
                }
            }
            i += 1;
        }
        Ok(())
    }

    /// Gives back the borrows of `q` on archetypes `..k`, taken from the counters of `orig`.
    fn release_prefix(&mut self, q: &Query, k: usize, orig: Ghost<World<V>>)
        requires
            old(self).wf(),
            orig@.wf(),
            old(self).same_data(&orig@),
            k <= old(self).archetypes().len(),
            forall|j: int|
                0 <= j < k && #[trigger] orig@.borrows_on(*q, j) ==> acquire(
                    *q,
                    orig@.archetypes()[j].types(),
                    orig@.archetypes()[j].counters(),
                ) is Ok,
            forall|j: int|
                0 <= j < k ==> #[trigger] old(self).archetypes()[j].counters() == if orig@.borrows_on(*q, j) {
                    acquire(*q, orig@.archetypes()[j].types(), orig@.archetypes()[j].counters())->Ok_0
                } else {
                    orig@.archetypes()[j].counters()
                },
            forall|j: int|
                k <= j < old(self).archetypes().len() ==> #[trigger] old(self).archetypes()[j].counters()
                    == orig@.archetypes()[j].counters(),
        ensures
            final(self).wf(),
            final(self).same_data(&orig@),
            final(self).same_counters(&orig@),
    {
        let n = self.archetypes.len();
        let mut i: usize = 0;
        while i < k
            invariant
                self.wf(),
                orig@.wf(),
                self.same_data(&orig@),
                n == self.archetypes().len(),
                i <= k <= n,
                forall|j: int|
                    0 <= j < k && #[trigger] orig@.borrows_on(*q, j) ==> acquire(
                        *q,
                        orig@.archetypes()[j].types(),
                        orig@.archetypes()[j].counters(),
                    ) is Ok,
                forall|j: int|
                    0 <= j < i ==> #[trigger] self.archetypes()[j].counters()
                        == orig@.archetypes()[j].counters(),
                forall|j: int|
                    i <= j < k ==> #[trigger] self.archetypes()[j].counters() == if orig@.borrows_on(*q, j) {
                        acquire(*q, orig@.archetypes()[j].types(), orig@.archetypes()[j].counters())->Ok_0
                    } else {
                        orig@.archetypes()[j].counters()
                    },
                forall|j: int|
                    k <= j < n ==> #[trigger] self.archetypes()[j].counters()
                        == orig@.archetypes()[j].counters(),
            decreases k - i,
        {
            assert(self.archetypes()[i as int].wf());
            assert(self.archetypes()[i as int].same_data(&orig@.archetypes()[i as int]));
            assert(orig@.archetypes()[i as int].wf());
            if q.needs_borrow(&self.archetypes[i]) {
                let ghost before = *self;
                proof {
                    lemma_release_undoes_acquire(
                        *q,
                        orig@.archetypes()[i as int].types(),
                        orig@.archetypes()[i as int].counters(),
                    );
                }
                q.release(&mut self.archetypes[i]);
                proof {
                    self.lemma_same_data_wf(&before);
                }
            }
            i += 1;
        }
    }

    /// Gives back the borrows of `q` on every archetype where its access is `Read` or more.
    pub fn release_borrows(&mut self, q: &Query)
        requires
            old(self).wf(),
        ensures
            final(self).wf(),
            final(self).same_data(old(self)),
            final(self).released_from(old(self), *q),
    {
        let n = self.archetypes.len();
        let mut i: usize = 0;
        while i < n
            invariant
                self.wf(),
                self.same_data(old(self)),
                n == self.archetypes().len(),
                i <= n,
                forall|j: int|
                    0 <= j < i ==> #[trigger] self.archetypes()[j].counters() == if old(self).borrows_on(*q, j) {
                        release_all(*q, old(self).archetypes()[j].types(), old(self).archetypes()[j].counters())
                    } else {
                        old(self).archetypes()[j].counters()
                    },
                forall|j: int|
                    i <= j < n ==> #[trigger] self.archetypes()[j].counters()
                        == old(self).archetypes()[j].counters(),
            decreases n - i,
        {
            assert(self.archetypes()[i as int].wf());
            assert(self.archetypes()[i as int].same_data(&old(self).archetypes()[i as int]));
            if q.needs_borrow(&self.archetypes[i]) {
                let ghost before = *self;
                q.release(&mut self.archetypes[i]);
                proof {
                    self.lemma_same_data_wf(&before);
                }
            }
            i += 1;
        }
    }

    /// The value that `slot` names.
    pub fn component(&self, slot: &Slot) -> (r: &V)
        requires
            self.wf(),
            self.valid_slot(*slot),
        ensures
            *r == self.archetypes()[slot.archetype as int].columns()[slot.column as int][slot.row as int],
    {
        assert(self.archetypes()[slot.archetype as int].wf());
        self.archetypes[slot.archetype].component(slot.column, slot.row)
    }
}

} // verus!
