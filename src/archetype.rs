use vstd::prelude::*;

verus! {

/// A live entity: a dense id and the generation that tells reuses of the id apart.
#[derive(Debug, Clone, Copy, PartialEq, Eq, Structural, Hash)]
pub struct Entity {
    pub id: u32,
    pub generation: u32,
}

/// The row of an entity id in the metadata table.
#[derive(Debug, Clone, Copy, PartialEq, Eq, Structural)]
pub struct EntityMeta {
    pub generation: u32,
}

/// Borrow counters of an archetype's columns, as a model: shared-borrow counts and
/// exclusive flags, one of each per column.
pub open spec fn counters_wf(st: (Seq<u32>, Seq<bool>), n: nat) -> bool {
    &&& st.0.len() == n
    &&& st.1.len() == n
    &&& forall|i: int| 0 <= i < n && #[trigger] st.1[i] ==> st.0[i] == 0
}

/// Taking a shared borrow of the column of `t`: a no-op where the column is absent,
/// refused where the column is held exclusively or its count is at its maximum.
pub open spec fn acquire_shared(types: Seq<u32>, st: (Seq<u32>, Seq<bool>), t: u32) -> Option<
    (Seq<u32>, Seq<bool>),
> {
    if !types.contains(t) {
        Some(st)
    } else {
        let c = types.index_of(t);
        if st.1[c] || st.0[c] == u32::MAX {
            None
        } else {
            Some((st.0.update(c, (st.0[c] + 1) as u32), st.1))
        }
    }
}

/// Taking an exclusive borrow of the column of `t`: a no-op where the column is absent,
/// refused where any borrow of the column is live.
pub open spec fn acquire_exclusive(types: Seq<u32>, st: (Seq<u32>, Seq<bool>), t: u32) -> Option<
    (Seq<u32>, Seq<bool>),
> {
    if !types.contains(t) {
        Some(st)
    } else {
        let c = types.index_of(t);
        if st.1[c] || st.0[c] > 0 {
            None
        } else {
            Some((st.0, st.1.update(c, true)))
        }
    }
}

/// Giving back a shared borrow of the column of `t`.
pub open spec fn release_shared(types: Seq<u32>, st: (Seq<u32>, Seq<bool>), t: u32) -> (
    Seq<u32>,
    Seq<bool>,
) {
    if !types.contains(t) {
        st
    } else {
        let c = types.index_of(t);
        if st.0[c] > 0 {
            (st.0.update(c, (st.0[c] - 1) as u32), st.1)
        } else {
            st
        }
    }
}

/// Giving back an exclusive borrow of the column of `t`.
pub open spec fn release_exclusive(types: Seq<u32>, st: (Seq<u32>, Seq<bool>), t: u32) -> (
    Seq<u32>,
    Seq<bool>,
) {
    if !types.contains(t) {
        st
    } else {
        (st.0, st.1.update(types.index_of(t), false))
    }
}

/// The column that holds `t`, in a table whose types are distinct.
pub proof fn lemma_column_of(types: Seq<u32>, t: u32, c: int)
    requires
        types.no_duplicates(),
        0 <= c < types.len(),
        types[c] == t,
    ensures
        types.contains(t),
        types.index_of(t) == c,
{
    assert(types.contains(t));
    let j = types.index_of(t);
    assert(types[j] == t);
}

/// The entities that share one set of component types, stored column by column,
/// with a dynamic borrow counter per column.
pub struct Archetype<V> {
    types: Vec<u32>,
    entities: Vec<u32>,
    columns: Vec<Vec<V>>,
    readers: Vec<u32>,
    writers: Vec<bool>,
}

impl<V> Archetype<V> {
    /// The component type of each column.
    pub closed spec fn types(&self) -> Seq<u32> {
        self.types@
    }

    /// The entity id of each row.
    pub closed spec fn entities(&self) -> Seq<u32> {
        self.entities@
    }

    /// The values of each column.
    pub closed spec fn columns(&self) -> Seq<Seq<V>> {
        self.columns@.map_values(|c: Vec<V>| c@)
    }

    /// Shared-borrow counts and exclusive flags of the columns.
    pub closed spec fn counters(&self) -> (Seq<u32>, Seq<bool>) {
        (self.readers@, self.writers@)
    }

    /// Number of rows.
    pub open spec fn spec_len(&self) -> nat {
        self.entities().len()
    }

    pub open spec fn wf(&self) -> bool {
        &&& self.types().no_duplicates()
        &&& self.entities().len() <= usize::MAX
        &&& self.columns().len() == self.types().len()
        &&& forall|i: int|
            0 <= i < self.columns().len() ==> #[trigger] self.columns()[i].len()
                == self.entities().len()
        &&& counters_wf(self.counters(), self.types().len())
    }

    /// Everything but the borrow counters agrees.
    pub open spec fn same_data(&self, other: &Archetype<V>) -> bool {
        &&& self.types() == other.types()
        &&& self.entities() == other.entities()
        &&& self.columns() == other.columns()
    }

    /// An empty archetype over the given component types; `None` where a type repeats.
    pub fn new(types: Vec<u32>) -> (r: Option<Archetype<V>>)
        ensures
            r is Some <==> types@.no_duplicates(),
            r matches Some(a) ==> {
                &&& a.wf()
                &&& a.types() == types@
                &&& a.entities().len() == 0
                &&& forall|i: int| 0 <= i < types@.len() ==> a.counters().0[i] == 0
                    && !a.counters().1[i]
            },
    {
        let n = types.len();
        let mut i: usize = 0;
        while i < n
            invariant
                n == types@.len(),
                i <= n,
                forall|a: int, b: int| 0 <= a < b < i ==> types@[a] != types@[b],
            decreases n - i,
        {
            let mut j: usize = 0;
            while j < i
                invariant
                    n == types@.len(),
                    j <= i < n,
                    forall|a: int| 0 <= a < j ==> types@[a] != types@[i as int],
                decreases i - j,
            {
                if types[j] == types[i] {
                    return None;
                }
                j += 1;
            }
            i += 1;
        }
        let mut columns: Vec<Vec<V>> = Vec::new();
        let mut readers: Vec<u32> = Vec::new();
        let mut writers: Vec<bool> = Vec::new();
        let mut k: usize = 0;
        while k < n
            invariant
                n == types@.len(),
                k <= n,
                columns@.len() == k,
                readers@.len() == k,
                writers@.len() == k,
                forall|a: int| 0 <= a < k ==> (#[trigger] columns@[a])@.len() == 0,
                forall|a: int| 0 <= a < k ==> #[trigger] readers@[a] == 0,
                forall|a: int| 0 <= a < k ==> !#[trigger] writers@[a],
            decreases n - k,
        {
            columns.push(Vec::new());
            readers.push(0);
            writers.push(false);
            k += 1;
        }
        let a = Archetype { types, entities: Vec::new(), columns, readers, writers };
        assert(a.types().no_duplicates());
        Some(a)
    }

    /// Number of rows.
    pub fn len(&self) -> (r: usize)
        ensures
            r == self.spec_len(),
    {
        self.entities.len()
    }

    /// Number of columns.
    pub fn column_count(&self) -> (r: usize)
        ensures
            r == self.types().len(),
    {
        self.types.len()
    }

    /// The component type of `column`.
    pub fn component_type(&self, column: usize) -> (r: u32)
        requires
            column < self.types().len(),
        ensures
            r == self.types()[column as int],
    {
        self.types[column]
    }

    /// Whether the archetype has a column for `t`.
    pub fn has(&self, t: u32) -> (r: bool)
        requires
            self.wf(),
        ensures
            r == self.types().contains(t),
    {
        self.column(t).is_some()
    }

    /// The column that holds `t`, if any.
    pub fn column(&self, t: u32) -> (r: Option<usize>)
        requires
            self.wf(),
        ensures
            r == (if self.types().contains(t) {
                Some(self.types().index_of(t) as usize)
            } else {
                None::<usize>
            }),
            r matches Some(c) ==> c < self.types().len() && self.types()[c as int] == t && c as int
                == self.types().index_of(t),
    {
        let mut i: usize = 0;
        while i < self.types.len()
            invariant
                self.wf(),
                i <= self.types@.len(),
                forall|a: int| 0 <= a < i ==> self.types@[a] != t,
            decreases self.types@.len() - i,
        {
            if self.types[i] == t {
                proof {
                    lemma_column_of(self.types(), t, i as int);
                }
                return Some(i);
            }
            i += 1;
        }
        None
    }

    /// The entity id stored at `row`.
    pub fn entity(&self, row: usize) -> (r: u32)
        requires
            row < self.spec_len(),
        ensures
            r == self.entities()[row as int],
    {
        self.entities[row]
    }

    /// The value in `column` at `row`.
    pub fn component(&self, column: usize, row: usize) -> (r: &V)
        requires
            self.wf(),
            column < self.types().len(),
            row < self.spec_len(),
        ensures
            *r == self.columns()[column as int][row as int],
    {
        assert(self.columns()[column as int] == self.columns@[column as int]@);
        &self.columns[column][row]
    }
    /// Takes a shared borrow of the column of `t`; `false`, with nothing changed, where
    /// the column is held exclusively.
    pub fn borrow(&mut self, t: u32) -> (ok: bool)
        requires
            old(self).wf(),
        ensures
            final(self).wf(),
            final(self).same_data(old(self)),
            ok == acquire_shared(old(self).types(), old(self).counters(), t) is Some,
            ok ==> final(self).counters() == acquire_shared(
                old(self).types(),
                old(self).counters(),
                t,
            )->0,
            !ok ==> final(self).counters() == old(self).counters(),
    {
        match self.column(t) {
            None => true,
            Some(c) => {
                if self.writers[c] || self.readers[c] == u32::MAX {
                    false
                } else {
                    let n = self.readers[c] + 1;
                    self.readers.set(c, n);
                    true
                }
            },
        }
    }

    /// Takes an exclusive borrow of the column of `t`; `false`, with nothing changed,
    /// where any borrow of the column is live.
    pub fn borrow_mut(&mut self, t: u32) -> (ok: bool)
        requires
            old(self).wf(),
        ensures
            final(self).wf(),
            final(self).same_data(old(self)),
            ok == acquire_exclusive(old(self).types(), old(self).counters(), t) is Some,
            ok ==> final(self).counters() == acquire_exclusive(
                old(self).types(),
                old(self).counters(),
                t,
            )->0,
            !ok ==> final(self).counters() == old(self).counters(),
    {
        match self.column(t) {
            None => true,
            Some(c) => {
                if self.writers[c] || self.readers[c] > 0 {
                    false
                } else {
                    self.writers.set(c, true);
                    true
                }
            },
        }
    }

    /// Gives back a shared borrow of the column of `t`.
    pub fn release(&mut self, t: u32)
        requires
            old(self).wf(),
        ensures
            final(self).wf(),
            final(self).same_data(old(self)),
            final(self).counters() == release_shared(old(self).types(), old(self).counters(), t),
    {
        if let Some(c) = self.column(t) {
            if self.readers[c] > 0 {
                let n = self.readers[c] - 1;
                self.readers.set(c, n);
            }
        }
    }

    /// Gives back an exclusive borrow of the column of `t`.
    pub fn release_mut(&mut self, t: u32)
        requires
            old(self).wf(),
        ensures
            final(self).wf(),
            final(self).same_data(old(self)),
            final(self).counters() == release_exclusive(
                old(self).types(),
                old(self).counters(),
                t,
            ),
    {
        if let Some(c) = self.column(t) {
            self.writers.set(c, false);
        }
    }

    /// Appends a row: entity id `id` with one value per column, in column order.
    pub fn push(&mut self, id: u32, values: Vec<V>)
        requires
            old(self).wf(),
            values@.len() == old(self).types().len(),
        ensures
            final(self).wf(),
            final(self).types() == old(self).types(),
            final(self).counters() == old(self).counters(),
            final(self).entities() == old(self).entities().push(id),
            forall|c: int|
                0 <= c < old(self).types().len() ==> #[trigger] final(self).columns()[c]
                    == old(self).columns()[c].push(values@[c]),
    {
        let ghost old_cols = self.columns();
        let ghost vals = values@;
        let n = self.types.len();
        let mut values = values;
        let mut k: usize = n;
        while k > 0
            invariant
                n == self.types@.len(),
                k <= n,
                values@ == vals.subrange(0, k as int),
                self.types@ == old(self).types@,
                self.entities@ == old(self).entities@,
                self.readers@ == old(self).readers@,
                self.writers@ == old(self).writers@,
                self.columns@.len() == n,
                forall|c: int| 0 <= c < k ==> (#[trigger] self.columns@[c])@ == old_cols[c],
                forall|c: int|
                    k <= c < n ==> (#[trigger] self.columns@[c])@ == old_cols[c].push(
                        vals[c],
                    ),
                old_cols == old(self).columns(),
                old_cols.len() == n,
                vals.len() == n,
            decreases k,
        {
            let v = values.pop().unwrap();
            k -= 1;
            self.columns[k].push(v);
        }
        self.entities.push(id);
        assert(self.entities@.len() == self.entities.len());
        assert forall|c: int| 0 <= c < n implies #[trigger] self.columns()[c] == old_cols[c].push(
            vals[c],
        ) by {
            assert(self.columns()[c] == self.columns@[c]@);
        }
        assert forall|c: int| 0 <= c < n implies #[trigger] self.columns()[c].len()
            == self.entities().len() by {
            assert(self.columns()[c] == self.columns@[c]@);
            assert(old_cols[c] == old(self).columns@[c]@);
        }
    }
}

} // verus!
