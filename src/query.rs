use vstd::prelude::*;
use crate::access::{Access, needs_borrow, requires_borrow};
use crate::archetype::{
    Archetype,
    counters_wf,
    acquire_shared,
    acquire_exclusive,
    release_shared,
    release_exclusive,
};

verus! {

/// Filter: only archetypes that have a `component` column, then `query`.
pub struct With {
    pub component: u32,
    pub query: Box<Query>,
}

/// Filter: only archetypes without a `component` column, then `query`.
pub struct Without {
    pub component: u32,
    pub query: Box<Query>,
}

/// A query descriptor: a tree of per-component accesses and filters. Components are
/// named by their type ids.
pub enum Query {
    /// The empty tuple: every archetype, entity ids only.
    Unit,
    /// A shared view of a component.
    Read(u32),
    /// An exclusive view of a component.
    Write(u32),
    /// The inner query's view where it applies, `None` elsewhere.
    Optional(Box<Query>),
    With(With),
    Without(Without),
    /// A tuple: both queries, on archetypes where both apply.
    Pair(Box<Query>, Box<Query>),
}

/// How `q` accesses an archetype with column types `types`; `None` where it skips it.
pub open spec fn access_of(q: Query, types: Seq<u32>) -> Option<Access>
    decreases q,
{
    match q {
        Query::Unit => Some(Access::Iterate),
        Query::Read(t) => if types.contains(t) {
            Some(Access::Read)
        } else {
            None
        },
        Query::Write(t) => if types.contains(t) {
            Some(Access::Write)
        } else {
            None
        },
        Query::Optional(inner) => match access_of(*inner, types) {
            Some(a) => Some(a),
            None => Some(Access::Iterate),
        },
        Query::With(w) => if types.contains(w.component) {
            access_of(*w.query, types)
        } else {
            None
        },
        Query::Without(w) => if types.contains(w.component) {
            None
        } else {
            access_of(*w.query, types)
        },
        Query::Pair(l, r) => match (access_of(*l, types), access_of(*r, types)) {
            (Some(a), Some(b)) => Some(a.spec_join(b)),
            _ => None,
        },
    }
}

/// Whether `q` visits archetypes with column types `types`.
pub open spec fn applies(q: Query, types: Seq<u32>) -> bool {
    access_of(q, types) is Some
}

/// The borrow counters after `q` takes its borrows, leaf by leaf from left to right,
/// or the component whose borrow was refused first. Filters do not stop borrowing:
/// every leaf is borrowed where its column exists.
pub open spec fn acquire(q: Query, types: Seq<u32>, st: (Seq<u32>, Seq<bool>)) -> Result<
    (Seq<u32>, Seq<bool>),
    u32,
>
    decreases q,
{
    match q {
        Query::Unit => Ok(st),
        Query::Read(t) => match acquire_shared(types, st, t) {
            Some(s) => Ok(s),
            None => Err(t),
        },
        Query::Write(t) => match acquire_exclusive(types, st, t) {
            Some(s) => Ok(s),
            None => Err(t),
        },
        Query::Optional(inner) => acquire(*inner, types, st),
        Query::With(w) => acquire(*w.query, types, st),
        Query::Without(w) => acquire(*w.query, types, st),
        Query::Pair(l, r) => match acquire(*l, types, st) {
            Ok(s) => acquire(*r, types, s),
            Err(t) => Err(t),
        },
    }
}

/// The borrow counters after `q` gives its borrows back, in the reverse order of `acquire`.
pub open spec fn release_all(q: Query, types: Seq<u32>, st: (Seq<u32>, Seq<bool>)) -> (
    Seq<u32>,
    Seq<bool>,
)
    decreases q,
{
    match q {
        Query::Unit => st,
        Query::Read(t) => release_shared(types, st, t),
        Query::Write(t) => release_exclusive(types, st, t),
        Query::Optional(inner) => release_all(*inner, types, st),
        Query::With(w) => release_all(*w.query, types, st),
        Query::Without(w) => release_all(*w.query, types, st),
        Query::Pair(l, r) => release_all(*l, types, release_all(*r, types, st)),
    }
}

/// Borrowing keeps the counters well formed.
pub proof fn lemma_acquire_wf(q: Query, types: Seq<u32>, st: (Seq<u32>, Seq<bool>))
    requires
        counters_wf(st, types.len()),
    ensures
        acquire(q, types, st) matches Ok(s) ==> counters_wf(s, types.len()),
    decreases q,
{
    match q {
        Query::Read(t) => {
            if types.contains(t) {
                let c = types.index_of(t);
                let s = (st.0.update(c, (st.0[c] + 1) as u32), st.1);
                if !(st.1[c] || st.0[c] == u32::MAX) {
                    assert forall|i: int| 0 <= i < types.len() && #[trigger] s.1[i] implies s.0[i]
                        == 0 by {
                        if i != c {
                            assert(st.1[i]);
                        }
                    }
                }
            }
        },
        Query::Write(t) => {
            if types.contains(t) {
                let c = types.index_of(t);
                let s = (st.0, st.1.update(c, true));
                if !(st.1[c] || st.0[c] > 0) {
                    assert forall|i: int| 0 <= i < types.len() && #[trigger] s.1[i] implies s.0[i]
                        == 0 by {
                        if i != c {
                            assert(st.1[i]);
                        }
                    }
                }
            }
        },
        Query::Optional(inner) => lemma_acquire_wf(*inner, types, st),
        Query::With(w) => lemma_acquire_wf(*w.query, types, st),
        Query::Without(w) => lemma_acquire_wf(*w.query, types, st),
        Query::Pair(l, r) => {
            lemma_acquire_wf(*l, types, st);
            if let Ok(s) = acquire(*l, types, st) {
                lemma_acquire_wf(*r, types, s);
            }
        },
        Query::Unit => {},
    }
}

/// Giving back what was just taken restores the counters.
pub proof fn lemma_release_undoes_acquire(q: Query, types: Seq<u32>, st: (Seq<u32>, Seq<bool>))
    requires
        counters_wf(st, types.len()),
    ensures
        acquire(q, types, st) matches Ok(s) ==> release_all(q, types, s) == st,
    decreases q,
{
    match q {
        Query::Read(t) => {
            if types.contains(t) {
                let c = types.index_of(t);
                if !(st.1[c] || st.0[c] == u32::MAX) {
                    let s = (st.0.update(c, (st.0[c] + 1) as u32), st.1);
                    assert(release_shared(types, s, t).0 =~= st.0);
                }
            }
        },
        Query::Write(t) => {
            if types.contains(t) {
                let c = types.index_of(t);
                if !(st.1[c] || st.0[c] > 0) {
                    let s = (st.0, st.1.update(c, true));
                    assert(release_exclusive(types, s, t).1 =~= st.1);
                }
            }
        },
        Query::Optional(inner) => lemma_release_undoes_acquire(*inner, types, st),
        Query::With(w) => lemma_release_undoes_acquire(*w.query, types, st),
        Query::Without(w) => lemma_release_undoes_acquire(*w.query, types, st),
        Query::Pair(l, r) => {
            lemma_release_undoes_acquire(*l, types, st);
            lemma_acquire_wf(*l, types, st);
            if let Ok(s) = acquire(*l, types, st) {
                lemma_release_undoes_acquire(*r, types, s);
            }
        },
        Query::Unit => {},
    }
}

impl Query {
    /// A copy of this query.
    pub fn duplicate(&self) -> (r: Query)
        ensures
            r == *self,
        decreases self,
    {
        match self {
            Query::Unit => Query::Unit,
            Query::Read(t) => Query::Read(*t),
            Query::Write(t) => Query::Write(*t),
            Query::Optional(inner) => Query::Optional(Box::new(inner.duplicate())),
            Query::With(w) => Query::With(
                With { component: w.component, query: Box::new(w.query.duplicate()) },
            ),
            Query::Without(w) => Query::Without(
                Without { component: w.component, query: Box::new(w.query.duplicate()) },
            ),
            Query::Pair(l, r) => Query::Pair(Box::new(l.duplicate()), Box::new(r.duplicate())),
        }
    }

    /// How this query accesses `archetype`, if at all.
    pub fn access<V>(&self, archetype: &Archetype<V>) -> (r: Option<Access>)
        requires
            archetype.wf(),
        ensures
            r == access_of(*self, archetype.types()),
        decreases self,
    {
        match self {
            Query::Unit => Some(Access::Iterate),
            Query::Read(t) => if archetype.has(*t) {
                Some(Access::Read)
            } else {
                None
            },
            Query::Write(t) => if archetype.has(*t) {
                Some(Access::Write)
            } else {
                None
            },
            Query::Optional(inner) => match inner.access(archetype) {
                Some(a) => Some(a),
                None => Some(Access::Iterate),
            },
            Query::With(w) => if archetype.has(w.component) {
                w.query.access(archetype)
            } else {
                None
            },
            Query::Without(w) => if archetype.has(w.component) {
                None
            } else {
                w.query.access(archetype)
            },
            Query::Pair(l, r) => match l.access(archetype) {
                Some(a) => match r.access(archetype) {
                    Some(b) => Some(a.join(b)),
                    None => None,
                },
                None => None,
            },
        }
    }

    /// Whether this query's access to `archetype` calls for dynamic borrows.
    pub fn needs_borrow<V>(&self, archetype: &Archetype<V>) -> (r: bool)
        requires
            archetype.wf(),
        ensures
            r == needs_borrow(access_of(*self, archetype.types())),
    {
        requires_borrow(self.access(archetype))
    }

    /// Takes this query's borrows on `archetype`. On a conflict it gives back what it
    /// took, leaves the counters as they were, and names the component refused.
    pub fn borrow<V>(&self, archetype: &mut Archetype<V>) -> (r: Result<(), u32>)
        requires
            old(archetype).wf(),
        ensures
            final(archetype).wf(),
            final(archetype).same_data(old(archetype)),
            match acquire(*self, old(archetype).types(), old(archetype).counters()) {
                Ok(s) => r is Ok && final(archetype).counters() == s,
                Err(t) => r == Err::<(), u32>(t) && final(archetype).counters() == old(
                    archetype,
                ).counters(),
            },
        decreases self,
    {
        match self {
            Query::Unit => Ok(()),
            Query::Read(t) => if archetype.borrow(*t) {
                Ok(())
            } else {
                Err(*t)
            },
            Query::Write(t) => if archetype.borrow_mut(*t) {
                Ok(())
            } else {
                Err(*t)
            },
            Query::Optional(inner) => inner.borrow(archetype),
            Query::With(w) => w.query.borrow(archetype),
            Query::Without(w) => w.query.borrow(archetype),
            Query::Pair(l, r) => {
                let ghost st = archetype.counters();
                match l.borrow(archetype) {
                    Err(t) => Err(t),
                    Ok(()) => match r.borrow(archetype) {
                        Ok(()) => Ok(()),
                        Err(t) => {
                            l.release(archetype);
                            proof {
                                lemma_release_undoes_acquire(**l, archetype.types(), st);
                            }
                            Err(t)
                        },
                    },
                }
            },
        }
    }

    /// Gives back this query's borrows on `archetype`.
    pub fn release<V>(&self, archetype: &mut Archetype<V>)
        requires
            old(archetype).wf(),
        ensures
            final(archetype).wf(),
            final(archetype).same_data(old(archetype)),
            final(archetype).counters() == release_all(
                *self,
                old(archetype).types(),
                old(archetype).counters(),
            ),
        decreases self,
    {
        match self {
            Query::Unit => {},
            Query::Read(t) => archetype.release(*t),
            Query::Write(t) => archetype.release_mut(*t),
            Query::Optional(inner) => inner.release(archetype),
            Query::With(w) => w.query.release(archetype),
            Query::Without(w) => w.query.release(archetype),
            Query::Pair(l, r) => {
                r.release(archetype);
                l.release(archetype);
            },
        }
    }
}

} // verus!
