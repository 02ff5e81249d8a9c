use vstd::prelude::*;
use crate::archetype::Archetype;
use crate::query::{Query, applies};

verus! {

/// Where a leaf view points: a column of an archetype, and a row in it.
#[derive(Debug, Clone, Copy, PartialEq, Eq, Structural)]
pub struct Slot {
    pub archetype: usize,
    pub column: usize,
    pub row: usize,
}

/// What a query yields for one entity: the shape of the query, with a slot at each leaf.
#[derive(Debug, PartialEq, Eq)]
pub enum View {
    Unit,
    /// Shared access to the slot.
    Ref(Slot),
    /// Exclusive access to the slot.
    Mut(Slot),
    Opt(Option<Box<View>>),
    Pair(Box<View>, Box<View>),
}

/// The fetch of a shared leaf: the column it reads.
pub struct FetchRead {
    pub archetype: usize,
    pub column: usize,
}

/// The fetch of an exclusive leaf: the column it writes.
pub struct FetchWrite {
    pub archetype: usize,
    pub column: usize,
}

/// The fetch of an optional query: the inner fetch where the inner query applies.
pub struct TryFetch {
    pub inner: Option<Box<Fetch>>,
}

/// The fetch of a `With` filter: the inner fetch, unchanged.
pub struct FetchWith {
    pub inner: Box<Fetch>,
}

/// The fetch of a `Without` filter: the inner fetch, unchanged.
pub struct FetchWithout {
    pub inner: Box<Fetch>,
}

/// A query materialised for one archetype: the columns that its leaves read.
pub enum Fetch {
    Unit,
    Read(FetchRead),
    Write(FetchWrite),
    Try(TryFetch),
    With(FetchWith),
    Without(FetchWithout),
    Pair(Box<Fetch>, Box<Fetch>),
}

/// The fetch of `q` for archetype number `ai` with column types `types`; `None` where
/// `q` skips the archetype.
pub open spec fn fetch_of(q: Query, types: Seq<u32>, ai: usize) -> Option<Fetch>
    decreases q,
{
    match q {
        Query::Unit => Some(Fetch::Unit),
        Query::Read(t) => if types.contains(t) {
            Some(Fetch::Read(FetchRead { archetype: ai, column: types.index_of(t) as usize }))
        } else {
            None
        },
        Query::Write(t) => if types.contains(t) {
            Some(Fetch::Write(FetchWrite { archetype: ai, column: types.index_of(t) as usize }))
        } else {
            None
        },
        Query::Optional(inner) => Some(
            Fetch::Try(
                TryFetch {
                    inner: match fetch_of(*inner, types, ai) {
                        Some(f) => Some(Box::new(f)),
                        None => None,
                    },
                },
            ),
        ),
        Query::With(w) => if !types.contains(w.component) {
            None
        } else {
            match fetch_of(*w.query, types, ai) {
                Some(f) => Some(Fetch::With(FetchWith { inner: Box::new(f) })),
                None => None,
            }
        },
        Query::Without(w) => if types.contains(w.component) {
            None
        } else {
            match fetch_of(*w.query, types, ai) {
                Some(f) => Some(Fetch::Without(FetchWithout { inner: Box::new(f) })),
                None => None,
            }
        },
        Query::Pair(l, r) => match (fetch_of(*l, types, ai), fetch_of(*r, types, ai)) {
            (Some(a), Some(b)) => Some(Fetch::Pair(Box::new(a), Box::new(b))),
            _ => None,
        },
    }
}

/// The view that fetch `f` gives for row `n`.
pub open spec fn fetch_view(f: Fetch, n: usize) -> View
    decreases f,
{
    match f {
        Fetch::Unit => View::Unit,
        Fetch::Read(r) => View::Ref(Slot { archetype: r.archetype, column: r.column, row: n }),
        Fetch::Write(w) => View::Mut(Slot { archetype: w.archetype, column: w.column, row: n }),
        Fetch::Try(t) => View::Opt(
            match t.inner {
                Some(i) => Some(Box::new(fetch_view(*i, n))),
                None => None,
            },
        ),
        Fetch::With(w) => fetch_view(*w.inner, n),
        Fetch::Without(w) => fetch_view(*w.inner, n),
        Fetch::Pair(a, b) => View::Pair(Box::new(fetch_view(*a, n)), Box::new(fetch_view(*b, n))),
    }
}

/// The view that `q` yields for row `n` of archetype number `ai` with column types
/// `types`: each leaf points at the column of its component, in that row.
pub open spec fn view_of(q: Query, types: Seq<u32>, ai: usize, n: usize) -> View
    decreases q,
{
    match q {
        Query::Unit => View::Unit,
        Query::Read(t) => View::Ref(Slot { archetype: ai, column: types.index_of(t) as usize, row: n }),
        Query::Write(t) => View::Mut(Slot { archetype: ai, column: types.index_of(t) as usize, row: n }),
        Query::Optional(inner) => View::Opt(
            if applies(*inner, types) {
                Some(Box::new(view_of(*inner, types, ai, n)))
            } else {
                None
            },
        ),
        Query::With(w) => view_of(*w.query, types, ai, n),
        Query::Without(w) => view_of(*w.query, types, ai, n),
        Query::Pair(l, r) => View::Pair(
            Box::new(view_of(*l, types, ai, n)),
            Box::new(view_of(*r, types, ai, n)),
        ),
    }
}

/// A fetch exists exactly where the query applies, and it gives the query's view.
pub proof fn lemma_fetch_of(q: Query, types: Seq<u32>, ai: usize, n: usize)
    ensures
        fetch_of(q, types, ai) is Some <==> applies(q, types),
        fetch_of(q, types, ai) matches Some(f) ==> fetch_view(f, n) == view_of(q, types, ai, n),
    decreases q,
{
    match q {
        Query::Optional(inner) => lemma_fetch_of(*inner, types, ai, n),
        Query::With(w) => lemma_fetch_of(*w.query, types, ai, n),
        Query::Without(w) => lemma_fetch_of(*w.query, types, ai, n),
        Query::Pair(l, r) => {
            lemma_fetch_of(*l, types, ai, n);
            lemma_fetch_of(*r, types, ai, n);
        },
        _ => {},
    }
}

impl Fetch {
    /// A fetch that no row is ever read through: the state of an iterator that has not
    /// reached an archetype yet.
    pub fn dangling() -> (r: Fetch)
        ensures
            r == Fetch::Unit,
    {
        Fetch::Unit
    }

    /// The fetch of `query` for `archetype`, number `ai` of its world; `None` where the
    /// query skips the archetype.
    pub fn new<V>(query: &Query, ai: usize, archetype: &Archetype<V>) -> (r: Option<Fetch>)
        requires
            archetype.wf(),
        ensures
            r == fetch_of(*query, archetype.types(), ai),
        decreases query,
    {
        match query {
            Query::Unit => Some(Fetch::Unit),
            Query::Read(t) => match archetype.column(*t) {
                Some(c) => Some(Fetch::Read(FetchRead { archetype: ai, column: c })),
                None => None,
            },
            Query::Write(t) => match archetype.column(*t) {
                Some(c) => Some(Fetch::Write(FetchWrite { archetype: ai, column: c })),
                None => None,
            },
            Query::Optional(inner) => {
                let f = match Fetch::new(inner, ai, archetype) {
                    Some(f) => Some(Box::new(f)),
                    None => None,
                };
                Some(Fetch::Try(TryFetch { inner: f }))
            },
            Query::With(w) => {
                if !archetype.has(w.component) {
                    return None;
                }
                match Fetch::new(&w.query, ai, archetype) {
                    Some(f) => Some(Fetch::With(FetchWith { inner: Box::new(f) })),
                    None => None,
                }
            },
            Query::Without(w) => {
                if archetype.has(w.component) {
                    return None;
                }
                match Fetch::new(&w.query, ai, archetype) {
                    Some(f) => Some(Fetch::Without(FetchWithout { inner: Box::new(f) })),
                    None => None,
                }
            },
            Query::Pair(l, r) => match Fetch::new(l, ai, archetype) {
                Some(a) => match Fetch::new(r, ai, archetype) {
                    Some(b) => Some(Fetch::Pair(Box::new(a), Box::new(b))),
                    None => None,
                },
                None => None,
            },
        }
    }

    /// The view of row `n`. Bounds are the caller's business: a view only names a slot.
    pub fn get(&self, n: usize) -> (r: View)
        ensures
            r == fetch_view(*self, n),
        decreases self,
    {
        match self {
            Fetch::Unit => View::Unit,
            Fetch::Read(f) => View::Ref(Slot { archetype: f.archetype, column: f.column, row: n }),
            Fetch::Write(f) => View::Mut(Slot { archetype: f.archetype, column: f.column, row: n }),
            Fetch::Try(f) => View::Opt(
                match &f.inner {
                    Some(i) => Some(Box::new(i.get(n))),
                    None => None,
                },
            ),
            Fetch::With(f) => f.inner.get(n),
            Fetch::Without(f) => f.inner.get(n),
            Fetch::Pair(a, b) => View::Pair(Box::new(a.get(n)), Box::new(b.get(n))),
        }
    }
}

} // verus!
