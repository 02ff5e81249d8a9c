use vstd::prelude::*;
use crate::archetype::{counters_wf, Entity};
use crate::fetch::{View, view_of};
use crate::iter::{arch_yields, yields, yields_from};
use crate::query::{Query, With, Without, acquire, applies};
use crate::world::World;

verus! {

/// Number of rows of archetypes `i..` of `w` that `q` applies to.
pub open spec fn matched_rows<V>(q: Query, w: World<V>, i: int) -> nat
    decreases w.archetypes().len() - i,
{
    if 0 <= i < w.archetypes().len() {
        (if applies(q, w.archetypes()[i].types()) {
            w.archetypes()[i].spec_len()
        } else {
            0
        }) + matched_rows(q, w, i + 1)
    } else {
        0
    }
}

/// Where the rows of archetype `i` begin among the yields of `q` on `w`.
pub open spec fn first_index<V>(q: Query, w: World<V>, i: int) -> int {
    yields(q, w).len() - yields_from(q, w, i).len()
}

/// Every leaf of `v` points at row `r` of archetype `i`, in one of its `n` columns.
pub open spec fn leaves_in_row(v: View, i: int, r: int, n: nat) -> bool
    decreases v,
{
    match v {
        View::Unit => true,
        View::Ref(s) => s.archetype == i && s.row == r && s.column < n,
        View::Mut(s) => s.archetype == i && s.row == r && s.column < n,
        View::Opt(o) => match o {
            Some(b) => leaves_in_row(*b, i, r, n),
            None => true,
        },
        View::Pair(a, b) => leaves_in_row(*a, i, r, n) && leaves_in_row(*b, i, r, n),
    }
}

proof fn lemma_yields_from_len<V>(q: Query, w: World<V>, i: int)
    requires
        0 <= i,
    ensures
        yields_from(q, w, i).len() == matched_rows(q, w, i),
    decreases w.archetypes().len() - i,
{
    if i < w.archetypes().len() {
        lemma_yields_from_len(q, w, i + 1);
    }
}

proof fn lemma_suffix<V>(q: Query, w: World<V>, j: int, i: int)
    requires
        0 <= j <= i,
    ensures
        yields_from(q, w, i).len() <= yields_from(q, w, j).len(),
        yields_from(q, w, j).skip(yields_from(q, w, j).len() - yields_from(q, w, i).len())
            =~= yields_from(q, w, i),
    decreases i - j,
{
    if j < i {
        lemma_suffix(q, w, j + 1, i);
        if j >= w.archetypes().len() {
            assert(yields_from(q, w, j + 1).len() == 0);
        }
    }
}

proof fn lemma_origin<V>(q: Query, w: World<V>, j: int, k: int)
    requires
        0 <= j,
        0 <= k < yields_from(q, w, j).len(),
    ensures
        exists|i: int, r: int|
            j <= i < w.archetypes().len() && 0 <= r < w.archetypes()[i].spec_len() && applies(
                q,
                w.archetypes()[i].types(),
            ) && #[trigger] yields_from(q, w, j)[k] == arch_yields(q, w, i)[r],
    decreases w.archetypes().len() - j,
{
    let here = arch_yields(q, w, j);
    if k < here.len() {
        assert(yields_from(q, w, j)[k] == here[k]);
    } else {
        lemma_origin(q, w, j + 1, k - here.len());
        let i = choose|i: int, r: int|
            j + 1 <= i < w.archetypes().len() && 0 <= r < w.archetypes()[i].spec_len() && applies(
                q,
                w.archetypes()[i].types(),
            ) && #[trigger] yields_from(q, w, j + 1)[k - here.len()] == arch_yields(q, w, i)[r];
        assert(yields_from(q, w, j)[k] == yields_from(q, w, j + 1)[k - here.len()]);
    }
}

proof fn lemma_view_leaves(q: Query, types: Seq<u32>, i: usize, r: usize)
    requires
        applies(q, types),
    ensures
        leaves_in_row(view_of(q, types, i, r), i as int, r as int, types.len()),
    decreases q,
{
    match q {
        Query::Read(t) => {
            assert(types.contains(t));
            assert(types[types.index_of(t)] == t);
        },
        Query::Write(t) => {
            assert(types.contains(t));
            assert(types[types.index_of(t)] == t);
        },
        Query::Optional(inner) => {
            if applies(*inner, types) {
                lemma_view_leaves(*inner, types, i, r);
            }
        },
        Query::With(x) => lemma_view_leaves(*x.query, types, i, r),
        Query::Without(x) => lemma_view_leaves(*x.query, types, i, r),
        Query::Pair(a, b) => {
            lemma_view_leaves(*a, types, i, r);
            lemma_view_leaves(*b, types, i, r);
        },
        Query::Unit => {},
    }
}

/// Completeness: `q` yields one pair for each row of each archetype it applies to and
/// nothing else. The rows of archetype `i` stand, in row order, from `first_index(q, w, i)`
/// on, and there are exactly as many yields as such rows.
pub proof fn lemma_completeness<V>(q: Query, w: World<V>)
    requires
        w.wf(),
    ensures
        yields(q, w).len() == matched_rows(q, w, 0),
        forall|i: int|
            0 <= i < w.archetypes().len() && applies(q, w.archetypes()[i].types()) ==> 0
                <= #[trigger] first_index(q, w, i) && first_index(q, w, i)
                + w.archetypes()[i].spec_len() <= yields(q, w).len(),
        forall|i: int, r: int|
            0 <= i < w.archetypes().len() && 0 <= r < w.archetypes()[i].spec_len() && applies(
                q,
                w.archetypes()[i].types(),
            ) ==> #[trigger] yields(q, w)[first_index(q, w, i) + r] == (
                w.entity_at(i, r),
                view_of(q, w.archetypes()[i].types(), i as usize, r as usize),
            ),
{
    lemma_yields_from_len(q, w, 0);
    assert forall|i: int|
        0 <= i < w.archetypes().len() && applies(q, w.archetypes()[i].types()) implies 0
            <= #[trigger] first_index(q, w, i) && first_index(q, w, i)
            + w.archetypes()[i].spec_len() <= yields(q, w).len() by {
        lemma_suffix(q, w, 0, i);
        assert(yields_from(q, w, i) == arch_yields(q, w, i) + yields_from(q, w, i + 1));
    }
    assert forall|i: int, r: int|
        0 <= i < w.archetypes().len() && 0 <= r < w.archetypes()[i].spec_len() && applies(
            q,
            w.archetypes()[i].types(),
        ) implies #[trigger] yields(q, w)[first_index(q, w, i) + r] == (
        w.entity_at(i, r),
        view_of(q, w.archetypes()[i].types(), i as usize, r as usize),
    ) by {
        lemma_suffix(q, w, 0, i);
        let s = yields_from(q, w, i);
        assert(s == arch_yields(q, w, i) + yields_from(q, w, i + 1));
        assert(s[r] == arch_yields(q, w, i)[r]);
        assert(yields(q, w).skip(first_index(q, w, i))[r] == s[r]);
    }
}

/// Soundness of views and generations: each yielded pair comes from a row of an
/// archetype that `q` applies to. The entity is the one stored in that row, with the
/// generation that the metadata holds for its id, and every leaf of the view points at
/// that row, in a column of that archetype.
pub proof fn lemma_soundness<V>(q: Query, w: World<V>, k: int)
    requires
        w.wf(),
        0 <= k < yields(q, w).len(),
    ensures
        exists|i: int, r: int|
            0 <= i < w.archetypes().len() && 0 <= r < w.archetypes()[i].spec_len() && (
            #[trigger] yields(q, w)[k]).0.id == w.archetypes()[i].entities()[r] && leaves_in_row(
                yields(q, w)[k].1,
                i,
                r,
                w.archetypes()[i].types().len(),
            ),
        yields(q, w)[k].0.id < w.meta().len(),
        yields(q, w)[k].0.generation == w.meta()[yields(q, w)[k].0.id as int].generation,
{
    lemma_origin(q, w, 0, k);
    let (i, r) = choose|i: int, r: int|
        0 <= i < w.archetypes().len() && 0 <= r < w.archetypes()[i].spec_len() && applies(
            q,
            w.archetypes()[i].types(),
        ) && #[trigger] yields_from(q, w, 0)[k] == arch_yields(q, w, i)[r];
    lemma_view_leaves(q, w.archetypes()[i].types(), i as usize, r as usize);
    assert(w.archetypes()[i].wf());
    assert(w.archetypes()[i].entities()[r] < w.meta().len());
    assert(yields(q, w)[k].0.id == w.archetypes()[i].entities()[r] && leaves_in_row(
        yields(q, w)[k].1,
        i,
        r,
        w.archetypes()[i].types().len(),
    ));
}

/// Transform equivalence: `With` keeps the yields of its query on archetypes that have
/// the component and drops the others; `Without` does the reverse.
pub proof fn lemma_filters<V>(q: Query, t: u32, w: World<V>, i: int)
    requires
        0 <= i < w.archetypes().len(),
    ensures
        arch_yields(Query::With(With { component: t, query: Box::new(q) }), w, i)
            == if w.archetypes()[i].types().contains(t) {
            arch_yields(q, w, i)
        } else {
            Seq::empty()
        },
        arch_yields(Query::Without(Without { component: t, query: Box::new(q) }), w, i)
            == if w.archetypes()[i].types().contains(t) {
            Seq::empty()
        } else {
            arch_yields(q, w, i)
        },
{
    let wq = Query::With(With { component: t, query: Box::new(q) });
    let nq = Query::Without(Without { component: t, query: Box::new(q) });
    assert(arch_yields(wq, w, i) =~= if w.archetypes()[i].types().contains(t) {
        arch_yields(q, w, i)
    } else {
        Seq::empty()
    });
    assert(arch_yields(nq, w, i) =~= if w.archetypes()[i].types().contains(t) {
        Seq::empty()
    } else {
        arch_yields(q, w, i)
    });
}

/// Number of component leaves of `q`.
pub open spec fn leaf_count(q: Query) -> nat
    decreases q,
{
    match q {
        Query::Unit => 0,
        Query::Read(_) => 1,
        Query::Write(_) => 1,
        Query::Optional(inner) => leaf_count(*inner),
        Query::With(x) => leaf_count(*x.query),
        Query::Without(x) => leaf_count(*x.query),
        Query::Pair(a, b) => leaf_count(*a) + leaf_count(*b),
    }
}

/// Whether `q` has no exclusive leaf.
pub open spec fn read_only(q: Query) -> bool
    decreases q,
{
    match q {
        Query::Unit => true,
        Query::Read(_) => true,
        Query::Write(_) => false,
        Query::Optional(inner) => read_only(*inner),
        Query::With(x) => read_only(*x.query),
        Query::Without(x) => read_only(*x.query),
        Query::Pair(a, b) => read_only(*a) && read_only(*b),
    }
}

/// Whether `q` has an exclusive leaf on component `t`.
pub open spec fn writes(q: Query, t: u32) -> bool
    decreases q,
{
    match q {
        Query::Unit => false,
        Query::Read(_) => false,
        Query::Write(u) => u == t,
        Query::Optional(inner) => writes(*inner, t),
        Query::With(x) => writes(*x.query, t),
        Query::Without(x) => writes(*x.query, t),
        Query::Pair(a, b) => writes(*a, t) || writes(*b, t),
    }
}

/// Whether `q` has a leaf, shared or exclusive, on component `t`.
pub open spec fn touches(q: Query, t: u32) -> bool
    decreases q,
{
    match q {
        Query::Unit => false,
        Query::Read(u) => u == t,
        Query::Write(u) => u == t,
        Query::Optional(inner) => touches(*inner, t),
        Query::With(x) => touches(*x.query, t),
        Query::Without(x) => touches(*x.query, t),
        Query::Pair(a, b) => touches(*a, t) || touches(*b, t),
    }
}

proof fn lemma_read_only_acquire(q: Query, types: Seq<u32>, st: (Seq<u32>, Seq<bool>))
    requires
        counters_wf(st, types.len()),
        read_only(q),
        forall|c: int|
            0 <= c < types.len() ==> !st.1[c] && #[trigger] st.0[c] + leaf_count(q) <= u32::MAX,
    ensures
        acquire(q, types, st) matches Ok(s) && {
            &&& counters_wf(s, types.len())
            &&& forall|c: int|
                0 <= c < types.len() ==> !s.1[c] && #[trigger] s.0[c] <= st.0[c] + leaf_count(q)
        },
    decreases q,
{
    crate::query::lemma_acquire_wf(q, types, st);
    match q {
        Query::Read(t) => {
            if types.contains(t) {
                let c0 = types.index_of(t);
                assert(st.0[c0] + 1 <= u32::MAX);
            }
        },
        Query::Optional(inner) => lemma_read_only_acquire(*inner, types, st),
        Query::With(x) => lemma_read_only_acquire(*x.query, types, st),
        Query::Without(x) => lemma_read_only_acquire(*x.query, types, st),
        Query::Pair(a, b) => {
            assert forall|c: int| 0 <= c < types.len() implies !st.1[c] && #[trigger] st.0[c]
                + leaf_count(*a) <= u32::MAX by {
                assert(st.0[c] + leaf_count(q) <= u32::MAX);
            }
            lemma_read_only_acquire(*a, types, st);
            let s1 = acquire(*a, types, st)->Ok_0;
            assert forall|c: int| 0 <= c < types.len() implies !s1.1[c] && #[trigger] s1.0[c]
                + leaf_count(*b) <= u32::MAX by {
                assert(st.0[c] + leaf_count(q) <= u32::MAX);
                assert(s1.0[c] <= st.0[c] + leaf_count(*a));
            }
            lemma_read_only_acquire(*b, types, s1);
            let s2 = acquire(*b, types, s1)->Ok_0;
            assert forall|c: int| 0 <= c < types.len() implies !s2.1[c] && #[trigger] s2.0[c]
                <= st.0[c] + leaf_count(q) by {
                assert(s1.0[c] <= st.0[c] + leaf_count(*a));
                assert(s2.0[c] <= s1.0[c] + leaf_count(*b));
            }
        },
        _ => {},
    }
}

/// Borrowing never lowers a shared count nor clears an exclusive flag.
proof fn lemma_acquire_grows(q: Query, types: Seq<u32>, st: (Seq<u32>, Seq<bool>))
    requires
        counters_wf(st, types.len()),
    ensures
        acquire(q, types, st) matches Ok(s) ==> forall|c: int|
            0 <= c < types.len() ==> st.0[c] <= #[trigger] s.0[c] && (st.1[c] ==> s.1[c]),
    decreases q,
{
    crate::query::lemma_acquire_wf(q, types, st);
    match q {
        Query::Optional(inner) => {
            lemma_acquire_grows(*inner, types, st);
            assert(acquire(q, types, st) == acquire(*inner, types, st));
        },
        Query::With(x) => {
            lemma_acquire_grows(*x.query, types, st);
            assert(acquire(q, types, st) == acquire(*x.query, types, st));
        },
        Query::Without(x) => {
            lemma_acquire_grows(*x.query, types, st);
            assert(acquire(q, types, st) == acquire(*x.query, types, st));
        },
        Query::Pair(a, b) => {
            lemma_acquire_grows(*a, types, st);
            crate::query::lemma_acquire_wf(*a, types, st);
            if let Ok(s1) = acquire(*a, types, st) {
                lemma_acquire_grows(*b, types, s1);
                if let Ok(s2) = acquire(*b, types, s1) {
                    assert forall|c: int| 0 <= c < types.len() implies st.0[c] <= #[trigger] s2.0[c]
                        && (st.1[c] ==> s2.1[c]) by {
                        assert(st.0[c] <= s1.0[c]);
                    }
                }
            }
        },
        Query::Read(t) => {
            if types.contains(t) {
                assert(types[types.index_of(t)] == t);
            }
        },
        Query::Write(t) => {
            if types.contains(t) {
                assert(types[types.index_of(t)] == t);
            }
        },
        Query::Unit => {},
    }
}

/// After `q` borrowed, a column it touches is in use, and one it writes is held
/// exclusively.
proof fn lemma_acquire_marks(q: Query, t: u32, types: Seq<u32>, st: (Seq<u32>, Seq<bool>))
    requires
        counters_wf(st, types.len()),
        types.contains(t),
    ensures
        acquire(q, types, st) matches Ok(s) ==> {
            let c = types.index_of(t);
            &&& touches(q, t) ==> s.0[c] > 0 || s.1[c]
            &&& writes(q, t) ==> s.1[c]
        },
    decreases q,
{
    crate::query::lemma_acquire_wf(q, types, st);
    match q {
        Query::Optional(inner) => lemma_acquire_marks(*inner, t, types, st),
        Query::With(x) => lemma_acquire_marks(*x.query, t, types, st),
        Query::Without(x) => lemma_acquire_marks(*x.query, t, types, st),
        Query::Pair(a, b) => {
            lemma_acquire_marks(*a, t, types, st);
            if let Ok(s1) = acquire(*a, types, st) {
                crate::query::lemma_acquire_wf(*a, types, st);
                lemma_acquire_marks(*b, t, types, s1);
                lemma_acquire_grows(*b, types, s1);
            }
        },
        Query::Read(u) => {
            if u == t {
                assert(types[types.index_of(t)] == t);
            }
        },
        Query::Write(u) => {
            if u == t {
                assert(types[types.index_of(t)] == t);
            }
        },
        _ => {},
    }
}

/// Where the column of `t` is in use, a query that writes `t` is refused; where it is
/// held exclusively, a query that touches `t` is refused.
proof fn lemma_busy_refuses(q: Query, t: u32, types: Seq<u32>, st: (Seq<u32>, Seq<bool>))
    requires
        counters_wf(st, types.len()),
        types.contains(t),
    ensures
        ({
            let c = types.index_of(t);
            &&& (st.0[c] > 0 || st.1[c]) && writes(q, t) ==> acquire(q, types, st) is Err
            &&& st.1[c] && touches(q, t) ==> acquire(q, types, st) is Err
        }),
    decreases q,
{
    let c = types.index_of(t);
    crate::query::lemma_acquire_wf(q, types, st);
    match q {
        Query::Optional(inner) => lemma_busy_refuses(*inner, t, types, st),
        Query::With(x) => lemma_busy_refuses(*x.query, t, types, st),
        Query::Without(x) => lemma_busy_refuses(*x.query, t, types, st),
        Query::Pair(a, b) => {
            lemma_busy_refuses(*a, t, types, st);
            lemma_acquire_grows(*a, types, st);
            crate::query::lemma_acquire_wf(*a, types, st);
            assert(types[c] == t);
            if let Ok(s1) = acquire(*a, types, st) {
                assert(st.0[c] <= s1.0[c] && (st.1[c] ==> s1.1[c]));
                lemma_busy_refuses(*b, t, types, s1);
            }
        },
        Query::Read(u) => {
            if u == t {
                assert(types[types.index_of(t)] == t);
            }
        },
        Query::Write(u) => {
            if u == t {
                assert(types[types.index_of(t)] == t);
            }
        },
        _ => {},
    }
}

/// Borrow discipline, shared side: two queries that only read can hold their borrows on
/// one archetype together, wherever no column is held exclusively and the shared counts
/// have room for both.
pub proof fn lemma_readers_coexist(
    q1: Query,
    q2: Query,
    types: Seq<u32>,
    st: (Seq<u32>, Seq<bool>),
)
    requires
        counters_wf(st, types.len()),
        read_only(q1),
        read_only(q2),
        forall|c: int|
            0 <= c < types.len() ==> !st.1[c] && #[trigger] st.0[c] + leaf_count(q1)
                + leaf_count(q2) <= u32::MAX,
    ensures
        acquire(q1, types, st) matches Ok(s) && acquire(q2, types, s) is Ok,
{
    assert forall|c: int| 0 <= c < types.len() implies !st.1[c] && #[trigger] st.0[c]
        + leaf_count(q1) <= u32::MAX by {
        assert(st.0[c] + leaf_count(q1) + leaf_count(q2) <= u32::MAX);
    }
    lemma_read_only_acquire(q1, types, st);
    let s = acquire(q1, types, st)->Ok_0;
    assert forall|c: int| 0 <= c < types.len() implies !s.1[c] && #[trigger] s.0[c]
        + leaf_count(q2) <= u32::MAX by {
        assert(st.0[c] + leaf_count(q1) + leaf_count(q2) <= u32::MAX);
        assert(s.0[c] <= st.0[c] + leaf_count(q1));
    }
    lemma_read_only_acquire(q2, types, s);
}

/// Borrow discipline, exclusive side: where one query writes a component of the archetype
/// and the other touches it, in either order, the second is refused once the first holds
/// its borrows. With `q1` and `q2` the two halves of one tuple this is a query that
/// conflicts with itself.
pub proof fn lemma_writer_excludes(
    q1: Query,
    q2: Query,
    t: u32,
    types: Seq<u32>,
    st: (Seq<u32>, Seq<bool>),
)
    requires
        counters_wf(st, types.len()),
        types.contains(t),
        (writes(q1, t) && touches(q2, t)) || (touches(q1, t) && writes(q2, t)),
    ensures
        acquire(q1, types, st) matches Ok(s) ==> acquire(q2, types, s) is Err,
        acquire(Query::Pair(Box::new(q1), Box::new(q2)), types, st) is Err,
{
    lemma_acquire_marks(q1, t, types, st);
    crate::query::lemma_acquire_wf(q1, types, st);
    if let Ok(s) = acquire(q1, types, st) {
        lemma_busy_refuses(q2, t, types, s);
    }
}

/// `batches` is what successive calls of `BatchedIter::next` hand out from `rest`: each
/// batch is a non-empty run of at most `size` pairs from the front of what is left, and
/// the calls go on until nothing is left.
pub open spec fn splits(rest: Seq<(Entity, View)>, batches: Seq<Seq<(Entity, View)>>, size: nat) -> bool
    decreases batches.len(),
{
    if batches.len() == 0 {
        rest.len() == 0
    } else {
        let m = batches[0].len();
        &&& 1 <= m <= size
        &&& m <= rest.len()
        &&& batches[0] == rest.take(m as int)
        &&& splits(rest.skip(m as int), batches.drop_first(), size)
    }
}

/// Partition law for batches: the batches handed out, joined in the order they came, are
/// exactly what was left to yield, in the same order; none is larger than the size.
pub proof fn lemma_batches_partition(
    rest: Seq<(Entity, View)>,
    batches: Seq<Seq<(Entity, View)>>,
    size: nat,
)
    requires
        splits(rest, batches, size),
    ensures
        batches.flatten() == rest,
        forall|j: int| 0 <= j < batches.len() ==> 1 <= #[trigger] batches[j].len() <= size,
    decreases batches.len(),
{
    if batches.len() > 0 {
        let m = batches[0].len();
        lemma_batches_partition(rest.skip(m as int), batches.drop_first(), size);
        assert(rest =~= rest.take(m as int) + rest.skip(m as int));
        assert forall|j: int| 0 <= j < batches.len() implies 1 <= #[trigger] batches[j].len()
            <= size by {
            if j > 0 {
                assert(batches[j] == batches.drop_first()[j - 1]);
            }
        }
    } else {
        assert(rest =~= Seq::<(Entity, View)>::empty());
    }
}

/// Giving back the borrows of a query that ran restores every counter of the world.
pub proof fn lemma_release_restores<V>(q: Query, before: World<V>, held: World<V>, after: World<V>)
    requires
        before.wf(),
        before.borrows_fit(q),
        held.same_data(&before),
        held.acquired_from(&before, q),
        after.same_data(&held),
        after.released_from(&held, q),
    ensures
        after.same_counters(&before),
{
    assert forall|i: int| 0 <= i < after.archetypes().len() implies #[trigger] after.archetypes()[i].counters()
        == before.archetypes()[i].counters() by {
        assert(before.archetypes()[i].wf());
        assert(held.archetypes()[i].same_data(&before.archetypes()[i]));
        if before.borrows_on(q, i) {
            crate::query::lemma_release_undoes_acquire(
                q,
                before.archetypes()[i].types(),
                before.archetypes()[i].counters(),
            );
        }
    }
}

} // verus!
