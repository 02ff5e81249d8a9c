use vstd::prelude::*;
use crate::archetype::Entity;
use crate::fetch::{Fetch, View, fetch_of, fetch_view, view_of, lemma_fetch_of};
use crate::query::{Query, With, Without, applies};
use crate::world::{BorrowError, World, rows_from, lemma_rows_from_mono};

verus! {

/// What `q` yields on archetype number `i` of `w`: one pair per row, in row order,
/// where `q` applies; nothing elsewhere.
pub open spec fn arch_yields<V>(q: Query, w: World<V>, i: int) -> Seq<(Entity, View)> {
    let a = w.archetypes()[i];
    if applies(q, a.types()) {
        Seq::new(
            a.spec_len(),
            |r: int| (w.entity_at(i, r), view_of(q, a.types(), i as usize, r as usize)),
        )
    } else {
        Seq::empty()
    }
}

/// What `q` yields on archetypes `i..` of `w`, archetype after archetype.
pub open spec fn yields_from<V>(q: Query, w: World<V>, i: int) -> Seq<(Entity, View)>
    decreases w.archetypes().len() - i,
{
    if 0 <= i < w.archetypes().len() {
        arch_yields(q, w, i) + yields_from(q, w, i + 1)
    } else {
        Seq::empty()
    }
}

/// What `q` yields on `w`.
pub open spec fn yields<V>(q: Query, w: World<V>) -> Seq<(Entity, View)> {
    yields_from(q, w, 0)
}

/// No more is yielded than the archetypes hold rows.
pub proof fn lemma_yields_from_len<V>(q: Query, w: World<V>, i: int)
    requires
        0 <= i,
    ensures
        yields_from(q, w, i).len() <= rows_from(w.lens(), i),
    decreases w.archetypes().len() - i,
{
    if i < w.archetypes().len() {
        lemma_yields_from_len(q, w, i + 1);
    }
}

/// A cursor over rows `position..len` of one archetype.
struct ChunkIter {
    archetype: usize,
    fetch: Fetch,
    position: usize,
    len: usize,
}

impl ChunkIter {
    spec fn rest<V>(&self, w: World<V>) -> Seq<(Entity, View)> {
        Seq::new(
            (self.len - self.position) as nat,
            |k: int|
                (
                    w.entity_at(self.archetype as int, self.position + k),
                    fetch_view(self.fetch, (self.position + k) as usize),
                ),
        )
    }

    /// The cursor reads rows of an archetype that `q` applies to, through its fetch.
    spec fn wf<V>(&self, q: Query, w: World<V>) -> bool {
        &&& w.wf()
        &&& self.position <= self.len
        &&& self.len > 0 ==> {
            &&& self.archetype < w.archetypes().len()
            &&& self.len <= w.archetypes()[self.archetype as int].spec_len()
            &&& fetch_of(q, w.archetypes()[self.archetype as int].types(), self.archetype)
                == Some(self.fetch)
        }
    }

    proof fn lemma_counters_only<V>(&self, q: Query, a: World<V>, b: World<V>)
        requires
            self.wf(q, a),
            a.same_data(&b),
            b.wf(),
        ensures
            self.wf(q, b),
            self.rest(a) == self.rest(b),
    {
        if self.len > 0 {
            assert(a.archetypes()[self.archetype as int].same_data(
                &b.archetypes()[self.archetype as int],
            ));
        }
        assert forall|k: int| 0 <= k < self.len - self.position implies #[trigger] a.entity_at(
            self.archetype as int,
            self.position + k,
        ) == b.entity_at(self.archetype as int, self.position + k) by {
            assert(a.archetypes()[self.archetype as int].same_data(
                &b.archetypes()[self.archetype as int],
            ));
        }
        assert(self.rest(a) =~= self.rest(b));
    }

    fn empty() -> (r: ChunkIter)
        ensures
            r.position == 0,
            r.len == 0,
    {
        ChunkIter { archetype: 0, fetch: Fetch::dangling(), position: 0, len: 0 }
    }

    fn next<V>(&mut self, w: &World<V>, Ghost(q): Ghost<Query>) -> (r: Option<(Entity, View)>)
        requires
            old(self).wf(q, *w),
        ensures
            final(self).wf(q, *w),
            final(self).archetype == old(self).archetype,
            final(self).fetch == old(self).fetch,
            final(self).len == old(self).len,
            old(self).rest(*w).len() == 0 ==> r is None && *final(self) == *old(self),
            old(self).rest(*w).len() > 0 ==> r == Some(old(self).rest(*w)[0])
                && final(self).rest(*w) =~= old(self).rest(*w).drop_first()
                && final(self).position == old(self).position + 1,
    {
        if self.position == self.len {
            return None;
        }
        let a = w.archetype(self.archetype);
        let id = a.entity(self.position);
        assert(w.archetypes()[self.archetype as int].entities()[self.position as int] < w.meta().len());
        let meta = w.meta_of(id);
        let item = self.fetch.get(self.position);
        self.position = self.position + 1;
        Some((Entity { id, generation: meta.generation }, item))
    }
}

proof fn lemma_fresh_chunk<V>(q: Query, w: World<V>, i: int, f: Fetch, from: usize, to: usize)
    requires
        0 <= i < w.archetypes().len(),
        i <= usize::MAX,
        from <= to <= w.archetypes()[i].spec_len(),
        fetch_of(q, w.archetypes()[i].types(), i as usize) == Some(f),
    ensures
        applies(q, w.archetypes()[i].types()),
        (ChunkIter { archetype: i as usize, fetch: f, position: from, len: to }).rest(w)
            =~= arch_yields(q, w, i).subrange(from as int, to as int),
{
    let types = w.archetypes()[i].types();
    lemma_fetch_of(q, types, i as usize, 0);
    assert forall|k: int| 0 <= k < to - from implies
        #[trigger] fetch_view(f, (from + k) as usize) == view_of(q, types, i as usize, (from + k) as usize) by {
        lemma_fetch_of(q, types, i as usize, (from + k) as usize);
    }
}

proof fn lemma_arch_yields_same_data<V>(q: Query, a: World<V>, b: World<V>, i: int)
    requires
        a.same_data(&b),
        0 <= i < a.archetypes().len(),
    ensures
        arch_yields(q, a, i) == arch_yields(q, b, i),
{
    assert(a.archetypes()[i].same_data(&b.archetypes()[i]));
    assert(arch_yields(q, a, i) =~= arch_yields(q, b, i));
}

proof fn lemma_next_batch_start_same_data<V>(q: Query, a: World<V>, b: World<V>, i: int, o: int)
    requires
        a.same_data(&b),
        0 <= i,
    ensures
        next_batch_start(q, a, i, o) == next_batch_start(q, b, i, o),
    decreases a.archetypes().len() - i,
{
    if i < a.archetypes().len() {
        assert(a.archetypes()[i].same_data(&b.archetypes()[i]));
        lemma_next_batch_start_same_data(q, a, b, i + 1, 0);
    }
}

/// Yields do not depend on borrow counters.
pub proof fn lemma_yields_same_data<V>(q: Query, a: World<V>, b: World<V>, i: int)
    requires
        a.same_data(&b),
        0 <= i,
    ensures
        yields_from(q, a, i) == yields_from(q, b, i),
    decreases a.archetypes().len() - i,
{
    if i < a.archetypes().len() {
        lemma_yields_same_data(q, a, b, i + 1);
        assert(a.archetypes()[i].same_data(&b.archetypes()[i]));
        assert(arch_yields(q, a, i) =~= arch_yields(q, b, i));
    }
}

/// Iterator over the entities that a query matches, with their views.
pub struct QueryIter {
    query: Query,
    archetype_index: usize,
    iter: ChunkIter,
}

impl QueryIter {
    /// The query being run.
    pub closed spec fn query(&self) -> Query {
        self.query
    }

    /// What is left to yield, on world `w`.
    pub closed spec fn remaining<V>(&self, w: World<V>) -> Seq<(Entity, View)> {
        self.iter.rest(w) + yields_from(self.query, w, self.archetype_index as int)
    }

    /// The iterator's state fits world `w`.
    pub closed spec fn wf<V>(&self, w: World<V>) -> bool {
        &&& self.iter.wf(self.query, w)
        &&& self.archetype_index <= w.archetypes().len()
        &&& self.iter.len > 0 ==> self.iter.archetype + 1 == self.archetype_index
            && self.iter.len == w.archetypes()[self.iter.archetype as int].spec_len()
    }

    fn start<V>(query: Query, w: &World<V>) -> (r: QueryIter)
        requires
            w.wf(),
        ensures
            r.wf(*w),
            r.query() == query,
            r.remaining(*w) == yields(query, *w),
    {
        let r = QueryIter { query, archetype_index: 0, iter: ChunkIter::empty() };
        assert(r.remaining(*w) =~= yields(query, *w));
        r
    }

    /// The next entity and its view, and `None` when all have been yielded.
    pub fn next<V>(&mut self, w: &World<V>) -> (r: Option<(Entity, View)>)
        requires
            old(self).wf(*w),
        ensures
            final(self).wf(*w),
            final(self).query() == old(self).query(),
            old(self).remaining(*w).len() == 0 ==> r is None && final(self).remaining(*w).len()
                == 0,
            old(self).remaining(*w).len() > 0 ==> r == Some(old(self).remaining(*w)[0])
                && final(self).remaining(*w) == old(self).remaining(*w).drop_first(),
    {
        let ghost old_rem = self.remaining(*w);
        let n = w.archetype_count();
        loop
            invariant
                self.wf(*w),
                self.query() == old(self).query(),
                self.remaining(*w) == old_rem,
                old_rem == old(self).remaining(*w),
                n == w.archetypes().len(),
            decreases n - self.archetype_index,
        {
            let ghost before = *self;
            match self.iter.next(w, Ghost(self.query)) {
                Some(x) => {
                    assert(self.remaining(*w) =~= old_rem.drop_first());
                    return Some(x);
                },
                None => {},
            }
            if self.archetype_index >= n {
                assert(self.remaining(*w) =~= Seq::<(Entity, View)>::empty());
                return None;
            }
            let ai = self.archetype_index;
            let a = w.archetype(ai);
            assert(w.archetypes()[ai as int].wf());
            let len = a.len();
            match Fetch::new(&self.query, ai, a) {
                None => {
                    proof {
                        lemma_fetch_of(self.query, a.types(), ai, 0);
                    }
                    self.iter = ChunkIter::empty();
                    self.archetype_index = ai + 1;
                    assert(self.remaining(*w) =~= before.remaining(*w));
                },
                Some(f) => {
                    proof {
                        lemma_fresh_chunk(self.query, *w, ai as int, f, 0, len);
                    }
                    self.iter = ChunkIter { archetype: ai, fetch: f, position: 0, len };
                    self.archetype_index = ai + 1;
                    assert(arch_yields(self.query, *w, ai as int).subrange(0, len as int)
                        =~= arch_yields(self.query, *w, ai as int));
                    assert(self.remaining(*w) =~= before.remaining(*w));
                },
            }
        }
    }

    /// The iterator's state and what it has left do not depend on borrow counters: other
    /// queries may take and give back borrows while it runs.
    pub proof fn lemma_counters_only<V>(&self, a: World<V>, b: World<V>)
        requires
            self.wf(a),
            b.same_data(&a),
            b.wf(),
        ensures
            self.wf(b),
            self.remaining(a) == self.remaining(b),
    {
        b.lemma_same_data_symmetric(&a);
        self.iter.lemma_counters_only(self.query, a, b);
        lemma_yields_same_data(self.query, a, b, self.archetype_index as int);
        if self.iter.len > 0 {
            assert(a.archetypes()[self.iter.archetype as int].same_data(
                &b.archetypes()[self.iter.archetype as int],
            ));
        }
    }

    /// The number of entities left to yield.
    pub fn len<V>(&self, w: &World<V>) -> (r: usize)
        requires
            self.wf(*w),
        ensures
            r == self.remaining(*w).len(),
    {
        let n = w.archetype_count();
        let ghost lens = w.lens();
        proof {
            lemma_yields_from_len(self.query, *w, self.archetype_index as int);
            lemma_rows_from_mono(lens, 0, self.archetype_index as int);
            if self.iter.len > 0 {
                lemma_rows_from_mono(lens, 0, self.iter.archetype as int);
                assert(lens[self.iter.archetype as int] == w.archetypes()[self.iter.archetype as int].spec_len());
            }
        }
        let mut acc: usize = self.iter.len - self.iter.position;
        let mut j: usize = self.archetype_index;
        while j < n
            invariant
                self.wf(*w),
                n == w.archetypes().len(),
                self.archetype_index <= j <= n,
                acc + yields_from(self.query, *w, j as int).len() == self.remaining(*w).len(),
                self.remaining(*w).len() <= u32::MAX,
            decreases n - j,
        {
            let a = w.archetype(j);
            assert(w.archetypes()[j as int].wf());
            if self.query.access(a).is_some() {
                acc = acc + a.len();
            }
            j += 1;
        }
        acc
    }
}

/// What is left of archetype `i` from row `offset` on, then the archetypes after it.
pub open spec fn yields_from_row<V>(q: Query, w: World<V>, i: int, offset: int) -> Seq<
    (Entity, View),
> {
    if 0 <= i < w.archetypes().len() {
        arch_yields(q, w, i).skip(if applies(q, w.archetypes()[i].types()) {
            offset
        } else {
            0
        }) + yields_from(q, w, i + 1)
    } else {
        Seq::empty()
    }
}

/// A run of rows of one archetype, handed out by `BatchedIter`.
pub struct Batch {
    state: ChunkIter,
    query: Ghost<Query>,
}

impl Batch {
    /// The query whose rows the batch holds.
    pub closed spec fn query(&self) -> Query {
        self.query@
    }

    /// The archetype whose rows the batch holds.
    pub closed spec fn archetype(&self) -> int {
        self.state.archetype as int
    }

    /// The row that the batch yields next.
    pub closed spec fn position(&self) -> int {
        self.state.position as int
    }

    /// The row where the batch ends, exclusive.
    pub closed spec fn end(&self) -> int {
        self.state.len as int
    }

    /// The batch's state fits world `w`.
    pub closed spec fn wf<V>(&self, w: World<V>) -> bool {
        self.state.wf(self.query@, w)
    }

    /// What is left to yield, on world `w`.
    pub closed spec fn remaining<V>(&self, w: World<V>) -> Seq<(Entity, View)> {
        self.state.rest(w)
    }

    /// Whether the batch runs to the last row of its archetype.
    pub open spec fn ends_archetype<V>(&self, w: World<V>) -> bool {
        self.end() == w.archetypes()[self.archetype()].spec_len()
    }

    /// The next entity of the batch and its view, and `None` at its end.
    pub fn next<V>(&mut self, w: &World<V>) -> (r: Option<(Entity, View)>)
        requires
            old(self).wf(*w),
        ensures
            final(self).wf(*w),
            final(self).query() == old(self).query(),
            final(self).archetype() == old(self).archetype(),
            final(self).end() == old(self).end(),
            old(self).remaining(*w).len() == 0 ==> r is None && final(self).remaining(*w).len()
                == 0,
            old(self).remaining(*w).len() > 0 ==> r == Some(old(self).remaining(*w)[0])
                && final(self).remaining(*w) == old(self).remaining(*w).drop_first()
                && final(self).position() == old(self).position() + 1,
    {
        self.state.next(w, Ghost(self.query@))
    }

    /// The batch's state and what it has left do not depend on borrow counters.
    pub proof fn lemma_counters_only<V>(&self, a: World<V>, b: World<V>)
        requires
            self.wf(a),
            b.same_data(&a),
            b.wf(),
        ensures
            self.wf(b),
            self.remaining(a) == self.remaining(b),
    {
        b.lemma_same_data_symmetric(&a);
        self.state.lemma_counters_only(self.query@, a, b);
    }
}

/// Where the next batch of `q` on `w` starts, from archetype `i` and row `offset` on: the
/// first archetype from there that `q` applies to and that has rows left, and the row.
/// `(n, 0)`, with `n` the number of archetypes, where none is left.
pub open spec fn next_batch_start<V>(q: Query, w: World<V>, i: int, offset: int) -> (int, int)
    decreases w.archetypes().len() - i,
{
    if i < 0 || i >= w.archetypes().len() {
        (w.archetypes().len() as int, 0)
    } else if applies(q, w.archetypes()[i].types()) && offset < w.archetypes()[i].spec_len() {
        (i, offset)
    } else {
        next_batch_start(q, w, i + 1, 0)
    }
}

/// Iterator over batches: runs of at most `batch_size` rows, archetype by archetype.
pub struct BatchedIter {
    query: Query,
    archetype_index: usize,
    batch_size: u32,
    offset: usize,
}

impl BatchedIter {
    pub closed spec fn query(&self) -> Query {
        self.query
    }

    /// The rows per batch: the size asked for, and 1 where 0 was asked for.
    pub closed spec fn size(&self) -> nat {
        if self.batch_size == 0 {
            1
        } else {
            self.batch_size as nat
        }
    }

    /// The archetype and the row where the iterator stands.
    pub closed spec fn cursor(&self) -> (int, int) {
        (self.archetype_index as int, self.offset as int)
    }

    /// What the batches still to come hold, in order.
    pub open spec fn remaining<V>(&self, w: World<V>) -> Seq<(Entity, View)> {
        yields_from_row(self.query(), w, self.cursor().0, self.cursor().1)
    }

    pub closed spec fn wf<V>(&self, w: World<V>) -> bool {
        &&& w.wf()
        &&& self.archetype_index <= w.archetypes().len()
        &&& self.archetype_index < w.archetypes().len() ==> self.offset
            <= w.archetypes()[self.archetype_index as int].spec_len()
        &&& self.archetype_index == w.archetypes().len() ==> self.offset == 0
    }

    /// The iterator's state and what it has left do not depend on borrow counters.
    pub proof fn lemma_counters_only<V>(&self, a: World<V>, b: World<V>)
        requires
            self.wf(a),
            b.same_data(&a),
            b.wf(),
        ensures
            self.wf(b),
            self.remaining(a) == self.remaining(b),
            next_batch_start(self.query(), a, self.cursor().0, self.cursor().1) == next_batch_start(
                self.query(),
                b,
                self.cursor().0,
                self.cursor().1,
            ),
    {
        b.lemma_same_data_symmetric(&a);
        let i = self.archetype_index as int;
        lemma_yields_same_data(self.query, a, b, i + 1);
        if i < a.archetypes().len() {
            assert(a.archetypes()[i].same_data(&b.archetypes()[i]));
            lemma_arch_yields_same_data(self.query, a, b, i);
        }
        lemma_next_batch_start_same_data(self.query, a, b, i, self.offset as int);
    }

    fn start<V>(query: Query, w: &World<V>, batch_size: u32) -> (r: BatchedIter)
        requires
            w.wf(),
        ensures
            r.wf(*w),
            r.query() == query,
            r.size() == if batch_size == 0 { 1 } else { batch_size as nat },
            r.cursor() == (0int, 0int),
            r.remaining(*w) == yields(query, *w),
    {
        let r = BatchedIter { query, archetype_index: 0, batch_size, offset: 0 };
        if w.archetype_count() > 0 {
            assert(arch_yields(query, *w, 0).skip(0) =~= arch_yields(query, *w, 0));
        }
        r
    }

    /// The next batch, and `None` when all rows have been handed out. The batch holds the
    /// next rows, as many as the size, or fewer where its archetype ends first.
    pub fn next<V>(&mut self, w: &World<V>) -> (r: Option<Batch>)
        requires
            old(self).wf(*w),
        ensures
            final(self).wf(*w),
            final(self).query() == old(self).query(),
            final(self).size() == old(self).size(),
            ({
                let start = next_batch_start(
                    old(self).query(),
                    *w,
                    old(self).cursor().0,
                    old(self).cursor().1,
                );
                &&& r is Some <==> start.0 < w.archetypes().len()
                &&& r is None ==> final(self).cursor() == start
                &&& r matches Some(b) ==> {
                    let len = w.archetypes()[start.0].spec_len() as int;
                    let end = if len - start.1 <= old(self).size() {
                        len
                    } else {
                        start.1 + old(self).size()
                    };
                    &&& b.wf(*w)
                    &&& b.query() == old(self).query()
                    &&& b.archetype() == start.0
                    &&& b.position() == start.1
                    &&& b.end() == end
                    &&& final(self).cursor() == (start.0, end)
                    &&& b.remaining(*w) == arch_yields(old(self).query(), *w, start.0).subrange(
                        start.1,
                        end,
                    )
                }
            }),
            old(self).remaining(*w).len() == 0 ==> r is None && final(self).remaining(*w).len()
                == 0,
            old(self).remaining(*w).len() > 0 ==> (r matches Some(b) && {
                let m = b.remaining(*w).len();
                &&& 1 <= m <= old(self).size()
                &&& m <= old(self).remaining(*w).len()
                &&& m == old(self).size() || b.ends_archetype(*w)
                &&& b.remaining(*w) == old(self).remaining(*w).take(m as int)
                &&& final(self).remaining(*w) == old(self).remaining(*w).skip(m as int)
            }),
    {
        let ghost old_rem = self.remaining(*w);
        let ghost start = next_batch_start(
            self.query,
            *w,
            self.archetype_index as int,
            self.offset as int,
        );
        let n = w.archetype_count();
        let k: usize = if self.batch_size == 0 {
            1
        } else {
            self.batch_size as usize
        };
        loop
            invariant
                self.wf(*w),
                self.query() == old(self).query(),
                self.size() == old(self).size(),
                k == self.size(),
                self.remaining(*w) == old_rem,
                old_rem == old(self).remaining(*w),
                n == w.archetypes().len(),
                start == next_batch_start(
                    old(self).query(),
                    *w,
                    old(self).cursor().0,
                    old(self).cursor().1,
                ),
                next_batch_start(self.query, *w, self.archetype_index as int, self.offset as int)
                    == start,
            decreases n - self.archetype_index,
        {
            let ghost before = *self;
            if self.archetype_index >= n {
                assert(self.cursor() == start);
                return None;
            }
            let ai = self.archetype_index;
            let a = w.archetype(ai);
            assert(w.archetypes()[ai as int].wf());
            let len = a.len();
            let offset = self.offset;
            if offset >= len {
                self.archetype_index = ai + 1;
                self.offset = 0;
                proof {
                    if ai + 1 < n {
                        assert(arch_yields(self.query, *w, ai + 1).skip(0) =~= arch_yields(
                            self.query,
                            *w,
                            ai + 1,
                        ));
                    }
                }
                assert(self.remaining(*w) =~= before.remaining(*w));
            } else {
                match Fetch::new(&self.query, ai, a) {
                    None => {
                        proof {
                            lemma_fetch_of(self.query, a.types(), ai, 0);
                            if ai + 1 < n {
                                assert(arch_yields(self.query, *w, ai + 1).skip(0) =~= arch_yields(
                                    self.query,
                                    *w,
                                    ai + 1,
                                ));
                            }
                        }
                        self.archetype_index = ai + 1;
                        self.offset = 0;
                        assert(self.remaining(*w) =~= before.remaining(*w));
                    },
                    Some(f) => {
                        let end = if len - offset <= k {
                            len
                        } else {
                            offset + k
                        };
                        proof {
                            lemma_fresh_chunk(self.query, *w, ai as int, f, offset, end);
                        }
                        let b = Batch {
                            state: ChunkIter { archetype: ai, fetch: f, position: offset, len: end },
                            query: Ghost(self.query),
                        };
                        self.offset = end;
                        let ghost ay = arch_yields(self.query, *w, ai as int);
                        let ghost tail = yields_from(self.query, *w, ai + 1);
                        assert(old_rem == ay.skip(offset as int) + tail);
                        assert(b.remaining(*w) =~= old_rem.take((end - offset) as int));
                        assert(self.remaining(*w) =~= old_rem.skip((end - offset) as int));
                        return Some(b);
                    },
                }
            }
        }
    }
}

/// A query over a world, not yet run. Running it takes its dynamic borrows, which
/// `release` gives back.
pub struct QueryBorrow {
    query: Query,
    /// The query whose borrows are held, once the query has run.
    held: Option<Query>,
}

impl QueryBorrow {
    /// The query descriptor.
    pub closed spec fn query(&self) -> Query {
        self.query
    }

    /// Whether the query has been run and holds its borrows.
    pub open spec fn borrowed(&self) -> bool {
        self.held() is Some
    }

    /// The query whose borrows are held: the one that ran, also after a transform.
    pub closed spec fn held(&self) -> Option<Query> {
        self.held
    }

    /// A query that has not been run.
    pub fn new(query: Query) -> (r: QueryBorrow)
        ensures
            r.query() == query,
            r.held() is None,
    {
        QueryBorrow { query, held: None }
    }

    /// Whether the query has been run and holds its borrows.
    pub fn is_borrowed(&self) -> (r: bool)
        ensures
            r == self.borrowed(),
    {
        self.held.is_some()
    }

    /// Runs the query: takes its borrows on `world`, then iterates. On a borrow conflict
    /// nothing stays borrowed and the error names where the conflict is. A query runs
    /// once.
    pub fn iter<V>(&mut self, world: &mut World<V>) -> (r: Result<QueryIter, BorrowError>)
        requires
            !old(self).borrowed(),
            old(world).wf(),
        ensures
            final(world).wf(),
            final(world).same_data(old(world)),
            final(self).query() == old(self).query(),
            r is Ok <==> old(world).borrows_fit(old(self).query()),
            r is Ok <==> final(self).borrowed(),
            r is Ok ==> final(self).held() == Some(old(self).query()),
            r matches Ok(it) ==> {
                &&& final(world).acquired_from(old(world), old(self).query())
                &&& it.wf(*final(world))
                &&& it.query() == old(self).query()
                &&& it.remaining(*final(world)) == yields(old(self).query(), *old(world))
            },
            r is Err ==> final(world).same_counters(old(world)) && final(self).held() is None,
    {
        self.borrow(world)?;
        proof {
            lemma_yields_same_data(self.query, *world, *old(world), 0);
        }
        Ok(QueryIter::start(self.query.duplicate(), world))
    }

    /// Like `iter`, but hands out batches of at most `batch_size` rows; a size of 0 is
    /// taken as 1.
    pub fn iter_batched<V>(&mut self, world: &mut World<V>, batch_size: u32) -> (r: Result<
        BatchedIter,
        BorrowError,
    >)
        requires
            !old(self).borrowed(),
            old(world).wf(),
        ensures
            final(world).wf(),
            final(world).same_data(old(world)),
            final(self).query() == old(self).query(),
            r is Ok <==> old(world).borrows_fit(old(self).query()),
            r is Ok <==> final(self).borrowed(),
            r is Ok ==> final(self).held() == Some(old(self).query()),
            r matches Ok(it) ==> {
                &&& final(world).acquired_from(old(world), old(self).query())
                &&& it.wf(*final(world))
                &&& it.query() == old(self).query()
                &&& it.size() == if batch_size == 0 { 1 } else { batch_size as nat }
                &&& it.remaining(*final(world)) == yields(old(self).query(), *old(world))
            },
            r is Err ==> final(world).same_counters(old(world)) && final(self).held() is None,
    {
        self.borrow(world)?;
        proof {
            lemma_yields_same_data(self.query, *world, *old(world), 0);
        }
        Ok(BatchedIter::start(self.query.duplicate(), world, batch_size))
    }

    fn borrow<V>(&mut self, world: &mut World<V>) -> (r: Result<(), BorrowError>)
        requires
            !old(self).borrowed(),
            old(world).wf(),
        ensures
            final(world).wf(),
            final(world).same_data(old(world)),
            final(self).query() == old(self).query(),
            r is Ok <==> old(world).borrows_fit(old(self).query()),
            r is Ok <==> final(self).borrowed(),
            r is Ok ==> final(self).held() == Some(old(self).query()),
            r is Ok ==> final(world).acquired_from(old(world), old(self).query()),
            r is Err ==> final(world).same_counters(old(world)) && final(self).held() is None,
    {
        let r = world.acquire_borrows(&self.query);
        if r.is_ok() {
            self.held = Some(self.query.duplicate());
        }
        r
    }

    /// Gives back the borrows that running the query took, if it was run: those of the
    /// query that ran, on the archetypes where it took them.
    pub fn release<V>(&mut self, world: &mut World<V>)
        requires
            old(world).wf(),
        ensures
            final(world).wf(),
            final(world).same_data(old(world)),
            !final(self).borrowed(),
            final(self).query() == old(self).query(),
            old(self).held() matches Some(h) ==> final(world).released_from(old(world), h),
            old(self).held() is None ==> final(world).same_counters(old(world)),
    {
        if let Some(h) = &self.held {
            world.release_borrows(h);
        }
        self.held = None;
    }

    /// The same borrows, now owned by a handle over the query `query`.
    fn transform(self, query: Query) -> (r: QueryBorrow)
        ensures
            r.query() == query,
            r.held() == self.held(),
    {
        QueryBorrow { query, held: self.held }
    }

    /// Keeps only the entities that have a `component`, without borrowing it.
    pub fn with(self, component: u32) -> (r: QueryBorrow)
        ensures
            r.query() == Query::With(With { component, query: Box::new(self.query()) }),
            r.held() == self.held(),
    {
        let q = Query::With(With { component, query: Box::new(self.query.duplicate()) });
        self.transform(q)
    }

    /// Skips the entities that have a `component`.
    pub fn without(self, component: u32) -> (r: QueryBorrow)
        ensures
            r.query() == Query::Without(
                Without { component, query: Box::new(self.query()) },
            ),
            r.held() == self.held(),
    {
        let q = Query::Without(
            Without { component, query: Box::new(self.query.duplicate()) },
        );
        self.transform(q)
    }
}

} // verus!
