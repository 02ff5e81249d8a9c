use hecs::{Access, BorrowError, Entity, Query, QueryBorrow, View, With, Without, World};

const INT: u32 = 1;
const STR: u32 = 2;
const BOOL: u32 = 3;
const WIDE: u32 = 4;

#[derive(Debug, Clone, PartialEq)]
enum Val {
    I(i32),
    S(&'static str),
    B(bool),
    W(u128),
}

/// A view with the values it points at.
#[derive(Debug, PartialEq)]
enum Got {
    Unit,
    Ref(Val),
    Mut(Val),
    Opt(Option<Box<Got>>),
    Pair(Box<Got>, Box<Got>),
}

fn resolve(w: &World<Val>, v: &View) -> Got {
    match v {
        View::Unit => Got::Unit,
        View::Ref(s) => Got::Ref(w.component(s).clone()),
        View::Mut(s) => Got::Mut(w.component(s).clone()),
        View::Opt(o) => Got::Opt(o.as_ref().map(|b| Box::new(resolve(w, b)))),
        View::Pair(a, b) => Got::Pair(Box::new(resolve(w, a)), Box::new(resolve(w, b))),
    }
}

fn r(v: Val) -> Got {
    Got::Ref(v)
}

fn pair(a: Got, b: Got) -> Got {
    Got::Pair(Box::new(a), Box::new(b))
}

fn read(t: u32) -> Query {
    Query::Read(t)
}

fn write(t: u32) -> Query {
    Query::Write(t)
}

fn both(a: Query, b: Query) -> Query {
    Query::Pair(Box::new(a), Box::new(b))
}

/// Spawns an entity with the given components, in the archetype of exactly those types.
fn spawn(w: &mut World<Val>, comps: Vec<(u32, Val)>) -> Entity {
    let mut found = None;
    for i in 0..w.archetype_count() {
        let a = w.archetype(i);
        if a.column_count() == comps.len() && comps.iter().all(|(t, _)| a.has(*t)) {
            found = Some(i);
        }
    }
    let ai = match found {
        Some(i) => i,
        None => w.add_archetype(comps.iter().map(|(t, _)| *t).collect()).unwrap(),
    };
    let a = w.archetype(ai);
    let mut values = Vec::new();
    for c in 0..a.column_count() {
        let t = a.component_type(c);
        values.push(comps.iter().find(|(u, _)| *u == t).unwrap().1.clone());
    }
    w.spawn(ai, values).unwrap()
}

fn collect(w: &mut World<Val>, q: Query) -> Vec<(Entity, Got)> {
    let mut qb = QueryBorrow::new(q);
    let mut it = match qb.iter(w) {
        Ok(it) => it,
        Err(e) => panic!("{}", e.message()),
    };
    let mut out = Vec::new();
    while let Some((e, v)) = it.next(w) {
        out.push((e, resolve(w, &v)));
    }
    qb.release(w);
    out
}

/// e: ("abc", 123), f: ("def", 456)
fn two_alike() -> (World<Val>, Entity, Entity) {
    let mut w = World::new();
    let e = spawn(&mut w, vec![(STR, Val::S("abc")), (INT, Val::I(123))]);
    let f = spawn(&mut w, vec![(STR, Val::S("def")), (INT, Val::I(456))]);
    (w, e, f)
}

/// e: ("abc", 123), f: ("def", 456, true)
fn one_with_bool() -> (World<Val>, Entity, Entity) {
    let mut w = World::new();
    let e = spawn(&mut w, vec![(STR, Val::S("abc")), (INT, Val::I(123))]);
    let f = spawn(&mut w, vec![(STR, Val::S("def")), (INT, Val::I(456)), (BOOL, Val::B(true))]);
    (w, e, f)
}

/// a: (123, true, "abc"), b: (456, false), c: (42, "def")
fn three_shapes() -> (World<Val>, Entity, Entity, Entity) {
    let mut w = World::new();
    let a = spawn(&mut w, vec![(INT, Val::I(123)), (BOOL, Val::B(true)), (STR, Val::S("abc"))]);
    let b = spawn(&mut w, vec![(INT, Val::I(456)), (BOOL, Val::B(false))]);
    let c = spawn(&mut w, vec![(INT, Val::I(42)), (STR, Val::S("def"))]);
    (w, a, b, c)
}

#[test]
fn access_order() {
    assert!(Access::Write > Access::Read);
    assert!(Access::Read > Access::Iterate);
    assert!(Some(Access::Iterate) > None);
}

#[test]
fn access_join() {
    assert_eq!(Access::Iterate.join(Access::Read), Access::Read);
    assert_eq!(Access::Write.join(Access::Read), Access::Write);
    assert_eq!(Access::Iterate.join(Access::Iterate), Access::Iterate);
}

#[test]
fn query_all() {
    let (mut w, e, f) = two_alike();
    let ents = collect(&mut w, both(read(INT), read(STR)));
    assert_eq!(ents.len(), 2);
    assert!(ents.contains(&(e, pair(r(Val::I(123)), r(Val::S("abc"))))));
    assert!(ents.contains(&(f, pair(r(Val::I(456)), r(Val::S("def"))))));

    let ents = collect(&mut w, Query::Unit);
    assert_eq!(ents.len(), 2);
    assert!(ents.contains(&(e, Got::Unit)));
    assert!(ents.contains(&(f, Got::Unit)));
}

#[test]
fn query_single_component() {
    let (mut w, e, f) = one_with_bool();
    let ents = collect(&mut w, read(INT));
    assert_eq!(ents.len(), 2);
    assert!(ents.contains(&(e, r(Val::I(123)))));
    assert!(ents.contains(&(f, r(Val::I(456)))));
}

#[test]
fn query_missing_component() {
    let (mut w, _, _) = two_alike();
    let ents = collect(&mut w, both(read(BOOL), read(INT)));
    assert_eq!(ents.len(), 0);
}

#[test]
fn query_sparse_component() {
    let (mut w, _, f) = one_with_bool();
    let ents = collect(&mut w, read(BOOL));
    assert_eq!(ents, vec![(f, r(Val::B(true)))]);
}

#[test]
fn query_optional_component() {
    let (mut w, e, f) = one_with_bool();
    let ents = collect(&mut w, both(Query::Optional(Box::new(read(BOOL))), read(INT)));
    assert_eq!(ents.len(), 2);
    assert!(ents.contains(&(e, pair(Got::Opt(None), r(Val::I(123))))));
    assert!(ents.contains(&(f, pair(Got::Opt(Some(Box::new(r(Val::B(true))))), r(Val::I(456))))));
}

#[test]
fn query_without() {
    let (mut w, _, _, c) = three_shapes();
    let mut qb = QueryBorrow::new(read(INT)).without(BOOL);
    let mut it = qb.iter(&mut w).unwrap();
    let mut ents = Vec::new();
    while let Some((e, v)) = it.next(&w) {
        ents.push((e, resolve(&w, &v)));
    }
    assert_eq!(ents, vec![(c, r(Val::I(42)))]);
}

#[test]
fn query_with() {
    let (mut w, a, b, _) = three_shapes();
    let mut qb = QueryBorrow::new(read(INT)).with(BOOL);
    let mut it = qb.iter(&mut w).unwrap();
    let mut ents = Vec::new();
    while let Some((e, v)) = it.next(&w) {
        ents.push((e, resolve(&w, &v)));
    }
    assert_eq!(ents.len(), 2);
    assert!(ents.contains(&(a, r(Val::I(123)))));
    assert!(ents.contains(&(b, r(Val::I(456)))));
}

#[test]
fn transform_matches_filter_query() {
    let (mut w, _, _, _) = three_shapes();
    let direct = collect(
        &mut w,
        Query::With(With { component: BOOL, query: Box::new(read(INT)) }),
    );
    let mut qb = QueryBorrow::new(read(INT)).with(BOOL);
    let mut it = qb.iter(&mut w).unwrap();
    let mut via = Vec::new();
    while let Some((e, v)) = it.next(&w) {
        via.push((e, resolve(&w, &v)));
    }
    qb.release(&mut w);
    assert_eq!(direct, via);

    let direct = collect(
        &mut w,
        Query::Without(Without { component: BOOL, query: Box::new(read(INT)) }),
    );
    let mut qb = QueryBorrow::new(read(INT)).without(BOOL);
    let mut it = qb.iter(&mut w).unwrap();
    let mut via = Vec::new();
    while let Some((e, v)) = it.next(&w) {
        via.push((e, resolve(&w, &v)));
    }
    qb.release(&mut w);
    assert_eq!(direct, via);
    assert_eq!(direct.len(), 1);
}

#[test]
#[should_panic(expected = "already borrowed")]
fn illegal_borrow() {
    let (mut w, _, _) = two_alike();
    let mut qb = QueryBorrow::new(both(write(INT), read(INT)));
    if let Err(e) = qb.iter(&mut w) {
        panic!("{}", e.message());
    }
}

#[test]
#[should_panic(expected = "already borrowed")]
fn illegal_borrow_2() {
    let (mut w, _, _) = two_alike();
    let mut qb = QueryBorrow::new(both(write(INT), write(INT)));
    if let Err(e) = qb.iter(&mut w) {
        panic!("{}", e.message());
    }
}

#[test]
fn shared_borrow() {
    let (mut w, _, _) = two_alike();
    let mut qb = QueryBorrow::new(both(read(INT), read(INT)));
    assert!(qb.iter(&mut w).is_ok());
    assert!(qb.is_borrowed());
}

#[test]
fn conflict_names_column_and_leaves_nothing_borrowed() {
    let mut w = World::new();
    spawn(&mut w, vec![(INT, Val::I(1))]);
    let mut qb = QueryBorrow::new(both(write(INT), read(INT)));
    match qb.iter(&mut w) {
        Ok(_) => panic!("conflict not detected"),
        Err(e) => assert_eq!(e, BorrowError { archetype: 0, component: INT }),
    }
    assert!(!qb.is_borrowed());
    // The exclusive borrow taken before the conflict was given back.
    let mut other = QueryBorrow::new(write(INT));
    assert!(other.iter(&mut w).is_ok());
}

#[test]
fn concurrent_readers_then_writer() {
    let (mut w, _, _) = two_alike();
    let mut q1 = QueryBorrow::new(read(INT));
    let mut q2 = QueryBorrow::new(both(read(INT), read(STR)));
    assert!(q1.iter(&mut w).is_ok());
    assert!(q2.iter(&mut w).is_ok());
    let mut q3 = QueryBorrow::new(write(STR));
    assert_eq!(q3.iter(&mut w).err(), Some(BorrowError { archetype: 0, component: STR }));
    q2.release(&mut w);
    let mut q4 = QueryBorrow::new(write(STR));
    assert!(q4.iter(&mut w).is_ok());
    let mut q5 = QueryBorrow::new(write(INT));
    assert!(q5.iter(&mut w).is_err());
    q1.release(&mut w);
    let mut q6 = QueryBorrow::new(write(INT));
    assert!(q6.iter(&mut w).is_ok());
}

#[test]
fn filters_still_borrow_their_inner_query() {
    let (mut w, _, _) = one_with_bool();
    let mut q1 = QueryBorrow::new(Query::Without(Without {
        component: BOOL,
        query: Box::new(write(INT)),
    }));
    assert!(q1.iter(&mut w).is_ok());
    // Only the archetype without `bool` is borrowed.
    let mut q2 = QueryBorrow::new(both(read(BOOL), read(INT)));
    assert!(q2.iter(&mut w).is_ok());
    let mut q3 = QueryBorrow::new(read(INT));
    assert_eq!(q3.iter(&mut w).err(), Some(BorrowError { archetype: 0, component: INT }));
}

#[test]
fn exact_size() {
    let (mut w, _, _) = one_with_bool();
    spawn(&mut w, vec![(BOOL, Val::B(false))]);
    let mut qb = QueryBorrow::new(read(INT));
    let mut it = qb.iter(&mut w).unwrap();
    assert_eq!(it.len(&w), 2);
    assert!(it.next(&w).is_some());
    assert_eq!(it.len(&w), 1);
    assert!(it.next(&w).is_some());
    assert_eq!(it.len(&w), 0);
    assert!(it.next(&w).is_none());
    assert_eq!(it.len(&w), 0);
}

#[test]
fn generations_come_from_metadata() {
    let (mut w, e, f) = two_alike();
    assert_eq!(e, Entity { id: 0, generation: 0 });
    assert_eq!(f, Entity { id: 1, generation: 0 });
    for (ent, _) in collect(&mut w, Query::Unit) {
        assert_eq!(ent.generation, w.meta_of(ent.id).generation);
    }
}

#[test]
fn write_views_point_at_the_row() {
    let (mut w, e, f) = two_alike();
    let ents = collect(&mut w, write(INT));
    assert_eq!(ents, vec![(e, Got::Mut(Val::I(123))), (f, Got::Mut(Val::I(456)))]);
}

#[test]
fn batches_partition_the_rows() {
    let mut w = World::new();
    for i in 0..5 {
        spawn(&mut w, vec![(INT, Val::I(i))]);
    }
    for i in 5..8 {
        spawn(&mut w, vec![(INT, Val::I(i)), (BOOL, Val::B(true))]);
    }
    spawn(&mut w, vec![(STR, Val::S("x"))]);
    let plain = collect(&mut w, read(INT));

    let mut qb = QueryBorrow::new(read(INT));
    let mut batches = qb.iter_batched(&mut w, 2).unwrap();
    let mut sizes = Vec::new();
    let mut joined = Vec::new();
    while let Some(mut b) = batches.next(&w) {
        let mut n = 0;
        while let Some((e, v)) = b.next(&w) {
            joined.push((e, resolve(&w, &v)));
            n += 1;
        }
        sizes.push(n);
    }
    assert_eq!(sizes, vec![2, 2, 1, 2, 1]);
    assert_eq!(joined, plain);
    assert_eq!(joined.len(), 8);
}

#[test]
fn batch_size_zero_is_one() {
    let (mut w, _, _) = two_alike();
    let mut qb = QueryBorrow::new(read(INT));
    let mut batches = qb.iter_batched(&mut w, 0).unwrap();
    let mut count = 0;
    while let Some(mut b) = batches.next(&w) {
        assert!(b.next(&w).is_some());
        assert!(b.next(&w).is_none());
        count += 1;
    }
    assert_eq!(count, 2);
}

#[test]
fn release_gives_borrows_back() {
    let (mut w, _, _) = two_alike();
    let mut qb = QueryBorrow::new(write(INT));
    assert!(qb.iter(&mut w).is_ok());
    let mut other = QueryBorrow::new(read(INT));
    assert!(other.iter(&mut w).is_err());
    qb.release(&mut w);
    assert!(!qb.is_borrowed());
    assert!(other.iter(&mut w).is_ok());
}

#[test]
fn spawn_rejects_bad_input() {
    let mut w: World<Val> = World::new();
    assert_eq!(w.add_archetype(vec![INT, INT]), None);
    let a = w.add_archetype(vec![INT, STR]).unwrap();
    assert_eq!(w.spawn(a, vec![Val::I(1)]), None);
    assert_eq!(w.spawn(a + 1, vec![Val::I(1), Val::S("s")]), None);
    assert!(w.spawn(a, vec![Val::I(1), Val::S("s")]).is_some());
}

#[test]
fn spawn_many() {
    let mut w = World::new();
    let a = w.add_archetype(vec![WIDE]).unwrap();
    const N: usize = 100_000;
    for _ in 0..N {
        w.spawn(a, vec![Val::W(42)]).unwrap();
    }
    let mut qb = QueryBorrow::new(Query::Unit);
    let mut it = qb.iter(&mut w).unwrap();
    assert_eq!(it.len(&w), N);
    let mut count = 0;
    while it.next(&w).is_some() {
        count += 1;
    }
    assert_eq!(count, N);
}

#[test]
fn release_after_transform_gives_back_everything() {
    let (mut w, _, _) = one_with_bool();
    let mut qb = QueryBorrow::new(write(INT));
    assert!(qb.iter(&mut w).is_ok());
    let mut filtered = qb.with(BOOL);
    assert!(filtered.is_borrowed());
    filtered.release(&mut w);
    assert!(!filtered.is_borrowed());
    // Both archetypes, with and without `bool`, are free again.
    let mut other = QueryBorrow::new(write(INT));
    assert!(other.iter(&mut w).is_ok());
}
