use partial_ref::{
    Capability, Field, Foo, IntoPartialRefMut, Memory, Mode, Nested, PartDecl, PartialRef,
    RecordType, Schema, Shape, PART_A, PART_B,
};

const PART_FOO: u64 = 10;
const PART_BAR: u64 = 11;

/// Record types: 0 is `Foo`; 1 is `Bar { foo: Foo, a: u32 }`; 2 is `Baz { bar: Bar, a: u32 }`.
fn schema() -> Schema {
    let mut sc = Foo::schema();
    sc.records.push(RecordType {
        size: 3,
        parts: vec![
            PartDecl {
                id: PART_FOO,
                shape: Shape::Field(Field { offset: 0, len: 2, record: Some(0) }),
            },
            PartDecl { id: PART_A, shape: Shape::Field(Field { offset: 2, len: 1, record: None }) },
        ],
    });
    sc.records.push(RecordType {
        size: 4,
        parts: vec![
            PartDecl {
                id: PART_BAR,
                shape: Shape::Field(Field { offset: 0, len: 3, record: Some(1) }),
            },
            PartDecl { id: PART_A, shape: Shape::Field(Field { offset: 3, len: 1, record: None }) },
        ],
    });
    assert!(sc.check());
    sc
}

const BAR: usize = 1;
const BAZ: usize = 2;

fn path(ids: &[u64]) -> Nested {
    Nested { ids: ids.to_vec() }
}

fn request(entries: &[(&[u64], Mode)]) -> Vec<Capability> {
    entries.iter().map(|&(ids, mode)| Capability { part: path(ids), mode }).collect()
}

#[test]
fn test_nested_mut() {
    // Bar { foo: Foo { a: 1, b: 2 }, a: 3 }
    let sc = schema();
    let mut s = Memory::new(vec![1u32, 2, 3]);

    let mut sr = sc.into_partial_ref_mut(BAR, 0);

    let (mut foo_a, mut sr) =
        sr.split_borrow(&sc, &request(&[(&[PART_FOO, PART_A], Mode::Exclusive)])).unwrap();

    let x = foo_a.part_mut(&sc, &path(&[PART_FOO, PART_A]));
    let y = sr.part_mut(&sc, &path(&[PART_A]));
    let (vx, vy) = (*x.get(&s, 0), *y.get(&s, 0));
    x.set(&mut s, 0, vy);
    y.set(&mut s, 0, vx);

    assert_eq!(s.cells[0], 3);
    assert_eq!(s.cells[2], 1);
}

#[test]
fn test_deeply_nested_mut() {
    // Baz { bar: Bar { foo: Foo { a: 1, b: 2 }, a: 3 }, a: 7 }
    let sc = schema();
    let mut s = Memory::new(vec![1u32, 2, 3, 7]);

    let mut sr = sc.into_partial_ref_mut(BAZ, 0);

    let deep: &[u64] = &[PART_BAR, PART_FOO, PART_A];
    let (mut foo_a, mut sr) = sr.split_borrow(&sc, &request(&[(deep, Mode::Exclusive)])).unwrap();

    let x = foo_a.part_mut(&sc, &path(deep));
    let y = sr.part_mut(&sc, &path(&[PART_A]));
    let (vx, vy) = (*x.get(&s, 0), *y.get(&s, 0));
    x.set(&mut s, 0, vy);
    y.set(&mut s, 0, vx);

    assert_eq!(s.cells[0], 7);
    assert_eq!(s.cells[3], 1);
}

#[test]
fn test_nested_mut_to_const() {
    let sc = schema();
    let mut s = Memory::new(vec![1u32, 2, 3]);

    let mut sr = sc.into_partial_ref_mut(BAR, 0);

    let (foo_a, mut sr) =
        sr.split_borrow(&sc, &request(&[(&[PART_FOO, PART_A], Mode::Shared)])).unwrap();

    let v = *foo_a.part(&sc, &path(&[PART_FOO, PART_A])).get(&s, 0);
    sr.part_mut(&sc, &path(&[PART_A])).set(&mut s, 0, v);

    // make sure other parts are still mutable
    sr.part_mut(&sc, &path(&[PART_FOO, PART_B])).set(&mut s, 0, 10);

    assert_eq!(s.cells[0], 1);
    assert_eq!(s.cells[1], 10);
    assert_eq!(s.cells[2], 1);
}

#[test]
fn test_nested_const() {
    let sc = schema();
    let mut s = Memory::new(vec![1u32, 2, 3]);

    let mut sr = sc.into_partial_ref_mut(BAR, 0);

    let (mut src, _sr) = sr
        .split_borrow(&sc, &request(&[(&[PART_FOO], Mode::Shared), (&[PART_A], Mode::Exclusive)]))
        .unwrap();

    let (foo_a, mut src) =
        src.split_borrow(&sc, &request(&[(&[PART_FOO, PART_A], Mode::Shared)])).unwrap();

    let v = *foo_a.part(&sc, &path(&[PART_FOO, PART_A])).get(&s, 0);
    src.part_mut(&sc, &path(&[PART_A])).set(&mut s, 0, v);

    assert_eq!(s.cells[0], 1);
    assert_eq!(s.cells[2], 1);
}

#[test]
fn nested_exclusive_leaves_siblings_exclusive() {
    let sc = schema();
    let mut sr = sc.into_partial_ref_mut(BAR, 0);
    let (_, rest) =
        sr.split_borrow(&sc, &request(&[(&[PART_FOO, PART_A], Mode::Exclusive)])).unwrap();
    // Foo's parts are C, D, A, B; A went to the other handle.
    let left: Vec<(Vec<u64>, Mode)> =
        rest.capabilities().iter().map(|c| (c.part.ids.clone(), c.mode)).collect();
    assert_eq!(
        left,
        vec![
            (vec![PART_FOO, partial_ref::PART_C], Mode::Exclusive),
            (vec![PART_FOO, partial_ref::PART_D], Mode::Exclusive),
            (vec![PART_FOO, PART_B], Mode::Exclusive),
            (vec![PART_A], Mode::Exclusive),
        ]
    );
}

#[test]
fn nested_with_its_outer_part_is_rejected() {
    let sc = schema();
    let mut sr = sc.into_partial_ref_mut(BAR, 0);
    let nested: &[u64] = &[PART_FOO, PART_A];
    let outer: &[u64] = &[PART_FOO];
    // The outer part is matched first, whatever the order of the requests.
    let e = sr
        .borrow(&sc, &request(&[(nested, Mode::Exclusive), (outer, Mode::Exclusive)]))
        .unwrap_err();
    assert_eq!((e.part.ids, e.mode), (nested.to_vec(), Mode::Exclusive));
    let e = sr
        .borrow(&sc, &request(&[(outer, Mode::Exclusive), (nested, Mode::Exclusive)]))
        .unwrap_err();
    assert_eq!((e.part.ids, e.mode), (nested.to_vec(), Mode::Exclusive));
    let e = sr.borrow(&sc, &request(&[(nested, Mode::Exclusive), (outer, Mode::Shared)])).unwrap_err();
    assert_eq!((e.part.ids, e.mode), (nested.to_vec(), Mode::Exclusive));
}

#[test]
fn nested_part_needs_exclusive_outer_part() {
    let sc = schema();
    let mut sr = sc.into_partial_ref_mut(BAR, 0);
    let (mut shared_foo, _) =
        sr.split_borrow(&sc, &request(&[(&[PART_FOO], Mode::Shared)])).unwrap();
    let nested: &[u64] = &[PART_FOO, PART_A];
    assert!(shared_foo.borrow(&sc, &request(&[(nested, Mode::Exclusive)])).is_err());
    assert!(shared_foo.borrow(&sc, &request(&[(nested, Mode::Shared)])).is_ok());
}

#[test]
fn nested_part_must_exist_in_the_field_record() {
    let sc = schema();
    let mut sr = sc.into_partial_ref_mut(BAR, 0);
    // `a` of Bar is a plain field: nothing is nested in it.
    assert!(sr.borrow(&sc, &request(&[(&[PART_A, PART_A], Mode::Exclusive)])).is_err());
    // Foo has no part named like Bar's field.
    assert!(sr.borrow(&sc, &request(&[(&[PART_FOO, PART_FOO], Mode::Exclusive)])).is_err());
    assert!(sr.borrow(&sc, &request(&[(&[PART_FOO, PART_B], Mode::Exclusive)])).is_ok());
}

#[test]
fn shared_outer_and_nested_in_either_order() {
    let sc = schema();
    let mut sr = sc.into_partial_ref_mut(BAR, 0);
    let nested: &[u64] = &[PART_FOO, PART_A];
    let outer: &[u64] = &[PART_FOO];
    let (h1, r1) =
        sr.split_borrow(&sc, &request(&[(outer, Mode::Shared), (nested, Mode::Shared)])).unwrap();
    assert_eq!(
        listing(h1.capabilities()),
        vec![(outer.to_vec(), Mode::Shared), (nested.to_vec(), Mode::Shared)]
    );
    let rest1 = listing(r1.capabilities());
    let (h2, r2) =
        sr.split_borrow(&sc, &request(&[(nested, Mode::Shared), (outer, Mode::Shared)])).unwrap();
    // The narrowed handle holds the requests as given; the remainder does not depend on their order.
    assert_eq!(
        listing(h2.capabilities()),
        vec![(nested.to_vec(), Mode::Shared), (outer.to_vec(), Mode::Shared)]
    );
    assert_eq!(listing(r2.capabilities()), rest1);
    assert_eq!(rest1, vec![(outer.to_vec(), Mode::Shared), (vec![PART_A], Mode::Exclusive)]);
}

#[test]
fn ambiguous_match_is_rejected() {
    let sc = schema();
    let mut sr = sc.into_partial_ref_mut(BAR, 0);
    let nested: &[u64] = &[PART_FOO, PART_A];
    let outer: &[u64] = &[PART_FOO];
    let (mut both, _) =
        sr.split_borrow(&sc, &request(&[(outer, Mode::Shared), (nested, Mode::Shared)])).unwrap();
    // Both capabilities contain the nested part.
    let e = both.borrow(&sc, &request(&[(nested, Mode::Shared)])).unwrap_err();
    assert_eq!((e.part.ids, e.mode), (nested.to_vec(), Mode::Shared));
    // Only one contains the outer part.
    assert!(both.borrow(&sc, &request(&[(outer, Mode::Shared)])).is_ok());
}

fn listing(caps: &[Capability]) -> Vec<(Vec<u64>, Mode)> {
    caps.iter().map(|c| (c.part.ids.clone(), c.mode)).collect()
}
