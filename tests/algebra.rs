use partial_ref::{
    AbstractPart, Capability, ContainsNestedPart, Field, HasPart, HasSubset, HasTarget,
    IntoPartialRef, IntoPartialRefMut, Memory, Mode, Nested, PartDecl, PartType, PartialRef,
    PluckConst, PluckMut, RecordType, Schema, Shape, SplitIntoParts,
};

const A: u64 = 1;
const B: u64 = 2;
const C: u64 = 3;
const O: u64 = 4;

fn field(id: u64, offset: usize) -> PartDecl {
    PartDecl { id, shape: Shape::Field(Field { offset, len: 1, record: None }) }
}

/// One record type: integer fields A, B, C, one cell each.
fn abc() -> Schema {
    Schema { records: vec![RecordType { size: 3, parts: vec![field(A, 0), field(B, 1), field(C, 2)] }] }
}

fn part(id: u64) -> Nested {
    Nested::plain(id)
}

fn request(entries: &[(u64, Mode)]) -> Vec<Capability> {
    entries.iter().map(|&(id, mode)| Capability { part: part(id), mode }).collect()
}

fn listing(caps: &[Capability]) -> Vec<(Vec<u64>, Mode)> {
    caps.iter().map(|c| (c.part.ids.clone(), c.mode)).collect()
}

#[test]
fn splitting_off_a_leaves_b_and_c_exclusive() {
    let sc = abc();
    let mut r = sc.into_partial_ref_mut(0, 0);
    let (a, rest) = r.split_borrow(&sc, &request(&[(A, Mode::Exclusive)])).unwrap();
    assert_eq!(listing(a.capabilities()), vec![(vec![A], Mode::Exclusive)]);
    assert_eq!(
        listing(rest.capabilities()),
        vec![(vec![B], Mode::Exclusive), (vec![C], Mode::Exclusive)]
    );
}

#[test]
fn splitting_off_a_and_b_leaves_c() {
    let sc = abc();
    let mut r = sc.into_partial_ref_mut(0, 0);
    let (ab, rest) =
        r.split_borrow(&sc, &request(&[(A, Mode::Exclusive), (B, Mode::Exclusive)])).unwrap();
    assert_eq!(listing(ab.capabilities()).len(), 2);
    assert_eq!(listing(rest.capabilities()), vec![(vec![C], Mode::Exclusive)]);
}

#[test]
fn split_handles_write_disjoint_cells() {
    let sc = abc();
    let mut mem = Memory::new(vec![0u64, 0, 0]);
    let mut r = sc.into_partial_ref_mut(0, 0);
    let (mut a, mut rest) = r.split_borrow(&sc, &request(&[(A, Mode::Exclusive)])).unwrap();
    let pa = a.part_mut(&sc, &part(A));
    let pc = rest.part_mut(&sc, &part(C));
    pa.set(&mut mem, 0, 11);
    pc.set(&mut mem, 0, 33);
    assert_eq!(mem.cells, vec![11, 0, 33]);
}

#[test]
fn shared_lending_downgrades_exclusive() {
    let sc = abc();
    let mut r = sc.into_partial_ref_mut(0, 0);
    let (mut only_a, _) = r.split_borrow(&sc, &request(&[(A, Mode::Exclusive)])).unwrap();
    let (reader, mut rest) = only_a.split_borrow(&sc, &request(&[(A, Mode::Shared)])).unwrap();
    assert_eq!(listing(reader.capabilities()), vec![(vec![A], Mode::Shared)]);
    assert_eq!(listing(rest.capabilities()), vec![(vec![A], Mode::Shared)]);
    let e = rest.borrow(&sc, &request(&[(A, Mode::Exclusive)])).unwrap_err();
    assert_eq!((e.part.ids, e.mode), (vec![A], Mode::Exclusive));
    assert!(rest.borrow(&sc, &request(&[(A, Mode::Shared)])).is_ok());
}

#[test]
fn shared_requests_keep_every_part() {
    let sc = Schema {
        records: vec![RecordType {
            size: 4,
            parts: vec![field(A, 0), field(B, 1), field(C, 2), field(O, 3)],
        }],
    };
    let mut r = sc.into_partial_ref_mut(0, 0);
    let (_, rest) =
        r.split_borrow(&sc, &request(&[(C, Mode::Shared), (A, Mode::Shared)])).unwrap();
    assert_eq!(
        listing(rest.capabilities()),
        vec![
            (vec![A], Mode::Shared),
            (vec![B], Mode::Exclusive),
            (vec![C], Mode::Shared),
            (vec![O], Mode::Exclusive),
        ]
    );
}

#[test]
fn the_failing_request_is_named() {
    let sc = abc();
    let mut r = sc.into_partial_ref_mut(0, 0);
    let e = r
        .borrow(&sc, &request(&[(B, Mode::Shared), (A, Mode::Shared), (A, Mode::Exclusive)]))
        .unwrap_err();
    assert_eq!((e.part.ids, e.mode), (vec![A], Mode::Shared));
    let e = r.borrow(&sc, &request(&[(O, Mode::Shared)])).unwrap_err();
    assert_eq!((e.part.ids, e.mode), (vec![O], Mode::Shared));
    let e = r.pluck_const(&sc, &part(O)).unwrap_err();
    assert_eq!((e.part.ids, e.mode), (vec![O], Mode::Shared));
}

#[test]
fn empty_request_keeps_everything() {
    let sc = abc();
    let mut r = sc.into_partial_ref_mut(0, 5);
    let (none, rest) = r.split_borrow(&sc, &Vec::new()).unwrap();
    assert!(none.capabilities().is_empty());
    assert_eq!(none.get_raw(), 5);
    assert_eq!(listing(rest.capabilities()).len(), 3);
    assert!(r.has_subset(&sc, &Vec::new()));
}

#[test]
fn shared_source_grants_no_exclusive() {
    let sc = abc();
    let mut r = sc.into_partial_ref(0, 0);
    assert_eq!(
        listing(r.capabilities()),
        vec![(vec![A], Mode::Shared), (vec![B], Mode::Shared), (vec![C], Mode::Shared)]
    );
    assert!(!r.has_subset(&sc, &request(&[(B, Mode::Exclusive)])));
    assert!(r.has_subset(&sc, &request(&[(B, Mode::Shared), (B, Mode::Shared)])));
    assert!(r.pluck_mut(&sc, &part(B)).is_err());
}

#[test]
fn plucking_const_and_mut() {
    let sc = abc();
    let mut r = sc.into_partial_ref_mut(0, 0);
    let rest = r.pluck_const(&sc, &part(B)).unwrap();
    assert_eq!(
        listing(rest.capabilities()),
        vec![(vec![A], Mode::Exclusive), (vec![B], Mode::Shared), (vec![C], Mode::Exclusive)]
    );
    let rest = r.pluck_mut(&sc, &part(B)).unwrap();
    assert_eq!(
        listing(rest.capabilities()),
        vec![(vec![A], Mode::Exclusive), (vec![C], Mode::Exclusive)]
    );
}

#[test]
fn split_part_gives_the_field_and_the_rest() {
    let sc = abc();
    let mut mem = Memory::new(vec![9u64, 4, 6, 1, 2, 3]);
    let mut r = sc.into_partial_ref_mut(0, 3);
    let (b, mut rest) = r.split_part(&sc, &part(B)).unwrap();
    assert_eq!(b.len(), 1);
    assert_eq!(*b.get(&mem, 0), 2);
    let (c, rest2) = rest.split_part_mut(&sc, &part(C)).unwrap();
    let v = *b.get(&mem, 0) * 10;
    c.set(&mut mem, 0, v);
    assert_eq!(mem.cells, vec![9, 4, 6, 1, 2, 20]);
    assert_eq!(listing(rest2.capabilities()), vec![(vec![A], Mode::Exclusive), (vec![B], Mode::Shared)]);
    assert_eq!(rest2.target(), 0);
}

/// Record type 0: an opaque part O, and a field A.
fn with_opaque() -> Schema {
    Schema {
        records: vec![RecordType {
            size: 1,
            parts: vec![PartDecl { id: O, shape: Shape::Abstract(AbstractPart {}) }, field(A, 0)],
        }],
    }
}

#[test]
fn opaque_parts_are_bookkeeping_only() {
    let sc = with_opaque();
    assert!(sc.check());
    assert!(sc.has_part(0, &part(O)));
    assert_eq!(sc.part_ptr(0, &part(O), 100), None);
    assert_eq!(sc.part_ptr(0, &part(A), 100), Some(100));
    assert_eq!(AbstractPart {}.part_addr(100), None);
    let mut r = sc.into_partial_ref_mut(0, 0);
    let (o, rest) = r.split_borrow(&sc, &request(&[(O, Mode::Exclusive)])).unwrap();
    assert_eq!(listing(o.capabilities()), vec![(vec![O], Mode::Exclusive)]);
    assert_eq!(listing(rest.capabilities()), vec![(vec![A], Mode::Exclusive)]);
}

#[test]
fn field_addresses_add_offsets() {
    let f = Field { offset: 7, len: 2, record: None };
    assert_eq!(f.part_addr(10), Some(17));
    assert_eq!(f.part_addr(usize::MAX), None);
    let sc = abc();
    assert_eq!(sc.part_ptr(0, &part(C), 40), Some(42));
    assert_eq!(sc.part_ptr(0, &part(O), 40), None);
    assert!(!sc.has_part(0, &part(O)));
    assert!(!sc.has_part(0, &Nested { ids: vec![] }));
}

#[test]
fn splitting_a_part_into_its_nested_parts() {
    let mut sc = abc();
    sc.records.push(RecordType {
        size: 3,
        parts: vec![PartDecl { id: O, shape: Shape::Field(Field { offset: 0, len: 3, record: Some(0) }) }],
    });
    assert!(sc.check());
    let pieces = sc.split_into_parts(1, &part(O), Mode::Exclusive).unwrap();
    assert_eq!(
        listing(&pieces),
        vec![(vec![O, A], Mode::Exclusive), (vec![O, B], Mode::Exclusive), (vec![O, C], Mode::Exclusive)]
    );
    assert!(sc.split_into_parts(0, &part(A), Mode::Shared).is_none());
    assert_eq!(sc.part_ptr(1, &Nested { ids: vec![O, C] }, 10), Some(12));
}

#[test]
fn schema_check_finds_faults() {
    assert!(abc().check());
    let dup = Schema { records: vec![RecordType { size: 2, parts: vec![field(A, 0), field(A, 1)] }] };
    assert!(!dup.check());
    let outside = Schema { records: vec![RecordType { size: 1, parts: vec![field(A, 1)] }] };
    assert!(!outside.check());
    let overlapping = Schema {
        records: vec![RecordType {
            size: 3,
            parts: vec![
                field(A, 0),
                PartDecl { id: B, shape: Shape::Field(Field { offset: 0, len: 2, record: None }) },
            ],
        }],
    };
    assert!(!overlapping.check());
    let adjacent = Schema {
        records: vec![RecordType {
            size: 3,
            parts: vec![
                PartDecl { id: B, shape: Shape::Field(Field { offset: 1, len: 2, record: None }) },
                field(A, 0),
            ],
        }],
    };
    assert!(adjacent.check());
    let missing = Schema {
        records: vec![RecordType {
            size: 1,
            parts: vec![PartDecl { id: A, shape: Shape::Field(Field { offset: 0, len: 1, record: Some(3) }) }],
        }],
    };
    assert!(!missing.check());
    let wrong_size = Schema {
        records: vec![
            RecordType { size: 2, parts: vec![] },
            RecordType {
                size: 1,
                parts: vec![PartDecl { id: A, shape: Shape::Field(Field { offset: 0, len: 1, record: Some(0) }) }],
            },
        ],
    };
    assert!(!wrong_size.check());
}

#[test]
fn nested_parts_compose_outermost_first() {
    let outer = Nested { ids: vec![A, B] };
    let inner = Nested { ids: vec![C] };
    let n = outer.nest(&inner);
    assert_eq!(n.ids, vec![A, B, C]);
    assert!(outer.contains_nested_part(&n));
    assert!(n.contains_nested_part(&n));
    assert!(!n.contains_nested_part(&outer));
    assert!(!inner.contains_nested_part(&n));
    assert!(n.same(&n.copy()));
    assert!(!n.same(&outer));
}

// A routine that needs exclusive weights and shared colors of a graph.

#[derive(Clone, Copy, Debug, PartialEq)]
enum Cell {
    Color(usize),
    Weight(f32),
}

const NEIGHBORS: u64 = 21;
const COLORS: u64 = 22;
const WEIGHTS: u64 = 23;

fn graph_schema() -> Schema {
    Schema {
        records: vec![RecordType {
            size: 6,
            parts: vec![
                PartDecl { id: NEIGHBORS, shape: Shape::Abstract(AbstractPart {}) },
                PartDecl { id: COLORS, shape: Shape::Field(Field { offset: 0, len: 3, record: None }) },
                PartDecl { id: WEIGHTS, shape: Shape::Field(Field { offset: 3, len: 3, record: None }) },
            ],
        }],
    }
}

fn add_color_to_weight(sc: &Schema, mem: &mut Memory<Cell>, mut g: partial_ref::Ref, index: usize) {
    let color = match *g.part(sc, &part(COLORS)).get(mem, index) {
        Cell::Color(c) => c,
        Cell::Weight(_) => unreachable!(),
    };
    let w = g.part_mut(sc, &part(WEIGHTS));
    let weight = match *w.get(mem, index) {
        Cell::Weight(x) => x,
        Cell::Color(_) => unreachable!(),
    };
    w.set(mem, index, Cell::Weight(weight + color as f32));
}

#[test]
fn narrowed_routine_updates_weights() {
    let sc = graph_schema();
    assert!(sc.check());
    let mut mem = Memory::new(vec![
        Cell::Color(0),
        Cell::Color(1),
        Cell::Color(0),
        Cell::Weight(0.25),
        Cell::Weight(0.5),
        Cell::Weight(0.75),
    ]);
    let mut g = sc.into_partial_ref_mut(0, 0);
    let req = vec![
        Capability { part: part(WEIGHTS), mode: Mode::Exclusive },
        Capability { part: part(COLORS), mode: Mode::Shared },
    ];
    add_color_to_weight(&sc, &mut mem, g.borrow(&sc, &req).unwrap(), 1);
    let w = g.part(&sc, &part(WEIGHTS));
    assert_eq!(*w.get(&mem, 0), Cell::Weight(0.25));
    assert_eq!(*w.get(&mem, 1), Cell::Weight(1.5));
    assert_eq!(*w.get(&mem, 2), Cell::Weight(0.75));
}

#[test]
fn only_shared_handles_duplicate() {
    let sc = abc();
    let r = sc.into_partial_ref(0, 2);
    let d = r.duplicate().unwrap();
    assert_eq!(listing(d.capabilities()), listing(r.capabilities()));
    assert_eq!(d.get_raw(), 2);
    let m = sc.into_partial_ref_mut(0, 2);
    assert!(m.duplicate().is_none());
}

#[test]
fn request_order_does_not_matter() {
    let sc = abc();
    let mut r = sc.into_partial_ref_mut(0, 0);
    let orders: [&[(u64, Mode)]; 3] = [
        &[(C, Mode::Shared), (A, Mode::Exclusive)],
        &[(A, Mode::Exclusive), (C, Mode::Shared)],
        &[(C, Mode::Shared), (A, Mode::Exclusive), (C, Mode::Shared)],
    ];
    let mut seen = Vec::new();
    for req in orders.iter().take(2) {
        let (h, rest) = r.split_borrow(&sc, &request(req)).unwrap();
        assert_eq!(listing(h.capabilities()), listing(&request(req)));
        seen.push(listing(rest.capabilities()));
    }
    assert_eq!(seen[0], seen[1]);
    assert_eq!(seen[0], vec![(vec![B], Mode::Exclusive), (vec![C], Mode::Shared)]);
    let (h, _) = r.split_borrow(&sc, &request(orders[2])).unwrap();
    assert_eq!(listing(h.capabilities()).len(), 3);
}

#[test]
fn remainder_drops_exclusive_and_downgrades_shared() {
    let sc = Schema {
        records: vec![RecordType {
            size: 4,
            parts: vec![field(A, 0), field(B, 1), field(C, 2), field(O, 3)],
        }],
    };
    let mut r = sc.into_partial_ref_mut(0, 0);
    for req in [
        request(&[(O, Mode::Exclusive), (B, Mode::Shared)]),
        request(&[(B, Mode::Shared), (O, Mode::Exclusive)]),
    ] {
        let (h, rest) = r.split_borrow(&sc, &req).unwrap();
        assert_eq!(listing(h.capabilities()), listing(&req));
        assert_eq!(
            listing(rest.capabilities()),
            vec![(vec![A], Mode::Exclusive), (vec![B], Mode::Shared), (vec![C], Mode::Exclusive)]
        );
    }
}

#[test]
fn borrowed_handle_holds_the_requests_as_given() {
    let sc = abc();
    let mut r = sc.into_partial_ref_mut(0, 0);
    let req = request(&[(B, Mode::Exclusive), (A, Mode::Exclusive)]);
    let h = r.borrow(&sc, &req).unwrap();
    assert_eq!(listing(h.capabilities()), vec![(vec![B], Mode::Exclusive), (vec![A], Mode::Exclusive)]);
}
