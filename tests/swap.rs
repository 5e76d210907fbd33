use partial_ref::{
    swap_a_and_b, swap_a_and_b_alt, swap_a_and_b_lt, Capability, Foo, IntoPartialRefMut, Mode,
    Nested, PartialRef, PART_A, PART_B, PART_C,
};

fn part(id: u64) -> Nested {
    Nested::plain(id)
}

fn exclusive(ids: &[u64]) -> Vec<Capability> {
    ids.iter().map(|&id| Capability { part: part(id), mode: Mode::Exclusive }).collect()
}

#[test]
fn test_swap_a_and_b() {
    let f = Foo { a: 1, b: 2 };
    let sc = Foo::schema();
    let mut mem = f.memory();

    let mut fr = sc.into_partial_ref_mut(0, 0);

    swap_a_and_b(&sc, &mut mem, fr.borrow(&sc, &exclusive(&[PART_A, PART_B])).unwrap());

    assert_eq!(*fr.part(&sc, &part(PART_A)).get(&mem, 0), 2);
    assert_eq!(*fr.part(&sc, &part(PART_B)).get(&mem, 0), 1);
}

#[test]
fn test_swap_a_and_b_alt() {
    let f = Foo { a: 1, b: 2 };
    let sc = Foo::schema();
    let mut mem = f.memory();

    let mut whole = sc.into_partial_ref_mut(0, 0);

    let (x, mut fr) = whole.split_borrow(&sc, &exclusive(&[PART_C])).unwrap();

    swap_a_and_b_alt(&sc, &mut mem, fr.borrow(&sc, &exclusive(&[PART_A, PART_B])).unwrap());

    assert_eq!(*fr.part(&sc, &part(PART_A)).get(&mem, 0), 2);
    assert_eq!(*fr.part(&sc, &part(PART_B)).get(&mem, 0), 1);

    drop(x);
}

#[test]
fn test_swap_a_and_b_lt() {
    let f = Foo { a: 1, b: 2 };
    let sc = Foo::schema();
    let mut mem = f.memory();

    let mut fr = sc.into_partial_ref_mut(0, 0);

    swap_a_and_b_lt(&sc, &mut mem, fr.borrow(&sc, &exclusive(&[PART_A, PART_B])).unwrap());

    assert_eq!(*fr.part(&sc, &part(PART_A)).get(&mem, 0), 2);
    assert_eq!(*fr.part(&sc, &part(PART_B)).get(&mem, 0), 1);
}

#[test]
fn swap_goes_through_the_record_and_back() {
    let sc = Foo::schema();
    let mut mem = Foo { a: 5, b: 9 }.memory();
    let mut fr = sc.into_partial_ref_mut(0, 0);
    swap_a_and_b(&sc, &mut mem, fr.borrow(&sc, &exclusive(&[PART_B, PART_A])).unwrap());
    assert_eq!(Foo::load(&mem, 0), Foo { a: 9, b: 5 });
}

#[test]
fn swap_at_an_offset_leaves_other_cells() {
    let sc = Foo::schema();
    let mut mem = partial_ref::Memory::new(vec![7u32, 1, 2, 8]);
    let mut fr = sc.into_partial_ref_mut(0, 1);
    swap_a_and_b_alt(&sc, &mut mem, fr.borrow(&sc, &exclusive(&[PART_A, PART_B])).unwrap());
    assert_eq!(mem.cells, vec![7, 2, 1, 8]);
}
