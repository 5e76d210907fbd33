use vstd::prelude::*;
use crate::part::{caps_view, covers, granted_by, overlap, Capability, CapView, Mode, Nested};
use crate::layout::{
    decl_at, field_at, lemma_index_unique, parts_of, record_count, record_wf, schema_wf, size_of, AbstractPart, Field, PartDecl, RecordType, Schema, Shape,
};
use crate::algebra::{
    lemma_narrow_single, lemma_pluck_keeps, lemma_pluck_succeeds, narrow, narrow_to, valid_caps,
};
use crate::order::{canonical, lemma_canonical};
use crate::handle::{
    fits, grants, part_addr, record_end, HasTarget, Memory, PartialRef, Ref,
};

verus! {

/// Field part of `Foo` holding `a`.
pub const PART_A: u64 = 1;

/// Field part of `Foo` holding `b`.
pub const PART_B: u64 = 2;

/// Opaque part of `Foo`.
pub const PART_C: u64 = 3;

/// Opaque part of `Foo`.
pub const PART_D: u64 = 4;

/// A record with two single-cell fields, `a` and `b`, and two opaque parts.
#[derive(Clone, Copy, Debug, PartialEq, Eq, Structural)]
pub struct Foo {
    pub a: u32,
    pub b: u32,
}

/// Part `id` of record type `t` is a field of one cell.
pub open spec fn single_cell(sc: Schema, t: int, id: u64) -> bool {
    field_at(sc, t, seq![id]) matches Some(f) && f.len == 1
}

/// `cells` with the values at `i` and `j` exchanged.
pub open spec fn swapped<V>(cells: Seq<V>, i: int, j: int) -> Seq<V> {
    cells.update(i, cells[j]).update(j, cells[i])
}

impl Foo {
    /// The layout of `Foo`, record type 0 of the schema: the opaque parts C and D, then `a` and
    /// `b`, one cell each, in this order.
    pub fn schema() -> (r: Schema)
        ensures
            schema_wf(r),
            record_count(r) == 1,
            size_of(r, 0) == 2,
            parts_of(r, 0).map_values(|d: PartDecl| d.id) == seq![PART_C, PART_D, PART_A, PART_B],
            field_at(r, 0, seq![PART_A]) == Some(Field { offset: 0, len: 1, record: None }),
            field_at(r, 0, seq![PART_B]) == Some(Field { offset: 1, len: 1, record: None }),
            decl_at(r, 0, seq![PART_C]) is Some && field_at(r, 0, seq![PART_C]) is None,
            decl_at(r, 0, seq![PART_D]) is Some && field_at(r, 0, seq![PART_D]) is None,
    {
        let mut parts: Vec<PartDecl> = Vec::new();
        parts.push(PartDecl { id: PART_C, shape: Shape::Abstract(AbstractPart {  }) });
        parts.push(PartDecl { id: PART_D, shape: Shape::Abstract(AbstractPart {  }) });
        parts.push(
            PartDecl {
                id: PART_A,
                shape: Shape::Field(Field { offset: 0, len: 1, record: None }),
            },
        );
        parts.push(
            PartDecl {
                id: PART_B,
                shape: Shape::Field(Field { offset: 1, len: 1, record: None }),
            },
        );
        let mut records: Vec<RecordType> = Vec::new();
        records.push(RecordType { size: 2, parts });
        let r = Schema { records };
        proof {
            let ps = parts_of(r, 0);
            assert(ps.map_values(|d: PartDecl| d.id) =~= seq![PART_C, PART_D, PART_A, PART_B]);
            assert(record_wf(r, 0));
            assert(schema_wf(r));
            lemma_index_unique(r, 0, 0);
            lemma_index_unique(r, 0, 1);
            lemma_index_unique(r, 0, 2);
            lemma_index_unique(r, 0, 3);
            assert(seq![PART_A].drop_last() =~= Seq::<u64>::empty());
            assert(seq![PART_B].drop_last() =~= Seq::<u64>::empty());
            assert(seq![PART_C].drop_last() =~= Seq::<u64>::empty());
            assert(seq![PART_D].drop_last() =~= Seq::<u64>::empty());
        }
        r
    }

    /// The cells of a `Foo`: `a`, then `b`.
    pub fn memory(&self) -> (r: Memory<u32>)
        ensures
            r.cells@ == seq![self.a, self.b],
    {
        let mut cells: Vec<u32> = Vec::new();
        cells.push(self.a);
        cells.push(self.b);
        proof {
            assert(cells@ =~= seq![self.a, self.b]);
        }
        Memory::new(cells)
    }

    /// The `Foo` stored at `addr`.
    pub fn load(mem: &Memory<u32>, addr: usize) -> (r: Foo)
        requires
            addr + 2 <= mem.cells@.len(),
        ensures
            r.a == mem.cells@[addr as int],
            r.b == mem.cells@[addr + 1],
    {
        // The length of the cells bounds `addr + 1` by `usize::MAX`.
        let _len = mem.cells.len();
        Foo { a: mem.cells[addr], b: mem.cells[addr + 1] }
    }
}

/// Splitting exclusive A off a handle that grants A and B exclusively succeeds, and the
/// remainder still grants B exclusively.
proof fn lemma_split_off_a(sc: Schema, t: int, caps: Seq<CapView>)
    requires
        schema_wf(sc),
        0 <= t < record_count(sc),
        valid_caps(sc, t, caps),
        granted_by(caps, (seq![PART_A], Mode::Exclusive)),
        granted_by(caps, (seq![PART_B], Mode::Exclusive)),
        single_cell(sc, t, PART_A),
        single_cell(sc, t, PART_B),
    ensures
        canonical(seq![(seq![PART_A], Mode::Exclusive)]) == seq![(seq![PART_A], Mode::Exclusive)],
        narrow_to(sc, t, caps, seq![(seq![PART_A], Mode::Exclusive)]) is Ok,
        narrow(sc, t, caps, seq![(seq![PART_A], Mode::Exclusive)]) is Ok,
        granted_by(
            narrow_to(sc, t, caps, seq![(seq![PART_A], Mode::Exclusive)])->Ok_0,
            (seq![PART_B], Mode::Exclusive),
        ),
{
    let one = seq![(seq![PART_A], Mode::Exclusive)];
    lemma_canonical(one, one);
    lemma_pluck_succeeds(sc, t, caps, seq![PART_A], Mode::Exclusive);
    lemma_narrow_single(sc, t, caps, (seq![PART_A], Mode::Exclusive));
    assert(!overlap(seq![PART_A], seq![PART_B])) by {
        assert(seq![PART_A][0] != seq![PART_B][0]);
    }
    lemma_pluck_keeps(
        sc,
        t,
        caps,
        seq![PART_A],
        Mode::Exclusive,
        (seq![PART_B], Mode::Exclusive),
    );
}

/// The request for exclusive access to A alone.
fn request_a() -> (r: Vec<Capability>)
    ensures
        caps_view(r@) == seq![(seq![PART_A], Mode::Exclusive)],
{
    let mut req: Vec<Capability> = Vec::new();
    req.push(Capability { part: Nested::plain(PART_A), mode: Mode::Exclusive });
    proof {
        assert(caps_view(req@) =~= seq![(seq![PART_A], Mode::Exclusive)]);
    }
    req
}

/// Swaps the values of the single-cell fields A and B of the record behind `foo`, through two
/// handles split from it: one with A alone, one with the rest.
pub fn swap_a_and_b<V: Copy>(sc: &Schema, mem: &mut Memory<V>, foo: Ref)
    requires
        fits(foo, *sc),
        grants(foo, seq![PART_A], Mode::Exclusive),
        grants(foo, seq![PART_B], Mode::Exclusive),
        single_cell(*sc, foo.spec_target() as int, PART_A),
        single_cell(*sc, foo.spec_target() as int, PART_B),
        record_end(foo, *sc) <= old(mem).cells@.len(),
    ensures
        final(mem).cells@ == swapped(
            old(mem).cells@,
            part_addr(foo, *sc, seq![PART_A]),
            part_addr(foo, *sc, seq![PART_B]),
        ),
{
    let mut foo = foo;
    let a_part = Nested::plain(PART_A);
    let b_part = Nested::plain(PART_B);
    let req = request_a();
    proof {
        lemma_split_off_a(*sc, foo.spec_target() as int, foo.spec_caps());
    }
    match foo.split_borrow(sc, &req) {
        Ok((mut a, mut b)) => {
            assert(covers(a.spec_caps()[0], (seq![PART_A], Mode::Exclusive)));
            let pa = a.part_mut(sc, &a_part);
            let pb = b.part_mut(sc, &b_part);
            let va = *pa.get(mem, 0);
            let vb = *pb.get(mem, 0);
            pa.set(mem, 0, vb);
            pb.set(mem, 0, va);
        },
        Err(_) => {},
    }
}

/// Swaps the values of the single-cell fields A and B of the record behind `foo`, taking A and
/// then B out of it one after the other.
pub fn swap_a_and_b_alt<V: Copy>(sc: &Schema, mem: &mut Memory<V>, foo: Ref)
    requires
        fits(foo, *sc),
        grants(foo, seq![PART_A], Mode::Exclusive),
        grants(foo, seq![PART_B], Mode::Exclusive),
        single_cell(*sc, foo.spec_target() as int, PART_A),
        single_cell(*sc, foo.spec_target() as int, PART_B),
        record_end(foo, *sc) <= old(mem).cells@.len(),
    ensures
        final(mem).cells@ == swapped(
            old(mem).cells@,
            part_addr(foo, *sc, seq![PART_A]),
            part_addr(foo, *sc, seq![PART_B]),
        ),
{
    let mut foo = foo;
    let a_part = Nested::plain(PART_A);
    let b_part = Nested::plain(PART_B);
    let ghost t = foo.spec_target() as int;
    proof {
        lemma_split_off_a(*sc, t, foo.spec_caps());
        lemma_narrow_single(*sc, t, foo.spec_caps(), (seq![PART_A], Mode::Exclusive));
    }
    let (pa, mut rest) = match foo.split_part_mut(sc, &a_part) {
        Ok(x) => x,
        Err(_) => return ,
    };
    proof {
        lemma_pluck_succeeds(*sc, t, rest.spec_caps(), seq![PART_B], Mode::Exclusive);
    }
    let (pb, _) = match rest.split_part_mut(sc, &b_part) {
        Ok(x) => x,
        Err(_) => return ,
    };
    let va = *pa.get(mem, 0);
    let vb = *pb.get(mem, 0);
    pa.set(mem, 0, vb);
    pb.set(mem, 0, va);
}

/// `swap_a_and_b` for a handle whose lifetime is named.
pub fn swap_a_and_b_lt<'a, V: Copy>(sc: &Schema, mem: &mut Memory<V>, foo: Ref<'a>)
    requires
        fits(foo, *sc),
        grants(foo, seq![PART_A], Mode::Exclusive),
        grants(foo, seq![PART_B], Mode::Exclusive),
        single_cell(*sc, foo.spec_target() as int, PART_A),
        single_cell(*sc, foo.spec_target() as int, PART_B),
        record_end(foo, *sc) <= old(mem).cells@.len(),
    ensures
        final(mem).cells@ == swapped(
            old(mem).cells@,
            part_addr(foo, *sc, seq![PART_A]),
            part_addr(foo, *sc, seq![PART_B]),
        ),
{
    let mut foo: Ref<'a> = foo;
    let a_part = Nested::plain(PART_A);
    let b_part = Nested::plain(PART_B);
    let req = request_a();
    proof {
        lemma_split_off_a(*sc, foo.spec_target() as int, foo.spec_caps());
    }
    match foo.split_borrow(sc, &req) {
        Ok((mut a, mut b)) => {
            assert(covers(a.spec_caps()[0], (seq![PART_A], Mode::Exclusive)));
            let pa = a.part_mut(sc, &a_part);
            let pb = b.part_mut(sc, &b_part);
            let va = *pa.get(mem, 0);
            let vb = *pb.get(mem, 0);
            pa.set(mem, 0, vb);
            pb.set(mem, 0, va);
        },
        Err(_) => {},
    }
}

} // verus!
