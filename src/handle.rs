use std::marker::PhantomData;
use vstd::prelude::*;
use crate::part::{
    caps_view, compatible, granted_by, lists_compatible, overlap, Capability, CapView, Mode, Nested,
};
use crate::layout::{
    expand, field_at, lemma_field_within, offset_at, parts_of, record_count, schema_wf, size_of,
    split_parts, valid_part, PartialRefTarget, Schema, Shape, SplitIntoParts,
};
use crate::algebra::{
    copy_caps, lemma_expand_props, lemma_lists_compatible_reordered, lemma_valid_caps_reordered, lemma_narrow_err_index, lemma_narrow_sound, lemma_pluck_sound, narrow_caps,
    narrow_to, pluck, pluck_caps, valid_caps, Mismatch,
};
use crate::order::{canonical, lemma_canonical_exists, sort_requests};

verus! {

/// The storage that records live in: a record of size `n` at address `a` occupies the cells
/// `a .. a + n`.
#[derive(Debug)]
pub struct Memory<V> {
    pub cells: Vec<V>,
}

impl<V> Memory<V> {
    pub fn new(cells: Vec<V>) -> (r: Memory<V>)
        ensures
            r.cells@ == cells@,
    {
        Memory { cells }
    }

    pub fn len(&self) -> (r: usize)
        ensures
            r == self.cells@.len(),
    {
        self.cells.len()
    }
}

/// Read access to one field, as a shared (or exclusive) capability over its part gives it: the
/// field's address and its length in cells.
#[derive(Debug)]
pub struct Const<'a> {
    addr: usize,
    len: usize,
    marker: PhantomData<&'a ()>,
}

/// Read and write access to one field, as an exclusive capability over its part gives it: the
/// field's address and its length in cells.
#[derive(Debug)]
pub struct Mut<'a> {
    addr: usize,
    len: usize,
    marker: PhantomData<&'a mut ()>,
}

impl<'a> Const<'a> {
    pub closed spec fn spec_addr(&self) -> usize {
        self.addr
    }

    pub closed spec fn spec_len(&self) -> usize {
        self.len
    }

    pub fn len(&self) -> (r: usize)
        ensures
            r == self.spec_len(),
    {
        self.len
    }

    /// The cell at position `i` of the field.
    pub fn get<'m, V>(&self, mem: &'m Memory<V>, i: usize) -> (r: &'m V)
        requires
            i < self.spec_len(),
            self.spec_addr() + i < mem.cells@.len(),
        ensures
            *r == mem.cells@[self.spec_addr() + i],
    {
        // The length of the cells bounds `addr + i` by `usize::MAX`.
        let _len = mem.cells.len();
        &mem.cells[self.addr + i]
    }
}

impl<'a> Mut<'a> {
    pub closed spec fn spec_addr(&self) -> usize {
        self.addr
    }

    pub closed spec fn spec_len(&self) -> usize {
        self.len
    }

    pub fn len(&self) -> (r: usize)
        ensures
            r == self.spec_len(),
    {
        self.len
    }

    /// The cell at position `i` of the field.
    pub fn get<'m, V>(&self, mem: &'m Memory<V>, i: usize) -> (r: &'m V)
        requires
            i < self.spec_len(),
            self.spec_addr() + i < mem.cells@.len(),
        ensures
            *r == mem.cells@[self.spec_addr() + i],
    {
        // The length of the cells bounds `addr + i` by `usize::MAX`.
        let _len = mem.cells.len();
        &mem.cells[self.addr + i]
    }

    /// Writes `v` to the cell at position `i` of the field.
    pub fn set<V>(&self, mem: &mut Memory<V>, i: usize, v: V)
        requires
            i < self.spec_len(),
            self.spec_addr() + i < old(mem).cells@.len(),
        ensures
            final(mem).cells@ == old(mem).cells@.update(self.spec_addr() + i, v),
    {
        // The length of the cells bounds `addr + i` by `usize::MAX`.
        let _len = mem.cells.len();
        mem.cells.set(self.addr + i, v);
    }
}

/// A partial reference: the address of a record and the capabilities held over its parts.
///
/// A handle derived from another one (by `borrow`, `split_borrow` and the `split_part`
/// methods) borrows it, so that the source stays unused while the derived handles live.
#[derive(Debug)]
pub struct Ref<'a> {
    addr: usize,
    target: usize,
    caps: Vec<Capability>,
    marker: PhantomData<&'a mut ()>,
}

/// The record type and address behind a handle, and the capabilities it holds.
pub trait HasTarget {
    spec fn spec_target(&self) -> usize;

    spec fn spec_addr(&self) -> usize;

    spec fn spec_caps(&self) -> Seq<CapView>;

    fn target(&self) -> (r: usize)
        ensures
            r == self.spec_target(),
    ;

    fn get_raw(&self) -> (r: usize)
        ensures
            r == self.spec_addr(),
    ;
}

impl<'a> HasTarget for Ref<'a> {
    closed spec fn spec_target(&self) -> usize {
        self.target
    }

    closed spec fn spec_addr(&self) -> usize {
        self.addr
    }

    closed spec fn spec_caps(&self) -> Seq<CapView> {
        caps_view(self.caps@)
    }

    fn target(&self) -> (r: usize) {
        self.target
    }

    fn get_raw(&self) -> (r: usize) {
        self.addr
    }
}

/// A handle that a record of the schema may have: its record type exists, the record fits
/// below `usize::MAX`, and its capabilities name parts of the record and are free of conflicts.
pub open spec fn fits<H: HasTarget>(h: H, sc: Schema) -> bool {
    &&& schema_wf(sc)
    &&& h.spec_target() < record_count(sc)
    &&& h.spec_addr() + size_of(sc, h.spec_target() as int) <= usize::MAX
    &&& valid_caps(sc, h.spec_target() as int, h.spec_caps())
}

/// The handle grants access to part `p` in mode `m`.
pub open spec fn grants<H: HasTarget>(h: H, p: Seq<u64>, m: Mode) -> bool {
    granted_by(h.spec_caps(), (p, m))
}

/// The address of part `p` of the record behind `h`.
pub open spec fn part_addr<H: HasTarget>(h: H, sc: Schema, p: Seq<u64>) -> int {
    h.spec_addr() + offset_at(sc, h.spec_target() as int, p)
}

/// The length in cells of field part `p` of the record behind `h`.
pub open spec fn part_len<H: HasTarget>(h: H, sc: Schema, p: Seq<u64>) -> int {
    field_at(sc, h.spec_target() as int, p).unwrap().len as int
}

/// The end of the record behind `h`.
pub open spec fn record_end<H: HasTarget>(h: H, sc: Schema) -> int {
    h.spec_addr() + size_of(sc, h.spec_target() as int)
}

impl<'a> Ref<'a> {
    /// The capabilities the handle holds.
    pub fn capabilities(&self) -> (r: &Vec<Capability>)
        ensures
            caps_view(r@) == self.spec_caps(),
    {
        &self.caps
    }

    /// A second handle with the same capabilities, when all of them are shared: shared access
    /// can be held any number of times.
    pub fn duplicate(&self) -> (r: Option<Ref<'a>>)
        ensures
            r is Some <==> forall|i: int|
                0 <= i < self.spec_caps().len() ==> (#[trigger] self.spec_caps()[i]).1
                    == Mode::Shared,
            r matches Some(h) ==> {
                &&& h.spec_caps() == self.spec_caps()
                &&& h.spec_addr() == self.spec_addr()
                &&& h.spec_target() == self.spec_target()
            },
    {
        let mut k: usize = 0;
        while k < self.caps.len()
            invariant
                k <= self.caps@.len(),
                forall|i: int| 0 <= i < k ==> (#[trigger] self.spec_caps()[i]).1 == Mode::Shared,
            decreases self.caps@.len() - k,
        {
            if self.caps[k].mode != Mode::Shared {
                assert(self.spec_caps()[k as int].1 == Mode::Exclusive);
                return None;
            }
            k += 1;
        }
        Some(self.with_caps(copy_caps(&self.caps)))
    }

    /// A handle over the same record, holding `caps`.
    fn with_caps<'b>(&self, caps: Vec<Capability>) -> (r: Ref<'b>)
        ensures
            r.spec_addr() == self.spec_addr(),
            r.spec_target() == self.spec_target(),
            r.spec_caps() == caps_view(caps@),
    {
        Ref { addr: self.addr, target: self.target, caps, marker: PhantomData }
    }

    /// Where field part `part` lies.
    fn field(&self, sc: &Schema, part: &Nested) -> (r: (usize, usize))
        requires
            fits(*self, *sc),
            field_at(*sc, self.spec_target() as int, part@) is Some,
        ensures
            r.0 == part_addr(*self, *sc, part@),
            r.1 == part_len(*self, *sc, part@),
            r.0 + r.1 <= record_end(*self, *sc),
    {
        proof {
            lemma_field_within(*sc, self.target as int, part@);
        }
        match sc.resolve(self.target, part) {
            Some((d, off)) => match d.shape {
                Shape::Field(f) => (self.addr + off + f.offset, f.len),
                Shape::Abstract(_) => (self.addr, 0),
            },
            None => (self.addr, 0),
        }
    }
}

/// The operations of a partial reference.
pub trait PartialRef<'a>: HasTarget + Sized {
    /// A handle over the record at `addr` of record type `target`, holding `caps`. Nothing is
    /// checked: the caller must hold what `caps` claims.
    fn from_raw(addr: usize, target: usize, caps: Vec<Capability>) -> (r: Self)
        ensures
            r.spec_addr() == addr,
            r.spec_target() == target,
            r.spec_caps() == caps_view(caps@),
    ;

    /// A handle with the requested capabilities, which borrows this one.
    fn borrow<'b>(&'b mut self, sc: &Schema, req: &Vec<Capability>) -> (r: Result<
        Ref<'b>,
        Mismatch,
    >)
        requires
            fits(*old(self), *sc),
        ensures
            *final(self) == *old(self),
            match r {
                Ok(h) => {
                    &&& narrow_to(
                        *sc,
                        old(self).spec_target() as int,
                        old(self).spec_caps(),
                        caps_view(req@),
                    ) is Ok
                    &&& h.spec_caps() == caps_view(req@)
                    &&& h.spec_addr() == old(self).spec_addr()
                    &&& h.spec_target() == old(self).spec_target()
                    &&& fits(h, *sc)
                },
                Err(e) => narrow_to(
                    *sc,
                    old(self).spec_target() as int,
                    old(self).spec_caps(),
                    caps_view(req@),
                ) == Err::<Seq<CapView>, CapView>(e@),
            },
    ;

    /// Like `borrow`, and also a second handle with the remainder: both can be used at the same
    /// time.
    fn split_borrow<'b>(&'b mut self, sc: &Schema, req: &Vec<Capability>) -> (r: Result<
        (Ref<'b>, Ref<'b>),
        Mismatch,
    >)
        requires
            fits(*old(self), *sc),
        ensures
            *final(self) == *old(self),
            match r {
                Ok((h, rest)) => {
                    &&& narrow_to(
                        *sc,
                        old(self).spec_target() as int,
                        old(self).spec_caps(),
                        caps_view(req@),
                    ) == Ok::<Seq<CapView>, CapView>(rest.spec_caps())
                    &&& h.spec_caps() == caps_view(req@)
                    &&& h.spec_addr() == old(self).spec_addr() && rest.spec_addr() == old(
                        self,
                    ).spec_addr()
                    &&& h.spec_target() == old(self).spec_target() && rest.spec_target() == old(
                        self,
                    ).spec_target()
                    &&& fits(h, *sc) && fits(rest, *sc)
                    &&& lists_compatible(h.spec_caps(), rest.spec_caps())
                },
                Err(e) => narrow_to(
                    *sc,
                    old(self).spec_target() as int,
                    old(self).spec_caps(),
                    caps_view(req@),
                ) == Err::<Seq<CapView>, CapView>(e@),
            },
    ;

    /// Read access to field part `part`.
    fn part<'b>(&'b self, sc: &Schema, part: &Nested) -> (r: Const<'b>)
        requires
            fits(*self, *sc),
            grants(*self, part@, Mode::Shared),
            field_at(*sc, self.spec_target() as int, part@) is Some,
        ensures
            r.spec_addr() == part_addr(*self, *sc, part@),
            r.spec_len() == part_len(*self, *sc, part@),
            r.spec_addr() + r.spec_len() <= record_end(*self, *sc),
    ;

    /// Read and write access to field part `part`.
    fn part_mut<'b>(&'b mut self, sc: &Schema, part: &Nested) -> (r: Mut<'b>)
        requires
            fits(*old(self), *sc),
            grants(*old(self), part@, Mode::Exclusive),
            field_at(*sc, old(self).spec_target() as int, part@) is Some,
        ensures
            *final(self) == *old(self),
            r.spec_addr() == part_addr(*old(self), *sc, part@),
            r.spec_len() == part_len(*old(self), *sc, part@),
            r.spec_addr() + r.spec_len() <= record_end(*old(self), *sc),
    ;

    /// Read access to field part `part`, and a handle with the remainder.
    fn split_part<'b>(&'b mut self, sc: &Schema, part: &Nested) -> (r: Result<
        (Const<'b>, Ref<'b>),
        Mismatch,
    >)
        requires
            fits(*old(self), *sc),
            field_at(*sc, old(self).spec_target() as int, part@) is Some,
        ensures
            *final(self) == *old(self),
            match r {
                Ok((c, rest)) => {
                    &&& pluck(*sc, old(self).spec_target() as int, old(self).spec_caps(), part@, Mode::Shared)
                        == Some(rest.spec_caps())
                    &&& c.spec_addr() == part_addr(*old(self), *sc, part@)
                    &&& c.spec_len() == part_len(*old(self), *sc, part@)
                    &&& c.spec_addr() + c.spec_len() <= record_end(*old(self), *sc)
                    &&& rest.spec_addr() == old(self).spec_addr()
                    &&& rest.spec_target() == old(self).spec_target()
                    &&& fits(rest, *sc)
                },
                Err(e) => {
                    &&& pluck(
                        *sc,
                        old(self).spec_target() as int,
                        old(self).spec_caps(),
                        part@,
                        Mode::Shared,
                    ) is None
                    &&& e@ == (part@, Mode::Shared)
                },
            },
    ;

    /// Read and write access to field part `part`, and a handle with the remainder.
    fn split_part_mut<'b>(&'b mut self, sc: &Schema, part: &Nested) -> (r: Result<
        (Mut<'b>, Ref<'b>),
        Mismatch,
    >)
        requires
            fits(*old(self), *sc),
            field_at(*sc, old(self).spec_target() as int, part@) is Some,
        ensures
            *final(self) == *old(self),
            match r {
                Ok((c, rest)) => {
                    &&& pluck(
                        *sc,
                        old(self).spec_target() as int,
                        old(self).spec_caps(),
                        part@,
                        Mode::Exclusive,
                    ) == Some(rest.spec_caps())
                    &&& c.spec_addr() == part_addr(*old(self), *sc, part@)
                    &&& c.spec_len() == part_len(*old(self), *sc, part@)
                    &&& c.spec_addr() + c.spec_len() <= record_end(*old(self), *sc)
                    &&& rest.spec_addr() == old(self).spec_addr()
                    &&& rest.spec_target() == old(self).spec_target()
                    &&& fits(rest, *sc)
                },
                Err(e) => {
                    &&& pluck(
                        *sc,
                        old(self).spec_target() as int,
                        old(self).spec_caps(),
                        part@,
                        Mode::Exclusive,
                    ) is None
                    &&& e@ == (part@, Mode::Exclusive)
                },
            },
    ;
}

/// Taking a part out as shared: the handle with what remains.
pub trait PluckConst<'a>: HasTarget + Sized {
    fn pluck_const<'b>(&'b mut self, sc: &Schema, part: &Nested) -> (r: Result<Ref<'b>, Mismatch>)
        requires
            fits(*old(self), *sc),
        ensures
            *final(self) == *old(self),
            match r {
                Ok(h) => {
                    &&& pluck(*sc, old(self).spec_target() as int, old(self).spec_caps(), part@, Mode::Shared)
                        == Some(h.spec_caps())
                    &&& h.spec_addr() == old(self).spec_addr()
                    &&& h.spec_target() == old(self).spec_target()
                    &&& fits(h, *sc)
                },
                Err(e) => {
                    &&& pluck(
                        *sc,
                        old(self).spec_target() as int,
                        old(self).spec_caps(),
                        part@,
                        Mode::Shared,
                    ) is None
                    &&& e@ == (part@, Mode::Shared)
                },
            },
    ;
}

/// Taking a part out as exclusive: the handle with what remains.
pub trait PluckMut<'a>: HasTarget + Sized {
    fn pluck_mut<'b>(&'b mut self, sc: &Schema, part: &Nested) -> (r: Result<Ref<'b>, Mismatch>)
        requires
            fits(*old(self), *sc),
        ensures
            *final(self) == *old(self),
            match r {
                Ok(h) => {
                    &&& pluck(
                        *sc,
                        old(self).spec_target() as int,
                        old(self).spec_caps(),
                        part@,
                        Mode::Exclusive,
                    ) == Some(h.spec_caps())
                    &&& h.spec_addr() == old(self).spec_addr()
                    &&& h.spec_target() == old(self).spec_target()
                    &&& fits(h, *sc)
                },
                Err(e) => {
                    &&& pluck(
                        *sc,
                        old(self).spec_target() as int,
                        old(self).spec_caps(),
                        part@,
                        Mode::Exclusive,
                    ) is None
                    &&& e@ == (part@, Mode::Exclusive)
                },
            },
    ;
}

/// Whether a handle can be narrowed to a list of requested capabilities.
pub trait HasSubset: HasTarget + Sized {
    fn has_subset(&self, sc: &Schema, req: &Vec<Capability>) -> (r: bool)
        requires
            fits(*self, *sc),
        ensures
            r == narrow_to(*sc, self.spec_target() as int, self.spec_caps(), caps_view(req@)) is Ok,
    ;
}

impl<'a> PluckConst<'a> for Ref<'a> {
    /// The remainder once `part` is taken out as shared: the part itself stays, as shared.
    fn pluck_const<'b>(&'b mut self, sc: &Schema, part: &Nested) -> (r: Result<Ref<'b>, Mismatch>)
    {
        match pluck_caps(sc, self.target, &self.caps, part, Mode::Shared) {
            Some(rest) => {
                proof {
                    lemma_pluck_sound(
                        *sc,
                        self.target as int,
                        caps_view(self.caps@),
                        part@,
                        Mode::Shared,
                    );
                }
                Ok(self.with_caps(rest))
            },
            None => Err(Mismatch { part: part.copy(), mode: Mode::Shared }),
        }
    }
}

impl<'a> PluckMut<'a> for Ref<'a> {
    /// The remainder once `part` is taken out as exclusive: the part is gone from it.
    fn pluck_mut<'b>(&'b mut self, sc: &Schema, part: &Nested) -> (r: Result<Ref<'b>, Mismatch>)
    {
        match pluck_caps(sc, self.target, &self.caps, part, Mode::Exclusive) {
            Some(rest) => {
                proof {
                    lemma_pluck_sound(
                        *sc,
                        self.target as int,
                        caps_view(self.caps@),
                        part@,
                        Mode::Exclusive,
                    );
                }
                Ok(self.with_caps(rest))
            },
            None => Err(Mismatch { part: part.copy(), mode: Mode::Exclusive }),
        }
    }
}

impl<'a> Ref<'a> {
    /// Narrows the handle's capabilities to the requests `req`, taken in matching order: the
    /// requests as given and the remainder.
    fn narrow_request(&self, sc: &Schema, req: &Vec<Capability>) -> (r: Result<
        (Vec<Capability>, Vec<Capability>),
        Mismatch,
    >)
        requires
            fits(*self, *sc),
        ensures
            match r {
                Ok((got, rest)) => {
                    &&& caps_view(got@) == caps_view(req@)
                    &&& narrow_to(*sc, self.spec_target() as int, self.spec_caps(), caps_view(req@))
                        == Ok::<Seq<CapView>, CapView>(caps_view(rest@))
                    &&& valid_caps(*sc, self.spec_target() as int, caps_view(got@))
                    &&& valid_caps(*sc, self.spec_target() as int, caps_view(rest@))
                    &&& lists_compatible(caps_view(got@), caps_view(rest@))
                },
                Err(e) => narrow_to(
                    *sc,
                    self.spec_target() as int,
                    self.spec_caps(),
                    caps_view(req@),
                ) == Err::<Seq<CapView>, CapView>(e@),
            },
    {
        let sorted = sort_requests(req);
        match narrow_caps(sc, self.target, &self.caps, &sorted) {
            Ok(rest) => {
                proof {
                    let rv = caps_view(req@);
                    lemma_narrow_sound(*sc, self.target as int, caps_view(self.caps@), canonical(rv));
                    lemma_canonical_exists(rv);
                    lemma_valid_caps_reordered(*sc, self.target as int, canonical(rv), rv);
                    lemma_lists_compatible_reordered(canonical(rv), rv, caps_view(rest@));
                }
                Ok((copy_caps(req), rest))
            },
            Err(k) => {
                proof {
                    lemma_narrow_err_index(
                        *sc,
                        self.target as int,
                        caps_view(self.caps@),
                        caps_view(sorted@),
                    );
                }
                let q = &sorted[k];
                assert(caps_view(sorted@)[k as int] == q@);
                Err(Mismatch { part: q.part.copy(), mode: q.mode })
            },
        }
    }
}

impl<'a> HasSubset for Ref<'a> {
    fn has_subset(&self, sc: &Schema, req: &Vec<Capability>) -> (r: bool)
    {
        self.narrow_request(sc, req).is_ok()
    }
}

impl<'a> PartialRef<'a> for Ref<'a> {
    fn from_raw(addr: usize, target: usize, caps: Vec<Capability>) -> (r: Ref<'a>) {
        Ref { addr, target, caps, marker: PhantomData }
    }

    fn borrow<'b>(&'b mut self, sc: &Schema, req: &Vec<Capability>) -> (r: Result<
        Ref<'b>,
        Mismatch,
    >)
    {
        match self.narrow_request(sc, req) {
            Ok((got, _)) => Ok(self.with_caps(got)),
            Err(e) => Err(e),
        }
    }

    fn split_borrow<'b>(&'b mut self, sc: &Schema, req: &Vec<Capability>) -> (r: Result<
        (Ref<'b>, Ref<'b>),
        Mismatch,
    >)
    {
        match self.narrow_request(sc, req) {
            Ok((got, rest)) => Ok((self.with_caps(got), self.with_caps(rest))),
            Err(e) => Err(e),
        }
    }

    fn part<'b>(&'b self, sc: &Schema, part: &Nested) -> (r: Const<'b>)
    {
        let (addr, len) = self.field(sc, part);
        Const { addr, len, marker: PhantomData }
    }

    fn part_mut<'b>(&'b mut self, sc: &Schema, part: &Nested) -> (r: Mut<'b>)
    {
        let (addr, len) = self.field(sc, part);
        Mut { addr, len, marker: PhantomData }
    }

    fn split_part<'b>(&'b mut self, sc: &Schema, part: &Nested) -> (r: Result<
        (Const<'b>, Ref<'b>),
        Mismatch,
    >)
    {
        let (addr, len) = self.field(sc, part);
        match self.pluck_const(sc, part) {
            Ok(rest) => Ok((Const { addr, len, marker: PhantomData }, rest)),
            Err(e) => Err(e),
        }
    }

    fn split_part_mut<'b>(&'b mut self, sc: &Schema, part: &Nested) -> (r: Result<
        (Mut<'b>, Ref<'b>),
        Mismatch,
    >)
    {
        let (addr, len) = self.field(sc, part);
        match self.pluck_mut(sc, part) {
            Ok(rest) => Ok((Mut { addr, len, marker: PhantomData }, rest)),
            Err(e) => Err(e),
        }
    }
}

/// The handle that holds every part of a record: all shared.
pub trait IntoPartialRef: PartialRefTarget {
    fn into_partial_ref<'a>(&self, target: usize, addr: usize) -> (r: Ref<'a>)
        requires
            self.targets(target as int),
            addr + self.size(target as int) <= usize::MAX,
        ensures
            split_parts(self.layout(), target as int, Seq::empty(), Mode::Shared) == Some(r.spec_caps()),
            r.spec_addr() == addr,
            r.spec_target() == target,
            fits(r, self.layout()),
    ;
}

/// The handle that holds every part of a record: all exclusive.
pub trait IntoPartialRefMut: IntoPartialRef {
    fn into_partial_ref_mut<'a>(&self, target: usize, addr: usize) -> (r: Ref<'a>)
        requires
            self.targets(target as int),
            addr + self.size(target as int) <= usize::MAX,
        ensures
            split_parts(self.layout(), target as int, Seq::empty(), Mode::Exclusive) == Some(
                r.spec_caps(),
            ),
            r.spec_addr() == addr,
            r.spec_target() == target,
            fits(r, self.layout()),
    ;
}

impl Schema {
    /// The handle over the record of type `target` at `addr` with one capability in mode `m` for
    /// each of its parts, in declaration order.
    fn whole<'a>(&self, target: usize, addr: usize, m: Mode) -> (r: Ref<'a>)
        requires
            schema_wf(*self),
            target < record_count(*self),
            addr + size_of(*self, target as int) <= usize::MAX,
        ensures
            split_parts(*self, target as int, Seq::empty(), m) == Some(r.spec_caps()),
            r.spec_addr() == addr,
            r.spec_target() == target,
            fits(r, *self),
    {
        let empty = Nested { ids: Vec::new() };
        proof {
            lemma_expand_props(*self, target as int, Seq::empty());
            assert(empty@ =~= Seq::<u64>::empty());
        }
        let caps = match self.split_into_parts(target, &empty, m) {
            Some(caps) => caps,
            None => Vec::new(),
        };
        proof {
            let exp = expand(Seq::<u64>::empty(), parts_of(*self, target as int), m);
            assert(caps_view(caps@) == exp);
            let e = expand(
                Seq::<u64>::empty(),
                parts_of(*self, target as int),
                Mode::Exclusive,
            );
            assert forall|i: int, j: int|
                0 <= i < exp.len() && 0 <= j < exp.len() && i != j implies #[trigger] compatible(
                exp[i],
                exp[j],
            ) by {
                assert(e[i].0 == exp[i].0 && e[j].0 == exp[j].0);
                assert(!overlap(e[i].0, e[j].0));
            }
            assert forall|i: int| 0 <= i < exp.len() implies valid_part(
                *self,
                target as int,
                #[trigger] exp[i].0,
            ) by {
                let e = expand(
                    Seq::<u64>::empty(),
                    parts_of(*self, target as int),
                    Mode::Exclusive,
                );
                assert(e[i].0 == exp[i].0);
            }
        }
        Ref { addr, target, caps, marker: PhantomData }
    }
}

impl IntoPartialRef for Schema {
    fn into_partial_ref<'a>(&self, target: usize, addr: usize) -> (r: Ref<'a>)
    {
        self.whole(target, addr, Mode::Shared)
    }
}

impl IntoPartialRefMut for Schema {
    fn into_partial_ref_mut<'a>(&self, target: usize, addr: usize) -> (r: Ref<'a>)
    {
        self.whole(target, addr, Mode::Exclusive)
    }
}

} // verus!
