use vstd::prelude::*;
use crate::part::{caps_view, Capability, CapView, Mode, Nested};

verus! {

/// Shape of a part that corresponds to a field of the record: `len` cells starting `offset`
/// cells after the record's address. When the field is itself a record, `record` is its record
/// type, and `len` its size.
#[derive(Clone, Copy, Debug)]
pub struct Field {
    pub offset: usize,
    pub len: usize,
    pub record: Option<usize>,
}

/// Shape of an opaque part: it is tracked by capabilities and has no address.
#[derive(Clone, Copy, Debug)]
pub struct AbstractPart {}

/// The shape of a part, fixed where the part is declared.
#[derive(Clone, Copy, Debug)]
pub enum Shape {
    Field(Field),
    Abstract(AbstractPart),
}

/// What resolving a part of a given shape yields.
pub trait PartType {
    /// The offset of the part within its record, if the shape has an address.
    spec fn spec_offset(&self) -> Option<usize>;

    /// The address of the part within a record at `base`, if the shape has one and it fits in
    /// `usize`.
    fn part_addr(&self, base: usize) -> (r: Option<usize>)
        ensures
            r == match self.spec_offset() {
                Some(o) => if base + o <= usize::MAX {
                    Some((base + o) as usize)
                } else {
                    None
                },
                None => None,
            },
    ;
}

impl PartType for Field {
    open spec fn spec_offset(&self) -> Option<usize> {
        Some(self.offset)
    }

    fn part_addr(&self, base: usize) -> (r: Option<usize>) {
        base.checked_add(self.offset)
    }
}

impl PartType for AbstractPart {
    open spec fn spec_offset(&self) -> Option<usize> {
        None
    }

    fn part_addr(&self, base: usize) -> (r: Option<usize>) {
        None
    }
}

/// One part of a record type: its identifier and its shape.
#[derive(Clone, Copy, Debug)]
pub struct PartDecl {
    pub id: u64,
    pub shape: Shape,
}

/// A record type: its size in cells and its parts, in declaration order.
#[derive(Debug)]
pub struct RecordType {
    pub size: usize,
    pub parts: Vec<PartDecl>,
}

/// The record types that partial references can target. A record type is named by its index.
#[derive(Debug)]
pub struct Schema {
    pub records: Vec<RecordType>,
}

/// The number of record types.
pub open spec fn record_count(sc: Schema) -> int {
    sc.records@.len() as int
}

/// The parts of record type `t`, in declaration order.
pub open spec fn parts_of(sc: Schema, t: int) -> Seq<PartDecl> {
    sc.records@[t].parts@
}

/// The size in cells of record type `t`.
pub open spec fn size_of(sc: Schema, t: int) -> int {
    sc.records@[t].size as int
}

/// The position of the part `id` among `parts`, or -1.
pub open spec fn index_of(parts: Seq<PartDecl>, id: u64) -> int {
    if exists|i: int| 0 <= i < parts.len() && parts[i].id == id {
        choose|i: int| 0 <= i < parts.len() && parts[i].id == id
    } else {
        -1
    }
}

/// The declaration of part `id` in record type `t`.
pub open spec fn find_decl(sc: Schema, t: int, id: u64) -> Option<PartDecl> {
    if 0 <= t < record_count(sc) && index_of(parts_of(sc, t), id) >= 0 {
        Some(parts_of(sc, t)[index_of(parts_of(sc, t), id)])
    } else {
        None
    }
}

/// The record type of a part whose shape is a field of record type.
pub open spec fn record_of_decl(d: PartDecl) -> Option<int> {
    match d.shape {
        Shape::Field(f) => match f.record {
            Some(s) => Some(s as int),
            None => None,
        },
        Shape::Abstract(_) => None,
    }
}

/// The record type found at `path` inside a record of type `root`: `root` itself for the empty
/// path, else the record type of the field that `path` names.
pub open spec fn record_at(sc: Schema, root: int, path: Seq<u64>) -> Option<int>
    decreases path.len(),
{
    if path.len() == 0 {
        Some(root)
    } else {
        match record_at(sc, root, path.drop_last()) {
            Some(t) => match find_decl(sc, t, path.last()) {
                Some(d) => record_of_decl(d),
                None => None,
            },
            None => None,
        }
    }
}

/// The declaration of the part that `path` names inside a record of type `root`: every outer
/// component must be a field of record type that has the next component.
pub open spec fn decl_at(sc: Schema, root: int, path: Seq<u64>) -> Option<PartDecl> {
    if path.len() == 0 {
        None
    } else {
        match record_at(sc, root, path.drop_last()) {
            Some(t) => find_decl(sc, t, path.last()),
            None => None,
        }
    }
}

/// The field that `path` names, if it names a field part.
pub open spec fn field_at(sc: Schema, root: int, path: Seq<u64>) -> Option<Field> {
    match decl_at(sc, root, path) {
        Some(d) => match d.shape {
            Shape::Field(f) => Some(f),
            Shape::Abstract(_) => None,
        },
        None => None,
    }
}

/// Offset of the part that `path` names from the address of the root record: the sum of the
/// offsets of its components.
pub open spec fn offset_at(sc: Schema, root: int, path: Seq<u64>) -> int
    decreases path.len(),
{
    if path.len() == 0 {
        0
    } else {
        offset_at(sc, root, path.drop_last()) + match field_at(sc, root, path) {
            Some(f) => f.offset as int,
            None => 0,
        }
    }
}

/// The part `path` exists inside a record of type `root`.
pub open spec fn valid_part(sc: Schema, root: int, path: Seq<u64>) -> bool {
    decl_at(sc, root, path) is Some
}

/// Two part declarations whose cells, if they have any, do not meet.
pub open spec fn decls_disjoint(a: PartDecl, b: PartDecl) -> bool {
    match (a.shape, b.shape) {
        (Shape::Field(f), Shape::Field(g)) => f.offset + f.len <= g.offset || g.offset + g.len
            <= f.offset,
        _ => true,
    }
}

/// Record type `t` is well formed: its part identifiers are distinct, its fields occupy disjoint
/// cells, each field lies within the record, and a field of record type names an existing record
/// type whose size it has.
pub open spec fn record_wf(sc: Schema, t: int) -> bool {
    let parts = parts_of(sc, t);
    &&& forall|i: int, j: int|
        0 <= i < parts.len() && 0 <= j < parts.len() && i != j ==> parts[i].id != parts[j].id
    &&& forall|i: int, j: int|
        0 <= i < parts.len() && 0 <= j < parts.len() && i != j ==> #[trigger] decls_disjoint(
            parts[i],
            parts[j],
        )
    &&& forall|i: int|
        #![trigger parts[i]]
        0 <= i < parts.len() ==> match parts[i].shape {
            Shape::Field(f) => {
                &&& f.offset + f.len <= size_of(sc, t)
                &&& f.record matches Some(s) ==> s < record_count(sc) && f.len == size_of(
                    sc,
                    s as int,
                )
            },
            Shape::Abstract(_) => true,
        }
}

/// Every record type of the schema is well formed.
pub open spec fn schema_wf(sc: Schema) -> bool {
    forall|t: int| 0 <= t < record_count(sc) ==> #[trigger] record_wf(sc, t)
}

/// The capabilities `base ++ [id]` for every part of `parts`, in declaration order, all in mode
/// `m`.
pub open spec fn expand(base: Seq<u64>, parts: Seq<PartDecl>, m: Mode) -> Seq<CapView> {
    Seq::new(parts.len(), |i: int| (base.push(parts[i].id), m))
}

/// The capabilities that the part `containing` splits into: one for each part of its record
/// type.
pub open spec fn split_parts(sc: Schema, root: int, containing: Seq<u64>, m: Mode) -> Option<
    Seq<CapView>,
> {
    match record_at(sc, root, containing) {
        Some(t) => Some(expand(containing, parts_of(sc, t), m)),
        None => None,
    }
}

/// In a well-formed schema a part of a record is found at its one position.
pub proof fn lemma_index_unique(sc: Schema, t: int, k: int)
    requires
        schema_wf(sc),
        0 <= t < record_count(sc),
        0 <= k < parts_of(sc, t).len(),
    ensures
        index_of(parts_of(sc, t), parts_of(sc, t)[k].id) == k,
{
    assert(record_wf(sc, t));
    let parts = parts_of(sc, t);
    assert(exists|i: int| 0 <= i < parts.len() && parts[i].id == parts[k].id);
}

/// A record type reached inside a well-formed schema exists.
pub proof fn lemma_record_at_valid(sc: Schema, root: int, path: Seq<u64>)
    requires
        schema_wf(sc),
        0 <= root < record_count(sc),
        record_at(sc, root, path) is Some,
    ensures
        0 <= record_at(sc, root, path).unwrap() < record_count(sc),
        offset_at(sc, root, path) + size_of(sc, record_at(sc, root, path).unwrap()) <= size_of(
            sc,
            root,
        ),
        offset_at(sc, root, path) >= 0,
    decreases path.len(),
{
    if path.len() > 0 {
        let t = record_at(sc, root, path.drop_last()).unwrap();
        lemma_record_at_valid(sc, root, path.drop_last());
        let k = index_of(parts_of(sc, t), path.last());
        assert(record_wf(sc, t));
        assert(0 <= k < parts_of(sc, t).len());
        let d = parts_of(sc, t)[k];
        assert(find_decl(sc, t, path.last()) == Some(d));
        assert(decl_at(sc, root, path) == Some(d));
    }
}

/// A field found inside a well-formed schema lies within the root record.
pub proof fn lemma_field_within(sc: Schema, root: int, path: Seq<u64>)
    requires
        schema_wf(sc),
        0 <= root < record_count(sc),
        field_at(sc, root, path) is Some,
    ensures
        offset_at(sc, root, path) >= 0,
        offset_at(sc, root, path) + field_at(sc, root, path).unwrap().len <= size_of(sc, root),
{
    let t = record_at(sc, root, path.drop_last()).unwrap();
    lemma_record_at_valid(sc, root, path.drop_last());
    let k = index_of(parts_of(sc, t), path.last());
    assert(record_wf(sc, t));
    assert(0 <= k < parts_of(sc, t).len());
    let d = parts_of(sc, t)[k];
    assert(decl_at(sc, root, path) == Some(d));
}

/// Walking one more component of a path.
pub proof fn lemma_take_step(path: Seq<u64>, k: int)
    requires
        0 <= k < path.len(),
    ensures
        path.take(k + 1).drop_last() == path.take(k),
        path.take(k + 1).last() == path[k],
        path.take(k + 1).len() == k + 1,
{
    assert(path.take(k + 1).drop_last() =~= path.take(k));
}

impl Schema {
    /// The position of part `id` among the parts of record type `t`.
    pub fn find_part(&self, t: usize, id: u64) -> (r: Option<usize>)
        requires
            schema_wf(*self),
            t < record_count(*self),
        ensures
            match r {
                Some(k) => k == index_of(parts_of(*self, t as int), id) && k < parts_of(
                    *self,
                    t as int,
                ).len(),
                None => index_of(parts_of(*self, t as int), id) == -1,
            },
    {
        let parts = &self.records[t].parts;
        let mut k: usize = 0;
        while k < parts.len()
            invariant
                schema_wf(*self),
                t < record_count(*self),
                parts@ == parts_of(*self, t as int),
                k <= parts@.len(),
                forall|i: int| 0 <= i < k ==> parts@[i].id != id,
            decreases parts@.len() - k,
        {
            if parts[k].id == id {
                proof {
                    lemma_index_unique(*self, t as int, k as int);
                }
                return Some(k);
            }
            k += 1;
        }
        None
    }

    /// The declaration of part `id` in record type `t`.
    pub fn find_decl(&self, t: usize, id: u64) -> (r: Option<PartDecl>)
        requires
            schema_wf(*self),
            t < record_count(*self),
        ensures
            r == find_decl(*self, t as int, id),
    {
        match self.find_part(t, id) {
            Some(k) => Some(self.records[t].parts[k]),
            None => None,
        }
    }

    /// Follows `part` from a record of type `root`: the declaration of the part it names, and the
    /// offset from the root record of the record that holds it.
    pub fn resolve(&self, root: usize, part: &Nested) -> (r: Option<(PartDecl, usize)>)
        requires
            schema_wf(*self),
            root < record_count(*self),
        ensures
            match r {
                Some((d, off)) => {
                    &&& decl_at(*self, root as int, part@) == Some(d)
                    &&& off == offset_at(*self, root as int, part@.drop_last())
                },
                None => decl_at(*self, root as int, part@) is None,
            },
    {
        let n = part.ids.len();
        if n == 0 {
            return None;
        }
        let ghost path = part@;
        let mut t: usize = root;
        let mut off: usize = 0;
        let mut k: usize = 0;
        proof {
            assert(path.take(0) =~= Seq::<u64>::empty());
        }
        while k + 1 < n
            invariant
                path == part@,
                n == path.len(),
                0 <= k < n,
                schema_wf(*self),
                root < record_count(*self),
                record_at(*self, root as int, path.take(k as int)) == Some(t as int),
                off == offset_at(*self, root as int, path.take(k as int)),
            decreases n - k,
        {
            proof {
                lemma_record_at_valid(*self, root as int, path.take(k as int));
                lemma_take_step(path, k as int);
            }
            let next = path_id(part, k);
            match self.find_decl(t, next) {
                None => {
                    proof {
                        lemma_none_stays(*self, root as int, path, k as int + 1);
                    }
                    return None;
                },
                Some(d) => match d.shape {
                    Shape::Field(f) => match f.record {
                        Some(s) => {
                            proof {
                                assert(field_at(*self, root as int, path.take(k + 1)) == Some(f));
                                let ti = t as int;
                                assert(record_wf(*self, ti));
                                let j = index_of(parts_of(*self, ti), next);
                                assert(parts_of(*self, ti)[j] == d);
                            }
                            off = off + f.offset;
                            t = s;
                        },
                        None => {
                            proof {
                                lemma_none_stays(*self, root as int, path, k as int + 1);
                            }
                            return None;
                        },
                    },
                    Shape::Abstract(_) => {
                        proof {
                            lemma_none_stays(*self, root as int, path, k as int + 1);
                        }
                        return None;
                    },
                },
            }
            k += 1;
        }
        proof {
            lemma_record_at_valid(*self, root as int, path.take(k as int));
            assert(path.take(k as int) =~= path.drop_last());
        }
        match self.find_decl(t, part.ids[k]) {
            Some(d) => Some((d, off)),
            None => None,
        }
    }
}

impl Schema {
    /// The record type found at `part` inside a record of type `root`.
    pub fn record_at(&self, root: usize, part: &Nested) -> (r: Option<usize>)
        requires
            schema_wf(*self),
            root < record_count(*self),
        ensures
            match r {
                Some(t) => record_at(*self, root as int, part@) == Some(t as int) && t
                    < record_count(*self),
                None => record_at(*self, root as int, part@) is None,
            },
    {
        if part.ids.len() == 0 {
            return Some(root);
        }
        let r = match self.resolve(root, part) {
            Some((d, _)) => match d.shape {
                Shape::Field(f) => f.record,
                Shape::Abstract(_) => None,
            },
            None => None,
        };
        proof {
            if r is Some {
                lemma_record_at_valid(*self, root as int, part@);
            }
        }
        r
    }
}

/// A description of the record types that partial references can target.
pub trait PartialRefTarget {
    /// The description is well formed, and has the record type `t`.
    spec fn targets(&self, t: int) -> bool;

    /// The description as a schema.
    spec fn layout(&self) -> Schema;

    /// The size in cells of record type `t`.
    spec fn size(&self, t: int) -> int;
}

impl PartialRefTarget for Schema {
    open spec fn targets(&self, t: int) -> bool {
        schema_wf(*self) && 0 <= t < record_count(*self)
    }

    open spec fn size(&self, t: int) -> int {
        size_of(*self, t)
    }

    open spec fn layout(&self) -> Schema {
        *self
    }
}

/// Resolution of parts: whether a record type has a part, and where the part lies.
pub trait HasPart: PartialRefTarget {
    fn has_part(&self, root: usize, part: &Nested) -> (r: bool)
        requires
            self.targets(root as int),
        ensures
            r == valid_part(self.layout(), root as int, part@),
    ;

    fn part_ptr(&self, root: usize, part: &Nested, base: usize) -> (r: Option<usize>)
        requires
            self.targets(root as int),
        ensures
            r == match field_at(self.layout(), root as int, part@) {
                Some(_) => if base + offset_at(self.layout(), root as int, part@) <= usize::MAX {
                    Some((base + offset_at(self.layout(), root as int, part@)) as usize)
                } else {
                    None
                },
                None => None,
            },
    ;
}

impl HasPart for Schema {
    /// Whether a record of type `root` has the (possibly nested) part `part`.
    fn has_part(&self, root: usize, part: &Nested) -> (r: bool)
    {
        self.resolve(root, part).is_some()
    }

    /// The address of field part `part` of a record of type `root` at address `base`. Opaque
    /// parts have none, nor has a chain that does not name a part, nor a field whose address
    /// does not fit in `usize`.
    fn part_ptr(&self, root: usize, part: &Nested, base: usize) -> (r: Option<usize>)
    {
        match self.resolve(root, part) {
            Some((d, off)) => match d.shape {
                Shape::Field(f) => {
                    proof {
                        lemma_field_within(*self, root as int, part@);
                        assert(offset_at(*self, root as int, part@) == off + f.offset);
                    }
                    match base.checked_add(off) {
                        Some(b) => f.part_addr(b),
                        None => None,
                    }
                },
                Shape::Abstract(a) => a.part_addr(base),
            },
            None => None,
        }
    }
}

/// Splitting a part of record type into the nested parts that make it up.
pub trait SplitIntoParts: PartialRefTarget {
    fn split_into_parts(&self, root: usize, containing: &Nested, m: Mode) -> (r: Option<
        Vec<Capability>,
    >)
        requires
            self.targets(root as int),
        ensures
            match r {
                Some(v) => split_parts(self.layout(), root as int, containing@, m) == Some(caps_view(v@)),
                None => split_parts(self.layout(), root as int, containing@, m) is None,
            },
    ;
}

impl SplitIntoParts for Schema {
    /// One capability in mode `m` for each part of the record type of `containing`, nested in
    /// it, in declaration order.
    fn split_into_parts(&self, root: usize, containing: &Nested, m: Mode) -> (r: Option<
        Vec<Capability>,
    >)
    {
        let t = match self.record_at(root, containing) {
            Some(t) => t,
            None => return None,
        };
        let parts = &self.records[t].parts;
        let ghost exp = expand(containing@, parts@, m);
        let mut out: Vec<Capability> = Vec::new();
        let mut k: usize = 0;
        while k < parts.len()
            invariant
                k <= parts@.len(),
                exp == expand(containing@, parts@, m),
                caps_view(out@) =~= exp.take(k as int),
            decreases parts@.len() - k,
        {
            let part = containing.nest(&Nested::plain(parts[k].id));
            proof {
                assert(part@ =~= containing@.push(parts@[k as int].id));
            }
            let ghost prev = out@;
            let cap = Capability { part, mode: m };
            proof {
                assert(cap@ == exp[k as int]);
            }
            out.push(cap);
            k += 1;
            proof {
                assert(caps_view(out@) =~= caps_view(prev).push(cap@));
                assert(exp.take(k as int) =~= exp.take(k - 1).push(exp[k - 1]));
            }
        }
        Some(out)
    }
}

/// The `k`th identifier of a part.
fn path_id(part: &Nested, k: usize) -> (r: u64)
    requires
        k < part@.len(),
    ensures
        r == part@[k as int],
{
    part.ids[k]
}

/// Once a prefix of a path leads to no record type, the whole path names no part.
pub proof fn lemma_none_stays(sc: Schema, root: int, path: Seq<u64>, k: int)
    requires
        1 <= k < path.len(),
        record_at(sc, root, path.take(k)) is None,
    ensures
        decl_at(sc, root, path) is None,
    decreases path.len() - k,
{
    if k + 1 == path.len() {
        assert(path.take(k) =~= path.drop_last());
    } else {
        lemma_take_step(path, k);
        lemma_none_stays(sc, root, path, k + 1);
    }
}

} // verus!

verus! {

impl Schema {
    /// Whether the schema is well formed (see `schema_wf`).
    pub fn check(&self) -> (r: bool)
        ensures
            r == schema_wf(*self),
    {
        let n = self.records.len();
        let mut t: usize = 0;
        while t < n
            invariant
                n == record_count(*self),
                t <= n,
                forall|u: int| 0 <= u < t ==> #[trigger] record_wf(*self, u),
            decreases n - t,
        {
            if !self.check_record(t) {
                return false;
            }
            t += 1;
        }
        true
    }

    /// Whether record type `t` is well formed (see `record_wf`).
    #[verifier::rlimit(30)]
    fn check_record(&self, t: usize) -> (r: bool)
        requires
            t < record_count(*self),
        ensures
            r == record_wf(*self, t as int),
    {
        let parts = &self.records[t].parts;
        let size = self.records[t].size;
        let n = parts.len();
        let mut i: usize = 0;
        while i < n
            invariant
                parts@ == parts_of(*self, t as int),
                size == size_of(*self, t as int),
                n == parts@.len(),
                i <= n,
                forall|a: int, b: int|
                    0 <= a < i && 0 <= b < i && a != b ==> parts@[a].id != parts@[b].id,
                forall|a: int, b: int|
                    0 <= a < i && 0 <= b < i && a != b ==> #[trigger] decls_disjoint(
                        parts@[a],
                        parts@[b],
                    ),
                forall|a: int|
                    #![trigger parts@[a]]
                    0 <= a < i ==> match parts@[a].shape {
                        Shape::Field(f) => {
                            &&& f.offset + f.len <= size_of(*self, t as int)
                            &&& f.record matches Some(s) ==> s < record_count(*self) && f.len
                                == size_of(*self, s as int)
                        },
                        Shape::Abstract(_) => true,
                    },
            decreases n - i,
        {
            let d = parts[i];
            let mut j: usize = 0;
            while j < i
                invariant
                    parts@ == parts_of(*self, t as int),
                    n == parts@.len(),
                    i < n,
                    d == parts@[i as int],
                    j <= i,
                    forall|b: int|
                        0 <= b < j ==> parts@[b].id != d.id && decls_disjoint(parts@[b], d)
                            && decls_disjoint(d, parts@[b]),
                decreases i - j,
            {
                let e = parts[j];
                if e.id == d.id || !cells_apart(e, d) {
                    proof {
                        assert(parts@[j as int] == e);
                        if e.id != d.id {
                            assert(!decls_disjoint(parts@[j as int], parts@[i as int]));
                        } else {
                            assert(parts@[j as int].id == parts@[i as int].id);
                        }
                    }
                    return false;
                }
                j += 1;
            }
            match d.shape {
                Shape::Field(f) => {
                    if f.offset > size || f.len > size - f.offset {
                        proof {
                            assert(parts@[i as int] == d);
                        }
                        return false;
                    }
                    match f.record {
                        Some(s) => {
                            if s >= self.records.len() || f.len != self.records[s].size {
                                proof {
                                    assert(parts@[i as int] == d);
                                }
                                return false;
                            }
                        },
                        None => {},
                    }
                },
                Shape::Abstract(_) => {},
            }
            i += 1;
        }
        true
    }
}

/// Whether the cells of two part declarations do not meet.
fn cells_apart(a: PartDecl, b: PartDecl) -> (r: bool)
    ensures
        r == decls_disjoint(a, b),
        r == decls_disjoint(b, a),
{
    match (a.shape, b.shape) {
        (Shape::Field(f), Shape::Field(g)) => {
            (f.offset <= g.offset && f.len <= g.offset - f.offset) || (g.offset <= f.offset && g.len
                <= f.offset - g.offset)
        },
        _ => true,
    }
}

} // verus!
