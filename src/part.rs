use vstd::prelude::*;

verus! {

/// A part identifier, possibly nested: the chain of part identifiers from the outermost part of
/// the record inward.
///
/// A plain part is a chain of one. Composing an outer part with an inner part appends the inner
/// chain to the outer one, so repeated composition is always ordered outermost first.
#[derive(Debug)]
pub struct Nested {
    pub ids: Vec<u64>,
}

impl View for Nested {
    type V = Seq<u64>;

    open spec fn view(&self) -> Seq<u64> {
        self.ids@
    }
}

/// Access mode of one capability.
#[derive(Clone, Copy, PartialEq, Eq, Structural, Debug)]
pub enum Mode {
    /// Unique mutable access.
    Exclusive,
    /// Read-only access, freely duplicable.
    Shared,
}

/// One entry of a capability list: a part and the mode in which it is held.
#[derive(Debug)]
pub struct Capability {
    pub part: Nested,
    pub mode: Mode,
}

/// A capability as the contracts see it: the part's chain of identifiers and the mode.
pub type CapView = (Seq<u64>, Mode);

impl View for Capability {
    type V = CapView;

    open spec fn view(&self) -> CapView {
        (self.part@, self.mode)
    }
}

/// The view of a list of capabilities.
pub open spec fn caps_view(caps: Seq<Capability>) -> Seq<CapView> {
    Seq::new(caps.len(), |i: int| caps[i]@)
}

/// `a` is a prefix of `b` (or equal to it): the part `a` contains the part `b`.
pub open spec fn is_prefix(a: Seq<u64>, b: Seq<u64>) -> bool {
    &&& a.len() <= b.len()
    &&& forall|i: int| 0 <= i < a.len() ==> a[i] == b[i]
}

/// Two parts overlap when one contains the other.
pub open spec fn overlap(a: Seq<u64>, b: Seq<u64>) -> bool {
    is_prefix(a, b) || is_prefix(b, a)
}

/// Two capabilities may be held at the same time: both are shared, or their parts are disjoint.
pub open spec fn compatible(x: CapView, y: CapView) -> bool {
    (x.1 == Mode::Shared && y.1 == Mode::Shared) || !overlap(x.0, y.0)
}

/// No exclusive capability of the list overlaps another of its entries.
pub open spec fn caps_compatible(caps: Seq<CapView>) -> bool {
    forall|i: int, j: int|
        0 <= i < caps.len() && 0 <= j < caps.len() && i != j ==> #[trigger] compatible(
            caps[i],
            caps[j],
        )
}

/// Every capability of `xs` may be held at the same time as every capability of `ys`.
pub open spec fn lists_compatible(xs: Seq<CapView>, ys: Seq<CapView>) -> bool {
    forall|i: int, j: int|
        0 <= i < xs.len() && 0 <= j < ys.len() ==> #[trigger] compatible(xs[i], ys[j])
}

/// Whatever `y` grants, `x` grants too: `x`'s part contains `y`'s, and `y` is exclusive only if
/// `x` is.
pub open spec fn covers(x: CapView, y: CapView) -> bool {
    is_prefix(x.0, y.0) && (y.1 == Mode::Exclusive ==> x.1 == Mode::Exclusive)
}

/// Some capability of `xs` grants whatever `y` grants.
pub open spec fn granted_by(xs: Seq<CapView>, y: CapView) -> bool {
    exists|i: int| 0 <= i < xs.len() && #[trigger] covers(xs[i], y)
}

/// Every capability of `ys` is granted by some capability of `xs`.
pub open spec fn list_covered(xs: Seq<CapView>, ys: Seq<CapView>) -> bool {
    forall|j: int| 0 <= j < ys.len() ==> granted_by(xs, #[trigger] ys[j])
}

/// A part that overlaps neither `h` nor anything inside it: extending a part that is disjoint
/// from `h` keeps it disjoint from `h`.
pub proof fn lemma_extension_disjoint(c: Seq<u64>, e: Seq<u64>, h: Seq<u64>)
    requires
        !overlap(c, h),
        is_prefix(c, e),
    ensures
        !overlap(e, h),
{
    if is_prefix(h, e) {
        if c.len() <= h.len() {
            assert(is_prefix(c, h));
        } else {
            assert(is_prefix(h, c));
        }
    }
    if is_prefix(e, h) {
        assert(is_prefix(c, h));
    }
}

/// Compatibility is kept when one side is replaced by a capability that it covers.
pub proof fn lemma_covered_compatible(x: CapView, h: CapView, y: CapView)
    requires
        compatible(x, h),
        covers(h, y),
    ensures
        compatible(x, y),
{
    if overlap(x.0, h.0) {
        assert(x.1 == Mode::Shared && h.1 == Mode::Shared);
    } else {
        lemma_extension_disjoint(h.0, y.0, x.0);
    }
}

impl Nested {
    /// A plain (not nested) part.
    pub fn plain(id: u64) -> (r: Nested)
        ensures
            r@ == seq![id],
    {
        let mut ids: Vec<u64> = Vec::new();
        ids.push(id);
        Nested { ids }
    }

    /// The nested part made of this part as the outer part and `inner` inside it.
    pub fn nest(&self, inner: &Nested) -> (r: Nested)
        ensures
            r@ == self@ + inner@,
    {
        let mut ids = self.copy().ids;
        let mut k: usize = 0;
        while k < inner.ids.len()
            invariant
                k <= inner@.len(),
                ids@ == self@ + inner@.subrange(0, k as int),
            decreases inner@.len() - k,
        {
            ids.push(inner.ids[k]);
            k += 1;
            assert(ids@ =~= self@ + inner@.subrange(0, k as int));
        }
        assert(inner@.subrange(0, inner@.len() as int) =~= inner@);
        Nested { ids }
    }

    /// A copy of this part.
    pub fn copy(&self) -> (r: Nested)
        ensures
            r@ == self@,
    {
        let mut ids: Vec<u64> = Vec::new();
        let mut k: usize = 0;
        while k < self.ids.len()
            invariant
                k <= self@.len(),
                ids@ == self@.subrange(0, k as int),
            decreases self@.len() - k,
        {
            ids.push(self.ids[k]);
            k += 1;
            assert(ids@ =~= self@.subrange(0, k as int));
        }
        assert(self@.subrange(0, self@.len() as int) =~= self@);
        Nested { ids }
    }

    /// Whether the two chains name the same part.
    pub fn same(&self, other: &Nested) -> (r: bool)
        ensures
            r == (self@ == other@),
    {
        if self.ids.len() != other.ids.len() {
            return false;
        }
        let r = self.contains_nested_part(other);
        proof {
            if r {
                assert(self@ =~= other@);
            }
        }
        r
    }
}

/// Whether a part contains another part, nested in it at any depth (or equal to it).
pub trait ContainsNestedPart {
    /// The part, as its chain of identifiers.
    spec fn spec_chain(&self) -> Seq<u64>;

    fn contains_nested_part(&self, nested: &Nested) -> (r: bool)
        ensures
            r == is_prefix(self.spec_chain(), nested@),
    ;
}

impl ContainsNestedPart for Nested {
    open spec fn spec_chain(&self) -> Seq<u64> {
        self@
    }

    fn contains_nested_part(&self, nested: &Nested) -> (r: bool) {
        if self.ids.len() > nested.ids.len() {
            return false;
        }
        let mut k: usize = 0;
        while k < self.ids.len()
            invariant
                k <= self@.len() <= nested@.len(),
                forall|i: int| 0 <= i < k ==> self@[i] == nested@[i],
            decreases self@.len() - k,
        {
            if self.ids[k] != nested.ids[k] {
                return false;
            }
            k += 1;
        }
        true
    }
}

impl Capability {
    /// A copy of this capability.
    pub fn copy(&self) -> (r: Capability)
        ensures
            r@ == self@,
    {
        Capability { part: self.part.copy(), mode: self.mode }
    }
}

} // verus!
