use vstd::prelude::*;
use crate::part::{
    caps_compatible, caps_view, compatible, covers, granted_by, is_prefix,
    lemma_covered_compatible, lemma_extension_disjoint, list_covered, lists_compatible, overlap,
    Capability, CapView, ContainsNestedPart, Mode, Nested,
};
use crate::order::{canonical, lemma_twice};
use crate::layout::{
    expand, index_of, lemma_index_unique, lemma_record_at_valid, parts_of, record_at,
    record_count, record_wf, schema_wf, split_parts, valid_part, HasPart, Schema, SplitIntoParts,
};

verus! {

/// The position of the first capability whose part contains `p`, or `caps.len()` if none does.
pub open spec fn first_cover(caps: Seq<CapView>, p: Seq<u64>) -> int
    decreases caps.len(),
{
    if caps.len() == 0 {
        0
    } else if is_prefix(caps[0].0, p) {
        0
    } else {
        1 + first_cover(caps.drop_first(), p)
    }
}

/// `s` with its entry at `i` replaced by the entries of `mid`.
pub open spec fn splice(s: Seq<CapView>, i: int, mid: Seq<CapView>) -> Seq<CapView> {
    s.take(i) + mid + s.skip(i + 1)
}

/// Taking `(p, m)` out of an exclusive capability over `base`, a part that strictly contains
/// `p`: `base` is split into its nested parts, all exclusive; the one on the way to `p` is split
/// again, down to `p`, which is removed (`m` exclusive) or kept as shared (`m` shared). `None`
/// when `p` does not name a part inside `base`.
pub open spec fn carve(sc: Schema, root: int, base: Seq<u64>, p: Seq<u64>, m: Mode) -> Option<
    Seq<CapView>,
>
    decreases p.len() - base.len(),
{
    if base.len() < p.len() {
        match record_at(sc, root, base) {
            Some(t) => {
                let parts = parts_of(sc, t);
                let i = index_of(parts, p[base.len() as int]);
                let mid = if base.len() + 1 == p.len() {
                    match m {
                        Mode::Exclusive => Some(Seq::<CapView>::empty()),
                        Mode::Shared => Some(seq![(p, Mode::Shared)]),
                    }
                } else {
                    carve(sc, root, base.push(p[base.len() as int]), p, m)
                };
                if i < 0 {
                    None
                } else {
                    match mid {
                        Some(mid) => Some(splice(expand(base, parts, Mode::Exclusive), i, mid)),
                        None => None,
                    }
                }
            },
            None => None,
        }
    } else {
        None
    }
}

/// What replaces the capability `c`, whose part contains `p`, when `(p, m)` is taken out of it.
pub open spec fn local_pluck(sc: Schema, root: int, c: CapView, p: Seq<u64>, m: Mode) -> Option<
    Seq<CapView>,
> {
    if c.0 == p {
        match m {
            Mode::Shared => Some(seq![(p, Mode::Shared)]),
            Mode::Exclusive => if c.1 == Mode::Exclusive {
                Some(Seq::<CapView>::empty())
            } else {
                None
            },
        }
    } else {
        match c.1 {
            Mode::Shared => if m == Mode::Shared && valid_part(sc, root, p) {
                Some(seq![c])
            } else {
                None
            },
            Mode::Exclusive => carve(sc, root, c.0, p, m),
        }
    }
}

/// No capability after position `i` contains `p`.
pub open spec fn sole_cover(caps: Seq<CapView>, p: Seq<u64>, i: int) -> bool {
    forall|j: int| i < j < caps.len() ==> !is_prefix(#[trigger] caps[j].0, p)
}

/// The capabilities left once `(p, m)` is taken out of `caps`, or `None` when `caps` cannot grant
/// it. Exactly one capability of `caps` must contain `p`: none is a missing part, two are an
/// ambiguous match. Taking a part as shared leaves it
/// shared; taking it as exclusive removes it; taking a part nested in an exclusive capability
/// splits that capability.
pub open spec fn pluck(sc: Schema, root: int, caps: Seq<CapView>, p: Seq<u64>, m: Mode) -> Option<
    Seq<CapView>,
> {
    let i = first_cover(caps, p);
    if i < caps.len() && sole_cover(caps, p, i) {
        match local_pluck(sc, root, caps[i], p, m) {
            Some(mid) => Some(splice(caps, i, mid)),
            None => None,
        }
    } else {
        None
    }
}

/// Narrowing `caps` to the requested capabilities `req`, taken out one after the other: the
/// remainder, or the position of the first request that cannot be granted.
pub open spec fn narrow(sc: Schema, root: int, caps: Seq<CapView>, req: Seq<CapView>) -> Result<
    Seq<CapView>,
    int,
>
    decreases req.len(),
{
    if req.len() == 0 {
        Ok(caps)
    } else {
        match pluck(sc, root, caps, req[0].0, req[0].1) {
            Some(rest) => match narrow(sc, root, rest, req.drop_first()) {
                Ok(r) => Ok(r),
                Err(k) => Err(k + 1),
            },
            None => Err(0),
        }
    }
}

/// Narrowing `caps` to the requests `req`, whatever their order: they are taken out in matching
/// order (see `canonical`), which puts each part before the parts nested in it (see
/// `law_outer_matched_first`). The remainder, or
/// the first request in that order that cannot be granted.
pub open spec fn narrow_to(sc: Schema, root: int, caps: Seq<CapView>, req: Seq<CapView>) -> Result<
    Seq<CapView>,
    CapView,
> {
    let c = canonical(req);
    match narrow(sc, root, caps, c) {
        Ok(r) => Ok(r),
        Err(k) => Err(c[k]),
    }
}

/// A request that a capability list cannot grant.
#[derive(Debug)]
pub struct Mismatch {
    pub part: Nested,
    pub mode: Mode,
}

impl View for Mismatch {
    type V = CapView;

    open spec fn view(&self) -> CapView {
        (self.part@, self.mode)
    }
}

/// The first capability whose part contains `p` is found by looking at each in turn.
pub proof fn lemma_first_cover(caps: Seq<CapView>, p: Seq<u64>, i: int)
    requires
        0 <= i <= caps.len(),
        forall|j: int| 0 <= j < i ==> !is_prefix(#[trigger] caps[j].0, p),
        i < caps.len() ==> is_prefix(caps[i].0, p),
    ensures
        first_cover(caps, p) == i,
    decreases i,
{
    if i > 0 {
        assert(!is_prefix(caps[0].0, p));
        let rest = caps.drop_first();
        assert forall|j: int| 0 <= j < i - 1 implies !is_prefix(#[trigger] rest[j].0, p) by {
            assert(rest[j] == caps[j + 1]);
        }
        lemma_first_cover(rest, p, i - 1);
    }
}

/// A copy of a list of capabilities.
pub fn copy_caps(caps: &Vec<Capability>) -> (r: Vec<Capability>)
    ensures
        caps_view(r@) == caps_view(caps@),
{
    let mut out: Vec<Capability> = Vec::new();
    let mut k: usize = 0;
    while k < caps.len()
        invariant
            k <= caps@.len(),
            caps_view(out@) =~= caps_view(caps@).take(k as int),
        decreases caps@.len() - k,
    {
        let ghost prev = out@;
        let c = caps[k].copy();
        out.push(c);
        k += 1;
        proof {
            assert(caps_view(out@) =~= caps_view(prev).push(c@));
        }
    }
    proof {
        assert(caps_view(caps@).take(k as int) =~= caps_view(caps@));
    }
    out
}

/// Replaces the entry at `i` of `v` by the entries of `mid`.
fn splice_caps(v: Vec<Capability>, i: usize, mid: Vec<Capability>) -> (r: Vec<Capability>)
    requires
        i < v@.len(),
    ensures
        caps_view(r@) == splice(caps_view(v@), i as int, caps_view(mid@)),
{
    let mut head = v;
    let mut mid = mid;
    let ghost s = caps_view(head@);
    let ghost ms = caps_view(mid@);
    let len = head.len();
    let mut tail = head.split_off(i + 1);
    head.truncate(i);
    let ghost h = head@;
    let ghost t = tail@;
    head.append(&mut mid);
    let ghost hm = head@;
    head.append(&mut tail);
    proof {
        assert(caps_view(h) =~= s.take(i as int));
        assert(caps_view(t) =~= s.skip(i + 1));
        assert(caps_view(hm) =~= s.take(i as int) + ms);
        assert(caps_view(head@) =~= s.take(i as int) + ms + s.skip(i + 1));
    }
    head
}

/// Takes `(p, m)` out of an exclusive capability over `base` that strictly contains `p`.
pub fn carve_caps(sc: &Schema, root: usize, base: &Nested, p: &Nested, m: Mode) -> (r: Option<
    Vec<Capability>,
>)
    requires
        schema_wf(*sc),
        root < record_count(*sc),
    ensures
        match r {
            Some(v) => carve(*sc, root as int, base@, p@, m) == Some(caps_view(v@)),
            None => carve(*sc, root as int, base@, p@, m) is None,
        },
    decreases p@.len() - base@.len(),
{
    let n = base.ids.len();
    if n >= p.ids.len() {
        return None;
    }
    let t = match sc.record_at(root, base) {
        Some(t) => t,
        None => return None,
    };
    let id = p.ids[n];
    let i = match sc.find_part(t, id) {
        Some(i) => i,
        None => return None,
    };
    let mid: Vec<Capability> = if n + 1 == p.ids.len() {
        match m {
            Mode::Exclusive => Vec::new(),
            Mode::Shared => {
                let mut v: Vec<Capability> = Vec::new();
                v.push(Capability { part: p.copy(), mode: Mode::Shared });
                proof {
                    assert(caps_view(v@) =~= seq![(p@, Mode::Shared)]);
                }
                v
            },
        }
    } else {
        let child = base.nest(&Nested::plain(id));
        proof {
            assert(child@ =~= base@.push(p@[n as int]));
        }
        match carve_caps(sc, root, &child, p, m) {
            Some(v) => v,
            None => return None,
        }
    };
    proof {
        if n + 1 == p.ids.len() && m == Mode::Exclusive {
            assert(caps_view(mid@) =~= Seq::<CapView>::empty());
        }
    }
    let exp = match sc.split_into_parts(root, base, Mode::Exclusive) {
        Some(v) => v,
        None => return None,
    };
    assert(split_parts(*sc, root as int, base@, Mode::Exclusive) == Some(
        expand(base@, parts_of(*sc, t as int), Mode::Exclusive),
    ));
    Some(splice_caps(exp, i, mid))
}

/// Takes `(p, m)` out of `caps`: the remainder, or `None` when `caps` cannot grant it.
pub fn pluck_caps(sc: &Schema, root: usize, caps: &Vec<Capability>, p: &Nested, m: Mode) -> (r:
    Option<Vec<Capability>>)
    requires
        schema_wf(*sc),
        root < record_count(*sc),
    ensures
        match r {
            Some(v) => pluck(*sc, root as int, caps_view(caps@), p@, m) == Some(caps_view(v@)),
            None => pluck(*sc, root as int, caps_view(caps@), p@, m) is None,
        },
{
    let ghost cv = caps_view(caps@);
    let mut i: usize = 0;
    while i < caps.len()
        invariant
            i <= caps@.len(),
            cv == caps_view(caps@),
            forall|j: int| 0 <= j < i ==> !is_prefix(#[trigger] cv[j].0, p@),
        ensures
            i <= caps@.len(),
            forall|j: int| 0 <= j < i ==> !is_prefix(#[trigger] cv[j].0, p@),
            i < caps@.len() ==> is_prefix(cv[i as int].0, p@),
        decreases caps@.len() - i,
    {
        if caps[i].part.contains_nested_part(p) {
            break;
        }
        i += 1;
    }
    proof {
        lemma_first_cover(cv, p@, i as int);
    }
    if i == caps.len() {
        return None;
    }
    let mut j: usize = i + 1;
    while j < caps.len()
        invariant
            i < j <= caps@.len(),
            cv == caps_view(caps@),
            first_cover(cv, p@) == i,
            forall|l: int| i < l < j ==> !is_prefix(#[trigger] cv[l].0, p@),
        decreases caps@.len() - j,
    {
        if caps[j].part.contains_nested_part(p) {
            assert(cv[j as int] == caps@[j as int]@);
            assert(is_prefix(cv[j as int].0, p@));
            assert(!sole_cover(cv, p@, i as int));
            return None;
        }
        j += 1;
    }
    let c = &caps[i];
    assert(cv[i as int] == c@);
    let mid: Vec<Capability> = if c.part.same(p) {
        match m {
            Mode::Shared => {
                let mut v: Vec<Capability> = Vec::new();
                v.push(Capability { part: p.copy(), mode: Mode::Shared });
                proof {
                    assert(caps_view(v@) =~= seq![(p@, Mode::Shared)]);
                }
                v
            },
            Mode::Exclusive => {
                if c.mode != Mode::Exclusive {
                    return None;
                }
                let v: Vec<Capability> = Vec::new();
                proof {
                    assert(caps_view(v@) =~= Seq::<CapView>::empty());
                }
                v
            },
        }
    } else {
        match c.mode {
            Mode::Shared => {
                if m != Mode::Shared || !sc.has_part(root, p) {
                    return None;
                }
                let mut v: Vec<Capability> = Vec::new();
                v.push(c.copy());
                proof {
                    assert(caps_view(v@) =~= seq![c@]);
                }
                v
            },
            Mode::Exclusive => match carve_caps(sc, root, &c.part, p, m) {
                Some(v) => v,
                None => return None,
            },
        }
    };
    let all = copy_caps(caps);
    Some(splice_caps(all, i, mid))
}

/// Narrows `caps` to the requests `req`, taken in the order given: the remainder, or the position
/// of the first request that cannot be granted.
pub fn narrow_caps(sc: &Schema, root: usize, caps: &Vec<Capability>, req: &Vec<Capability>) -> (r:
    Result<Vec<Capability>, usize>)
    requires
        schema_wf(*sc),
        root < record_count(*sc),
    ensures
        match r {
            Ok(v) => narrow(*sc, root as int, caps_view(caps@), caps_view(req@)) == Ok::<
                Seq<CapView>,
                int,
            >(caps_view(v@)),
            Err(e) => narrow(*sc, root as int, caps_view(caps@), caps_view(req@)) == Err::<
                Seq<CapView>,
                int,
            >(e as int),
        },
{
    let ghost rv = caps_view(req@);
    let ghost whole = narrow(*sc, root as int, caps_view(caps@), rv);
    let mut cur = copy_caps(caps);
    let mut k: usize = 0;
    proof {
        assert(rv.skip(0) =~= rv);
    }
    while k < req.len()
        invariant
            k <= req@.len(),
            rv == caps_view(req@),
            whole == narrow(*sc, root as int, caps_view(caps@), rv),
            schema_wf(*sc),
            root < record_count(*sc),
            whole == match narrow(*sc, root as int, caps_view(cur@), rv.skip(k as int)) {
                Ok(x) => Ok(x),
                Err(e) => Err(e + k),
            },
        decreases req@.len() - k,
    {
        let q = &req[k];
        assert(rv.skip(k as int)[0] == q@);
        assert(rv.skip(k as int).drop_first() =~= rv.skip(k + 1));
        match pluck_caps(sc, root, &cur, &q.part, q.mode) {
            Some(next) => {
                cur = next;
            },
            None => {
                assert(narrow(*sc, root as int, caps_view(cur@), rv.skip(k as int)) == Err::<
                    Seq<CapView>,
                    int,
                >(0));
                return Err(k);
            },
        }
        k += 1;
    }
    proof {
        assert(rv.skip(k as int).len() == 0);
    }
    Ok(cur)
}

} // verus!

verus! {

/// A capability list that a handle over a record of type `root` may hold: its capabilities are
/// free of conflicts, and each names a part of the record.
pub open spec fn valid_caps(sc: Schema, root: int, caps: Seq<CapView>) -> bool {
    &&& caps_compatible(caps)
    &&& forall|i: int| 0 <= i < caps.len() ==> valid_part(sc, root, #[trigger] caps[i].0)
}

/// Where the entries of a splice come from.
pub proof fn lemma_splice_at(s: Seq<CapView>, i: int, mid: Seq<CapView>, a: int)
    requires
        0 <= i < s.len(),
        0 <= a < s.len() - 1 + mid.len(),
    ensures
        splice(s, i, mid).len() == s.len() - 1 + mid.len(),
        a < i ==> splice(s, i, mid)[a] == s[a],
        i <= a < i + mid.len() ==> splice(s, i, mid)[a] == mid[a - i],
        i + mid.len() <= a ==> splice(s, i, mid)[a] == s[a - mid.len() + 1],
{
}

/// The position in `s` that entry `a` of a splice, outside `mid`, comes from.
pub open spec fn splice_source(i: int, mid: Seq<CapView>, a: int) -> int {
    if a < i {
        a
    } else {
        a - mid.len() + 1
    }
}

/// Containment of parts is transitive.
pub proof fn lemma_prefix_trans(a: Seq<u64>, b: Seq<u64>, c: Seq<u64>)
    requires
        is_prefix(a, b),
        is_prefix(b, c),
    ensures
        is_prefix(a, c),
{
}

/// Granting is transitive.
pub proof fn lemma_covers_trans(x: CapView, y: CapView, z: CapView)
    requires
        covers(x, y),
        covers(y, z),
    ensures
        covers(x, z),
{
    lemma_prefix_trans(x.0, y.0, z.0);
}

/// Two parts of the same length that differ somewhere do not overlap.
pub proof fn lemma_siblings_disjoint(a: Seq<u64>, b: Seq<u64>, k: int)
    requires
        a.len() == b.len(),
        0 <= k < a.len(),
        a[k] != b[k],
    ensures
        !overlap(a, b),
{
}

/// The first capability whose part contains `p` does contain it.
pub proof fn lemma_first_cover_props(caps: Seq<CapView>, p: Seq<u64>)
    ensures
        0 <= first_cover(caps, p) <= caps.len(),
        first_cover(caps, p) < caps.len() ==> is_prefix(caps[first_cover(caps, p)].0, p),
        forall|j: int| 0 <= j < first_cover(caps, p) ==> !is_prefix(#[trigger] caps[j].0, p),
    decreases caps.len(),
{
    if caps.len() > 0 && !is_prefix(caps[0].0, p) {
        let rest = caps.drop_first();
        lemma_first_cover_props(rest, p);
        assert forall|j: int| 0 <= j < first_cover(caps, p) implies !is_prefix(
            #[trigger] caps[j].0,
            p,
        ) by {
            if j > 0 {
                assert(caps[j] == rest[j - 1]);
            }
        }
    }
}

/// The nested parts of a record-typed part: each is a part, one level inside it, and no two
/// overlap.
pub proof fn lemma_expand_props(sc: Schema, root: int, base: Seq<u64>)
    requires
        schema_wf(sc),
        0 <= root < record_count(sc),
        record_at(sc, root, base) is Some,
    ensures
        ({
            let t = record_at(sc, root, base).unwrap();
            let exp = expand(base, parts_of(sc, t), Mode::Exclusive);
            &&& 0 <= t < record_count(sc)
            &&& forall|i: int|
                0 <= i < exp.len() ==> {
                    &&& valid_part(sc, root, #[trigger] exp[i].0)
                    &&& is_prefix(base, exp[i].0)
                    &&& exp[i].0.len() == base.len() + 1
                    &&& exp[i].1 == Mode::Exclusive
                }
            &&& forall|i: int, j: int|
                0 <= i < exp.len() && 0 <= j < exp.len() && i != j ==> !overlap(
                    #[trigger] exp[i].0,
                    #[trigger] exp[j].0,
                )
        }),
{
    let t = record_at(sc, root, base).unwrap();
    lemma_record_at_valid(sc, root, base);
    let parts = parts_of(sc, t);
    let exp = expand(base, parts, Mode::Exclusive);
    assert(record_wf(sc, t));
    assert forall|i: int| 0 <= i < exp.len() implies {
        &&& valid_part(sc, root, #[trigger] exp[i].0)
        &&& is_prefix(base, exp[i].0)
        &&& exp[i].0.len() == base.len() + 1
        &&& exp[i].1 == Mode::Exclusive
    } by {
        lemma_index_unique(sc, t, i);
        assert(exp[i].0.drop_last() =~= base);
    }
    assert forall|i: int, j: int|
        0 <= i < exp.len() && 0 <= j < exp.len() && i != j implies !overlap(
        #[trigger] exp[i].0,
        #[trigger] exp[j].0,
    ) by {
        lemma_siblings_disjoint(exp[i].0, exp[j].0, base.len() as int);
    }
}

/// What carving leaves: parts inside `base`, free of conflicts among themselves and with the
/// carved-out `(p, m)`.
pub proof fn lemma_carve_sound(sc: Schema, root: int, base: Seq<u64>, p: Seq<u64>, m: Mode)
    requires
        schema_wf(sc),
        0 <= root < record_count(sc),
        is_prefix(base, p),
        base.len() < p.len(),
        carve(sc, root, base, p, m) is Some,
    ensures
        ({
            let mid = carve(sc, root, base, p, m).unwrap();
            &&& valid_part(sc, root, p)
            &&& caps_compatible(mid)
            &&& forall|a: int|
                0 <= a < mid.len() ==> {
                    &&& valid_part(sc, root, #[trigger] mid[a].0)
                    &&& is_prefix(base, mid[a].0)
                    &&& compatible(mid[a], (p, m))
                }
        }),
    decreases p.len() - base.len(),
{
    let n = base.len() as int;
    let t = record_at(sc, root, base).unwrap();
    let parts = parts_of(sc, t);
    let i = index_of(parts, p[n]);
    let exp = expand(base, parts, Mode::Exclusive);
    lemma_expand_props(sc, root, base);
    let child = base.push(p[n]);
    assert(0 <= i < parts.len());
    assert(exp[i].0 == child);
    assert(is_prefix(child, p));
    let mid = carve(sc, root, base, p, m).unwrap();
    let inner = if n + 1 == p.len() {
        assert(child =~= p);
        match m {
            Mode::Exclusive => Seq::<CapView>::empty(),
            Mode::Shared => seq![(p, Mode::Shared)],
        }
    } else {
        lemma_carve_sound(sc, root, child, p, m);
        carve(sc, root, child, p, m).unwrap()
    };
    assert(mid == splice(exp, i, inner));
    // Facts on the inner entries.
    assert forall|b: int| 0 <= b < inner.len() implies {
        &&& valid_part(sc, root, #[trigger] inner[b].0)
        &&& is_prefix(child, inner[b].0)
        &&& compatible(inner[b], (p, m))
    } by {
        if n + 1 == p.len() {
            assert(inner[b] == (p, Mode::Shared));
        }
    }
    assert(valid_part(sc, root, p)) by {
        if n + 1 == p.len() {
            assert(exp[i].0 == p);
        }
    }
    assert forall|a: int| 0 <= a < mid.len() implies {
        &&& valid_part(sc, root, #[trigger] mid[a].0)
        &&& is_prefix(base, mid[a].0)
        &&& compatible(mid[a], (p, m))
    } by {
        lemma_splice_at(exp, i, inner, a);
        if i <= a < i + inner.len() {
            let y = inner[a - i];
            lemma_prefix_trans(base, child, y.0);
        } else {
            let s = splice_source(i, inner, a);
            assert(s != i);
            assert(!overlap(exp[s].0, exp[i].0));
            lemma_extension_disjoint(child, p, exp[s].0);
        }
    }
    assert forall|a: int, b: int|
        0 <= a < mid.len() && 0 <= b < mid.len() && a != b implies #[trigger] compatible(
        mid[a],
        mid[b],
    ) by {
        lemma_splice_at(exp, i, inner, a);
        lemma_splice_at(exp, i, inner, b);
        let in_a = i <= a < i + inner.len();
        let in_b = i <= b < i + inner.len();
        if in_a && in_b {
            if n + 1 != p.len() {
                assert(compatible(inner[a - i], inner[b - i]));
            }
        } else if in_a {
            let s = splice_source(i, inner, b);
            assert(!overlap(exp[s].0, exp[i].0));
            lemma_extension_disjoint(child, inner[a - i].0, exp[s].0);
        } else if in_b {
            let s = splice_source(i, inner, a);
            assert(!overlap(exp[s].0, exp[i].0));
            lemma_extension_disjoint(child, inner[b - i].0, exp[s].0);
        } else {
            let sa = splice_source(i, inner, a);
            let sb = splice_source(i, inner, b);
            assert(sa != sb);
            assert(!overlap(exp[sa].0, exp[sb].0));
        }
    }
}

} // verus!

verus! {

/// What taking `(p, m)` out of a conflict-free list leaves: a conflict-free list of parts, none
/// in conflict with `(p, m)`, each granted by the source list, which also grants `(p, m)`.
pub proof fn lemma_pluck_sound(sc: Schema, root: int, caps: Seq<CapView>, p: Seq<u64>, m: Mode)
    requires
        schema_wf(sc),
        0 <= root < record_count(sc),
        valid_caps(sc, root, caps),
        pluck(sc, root, caps, p, m) is Some,
    ensures
        ({
            let rem = pluck(sc, root, caps, p, m).unwrap();
            &&& valid_caps(sc, root, rem)
            &&& valid_part(sc, root, p)
            &&& granted_by(caps, (p, m))
            &&& list_covered(caps, rem)
            &&& forall|a: int| 0 <= a < rem.len() ==> compatible((p, m), #[trigger] rem[a])
        }),
{
    lemma_first_cover_props(caps, p);
    let i = first_cover(caps, p);
    let c = caps[i];
    let mid = local_pluck(sc, root, c, p, m).unwrap();
    let rem = pluck(sc, root, caps, p, m).unwrap();
    assert(rem == splice(caps, i, mid));
    // Facts on what replaces `c`.
    if c.0 == p {
        assert(covers(c, (p, m)));
    } else if c.1 == Mode::Shared {
        assert(covers(c, (p, m)));
    } else {
        lemma_carve_sound(sc, root, c.0, p, m);
        assert(covers(c, (p, m)));
    }
    assert(valid_part(sc, root, p));
    assert(caps_compatible(mid));
    assert forall|b: int| 0 <= b < mid.len() implies {
        &&& valid_part(sc, root, #[trigger] mid[b].0)
        &&& covers(c, mid[b])
        &&& compatible(mid[b], (p, m))
    } by {
        if c.0 == p || c.1 == Mode::Shared {
        } else {
            lemma_carve_sound(sc, root, c.0, p, m);
        }
    }
    assert(granted_by(caps, (p, m)));
    assert forall|a: int| #![trigger rem[a]] 0 <= a < rem.len() implies {
        &&& valid_part(sc, root, rem[a].0)
        &&& granted_by(caps, rem[a])
        &&& compatible((p, m), rem[a])
    } by {
        lemma_splice_at(caps, i, mid, a);
        if i <= a < i + mid.len() {
            assert(covers(c, rem[a]));
        } else {
            let s = splice_source(i, mid, a);
            assert(covers(caps[s], rem[a]));
            assert(compatible(caps[s], caps[i]));
            lemma_covered_compatible(caps[s], c, (p, m));
        }
    }
    assert forall|a: int, b: int|
        0 <= a < rem.len() && 0 <= b < rem.len() && a != b implies #[trigger] compatible(
        rem[a],
        rem[b],
    ) by {
        lemma_splice_at(caps, i, mid, a);
        lemma_splice_at(caps, i, mid, b);
        let in_a = i <= a < i + mid.len();
        let in_b = i <= b < i + mid.len();
        if in_a && in_b {
            assert(compatible(mid[a - i], mid[b - i]));
        } else if in_a {
            let s = splice_source(i, mid, b);
            assert(compatible(caps[s], caps[i]));
            lemma_covered_compatible(caps[s], c, mid[a - i]);
        } else if in_b {
            let s = splice_source(i, mid, a);
            assert(compatible(caps[s], caps[i]));
            lemma_covered_compatible(caps[s], c, mid[b - i]);
        } else {
            let sa = splice_source(i, mid, a);
            let sb = splice_source(i, mid, b);
            assert(compatible(caps[sa], caps[sb]));
        }
    }
}

/// A capability granted by a list that `caps` covers, and whose entries are all free of conflict
/// with `q`, is granted by `caps` and free of conflict with `q`.
pub proof fn lemma_granted_through(caps: Seq<CapView>, r: Seq<CapView>, q: CapView, y: CapView)
    requires
        list_covered(caps, r),
        forall|a: int| 0 <= a < r.len() ==> compatible(q, #[trigger] r[a]),
        granted_by(r, y),
    ensures
        granted_by(caps, y),
        compatible(q, y),
{
    let k = choose|k: int| 0 <= k < r.len() && #[trigger] covers(r[k], y);
    assert(granted_by(caps, r[k]));
    let h = choose|h: int| 0 <= h < caps.len() && #[trigger] covers(caps[h], r[k]);
    lemma_covers_trans(caps[h], r[k], y);
    assert(covers(caps[h], y));
    assert(compatible(q, r[k]));
    lemma_covered_compatible(q, r[k], y);
}

/// Putting `q` in front of requests that a list `r1` grants, `r1` being what remains of `caps`
/// once `q` is taken out.
pub proof fn lemma_cons_requests(
    caps: Seq<CapView>,
    q: CapView,
    r1: Seq<CapView>,
    tail: Seq<CapView>,
)
    requires
        list_covered(caps, r1),
        forall|a: int| 0 <= a < r1.len() ==> compatible(q, #[trigger] r1[a]),
        granted_by(caps, q),
        caps_compatible(tail),
        list_covered(r1, tail),
    ensures
        caps_compatible(seq![q] + tail),
        list_covered(caps, seq![q] + tail),
{
    let req = seq![q] + tail;
    assert forall|a: int| #![trigger req[a]] 0 <= a < req.len() implies granted_by(
        caps,
        req[a],
    ) by {
        if a > 0 {
            assert(req[a] == tail[a - 1]);
            lemma_granted_through(caps, r1, q, req[a]);
        }
    }
    assert forall|a: int, b: int|
        0 <= a < req.len() && 0 <= b < req.len() && a != b implies #[trigger] compatible(
        req[a],
        req[b],
    ) by {
        if a > 0 && b > 0 {
            assert(req[a] == tail[a - 1]);
            assert(req[b] == tail[b - 1]);
            assert(compatible(tail[a - 1], tail[b - 1]));
        } else if a == 0 {
            assert(req[b] == tail[b - 1]);
            lemma_granted_through(caps, r1, q, req[b]);
        } else {
            assert(req[a] == tail[a - 1]);
            lemma_granted_through(caps, r1, q, req[a]);
        }
    }
}

/// The remainder after `q` and the requests after it is free of conflict with all of them.
pub proof fn lemma_cons_remainder(
    caps: Seq<CapView>,
    q: CapView,
    r1: Seq<CapView>,
    tail: Seq<CapView>,
    rem: Seq<CapView>,
)
    requires
        list_covered(caps, r1),
        forall|a: int| 0 <= a < r1.len() ==> compatible(q, #[trigger] r1[a]),
        lists_compatible(tail, rem),
        list_covered(r1, rem),
    ensures
        lists_compatible(seq![q] + tail, rem),
        list_covered(caps, rem),
{
    let req = seq![q] + tail;
    assert forall|b: int| 0 <= b < rem.len() implies granted_by(caps, #[trigger] rem[b])
        && compatible(q, rem[b]) by {
        lemma_granted_through(caps, r1, q, rem[b]);
    }
    assert forall|a: int, b: int|
        0 <= a < req.len() && 0 <= b < rem.len() implies #[trigger] compatible(req[a], rem[b]) by {
        if a > 0 {
            assert(req[a] == tail[a - 1]);
            assert(compatible(tail[a - 1], rem[b]));
        } else {
            assert(granted_by(caps, rem[b]) && compatible(q, rem[b]));
        }
    }
}

/// What narrowing a conflict-free list leaves, and what it grants: both lists are free of
/// conflicts, no capability of one conflicts with one of the other, and the source list grants
/// every capability of both.
pub proof fn lemma_narrow_sound(sc: Schema, root: int, caps: Seq<CapView>, req: Seq<CapView>)
    requires
        schema_wf(sc),
        0 <= root < record_count(sc),
        valid_caps(sc, root, caps),
        narrow(sc, root, caps, req) is Ok,
    ensures
        ({
            let rem = narrow(sc, root, caps, req)->Ok_0;
            &&& valid_caps(sc, root, rem)
            &&& valid_caps(sc, root, req)
            &&& lists_compatible(req, rem)
            &&& list_covered(caps, req)
            &&& list_covered(caps, rem)
        }),
    decreases req.len(),
{
    if req.len() == 0 {
        assert forall|j: int| 0 <= j < caps.len() implies granted_by(caps, #[trigger] caps[j]) by {
            assert(covers(caps[j], caps[j]));
        }
    } else {
        let q = req[0];
        let r1 = pluck(sc, root, caps, q.0, q.1).unwrap();
        let tail = req.drop_first();
        lemma_pluck_sound(sc, root, caps, q.0, q.1);
        lemma_narrow_sound(sc, root, r1, tail);
        let rem = narrow(sc, root, caps, req)->Ok_0;
        assert(rem == narrow(sc, root, r1, tail)->Ok_0);
        assert(req =~= seq![q] + tail);
        lemma_cons_requests(caps, q, r1, tail);
        lemma_cons_remainder(caps, q, r1, tail, rem);
        assert forall|a: int| 0 <= a < req.len() implies valid_part(sc, root, #[trigger] req[a].0) by {
            if a > 0 {
                assert(req[a] == tail[a - 1]);
            }
        }
    }
}

} // verus!

verus! {

/// Every shorter prefix of a path that leads to a record type leads to one too.
pub proof fn lemma_record_at_prefix(sc: Schema, root: int, path: Seq<u64>, j: int)
    requires
        0 <= j <= path.len(),
        record_at(sc, root, path) is Some,
    ensures
        record_at(sc, root, path.take(j)) is Some,
    decreases path.len() - j,
{
    if j < path.len() {
        lemma_record_at_prefix(sc, root, path.drop_last(), j);
        assert(path.drop_last().take(j) =~= path.take(j));
    } else {
        assert(path.take(j) =~= path);
    }
}

/// Carving a part out of an exclusive capability over `base` succeeds whenever the part lies
/// inside `base`.
pub proof fn lemma_carve_succeeds(sc: Schema, root: int, base: Seq<u64>, p: Seq<u64>, m: Mode)
    requires
        schema_wf(sc),
        0 <= root < record_count(sc),
        is_prefix(base, p),
        base.len() < p.len(),
        valid_part(sc, root, p),
    ensures
        carve(sc, root, base, p, m) is Some,
    decreases p.len() - base.len(),
{
    let n = base.len() as int;
    lemma_record_at_prefix(sc, root, p.drop_last(), n);
    assert(p.drop_last().take(n) =~= base);
    let t = record_at(sc, root, base).unwrap();
    let child = base.push(p[n]);
    if n + 1 == p.len() {
        assert(p.drop_last() =~= base);
    } else {
        lemma_record_at_prefix(sc, root, p.drop_last(), n + 1);
        assert(p.drop_last().take(n + 1) =~= child);
        assert(child.drop_last() =~= base);
        lemma_carve_succeeds(sc, root, child, p, m);
    }
}

/// A conflict-free list grants `(p, m)` exactly when taking it out succeeds.
pub proof fn lemma_pluck_succeeds(sc: Schema, root: int, caps: Seq<CapView>, p: Seq<u64>, m: Mode)
    requires
        schema_wf(sc),
        0 <= root < record_count(sc),
        valid_caps(sc, root, caps),
        granted_by(caps, (p, m)),
        valid_part(sc, root, p),
        m == Mode::Exclusive || covered_once(caps, p),
    ensures
        pluck(sc, root, caps, p, m) is Some,
{
    let k = choose|k: int| 0 <= k < caps.len() && #[trigger] covers(caps[k], (p, m));
    lemma_first_cover_props(caps, p);
    let i = first_cover(caps, p);
    assert(i <= k);
    let c = caps[i];
    if i != k {
        lemma_common_prefix_overlap(c.0, caps[k].0, p);
        assert(compatible(caps[i], caps[k]));
    }
    assert forall|j: int| i < j < caps.len() implies !is_prefix(#[trigger] caps[j].0, p) by {
        if is_prefix(caps[j].0, p) {
            if m == Mode::Exclusive {
                lemma_common_prefix_overlap(caps[j].0, caps[k].0, p);
                assert(compatible(caps[j], caps[k]));
            } else {
                assert(caps[i].0 == c.0);
            }
        }
    }
    if c.0 != p && c.1 == Mode::Exclusive {
        if c.0.len() == p.len() {
            assert(c.0 =~= p);
        }
        lemma_carve_succeeds(sc, root, c.0, p, m);
    }
}

/// Exactly one capability of `caps` contains `p`, if any does.
pub open spec fn covered_once(caps: Seq<CapView>, p: Seq<u64>) -> bool {
    forall|i: int, j: int|
        0 <= i < caps.len() && 0 <= j < caps.len() && is_prefix(#[trigger] caps[i].0, p)
            && is_prefix(#[trigger] caps[j].0, p) ==> i == j
}

/// Two parts that both contain `p` overlap.
pub proof fn lemma_common_prefix_overlap(a: Seq<u64>, b: Seq<u64>, p: Seq<u64>)
    requires
        is_prefix(a, p),
        is_prefix(b, p),
    ensures
        overlap(a, b),
{
    if a.len() <= b.len() {
        assert(is_prefix(a, b));
    } else {
        assert(is_prefix(b, a));
    }
}

/// Carving `p` out of an exclusive capability over `base` keeps exclusive access to every part
/// inside `base` that does not overlap `p`.
pub proof fn lemma_carve_keeps(
    sc: Schema,
    root: int,
    base: Seq<u64>,
    p: Seq<u64>,
    m: Mode,
    q: Seq<u64>,
)
    requires
        schema_wf(sc),
        0 <= root < record_count(sc),
        is_prefix(base, p),
        base.len() < p.len(),
        carve(sc, root, base, p, m) is Some,
        is_prefix(base, q),
        !overlap(p, q),
        valid_part(sc, root, q),
    ensures
        granted_by(carve(sc, root, base, p, m).unwrap(), (q, Mode::Exclusive)),
    decreases p.len() - base.len(),
{
    let n = base.len() as int;
    let t = record_at(sc, root, base).unwrap();
    let parts = parts_of(sc, t);
    let i = index_of(parts, p[n]);
    let exp = expand(base, parts, Mode::Exclusive);
    lemma_expand_props(sc, root, base);
    let mid = carve(sc, root, base, p, m).unwrap();
    let inner = if n + 1 == p.len() {
        match m {
            Mode::Exclusive => Seq::<CapView>::empty(),
            Mode::Shared => seq![(p, Mode::Shared)],
        }
    } else {
        carve(sc, root, base.push(p[n]), p, m).unwrap()
    };
    assert(mid == splice(exp, i, inner));
    // `q` goes through one of the nested parts of `base`.
    if q.len() == n {
        assert(q =~= base);
        assert(is_prefix(q, p));
    }
    let qchild = base.push(q[n]);
    lemma_record_at_prefix(sc, root, q.drop_last(), n);
    assert(q.drop_last().take(n) =~= base);
    assert(index_of(parts, q[n]) >= 0) by {
        if q.len() == n + 1 {
            assert(q.drop_last() =~= base);
        } else {
            lemma_record_at_prefix(sc, root, q.drop_last(), n + 1);
            assert(q.drop_last().take(n + 1) =~= qchild);
            assert(qchild.drop_last() =~= base);
        }
    }
    let j = index_of(parts, q[n]);
    assert(exp[j].0 == qchild);
    assert(is_prefix(qchild, q));
    if j != i {
        let a = if j < i {
            j
        } else {
            j + inner.len() - 1
        };
        lemma_splice_at(exp, i, inner, a);
        assert(mid[a] == exp[j]);
        assert(covers(mid[a], (q, Mode::Exclusive)));
    } else {
        let child = base.push(p[n]);
        assert(qchild == child);
        if n + 1 == p.len() {
            assert(child =~= p);
            assert(is_prefix(p, q));
        }
        lemma_carve_keeps(sc, root, child, p, m, q);
        let b = choose|b: int| 0 <= b < inner.len() && #[trigger] covers(inner[b], (q, Mode::Exclusive));
        lemma_splice_at(exp, i, inner, i + b);
        assert(covers(mid[i + b], (q, Mode::Exclusive)));
    }
}

/// Taking `(p, m)` out of a conflict-free list keeps every grant of a part that does not
/// overlap `p`.
pub proof fn lemma_pluck_keeps(
    sc: Schema,
    root: int,
    caps: Seq<CapView>,
    p: Seq<u64>,
    m: Mode,
    q: CapView,
)
    requires
        schema_wf(sc),
        0 <= root < record_count(sc),
        valid_caps(sc, root, caps),
        pluck(sc, root, caps, p, m) is Some,
        granted_by(caps, q),
        valid_part(sc, root, q.0),
        !overlap(p, q.0),
    ensures
        granted_by(pluck(sc, root, caps, p, m).unwrap(), q),
{
    lemma_first_cover_props(caps, p);
    let i = first_cover(caps, p);
    let c = caps[i];
    let mid = local_pluck(sc, root, c, p, m).unwrap();
    let rem = pluck(sc, root, caps, p, m).unwrap();
    let k = choose|k: int| 0 <= k < caps.len() && #[trigger] covers(caps[k], q);
    if k != i {
        let a = if k < i {
            k
        } else {
            k + mid.len() - 1
        };
        lemma_splice_at(caps, i, mid, a);
        assert(rem[a] == caps[k]);
    } else if c.0 == p {
        assert(is_prefix(p, q.0));
    } else if c.1 == Mode::Shared {
        lemma_splice_at(caps, i, mid, i);
        assert(rem[i] == c);
    } else {
        if c.0.len() == p.len() {
            assert(c.0 =~= p);
        }
        lemma_carve_keeps(sc, root, c.0, p, m, q.0);
        let b = choose|b: int| 0 <= b < mid.len() && #[trigger] covers(mid[b], (q.0, Mode::Exclusive));
        lemma_splice_at(caps, i, mid, i + b);
        assert(covers(rem[i + b], q));
    }
}

} // verus!

verus! {

/// The position that a failed narrowing names is one of the requests.
pub proof fn lemma_narrow_err_index(sc: Schema, root: int, caps: Seq<CapView>, req: Seq<CapView>)
    ensures
        narrow(sc, root, caps, req) matches Err(k) ==> 0 <= k < req.len(),
    decreases req.len(),
{
    if req.len() > 0 {
        if let Some(rest) = pluck(sc, root, caps, req[0].0, req[0].1) {
            lemma_narrow_err_index(sc, root, rest, req.drop_first());
        }
    }
}

/// Narrowing to a single request is taking it out.
pub proof fn lemma_narrow_single(sc: Schema, root: int, caps: Seq<CapView>, q: CapView)
    ensures
        narrow(sc, root, caps, seq![q]) == match pluck(sc, root, caps, q.0, q.1) {
            Some(r) => Ok::<Seq<CapView>, int>(r),
            None => Err(0),
        },
{
    assert(seq![q].drop_first() =~= Seq::<CapView>::empty());
    if let Some(r) = pluck(sc, root, caps, q.0, q.1) {
        assert(narrow(sc, root, r, Seq::<CapView>::empty()) == Ok::<Seq<CapView>, int>(r));
    }
}

} // verus!

verus! {

/// A list holding the same capabilities as a valid list, in another order, is valid.
pub proof fn lemma_valid_caps_reordered(sc: Schema, root: int, a: Seq<CapView>, b: Seq<CapView>)
    requires
        valid_caps(sc, root, a),
        a.to_multiset() == b.to_multiset(),
    ensures
        valid_caps(sc, root, b),
{
    broadcast use vstd::seq_lib::group_to_multiset_ensures;

    assert forall|i: int, j: int|
        0 <= i < b.len() && 0 <= j < b.len() && i != j implies #[trigger] compatible(b[i], b[j]) by {
        let (x, y) = lemma_twice(b, a, i, j);
        assert(compatible(a[x], a[y]));
    }
    assert forall|i: int| 0 <= i < b.len() implies valid_part(sc, root, #[trigger] b[i].0) by {
        assert(b.to_multiset().count(b[i]) > 0);
        assert(a.contains(b[i]));
    }
}

/// Compatibility between two lists does not depend on the order of either.
pub proof fn lemma_lists_compatible_reordered(a: Seq<CapView>, b: Seq<CapView>, r: Seq<CapView>)
    requires
        lists_compatible(a, r),
        a.to_multiset() == b.to_multiset(),
    ensures
        lists_compatible(b, r),
{
    broadcast use vstd::seq_lib::group_to_multiset_ensures;

    assert forall|i: int, j: int| 0 <= i < b.len() && 0 <= j < r.len() implies #[trigger] compatible(
        b[i],
        r[j],
    ) by {
        assert(b.to_multiset().count(b[i]) > 0);
        assert(a.contains(b[i]));
        let k = choose|k: int| 0 <= k < a.len() && a[k] == b[i];
        assert(compatible(a[k], r[j]));
    }
}

} // verus!

