use vstd::prelude::*;
use crate::part::{
    caps_compatible, compatible, covers, granted_by, is_prefix, list_covered, lists_compatible, overlap,
    CapView, Mode,
};
use crate::layout::{
    decl_at, field_at, index_of, lemma_record_at_valid, offset_at, parts_of, record_at,
    decls_disjoint, record_count, record_wf, schema_wf, valid_part, Schema,
};
use crate::order::{
    lemma_canonical, canonical, lemma_canonical_exists, lemma_canonical_reorder, lemma_outer_first, lemma_twice,
};
use crate::algebra::{
    covered_once, lemma_narrow_single, narrow_to, first_cover, lemma_first_cover, lemma_narrow_sound, lemma_pluck_sound, lemma_pluck_succeeds,
    local_pluck, narrow, pluck, splice, valid_caps,
};

verus! {

/// Two handles split from one never conflict. Whatever capabilities are requested from a
/// conflict-free list, if the narrowing succeeds, the requests (in matching order) and the
/// remainder are each free of conflicts, every exclusive capability of either is disjoint from
/// every capability of the other, and the source grants everything that either holds.
pub proof fn law_split_disjoint(sc: Schema, root: int, caps: Seq<CapView>, req: Seq<CapView>)
    requires
        schema_wf(sc),
        0 <= root < record_count(sc),
        valid_caps(sc, root, caps),
        narrow_to(sc, root, caps, req) is Ok,
    ensures
        canonical(req).to_multiset() == req.to_multiset(),
        caps_compatible(canonical(req)),
        caps_compatible(narrow_to(sc, root, caps, req)->Ok_0),
        lists_compatible(canonical(req), narrow_to(sc, root, caps, req)->Ok_0),
        list_covered(caps, canonical(req)),
        list_covered(caps, narrow_to(sc, root, caps, req)->Ok_0),
{
    lemma_canonical_exists(req);
    lemma_narrow_sound(sc, root, caps, canonical(req));
}

/// The order of the requests does not matter: narrowing to any reordering of `req` succeeds or
/// fails alike, with the same remainder or the same refused request.
pub proof fn law_narrow_order_independent(
    sc: Schema,
    root: int,
    caps: Seq<CapView>,
    r1: Seq<CapView>,
    r2: Seq<CapView>,
)
    requires
        r1.to_multiset() == r2.to_multiset(),
    ensures
        narrow_to(sc, root, caps, r1) == narrow_to(sc, root, caps, r2),
{
    lemma_canonical_reorder(r1, r2);
}

/// Requests for a part are matched before requests for the parts nested in it: in matching
/// order, an entry whose part contains another entry's part comes first.
pub proof fn law_outer_matched_first(req: Seq<CapView>, i: int, j: int)
    requires
        0 <= i < canonical(req).len(),
        0 <= j < canonical(req).len(),
        is_prefix(canonical(req)[i].0, canonical(req)[j].0),
        canonical(req)[i].0 != canonical(req)[j].0,
    ensures
        i < j,
{
    lemma_canonical_exists(req);
    lemma_outer_first(canonical(req), i, j);
}

/// In a conflict-free list, the first capability whose part contains the part of an exclusive
/// capability is that capability.
proof fn lemma_exclusive_found_first(caps: Seq<CapView>, k: int)
    requires
        caps_compatible(caps),
        0 <= k < caps.len(),
        caps[k].1 == Mode::Exclusive,
    ensures
        first_cover(caps, caps[k].0) == k,
{
    let p = caps[k].0;
    assert forall|j: int| 0 <= j < k implies !is_prefix(#[trigger] caps[j].0, p) by {
        assert(compatible(caps[j], caps[k]));
    }
    lemma_first_cover(caps, p, k);
}

/// Lending an exclusive part as shared downgrades it: taking `caps[k]`'s part out as shared
/// succeeds and leaves the part in place as shared, and the remainder then refuses to lend the
/// part as exclusive.
pub proof fn law_shared_downgrade(sc: Schema, root: int, caps: Seq<CapView>, k: int)
    requires
        valid_caps(sc, root, caps),
        0 <= k < caps.len(),
        caps[k].1 == Mode::Exclusive,
    ensures
        pluck(sc, root, caps, caps[k].0, Mode::Shared) == Some(
            caps.update(k, (caps[k].0, Mode::Shared)),
        ),
        pluck(sc, root, caps.update(k, (caps[k].0, Mode::Shared)), caps[k].0, Mode::Exclusive)
            is None,
{
    let p = caps[k].0;
    lemma_exclusive_found_first(caps, k);
    assert forall|j: int| k < j < caps.len() implies !is_prefix(#[trigger] caps[j].0, p) by {
        assert(compatible(caps[j], caps[k]));
    }
    let rem = caps.update(k, (p, Mode::Shared));
    assert(local_pluck(sc, root, caps[k], p, Mode::Shared) == Some(seq![(p, Mode::Shared)]));
    assert(splice(caps, k, seq![(p, Mode::Shared)]) =~= rem);
    assert forall|j: int| 0 <= j < k implies !is_prefix(#[trigger] rem[j].0, p) by {
        assert(rem[j] == caps[j]);
        assert(compatible(caps[j], caps[k]));
    }
    lemma_first_cover(rem, p, k);
}

/// Following a path through a record type is following its first part, then the rest inside
/// the record type reached.
pub proof fn lemma_record_at_concat(sc: Schema, root: int, outer: Seq<u64>, inner: Seq<u64>)
    ensures
        record_at(sc, root, outer + inner) == match record_at(sc, root, outer) {
            Some(s) => record_at(sc, s, inner),
            None => None,
        },
    decreases inner.len(),
{
    if inner.len() == 0 {
        assert(outer + inner =~= outer);
    } else {
        lemma_record_at_concat(sc, root, outer, inner.drop_last());
        assert((outer + inner).drop_last() =~= outer + inner.drop_last());
        assert((outer + inner).last() == inner.last());
    }
}

/// A nested part exists exactly when its outer part is a field of record type that has the
/// inner part.
pub proof fn lemma_valid_nested(sc: Schema, root: int, outer: Seq<u64>, inner: Seq<u64>)
    requires
        inner.len() > 0,
    ensures
        valid_part(sc, root, outer + inner) <==> (record_at(sc, root, outer) matches Some(s)
            && valid_part(sc, s, inner)),
{
    lemma_record_at_concat(sc, root, outer, inner.drop_last());
    assert((outer + inner).drop_last() =~= outer + inner.drop_last());
    assert((outer + inner).last() == inner.last());
}

/// Requesting a nested part exclusively: it succeeds exactly when the list grants the nested
/// part exclusively (through the outer part, through a part that contains it, or through the
/// nested part itself) and the outer part's record type has the inner part.
pub proof fn law_nested_exclusive(
    sc: Schema,
    root: int,
    caps: Seq<CapView>,
    outer: Seq<u64>,
    inner: Seq<u64>,
)
    requires
        schema_wf(sc),
        0 <= root < record_count(sc),
        valid_caps(sc, root, caps),
        inner.len() > 0,
    ensures
        pluck(sc, root, caps, outer + inner, Mode::Exclusive) is Some <==> {
            &&& granted_by(caps, (outer + inner, Mode::Exclusive))
            &&& record_at(sc, root, outer) matches Some(s)
            &&& valid_part(sc, s, inner)
        },
{
    lemma_valid_nested(sc, root, outer, inner);
    if pluck(sc, root, caps, outer + inner, Mode::Exclusive) is Some {
        lemma_pluck_sound(sc, root, caps, outer + inner, Mode::Exclusive);
    }
    if granted_by(caps, (outer + inner, Mode::Exclusive)) && valid_part(sc, root, outer + inner) {
        lemma_pluck_succeeds(sc, root, caps, outer + inner, Mode::Exclusive);
    }
}

/// Overlapping requests of which one is exclusive are refused together: narrowing to requests
/// that hold two such entries fails, whatever the source list and the order of the requests.
/// Asking for a nested part and for its outer part, one of them exclusively, is one case.
pub proof fn law_overlap_rejected(
    sc: Schema,
    root: int,
    caps: Seq<CapView>,
    req: Seq<CapView>,
    a: int,
    b: int,
)
    requires
        schema_wf(sc),
        0 <= root < record_count(sc),
        valid_caps(sc, root, caps),
        0 <= a < req.len(),
        0 <= b < req.len(),
        a != b,
        overlap(req[a].0, req[b].0),
        req[a].1 == Mode::Exclusive,
    ensures
        narrow_to(sc, root, caps, req) is Err,
{
    if narrow_to(sc, root, caps, req) is Ok {
        lemma_canonical_exists(req);
        let c = canonical(req);
        lemma_narrow_sound(sc, root, caps, c);
        let (i, j) = lemma_twice(req, c, a, b);
        assert(compatible(c[i], c[j]));
    }
}

/// Part `p` is requested by some entry of `req`.
pub open spec fn requested(req: Seq<CapView>, p: Seq<u64>) -> bool {
    exists|j: int| 0 <= j < req.len() && (#[trigger] req[j]).0 == p
}

/// No two capabilities of the list overlap.
pub open spec fn parts_disjoint(caps: Seq<CapView>) -> bool {
    forall|i: int, j: int|
        0 <= i < caps.len() && 0 <= j < caps.len() && i != j ==> !overlap(
            #[trigger] caps[i].0,
            #[trigger] caps[j].0,
        )
}

} // verus!

verus! {

/// The cells of field part `p` of a record of type `root`, as offsets from the record:
/// `[start, end)`.
pub open spec fn region_start(sc: Schema, root: int, p: Seq<u64>) -> int {
    offset_at(sc, root, p)
}

/// The end of the cells of field part `p` (see `region_start`).
pub open spec fn region_end(sc: Schema, root: int, p: Seq<u64>) -> int {
    offset_at(sc, root, p) + field_at(sc, root, p).unwrap().len
}

/// A field part lies within the field named by each of its prefixes.
proof fn lemma_region_within(sc: Schema, root: int, p: Seq<u64>, k: int)
    requires
        schema_wf(sc),
        0 <= root < record_count(sc),
        field_at(sc, root, p) is Some,
        1 <= k <= p.len(),
    ensures
        field_at(sc, root, p.take(k)) is Some,
        region_start(sc, root, p.take(k)) <= region_start(sc, root, p),
        region_end(sc, root, p) <= region_end(sc, root, p.take(k)),
    decreases p.len() - k,
{
    if k == p.len() {
        assert(p.take(k) =~= p);
    } else {
        let q = p.drop_last();
        let s = record_at(sc, root, q).unwrap();
        lemma_record_at_valid(sc, root, q);
        let t = record_at(sc, root, q.drop_last()).unwrap();
        lemma_record_at_valid(sc, root, q.drop_last());
        let dq = decl_at(sc, root, q).unwrap();
        assert(record_wf(sc, t));
        let iq = index_of(parts_of(sc, t), q.last());
        assert(parts_of(sc, t)[iq] == dq);
        assert(record_wf(sc, s));
        let ip = index_of(parts_of(sc, s), p.last());
        assert(parts_of(sc, s)[ip] == decl_at(sc, root, p).unwrap());
        lemma_region_within(sc, root, q, k);
        assert(q.take(k) =~= p.take(k));
    }
}

/// Two parts that do not overlap differ at a position where they agree on everything before.
proof fn lemma_first_difference(x: Seq<u64>, y: Seq<u64>, i: int) -> (k: int)
    requires
        !overlap(x, y),
        0 <= i <= x.len(),
        i <= y.len(),
        forall|j: int| 0 <= j < i ==> x[j] == y[j],
    ensures
        i <= k < x.len(),
        k < y.len(),
        x[k] != y[k],
        forall|j: int| 0 <= j < k ==> x[j] == y[j],
    decreases x.len() - i,
{
    if i == x.len() {
        assert(is_prefix(x, y));
        i
    } else if i == y.len() {
        assert(is_prefix(y, x));
        i
    } else if x[i] != y[i] {
        i
    } else {
        lemma_first_difference(x, y, i + 1)
    }
}

/// Field parts that do not overlap occupy disjoint cells.
pub proof fn lemma_disjoint_parts_disjoint_cells(sc: Schema, root: int, x: Seq<u64>, y: Seq<u64>)
    requires
        schema_wf(sc),
        0 <= root < record_count(sc),
        !overlap(x, y),
        field_at(sc, root, x) is Some,
        field_at(sc, root, y) is Some,
    ensures
        region_end(sc, root, x) <= region_start(sc, root, y) || region_end(sc, root, y)
            <= region_start(sc, root, x),
{
    let k = lemma_first_difference(x, y, 0);
    let common = x.take(k);
    assert(y.take(k) =~= common);
    let xs = x.take(k + 1);
    let ys = y.take(k + 1);
    assert(xs.drop_last() =~= common);
    assert(ys.drop_last() =~= common);
    lemma_region_within(sc, root, x, k + 1);
    lemma_region_within(sc, root, y, k + 1);
    let t = record_at(sc, root, common).unwrap();
    lemma_record_at_valid(sc, root, common);
    assert(record_wf(sc, t));
    let i1 = index_of(parts_of(sc, t), x[k]);
    let i2 = index_of(parts_of(sc, t), y[k]);
    assert(decl_at(sc, root, xs) == Some(parts_of(sc, t)[i1]));
    assert(decl_at(sc, root, ys) == Some(parts_of(sc, t)[i2]));
    assert(i1 != i2);
    assert(decls_disjoint(parts_of(sc, t)[i1], parts_of(sc, t)[i2]));
}

/// Handles split from one another never reach the same cell where one of them may write: once a
/// conflict-free list is narrowed, a field that one side holds exclusively and any field that the
/// other side holds occupy disjoint cells.
pub proof fn law_split_fields_disjoint(
    sc: Schema,
    root: int,
    caps: Seq<CapView>,
    req: Seq<CapView>,
    a: int,
    b: int,
)
    requires
        schema_wf(sc),
        0 <= root < record_count(sc),
        valid_caps(sc, root, caps),
        narrow(sc, root, caps, req) is Ok,
        0 <= a < req.len(),
        0 <= b < narrow(sc, root, caps, req)->Ok_0.len(),
        req[a].1 == Mode::Exclusive || narrow(sc, root, caps, req)->Ok_0[b].1 == Mode::Exclusive,
        field_at(sc, root, req[a].0) is Some,
        field_at(sc, root, narrow(sc, root, caps, req)->Ok_0[b].0) is Some,
    ensures
        ({
            let x = req[a].0;
            let y = narrow(sc, root, caps, req)->Ok_0[b].0;
            region_end(sc, root, x) <= region_start(sc, root, y) || region_end(sc, root, y)
                <= region_start(sc, root, x)
        }),
{
    lemma_narrow_sound(sc, root, caps, req);
    let rem = narrow(sc, root, caps, req)->Ok_0;
    assert(compatible(req[a], rem[b]));
    lemma_disjoint_parts_disjoint_cells(sc, root, req[a].0, rem[b].0);
}

} // verus!

verus! {

/// Resolving a nested part composes the two resolutions: the part that `outer ++ inner` names in
/// a record of type `root` is the part that `inner` names in the record type of field `outer`,
/// with the shape it has there, and its offset is the sum of the two offsets.
pub proof fn law_nested_resolution(sc: Schema, root: int, outer: Seq<u64>, inner: Seq<u64>)
    requires
        inner.len() > 0,
        record_at(sc, root, outer) is Some,
    ensures
        decl_at(sc, root, outer + inner) == decl_at(
            sc,
            record_at(sc, root, outer).unwrap(),
            inner,
        ),
        offset_at(sc, root, outer + inner) == offset_at(sc, root, outer) + offset_at(
            sc,
            record_at(sc, root, outer).unwrap(),
            inner,
        ),
    decreases inner.len(),
{
    let s = record_at(sc, root, outer).unwrap();
    lemma_record_at_concat(sc, root, outer, inner.drop_last());
    assert((outer + inner).drop_last() =~= outer + inner.drop_last());
    assert((outer + inner).last() == inner.last());
    if inner.len() == 1 {
        assert(outer + inner.drop_last() =~= outer);
        assert(inner.drop_last() =~= Seq::<u64>::empty());
        assert(offset_at(sc, s, inner.drop_last()) == 0);
    } else {
        law_nested_resolution(sc, root, outer, inner.drop_last());
    }
}

} // verus!

verus! {

/// Some entry of `req` is exactly `x`.
pub open spec fn requested_as(req: Seq<CapView>, x: CapView) -> bool {
    exists|j: int| 0 <= j < req.len() && #[trigger] req[j] == x
}

/// What becomes of capability `c` once the requests `req` of parts disjoint from one another are
/// taken out: nothing if its part is requested exclusively, the part as shared if it is
/// requested as shared, `c` itself otherwise.
pub open spec fn after_requests(c: CapView, req: Seq<CapView>) -> Seq<CapView> {
    if requested_as(req, (c.0, Mode::Exclusive)) {
        Seq::empty()
    } else if requested(req, c.0) {
        seq![(c.0, Mode::Shared)]
    } else {
        seq![c]
    }
}

/// What each capability of `caps` becomes, in order.
pub open spec fn remaining(caps: Seq<CapView>, req: Seq<CapView>) -> Seq<CapView>
    decreases caps.len(),
{
    if caps.len() == 0 {
        Seq::empty()
    } else {
        after_requests(caps[0], req) + remaining(caps.drop_first(), req)
    }
}

/// No part is requested twice.
pub open spec fn parts_once(req: Seq<CapView>) -> bool {
    forall|i: int, j: int|
        0 <= i < req.len() && 0 <= j < req.len() && i != j ==> (#[trigger] req[i]).0 != (
        #[trigger] req[j]).0
}

/// Each request names the part of one capability of `caps`, exclusively only where that
/// capability is exclusive.
pub open spec fn requests_fit(caps: Seq<CapView>, req: Seq<CapView>) -> bool {
    forall|j: int|
        0 <= j < req.len() ==> exists|i: int|
            0 <= i < caps.len() && caps[i].0 == (#[trigger] req[j]).0 && (req[j].1
                == Mode::Exclusive ==> caps[i].1 == Mode::Exclusive)
}

/// Lists whose entries become the same become the same list.
proof fn lemma_remaining_pointwise(
    s1: Seq<CapView>,
    r1: Seq<CapView>,
    s2: Seq<CapView>,
    r2: Seq<CapView>,
)
    requires
        s1.len() == s2.len(),
        forall|i: int| 0 <= i < s1.len() ==> after_requests(s1[i], r1) == after_requests(
            #[trigger] s2[i],
            r2,
        ),
    ensures
        remaining(s1, r1) == remaining(s2, r2),
    decreases s1.len(),
{
    if s1.len() > 0 {
        assert(after_requests(s1[0], r1) == after_requests(s2[0], r2));
        assert forall|i: int| 0 <= i < s1.drop_first().len() implies after_requests(
            s1.drop_first()[i],
            r1,
        ) == after_requests(#[trigger] s2.drop_first()[i], r2) by {
            assert(s1.drop_first()[i] == s1[i + 1]);
            assert(s2.drop_first()[i] == s2[i + 1]);
        }
        lemma_remaining_pointwise(s1.drop_first(), r1, s2.drop_first(), r2);
    }
}

/// An entry that becomes nothing can be left out.
proof fn lemma_remaining_remove(s: Seq<CapView>, r: Seq<CapView>, k: int)
    requires
        0 <= k < s.len(),
        after_requests(s[k], r) == Seq::<CapView>::empty(),
    ensures
        remaining(s, r) == remaining(s.remove(k), r),
    decreases k,
{
    if k == 0 {
        assert(s.remove(0) =~= s.drop_first());
        assert(remaining(s, r) =~= remaining(s.drop_first(), r));
    } else {
        assert(s.drop_first()[k - 1] == s[k]);
        lemma_remaining_remove(s.drop_first(), r, k - 1);
        assert(s.drop_first().remove(k - 1) =~= s.remove(k).drop_first());
        assert(s.remove(k)[0] == s[0]);
    }
}

/// Every capability of an all-shared narrowing stays, so the remainder is as long as the list.
proof fn lemma_remaining_len(s: Seq<CapView>, r: Seq<CapView>)
    requires
        forall|j: int| 0 <= j < r.len() ==> (#[trigger] r[j]).1 == Mode::Shared,
    ensures
        remaining(s, r).len() == s.len(),
    decreases s.len(),
{
    if s.len() > 0 {
        assert(!requested_as(r, (s[0].0, Mode::Exclusive)));
        lemma_remaining_len(s.drop_first(), r);
    }
}

/// Narrowing in the order given: the remainder is what each capability becomes.
proof fn lemma_narrow_remaining(sc: Schema, root: int, caps: Seq<CapView>, req: Seq<CapView>)
    requires
        valid_caps(sc, root, caps),
        parts_disjoint(caps),
        parts_once(req),
        requests_fit(caps, req),
    ensures
        narrow(sc, root, caps, req) == Ok::<Seq<CapView>, int>(remaining(caps, req)),
    decreases req.len(),
{
    if req.len() == 0 {
        assert forall|i: int| 0 <= i < caps.len() implies after_requests(caps[i], req) == seq![
            #[trigger] caps[i],
        ] by {}
        lemma_remaining_identity(caps, req);
    } else {
        let q = req[0];
        let p = q.0;
        let tail = req.drop_first();
        let k = choose|i: int|
            0 <= i < caps.len() && caps[i].0 == (#[trigger] req[0]).0 && (req[0].1
                == Mode::Exclusive ==> caps[i].1 == Mode::Exclusive);
        assert forall|j: int| 0 <= j < k implies !is_prefix(#[trigger] caps[j].0, p) by {}
        assert forall|j: int| k < j < caps.len() implies !is_prefix(#[trigger] caps[j].0, p) by {}
        lemma_first_cover(caps, p, k);
        let mid = if q.1 == Mode::Shared {
            seq![(p, Mode::Shared)]
        } else {
            Seq::<CapView>::empty()
        };
        let c1 = splice(caps, k, mid);
        assert(pluck(sc, root, caps, p, q.1) == Some(c1));
        // The requests after the first never name its part.
        assert forall|j: int| 0 <= j < tail.len() implies (#[trigger] tail[j]).0 != p by {
            assert(tail[j] == req[j + 1]);
        }
        // What `c1` holds, position by position.
        assert forall|i: int| 0 <= i < c1.len() implies (#[trigger] c1[i]) == if q.1
            == Mode::Shared {
            if i == k {
                (p, Mode::Shared)
            } else {
                caps[i]
            }
        } else {
            if i < k {
                caps[i]
            } else {
                caps[i + 1]
            }
        } by {}
        assert(c1.len() == if q.1 == Mode::Shared {
            caps.len() as int
        } else {
            caps.len() - 1
        });
        assert(valid_caps(sc, root, c1)) by {
            assert forall|a: int, b: int|
                0 <= a < c1.len() && 0 <= b < c1.len() && a != b implies #[trigger] compatible(
                c1[a],
                c1[b],
            ) by {
                let sa = if q.1 == Mode::Shared || a < k {
                    a
                } else {
                    a + 1
                };
                let sb = if q.1 == Mode::Shared || b < k {
                    b
                } else {
                    b + 1
                };
                assert(!overlap(caps[sa].0, caps[sb].0));
            }
            assert forall|a: int| 0 <= a < c1.len() implies valid_part(
                sc,
                root,
                #[trigger] c1[a].0,
            ) by {
                let sa = if q.1 == Mode::Shared || a < k {
                    a
                } else {
                    a + 1
                };
                assert(c1[a].0 == caps[sa].0);
            }
        }
        assert(parts_disjoint(c1)) by {
            assert forall|a: int, b: int|
                0 <= a < c1.len() && 0 <= b < c1.len() && a != b implies !overlap(
                #[trigger] c1[a].0,
                #[trigger] c1[b].0,
            ) by {
                let sa = if q.1 == Mode::Shared || a < k {
                    a
                } else {
                    a + 1
                };
                let sb = if q.1 == Mode::Shared || b < k {
                    b
                } else {
                    b + 1
                };
                assert(!overlap(caps[sa].0, caps[sb].0));
            }
        }
        assert(parts_once(tail)) by {
            assert forall|a: int, b: int|
                0 <= a < tail.len() && 0 <= b < tail.len() && a != b implies (
                #[trigger] tail[a]).0 != (#[trigger] tail[b]).0 by {
                assert(tail[a] == req[a + 1] && tail[b] == req[b + 1]);
            }
        }
        assert(requests_fit(c1, tail)) by {
            assert forall|j: int| 0 <= j < tail.len() implies exists|i: int|
                0 <= i < c1.len() && c1[i].0 == (#[trigger] tail[j]).0 && (tail[j].1
                    == Mode::Exclusive ==> c1[i].1 == Mode::Exclusive) by {
                assert(tail[j] == req[j + 1]);
                let i = choose|i: int|
                    0 <= i < caps.len() && caps[i].0 == (#[trigger] req[j + 1]).0 && (req[j
                        + 1].1 == Mode::Exclusive ==> caps[i].1 == Mode::Exclusive);
                assert(i != k);
                let ci = if q.1 == Mode::Shared || i < k {
                    i
                } else {
                    i - 1
                };
                assert(c1[ci] == caps[i]);
            }
        }
        lemma_narrow_remaining(sc, root, c1, tail);
        // Each capability becomes the same under the remaining requests as under all of them.
        assert(requested_as(req, q));
        if q.1 == Mode::Shared {
            assert forall|i: int| 0 <= i < c1.len() implies after_requests(c1[i], tail)
                == after_requests(#[trigger] caps[i], req) by {
                if i == k {
                    assert(requested(req, p));
                    assert(!requested(tail, p));
                    assert(!requested_as(tail, (p, Mode::Exclusive)));
                    assert(!requested_as(req, (p, Mode::Exclusive))) by {
                        if requested_as(req, (p, Mode::Exclusive)) {
                            let j = choose|j: int|
                                0 <= j < req.len() && #[trigger] req[j] == (p, Mode::Exclusive);
                            assert(j != 0);
                        }
                    }
                } else {
                    assert(caps[i].0 != p);
                    lemma_after_tail(caps[i], req);
                }
            }
            lemma_remaining_pointwise(c1, tail, caps, req);
        } else {
            assert(after_requests(caps[k], req) == Seq::<CapView>::empty());
            lemma_remaining_remove(caps, req, k);
            assert(caps.remove(k) =~= c1);
            assert forall|i: int| 0 <= i < c1.len() implies after_requests(c1[i], tail)
                == after_requests(#[trigger] c1[i], req) by {
                let si = if i < k {
                    i
                } else {
                    i + 1
                };
                assert(c1[i] == caps[si]);
                assert(caps[si].0 != p);
                lemma_after_tail(c1[i], req);
            }
            lemma_remaining_pointwise(c1, tail, c1, req);
        }
    }
}

/// Without requests every capability stays as it is.
proof fn lemma_remaining_identity(s: Seq<CapView>, r: Seq<CapView>)
    requires
        forall|i: int| 0 <= i < s.len() ==> after_requests(#[trigger] s[i], r) == seq![s[i]],
    ensures
        remaining(s, r) == s,
    decreases s.len(),
{
    if s.len() > 0 {
        assert forall|i: int| 0 <= i < s.drop_first().len() implies after_requests(
            #[trigger] s.drop_first()[i],
            r,
        ) == seq![s.drop_first()[i]] by {
            assert(s.drop_first()[i] == s[i + 1]);
        }
        lemma_remaining_identity(s.drop_first(), r);
        assert(after_requests(s[0], r) == seq![s[0]]);
        assert(seq![s[0]] + s.drop_first() =~= s);
    }
}

/// A capability whose part the first request does not name becomes the same under the other
/// requests.
proof fn lemma_after_tail(c: CapView, req: Seq<CapView>)
    requires
        req.len() > 0,
        c.0 != req[0].0,
    ensures
        after_requests(c, req.drop_first()) == after_requests(c, req),
{
    let tail = req.drop_first();
    if requested_as(req, (c.0, Mode::Exclusive)) {
        let j = choose|j: int| 0 <= j < req.len() && #[trigger] req[j] == (c.0, Mode::Exclusive);
        assert(tail[j - 1] == req[j]);
    }
    if requested(req, c.0) {
        let j = choose|j: int| 0 <= j < req.len() && (#[trigger] req[j]).0 == c.0;
        assert(tail[j - 1] == req[j]);
    }
    if requested_as(tail, (c.0, Mode::Exclusive)) {
        let j = choose|j: int| 0 <= j < tail.len() && #[trigger] tail[j] == (c.0, Mode::Exclusive);
        assert(req[j + 1] == tail[j]);
    }
    if requested(tail, c.0) {
        let j = choose|j: int| 0 <= j < tail.len() && (#[trigger] tail[j]).0 == c.0;
        assert(req[j + 1] == tail[j]);
    }
}

/// Narrowing a list of pairwise disjoint parts to requests of some of those parts, each named
/// once, in any order: it succeeds exactly when no part is requested exclusively from a shared
/// capability, and the remainder then keeps the list's order, drops each part requested
/// exclusively, downgrades each part requested as shared, and keeps the others as they were.
/// With shared requests only, the remainder has as many entries as the list.
pub proof fn law_remainder_exact(sc: Schema, root: int, caps: Seq<CapView>, req: Seq<CapView>)
    requires
        valid_caps(sc, root, caps),
        parts_disjoint(caps),
        parts_once(req),
        requests_fit(caps, req),
    ensures
        narrow_to(sc, root, caps, req) == Ok::<Seq<CapView>, CapView>(remaining(caps, req)),
        (forall|j: int| 0 <= j < req.len() ==> (#[trigger] req[j]).1 == Mode::Shared) ==> remaining(
            caps,
            req,
        ).len() == caps.len(),
{
    broadcast use vstd::seq_lib::group_to_multiset_ensures;

    lemma_canonical_exists(req);
    let c = canonical(req);
    // The matching order holds the same requests.
    assert forall|x: CapView| #[trigger] c.contains(x) <==> req.contains(x) by {
        assert(c.to_multiset().count(x) == req.to_multiset().count(x));
    }
    assert(parts_once(c)) by {
        assert forall|a: int, b: int|
            0 <= a < c.len() && 0 <= b < c.len() && a != b implies (#[trigger] c[a]).0 != (
            #[trigger] c[b]).0 by {
            if c[a].0 == c[b].0 {
                let (i, j) = lemma_twice(c, req, a, b);
                assert(req[i].0 == req[j].0);
            }
        }
    }
    assert(requests_fit(caps, c)) by {
        assert forall|j: int| 0 <= j < c.len() implies exists|i: int|
            0 <= i < caps.len() && caps[i].0 == (#[trigger] c[j]).0 && (c[j].1 == Mode::Exclusive
                ==> caps[i].1 == Mode::Exclusive) by {
            assert(c.contains(c[j]));
            let l = choose|l: int| 0 <= l < req.len() && req[l] == c[j];
            assert(req[l] == c[j]);
        }
    }
    lemma_narrow_remaining(sc, root, caps, c);
    assert forall|i: int| 0 <= i < caps.len() implies after_requests(caps[i], c) == after_requests(
        #[trigger] caps[i],
        req,
    ) by {
        let x = caps[i];
        let ex = (x.0, Mode::Exclusive);
        if requested_as(c, ex) {
            let j = choose|j: int| 0 <= j < c.len() && #[trigger] c[j] == ex;
            assert(c.contains(c[j]));
            assert(req.contains(ex));
        }
        if requested_as(req, ex) {
            let j = choose|j: int| 0 <= j < req.len() && #[trigger] req[j] == ex;
            assert(req.contains(req[j]));
            assert(c.contains(ex));
        }
        if requested(c, x.0) {
            let j = choose|j: int| 0 <= j < c.len() && (#[trigger] c[j]).0 == x.0;
            assert(c.contains(c[j]));
            let l = choose|l: int| 0 <= l < req.len() && req[l] == c[j];
            assert(req[l].0 == x.0);
        }
        if requested(req, x.0) {
            let j = choose|j: int| 0 <= j < req.len() && (#[trigger] req[j]).0 == x.0;
            assert(req.contains(req[j]));
            assert(c.contains(req[j]));
            let l = choose|l: int| 0 <= l < c.len() && c[l] == req[j];
            assert(c[l].0 == x.0);
        }
    }
    lemma_remaining_pointwise(caps, c, caps, req);
    if forall|j: int| 0 <= j < req.len() ==> (#[trigger] req[j]).1 == Mode::Shared {
        lemma_remaining_len(caps, req);
    }
}

} // verus!


verus! {

/// Opaque parts are bookkeeping only: an opaque part names no field, so no operation that gives
/// access (`part`, `part_mut`, `split_part`, `split_part_mut`, which all need a field) applies to
/// it, and `part_ptr` gives it no address; nor can any part be nested inside it.
pub proof fn law_opaque_no_address(sc: Schema, root: int, p: Seq<u64>, inner: Seq<u64>)
    requires
        decl_at(sc, root, p) matches Some(d) && d.shape is Abstract,
        inner.len() > 0,
    ensures
        field_at(sc, root, p) is None,
        !valid_part(sc, root, p + inner),
{
    assert(record_at(sc, root, p) is None);
    lemma_valid_nested(sc, root, p, inner);
}

} // verus!

verus! {

/// Opaque parts are narrowed like any other part: a held capability over an opaque part can be
/// requested again, as shared, or as exclusive where it is held exclusively, and the narrowing
/// succeeds (the part must be contained in just one held capability, else the match is
/// ambiguous). Nothing in the narrowing resolves an address.
pub proof fn law_opaque_narrowed(sc: Schema, root: int, caps: Seq<CapView>, k: int, m: Mode)
    requires
        schema_wf(sc),
        0 <= root < record_count(sc),
        valid_caps(sc, root, caps),
        0 <= k < caps.len(),
        decl_at(sc, root, caps[k].0) matches Some(d) && d.shape is Abstract,
        m == Mode::Shared || caps[k].1 == Mode::Exclusive,
        m == Mode::Exclusive || covered_once(caps, caps[k].0),
    ensures
        narrow_to(sc, root, caps, seq![(caps[k].0, m)]) is Ok,
{
    let one = seq![(caps[k].0, m)];
    lemma_canonical(one, one);
    lemma_narrow_single(sc, root, caps, (caps[k].0, m));
    assert(covers(caps[k], (caps[k].0, m)));
    lemma_pluck_succeeds(sc, root, caps, caps[k].0, m);
}

} // verus!
