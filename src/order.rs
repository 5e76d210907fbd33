use vstd::prelude::*;
use crate::part::{caps_view, is_prefix, Capability, CapView, Mode, Nested};

verus! {

broadcast use vstd::seq_lib::group_to_multiset_ensures;

/// Lexicographic order on parts: a part comes before every part nested in it.
pub open spec fn path_le(a: Seq<u64>, b: Seq<u64>) -> bool
    decreases a.len(),
{
    if a.len() == 0 {
        true
    } else if b.len() == 0 {
        false
    } else if a[0] != b[0] {
        a[0] < b[0]
    } else {
        path_le(a.drop_first(), b.drop_first())
    }
}

pub open spec fn mode_rank(m: Mode) -> int {
    match m {
        Mode::Exclusive => 0,
        Mode::Shared => 1,
    }
}

/// The order in which requests are matched: by part, then exclusive before shared.
pub open spec fn cap_le(x: CapView, y: CapView) -> bool {
    if x.0 == y.0 {
        mode_rank(x.1) <= mode_rank(y.1)
    } else {
        path_le(x.0, y.0)
    }
}

pub open spec fn sorted_caps(s: Seq<CapView>) -> bool {
    forall|i: int, j: int| 0 <= i < j < s.len() ==> #[trigger] cap_le(s[i], s[j])
}

/// The requests `req` in matching order. Every reordering of `req` gives the same list.
pub open spec fn canonical(req: Seq<CapView>) -> Seq<CapView> {
    choose|s: Seq<CapView>| sorted_caps(s) && s.to_multiset() == req.to_multiset()
}

pub proof fn lemma_path_le_antisym(a: Seq<u64>, b: Seq<u64>)
    requires
        path_le(a, b),
        path_le(b, a),
    ensures
        a == b,
    decreases a.len(),
{
    if a.len() > 0 && b.len() > 0 && a[0] == b[0] {
        lemma_path_le_antisym(a.drop_first(), b.drop_first());
        assert(a =~= seq![a[0]] + a.drop_first());
        assert(b =~= seq![b[0]] + b.drop_first());
    } else {
        assert(a =~= b);
    }
}

pub proof fn lemma_path_le_total(a: Seq<u64>, b: Seq<u64>)
    ensures
        path_le(a, b) || path_le(b, a),
    decreases a.len(),
{
    if a.len() > 0 && b.len() > 0 && a[0] == b[0] {
        lemma_path_le_total(a.drop_first(), b.drop_first());
    }
}

pub proof fn lemma_path_le_trans(a: Seq<u64>, b: Seq<u64>, c: Seq<u64>)
    requires
        path_le(a, b),
        path_le(b, c),
    ensures
        path_le(a, c),
    decreases a.len(),
{
    if a.len() > 0 && b.len() > 0 && c.len() > 0 && a[0] == b[0] && b[0] == c[0] {
        lemma_path_le_trans(a.drop_first(), b.drop_first(), c.drop_first());
    }
}

/// A part comes before the parts nested in it.
pub proof fn lemma_prefix_path_le(a: Seq<u64>, b: Seq<u64>)
    requires
        is_prefix(a, b),
    ensures
        path_le(a, b),
    decreases a.len(),
{
    if a.len() > 0 {
        lemma_prefix_path_le(a.drop_first(), b.drop_first());
    }
}

pub proof fn lemma_cap_le_total(x: CapView, y: CapView)
    ensures
        cap_le(x, y) || cap_le(y, x),
{
    lemma_path_le_total(x.0, y.0);
}

pub proof fn lemma_cap_le_antisym(x: CapView, y: CapView)
    requires
        cap_le(x, y),
        cap_le(y, x),
    ensures
        x == y,
{
    if x.0 != y.0 {
        lemma_path_le_antisym(x.0, y.0);
    }
}

pub proof fn lemma_cap_le_trans(x: CapView, y: CapView, z: CapView)
    requires
        cap_le(x, y),
        cap_le(y, z),
    ensures
        cap_le(x, z),
{
    if x.0 != y.0 && y.0 != z.0 {
        lemma_path_le_trans(x.0, y.0, z.0);
        if x.0 == z.0 {
            lemma_path_le_antisym(x.0, y.0);
        }
    }
}

/// Two sorted lists that hold the same requests are the same list.
pub proof fn lemma_sorted_unique(a: Seq<CapView>, b: Seq<CapView>)
    requires
        sorted_caps(a),
        sorted_caps(b),
        a.to_multiset() == b.to_multiset(),
    ensures
        a == b,
    decreases a.len(),
{
    if a.len() == 0 {
        assert(b.to_multiset().len() == 0);
        assert(a =~= b);
    } else {
        assert(a.to_multiset().len() == a.len());
        assert(b.to_multiset().len() == b.len());
        assert(a.to_multiset().count(a[0]) > 0);
        assert(b.contains(a[0]));
        let j = choose|j: int| 0 <= j < b.len() && b[j] == a[0];
        assert(a.to_multiset().count(b[0]) > 0);
        let i = choose|i: int| 0 <= i < a.len() && a[i] == b[0];
        if j > 0 {
            assert(cap_le(b[0], b[j]));
        }
        if i > 0 {
            assert(cap_le(a[0], a[i]));
        }
        lemma_cap_le_total(a[0], b[0]);
        lemma_cap_le_antisym(a[0], b[0]);
        assert(a.remove(0) =~= a.drop_first());
        assert(b.remove(0) =~= b.drop_first());
        assert(a.drop_first().to_multiset() == b.drop_first().to_multiset());
        assert(sorted_caps(a.drop_first())) by {
            assert forall|p: int, q: int| 0 <= p < q < a.drop_first().len() implies #[trigger] cap_le(
                a.drop_first()[p],
                a.drop_first()[q],
            ) by {
                assert(cap_le(a[p + 1], a[q + 1]));
            }
        }
        assert(sorted_caps(b.drop_first())) by {
            assert forall|p: int, q: int| 0 <= p < q < b.drop_first().len() implies #[trigger] cap_le(
                b.drop_first()[p],
                b.drop_first()[q],
            ) by {
                assert(cap_le(b[p + 1], b[q + 1]));
            }
        }
        lemma_sorted_unique(a.drop_first(), b.drop_first());
        assert forall|p: int| 0 <= p < a.len() implies a[p] == b[p] by {
            if p > 0 {
                assert(a[p] == a.drop_first()[p - 1]);
                assert(b[p] == b.drop_first()[p - 1]);
            }
        }
        assert(a =~= b);
    }
}

/// The matching order holds the requests of `req`, sorted.
pub proof fn lemma_canonical_exists(req: Seq<CapView>)
    ensures
        sorted_caps(canonical(req)),
        canonical(req).to_multiset() == req.to_multiset(),
{
    let s = sorted_view(req);
    assert(sorted_caps(s) && s.to_multiset() == req.to_multiset());
}

/// A sorted list holding the requests of `req`, built by insertion.
proof fn sorted_view(req: Seq<CapView>) -> (s: Seq<CapView>)
    ensures
        sorted_caps(s),
        s.to_multiset() == req.to_multiset(),
    decreases req.len(),
{
    if req.len() == 0 {
        assert(req.to_multiset() =~= Seq::<CapView>::empty().to_multiset());
        req
    } else {
        let x = req.last();
        let s0 = sorted_view(req.drop_last());
        let i = insert_position(s0, x, 0);
        let t = s0.insert(i, x);
        assert(t.remove(i) =~= s0);
        assert(t[i] == x);
        assert(t.to_multiset().remove(x) == s0.to_multiset());
        assert(t.contains(x));
        assert(t.to_multiset() =~= s0.to_multiset().insert(x));
        assert(req =~= req.drop_last().push(x));
        lemma_insert_sorted(s0, x, i);
        t
    }
}

/// The first position of sorted `s` from `from` on whose entry comes after `x`, or `s.len()`.
proof fn insert_position(s: Seq<CapView>, x: CapView, from: int) -> (i: int)
    requires
        0 <= from <= s.len(),
        forall|j: int| 0 <= j < from ==> cap_le(#[trigger] s[j], x) && s[j] != x,
    ensures
        from <= i <= s.len(),
        forall|j: int| 0 <= j < i ==> cap_le(#[trigger] s[j], x) && s[j] != x,
        i < s.len() ==> cap_le(x, s[i]),
    decreases s.len() - from,
{
    if from == s.len() || cap_le(x, s[from]) {
        from
    } else {
        lemma_cap_le_total(x, s[from]);
        insert_position(s, x, from + 1)
    }
}

/// Inserting `x` at a position found as by `insert_position` keeps a list sorted.
pub proof fn lemma_insert_sorted(s: Seq<CapView>, x: CapView, i: int)
    requires
        sorted_caps(s),
        0 <= i <= s.len(),
        forall|j: int| 0 <= j < i ==> cap_le(#[trigger] s[j], x),
        i < s.len() ==> cap_le(x, s[i]),
    ensures
        sorted_caps(s.insert(i, x)),
{
    let t = s.insert(i, x);
    assert forall|p: int, q: int| 0 <= p < q < t.len() implies #[trigger] cap_le(t[p], t[q]) by {
        if q < i {
            assert(cap_le(s[p], s[q]));
        } else if q == i {
        } else if p < i {
            if q - 1 > i {
                assert(cap_le(s[i], s[q - 1]));
                lemma_cap_le_trans(x, s[i], s[q - 1]);
            }
            lemma_cap_le_trans(s[p], x, s[q - 1]);
        } else if p == i {
            if q - 1 > i {
                assert(cap_le(s[i], s[q - 1]));
                lemma_cap_le_trans(x, s[i], s[q - 1]);
            }
        } else {
            assert(cap_le(s[p - 1], s[q - 1]));
        }
    }
}

/// A sorted list holding the requests of `req` is their matching order.
pub proof fn lemma_canonical(s: Seq<CapView>, req: Seq<CapView>)
    requires
        sorted_caps(s),
        s.to_multiset() == req.to_multiset(),
    ensures
        canonical(req) == s,
{
    let c = canonical(req);
    assert(sorted_caps(c) && c.to_multiset() == req.to_multiset());
    lemma_sorted_unique(c, s);
}

/// Reordering the requests does not change their matching order.
pub proof fn lemma_canonical_reorder(r1: Seq<CapView>, r2: Seq<CapView>)
    requires
        r1.to_multiset() == r2.to_multiset(),
    ensures
        canonical(r1) == canonical(r2),
{
}

/// A value found at two positions of `s` is found at two positions of any list holding the same
/// values.
pub proof fn lemma_twice(s: Seq<CapView>, t: Seq<CapView>, a: int, b: int) -> (r: (int, int))
    requires
        0 <= a < s.len(),
        0 <= b < s.len(),
        a != b,
        s.to_multiset() == t.to_multiset(),
    ensures
        0 <= r.0 < t.len(),
        0 <= r.1 < t.len(),
        r.0 != r.1,
        t[r.0] == s[a],
        t[r.1] == s[b],
{
    broadcast use vstd::seq_lib::group_to_multiset_ensures;

    assert(s.to_multiset().count(s[a]) > 0);
    let i = choose|i: int| 0 <= i < t.len() && t[i] == s[a];
    if s[a] != s[b] {
        assert(s.to_multiset().count(s[b]) > 0);
        let j = choose|j: int| 0 <= j < t.len() && t[j] == s[b];
        (i, j)
    } else {
        let bb = if b < a {
            b
        } else {
            b - 1
        };
        assert(s.remove(a)[bb] == s[b]);
        assert(s.remove(a).to_multiset().count(s[b]) > 0);
        assert(t.remove(i).to_multiset() == t.to_multiset().remove(s[a]));
        assert(t.remove(i).to_multiset().count(s[b]) > 0);
        let l = choose|l: int| 0 <= l < t.remove(i).len() && t.remove(i)[l] == s[b];
        let j = if l < i {
            l
        } else {
            l + 1
        };
        (i, j)
    }
}

/// In a sorted list a part comes before every part nested in it.
pub proof fn lemma_outer_first(s: Seq<CapView>, i: int, j: int)
    requires
        sorted_caps(s),
        0 <= i < s.len(),
        0 <= j < s.len(),
        is_prefix(s[i].0, s[j].0),
        s[i].0 != s[j].0,
    ensures
        i < j,
{
    if j < i {
        assert(cap_le(s[j], s[i]));
        lemma_prefix_path_le(s[i].0, s[j].0);
        lemma_path_le_antisym(s[i].0, s[j].0);
    }
}

/// Whether `a` comes before `b` (or is equal to it).
pub fn path_le_exec(a: &Nested, b: &Nested) -> (r: bool)
    ensures
        r == path_le(a@, b@),
{
    let mut k: usize = 0;
    proof {
        assert(a@.skip(0) =~= a@);
        assert(b@.skip(0) =~= b@);
    }
    loop
        invariant
            path_le(a@, b@) == path_le(a@.skip(k as int), b@.skip(k as int)),
            k <= a@.len(),
            k <= b@.len(),
        decreases a@.len() - k,
    {
        if k == a.ids.len() {
            return true;
        }
        if k == b.ids.len() {
            return false;
        }
        if a.ids[k] != b.ids[k] {
            return a.ids[k] < b.ids[k];
        }
        proof {
            assert(a@.skip(k as int).drop_first() =~= a@.skip(k + 1));
            assert(b@.skip(k as int).drop_first() =~= b@.skip(k + 1));
        }
        k += 1;
    }
}

/// Whether request `x` is matched before request `y` (or equals it).
pub fn cap_le_exec(x: &Capability, y: &Capability) -> (r: bool)
    ensures
        r == cap_le(x@, y@),
{
    if x.part.same(&y.part) {
        let rx: u8 = match x.mode {
            Mode::Exclusive => 0,
            Mode::Shared => 1,
        };
        let ry: u8 = match y.mode {
            Mode::Exclusive => 0,
            Mode::Shared => 1,
        };
        rx <= ry
    } else {
        path_le_exec(&x.part, &y.part)
    }
}

/// The requests of `req` in matching order.
pub fn sort_requests(req: &Vec<Capability>) -> (r: Vec<Capability>)
    ensures
        caps_view(r@) == canonical(caps_view(req@)),
{
    let ghost rv = caps_view(req@);
    let mut out: Vec<Capability> = Vec::new();
    let mut k: usize = 0;
    while k < req.len()
        invariant
            rv == caps_view(req@),
            k <= req@.len(),
            sorted_caps(caps_view(out@)),
            caps_view(out@).to_multiset() == rv.take(k as int).to_multiset(),
        decreases req@.len() - k,
    {
        let x = req[k].copy();
        let ghost s = caps_view(out@);
        let mut i: usize = 0;
        while i < out.len()
            invariant
                s == caps_view(out@),
                i <= s.len(),
                forall|j: int| 0 <= j < i ==> cap_le(#[trigger] s[j], x@) && s[j] != x@,
            ensures
                i <= s.len(),
                forall|j: int| 0 <= j < i ==> cap_le(#[trigger] s[j], x@) && s[j] != x@,
                i < s.len() ==> cap_le(x@, s[i as int]),
            decreases s.len() - i,
        {
            if cap_le_exec(&x, &out[i]) {
                break;
            }
            proof {
                lemma_cap_le_total(x@, s[i as int]);
            }
            i += 1;
        }
        out.insert(i, x);
        let ghost t = caps_view(out@);
        proof {
            assert(t =~= s.insert(i as int, x@));
            assert(t.remove(i as int) =~= s);
            assert(t[i as int] == x@);
            assert(t.to_multiset().remove(x@) == s.to_multiset());
            assert(t.contains(x@));
            assert(t.to_multiset() =~= s.to_multiset().insert(x@));
            assert(rv.take(k + 1) =~= rv.take(k as int).push(rv[k as int]));
            lemma_insert_sorted(s, x@, i as int);
        }
        k += 1;
    }
    proof {
        assert(rv.take(k as int) =~= rv);
        lemma_canonical(caps_view(out@), rv);
    }
    out
}

} // verus!
