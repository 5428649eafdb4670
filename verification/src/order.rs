//! Ordering of listed rows: a stable insertion order over a "comes before"
//! relation, and paging.
use vstd::prelude::*;

verus! {

/// Rows that are listed in a fixed order.
pub trait Ranked: View + Sized {
    /// Whether a row with view `a` is listed before one with view `b`.
    spec fn before(a: Self::V, b: Self::V) -> bool;

    fn is_before(&self, other: &Self) -> (r: bool)
        ensures
            r == Self::before(self@, other@),
    ;
}

/// `x` inserted in front of the first element it comes before.
pub open spec fn insert_ranked<T: Ranked>(s: Seq<T::V>, x: T::V) -> Seq<T::V>
    decreases s.len(),
{
    if s.len() == 0 {
        seq![x]
    } else if T::before(x, s[0]) {
        seq![x] + s
    } else {
        seq![s[0]] + insert_ranked::<T>(s.drop_first(), x)
    }
}

/// The rows in listing order: each row, from the last to the first, inserted
/// in front of the first row it comes before.
pub open spec fn sort_ranked<T: Ranked>(s: Seq<T::V>) -> Seq<T::V>
    decreases s.len(),
{
    if s.len() == 0 {
        s
    } else {
        insert_ranked::<T>(sort_ranked::<T>(s.drop_first()), s[0])
    }
}

proof fn lemma_insert_at<T: Ranked>(s: Seq<T::V>, x: T::V, p: int)
    requires
        0 <= p <= s.len(),
        forall|j: int| 0 <= j < p ==> !T::before(x, #[trigger] s[j]),
        p < s.len() ==> T::before(x, s[p]),
    ensures
        insert_ranked::<T>(s, x) == s.insert(p, x),
    decreases s.len(),
{
    if s.len() == 0 {
        assert(s.insert(p, x) =~= seq![x]);
    } else if p == 0 {
        assert(s.insert(p, x) =~= seq![x] + s);
    } else {
        let t = s.drop_first();
        assert forall|j: int| 0 <= j < p - 1 implies !T::before(x, #[trigger] t[j]) by {
            assert(t[j] == s[j + 1]);
        }
        if p - 1 < t.len() {
            assert(t[p - 1] == s[p]);
        }
        lemma_insert_at::<T>(t, x, p - 1);
        assert(s.insert(p, x) =~= seq![s[0]] + t.insert(p - 1, x));
    }
}

pub open spec fn views<T: View>(v: Seq<T>) -> Seq<T::V> {
    v.map_values(|x: T| x@)
}

/// Sorts rows into listing order.
pub fn sort_rows<T: Ranked>(v: Vec<T>) -> (r: Vec<T>)
    ensures
        views(r@) == sort_ranked::<T>(views(v@)),
{
    let ghost orig = views(v@);
    let mut v = v;
    let mut r: Vec<T> = Vec::new();
    assert(orig.subrange(orig.len() as int, orig.len() as int) =~= seq![]);
    while v.len() > 0
        invariant
            v.len() <= orig.len(),
            views(v@) == orig.subrange(0, v.len() as int),
            views(r@) == sort_ranked::<T>(orig.subrange(v.len() as int, orig.len() as int)),
        decreases v.len(),
    {
        let ghost k = v.len() - 1;
        let ghost vv = v@;
        let x = v.pop().unwrap();
        assert(x == vv[k]);
        assert(views(vv)[k] == vv[k]@);
        assert(views(v@) =~= orig.subrange(0, k));
        assert(x@ == orig[k]);
        let mut p: usize = 0;
        while p < r.len() && !x.is_before(&r[p])
            invariant
                p <= r.len(),
                forall|j: int| 0 <= j < p ==> !T::before(x@, #[trigger] views(r@)[j]),
            decreases r.len() - p,
        {
            assert(views(r@)[p as int] == r@[p as int]@);
            p += 1;
        }
        proof {
            if p < r.len() {
                assert(views(r@)[p as int] == r@[p as int]@);
            }
            lemma_insert_at::<T>(views(r@), x@, p as int);
        }
        let ghost rv = views(r@);
        r.insert(p, x);
        assert(views(r@) =~= rv.insert(p as int, x@));
        assert(orig.subrange(k, orig.len() as int).drop_first() =~= orig.subrange(k + 1, orig.len() as int));
    }
    assert(orig.subrange(0, orig.len() as int) =~= orig);
    r
}

/// The part of a listing shown on a page: `size` rows from `offset` on.
pub open spec fn page_slice<A>(s: Seq<A>, offset: int, size: int) -> Seq<A> {
    if offset >= s.len() {
        seq![]
    } else if offset + size <= s.len() {
        s.subrange(offset, offset + size)
    } else {
        s.subrange(offset, s.len() as int)
    }
}

/// Takes the rows of one page out of a listing.
pub fn take_page<T: View>(v: Vec<T>, offset: u64, size: usize) -> (r: Vec<T>)
    ensures
        views(r@) == page_slice(views(v@), offset as int, size as int),
{
    let mut v = v;
    let mut out: Vec<T> = Vec::new();
    if offset >= v.len() as u64 {
        assert(views(out@) =~= page_slice(views(v@), offset as int, size as int));
        return out;
    }
    let offset = offset as usize;
    let end = if size <= v.len() - offset {
        offset + size
    } else {
        v.len()
    };
    let ghost orig = views(v@);
    v.truncate(end);
    assert(views(v@) =~= orig.subrange(0, end as int));
    let mut tail = v.split_off(offset);
    assert(views(tail@) =~= orig.subrange(offset as int, end as int));
    assert(views(tail@) =~= page_slice(orig, offset as int, size as int));
    tail
}


/// The elements of `v` in the opposite order.
pub fn reversed<T>(v: Vec<T>) -> (r: Vec<T>)
    ensures
        r@.len() == v@.len(),
        forall|j: int| 0 <= j < v@.len() ==> #[trigger] r@[j] == v@[v@.len() - 1 - j],
{
    let ghost orig = v@;
    let mut v = v;
    let mut r: Vec<T> = Vec::new();
    while v.len() > 0
        invariant
            v.len() + r.len() == orig.len(),
            v@ == orig.subrange(0, v.len() as int),
            forall|j: int| 0 <= j < r.len() ==> #[trigger] r@[j] == orig[orig.len() - 1 - j],
        decreases v.len(),
    {
        let ghost vv = v@;
        let x = v.pop().unwrap();
        assert(x == orig[vv.len() - 1]);
        r.push(x);
        assert(v@ =~= orig.subrange(0, v.len() as int));
    }
    r
}

/// Filtering by two predicates that agree gives the same rows.
pub proof fn lemma_filter_ext<A>(s: Seq<A>, p: spec_fn(A) -> bool, q: spec_fn(A) -> bool)
    requires
        forall|x: A| #[trigger] p(x) == q(x),
    ensures
        s.filter(p) == s.filter(q),
    decreases s.len(),
{
    reveal(Seq::filter);
    if s.len() > 0 {
        lemma_filter_ext(s.drop_last(), p, q);
        assert(p(s.last()) == q(s.last()));
    }
}

/// Filtering by `p` and then by `q` is filtering by a predicate `r` that holds
/// exactly where both do.
pub proof fn lemma_filter_filter<A>(s: Seq<A>, p: spec_fn(A) -> bool, q: spec_fn(A) -> bool, r: spec_fn(A) -> bool)
    requires
        forall|x: A| #[trigger] r(x) == (p(x) && q(x)),
    ensures
        s.filter(p).filter(q) == s.filter(r),
    decreases s.len(),
{
    reveal(Seq::filter);
    if s.len() > 0 {
        lemma_filter_filter(s.drop_last(), p, q, r);
        let f = s.drop_last().filter(p);
        assert(r(s.last()) == (p(s.last()) && q(s.last())));
        if p(s.last()) {
            assert(f.push(s.last()).drop_last() =~= f);
            assert(f.push(s.last()).last() == s.last());
        }
    }
}

/// Filtering by two predicates that agree on every element gives the same rows.
pub proof fn lemma_filter_on<A>(s: Seq<A>, p: spec_fn(A) -> bool, q: spec_fn(A) -> bool)
    requires
        forall|i: int| 0 <= i < s.len() ==> p(#[trigger] s[i]) == q(s[i]),
    ensures
        s.filter(p) == s.filter(q),
    decreases s.len(),
{
    reveal(Seq::filter);
    if s.len() > 0 {
        let t = s.drop_last();
        assert forall|i: int| 0 <= i < t.len() implies p(#[trigger] t[i]) == q(t[i]) by {
            assert(t[i] == s[i]);
        }
        lemma_filter_on(t, p, q);
        assert(p(s[s.len() - 1]) == q(s[s.len() - 1]));
    }
}

/// A property that every row has, every row of the insertion has.
pub proof fn lemma_insert_all<T: Ranked>(s: Seq<T::V>, x: T::V, p: spec_fn(T::V) -> bool)
    requires
        forall|i: int| 0 <= i < s.len() ==> p(#[trigger] s[i]),
        p(x),
    ensures
        insert_ranked::<T>(s, x).len() == s.len() + 1,
        forall|i: int| 0 <= i < insert_ranked::<T>(s, x).len() ==> p(#[trigger] insert_ranked::<T>(s, x)[i]),
    decreases s.len(),
{
    if s.len() > 0 && !T::before(x, s[0]) {
        let t = s.drop_first();
        assert forall|i: int| 0 <= i < t.len() implies p(#[trigger] t[i]) by {
            assert(t[i] == s[i + 1]);
        }
        lemma_insert_all::<T>(t, x, p);
        let r = insert_ranked::<T>(s, x);
        assert forall|i: int| 0 <= i < r.len() implies p(#[trigger] r[i]) by {
            if i > 0 {
                assert(r[i] == insert_ranked::<T>(t, x)[i - 1]);
            }
        }
    } else if s.len() > 0 {
        let r = insert_ranked::<T>(s, x);
        assert forall|i: int| 0 <= i < r.len() implies p(#[trigger] r[i]) by {
            if i > 0 {
                assert(r[i] == s[i - 1]);
            }
        }
    }
}

/// A property that every row has, every sorted row has; sorting keeps the count.
pub proof fn lemma_sort_all<T: Ranked>(s: Seq<T::V>, p: spec_fn(T::V) -> bool)
    requires
        forall|i: int| 0 <= i < s.len() ==> p(#[trigger] s[i]),
    ensures
        sort_ranked::<T>(s).len() == s.len(),
        forall|i: int| 0 <= i < sort_ranked::<T>(s).len() ==> p(#[trigger] sort_ranked::<T>(s)[i]),
    decreases s.len(),
{
    if s.len() > 0 {
        let t = s.drop_first();
        assert forall|i: int| 0 <= i < t.len() implies p(#[trigger] t[i]) by {
            assert(t[i] == s[i + 1]);
        }
        lemma_sort_all::<T>(t, p);
        lemma_insert_all::<T>(sort_ranked::<T>(t), s[0], p);
    }
}

/// `before` is a strict order: never reflexive, and transitive.
pub open spec fn strict_order<T: Ranked>() -> bool {
    &&& forall|a: T::V| !#[trigger] T::before(a, a)
    &&& forall|a: T::V, b: T::V, c: T::V| #[trigger] T::before(a, b) && #[trigger] T::before(b, c) ==> T::before(a, c)
}

/// No row of the listing comes before a row listed ahead of it.
pub open spec fn in_order<T: Ranked>(s: Seq<T::V>) -> bool {
    forall|i: int, j: int| 0 <= i < j < s.len() ==> !T::before(#[trigger] s[j], #[trigger] s[i])
}

proof fn lemma_insert_in_order<T: Ranked>(s: Seq<T::V>, x: T::V)
    requires
        strict_order::<T>(),
        in_order::<T>(s),
    ensures
        in_order::<T>(insert_ranked::<T>(s, x)),
    decreases s.len(),
{
    let r = insert_ranked::<T>(s, x);
    if s.len() == 0 {
    } else if T::before(x, s[0]) {
        assert(r == seq![x] + s);
        assert forall|i: int, j: int| 0 <= i < j < r.len() implies !T::before(#[trigger] r[j], #[trigger] r[i]) by {
            if i == 0 {
                assert(r[j] == s[j - 1]);
                if T::before(s[j - 1], x) {
                    assert(T::before(s[j - 1], s[0]));
                    if j - 1 > 0 {
                        assert(!T::before(s[j - 1], s[0]));
                    }
                }
            } else {
                assert(r[i] == s[i - 1] && r[j] == s[j - 1]);
            }
        }
    } else {
        let t = s.drop_first();
        assert forall|i: int, j: int| 0 <= i < j < t.len() implies !T::before(#[trigger] t[j], #[trigger] t[i]) by {
            assert(t[i] == s[i + 1] && t[j] == s[j + 1]);
        }
        lemma_insert_in_order::<T>(t, x);
        let u = insert_ranked::<T>(t, x);
        let p = |y: T::V| !T::before(y, s[0]);
        assert forall|i: int| 0 <= i < t.len() implies p(#[trigger] t[i]) by {
            assert(t[i] == s[i + 1]);
            assert(!T::before(s[i + 1], s[0]));
        }
        lemma_insert_all::<T>(t, x, p);
        assert(r == seq![s[0]] + u);
        assert forall|i: int, j: int| 0 <= i < j < r.len() implies !T::before(#[trigger] r[j], #[trigger] r[i]) by {
            assert(r[j] == u[j - 1]);
            if i == 0 {
                assert(p(u[j - 1]));
            } else {
                assert(r[i] == u[i - 1]);
            }
        }
    }
}

/// Under a strict order, the listing order puts every row after all rows
/// that come before it.
pub proof fn lemma_sorted_in_order<T: Ranked>(s: Seq<T::V>)
    requires
        strict_order::<T>(),
    ensures
        in_order::<T>(sort_ranked::<T>(s)),
    decreases s.len(),
{
    if s.len() > 0 {
        lemma_sorted_in_order::<T>(s.drop_first());
        lemma_insert_in_order::<T>(sort_ranked::<T>(s.drop_first()), s[0]);
    }
}

proof fn lemma_insert_multiset<T: Ranked>(s: Seq<T::V>, x: T::V)
    ensures
        insert_ranked::<T>(s, x).to_multiset() == s.to_multiset().insert(x),
    decreases s.len(),
{
    broadcast use vstd::seq_lib::to_multiset_insert;
    broadcast use vstd::multiset::group_multiset_axioms;

    if s.len() == 0 {
        assert(seq![x] =~= s.insert(0, x));
    } else if T::before(x, s[0]) {
        assert(seq![x] + s =~= s.insert(0, x));
    } else {
        let t = s.drop_first();
        lemma_insert_multiset::<T>(t, x);
        let u = insert_ranked::<T>(t, x);
        assert(seq![s[0]] + u =~= u.insert(0, s[0]));
        assert(s =~= t.insert(0, s[0]));
        assert(u.insert(0, s[0]).to_multiset() =~= s.to_multiset().insert(x));
    }
}

/// A listing holds exactly the rows it was made from, each as often.
pub proof fn listing_keeps_every_row<T: Ranked>(s: Seq<T::V>)
    ensures
        sort_ranked::<T>(s).to_multiset() == s.to_multiset(),
    decreases s.len(),
{
    broadcast use vstd::seq_lib::to_multiset_insert;

    if s.len() > 0 {
        let t = s.drop_first();
        listing_keeps_every_row::<T>(t);
        lemma_insert_multiset::<T>(sort_ranked::<T>(t), s[0]);
        assert(s =~= t.insert(0, s[0]));
    }
}
} // verus!
