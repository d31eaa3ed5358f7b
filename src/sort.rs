use vstd::prelude::*;

verus! {

/// An element that sorts by an integer key.
pub trait SortKey: Sized + Copy {
    /// The key that orders the element.
    spec fn key(&self) -> int;

    /// The key, computed.
    fn sort_key(&self) -> (k: i64)
        ensures
            k as int == self.key(),
    ;
}

impl SortKey for i32 {
    open spec fn key(&self) -> int {
        *self as int
    }

    fn sort_key(&self) -> (k: i64) {
        *self as i64
    }
}

impl SortKey for i64 {
    open spec fn key(&self) -> int {
        *self as int
    }

    fn sort_key(&self) -> (k: i64) {
        *self
    }
}

/// An element with a key to sort by and a tag that tells apart elements of
/// equal key.
#[derive(Clone, Copy, Debug, PartialEq, Eq, Structural)]
pub struct Tagged {
    pub key: i32,
    pub tag: u32,
}

impl SortKey for Tagged {
    open spec fn key(&self) -> int {
        self.key as int
    }

    fn sort_key(&self) -> (k: i64) {
        self.key as i64
    }
}

/// Each element's key is at most the next one's.
pub open spec fn is_sorted<T: SortKey>(s: Seq<T>) -> bool {
    forall|i: int| 0 <= i < s.len() - 1 ==> #[trigger] s[i].key() <= s[i + 1].key()
}

/// Whether an element's key is `k`.
pub open spec fn has_key<T: SortKey>(k: int) -> spec_fn(T) -> bool {
    |x: T| x.key() == k
}

/// The elements of `s` whose key is `k`, in the order in which they stand.
pub open spec fn with_key<T: SortKey>(s: Seq<T>, k: int) -> Seq<T> {
    s.filter(has_key(k))
}

/// Elements of equal key stand in `t` in the order in which they stand in `s`.
pub open spec fn keeps_order_of_equals<T: SortKey>(s: Seq<T>, t: Seq<T>) -> bool {
    forall|k: int| #[trigger] with_key(s, k) == with_key(t, k)
}

/// `s` with the elements at `j` and `j + 1` exchanged.
pub open spec fn swap_adjacent<T>(s: Seq<T>, j: int) -> Seq<T> {
    s.update(j, s[j + 1]).update(j + 1, s[j])
}

/// Exchanging two neighbours of different key keeps the elements and the
/// order of the elements of each key.
proof fn lemma_swap_adjacent<T: SortKey>(s: Seq<T>, j: int)
    requires
        0 <= j,
        j + 1 < s.len(),
        s[j].key() != s[j + 1].key(),
    ensures
        swap_adjacent(s, j).to_multiset() == s.to_multiset(),
        keeps_order_of_equals(s, swap_adjacent(s, j)),
{
    let t = swap_adjacent(s, j);
    let pre = s.subrange(0, j);
    let post = s.subrange(j + 2, s.len() as int);
    let mid = seq![s[j], s[j + 1]];
    let dim = seq![s[j + 1], s[j]];
    assert(s =~= pre + mid + post);
    assert(t =~= pre + dim + post);
    broadcast use {vstd::seq_lib::lemma_multiset_commutative, vstd::multiset::group_multiset_axioms};
    assert(mid.to_multiset() =~= dim.to_multiset()) by {
        assert(mid =~= seq![s[j]] + seq![s[j + 1]]);
        assert(dim =~= seq![s[j + 1]] + seq![s[j]]);
    }
    assert(t.to_multiset() =~= s.to_multiset());
    assert forall|k: int| #[trigger] with_key(s, k) == with_key(t, k) by {
        let f = has_key::<T>(k);
        Seq::filter_distributes_over_add(pre + mid, post, f);
        Seq::filter_distributes_over_add(pre, mid, f);
        Seq::filter_distributes_over_add(pre + dim, post, f);
        Seq::filter_distributes_over_add(pre, dim, f);
        reveal_with_fuel(Seq::filter, 3);
        assert(mid.filter(f) =~= dim.filter(f));
    }
}

/// Where element `a` of `s` passes `f`, the number of elements before it
/// that pass `f` is its position in `s.filter(f)`.
proof fn lemma_filter_position<T>(s: Seq<T>, f: spec_fn(T) -> bool, a: int)
    requires
        0 <= a < s.len(),
        f(s[a]),
    ensures
        s.take(a).filter(f).len() < s.filter(f).len(),
        s.filter(f)[s.take(a).filter(f).len() as int] == s[a],
{
    let rest = s.skip(a + 1);
    assert(s =~= s.take(a) + (seq![s[a]] + rest));
    Seq::filter_distributes_over_add(s.take(a), seq![s[a]] + rest, f);
    rest.lemma_filter_prepend(s[a], f);
}

/// Of two elements of `s` that pass `f`, the earlier one has fewer passing
/// elements before it.
proof fn lemma_filter_position_increases<T>(s: Seq<T>, f: spec_fn(T) -> bool, a: int, b: int)
    requires
        0 <= a < b <= s.len(),
        f(s[a]),
    ensures
        s.take(a).filter(f).len() < s.take(b).filter(f).len(),
{
    let mid = s.subrange(a + 1, b);
    assert(s.take(b) =~= s.take(a) + (seq![s[a]] + mid));
    Seq::filter_distributes_over_add(s.take(a), seq![s[a]] + mid, f);
    mid.lemma_filter_prepend(s[a], f);
}

/// Filtering a sequence without duplicates gives one without duplicates.
proof fn lemma_filter_no_duplicates<T>(s: Seq<T>, f: spec_fn(T) -> bool)
    requires
        s.no_duplicates(),
    ensures
        s.filter(f).no_duplicates(),
    decreases s.len(),
{
    reveal_with_fuel(Seq::filter, 1);
    if s.len() > 0 {
        let init = s.drop_last();
        assert(init.no_duplicates());
        lemma_filter_no_duplicates(init, f);
        if f(s.last()) {
            if init.filter(f).contains(s.last()) {
                init.lemma_filter_contains_rev(f, s.last());
            }
        }
    }
}

/// Stability, element by element: where the elements of `s` are pairwise
/// distinct (told apart by a tag, say), and `t` keeps the order of each key
/// of `s`, two elements of equal key of which `a` stands before `b` in `s`
/// stand in the same order in `t`.
pub proof fn lemma_equal_keys_keep_order<T: SortKey>(
    s: Seq<T>,
    t: Seq<T>,
    i: int,
    j: int,
    p: int,
    q: int,
)
    requires
        keeps_order_of_equals(s, t),
        s.no_duplicates(),
        0 <= i < j < s.len(),
        s[i].key() == s[j].key(),
        0 <= p < t.len(),
        0 <= q < t.len(),
        t[p] == s[i],
        t[q] == s[j],
    ensures
        p < q,
{
    let f = has_key::<T>(s[i].key());
    let g = s.filter(f);
    assert(with_key(s, s[i].key()) == with_key(t, s[i].key()));
    assert(g == t.filter(f));
    lemma_filter_no_duplicates(s, f);
    lemma_filter_position(s, f, i);
    lemma_filter_position(s, f, j);
    lemma_filter_position_increases(s, f, i, j);
    lemma_filter_position(t, f, p);
    lemma_filter_position(t, f, q);
    let ri = s.take(i).filter(f).len() as int;
    let rj = s.take(j).filter(f).len() as int;
    let rp = t.take(p).filter(f).len() as int;
    let rq = t.take(q).filter(f).len() as int;
    assert(rp == ri);
    assert(rq == rj);
    if q < p {
        lemma_filter_position_increases(t, f, q, p);
    } else if q == p {
        assert(s[i] == s[j]);
    }
}

/// Sorts `v` in place by key with adjacent exchanges. Each pass carries the
/// largest key of the unsorted front to the end of it; only neighbours that
/// are strictly out of order are exchanged, so equal keys keep their order.
pub fn bubble_sort<T: SortKey>(v: &mut Vec<T>)
    ensures
        is_sorted(final(v)@),
        final(v)@.to_multiset() == old(v)@.to_multiset(),
        keeps_order_of_equals(old(v)@, final(v)@),
        is_sorted(old(v)@) ==> final(v)@ == old(v)@,
{
    let ghost orig = v@;
    let n = v.len();
    let mut i: usize = 0;
    while i < n
        invariant
            i <= n,
            v@.len() == n,
            v@.to_multiset() == orig.to_multiset(),
            keeps_order_of_equals(orig, v@),
            is_sorted(orig) ==> v@ == orig,
            forall|p: int, q: int| n - i <= p < q < n ==> #[trigger] v@[p].key() <= #[trigger] v@[q].key(),
            forall|p: int, q: int| 0 <= p < n - i <= q < n ==> #[trigger] v@[p].key() <= #[trigger] v@[q].key(),
        decreases n - i,
    {
        let m = n - i - 1;
        let mut j: usize = 0;
        while j < m
            invariant
                m == n - i - 1,
                i < n,
                j <= m,
                v@.len() == n,
                v@.to_multiset() == orig.to_multiset(),
                keeps_order_of_equals(orig, v@),
                is_sorted(orig) ==> v@ == orig,
                forall|p: int, q: int| n - i <= p < q < n ==> #[trigger] v@[p].key() <= #[trigger] v@[q].key(),
                forall|p: int, q: int| 0 <= p < n - i <= q < n ==> #[trigger] v@[p].key() <= #[trigger] v@[q].key(),
                forall|p: int| 0 <= p <= j ==> #[trigger] v@[p].key() <= v@[j as int].key(),
            decreases m - j,
        {
            if v[j + 1].sort_key() < v[j].sort_key() {
                let ghost before = v@;
                proof {
                    lemma_swap_adjacent(before, j as int);
                }
                let a = v[j];
                let b = v[j + 1];
                v.set(j, b);
                v.set(j + 1, a);
                assert(v@ == swap_adjacent(before, j as int));
            }
            j = j + 1;
        }
        i = i + 1;
    }
}

} // verus!
