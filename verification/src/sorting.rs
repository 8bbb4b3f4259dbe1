//! Stable ordering of records by a key made of texts, compared
//! lexicographically field by field.
use vstd::prelude::*;
use crate::text::{text_lt, text_less, lemma_text_lt_irreflexive, lemma_text_lt_transitive, lemma_text_lt_total};

verus! {

/// Lexicographic order of keys made of texts: the first field that differs
/// decides, by `text_lt`.
pub open spec fn keys_lt(a: Seq<Seq<char>>, b: Seq<Seq<char>>) -> bool
    decreases a.len(),
{
    if a.len() == 0 || b.len() == 0 {
        false
    } else if a[0] != b[0] {
        text_lt(a[0], b[0])
    } else {
        keys_lt(a.drop_first(), b.drop_first())
    }
}

/// A record that is ordered by a key of texts.
pub trait SortKey: Sized {
    /// The key, field by field.
    spec fn sort_key(&self) -> Seq<Seq<char>>;

    /// The number of fields of every key of this type.
    spec fn key_width() -> nat;

    /// Every key has `key_width()` fields.
    proof fn lemma_key_width(&self)
        ensures
            self.sort_key().len() == Self::key_width(),
    ;
}

/// A record whose keys can be compared at run time.
pub trait KeyLess: SortKey {
    /// Whether the key of `self` comes strictly before that of `other`.
    fn key_less(&self, other: &Self) -> (b: bool)
        ensures
            b == keys_lt(self.sort_key(), other.sort_key()),
    ;
}

/// `s` with `x` inserted after the last element whose key is not greater than
/// that of `x` (the step of a stable insertion sort).
pub open spec fn insert_by_key<T: SortKey>(s: Seq<T>, x: T) -> Seq<T>
    decreases s.len(),
{
    if s.len() == 0 {
        seq![x]
    } else if keys_lt(x.sort_key(), s.last().sort_key()) {
        insert_by_key(s.drop_last(), x).push(s.last())
    } else {
        s.push(x)
    }
}

/// `s` in the order of its keys; elements with equal keys keep their relative
/// order (what a stable sort such as `slice::sort_by` yields).
pub open spec fn sort_by_key<T: SortKey>(s: Seq<T>) -> Seq<T>
    decreases s.len(),
{
    if s.len() == 0 {
        s
    } else {
        insert_by_key(sort_by_key(s.drop_last()), s.last())
    }
}

/// No element has a key smaller than that of an element before it.
pub open spec fn is_sorted_by_key<T: SortKey>(s: Seq<T>) -> bool {
    forall|i: int, j: int|
        0 <= i < j < s.len() ==> !keys_lt(#[trigger] s[j].sort_key(), #[trigger] s[i].sort_key())
}

/// The elements of `s` whose key is `k`, in their order in `s`.
pub open spec fn with_key<T: SortKey>(s: Seq<T>, k: Seq<Seq<char>>) -> Seq<T> {
    s.filter(has_key::<T>(k))
}

/// The test "has key `k`".
pub open spec fn has_key<T: SortKey>(k: Seq<Seq<char>>) -> spec_fn(T) -> bool {
    |x: T| x.sort_key() == k
}

// ---------------------------------------------------------------------------
// Properties of the key order
// ---------------------------------------------------------------------------

/// `keys_lt` is irreflexive.
pub proof fn lemma_keys_lt_irreflexive(a: Seq<Seq<char>>)
    ensures
        !keys_lt(a, a),
    decreases a.len(),
{
    if a.len() > 0 {
        lemma_keys_lt_irreflexive(a.drop_first());
    }
}

/// `keys_lt` is transitive.
pub proof fn lemma_keys_lt_transitive(a: Seq<Seq<char>>, b: Seq<Seq<char>>, c: Seq<Seq<char>>)
    requires
        keys_lt(a, b),
        keys_lt(b, c),
    ensures
        keys_lt(a, c),
    decreases a.len(),
{
    if a.len() > 0 && b.len() > 0 && c.len() > 0 {
        if a[0] != b[0] && b[0] != c[0] {
            lemma_text_lt_transitive(a[0], b[0], c[0]);
            if a[0] == c[0] {
                lemma_text_lt_irreflexive(a[0]);
            }
        } else if a[0] == b[0] && b[0] == c[0] {
            lemma_keys_lt_transitive(a.drop_first(), b.drop_first(), c.drop_first());
        }
    }
}

/// Keys of one width are ordered one way or the other, or are equal.
pub proof fn lemma_keys_lt_total(a: Seq<Seq<char>>, b: Seq<Seq<char>>)
    requires
        a.len() == b.len(),
    ensures
        keys_lt(a, b) || keys_lt(b, a) || a == b,
    decreases a.len(),
{
    if a.len() == 0 {
        assert(a =~= b);
    } else if a[0] != b[0] {
        lemma_text_lt_total(a[0], b[0]);
    } else {
        lemma_keys_lt_total(a.drop_first(), b.drop_first());
        if a.drop_first() == b.drop_first() {
            assert(a =~= seq![a[0]] + a.drop_first());
            assert(b =~= seq![b[0]] + b.drop_first());
        }
    }
}

/// `!keys_lt` is transitive on keys of one type.
proof fn lemma_not_lt_transitive<T: SortKey>(x: T, y: T, z: T)
    requires
        !keys_lt(y.sort_key(), x.sort_key()),
        !keys_lt(z.sort_key(), y.sort_key()),
    ensures
        !keys_lt(z.sort_key(), x.sort_key()),
{
    x.lemma_key_width();
    y.lemma_key_width();
    z.lemma_key_width();
    lemma_keys_lt_total(x.sort_key(), y.sort_key());
    lemma_keys_lt_total(y.sort_key(), z.sort_key());
    if keys_lt(z.sort_key(), x.sort_key()) {
        if x.sort_key() == y.sort_key() {
        } else if y.sort_key() == z.sort_key() {
        } else {
            lemma_keys_lt_transitive(z.sort_key(), x.sort_key(), y.sort_key());
        }
    }
}

// ---------------------------------------------------------------------------
// Properties of the sort
// ---------------------------------------------------------------------------

proof fn lemma_insert_len_multiset<T: SortKey>(s: Seq<T>, x: T)
    ensures
        insert_by_key(s, x).len() == s.len() + 1,
        insert_by_key(s, x).to_multiset() == s.to_multiset().insert(x),
    decreases s.len(),
{
    broadcast use vstd::seq_lib::group_to_multiset_ensures;

    if s.len() > 0 && keys_lt(x.sort_key(), s.last().sort_key()) {
        lemma_insert_len_multiset(s.drop_last(), x);
        assert(s =~= s.drop_last().push(s.last()));
        assert(insert_by_key(s, x).to_multiset() =~= s.drop_last().to_multiset().insert(x).insert(
            s.last(),
        ));
        assert(s.to_multiset() =~= s.drop_last().to_multiset().insert(s.last()));
    } else if s.len() == 0 {
        assert(seq![x] =~= Seq::<T>::empty().push(x));
    }
}

proof fn lemma_insert_sorted<T: SortKey>(s: Seq<T>, x: T)
    requires
        is_sorted_by_key(s),
    ensures
        is_sorted_by_key(insert_by_key(s, x)),
        insert_by_key(s, x).len() > 0,
        insert_by_key(s, x).last() == x || (s.len() > 0 && insert_by_key(s, x).last() == s.last()),
    decreases s.len(),
{
    lemma_insert_len_multiset(s, x);
    let r = insert_by_key(s, x);
    if s.len() == 0 {
    } else if keys_lt(x.sort_key(), s.last().sort_key()) {
        let p = s.drop_last();
        assert(is_sorted_by_key(p)) by {
            assert forall|i: int, j: int| 0 <= i < j < p.len() implies !keys_lt(
                #[trigger] p[j].sort_key(),
                #[trigger] p[i].sort_key(),
            ) by {
                assert(p[i] == s[i] && p[j] == s[j]);
            }
        }
        lemma_insert_sorted(p, x);
        let q = insert_by_key(p, x);
        lemma_insert_len_multiset(p, x);
        // every element of q is x or an element of p; none has a key above s.last()
        assert forall|i: int| 0 <= i < q.len() implies !keys_lt(
            s.last().sort_key(),
            #[trigger] q[i].sort_key(),
        ) by {
            assert(q.to_multiset().count(q[i]) > 0) by {
                broadcast use vstd::seq_lib::group_to_multiset_ensures;

                assert(q.contains(q[i]));
            }
            if q[i] == x {
                if keys_lt(s.last().sort_key(), x.sort_key()) {
                    lemma_keys_lt_transitive(x.sort_key(), s.last().sort_key(), x.sort_key());
                    lemma_keys_lt_irreflexive(x.sort_key());
                }
            } else {
                assert(p.to_multiset().count(q[i]) > 0);
                broadcast use vstd::seq_lib::group_to_multiset_ensures;

                let k = choose|k: int| 0 <= k < p.len() && p[k] == q[i];
                assert(p[k] == s[k]);
                assert(!keys_lt(s[s.len() - 1].sort_key(), s[k].sort_key()));
            }
        }
        assert forall|i: int, j: int| 0 <= i < j < r.len() implies !keys_lt(
            #[trigger] r[j].sort_key(),
            #[trigger] r[i].sort_key(),
        ) by {
            if j < q.len() {
                assert(r[i] == q[i] && r[j] == q[j]);
            } else {
                assert(r[i] == q[i]);
                assert(r[j] == s.last());
            }
        }
    } else {
        assert forall|i: int, j: int| 0 <= i < j < r.len() implies !keys_lt(
            #[trigger] r[j].sort_key(),
            #[trigger] r[i].sort_key(),
        ) by {
            if j < s.len() {
                assert(r[i] == s[i] && r[j] == s[j]);
            } else {
                assert(r[j] == x);
                assert(r[i] == s[i]);
                if i < s.len() - 1 {
                    lemma_not_lt_transitive(s[i], s[s.len() - 1], x);
                }
            }
        }
    }
}

/// The result of `sort_by_key` is in key order.
pub proof fn lemma_sort_by_key_sorted<T: SortKey>(s: Seq<T>)
    ensures
        is_sorted_by_key(sort_by_key(s)),
    decreases s.len(),
{
    if s.len() > 0 {
        lemma_sort_by_key_sorted(s.drop_last());
        lemma_insert_sorted(sort_by_key(s.drop_last()), s.last());
    }
}

/// `sort_by_key` only rearranges: it keeps every element, as often as it occurs.
pub proof fn lemma_sort_by_key_permutes<T: SortKey>(s: Seq<T>)
    ensures
        sort_by_key(s).len() == s.len(),
        sort_by_key(s).to_multiset() == s.to_multiset(),
    decreases s.len(),
{
    broadcast use vstd::seq_lib::group_to_multiset_ensures;

    if s.len() > 0 {
        lemma_sort_by_key_permutes(s.drop_last());
        lemma_insert_len_multiset(sort_by_key(s.drop_last()), s.last());
        assert(s =~= s.drop_last().push(s.last()));
    }
}

proof fn lemma_insert_with_key<T: SortKey>(s: Seq<T>, x: T, k: Seq<Seq<char>>)
    ensures
        with_key(insert_by_key(s, x), k) == if x.sort_key() == k {
            with_key(s, k).push(x)
        } else {
            with_key(s, k)
        },
    decreases s.len(),
{
    let f = has_key::<T>(k);
    if s.len() == 0 {
        Seq::<T>::empty().lemma_filter_push(x, f);
        assert(seq![x] =~= Seq::<T>::empty().push(x));
        reveal(Seq::filter);
    } else if keys_lt(x.sort_key(), s.last().sort_key()) {
        let p = s.drop_last();
        lemma_insert_with_key(p, x, k);
        insert_by_key(p, x).lemma_filter_push(s.last(), f);
        p.lemma_filter_push(s.last(), f);
        assert(s =~= p.push(s.last()));
        if x.sort_key() == k && s.last().sort_key() == k {
            lemma_keys_lt_irreflexive(k);
        }
    } else {
        s.lemma_filter_push(x, f);
    }
}

/// `sort_by_key` is stable: the elements that share a key keep their order.
pub proof fn lemma_sort_by_key_stable<T: SortKey>(s: Seq<T>, k: Seq<Seq<char>>)
    ensures
        with_key(sort_by_key(s), k) == with_key(s, k),
    decreases s.len(),
{
    if s.len() > 0 {
        let f = has_key::<T>(k);
        lemma_sort_by_key_stable(s.drop_last(), k);
        lemma_insert_with_key(sort_by_key(s.drop_last()), s.last(), k);
        s.drop_last().lemma_filter_push(s.last(), f);
        assert(s =~= s.drop_last().push(s.last()));
    }
}

proof fn lemma_insert_map<T: SortKey, U: SortKey>(s: Seq<T>, x: T, f: spec_fn(T) -> U)
    requires
        forall|y: T| #[trigger] f(y).sort_key() == y.sort_key(),
    ensures
        insert_by_key(s.map_values(f), f(x)) == insert_by_key(s, x).map_values(f),
    decreases s.len(),
{
    let m = s.map_values(f);
    assert(f(x).sort_key() == x.sort_key());
    if s.len() == 0 {
        assert(seq![x].map_values(f) =~= seq![f(x)]);
    } else {
        assert(m.last() == f(s.last()));
        assert(f(s.last()).sort_key() == s.last().sort_key());
        assert(m.drop_last() =~= s.drop_last().map_values(f));
        if keys_lt(x.sort_key(), s.last().sort_key()) {
            lemma_insert_map(s.drop_last(), x, f);
            assert(insert_by_key(s.drop_last(), x).push(s.last()).map_values(f)
                =~= insert_by_key(s.drop_last(), x).map_values(f).push(f(s.last())));
        } else {
            assert(s.push(x).map_values(f) =~= m.push(f(x)));
        }
    }
}

/// Sorting commutes with a map that keeps keys.
pub proof fn lemma_sort_by_key_map<T: SortKey, U: SortKey>(s: Seq<T>, f: spec_fn(T) -> U)
    requires
        forall|y: T| #[trigger] f(y).sort_key() == y.sort_key(),
    ensures
        sort_by_key(s.map_values(f)) == sort_by_key(s).map_values(f),
    decreases s.len(),
{
    let m = s.map_values(f);
    if s.len() == 0 {
        assert(m =~= Seq::<U>::empty());
        assert(sort_by_key(s).map_values(f) =~= Seq::<U>::empty());
    } else {
        assert(m.drop_last() =~= s.drop_last().map_values(f));
        assert(m.last() == f(s.last()));
        lemma_sort_by_key_map(s.drop_last(), f);
        lemma_insert_map(sort_by_key(s.drop_last()), s.last(), f);
    }
}

// ---------------------------------------------------------------------------
// Executable sort
// ---------------------------------------------------------------------------

proof fn lemma_insert_at<T: SortKey>(s: Seq<T>, x: T, j: int)
    requires
        0 <= j <= s.len(),
        forall|k: int| j <= k < s.len() ==> keys_lt(x.sort_key(), #[trigger] s[k].sort_key()),
        j == 0 || !keys_lt(x.sort_key(), s[j - 1].sort_key()),
    ensures
        insert_by_key(s, x) == s.insert(j, x),
    decreases s.len() - j,
{
    if s.len() == 0 {
        assert(s.insert(j, x) =~= seq![x]);
    } else if j == s.len() {
        assert(s.insert(j, x) =~= s.push(x));
    } else {
        let p = s.drop_last();
        assert(keys_lt(x.sort_key(), s[s.len() - 1].sort_key()));
        assert forall|k: int| j <= k < p.len() implies keys_lt(
            x.sort_key(),
            #[trigger] p[k].sort_key(),
        ) by {
            assert(p[k] == s[k]);
        }
        if j > 0 {
            assert(p[j - 1] == s[j - 1]);
        }
        lemma_insert_at(p, x, j);
        assert(p.insert(j, x).push(s.last()) =~= s.insert(j, x));
    }
}

/// Reorders `v` by key, stably (`slice::sort_by` on the key).
pub fn sort_by_key_vec<T: KeyLess>(v: Vec<T>) -> (out: Vec<T>)
    ensures
        out@ == sort_by_key(v@),
{
    let ghost input = v@;
    let n = v.len();
    let mut out: Vec<T> = Vec::new();
    let mut rest = v;
    assert(input.skip(0) =~= input);
    assert(input.take(0) =~= Seq::<T>::empty());
    while rest.len() > 0
        invariant
            n == input.len(),
            rest.len() <= n,
            rest@ == input.skip(n - rest.len()),
            out@ == sort_by_key(input.take(n - rest.len())),
        decreases rest.len(),
    {
        let ghost i = n - rest.len();
        let x = rest.remove(0);
        assert(x == input[i]);
        let mut j = out.len();
        while j > 0 && x.key_less(&out[j - 1])
            invariant
                j <= out.len(),
                forall|k: int| j <= k < out.len() ==> keys_lt(x.sort_key(), #[trigger] out@[k].sort_key()),
            decreases j,
        {
            j -= 1;
        }
        proof {
            lemma_insert_at(out@, x, j as int);
            assert(input.take(i + 1).drop_last() =~= input.take(i));
        }
        out.insert(j, x);
        assert(rest@ =~= input.skip(n - rest.len()));
    }
    assert(input.take(n as int) =~= input);
    out
}

} // verus!
