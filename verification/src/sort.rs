//! Stable insertion sort: the order it produces as a specification, and an
//! implementation over names with a rank in front.
use vstd::prelude::*;

verus! {

/// Where `x` goes in `s`: after the leading elements that are `le` it.
pub open spec fn insert_pos<T>(s: Seq<T>, x: T, le: spec_fn(T, T) -> bool) -> nat
    decreases s.len(),
{
    if s.len() == 0 {
        0
    } else if le(s[0], x) {
        1 + insert_pos(s.drop_first(), x, le)
    } else {
        0
    }
}

/// `s` sorted by inserting its elements one after another, each after the
/// elements before it that are `le` it; elements that are `le` each other
/// keep their order.
pub open spec fn insertion_sort<T>(s: Seq<T>, le: spec_fn(T, T) -> bool) -> Seq<T>
    decreases s.len(),
{
    if s.len() == 0 {
        s
    } else {
        let sorted = insertion_sort(s.drop_last(), le);
        sorted.insert(insert_pos(sorted, s.last(), le) as int, s.last())
    }
}

/// Lexicographic order of character sequences by code point, which for
/// strings is the order of their UTF-8 bytes.
pub open spec fn chars_le(a: Seq<char>, b: Seq<char>) -> bool
    decreases a.len(),
{
    if a.len() == 0 {
        true
    } else if b.len() == 0 {
        false
    } else if a[0] != b[0] {
        (a[0] as int) < (b[0] as int)
    } else {
        chars_le(a.drop_first(), b.drop_first())
    }
}

/// A sort key: a rank first, then a name.
pub struct SortKey {
    pub rank: usize,
    pub name: Vec<char>,
}

/// The order of sort keys: lower rank first, then names in order.
pub open spec fn key_le(a: (nat, Seq<char>), b: (nat, Seq<char>)) -> bool {
    a.0 < b.0 || (a.0 == b.0 && chars_le(a.1, b.1))
}

/// The keys by their views.
pub open spec fn key_views(keys: Seq<SortKey>) -> Seq<(nat, Seq<char>)> {
    keys.map_values(|k: SortKey| (k.rank as nat, k.name@))
}

/// The order of indices into `keys` by their keys.
pub open spec fn index_order(keys: Seq<(nat, Seq<char>)>) -> spec_fn(usize, usize) -> bool {
    |i: usize, j: usize| key_le(keys[i as int], keys[j as int])
}

/// Whether `a` comes before or with `b` in code point order.
pub fn chars_le_exec(a: &Vec<char>, b: &Vec<char>) -> (r: bool)
    ensures
        r == chars_le(a@, b@),
{
    let mut i: usize = 0;
    assert(a@.skip(0) =~= a@);
    assert(b@.skip(0) =~= b@);
    while i < a.len() && i < b.len() && a[i] == b[i]
        invariant
            i <= a@.len(),
            i <= b@.len(),
            chars_le(a@, b@) == chars_le(a@.skip(i as int), b@.skip(i as int)),
        decreases a.len() - i,
    {
        assert(a@.skip(i as int).drop_first() =~= a@.skip(i + 1));
        assert(b@.skip(i as int).drop_first() =~= b@.skip(i + 1));
        i = i + 1;
    }
    if i == a.len() {
        assert(a@.skip(i as int).len() == 0);
        true
    } else if i == b.len() {
        false
    } else {
        assert(a@.skip(i as int)[0] == a@[i as int]);
        assert(b@.skip(i as int)[0] == b@[i as int]);
        a[i] < b[i]
    }
}

/// Whether key `a` comes before or with key `b`.
pub fn key_le_exec(a: &SortKey, b: &SortKey) -> (r: bool)
    ensures
        r == key_le((a.rank as nat, a.name@), (b.rank as nat, b.name@)),
{
    a.rank < b.rank || (a.rank == b.rank && chars_le_exec(&a.name, &b.name))
}

/// The indices `idx` sorted stably by their keys.
pub fn sort_indices(idx: &Vec<usize>, keys: &Vec<SortKey>) -> (r: Vec<usize>)
    requires
        forall|k: int| 0 <= k < idx@.len() ==> (#[trigger] idx@[k]) < keys@.len(),
    ensures
        r@ == insertion_sort(idx@, index_order(key_views(keys@))),
        forall|k: int| 0 <= k < r@.len() ==> (#[trigger] r@[k]) < keys@.len(),
{
    let ghost le = index_order(key_views(keys@));
    let mut out: Vec<usize> = Vec::new();
    let mut k: usize = 0;
    while k < idx.len()
        invariant
            k <= idx@.len(),
            le == index_order(key_views(keys@)),
            forall|m: int| 0 <= m < idx@.len() ==> (#[trigger] idx@[m]) < keys@.len(),
            forall|m: int| 0 <= m < out@.len() ==> (#[trigger] out@[m]) < keys@.len(),
            out@ == insertion_sort(idx@.take(k as int), le),
        decreases idx.len() - k,
    {
        let x = idx[k];
        let mut p: usize = 0;
        assert(out@.skip(0) =~= out@);
        while p < out.len() && key_le_exec(&keys[out[p]], &keys[x])
            invariant
                p <= out@.len(),
                x < keys@.len(),
                le == index_order(key_views(keys@)),
                forall|m: int| 0 <= m < out@.len() ==> (#[trigger] out@[m]) < keys@.len(),
                insert_pos(out@, x, le) == p + insert_pos(out@.skip(p as int), x, le),
            decreases out.len() - p,
        {
            assert(out@.skip(p as int).drop_first() =~= out@.skip(p + 1));
            assert(out@.skip(p as int)[0] == out@[p as int]);
            p = p + 1;
        }
        if p < out.len() {
            assert(out@.skip(p as int)[0] == out@[p as int]);
        }
        assert(idx@.take(k + 1).drop_last() =~= idx@.take(k as int));
        out.insert(p, x);
        k = k + 1;
    }
    assert(idx@.take(idx@.len() as int) =~= idx@);
    out
}

/// The insertion position is within the sequence.
pub proof fn lemma_insert_pos_bound<T>(s: Seq<T>, x: T, le: spec_fn(T, T) -> bool)
    ensures
        insert_pos(s, x, le) <= s.len(),
    decreases s.len(),
{
    if s.len() > 0 && le(s[0], x) {
        lemma_insert_pos_bound(s.drop_first(), x, le);
    }
}

/// Sorting keeps the elements: the sorted sequence holds each element as
/// often as the input does.
pub proof fn lemma_insertion_sort_permutes<T>(s: Seq<T>, le: spec_fn(T, T) -> bool)
    ensures
        insertion_sort(s, le).len() == s.len(),
        insertion_sort(s, le).to_multiset() == s.to_multiset(),
    decreases s.len(),
{
    broadcast use vstd::seq_lib::to_multiset_build, vstd::seq_lib::to_multiset_insert;

    if s.len() > 0 {
        let sorted = insertion_sort(s.drop_last(), le);
        lemma_insertion_sort_permutes(s.drop_last(), le);
        lemma_insert_pos_bound(sorted, s.last(), le);
        assert(s.drop_last().push(s.last()) =~= s);
    }
}

/// Every element of the sorted sequence is an element of the input.
pub proof fn lemma_insertion_sort_members<T>(s: Seq<T>, le: spec_fn(T, T) -> bool)
    ensures
        insertion_sort(s, le).len() == s.len(),
        forall|i: int|
            0 <= i < s.len() ==> #[trigger] s.contains(insertion_sort(s, le)[i]),
        forall|x: T| s.contains(x) <==> #[trigger] insertion_sort(s, le).contains(x),
{
    broadcast use vstd::seq_lib::to_multiset_contains;

    lemma_insertion_sort_permutes(s, le);
    let r = insertion_sort(s, le);
    assert forall|i: int| 0 <= i < s.len() implies #[trigger] s.contains(r[i]) by {
        assert(r.contains(r[i]));
        assert(r.to_multiset().count(r[i]) > 0);
    }
    assert forall|x: T| s.contains(x) <==> #[trigger] r.contains(x) by {
        assert(s.to_multiset().count(x) == r.to_multiset().count(x));
    }
}

/// Whether every element of `s` is `le` every later one.
pub open spec fn sorted_by<T>(s: Seq<T>, le: spec_fn(T, T) -> bool) -> bool {
    forall|i: int, j: int| 0 <= i < j < s.len() ==> le(#[trigger] s[i], #[trigger] s[j])
}

/// Whether `le` orders all values: any two compare, and it is transitive.
pub open spec fn total_preorder<T>(le: spec_fn(T, T) -> bool) -> bool {
    &&& forall|a: T, b: T| #[trigger] le(a, b) || le(b, a)
    &&& forall|a: T, b: T, c: T| #[trigger] le(a, b) && #[trigger] le(b, c) ==> le(a, c)
}

proof fn lemma_insert_pos_split<T>(s: Seq<T>, x: T, le: spec_fn(T, T) -> bool)
    ensures
        insert_pos(s, x, le) <= s.len(),
        forall|i: int| 0 <= i < insert_pos(s, x, le) ==> le(#[trigger] s[i], x),
        insert_pos(s, x, le) < s.len() ==> !le(s[insert_pos(s, x, le) as int], x),
    decreases s.len(),
{
    if s.len() > 0 && le(s[0], x) {
        lemma_insert_pos_split(s.drop_first(), x, le);
        assert forall|i: int| 0 <= i < insert_pos(s, x, le) implies le(#[trigger] s[i], x) by {
            if i > 0 {
                assert(s[i] == s.drop_first()[i - 1]);
            }
        }
    }
}

/// Insertion sort by a total preorder gives a sorted sequence.
pub proof fn lemma_insertion_sort_sorted<T>(s: Seq<T>, le: spec_fn(T, T) -> bool)
    requires
        total_preorder(le),
    ensures
        sorted_by(insertion_sort(s, le), le),
    decreases s.len(),
{
    if s.len() > 0 {
        let r = insertion_sort(s.drop_last(), le);
        let x = s.last();
        lemma_insertion_sort_sorted(s.drop_last(), le);
        lemma_insert_pos_split(r, x, le);
        let p = insert_pos(r, x, le) as int;
        let out = r.insert(p, x);
        assert(out == insertion_sort(s, le));
        assert forall|i: int, j: int| 0 <= i < j < out.len() implies le(
            #[trigger] out[i],
            #[trigger] out[j],
        ) by {
            if p < r.len() {
                assert(le(x, r[p])) by {
                    assert(le(r[p], x) || le(x, r[p]));
                }
            }
            if j < p {
                assert(out[i] == r[i] && out[j] == r[j]);
            } else if j == p {
                assert(out[j] == x && out[i] == r[i]);
            } else if i < p {
                assert(out[i] == r[i] && out[j] == r[j - 1]);
                assert(le(r[i], x));
                if p < r.len() {
                    if p < j - 1 {
                        assert(le(r[p], r[j - 1]));
                    }
                    assert(le(x, r[j - 1]));
                }
            } else if i == p {
                assert(out[i] == x && out[j] == r[j - 1]);
                if p < j - 1 {
                    assert(le(r[p], r[j - 1]));
                }
            } else {
                assert(out[i] == r[i - 1] && out[j] == r[j - 1]);
            }
        }
    }
}

/// Code point order compares any two sequences.
pub proof fn lemma_chars_le_total(a: Seq<char>, b: Seq<char>)
    ensures
        chars_le(a, b) || chars_le(b, a),
    decreases a.len(),
{
    if a.len() > 0 && b.len() > 0 && a[0] == b[0] {
        lemma_chars_le_total(a.drop_first(), b.drop_first());
    }
}

/// Code point order is transitive.
pub proof fn lemma_chars_le_transitive(a: Seq<char>, b: Seq<char>, c: Seq<char>)
    requires
        chars_le(a, b),
        chars_le(b, c),
    ensures
        chars_le(a, c),
    decreases a.len(),
{
    if a.len() > 0 && b.len() > 0 && c.len() > 0 && a[0] == b[0] && b[0] == c[0] {
        lemma_chars_le_transitive(a.drop_first(), b.drop_first(), c.drop_first());
    }
}

/// The order of indices by keys orders all indices.
pub proof fn lemma_index_order_total(keys: Seq<(nat, Seq<char>)>)
    ensures
        total_preorder(index_order(keys)),
{
    let le = index_order(keys);
    assert forall|a: usize, b: usize| #[trigger] le(a, b) || le(b, a) by {
        lemma_chars_le_total(keys[a as int].1, keys[b as int].1);
    }
    assert forall|a: usize, b: usize, c: usize| #[trigger] le(a, b) && #[trigger] le(b, c) implies le(
        a,
        c,
    ) by {
        if keys[a as int].0 == keys[b as int].0 && keys[b as int].0 == keys[c as int].0 {
            lemma_chars_le_transitive(keys[a as int].1, keys[b as int].1, keys[c as int].1);
        }
    }
}

} // verus!
