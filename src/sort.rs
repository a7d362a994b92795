use vstd::prelude::*;

use crate::listing::LsOutputFile;
use crate::text::{
    lemma_name_lt_asymmetric, lemma_name_lt_total, lemma_name_lt_transitive, name_lt, precedes,
};

verus! {

/// The name of a file, as its model holds it.
pub open spec fn file_key() -> spec_fn((Seq<char>, i64)) -> Seq<char> {
    |f: (Seq<char>, i64)| f.0
}

/// The name of a folder, which is the folder itself.
pub open spec fn folder_key() -> spec_fn(Seq<char>) -> Seq<char> {
    |n: Seq<char>| n
}

pub open spec fn file_views(v: Seq<LsOutputFile>) -> Seq<(Seq<char>, i64)> {
    v.map_values(|f: LsOutputFile| f@)
}

pub open spec fn string_views(v: Seq<String>) -> Seq<Seq<char>> {
    v.map_values(|s: String| s@)
}

/// Where an item named `k` goes in `t`: after every item whose name is not
/// greater than `k`, found from the back.
pub open spec fn insert_pos<A>(t: Seq<A>, key: spec_fn(A) -> Seq<char>, k: Seq<char>) -> int
    decreases t.len(),
{
    if t.len() == 0 {
        0
    } else if name_lt(k, key(t.last())) {
        insert_pos(t.drop_last(), key, k)
    } else {
        t.len() as int
    }
}

/// The items of `s` ordered by name; items with equal names keep their order.
pub open spec fn sort_by_name<A>(s: Seq<A>, key: spec_fn(A) -> Seq<char>) -> Seq<A>
    decreases s.len(),
{
    if s.len() == 0 {
        seq![]
    } else {
        let t = sort_by_name(s.drop_last(), key);
        t.insert(insert_pos(t, key, key(s.last())), s.last())
    }
}

/// Each item's name is not greater than the names of the items after it.
pub open spec fn sorted_by_name<A>(t: Seq<A>, key: spec_fn(A) -> Seq<char>) -> bool {
    forall|i: int, j: int| 0 <= i < j < t.len() ==> !name_lt(key(t[j]), key(t[i]))
}

pub proof fn lemma_insert_pos_range<A>(t: Seq<A>, key: spec_fn(A) -> Seq<char>, k: Seq<char>)
    ensures
        0 <= insert_pos(t, key, k) <= t.len(),
    decreases t.len(),
{
    if t.len() > 0 {
        lemma_insert_pos_range(t.drop_last(), key, k);
    }
}

/// In a sorted sequence, the items before the insertion point of `k` are not
/// greater than `k`, and those from it on are greater.
pub proof fn lemma_insert_pos_splits<A>(t: Seq<A>, key: spec_fn(A) -> Seq<char>, k: Seq<char>)
    requires
        sorted_by_name(t, key),
    ensures
        forall|i: int| 0 <= i < insert_pos(t, key, k) ==> !name_lt(k, #[trigger] key(t[i])),
        forall|i: int| insert_pos(t, key, k) <= i < t.len() ==> name_lt(k, #[trigger] key(t[i])),
    decreases t.len(),
{
    lemma_insert_pos_range(t, key, k);
    if t.len() > 0 {
        let p = t.drop_last();
        assert(sorted_by_name(p, key));
        lemma_insert_pos_range(p, key, k);
        if name_lt(k, key(t.last())) {
            lemma_insert_pos_splits(p, key, k);
            assert forall|i: int| 0 <= i < insert_pos(t, key, k) implies !name_lt(
                k,
                #[trigger] key(t[i]),
            ) by {
                assert(t[i] == p[i]);
            }
            assert forall|i: int| insert_pos(t, key, k) <= i < t.len() implies name_lt(
                k,
                #[trigger] key(t[i]),
            ) by {
                if i < t.len() - 1 {
                    assert(t[i] == p[i]);
                }
            }
        } else {
            assert forall|i: int| 0 <= i < insert_pos(t, key, k) implies !name_lt(
                k,
                #[trigger] key(t[i]),
            ) by {
                if i < t.len() - 1 {
                    let a = key(t[i]);
                    let b = key(t.last());
                    assert(!name_lt(b, a));
                    lemma_name_lt_total(a, b);
                    if name_lt(k, a) && name_lt(a, b) {
                        lemma_name_lt_transitive(k, a, b);
                    }
                }
            }
        }
    }
}

/// The sorted sequence is sorted by name.
pub proof fn lemma_sort_sorted<A>(s: Seq<A>, key: spec_fn(A) -> Seq<char>)
    ensures
        sorted_by_name(sort_by_name(s, key), key),
    decreases s.len(),
{
    if s.len() > 0 {
        let t = sort_by_name(s.drop_last(), key);
        let x = s.last();
        let k = key(x);
        lemma_sort_sorted(s.drop_last(), key);
        lemma_insert_pos_splits(t, key, k);
        lemma_insert_pos_range(t, key, k);
        let p = insert_pos(t, key, k);
        let u = t.insert(p, x);
        assert forall|i: int, j: int| 0 <= i < j < u.len() implies !name_lt(
            key(u[j]),
            key(u[i]),
        ) by {
            if j < p {
            } else if j == p {
                assert(!name_lt(k, key(t[i])));
                lemma_name_lt_total(k, key(t[i]));
                lemma_name_lt_asymmetric(key(t[i]), k);
            } else if i < p {
                assert(u[j] == t[j - 1]);
            } else if i == p {
                assert(name_lt(k, key(t[j - 1])));
                lemma_name_lt_asymmetric(k, key(t[j - 1]));
            } else {
                assert(u[i] == t[i - 1] && u[j] == t[j - 1]);
            }
        }
    }
}

/// Sorting keeps every item, as often as it occurs.
pub proof fn lemma_sort_permutes<A>(s: Seq<A>, key: spec_fn(A) -> Seq<char>)
    ensures
        sort_by_name(s, key).to_multiset() == s.to_multiset(),
    decreases s.len(),
{
    broadcast use vstd::seq_lib::group_to_multiset_ensures;

    if s.len() > 0 {
        let t = sort_by_name(s.drop_last(), key);
        lemma_sort_permutes(s.drop_last(), key);
        lemma_insert_pos_range(t, key, key(s.last()));
        vstd::seq_lib::to_multiset_insert(t, insert_pos(t, key, key(s.last())), s.last());
        assert(s =~= s.drop_last().push(s.last()));
        vstd::seq_lib::to_multiset_build(s.drop_last(), s.last());
    }
}

/// Sorts the files by name, keeping the order of files with equal names.
pub fn sort_files(v: &mut Vec<LsOutputFile>)
    ensures
        file_views(final(v)@) == sort_by_name(file_views(old(v)@), file_key()),
{
    let ghost orig = file_views(v@);
    let n = v.len();
    let mut i: usize = 0;
    assert(orig.take(0) =~= seq![]);
    while i < n
        invariant
            i <= n == v@.len() == orig.len(),
            file_views(v@).take(i as int) == sort_by_name(orig.take(i as int), file_key()),
            file_views(v@).skip(i as int) == orig.skip(i as int),
        decreases n - i,
    {
        let ghost sorted = file_views(v@).take(i as int);
        assert(orig.take(i + 1).drop_last() =~= orig.take(i as int));
        assert(orig[i as int] == file_views(v@).skip(i as int)[0]);
        let ghost pre = file_views(v@);
        assert forall|k: int| i <= k < n implies pre[k] == orig[k] by {
            assert(pre.skip(i as int)[k - i] == orig.skip(i as int)[k - i]);
        }
        let x = v.remove(i);
        assert(file_views(v@) =~= pre.remove(i as int));
        assert(file_views(v@).take(i as int) =~= sorted);
        assert(file_views(v@).skip(i as int) =~= orig.skip(i + 1));
        let mut j: usize = i;
        assert(sorted.take(i as int) =~= sorted);
        while j > 0 && precedes(x.name.as_str(), v[j - 1].name.as_str())
            invariant
                j <= i < n,
                v@.len() == n - 1,
                sorted == file_views(v@).take(i as int),
                insert_pos(sorted, file_key(), x.name@) == insert_pos(
                    sorted.take(j as int),
                    file_key(),
                    x.name@,
                ),
            decreases j,
        {
            assert(sorted.take(j as int).drop_last() =~= sorted.take(j - 1));
            j -= 1;
        }
        proof {
            lemma_insert_pos_range(sorted, file_key(), x.name@);
        }
        let ghost old_v = v@;
        v.insert(j, x);
        assert(file_views(v@) =~= file_views(old_v).insert(j as int, x@));
        assert(file_views(v@).take(i + 1) =~= sorted.insert(j as int, x@));
        assert(file_views(v@).skip(i + 1) =~= orig.skip(i + 1));
        i += 1;
    }
    assert(orig.take(n as int) =~= orig);
    assert(file_views(v@).take(n as int) =~= file_views(v@));
}

/// Sorts the names, keeping the order of equal names.
pub fn sort_names(v: &mut Vec<String>)
    ensures
        string_views(final(v)@) == sort_by_name(string_views(old(v)@), folder_key()),
{
    let ghost orig = string_views(v@);
    let n = v.len();
    let mut i: usize = 0;
    assert(orig.take(0) =~= seq![]);
    while i < n
        invariant
            i <= n == v@.len() == orig.len(),
            string_views(v@).take(i as int) == sort_by_name(orig.take(i as int), folder_key()),
            string_views(v@).skip(i as int) == orig.skip(i as int),
        decreases n - i,
    {
        let ghost sorted = string_views(v@).take(i as int);
        assert(orig.take(i + 1).drop_last() =~= orig.take(i as int));
        assert(orig[i as int] == string_views(v@).skip(i as int)[0]);
        let ghost pre = string_views(v@);
        assert forall|k: int| i <= k < n implies pre[k] == orig[k] by {
            assert(pre.skip(i as int)[k - i] == orig.skip(i as int)[k - i]);
        }
        let x = v.remove(i);
        assert(string_views(v@) =~= pre.remove(i as int));
        assert(string_views(v@).take(i as int) =~= sorted);
        assert(string_views(v@).skip(i as int) =~= orig.skip(i + 1));
        let mut j: usize = i;
        assert(sorted.take(i as int) =~= sorted);
        while j > 0 && precedes(x.as_str(), v[j - 1].as_str())
            invariant
                j <= i < n,
                v@.len() == n - 1,
                sorted == string_views(v@).take(i as int),
                insert_pos(sorted, folder_key(), x@) == insert_pos(
                    sorted.take(j as int),
                    folder_key(),
                    x@,
                ),
            decreases j,
        {
            assert(sorted.take(j as int).drop_last() =~= sorted.take(j - 1));
            j -= 1;
        }
        proof {
            lemma_insert_pos_range(sorted, folder_key(), x@);
        }
        let ghost old_v = v@;
        v.insert(j, x);
        assert(string_views(v@) =~= string_views(old_v).insert(j as int, x@));
        assert(string_views(v@).take(i + 1) =~= sorted.insert(j as int, x@));
        assert(string_views(v@).skip(i + 1) =~= orig.skip(i + 1));
        i += 1;
    }
    assert(orig.take(n as int) =~= orig);
    assert(string_views(v@).take(n as int) =~= string_views(v@));
}

} // verus!
