//! Bringing the workers' tables together.
//!
//! For every key that any worker has seen, the merge collects the values that
//! the workers hold for it, in the order of the workers. The result is a table
//! again, so its keys come in ascending order whatever the order in which the
//! workers finished.

use vstd::multiset::Multiset;
use vstd::prelude::*;
use crate::table::KeyedTable;

verus! {

/// The mappings that `tables` hold.
pub open spec fn views_of<T>(tables: Seq<KeyedTable<T>>) -> Seq<Map<Seq<char>, T>> {
    tables.map_values(|t: KeyedTable<T>| t@)
}

/// The keys that at least one of `partials` holds.
pub open spec fn key_union<T>(partials: Seq<Map<Seq<char>, T>>) -> Set<Seq<char>> {
    Set::new(
        |k: Seq<char>|
            exists|w: int| 0 <= w < partials.len() && (#[trigger] partials[w]).contains_key(k),
    )
}

/// The values that `partials` hold for `key`, in the order of `partials`. A
/// mapping without the key contributes nothing.
pub open spec fn present<T>(partials: Seq<Map<Seq<char>, T>>, key: Seq<char>) -> Seq<T>
    decreases partials.len(),
{
    if partials.len() == 0 {
        Seq::empty()
    } else {
        let before = present(partials.drop_last(), key);
        if partials.last().contains_key(key) {
            before.push(partials.last()[key])
        } else {
            before
        }
    }
}

/// The merge of `partials`: each key of their union, with the values held for
/// it.
pub open spec fn merged<T>(partials: Seq<Map<Seq<char>, T>>) -> Map<Seq<char>, Seq<T>> {
    Map::new(|k: Seq<char>| key_union(partials).contains(k), |k: Seq<char>| present(partials, k))
}

/// The values behind the references of each group.
pub open spec fn groups_view<'a, T>(groups: Map<Seq<char>, Vec<&'a T>>) -> Map<Seq<char>, Seq<T>> {
    groups.map_values(|g: Vec<&'a T>| g@.unref())
}

/// A key has values in `partials` exactly if it is in their union.
pub proof fn lemma_present_len<T>(partials: Seq<Map<Seq<char>, T>>, key: Seq<char>)
    ensures
        key_union(partials).contains(key) <==> present(partials, key).len() > 0,
        present(partials, key).len() <= partials.len(),
    decreases partials.len(),
{
    if partials.len() > 0 {
        let head = partials.drop_last();
        lemma_present_len(head, key);
        if key_union(partials).contains(key) {
            let w = choose|w: int|
                0 <= w < partials.len() && (#[trigger] partials[w]).contains_key(key);
            if w < partials.len() - 1 {
                assert(head[w].contains_key(key));
            }
        }
        if key_union(head).contains(key) {
            let w = choose|w: int| 0 <= w < head.len() && (#[trigger] head[w]).contains_key(key);
            assert(partials[w].contains_key(key));
        }
        if partials.last().contains_key(key) {
            assert(partials[partials.len() - 1].contains_key(key));
        }
    }
}

/// The values held for `key`, counted without regard to the order of
/// `partials`.
proof fn lemma_present_multiset<T>(partials: Seq<Map<Seq<char>, T>>, key: Seq<char>)
    ensures
        present(partials, key).to_multiset() == partials.fold_left(
            Multiset::<T>::empty(),
            |acc: Multiset<T>, m: Map<Seq<char>, T>|
                if m.contains_key(key) {
                    acc.insert(m[key])
                } else {
                    acc
                },
        ),
    decreases partials.len(),
{
    let f = |acc: Multiset<T>, m: Map<Seq<char>, T>|
        if m.contains_key(key) {
            acc.insert(m[key])
        } else {
            acc
        };
    if partials.len() == 0 {
        assert(present(partials, key).to_multiset() =~= Multiset::<T>::empty()) by {
            vstd::seq_lib::to_multiset_len(present(partials, key));
            assert(present(partials, key).to_multiset().len() == 0);
        }
    } else {
        lemma_present_multiset(partials.drop_last(), key);
        if partials.last().contains_key(key) {
            vstd::seq_lib::to_multiset_build(
                present(partials.drop_last(), key),
                partials.last()[key],
            );
        }
    }
}

/// The merge does not depend on the order of the workers: if `b` holds the
/// mappings of `a` in another order, the two merges have the same keys, and
/// for each key the same values, each as often as in the other.
pub proof fn lemma_merged_permutation<T>(
    a: Seq<Map<Seq<char>, T>>,
    b: Seq<Map<Seq<char>, T>>,
)
    requires
        a.to_multiset() == b.to_multiset(),
    ensures
        merged(a).dom() == merged(b).dom(),
        forall|k: Seq<char>| #[trigger] present(a, k).to_multiset() == present(b, k).to_multiset(),
{
    assert forall|k: Seq<char>| #[trigger]
        present(a, k).to_multiset() == present(b, k).to_multiset() by {
        let f = |acc: Multiset<T>, m: Map<Seq<char>, T>|
            if m.contains_key(k) {
                acc.insert(m[k])
            } else {
                acc
            };
        assert(vstd::seq_lib::commutative_foldl(f)) by {
            assert forall|x: Map<Seq<char>, T>, y: Map<Seq<char>, T>, v: Multiset<T>| #[trigger]
                f(f(v, x), y) == f(f(v, y), x) by {
                assert(f(f(v, x), y) =~= f(f(v, y), x));
            }
        }
        lemma_present_multiset(a, k);
        lemma_present_multiset(b, k);
        vstd::seq_lib::lemma_fold_left_permutation(a, b, f, Multiset::<T>::empty());
    }
    assert(merged(a).dom() =~= merged(b).dom()) by {
        assert forall|k: Seq<char>| key_union(a).contains(k) <==> key_union(b).contains(k) by {
            lemma_present_len(a, k);
            lemma_present_len(b, k);
            vstd::seq_lib::to_multiset_len(present(a, k));
            vstd::seq_lib::to_multiset_len(present(b, k));
        }
    }
}

/// Two merges of the same tables, taken in any order of the workers, list the
/// same keys in the same order.
pub proof fn lemma_merge_keys_permutation<'a, 'b, T>(
    a: Seq<Map<Seq<char>, T>>,
    b: Seq<Map<Seq<char>, T>>,
    of_a: &KeyedTable<Vec<&'a T>>,
    of_b: &KeyedTable<Vec<&'b T>>,
)
    requires
        a.to_multiset() == b.to_multiset(),
        of_a.wf(),
        of_b.wf(),
        groups_view(of_a@) == merged(a),
        groups_view(of_b@) == merged(b),
    ensures
        of_a.keys() == of_b.keys(),
{
    lemma_merged_permutation(a, b);
    assert(of_a@.dom() =~= groups_view(of_a@).dom());
    assert(of_b@.dom() =~= groups_view(of_b@).dom());
    of_a.lemma_keys_determined(of_b);
}

/// The value to which the values held for one key are folded: the first of
/// them, combined with each of the others in turn.
pub open spec fn fold_group<T>(values: Seq<T>, combine: spec_fn(T, T) -> T) -> T
    recommends
        values.len() > 0,
{
    values.drop_first().fold_left(values.first(), combine)
}

/// Whether `combine` gives the same for two values in either order.
pub open spec fn commutative<T>(combine: spec_fn(T, T) -> T) -> bool {
    forall|x: T, y: T| #[trigger] combine(x, y) == combine(y, x)
}

/// Whether `combine` gives the same for three values however they are paired.
pub open spec fn associative<T>(combine: spec_fn(T, T) -> T) -> bool {
    forall|x: T, y: T, z: T| #[trigger] combine(combine(x, y), z) == combine(x, combine(y, z))
}

/// With a rule that is commutative and associative, the fold of a group does
/// not depend on the order of its values.
pub proof fn lemma_fold_group_permutation<T>(
    s1: Seq<T>,
    s2: Seq<T>,
    combine: spec_fn(T, T) -> T,
)
    requires
        s1.len() > 0,
        s1.to_multiset() == s2.to_multiset(),
        commutative(combine),
        associative(combine),
    ensures
        fold_group(s1, combine) == fold_group(s2, combine),
{
    broadcast use vstd::seq_lib::group_to_multiset_ensures;

    assert(vstd::seq_lib::commutative_foldl(combine)) by {
        assert forall|x: T, y: T, v: T| #[trigger]
            combine(combine(v, x), y) == combine(combine(v, y), x) by {
            assert(combine(combine(v, x), y) == combine(v, combine(x, y)));
            assert(combine(x, y) == combine(y, x));
            assert(combine(combine(v, y), x) == combine(v, combine(y, x)));
        }
    }
    let x = s1.first();
    assert(s1.contains(x));
    assert(s2.to_multiset().count(x) > 0);
    assert(s2.contains(x));
    let i = s2.index_of(x);
    let rest1 = s1.drop_first();
    let rest2 = s2.remove(i);
    assert(rest1 =~= s1.remove(0));
    assert(rest1.to_multiset() == rest2.to_multiset());
    vstd::seq_lib::lemma_fold_left_permutation(rest1, rest2, combine, x);
    if i == 0 {
        assert(rest2 =~= s2.drop_first());
    } else {
        let y = s2.first();
        let tail2 = s2.drop_first();
        let others = tail2.remove(i - 1);
        // Both folds come down to the fold of the other values, begun with
        // the first two combined.
        assert(rest2 =~= seq![y] + others);
        rest2.lemma_fold_left_alt(x, combine);
        assert(rest2.subrange(1, rest2.len() as int) =~= others);
        others.lemma_fold_left_alt(combine(x, y), combine);
        assert(rest2.fold_left(x, combine) == others.fold_left(combine(x, y), combine));
        let moved = seq![x] + others;
        assert(tail2[i - 1] == x);
        assert(moved =~= others.insert(0, x));
        assert(moved.to_multiset() == tail2.to_multiset()) by {
            assert(others.to_multiset() == tail2.to_multiset().remove(x));
            assert(moved.to_multiset() == others.to_multiset().insert(x));
            assert(tail2.to_multiset().count(x) > 0) by {
                assert(tail2.contains(x));
            }
            assert(tail2.to_multiset().remove(x).insert(x) =~= tail2.to_multiset());
        }
        vstd::seq_lib::lemma_fold_left_permutation(tail2, moved, combine, y);
        moved.lemma_fold_left_alt(y, combine);
        assert(moved.subrange(1, moved.len() as int) =~= others);
        others.lemma_fold_left_alt(combine(y, x), combine);
        assert(moved.fold_left(y, combine) == others.fold_left(combine(y, x), combine));
        assert(combine(x, y) == combine(y, x));
    }
}

/// Where the values of a key are folded with a rule that is commutative and
/// associative, the merged value of the key does not depend on the order of
/// the workers.
pub proof fn lemma_merged_fold_permutation<T>(
    a: Seq<Map<Seq<char>, T>>,
    b: Seq<Map<Seq<char>, T>>,
    key: Seq<char>,
    combine: spec_fn(T, T) -> T,
)
    requires
        a.to_multiset() == b.to_multiset(),
        merged(a).contains_key(key),
        commutative(combine),
        associative(combine),
    ensures
        merged(b).contains_key(key),
        fold_group(merged(a)[key], combine) == fold_group(merged(b)[key], combine),
{
    lemma_merged_permutation(a, b);
    lemma_present_len(a, key);
    assert(present(a, key).to_multiset() == present(b, key).to_multiset());
    lemma_fold_group_permutation(present(a, key), present(b, key), combine);
}

/// A key that exactly one worker holds is merged to that worker's value, and
/// to nothing else: whatever the rule of the fold, the merged value is the
/// value of that worker.
pub proof fn lemma_merged_single_holder<T>(
    partials: Seq<Map<Seq<char>, T>>,
    holder: int,
    key: Seq<char>,
)
    requires
        0 <= holder < partials.len(),
        forall|w: int|
            0 <= w < partials.len() ==> ((#[trigger] partials[w]).contains_key(key) <==> w
                == holder),
    ensures
        merged(partials).contains_key(key),
        merged(partials)[key] == seq![partials[holder][key]],
        forall|combine: spec_fn(T, T) -> T| #[trigger]
            fold_group(merged(partials)[key], combine) == partials[holder][key],
    decreases partials.len(),
{
    lemma_merged_single_holder_group(partials, holder, key);
    assert(seq![partials[holder][key]].drop_first() =~= Seq::<T>::empty());
}

/// The group of a key that exactly one worker holds.
proof fn lemma_merged_single_holder_group<T>(
    partials: Seq<Map<Seq<char>, T>>,
    holder: int,
    key: Seq<char>,
)
    requires
        0 <= holder < partials.len(),
        forall|w: int|
            0 <= w < partials.len() ==> ((#[trigger] partials[w]).contains_key(key) <==> w
                == holder),
    ensures
        merged(partials).contains_key(key),
        merged(partials)[key] == seq![partials[holder][key]],
    decreases partials.len(),
{
    let head = partials.drop_last();
    assert(partials[holder].contains_key(key));
    if holder == partials.len() - 1 {
        assert forall|w: int| 0 <= w < head.len() implies !(#[trigger] head[w]).contains_key(
            key,
        ) by {
            assert(head[w] == partials[w]);
        }
        lemma_present_len(head, key);
        assert(present(head, key) =~= Seq::<T>::empty());
        assert(present(partials, key) =~= seq![partials[holder][key]]);
    } else {
        assert forall|w: int| 0 <= w < head.len() implies ((#[trigger] head[w]).contains_key(key)
            <==> w == holder) by {
            assert(head[w] == partials[w]);
        }
        lemma_merged_single_holder_group(head, holder, key);
        assert(!partials[partials.len() - 1].contains_key(key));
    }
}

/// Workers that all hold the same mapping merge to the keys of that mapping,
/// each with one copy of its value for every worker.
pub proof fn lemma_merged_copies<T>(partials: Seq<Map<Seq<char>, T>>, m: Map<Seq<char>, T>)
    requires
        partials.len() > 0,
        forall|w: int| 0 <= w < partials.len() ==> #[trigger] partials[w] == m,
    ensures
        merged(partials).dom() == m.dom(),
        forall|k: Seq<char>|
            m.contains_key(k) ==> #[trigger] merged(partials)[k] == Seq::new(
                partials.len(),
                |w: int| m[k],
            ),
    decreases partials.len(),
{
    let head = partials.drop_last();
    assert(partials.last() == m);
    assert(merged(partials).dom() =~= m.dom()) by {
        assert forall|k: Seq<char>| key_union(partials).contains(k) <==> m.contains_key(k) by {
            if m.contains_key(k) {
                assert(partials[0].contains_key(k));
            }
        }
    }
    assert forall|k: Seq<char>| m.contains_key(k) implies #[trigger] merged(partials)[k]
        == Seq::new(partials.len(), |w: int| m[k]) by {
        if head.len() == 0 {
            assert(present(head, k) =~= Seq::<T>::empty());
            assert(present(partials, k) =~= Seq::new(partials.len(), |w: int| m[k]));
        } else {
            assert forall|w: int| 0 <= w < head.len() implies #[trigger] head[w] == m by {
                assert(head[w] == partials[w]);
            }
            lemma_merged_copies(head, m);
            assert(merged(head)[k] == present(head, k));
            assert(present(partials, k) =~= Seq::new(partials.len(), |w: int| m[k]));
        }
    }
}

/// Where every worker holds the same value for a key, a rule that combines a
/// value with itself to that value folds the group to it, however many the
/// workers are.
pub proof fn lemma_fold_group_copies<T>(value: T, workers: nat, combine: spec_fn(T, T) -> T)
    requires
        workers > 0,
        forall|x: T| #[trigger] combine(x, x) == x,
    ensures
        fold_group(Seq::new(workers, |w: int| value), combine) == value,
    decreases workers,
{
    let group = Seq::new(workers, |w: int| value);
    let others = group.drop_first();
    if workers > 1 {
        let fewer = Seq::new((workers - 1) as nat, |w: int| value);
        lemma_fold_group_copies(value, (workers - 1) as nat, combine);
        assert(others =~= fewer);
        assert(others.drop_last() =~= fewer.drop_first());
        assert(combine(value, value) == value);
    }
}

/// The number of workers does not change what a key is merged to, where every
/// worker holds the same mapping and the rule of the fold combines a value
/// with itself to that value: the merge has the keys of the mapping, and each
/// key is merged to its value there.
pub proof fn lemma_worker_count_invariance<T>(
    partials: Seq<Map<Seq<char>, T>>,
    m: Map<Seq<char>, T>,
    key: Seq<char>,
    combine: spec_fn(T, T) -> T,
)
    requires
        partials.len() > 0,
        forall|w: int| 0 <= w < partials.len() ==> #[trigger] partials[w] == m,
        m.contains_key(key),
        forall|x: T| #[trigger] combine(x, x) == x,
    ensures
        merged(partials).dom() == m.dom(),
        fold_group(merged(partials)[key], combine) == m[key],
{
    lemma_merged_copies(partials, m);
    lemma_fold_group_copies(m[key], partials.len(), combine);
}

/// Position of the first failure among `results`, or their number where none
/// failed.
pub open spec fn first_failure<T, E>(results: Seq<Result<T, E>>) -> int
    decreases results.len(),
{
    if results.len() == 0 || results.first() is Err {
        0
    } else {
        1 + first_failure(results.drop_first())
    }
}

/// `first_failure` is the one position that holds a failure and has none
/// before it.
pub proof fn lemma_first_failure<T, E>(results: Seq<Result<T, E>>, at: int)
    requires
        0 <= at <= results.len(),
        forall|i: int| 0 <= i < at ==> (#[trigger] results[i]) is Ok,
        at < results.len() ==> results[at] is Err,
    ensures
        first_failure(results) == at,
    decreases results.len(),
{
    if results.len() > 0 && results.first() is Ok {
        let rest = results.drop_first();
        assert forall|i: int| 0 <= i < at - 1 implies (#[trigger] rest[i]) is Ok by {
            assert(rest[i] == results[i + 1]);
        }
        lemma_first_failure(rest, at - 1);
    }
}

/// Decides how the run went, from how each worker ended. Where every worker
/// succeeded, the run goes on with their tables, in the order of the workers.
/// Where any worker failed, the run fails with the error of the first worker
/// that did, and no table is kept.
pub fn collect_partials<T, E>(results: Vec<Result<T, E>>) -> (r: Result<Vec<T>, E>)
    ensures
        match r {
            Ok(partials) => {
                &&& first_failure(results@) == results@.len()
                &&& partials@.len() == results@.len()
                &&& forall|i: int|
                    0 <= i < results@.len() ==> results@[i] == Ok::<T, E>(#[trigger] partials@[i])
            },
            Err(e) => {
                &&& first_failure(results@) < results@.len()
                &&& results@[first_failure(results@)] == Err::<T, E>(e)
            },
        },
{
    let mut partials: Vec<T> = Vec::new();
    for result in it: results
        invariant
            it.seq() == results@,
            partials@.len() == it.index(),
            forall|i: int| 0 <= i < it.index() ==> (#[trigger] results@[i]) is Ok,
            forall|i: int|
                0 <= i < it.index() ==> results@[i] == Ok::<T, E>(#[trigger] partials@[i]),
    {
        match result {
            Ok(partial) => {
                partials.push(partial);
            },
            Err(e) => {
                proof {
                    lemma_first_failure(results@, it.index());
                }
                return Err(e);
            },
        }
    }
    proof {
        lemma_first_failure(results@, results@.len() as int);
    }
    Ok(partials)
}

/// Collects, for every key that any of `partials` holds, the values held for
/// it, in the order of `partials`.
pub fn merge_groups<'a, T>(partials: &'a Vec<KeyedTable<T>>) -> (groups: KeyedTable<Vec<&'a T>>)
    requires
        forall|w: int| 0 <= w < partials.len() ==> (#[trigger] partials[w]).wf(),
    ensures
        groups.wf(),
        groups_view(groups@) == merged(views_of(partials@)),
{
    let ghost pv = views_of(partials@);
    let mut groups: KeyedTable<Vec<&'a T>> = KeyedTable::new();
    let mut w: usize = 0;
    assert(groups_view(groups@) =~= merged(pv.take(0)));
    while w < partials.len()
        invariant
            w <= partials.len(),
            pv == views_of(partials@),
            forall|w: int| 0 <= w < partials.len() ==> (#[trigger] partials[w]).wf(),
            groups.wf(),
            groups_view(groups@) == merged(pv.take(w as int)),
        decreases partials.len() - w,
    {
        let partial: &'a KeyedTable<T> = &partials[w];
        let ghost done = pv.take(w as int);
        let ghost m = partial@;
        let ghost keys = partial.keys();
        proof {
            partial.lemma_wf();
            crate::order::lemma_ascending_no_duplicates(keys);
        }
        let n: usize = partial.len();
        let mut j: usize = 0;
        while j < n
            invariant
                j <= n,
                n == keys.len(),
                partial.wf(),
                keys == partial.keys(),
                keys.no_duplicates(),
                m == partial@,
                forall|i: int| 0 <= i < keys.len() ==> m.contains_key(#[trigger] keys[i]),
                groups.wf(),
                forall|k: Seq<char>| #[trigger]
                    groups_view(groups@).contains_key(k) ==> key_union(done).contains(k)
                        || keys.take(j as int).contains(k),
                forall|k: Seq<char>| #[trigger]
                    key_union(done).contains(k) ==> groups_view(groups@).contains_key(k),
                forall|k: Seq<char>| #[trigger]
                    keys.take(j as int).contains(k) ==> groups_view(groups@).contains_key(k),
                forall|k: Seq<char>| #[trigger]
                    groups_view(groups@).contains_key(k) ==> groups_view(groups@)[k] == present(
                        done,
                        k,
                    ) + if keys.take(j as int).contains(k) {
                        seq![m[k]]
                    } else {
                        Seq::empty()
                    },
            decreases n - j,
        {
            let key: &'a str = partial.key_at(j);
            let value: &'a T = partial.value_at(j);
            let ghost before = groups_view(groups@);
            let ghost old_groups = groups@;
            proof {
                lemma_present_len(done, key@);
                assert(!keys.take(j as int).contains(key@)) by {
                    if keys.take(j as int).contains(key@) {
                        let i = choose|i: int|
                            0 <= i < keys.take(j as int).len() && keys.take(j as int)[i] == key@;
                        assert(keys[i] == keys[j as int]);
                    }
                }
                assert(keys.take(j + 1) =~= keys.take(j as int).push(key@));
            }
            match groups.get_mut(key) {
                Some(group) => {
                    let ghost g0 = group@;
                    group.push(value);
                    proof {
                        assert(group@.unref() =~= g0.unref().push(*value));
                    }
                },
                None => {
                    let mut group: Vec<&'a T> = Vec::new();
                    group.push(value);
                    proof {
                        assert(group@.unref() =~= seq![*value]);
                    }
                    groups.insert(key.to_owned(), group);
                },
            }
            proof {
                let after = groups_view(groups@);
                let added = if before.contains_key(key@) {
                    before[key@].push(*value)
                } else {
                    seq![*value]
                };
                assert(after =~= before.insert(key@, added));
                assert forall|k: Seq<char>| #[trigger] after.contains_key(k) implies after[k]
                    == present(done, k) + if keys.take(j + 1).contains(k) {
                    seq![m[k]]
                } else {
                    Seq::empty()
                } by {
                    if k == key@ {
                        assert(keys.take(j + 1).contains(k)) by {
                            assert(keys.take(j + 1)[j as int] == k);
                        }
                        assert(present(done, k) + seq![m[k]] =~= present(done, k).push(m[k]));
                        if before.contains_key(k) {
                            assert(before[k] =~= present(done, k));
                        } else {
                            assert(present(done, k) =~= Seq::<T>::empty());
                        }
                    } else {
                        assert(before.contains_key(k));
                        assert(keys.take(j + 1).contains(k) == keys.take(j as int).contains(k));
                    }
                }
                assert forall|k: Seq<char>|
                    after.contains_key(k) <==> key_union(done).contains(k) || keys.take(
                        j + 1,
                    ).contains(k) by {
                    if k == key@ {
                        assert(keys.take(j + 1)[j as int] == k);
                    } else {
                        assert(after.contains_key(k) == before.contains_key(k));
                        assert(keys.take(j + 1).contains(k) == keys.take(j as int).contains(k));
                    }
                }
            }
            j = j + 1;
        }
        proof {
            assert(keys.take(n as int) =~= keys);
            let next = pv.take(w + 1);
            assert(next.drop_last() =~= done);
            assert(next.last() == m);
            assert(m.dom() =~= keys.to_set());
            assert(groups_view(groups@) =~= merged(next)) by {
                assert forall|k: Seq<char>|
                    groups_view(groups@).contains_key(k) <==> key_union(next).contains(k) by {
                    assert(keys.contains(k) <==> keys.to_set().contains(k));
                    if key_union(next).contains(k) {
                        let v = choose|v: int|
                            0 <= v < next.len() && (#[trigger] next[v]).contains_key(k);
                        if v < w {
                            assert(done[v].contains_key(k));
                        } else {
                            assert(keys.to_set().contains(k));
                        }
                    }
                    if key_union(done).contains(k) {
                        let v = choose|v: int|
                            0 <= v < done.len() && (#[trigger] done[v]).contains_key(k);
                        assert(next[v].contains_key(k));
                    }
                    if keys.contains(k) {
                        assert(next[w as int].contains_key(k));
                    }
                }
                assert forall|k: Seq<char>| #[trigger]
                    groups_view(groups@).contains_key(k) implies groups_view(groups@)[k]
                    == merged(next)[k] by {
                    if m.contains_key(k) {
                        assert(keys.to_set().contains(k));
                        assert(present(done, k) + seq![m[k]] =~= present(done, k).push(m[k]));
                    } else {
                        assert(!keys.to_set().contains(k));
                        assert(present(done, k) + Seq::<T>::empty() =~= present(done, k));
                    }
                }
            }
        }
        w = w + 1;
    }
    proof {
        assert(pv.take(partials.len() as int) =~= pv);
    }
    groups
}

} // verus!
