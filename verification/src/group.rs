//! Grouping items by the file they belong to.

use vstd::prelude::*;

verus! {

broadcast use vstd::string::group_string_axioms;

/// The values whose key is `key`, in their order.
pub open spec fn values_with_key<T>(items: Seq<(String, T)>, key: Seq<char>) -> Seq<T>
    decreases items.len(),
{
    if items.len() == 0 {
        Seq::empty()
    } else if items.last().0@ == key {
        values_with_key(items.drop_last(), key).push(items.last().1)
    } else {
        values_with_key(items.drop_last(), key)
    }
}

/// Distinct keys.
pub open spec fn distinct_keys<T>(groups: Seq<(String, Vec<T>)>) -> bool {
    forall|a: int, b: int|
        0 <= a < b < groups.len() ==> (#[trigger] groups[a]).0@ != (#[trigger] groups[b]).0@
}

/// Index of the first group whose key is `key`, or `groups.len()`.
pub open spec fn group_index<T>(groups: Seq<(String, Vec<T>)>, key: Seq<char>) -> int
    decreases groups.len(),
{
    if groups.len() == 0 {
        0
    } else {
        let k = group_index(groups.drop_last(), key);
        if k < groups.len() - 1 {
            k
        } else if groups.last().0@ == key {
            groups.len() - 1
        } else {
            groups.len() as int
        }
    }
}

/// Index of the first item whose key is `key`, or `items.len()`.
pub open spec fn first_item<T>(items: Seq<(String, T)>, key: Seq<char>) -> int
    decreases items.len(),
{
    if items.len() == 0 {
        0
    } else {
        let k = first_item(items.drop_last(), key);
        if k < items.len() - 1 {
            k
        } else if items.last().0@ == key {
            items.len() - 1
        } else {
            items.len() as int
        }
    }
}

/// Every item's key has a group.
pub open spec fn keys_covered<T>(groups: Seq<(String, Vec<T>)>, items: Seq<(String, T)>) -> bool {
    forall|i: int| 0 <= i < items.len() ==> group_index(groups, (#[trigger] items[i]).0@) < groups.len()
}

/// Each group holds the values of its key, and has at least one.
pub open spec fn groups_hold_values<T>(groups: Seq<(String, Vec<T>)>, items: Seq<(String, T)>) -> bool {
    &&& forall|g: int|
        0 <= g < groups.len() ==> (#[trigger] groups[g]).1@ == values_with_key(items, groups[g].0@)
    &&& forall|g: int|
        0 <= g < groups.len() ==> values_with_key(items, (#[trigger] groups[g]).0@).len() > 0
}

/// The groups come in order of each key's first appearance.
pub open spec fn first_appearance_order<T>(groups: Seq<(String, Vec<T>)>, items: Seq<(String, T)>) -> bool {
    forall|a: int, b: int|
        0 <= a < b < groups.len() ==> first_item(items, (#[trigger] groups[a]).0@) < first_item(
            items,
            (#[trigger] groups[b]).0@,
        )
}

proof fn lemma_group_index_at_most<T>(groups: Seq<(String, Vec<T>)>, key: Seq<char>, h: int)
    requires
        0 <= h < groups.len(),
        groups[h].0@ == key,
    ensures
        group_index(groups, key) <= h,
    decreases groups.len(),
{
    if h < groups.len() - 1 {
        lemma_group_index_at_most(groups.drop_last(), key, h);
    } else {
        lemma_group_index_bound(groups.drop_last(), key);
    }
}

proof fn lemma_group_index_bound<T>(groups: Seq<(String, Vec<T>)>, key: Seq<char>)
    ensures
        0 <= group_index(groups, key) <= groups.len(),
    decreases groups.len(),
{
    if groups.len() > 0 {
        lemma_group_index_bound(groups.drop_last(), key);
    }
}

proof fn lemma_first_item_exact<T>(items: Seq<(String, T)>, key: Seq<char>, f: int)
    requires
        0 <= f < items.len(),
        items[f].0@ == key,
        forall|i: int| 0 <= i < f ==> (#[trigger] items[i]).0@ != key,
    ensures
        first_item(items, key) == f,
    decreases items.len(),
{
    if f < items.len() - 1 {
        let init = items.drop_last();
        assert forall|i: int| 0 <= i < f implies (#[trigger] init[i]).0@ != key by {
            assert(init[i] == items[i]);
        }
        lemma_first_item_exact(init, key, f);
    } else {
        lemma_first_item_absent(items.drop_last(), key);
    }
}

proof fn lemma_first_item_absent<T>(items: Seq<(String, T)>, key: Seq<char>)
    requires
        forall|i: int| 0 <= i < items.len() ==> (#[trigger] items[i]).0@ != key,
    ensures
        first_item(items, key) == items.len(),
    decreases items.len(),
{
    if items.len() > 0 {
        let init = items.drop_last();
        assert forall|i: int| 0 <= i < init.len() implies (#[trigger] init[i]).0@ != key by {
            assert(init[i] == items[i]);
        }
        lemma_first_item_absent(init, key);
    }
}

/// The distinct keys of `items` in order of first appearance, each with the
/// values that carry it, in their order.
pub open spec fn is_grouping<T>(groups: Seq<(String, Vec<T>)>, items: Seq<(String, T)>) -> bool {
    &&& distinct_keys(groups)
    &&& keys_covered(groups, items)
    &&& groups_hold_values(groups, items)
    &&& first_appearance_order(groups, items)
}

/// Keys and their value lists, with ghost bookkeeping: `owner[i]` is the
/// group of item `i`, `firsts[g]` the first item of group `g`.
pub open spec fn gathered<T>(
    keys: Seq<String>,
    vals: Seq<Vec<T>>,
    owner: Seq<int>,
    firsts: Seq<int>,
    items: Seq<(String, T)>,
) -> bool {
    &&& keys.len() == vals.len()
    &&& firsts.len() == keys.len()
    &&& owner.len() == items.len()
    &&& forall|i: int|
        0 <= i < items.len() ==> 0 <= #[trigger] owner[i] < keys.len() && keys[owner[i]]@
            == items[i].0@
    &&& forall|g: int|
        0 <= g < keys.len() ==> 0 <= #[trigger] firsts[g] < items.len() && items[firsts[g]].0@
            == keys[g]@
    &&& forall|g: int, i: int|
        0 <= g < keys.len() && 0 <= i < firsts[g] ==> (#[trigger] items[i]).0@ != (
        #[trigger] keys[g])@
    &&& forall|a: int, b: int| 0 <= a < b < keys.len() ==> #[trigger] firsts[a] < #[trigger] firsts[b]
    &&& forall|a: int, b: int|
        0 <= a < b < keys.len() ==> (#[trigger] keys[a])@ != (#[trigger] keys[b])@
    &&& forall|g: int|
        0 <= g < keys.len() ==> (#[trigger] vals[g])@ == values_with_key(items, keys[g]@)
}

proof fn lemma_values_absent<T>(items: Seq<(String, T)>, key: Seq<char>)
    requires
        forall|i: int| 0 <= i < items.len() ==> (#[trigger] items[i]).0@ != key,
    ensures
        values_with_key(items, key) == Seq::<T>::empty(),
    decreases items.len(),
{
    if items.len() > 0 {
        lemma_values_absent(items.drop_last(), key);
    }
}

/// Index of the key equal to `key`, or `keys.len()`.
fn find_key(keys: &Vec<String>, key: &String) -> (g: usize)
    ensures
        g <= keys@.len(),
        forall|a: int| 0 <= a < g ==> (#[trigger] keys@[a])@ != key@,
        g < keys@.len() ==> keys@[g as int]@ == key@,
{
    let mut g: usize = 0;
    while g < keys.len() && keys[g] != *key
        invariant
            g <= keys@.len(),
            forall|a: int| 0 <= a < g ==> (#[trigger] keys@[a])@ != key@,
        decreases keys@.len() - g,
    {
        g = g + 1;
    }
    g
}

/// Sorts the values into one list per key.
fn gather<T>(items: Vec<(String, T)>) -> (res: (Vec<String>, Vec<Vec<T>>, Ghost<Seq<int>>, Ghost<Seq<int>>))
    ensures
        gathered(res.0@, res.1@, res.2@, res.3@, items@),
{
    let ghost input = items@;
    let mut pending = items;
    let mut keys: Vec<String> = Vec::new();
    let mut vals: Vec<Vec<T>> = Vec::new();
    let n = pending.len();
    let mut k: usize = 0;
    let ghost mut owner: Seq<int> = Seq::empty();
    let ghost mut firsts: Seq<int> = Seq::empty();
    while pending.len() > 0
        invariant
            k + pending@.len() == n == input.len(),
            pending@ == input.skip(k as int),
            gathered(keys@, vals@, owner, firsts, input.take(k as int)),
        decreases pending@.len(),
    {
        let ghost rest = pending@;
        let ghost seen = input.take(k as int);
        let ghost seen2 = input.take(k + 1);
        let (key, value) = pending.remove(0);
        assert(rest[0] == input[k as int]);
        assert(pending@ =~= input.skip(k + 1));
        assert(seen2.drop_last() =~= seen);
        assert(seen2.last() == input[k as int]);
        assert forall|i: int| 0 <= i < k implies #[trigger] seen2[i] == seen[i] by {}
        let g = find_key(&keys, &key);
        let ghost old_keys = keys@;
        let ghost old_vals = vals@;
        if g < keys.len() {
            let mut grp = vals.remove(g);
            grp.push(value);
            vals.insert(g, grp);
            proof {
                assert forall|h: int| 0 <= h < keys@.len() implies (#[trigger] vals@[h])@
                    == values_with_key(seen2, keys@[h]@) by {
                    if h != g {
                        assert(vals@[h] == old_vals[h]);
                    }
                }
                owner = owner.push(g as int);
            }
        } else {
            proof {
                assert forall|i: int| 0 <= i < seen.len() implies (#[trigger] seen[i]).0@ != key@ by {
                    assert(keys@[owner[i]]@ == seen[i].0@);
                }
                lemma_values_absent(seen, key@);
            }
            keys.push(key);
            let mut grp: Vec<T> = Vec::new();
            grp.push(value);
            vals.push(grp);
            proof {
                assert(vals@[g as int]@ =~= Seq::<T>::empty().push(input[k as int].1));
                assert forall|h: int| 0 <= h < keys@.len() implies (#[trigger] vals@[h])@
                    == values_with_key(seen2, keys@[h]@) by {
                    if h < g {
                        assert(vals@[h] == old_vals[h]);
                        assert(keys@[h] == old_keys[h]);
                    }
                }
                assert forall|i: int| 0 <= i < k implies keys@[owner[i]] == old_keys[owner[i]] by {}
                owner = owner.push(g as int);
                assert forall|h: int, i: int|
                    0 <= h < keys@.len() && 0 <= i < firsts.push(k as int)[h] implies (
                    #[trigger] seen2[i]).0@ != (#[trigger] keys@[h])@ by {
                    if h < g {
                        assert(keys@[h] == old_keys[h]);
                        assert(seen[i] == seen2[i]);
                    }
                }
                firsts = firsts.push(k as int);
            }
        }
        k = k + 1;
    }
    assert(input.take(n as int) =~= input);
    (keys, vals, Ghost(owner), Ghost(firsts))
}

/// Pairs each key with its list.
fn pair_up<T>(keys: Vec<String>, vals: Vec<Vec<T>>) -> (groups: Vec<(String, Vec<T>)>)
    requires
        keys@.len() == vals@.len(),
    ensures
        groups@.len() == keys@.len(),
        forall|t: int|
            0 <= t < groups@.len() ==> (#[trigger] groups@[t]).0 == keys@[t] && groups@[t].1
                == vals@[t],
{
    let ghost all_keys = keys@;
    let ghost all_vals = vals@;
    let mut keys = keys;
    let mut vals = vals;
    let mut groups: Vec<(String, Vec<T>)> = Vec::new();
    let m = keys.len();
    while keys.len() > 0
        invariant
            keys@.len() == vals@.len(),
            groups@.len() + keys@.len() == m == all_keys.len() == all_vals.len(),
            keys@ == all_keys.skip(groups@.len() as int),
            vals@ == all_vals.skip(groups@.len() as int),
            forall|t: int|
                0 <= t < groups@.len() ==> (#[trigger] groups@[t]).0 == all_keys[t] && groups@[t].1
                    == all_vals[t],
        decreases keys@.len(),
    {
        let ghost t: int = groups@.len() as int;
        let key = keys.remove(0);
        let v = vals.remove(0);
        assert(key == all_keys[t]);
        assert(v == all_vals[t]);
        groups.push((key, v));
        assert(keys@ =~= all_keys.skip(t + 1));
        assert(vals@ =~= all_vals.skip(t + 1));
    }
    groups
}

/// Groups keyed items by key, as `HashMap::entry(..).or_default().push(..)`
/// does: one group per distinct key, holding that key's values in order;
/// the groups come in order of each key's first appearance.
pub fn group_by_key<T>(items: Vec<(String, T)>) -> (groups: Vec<(String, Vec<T>)>)
    ensures
        is_grouping(groups@, items@),
{
    let ghost input = items@;
    let (keys, vals, Ghost(owner), Ghost(firsts)) = gather(items);
    let ghost ks = keys@;
    let ghost vs = vals@;
    let groups = pair_up(keys, vals);
    proof {
        lemma_grouping(groups@, ks, vs, owner, firsts, input);
    }
    groups
}

proof fn lemma_grouping<T>(
    groups: Seq<(String, Vec<T>)>,
    ks: Seq<String>,
    vs: Seq<Vec<T>>,
    owner: Seq<int>,
    firsts: Seq<int>,
    input: Seq<(String, T)>,
)
    requires
        gathered(ks, vs, owner, firsts, input),
        groups.len() == ks.len(),
        forall|t: int| 0 <= t < groups.len() ==> (#[trigger] groups[t]).0 == ks[t] && groups[t].1 == vs[t],
    ensures
        is_grouping(groups, input),
{
    assert(distinct_keys(groups)) by {
        assert forall|a: int, b: int| 0 <= a < b < groups.len() implies (#[trigger] groups[a]).0@
            != (#[trigger] groups[b]).0@ by {
            assert(groups[a].0 == ks[a] && groups[b].0 == ks[b]);
        }
    }
    assert forall|i: int| 0 <= i < input.len() implies group_index(groups, (#[trigger] input[i]).0@)
        < groups.len() by {
        let h = owner[i];
        assert(groups[h].0 == ks[h]);
        lemma_group_index_at_most(groups, input[i].0@, h);
    }
    assert(groups_hold_values(groups, input)) by {
        assert forall|g: int| 0 <= g < groups.len() implies (#[trigger] groups[g]).1@
            == values_with_key(input, groups[g].0@) by {
            assert(groups[g].0 == ks[g] && groups[g].1 == vs[g]);
        }
        assert forall|g: int| 0 <= g < groups.len() implies values_with_key(
            input,
            (#[trigger] groups[g]).0@,
        ).len() > 0 by {
            assert(groups[g].0 == ks[g]);
            lemma_values_nonempty(input, firsts[g], ks[g]@);
        }
    }
    assert forall|g: int| 0 <= g < groups.len() implies first_item(input, (#[trigger] groups[g]).0@)
        == firsts[g] by {
        assert(groups[g].0 == ks[g]);
        assert forall|i: int| 0 <= i < firsts[g] implies (#[trigger] input[i]).0@ != ks[g]@ by {}
        lemma_first_item_exact(input, ks[g]@, firsts[g]);
    }
    assert forall|a: int, b: int| 0 <= a < b < groups.len() implies first_item(
        input,
        (#[trigger] groups[a]).0@,
    ) < first_item(input, (#[trigger] groups[b]).0@) by {
        assert(firsts[a] < firsts[b]);
    }
}

proof fn lemma_values_nonempty<T>(items: Seq<(String, T)>, i: int, key: Seq<char>)
    requires
        0 <= i < items.len(),
        items[i].0@ == key,
    ensures
        values_with_key(items, key).len() > 0,
    decreases items.len(),
{
    if i < items.len() - 1 {
        lemma_values_nonempty(items.drop_last(), i, key);
        let p = values_with_key(items.drop_last(), key);
        assert(values_with_key(items, key).len() >= p.len());
    }
}

} // verus!
