//! Grouping of files by a key (a size, a digest, or both), keeping only the
//! keys that more than one file shares.
use vstd::prelude::*;

verus! {

/// A SHA-256 digest.
pub type FileDigest = [u8; 32];

/// Keys that files are grouped by: values that can be duplicated and compared.
pub trait GroupKey: View + Sized {
    fn duplicate(&self) -> (r: Self)
        ensures
            r == *self,
    ;

    fn same_key(&self, other: &Self) -> (r: bool)
        ensures
            r == (self@ == other@),
    ;
}

impl GroupKey for u64 {
    fn duplicate(&self) -> (r: Self) {
        *self
    }

    fn same_key(&self, other: &Self) -> (r: bool) {
        *self == *other
    }
}

impl GroupKey for [u8; 32] {
    fn duplicate(&self) -> (r: Self) {
        *self
    }

    fn same_key(&self, other: &Self) -> (r: bool) {
        let mut i: usize = 0;
        while i < 32
            invariant
                0 <= i <= 32,
                self@.len() == 32,
                other@.len() == 32,
                forall|j: int| 0 <= j < i ==> self@[j] == other@[j],
            decreases 32 - i,
        {
            if self[i] != other[i] {
                return false;
            }
            i = i + 1;
        }
        assert(self@ =~= other@);
        true
    }
}

impl<A: GroupKey, B: GroupKey> GroupKey for (A, B) {
    fn duplicate(&self) -> (r: Self) {
        (self.0.duplicate(), self.1.duplicate())
    }

    fn same_key(&self, other: &Self) -> (r: bool) {
        self.0.same_key(&other.0) && self.1.same_key(&other.1)
    }
}

/// The paths among `items` that are filed under the key `k`, in their order.
pub open spec fn members<K: View>(items: Seq<(K, String)>, k: K::V) -> Seq<String>
    decreases items.len(),
{
    if items.len() == 0 {
        Seq::empty()
    } else {
        let m = members(items.drop_last(), k);
        if items.last().0@ == k {
            m.push(items.last().1)
        } else {
            m
        }
    }
}

/// `groups` holds, once each, every key that two or more of `items` share,
/// together with all the paths filed under it, in their order.
pub open spec fn is_grouping<K: View>(
    items: Seq<(K, String)>,
    groups: Seq<(K, Vec<String>)>,
) -> bool {
    &&& forall|j: int|
        0 <= j < groups.len() ==> #[trigger] groups[j].1@ == members(items, groups[j].0@)
    &&& forall|j: int| 0 <= j < groups.len() ==> (#[trigger] groups[j].1@).len() >= 2
    &&& forall|i: int, j: int|
        0 <= i < j < groups.len() ==> (#[trigger] groups[i].0)@ != (#[trigger] groups[j].0)@
    &&& forall|k: K::V|
        (#[trigger] members(items, k)).len() >= 2 ==> exists|j: int|
            0 <= j < groups.len() && groups[j].0@ == k
}

proof fn lemma_members_step<K: View>(items: Seq<(K, String)>, i: int, k: K::V)
    requires
        0 <= i < items.len(),
    ensures
        members(items.take(i + 1), k) == if items[i].0@ == k {
            members(items.take(i), k).push(items[i].1)
        } else {
            members(items.take(i), k)
        },
{
    assert(items.take(i + 1).drop_last() =~= items.take(i));
}

/// Groups `items` by key, keeping the keys that two or more items share.
pub fn group_by_key<K: GroupKey>(items: &Vec<(K, String)>) -> (groups: Vec<(K, Vec<String>)>)
    ensures
        is_grouping(items@, groups@),
{
    let mut keys: Vec<K> = Vec::new();
    let mut lists: Vec<Vec<String>> = Vec::new();
    let mut i: usize = 0;
    while i < items.len()
        invariant
            0 <= i <= items.len(),
            keys.len() == lists.len(),
            forall|j: int|
                0 <= j < lists.len() ==> #[trigger] lists@[j]@ == members(
                    items@.take(i as int),
                    keys@[j]@,
                ),
            forall|j: int| 0 <= j < lists.len() ==> (#[trigger] lists@[j]@).len() >= 1,
            forall|a: int, b: int|
                0 <= a < b < keys.len() ==> (#[trigger] keys@[a])@ != (#[trigger] keys@[b])@,
            forall|k: K::V|
                (#[trigger] members(items@.take(i as int), k)).len() > 0 ==> exists|j: int|
                    0 <= j < keys.len() && keys@[j]@ == k,
        decreases items.len() - i,
    {
        let key: K = items[i].0.duplicate();
        let path: String = items[i].1.clone();
        proof {
            assert forall|k: K::V| true implies members(items@.take(i + 1), k) == (if key@ == k {
                members(items@.take(i as int), k).push(path)
            } else {
                members(items@.take(i as int), k)
            }) by {
                lemma_members_step(items@, i as int, k);
            }
        }
        let mut j: usize = 0;
        while j < keys.len() && !keys[j].same_key(&key)
            invariant
                0 <= j <= keys.len(),
                forall|a: int| 0 <= a < j ==> (#[trigger] keys@[a])@ != key@,
            decreases keys.len() - j,
        {
            j = j + 1;
        }
        let ghost old_keys = keys@;
        if j < keys.len() {
            lists[j].push(path);
        } else {
            keys.push(key);
            let mut fresh: Vec<String> = Vec::new();
            fresh.push(path);
            lists.push(fresh);
        }
        proof {
            assert(keys@[j as int]@ == key@);
            assert forall|k: K::V|
                (#[trigger] members(items@.take(i + 1), k)).len() > 0 implies exists|jj: int|
                0 <= jj < keys.len() && keys@[jj]@ == k by {
                if k == key@ {
                    assert(keys@[j as int]@ == k);
                } else {
                    assert(members(items@.take(i as int), k).len() > 0);
                    let jj = choose|jj: int| 0 <= jj < old_keys.len() && old_keys[jj]@ == k;
                    assert(keys@[jj] == old_keys[jj]);
                }
            }
        }
        i = i + 1;
    }
    assert(items@.take(items.len() as int) =~= items@);
    let mut groups: Vec<(K, Vec<String>)> = Vec::new();
    let mut j: usize = 0;
    while j < keys.len()
        invariant
            0 <= j <= keys.len(),
            keys.len() == lists.len(),
            forall|a: int|
                j <= a < lists.len() ==> #[trigger] lists@[a]@ == members(items@, keys@[a]@),
            forall|a: int, b: int|
                0 <= a < b < keys.len() ==> (#[trigger] keys@[a])@ != (#[trigger] keys@[b])@,
            forall|k: K::V|
                (#[trigger] members(items@, k)).len() > 0 ==> exists|a: int|
                    0 <= a < keys.len() && keys@[a]@ == k,
            forall|g: int|
                0 <= g < groups.len() ==> #[trigger] groups@[g].1@ == members(
                    items@,
                    groups@[g].0@,
                ),
            forall|g: int| 0 <= g < groups.len() ==> (#[trigger] groups@[g].1@).len() >= 2,
            forall|g: int|
                0 <= g < groups.len() ==> exists|a: int|
                    0 <= a < j && keys@[a]@ == (#[trigger] groups@[g].0)@,
            forall|g: int, h: int|
                0 <= g < h < groups.len() ==> (#[trigger] groups@[g].0)@ != (
                #[trigger] groups@[h].0)@,
            forall|a: int|
                0 <= a < j && (#[trigger] members(items@, keys@[a]@)).len() >= 2 ==> exists|g: int|
                    0 <= g < groups.len() && groups@[g].0@ == keys@[a]@,
        decreases keys.len() - j,
    {
        let ghost old_groups = groups@;
        if lists[j].len() >= 2 {
            let mut taken: Vec<String> = Vec::new();
            std::mem::swap(&mut taken, &mut lists[j]);
            groups.push((keys[j].duplicate(), taken));
        }
        proof {
            assert forall|a: int|
                0 <= a < j + 1 && (#[trigger] members(items@, keys@[a]@)).len() >= 2 implies exists|
                g: int,
            | 0 <= g < groups.len() && groups@[g].0@ == keys@[a]@ by {
                if a == j {
                    assert(groups@[groups.len() - 1].0@ == keys@[a]@);
                } else {
                    let g = choose|g: int|
                        0 <= g < old_groups.len() && old_groups[g].0@ == keys@[a]@;
                    assert(groups@[g] == old_groups[g]);
                }
            }
        }
        j = j + 1;
    }
    groups
}


/// Every path in a group comes from an item filed under the group's key.
pub proof fn grouped_paths_carry_their_key<K: View>(items: Seq<(K, String)>, k: K::V, p: int)
    requires
        0 <= p < members(items, k).len(),
    ensures
        exists|i: int|
            0 <= i < items.len() && (#[trigger] items[i]).0@ == k && items[i].1 == members(
                items,
                k,
            )[p],
    decreases items.len(),
{
    let rest = items.drop_last();
    if p < members(rest, k).len() {
        grouped_paths_carry_their_key(rest, k, p);
        let i = choose|i: int|
            0 <= i < rest.len() && (#[trigger] rest[i]).0@ == k && rest[i].1 == members(
                rest,
                k,
            )[p];
        assert(items[i] == rest[i]);
    } else {
        assert(items[items.len() - 1] == items.last());
    }
}


/// The number of files in all of `groups` together.
pub open spec fn grouped_count<K>(groups: Seq<(K, Vec<String>)>) -> nat
    decreases groups.len(),
{
    if groups.len() == 0 {
        0
    } else {
        grouped_count(groups.drop_last()) + groups.last().1@.len()
    }
}

/// The number of items filed under each key of `keys`, summed.
pub open spec fn members_count<K: View>(items: Seq<(K, String)>, keys: Seq<K::V>) -> nat
    decreases keys.len(),
{
    if keys.len() == 0 {
        0
    } else {
        members_count(items, keys.drop_last()) + members(items, keys.last()).len()
    }
}

/// How many times `v` occurs in `keys`.
pub open spec fn occurrences<V>(keys: Seq<V>, v: V) -> nat
    decreases keys.len(),
{
    if keys.len() == 0 {
        0
    } else {
        occurrences(keys.drop_last(), v) + if keys.last() == v {
            1nat
        } else {
            0nat
        }
    }
}

proof fn lemma_occurrences_distinct<V>(keys: Seq<V>, v: V)
    requires
        forall|i: int, j: int| 0 <= i < j < keys.len() ==> keys[i] != keys[j],
    ensures
        occurrences(keys, v) <= 1,
        occurrences(keys, v) == 0 <==> forall|i: int| 0 <= i < keys.len() ==> keys[i] != v,
    decreases keys.len(),
{
    if keys.len() > 0 {
        let rest = keys.drop_last();
        lemma_occurrences_distinct(rest, v);
        if keys.last() == v {
            assert forall|i: int| 0 <= i < rest.len() implies rest[i] != v by {
                assert(keys[i] != keys[keys.len() - 1]);
            }
        }
        if occurrences(keys, v) == 0 {
            assert forall|i: int| 0 <= i < keys.len() implies keys[i] != v by {
                if i < rest.len() {
                    assert(rest[i] == keys[i]);
                }
            }
        }
    }
}

proof fn lemma_members_count_push<K: View>(
    items: Seq<(K, String)>,
    x: (K, String),
    keys: Seq<K::V>,
)
    ensures
        members_count(items.push(x), keys) == members_count(items, keys) + occurrences(keys, x.0@),
    decreases keys.len(),
{
    if keys.len() > 0 {
        lemma_members_count_push(items, x, keys.drop_last());
        assert(items.push(x).drop_last() =~= items);
    }
}

proof fn lemma_members_count_bound<K: View>(items: Seq<(K, String)>, keys: Seq<K::V>)
    requires
        forall|i: int, j: int| 0 <= i < j < keys.len() ==> keys[i] != keys[j],
    ensures
        members_count(items, keys) <= items.len(),
    decreases items.len(),
{
    if items.len() == 0 {
        lemma_members_count_empty(items, keys);
    } else {
        let rest = items.drop_last();
        lemma_members_count_bound(rest, keys);
        assert(rest.push(items.last()) =~= items);
        lemma_members_count_push(rest, items.last(), keys);
        lemma_occurrences_distinct(keys, items.last().0@);
    }
}

proof fn lemma_members_count_empty<K: View>(items: Seq<(K, String)>, keys: Seq<K::V>)
    requires
        items.len() == 0,
    ensures
        members_count(items, keys) == 0,
    decreases keys.len(),
{
    if keys.len() > 0 {
        lemma_members_count_empty(items, keys.drop_last());
    }
}

proof fn lemma_grouped_count<K: View>(items: Seq<(K, String)>, groups: Seq<(K, Vec<String>)>)
    requires
        forall|j: int|
            0 <= j < groups.len() ==> #[trigger] groups[j].1@ == members(items, groups[j].0@),
    ensures
        grouped_count(groups) == members_count(items, groups.map_values(|g: (K, Vec<String>)| g.0@)),
    decreases groups.len(),
{
    if groups.len() > 0 {
        let rest = groups.drop_last();
        assert forall|j: int| 0 <= j < rest.len() implies #[trigger] rest[j].1@ == members(
            items,
            rest[j].0@,
        ) by {
            assert(rest[j] == groups[j]);
        }
        lemma_grouped_count(items, rest);
        let ks = groups.map_values(|g: (K, Vec<String>)| g.0@);
        assert(ks.drop_last() =~= rest.map_values(|g: (K, Vec<String>)| g.0@));
        assert(groups[groups.len() - 1] == groups.last());
    }
}

/// A grouping never holds more files than there are items: each item is in at most
/// one group.
pub proof fn grouping_holds_each_item_at_most_once<K: View>(
    items: Seq<(K, String)>,
    groups: Seq<(K, Vec<String>)>,
)
    requires
        is_grouping(items, groups),
    ensures
        grouped_count(groups) <= items.len(),
{
    lemma_grouped_count(items, groups);
    let ks = groups.map_values(|g: (K, Vec<String>)| g.0@);
    assert forall|i: int, j: int| 0 <= i < j < ks.len() implies ks[i] != ks[j] by {
        assert(groups[i].0@ != groups[j].0@);
    }
    lemma_members_count_bound(items, ks);
}

} // verus!
