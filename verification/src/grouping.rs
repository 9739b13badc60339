//! Grouping `(key, values)` pairs by key, keeping each key's values in the
//! order in which they came.
use vstd::prelude::*;

verus! {

/// A key with its values.
pub type GroupView = (Seq<char>, Seq<Seq<char>>);

pub open spec fn strings_view(v: Seq<String>) -> Seq<Seq<char>> {
    v.map_values(|s: String| s@)
}

pub open spec fn group_view(g: (String, Vec<String>)) -> GroupView {
    (g.0@, strings_view(g.1@))
}

pub open spec fn groups_view(gs: Seq<(String, Vec<String>)>) -> Seq<GroupView> {
    gs.map_values(|g: (String, Vec<String>)| group_view(g))
}

/// The position of the first group with key `k`, if any.
pub open spec fn key_index(groups: Seq<GroupView>, k: Seq<char>) -> Option<nat>
    decreases groups.len(),
{
    if groups.len() == 0 {
        None
    } else {
        match key_index(groups.drop_last(), k) {
            Some(i) => Some(i),
            None => if groups.last().0 == k {
                Some((groups.len() - 1) as nat)
            } else {
                None
            },
        }
    }
}

/// `groups` after adding the values `vs` under key `k`: appended to the
/// values of `k`'s group, or as a new group at the end.
pub open spec fn add_values(groups: Seq<GroupView>, k: Seq<char>, vs: Seq<Seq<char>>) -> Seq<
    GroupView,
> {
    match key_index(groups, k) {
        Some(i) => groups.update(i as int, (k, groups[i as int].1 + vs)),
        None => groups.push((k, vs)),
    }
}

/// All pairs grouped by key: keys in order of first appearance, each with
/// the concatenation of its values.
pub open spec fn group_all(pairs: Seq<GroupView>) -> Seq<GroupView>
    decreases pairs.len(),
{
    if pairs.len() == 0 {
        seq![]
    } else {
        add_values(group_all(pairs.drop_last()), pairs.last().0, pairs.last().1)
    }
}

/// The values that the pairs hold under key `k`, in order.
pub open spec fn collect_values(pairs: Seq<GroupView>, k: Seq<char>) -> Seq<Seq<char>>
    decreases pairs.len(),
{
    if pairs.len() == 0 {
        seq![]
    } else {
        collect_values(pairs.drop_last(), k) + if pairs.last().0 == k {
            pairs.last().1
        } else {
            seq![]
        }
    }
}

/// The values of key `k` in `groups` (none when `k` has no group).
pub open spec fn values_of(groups: Seq<GroupView>, k: Seq<char>) -> Seq<Seq<char>> {
    match key_index(groups, k) {
        Some(i) => groups[i as int].1,
        None => seq![],
    }
}

pub open spec fn has_key(pairs: Seq<GroupView>, k: Seq<char>) -> bool {
    exists|i: int| 0 <= i < pairs.len() && (#[trigger] pairs[i]).0 == k
}

pub open spec fn distinct_keys(groups: Seq<GroupView>) -> bool {
    forall|i: int, j: int|
        0 <= i < groups.len() && 0 <= j < groups.len() && i != j ==> (#[trigger] groups[i]).0
            != (#[trigger] groups[j]).0
}

pub proof fn lemma_key_index(groups: Seq<GroupView>, k: Seq<char>)
    ensures
        key_index(groups, k) matches Some(i) ==> i < groups.len() && groups[i as int].0 == k
            && forall|j: int| 0 <= j < i ==> (#[trigger] groups[j]).0 != k,
        key_index(groups, k) is None <==> !has_key(groups, k),
    decreases groups.len(),
{
    if groups.len() > 0 {
        let init = groups.drop_last();
        lemma_key_index(init, k);
        if key_index(init, k) is Some {
            let i = key_index(init, k)->0;
            assert(groups[i as int] == init[i as int]);
            assert forall|j: int| 0 <= j < i implies (#[trigger] groups[j]).0 != k by {
                assert(groups[j] == init[j]);
            }
        } else {
            assert forall|j: int| 0 <= j < groups.len() - 1 implies (#[trigger] groups[j]).0 != k by {
                assert(groups[j] == init[j]);
                if groups[j].0 == k {
                    assert(init[j].0 == k);
                }
            }
            if has_key(groups, k) && groups.last().0 != k {
                let j = choose|j: int| 0 <= j < groups.len() && (#[trigger] groups[j]).0 == k;
                assert(j < groups.len() - 1);
            }
        }
    }
}

/// Grouping leaves each key in exactly one group.
pub proof fn lemma_group_all_distinct(pairs: Seq<GroupView>)
    ensures
        distinct_keys(group_all(pairs)),
    decreases pairs.len(),
{
    if pairs.len() > 0 {
        let init = pairs.drop_last();
        lemma_group_all_distinct(init);
        let g = group_all(init);
        let (k, vs) = pairs.last();
        lemma_key_index(g, k);
        let h = group_all(pairs);
        assert(h == add_values(g, k, vs));
        match key_index(g, k) {
            Some(i) => {
                assert forall|a: int, b: int|
                    0 <= a < h.len() && 0 <= b < h.len() && a != b implies (#[trigger] h[a]).0
                    != (#[trigger] h[b]).0 by {
                    assert(h[a].0 == g[a].0);
                    assert(h[b].0 == g[b].0);
                }
            },
            None => {
                assert forall|a: int, b: int|
                    0 <= a < h.len() && 0 <= b < h.len() && a != b implies (#[trigger] h[a]).0
                    != (#[trigger] h[b]).0 by {
                    if a < g.len() && b < g.len() {
                        assert(h[a] == g[a]);
                        assert(h[b] == g[b]);
                    } else if a < g.len() {
                        assert(h[a] == g[a]);
                    } else {
                        assert(h[b] == g[b]);
                    }
                }
            },
        }
    }
}

/// Grouping loses no key, adds none, and keeps every value of every key in
/// the order in which the pairs held it.
pub proof fn lemma_group_all_values(pairs: Seq<GroupView>, k: Seq<char>)
    ensures
        has_key(group_all(pairs), k) == has_key(pairs, k),
        values_of(group_all(pairs), k) == collect_values(pairs, k),
    decreases pairs.len(),
{
    if pairs.len() == 0 {
        assert(!has_key(group_all(pairs), k));
        assert(!has_key(pairs, k));
    } else {
        let init = pairs.drop_last();
        lemma_group_all_values(init, k);
        let g = group_all(init);
        let (x, vs) = pairs.last();
        let h = group_all(pairs);
        assert(h == add_values(g, x, vs));
        lemma_key_index(g, k);
        lemma_key_index(g, x);
        lemma_key_index(h, k);
        lemma_group_all_distinct(init);
        lemma_group_all_distinct(pairs);
        assert(has_key(pairs, k) == (has_key(init, k) || x == k)) by {
            if has_key(init, k) {
                let j = choose|j: int| 0 <= j < init.len() && (#[trigger] init[j]).0 == k;
                assert(pairs[j] == init[j]);
            }
            if has_key(pairs, k) && x != k {
                let j = choose|j: int| 0 <= j < pairs.len() && (#[trigger] pairs[j]).0 == k;
                assert(init[j] == pairs[j]);
            }
            if x == k {
                assert(pairs[pairs.len() - 1].0 == k);
            }
        }
        match key_index(g, x) {
            Some(i) => {
                assert(h.len() == g.len());
                assert(h[i as int] == (x, g[i as int].1 + vs));
                assert forall|j: int| 0 <= j < h.len() && j != i implies #[trigger] h[j] == g[j] by {}
                assert(has_key(h, k) == has_key(g, k)) by {
                    if has_key(g, k) {
                        let j = choose|j: int| 0 <= j < g.len() && (#[trigger] g[j]).0 == k;
                        assert(h[j].0 == k);
                    }
                    if has_key(h, k) {
                        let j = choose|j: int| 0 <= j < h.len() && (#[trigger] h[j]).0 == k;
                        assert(g[j].0 == k);
                    }
                }
                if x == k {
                    assert(key_index(h, k) == Some(i)) by {
                        lemma_key_index(h, k);
                        let m = key_index(h, k)->0;
                        if m != i {
                            assert(h[m as int].0 == h[i as int].0);
                        }
                    }
                } else {
                    match key_index(g, k) {
                        Some(m) => {
                            assert(h[m as int] == g[m as int]);
                            let m2 = key_index(h, k)->0;
                            if m2 != m {
                                assert(h[m2 as int].0 == h[m as int].0);
                            }
                        },
                        None => {},
                    }
                    assert(collect_values(pairs, k) =~= collect_values(init, k));
                }
            },
            None => {
                assert(h == g.push((x, vs)));
                assert forall|j: int| 0 <= j < g.len() implies #[trigger] h[j] == g[j] by {}
                assert(has_key(h, k) == (has_key(g, k) || x == k)) by {
                    if has_key(g, k) {
                        let j = choose|j: int| 0 <= j < g.len() && (#[trigger] g[j]).0 == k;
                        assert(h[j].0 == k);
                    }
                    if has_key(h, k) && x != k {
                        let j = choose|j: int| 0 <= j < h.len() && (#[trigger] h[j]).0 == k;
                        assert(g[j].0 == k);
                    }
                    if x == k {
                        assert(h[g.len() as int].0 == k);
                    }
                }
                if x == k {
                    assert(!has_key(init, k));
                    assert(collect_values(init, k) == Seq::<Seq<char>>::empty()) by {
                        lemma_collect_absent(init, k);
                    }
                    assert(key_index(h, k) == Some(g.len()));
                    assert(collect_values(pairs, k) =~= vs);
                } else {
                    match key_index(g, k) {
                        Some(m) => {
                            let m2 = key_index(h, k)->0;
                            if m2 != m {
                                assert(h[m2 as int].0 == h[m as int].0);
                            }
                        },
                        None => {
                            assert(key_index(h, k) is None);
                        },
                    }
                    assert(collect_values(pairs, k) =~= collect_values(init, k));
                }
            },
        }
    }
}

proof fn lemma_collect_absent(pairs: Seq<GroupView>, k: Seq<char>)
    requires
        !has_key(pairs, k),
    ensures
        collect_values(pairs, k) == Seq::<Seq<char>>::empty(),
    decreases pairs.len(),
{
    if pairs.len() > 0 {
        let init = pairs.drop_last();
        assert(!has_key(init, k)) by {
            if has_key(init, k) {
                let j = choose|j: int| 0 <= j < init.len() && (#[trigger] init[j]).0 == k;
                assert(pairs[j] == init[j]);
            }
        }
        lemma_collect_absent(init, k);
        assert(pairs[pairs.len() - 1].0 != k);
        assert(collect_values(pairs, k) =~= Seq::<Seq<char>>::empty());
    }
}


/// Collecting over two runs of pairs collects over each in turn.
pub proof fn lemma_collect_concat(a: Seq<GroupView>, b: Seq<GroupView>, k: Seq<char>)
    ensures
        collect_values(a + b, k) == collect_values(a, k) + collect_values(b, k),
    decreases b.len(),
{
    if b.len() == 0 {
        assert(a + b =~= a);
        assert(collect_values(a, k) + Seq::<Seq<char>>::empty() =~= collect_values(a, k));
    } else {
        lemma_collect_concat(a, b.drop_last(), k);
        assert((a + b).drop_last() =~= a + b.drop_last());
        assert((a + b).last() == b.last());
        let tail = if b.last().0 == k {
            b.last().1
        } else {
            Seq::<Seq<char>>::empty()
        };
        assert(collect_values(a, k) + collect_values(b.drop_last(), k) + tail =~= collect_values(a, k) + (
        collect_values(b.drop_last(), k) + tail));
    }
}

/// In groups where each key has one group, collecting a key's values gives
/// its group's values.
pub proof fn lemma_collect_distinct(g: Seq<GroupView>, k: Seq<char>)
    requires
        distinct_keys(g),
    ensures
        collect_values(g, k) == values_of(g, k),
    decreases g.len(),
{
    if g.len() > 0 {
        let init = g.drop_last();
        assert(distinct_keys(init)) by {
            assert forall|i: int, j: int|
                0 <= i < init.len() && 0 <= j < init.len() && i != j implies (#[trigger] init[i]).0 != (
            #[trigger] init[j]).0 by {
                assert(init[i] == g[i]);
                assert(init[j] == g[j]);
            }
        }
        lemma_collect_distinct(init, k);
        lemma_key_index(init, k);
        lemma_key_index(g, k);
        if g.last().0 == k {
            assert(!has_key(init, k)) by {
                if has_key(init, k) {
                    let j = choose|j: int| 0 <= j < init.len() && (#[trigger] init[j]).0 == k;
                    assert(g[j].0 == g[g.len() - 1].0);
                }
            }
            assert(collect_values(init, k) =~= Seq::<Seq<char>>::empty());
            assert(collect_values(g, k) =~= g.last().1);
        } else {
            assert(collect_values(g, k) =~= collect_values(init, k));
            match key_index(init, k) {
                Some(i) => {
                    assert(g[i as int] == init[i as int]);
                },
                None => {},
            }
        }
    }
}

/// Appends copies of `src`'s strings to `dst`.
pub fn append_strings(dst: &mut Vec<String>, src: &Vec<String>)
    ensures
        strings_view(final(dst)@) == strings_view(old(dst)@) + strings_view(src@),
{
    let ghost start = strings_view(dst@);
    for i in 0..src.len()
        invariant
            strings_view(dst@) == start + strings_view(src@.take(i as int)),
    {
        let ghost before = strings_view(dst@);
        dst.push(src[i].clone());
        assert(strings_view(dst@) =~= before.push(src@[i as int]@));
        assert(strings_view(src@.take(i + 1)) =~= strings_view(src@.take(i as int)).push(src@[i as int]@));
    }
    assert(src@.take(src@.len() as int) == src@);
}

/// The position of the group with key `key`, if any.
fn find_group(groups: &Vec<(String, Vec<String>)>, key: &String) -> (r: Option<usize>)
    ensures
        r matches Some(j) ==> key_index(groups_view(groups@), key@) == Some(j as nat),
        r is None ==> key_index(groups_view(groups@), key@) is None,
{
    let ghost gv = groups_view(groups@);
    proof {
        lemma_key_index(gv, key@);
    }
    for j in 0..groups.len()
        invariant
            gv == groups_view(groups@),
            forall|m: int| 0 <= m < j ==> (#[trigger] gv[m]).0 != key@,
    {
        if groups[j].0 == *key {
            assert(gv[j as int].0 == key@);
            proof {
                lemma_key_index(gv, key@);
                assert(has_key(gv, key@));
                let m = key_index(gv, key@)->0;
                if m < j {
                    assert(gv[m as int].0 == key@);
                } else if m > j {
                    assert(gv[j as int].0 != key@);
                }
            }
            return Some(j);
        }
    }
    assert(!has_key(gv, key@)) by {
        if has_key(gv, key@) {
            let m = choose|m: int| 0 <= m < gv.len() && (#[trigger] gv[m]).0 == key@;
            assert(gv[m].0 != key@);
        }
    }
    None
}

/// Groups the pairs by key, in order of first appearance, concatenating the
/// values of each key in the order in which they come.
pub fn group_pairs(pairs: &Vec<(String, Vec<String>)>) -> (groups: Vec<(String, Vec<String>)>)
    ensures
        groups_view(groups@) == group_all(groups_view(pairs@)),
{
    let mut groups: Vec<(String, Vec<String>)> = Vec::new();
    let ghost pv = groups_view(pairs@);
    for i in 0..pairs.len()
        invariant
            pv == groups_view(pairs@),
            groups_view(groups@) == group_all(pv.take(i as int)),
    {
        let ghost before = groups_view(groups@);
        assert(pv.take(i + 1).drop_last() == pv.take(i as int));
        assert(pv.take(i + 1).last() == pv[i as int]);
        let key = pairs[i].0.clone();
        match find_group(&groups, &key) {
            Some(j) => {
                proof {
                    lemma_key_index(before, key@);
                }
                assert(before[j as int] == group_view(groups@[j as int]));
                append_strings(&mut groups[j].1, &pairs[i].1);
                assert(groups_view(groups@) =~= before.update(
                    j as int,
                    (key@, before[j as int].1 + pv[i as int].1),
                ));
            },
            None => {
                let mut vals: Vec<String> = Vec::new();
                append_strings(&mut vals, &pairs[i].1);
                groups.push((key, vals));
                assert(groups_view(groups@) =~= before.push((key@, pv[i as int].1)));
            },
        }
    }
    assert(pv.take(pairs.len() as int) == pv);
    groups
}

} // verus!
