//! Word count, the map and reduce functions that the program runs.
use vstd::prelude::*;
use crate::grouping::{
    GroupView, strings_view, groups_view, group_all, group_pairs, collect_values, values_of,
    has_key, key_index, distinct_keys, lemma_key_index, lemma_group_all_values,
    lemma_group_all_distinct, lemma_collect_concat, lemma_collect_distinct,
};
use crate::text::{words, split_words, decimal, decimal_string, parse_u32, parse_u32_spec, lemma_parse_decimal, digits_value, lemma_decimal_digits, lemma_words_join};
use crate::worker::{values_over_tasks, all_emitted, emitted_view, map_called, decode_partitions, collect_partitions, TaskWorker, TaskError, all_json_facts, reduce_groups, group_round_trips, key_fits, emitted_somewhere, lemma_run_reduces_each_key_once, emits_round_trip, reduce_output, finals_fit, reduce_called, reduced_records, task_order, joined, records_of_groups, flatten_records, distinct_record_keys, lemma_run_records};
use crate::text::{lemma_words_are_nonblank, no_space};
use crate::hashing::key_bucket;
use crate::records::{format_record, records_text};
use vstd::string::*;

verus! {

/// The pairs that word count groups: each word with itself as its value.
pub open spec fn word_pairs(ws: Seq<Seq<char>>) -> Seq<GroupView> {
    ws.map_values(|w: Seq<char>| (w, seq![w]))
}

/// Each distinct word of `text`, in order of first appearance, with the
/// decimal count of its occurrences.
pub open spec fn word_counts(text: Seq<char>) -> Seq<(Seq<char>, Seq<char>)> {
    group_all(word_pairs(words(text))).map_values(|g: GroupView| (g.0, decimal(g.1.len())))
}

pub open spec fn pairs_view(v: Seq<(String, String)>) -> Seq<(Seq<char>, Seq<char>)> {
    v.map_values(|p: (String, String)| (p.0@, p.1@))
}

/// Map function of word count: every distinct whitespace-separated word of
/// `text` with the number of its occurrences, in decimal.
pub fn wc_map_fn(filename: &str, text: &str) -> (r: Vec<(String, String)>)
    ensures
        pairs_view(r@) == word_counts(text@),
{
    let ws = split_words(text);
    let mut pairs: Vec<(String, Vec<String>)> = Vec::new();
    for i in 0..ws.len()
        invariant
            strings_view(ws@) == words(text@),
            groups_view(pairs@) == word_pairs(strings_view(ws@).take(i as int)),
    {
        let mut vals: Vec<String> = Vec::new();
        vals.push(ws[i].clone());
        let ghost prev = groups_view(pairs@);
        pairs.push((ws[i].clone(), vals));
        assert(strings_view(vals@) =~= seq![ws@[i as int]@]);
        let ghost w = ws@[i as int]@;
        assert(groups_view(pairs@) =~= prev.push((w, seq![w])));
        assert(strings_view(ws@).take(i + 1) =~= strings_view(ws@).take(i as int).push(w));
        assert(word_pairs(strings_view(ws@).take(i + 1)) =~= word_pairs(strings_view(ws@).take(i as int)).push((w, seq![w])));
    }
    assert(strings_view(ws@).take(ws@.len() as int) == strings_view(ws@));
    let groups = group_pairs(&pairs);
    let ghost gv = groups_view(groups@);
    let mut out: Vec<(String, String)> = Vec::new();
    for j in 0..groups.len()
        invariant
            gv == groups_view(groups@),
            gv == group_all(word_pairs(words(text@))),
            pairs_view(out@) == gv.take(j as int).map_values(|g: GroupView| (g.0, decimal(g.1.len()))),
    {
        let count = decimal_string(groups[j].1.len() as u64);
        let ghost prev = pairs_view(out@);
        out.push((groups[j].0.clone(), count));
        assert(gv[j as int].1.len() == groups@[j as int].1@.len());
        let ghost g = gv[j as int];
        assert(pairs_view(out@) =~= prev.push((g.0, decimal(g.1.len()))));
        assert(gv.take(j + 1) =~= gv.take(j as int).push(g));
        assert(gv.take(j + 1).map_values(|g: GroupView| (g.0, decimal(g.1.len()))) =~= gv.take(j as int).map_values(|g: GroupView| (g.0, decimal(g.1.len()))).push((g.0, decimal(g.1.len()))));
    }
    assert(gv.take(groups.len() as int) == gv);
    out
}

/// The number of times `w` occurs in `ws`.
pub open spec fn occurrences(ws: Seq<Seq<char>>, w: Seq<char>) -> nat
    decreases ws.len(),
{
    if ws.len() == 0 {
        0
    } else {
        occurrences(ws.drop_last(), w) + if ws.last() == w {
            1nat
        } else {
            0nat
        }
    }
}

proof fn lemma_collect_words(ws: Seq<Seq<char>>, w: Seq<char>)
    ensures
        collect_values(word_pairs(ws), w).len() == occurrences(ws, w),
        has_key(word_pairs(ws), w) == ws.contains(w),
    decreases ws.len(),
{
    if ws.len() > 0 {
        let init = ws.drop_last();
        lemma_collect_words(init, w);
        assert(word_pairs(ws).drop_last() =~= word_pairs(init));
        if ws.contains(w) && ws.last() != w {
            let j = choose|j: int| 0 <= j < ws.len() && ws[j] == w;
            assert(init[j] == w);
        }
        if init.contains(w) {
            let j = choose|j: int| 0 <= j < init.len() && init[j] == w;
            assert(ws[j] == w);
        }
        if has_key(word_pairs(ws), w) {
            let j = choose|j: int| 0 <= j < word_pairs(ws).len() && (#[trigger] word_pairs(ws)[j]).0 == w;
            assert(ws[j] == w);
        }
        if ws.contains(w) {
            let j = choose|j: int| 0 <= j < ws.len() && ws[j] == w;
            assert(word_pairs(ws)[j].0 == w);
        }
    }
}

/// Word count lists every word of the text exactly once, and nothing else,
/// each with the decimal count of its occurrences.
pub proof fn lemma_word_counts(text: Seq<char>)
    ensures
        forall|i: int, j: int|
            0 <= i < j < word_counts(text).len() ==> (#[trigger] word_counts(text)[i]).0
                != (#[trigger] word_counts(text)[j]).0,
        forall|i: int|
            0 <= i < word_counts(text).len() ==> words(text).contains(
                (#[trigger] word_counts(text)[i]).0,
            ) && word_counts(text)[i].1 == decimal(
                occurrences(words(text), word_counts(text)[i].0),
            ),
        forall|w: Seq<char>|
            #[trigger] words(text).contains(w) ==> exists|i: int|
                0 <= i < word_counts(text).len() && (#[trigger] word_counts(text)[i]).0 == w,
{
    let ws = words(text);
    let ps = word_pairs(ws);
    let gs = group_all(ps);
    let wc = word_counts(text);
    lemma_group_all_distinct(ps);
    assert forall|i: int| 0 <= i < wc.len() implies ws.contains((#[trigger] wc[i]).0) && wc[i].1
        == decimal(occurrences(ws, wc[i].0)) by {
        let w = gs[i].0;
        lemma_group_all_values(ps, w);
        lemma_collect_words(ws, w);
        lemma_key_index(gs, w);
        assert(has_key(gs, w)) by {
            assert(gs[i].0 == w);
        }
        let m = key_index(gs, w)->0;
        if m != i {
            assert(gs[m as int].0 == gs[i].0);
        }
        assert(values_of(gs, w) == gs[i].1);
    }
    assert forall|w: Seq<char>| #[trigger] ws.contains(w) implies exists|i: int|
        0 <= i < wc.len() && (#[trigger] wc[i]).0 == w by {
        lemma_group_all_values(ps, w);
        lemma_collect_words(ws, w);
        let i = choose|i: int| 0 <= i < gs.len() && (#[trigger] gs[i]).0 == w;
        assert(wc[i].0 == w);
    }
}

/// The sum of the numbers that the texts `values` hold.
pub open spec fn sum_counts(values: Seq<Seq<char>>) -> nat
    decreases values.len(),
{
    if values.len() == 0 {
        0
    } else {
        sum_counts(values.drop_last()) + match parse_u32_spec(values.last()) {
            Some(n) => n as nat,
            None => 0nat,
        }
    }
}

/// Every text holds a `u32`, and their sum fits in a `u32`.
pub open spec fn counts_summable(values: Seq<Seq<char>>) -> bool {
    &&& forall|i: int| 0 <= i < values.len() ==> (#[trigger] parse_u32_spec(values[i])) is Some
    &&& sum_counts(values) <= u32::MAX
}

/// The sum of the counts `values` hold, or `None` where one of them is no
/// `u32` or the sum does not fit in one.
pub fn count_total(values: &Vec<String>) -> (r: Option<u32>)
    ensures
        r is Some <==> counts_summable(strings_view(values@)),
        r matches Some(t) ==> t == sum_counts(strings_view(values@)),
{
    let ghost vv = strings_view(values@);
    let mut total: u32 = 0;
    for i in 0..values.len()
        invariant
            vv == strings_view(values@),
            forall|k: int| 0 <= k < i ==> (#[trigger] parse_u32_spec(vv[k])) is Some,
            total == sum_counts(vv.take(i as int)),
    {
        assert(vv.take(i + 1).drop_last() == vv.take(i as int));
        assert(vv.take(i + 1).last() == values@[i as int]@);
        match parse_u32(values[i].as_str()) {
            Some(n) => {
                if n > u32::MAX - total {
                    assert(sum_counts(vv) > u32::MAX) by {
                        lemma_sum_counts_prefix(vv, i + 1);
                    }
                    return None;
                }
                total = total + n;
            },
            None => {
                return None;
            },
        }
    }
    assert(vv.take(values.len() as int) == vv);
    Some(total)
}

proof fn lemma_sum_counts_prefix(vs: Seq<Seq<char>>, k: int)
    requires
        0 <= k <= vs.len(),
    ensures
        sum_counts(vs.take(k)) <= sum_counts(vs),
    decreases vs.len(),
{
    if k < vs.len() {
        assert(vs.drop_last().take(k) == vs.take(k));
        lemma_sum_counts_prefix(vs.drop_last(), k);
    } else {
        assert(vs.take(k) == vs);
    }
}

/// Reduce function of word count: the sum of the counts in `values`, in
/// decimal.
pub fn wc_reduce_fn(key: &str, values: &Vec<String>) -> (r: String)
    requires
        counts_summable(strings_view(values@)),
    ensures
        r@ == decimal(sum_counts(strings_view(values@))),
{
    match count_total(values) {
        Some(total) => decimal_string(total as u64),
        None => String::new(),
    }
}


/// The pairs that word count's map function emits for a text, each count
/// as a value alone.
pub open spec fn count_pairs(text: Seq<char>) -> Seq<GroupView> {
    word_counts(text).map_values(|p: (Seq<char>, Seq<char>)| (p.0, seq![p.1]))
}

/// The pairs that a map task of word count emits for its input lines.
pub open spec fn wc_task_pairs(ls: Seq<Seq<char>>) -> Seq<GroupView>
    decreases ls.len(),
{
    if ls.len() == 0 {
        seq![]
    } else {
        wc_task_pairs(ls.drop_last()) + count_pairs(ls.last())
    }
}

/// How often `w` occurs as a word in the lines of every map task.
pub open spec fn occurrences_in_tasks(inputs: Seq<Seq<Seq<char>>>, w: Seq<char>) -> nat
    decreases inputs.len(),
{
    if inputs.len() == 0 {
        0
    } else {
        occurrences_in_tasks(inputs.drop_last(), w) + occurrences_in_lines(inputs.last(), w)
    }
}

/// How often `w` occurs as a word in the lines `ls`.
pub open spec fn occurrences_in_lines(ls: Seq<Seq<char>>, w: Seq<char>) -> nat
    decreases ls.len(),
{
    if ls.len() == 0 {
        0
    } else {
        occurrences_in_lines(ls.drop_last(), w) + occurrences(words(ls.last()), w)
    }
}

proof fn lemma_sum_counts_concat(a: Seq<Seq<char>>, b: Seq<Seq<char>>)
    ensures
        sum_counts(a + b) == sum_counts(a) + sum_counts(b),
    decreases b.len(),
{
    if b.len() == 0 {
        assert(a + b =~= a);
    } else {
        lemma_sum_counts_concat(a, b.drop_last());
        assert((a + b).drop_last() =~= a + b.drop_last());
        assert((a + b).last() == b.last());
    }
}


proof fn lemma_occurrences_absent(ws: Seq<Seq<char>>, w: Seq<char>)
    requires
        !ws.contains(w),
    ensures
        occurrences(ws, w) == 0,
    decreases ws.len(),
{
    if ws.len() > 0 {
        assert(!ws.drop_last().contains(w)) by {
            if ws.drop_last().contains(w) {
                let j = choose|j: int| 0 <= j < ws.drop_last().len() && ws.drop_last()[j] == w;
                assert(ws[j] == w);
            }
        }
        lemma_occurrences_absent(ws.drop_last(), w);
        assert(ws[ws.len() - 1] != w);
    }
}

/// The counts that one text's word counts carry for `w` sum to the
/// occurrences of `w` in it.
proof fn lemma_count_pairs_sum(text: Seq<char>, w: Seq<char>)
    requires
        occurrences(words(text), w) <= u32::MAX,
    ensures
        sum_counts(collect_values(count_pairs(text), w)) == occurrences(words(text), w),
{
    let wc = word_counts(text);
    let cp = count_pairs(text);
    lemma_word_counts(text);
    assert(distinct_keys(cp)) by {
        assert forall|i: int, j: int|
            0 <= i < cp.len() && 0 <= j < cp.len() && i != j implies (#[trigger] cp[i]).0 != (
        #[trigger] cp[j]).0 by {
            assert(cp[i].0 == wc[i].0);
            assert(cp[j].0 == wc[j].0);
            if i < j {
                assert(wc[i].0 != wc[j].0);
            } else {
                assert(wc[j].0 != wc[i].0);
            }
        }
    }
    lemma_collect_distinct(cp, w);
    lemma_key_index(cp, w);
    match key_index(cp, w) {
        Some(i) => {
            assert(wc[i as int].0 == w);
            assert(wc[i as int].1 == decimal(occurrences(words(text), w)));
            let c = occurrences(words(text), w);
            lemma_parse_decimal(c as u32);
            let vs = cp[i as int].1;
            assert(vs == seq![decimal(c)]);
            assert(vs.drop_last() =~= Seq::<Seq<char>>::empty());
            assert(sum_counts(vs.drop_last()) == 0);
            assert(vs.last() == decimal(c as nat));
            assert(parse_u32_spec(vs.last()) == Some(c as u32));
            assert(sum_counts(vs) == c);
            assert(values_of(cp, w) == vs);
        },
        None => {
            if words(text).contains(w) {
                let i = choose|i: int| 0 <= i < wc.len() && (#[trigger] wc[i]).0 == w;
                assert(cp[i].0 == w);
            }
            lemma_occurrences_absent(words(text), w);
        },
    }
}


proof fn lemma_task_pairs_sum(ls: Seq<Seq<char>>, w: Seq<char>)
    requires
        occurrences_in_lines(ls, w) <= u32::MAX,
    ensures
        sum_counts(collect_values(wc_task_pairs(ls), w)) == occurrences_in_lines(ls, w),
    decreases ls.len(),
{
    if ls.len() > 0 {
        lemma_task_pairs_sum(ls.drop_last(), w);
        lemma_collect_concat(wc_task_pairs(ls.drop_last()), count_pairs(ls.last()), w);
        lemma_count_pairs_sum(ls.last(), w);
        lemma_sum_counts_concat(
            collect_values(wc_task_pairs(ls.drop_last()), w),
            collect_values(count_pairs(ls.last()), w),
        );
    }
}

/// The pairs of all map tasks of word count.
pub open spec fn wc_emits(inputs: Seq<Seq<Seq<char>>>) -> Seq<Seq<GroupView>> {
    inputs.map_values(|ls: Seq<Seq<char>>| wc_task_pairs(ls))
}

/// The counts of word `w` that the map tasks of word count emit sum to the
/// number of occurrences of `w` in all their input lines (when that number
/// fits in a `u32`): the total that `wc_reduce_fn` renders for `w`.
pub proof fn lemma_word_count_totals(inputs: Seq<Seq<Seq<char>>>, w: Seq<char>)
    requires
        occurrences_in_tasks(inputs, w) <= u32::MAX,
    ensures
        sum_counts(values_over_tasks(wc_emits(inputs), w)) == occurrences_in_tasks(inputs, w),
    decreases inputs.len(),
{
    if inputs.len() > 0 {
        let init = inputs.drop_last();
        assert(wc_emits(inputs).drop_last() =~= wc_emits(init));
        assert(wc_emits(inputs).last() == wc_task_pairs(inputs.last()));
        lemma_word_count_totals(init, w);
        lemma_task_pairs_sum(inputs.last(), w);
        lemma_sum_counts_concat(
            values_over_tasks(wc_emits(init), w),
            collect_values(wc_task_pairs(inputs.last()), w),
        );
    }
}

/// A map task run with `wc_map_fn` emits exactly the word counts of its
/// lines, line after line.
pub proof fn lemma_wc_map_emits(file: Seq<char>, ls: Seq<Seq<char>>, outs: Seq<Vec<(String, String)>>)
    requires
        outs.len() == ls.len(),
        forall|i: int| 0 <= i < outs.len() ==> #[trigger] map_called(wc_map_fn, file, ls[i], outs[i]),
    ensures
        all_emitted(outs) == wc_task_pairs(ls),
    decreases ls.len(),
{
    if ls.len() > 0 {
        let n = ls.len() - 1;
        assert forall|i: int| 0 <= i < outs.drop_last().len() implies #[trigger] map_called(
            wc_map_fn,
            file,
            ls.drop_last()[i],
            outs.drop_last()[i],
        ) by {
            assert(map_called(wc_map_fn, file, ls[i], outs[i]));
        }
        lemma_wc_map_emits(file, ls.drop_last(), outs.drop_last());
        assert(map_called(wc_map_fn, file, ls[n], outs[n]));
        let out = outs[n];
        let (a, b) = choose|a: &str, b: &str| a@ == file && b@ == ls[n] && call_ensures(wc_map_fn, (a, b), out);
        assert(pairs_view(out@) == word_counts(ls[n]));
        assert(emitted_view(out@) =~= count_pairs(ls[n])) by {
            assert forall|j: int| 0 <= j < out@.len() implies emitted_view(out@)[j] == count_pairs(ls[n])[j] by {
                assert(pairs_view(out@)[j] == (out@[j].0@, out@[j].1@));
            }
        }
    }
}


/// Each group's key with the decimal total of its counts.
pub open spec fn count_records(groups: Seq<GroupView>) -> Seq<(Seq<char>, Seq<char>)> {
    Seq::new(groups.len(), |i: int| (groups[i].0, decimal(sum_counts(groups[i].1))))
}


proof fn lemma_sum_counts_remove(s: Seq<Seq<char>>, j: int)
    requires
        0 <= j < s.len(),
    ensures
        sum_counts(s) == sum_counts(s.remove(j)) + match parse_u32_spec(s[j]) {
            Some(n) => n as nat,
            None => 0nat,
        },
    decreases s.len(),
{
    if j == s.len() - 1 {
        assert(s.remove(j) =~= s.drop_last());
    } else {
        lemma_sum_counts_remove(s.drop_last(), j);
        assert(s.remove(j).drop_last() =~= s.drop_last().remove(j));
        assert(s.remove(j).last() == s.last());
    }
}

/// The sum of counts does not depend on their order: `wc_reduce_fn` gives
/// the same total for any arrangement of the same values.
pub proof fn lemma_sum_counts_permutation(a: Seq<Seq<char>>, b: Seq<Seq<char>>)
    requires
        a.to_multiset() == b.to_multiset(),
    ensures
        sum_counts(a) == sum_counts(b),
    decreases a.len(),
{
    broadcast use vstd::seq_lib::group_to_multiset_ensures, vstd::multiset::group_multiset_axioms;

    if a.len() == 0 {
        assert(b.to_multiset().len() == 0);
        assert(b.len() == 0);
    } else {
        let x = a.last();
        let init = a.drop_last();
        assert(init.push(x) == a);
        assert(a.to_multiset() == init.to_multiset().insert(x));
        assert(b.to_multiset().count(x) > 0);
        assert(b.contains(x));
        let j = choose|j: int| 0 <= j < b.len() && b[j] == x;
        assert(b.remove(j).to_multiset() == b.to_multiset().remove(x));
        assert(b.remove(j).to_multiset() =~= init.to_multiset());
        lemma_sum_counts_permutation(init, b.remove(j));
        lemma_sum_counts_remove(b, j);
    }
}

proof fn lemma_parsed_permutation(a: Seq<Seq<char>>, b: Seq<Seq<char>>)
    requires
        a.to_multiset() == b.to_multiset(),
        forall|i: int| 0 <= i < a.len() ==> (#[trigger] parse_u32_spec(a[i])) is Some,
    ensures
        forall|i: int| 0 <= i < b.len() ==> (#[trigger] parse_u32_spec(b[i])) is Some,
{
    broadcast use vstd::seq_lib::group_to_multiset_ensures;

    assert forall|i: int| 0 <= i < b.len() implies (#[trigger] parse_u32_spec(b[i])) is Some by {
        assert(b.contains(b[i]));
        assert(a.to_multiset().count(b[i]) > 0);
        assert(a.contains(b[i]));
        let j = choose|j: int| 0 <= j < a.len() && a[j] == b[i];
        assert(parse_u32_spec(a[j]) is Some);
    }
}

/// `wc_reduce_fn` does not depend on the order of its values: the same
/// values in any order are summable alike and give the same total.
pub proof fn lemma_counts_any_order(a: Seq<Seq<char>>, b: Seq<Seq<char>>)
    requires
        a.to_multiset() == b.to_multiset(),
    ensures
        counts_summable(a) == counts_summable(b),
        sum_counts(a) == sum_counts(b),
{
    lemma_sum_counts_permutation(a, b);
    if forall|i: int| 0 <= i < a.len() ==> (#[trigger] parse_u32_spec(a[i])) is Some {
        lemma_parsed_permutation(a, b);
    }
    if forall|i: int| 0 <= i < b.len() ==> (#[trigger] parse_u32_spec(b[i])) is Some {
        lemma_parsed_permutation(b, a);
    }
}

/// The counts that the map tasks of word count emit for `w`, in any order,
/// are `u32` values that `wc_reduce_fn` can sum (where the occurrences of
/// `w` fit in a `u32`), and sum to the occurrences of `w` in all their input
/// lines.
pub proof fn lemma_word_count_totals_any_order(inputs: Seq<Seq<Seq<char>>>, w: Seq<char>, vals: Seq<Seq<char>>)
    requires
        occurrences_in_tasks(inputs, w) <= u32::MAX,
        vals.to_multiset() == values_over_tasks(wc_emits(inputs), w).to_multiset(),
    ensures
        counts_summable(vals),
        sum_counts(vals) == occurrences_in_tasks(inputs, w),
{
    let vs = values_over_tasks(wc_emits(inputs), w);
    let total = occurrences_in_tasks(inputs, w);
    lemma_word_count_totals(inputs, w);
    lemma_emitted_values(inputs, w);
    assert forall|j: int| 0 <= j < vs.len() implies (#[trigger] parse_u32_spec(vs[j])) is Some by {
        assert(small_decimal(vs[j], total));
        let c = choose|c: nat| c <= total && vs[j] == #[trigger] decimal(c);
        lemma_parse_decimal(c as u32);
    }
    lemma_counts_any_order(vals, vs);
}


/// The number that `r` pairs with `w`, read as decimal digits, or 0 where
/// `w` has no pair (the last pair counts where there are several).
pub open spec fn count_in(r: Seq<(Seq<char>, Seq<char>)>, w: Seq<char>) -> nat
    decreases r.len(),
{
    if r.len() == 0 {
        0
    } else if r.last().0 == w {
        digits_value(r.last().1)
    } else {
        count_in(r.drop_last(), w)
    }
}

proof fn lemma_count_in_distinct(r: Seq<(Seq<char>, Seq<char>)>, w: Seq<char>, i: int)
    requires
        forall|x: int, y: int| 0 <= x < y < r.len() ==> (#[trigger] r[x]).0 != (#[trigger] r[y]).0,
        0 <= i < r.len(),
        r[i].0 == w,
    ensures
        count_in(r, w) == digits_value(r[i].1),
    decreases r.len(),
{
    if i < r.len() - 1 {
        assert(r[i].0 != r[r.len() - 1].0);
        let init = r.drop_last();
        assert(init[i] == r[i]);
        lemma_count_in_distinct(init, w, i);
    }
}

proof fn lemma_count_in_absent(r: Seq<(Seq<char>, Seq<char>)>, w: Seq<char>)
    requires
        forall|i: int| 0 <= i < r.len() ==> (#[trigger] r[i]).0 != w,
    ensures
        count_in(r, w) == 0,
    decreases r.len(),
{
    if r.len() > 0 {
        let init = r.drop_last();
        assert forall|i: int| 0 <= i < init.len() implies (#[trigger] init[i]).0 != w by {
            assert(init[i] == r[i]);
        }
        assert(r[r.len() - 1].0 != w);
        lemma_count_in_absent(init, w);
    }
}

/// Word count pairs each word with the number of its occurrences.
pub proof fn lemma_count_in_word_counts(t: Seq<char>, w: Seq<char>)
    ensures
        count_in(word_counts(t), w) == occurrences(words(t), w),
{
    let wc = word_counts(t);
    lemma_word_counts(t);
    if words(t).contains(w) {
        let i = choose|i: int| 0 <= i < wc.len() && (#[trigger] wc[i]).0 == w;
        lemma_count_in_distinct(wc, w, i);
        lemma_decimal_digits(occurrences(words(t), w));
    } else {
        assert forall|i: int| 0 <= i < wc.len() implies (#[trigger] wc[i]).0 != w by {
            assert(words(t).contains(wc[i].0));
        }
        lemma_count_in_absent(wc, w);
        lemma_occurrences_absent(words(t), w);
    }
}

proof fn lemma_occurrences_concat(x: Seq<Seq<char>>, y: Seq<Seq<char>>, w: Seq<char>)
    ensures
        occurrences(x + y, w) == occurrences(x, w) + occurrences(y, w),
    decreases y.len(),
{
    if y.len() == 0 {
        assert(x + y =~= x);
    } else {
        lemma_occurrences_concat(x, y.drop_last(), w);
        assert((x + y).drop_last() =~= x + y.drop_last());
        assert((x + y).last() == y.last());
    }
}

/// Counting the words of two texts joined by a space counts each word as
/// often as both texts together: the count `wc_map_fn` gives for `w` on
/// `a + " " + b` is its count on `a` plus its count on `b`.
pub proof fn lemma_word_counts_add(a: Seq<char>, b: Seq<char>, w: Seq<char>)
    ensures
        count_in(word_counts(a + seq![' '] + b), w) == count_in(word_counts(a), w) + count_in(
            word_counts(b),
            w,
        ),
{
    lemma_words_join(a, b);
    lemma_occurrences_concat(words(a), words(b), w);
    lemma_count_in_word_counts(a + seq![' '] + b, w);
    lemma_count_in_word_counts(a, w);
    lemma_count_in_word_counts(b, w);
}


proof fn lemma_occurrences_present(ws: Seq<Seq<char>>, w: Seq<char>)
    ensures
        occurrences(ws, w) > 0 <==> ws.contains(w),
    decreases ws.len(),
{
    if ws.len() > 0 {
        let init = ws.drop_last();
        lemma_occurrences_present(init, w);
        if init.contains(w) {
            let j = choose|j: int| 0 <= j < init.len() && init[j] == w;
            assert(ws[j] == w);
        }
        if ws.contains(w) && ws.last() != w {
            let j = choose|j: int| 0 <= j < ws.len() && ws[j] == w;
            assert(init[j] == w);
        }
        if ws.last() == w {
            assert(ws[ws.len() - 1] == w);
        }
    }
}

/// The values that one text's word counts carry for `w`: its decimal
/// count, where `w` is a word of the text.
proof fn lemma_count_pairs_values(text: Seq<char>, w: Seq<char>)
    ensures
        collect_values(count_pairs(text), w) == if words(text).contains(w) {
            seq![decimal(occurrences(words(text), w))]
        } else {
            Seq::<Seq<char>>::empty()
        },
        has_key(count_pairs(text), w) == words(text).contains(w),
{
    let wc = word_counts(text);
    let cp = count_pairs(text);
    lemma_word_counts(text);
    assert(distinct_keys(cp)) by {
        assert forall|i: int, j: int|
            0 <= i < cp.len() && 0 <= j < cp.len() && i != j implies (#[trigger] cp[i]).0 != (
        #[trigger] cp[j]).0 by {
            assert(cp[i].0 == wc[i].0);
            assert(cp[j].0 == wc[j].0);
            if i < j {
                assert(wc[i].0 != wc[j].0);
            } else {
                assert(wc[j].0 != wc[i].0);
            }
        }
    }
    lemma_collect_distinct(cp, w);
    lemma_key_index(cp, w);
    if has_key(cp, w) {
        let i = choose|i: int| 0 <= i < cp.len() && (#[trigger] cp[i]).0 == w;
        assert(wc[i].0 == w);
    }
    if words(text).contains(w) {
        let i = choose|i: int| 0 <= i < wc.len() && (#[trigger] wc[i]).0 == w;
        assert(cp[i].0 == w);
    }
    match key_index(cp, w) {
        Some(i) => {
            assert(wc[i as int].0 == w);
        },
        None => {},
    }
}

/// `v` is the decimal form of a count of at most `bound`.
pub open spec fn small_decimal(v: Seq<char>, bound: nat) -> bool {
    exists|c: nat| c <= bound && v == #[trigger] decimal(c)
}

/// Every value of `vs` is the decimal form of a count of at most `bound`.
pub open spec fn small_decimals(vs: Seq<Seq<char>>, bound: nat) -> bool {
    forall|j: int| 0 <= j < vs.len() ==> small_decimal(#[trigger] vs[j], bound)
}

proof fn lemma_small_decimal_weaken(v: Seq<char>, b: nat, bound: nat)
    requires
        small_decimal(v, b),
        b <= bound,
    ensures
        small_decimal(v, bound),
{
    let c = choose|c: nat| c <= b && v == #[trigger] decimal(c);
    assert(c <= bound && v == decimal(c));
}

proof fn lemma_small_decimals_concat(va: Seq<Seq<char>>, vb: Seq<Seq<char>>, ba: nat, bb: nat, bound: nat)
    requires
        small_decimals(va, ba),
        small_decimals(vb, bb),
        ba <= bound,
        bb <= bound,
    ensures
        small_decimals(va + vb, bound),
{
    assert forall|j: int| 0 <= j < (va + vb).len() implies small_decimal(#[trigger] (va + vb)[j], bound) by {
        if j < va.len() {
            assert((va + vb)[j] == va[j]);
            lemma_small_decimal_weaken(va[j], ba, bound);
        } else {
            assert((va + vb)[j] == vb[j - va.len()]);
            lemma_small_decimal_weaken(vb[j - va.len()], bb, bound);
        }
    }
}

/// The values that a map task of word count emits for `w` are decimal
/// counts of at most its occurrences, and it emits `w` exactly when `w`
/// occurs in its lines.
proof fn lemma_task_values(ls: Seq<Seq<char>>, w: Seq<char>)
    ensures
        has_key(wc_task_pairs(ls), w) == (occurrences_in_lines(ls, w) > 0),
        small_decimals(collect_values(wc_task_pairs(ls), w), occurrences_in_lines(ls, w)),
    decreases ls.len(),
{
    if ls.len() > 0 {
        let init = ls.drop_last();
        let t = ls.last();
        lemma_task_values(init, w);
        let a = wc_task_pairs(init);
        let b = count_pairs(t);
        lemma_collect_concat(a, b, w);
        lemma_count_pairs_values(t, w);
        lemma_occurrences_present(words(t), w);
        if has_key(a + b, w) {
            let j = choose|j: int| 0 <= j < (a + b).len() && (#[trigger] (a + b)[j]).0 == w;
            if j < a.len() {
                assert(a[j].0 == w);
            } else {
                assert(b[j - a.len()].0 == w);
            }
        }
        if has_key(a, w) {
            let j = choose|j: int| 0 <= j < a.len() && (#[trigger] a[j]).0 == w;
            assert((a + b)[j].0 == w);
        }
        if has_key(b, w) {
            let j = choose|j: int| 0 <= j < b.len() && (#[trigger] b[j]).0 == w;
            assert((a + b)[a.len() + j].0 == w);
        }
        let cb = collect_values(b, w);
        let oc = occurrences(words(t), w);
        assert(small_decimals(cb, oc)) by {
            assert forall|j: int| 0 <= j < cb.len() implies small_decimal(#[trigger] cb[j], oc) by {
                assert(cb[j] == decimal(oc));
            }
        }
        lemma_small_decimals_concat(
            collect_values(a, w),
            cb,
            occurrences_in_lines(init, w),
            oc,
            occurrences_in_lines(ls, w),
        );
    }
}

/// Every value that the map tasks of word count emit for `w` is a decimal
/// count of at most the occurrences of `w` in all their lines; some map
/// task emits `w` exactly when `w` occurs in their lines.
pub proof fn lemma_emitted_values(inputs: Seq<Seq<Seq<char>>>, w: Seq<char>)
    ensures
        crate::worker::emitted_somewhere(wc_emits(inputs), w) == (occurrences_in_tasks(inputs, w) > 0),
        small_decimals(values_over_tasks(wc_emits(inputs), w), occurrences_in_tasks(inputs, w)),
    decreases inputs.len(),
{
    if inputs.len() > 0 {
        let init = inputs.drop_last();
        let e = wc_emits(inputs);
        assert(e.drop_last() =~= wc_emits(init));
        assert(e.last() == wc_task_pairs(inputs.last()));
        lemma_emitted_values(init, w);
        lemma_task_values(inputs.last(), w);
        let va = values_over_tasks(wc_emits(init), w);
        let vb = collect_values(wc_task_pairs(inputs.last()), w);
        assert(values_over_tasks(e, w) == va + vb);
        lemma_small_decimals_concat(
            va,
            vb,
            occurrences_in_tasks(init, w),
            occurrences_in_lines(inputs.last(), w),
            occurrences_in_tasks(inputs, w),
        );
        if crate::worker::emitted_somewhere(e, w) {
            let m = choose|m: int| 0 <= m < e.len() && has_key(#[trigger] e[m], w);
            if m < e.len() - 1 {
                assert(wc_emits(init)[m] == e[m]);
            }
        }
        if crate::worker::emitted_somewhere(wc_emits(init), w) {
            let m = choose|m: int| 0 <= m < wc_emits(init).len() && has_key(#[trigger] wc_emits(init)[m], w);
            assert(e[m] == wc_emits(init)[m]);
        }
        if occurrences_in_lines(inputs.last(), w) > 0 {
            assert(has_key(e[e.len() - 1], w));
        }
    }
}

proof fn lemma_occurring_is_word(ls: Seq<Seq<char>>, k: Seq<char>)
    requires
        occurrences_in_lines(ls, k) > 0,
    ensures
        exists|i: int| 0 <= i < ls.len() && (#[trigger] words(ls[i])).contains(k),
    decreases ls.len(),
{
    let init = ls.drop_last();
    lemma_occurrences_present(words(ls.last()), k);
    if occurrences_in_lines(init, k) > 0 {
        lemma_occurring_is_word(init, k);
        let i = choose|i: int| 0 <= i < init.len() && (#[trigger] words(init[i])).contains(k);
        assert(ls[i] == init[i]);
    } else {
        assert(words(ls[ls.len() - 1]).contains(k));
    }
}

proof fn lemma_task_occurrences_le(inputs: Seq<Seq<Seq<char>>>, m: int, k: Seq<char>)
    requires
        0 <= m < inputs.len(),
    ensures
        occurrences_in_lines(inputs[m], k) <= occurrences_in_tasks(inputs, k),
    decreases inputs.len(),
{
    if m < inputs.len() - 1 {
        lemma_task_occurrences_le(inputs.drop_last(), m, k);
        assert(inputs.drop_last()[m] == inputs[m]);
    }
}

/// A key of a word-count map task's groups is a word of its lines.
proof fn lemma_wc_keys_fit(inputs: Seq<Seq<Seq<char>>>, m: int, k: Seq<char>)
    requires
        0 <= m < inputs.len(),
        has_key(group_all(wc_emits(inputs)[m]), k),
        forall|v: Seq<char>|
            #[trigger] occurrences_in_tasks(inputs, v) > 0 ==> forall|c: int|
                0 <= c < v.len() ==> v[c] != ';',
    ensures
        key_fits(k),
        occurrences_in_tasks(inputs, k) > 0,
{
    let ls = inputs[m];
    assert(wc_emits(inputs)[m] == wc_task_pairs(ls));
    lemma_group_all_values(wc_task_pairs(ls), k);
    lemma_task_values(ls, k);
    lemma_task_occurrences_le(inputs, m, k);
    lemma_occurring_is_word(ls, k);
    let i = choose|i: int| 0 <= i < ls.len() && (#[trigger] words(ls[i])).contains(k);
    let j = choose|j: int| 0 <= j < words(ls[i]).len() && words(ls[i])[j] == k;
    lemma_words_are_nonblank(ls[i]);
    assert(no_space(words(ls[i])[j]));
    assert(crate::records::no_line_feed(k)) by {
        assert forall|c: int| 0 <= c < k.len() implies k[c] != '\n' by {
            assert(!crate::text::is_space(k[c]));
        }
    }
}

/// Under the premises of the word-count run laws, every group that a map
/// task emits survives being written into a partition and read back.
proof fn lemma_wc_round_trips(inputs: Seq<Seq<Seq<char>>>)
    requires
        forall|m: int| 0 <= m < inputs.len() ==> all_json_facts(#[trigger] group_all(wc_emits(inputs)[m])),
        forall|v: Seq<char>|
            #[trigger] occurrences_in_tasks(inputs, v) > 0 ==> occurrences_in_tasks(inputs, v) <= u32::MAX
                && forall|c: int| 0 <= c < v.len() ==> v[c] != ';',
    ensures
        emits_round_trip(wc_emits(inputs)),
{
    let e = wc_emits(inputs);
    assert forall|m: int, i: int|
        0 <= m < e.len() && 0 <= i < group_all(e[m]).len() implies group_round_trips(
        #[trigger] group_all(e[m])[i],
    ) by {
        let g = group_all(e[m])[i];
        assert(has_key(group_all(e[m]), g.0));
        lemma_wc_keys_fit(inputs, m, g.0);
        assert(all_json_facts(group_all(e[m])));
    }
}

/// What a reduce task returns with `wc_reduce_fn` is what `reduce_counts`
/// returns for the same groups: one `word;total` line per group.
pub proof fn lemma_reduce_with_wc_reduce_fn(groups: Seq<GroupView>, out: Seq<char>)
    requires
        reduce_output(wc_reduce_fn, groups, out),
    ensures
        out == records_text(count_records(groups)),
{
    let finals = choose|finals: Seq<String>| finals_fit(wc_reduce_fn, groups, out, finals);
    assert(finals_fit(wc_reduce_fn, groups, out, finals));
    assert forall|i: int| 0 <= i < groups.len() implies #[trigger] reduced_records(groups, finals)[i] == count_records(
        groups,
    )[i] by {
        assert(reduce_called(wc_reduce_fn, groups[i].0, groups[i].1, finals[i]));
    }
    assert(reduced_records(groups, finals) =~= count_records(groups));
}

/// Word count over a whole run, as the output file holds it: where the
/// reduce tasks `0..n` have all returned, in the order `order`, their
/// `word;total` lines `outs`, the text that appending them gives is one line
/// per word that occurs in the input lines, in some order, each word once,
/// with the number of its occurrences. This holds where no word holds `;`,
/// every word's total fits in a `u32`, and the map tasks' JSON texts are
/// those `TaskWorker::map` ensures.
pub proof fn lemma_word_count_output(
    inputs: Seq<Seq<Seq<char>>>,
    n: nat,
    order: Seq<nat>,
    outs: Seq<Seq<char>>,
)
    requires
        n > 0,
        inputs.len() <= u32::MAX + 1,
        forall|m: int| 0 <= m < inputs.len() ==> all_json_facts(#[trigger] group_all(wc_emits(inputs)[m])),
        forall|v: Seq<char>|
            #[trigger] occurrences_in_tasks(inputs, v) > 0 ==> occurrences_in_tasks(inputs, v) <= u32::MAX
                && forall|c: int| 0 <= c < v.len() ==> v[c] != ';',
        task_order(order, n),
        outs.len() == order.len(),
        forall|i: int|
            0 <= i < outs.len() ==> #[trigger] outs[i] == records_text(
                count_records(reduce_groups(wc_emits(inputs), n, order[i])),
            ),
    ensures
        exists|recs: Seq<(Seq<char>, Seq<char>)>|
            {
                &&& joined(outs) == records_text(recs)
                &&& distinct_record_keys(recs)
                &&& forall|j: int|
                    0 <= j < recs.len() ==> occurrences_in_tasks(inputs, (#[trigger] recs[j]).0) > 0
                        && recs[j].1 == decimal(occurrences_in_tasks(inputs, recs[j].0))
                &&& forall|w: Seq<char>|
                    occurrences_in_tasks(inputs, w) > 0 ==> exists|j: int|
                        0 <= j < recs.len() && (#[trigger] recs[j]).0 == w
            },
{
    let e = wc_emits(inputs);
    lemma_wc_round_trips(inputs);
    let rel = |k: Seq<char>, vs: Seq<Seq<char>>, v: Seq<char>| v == decimal(sum_counts(vs));
    let trs = Seq::new(outs.len(), |i: int| count_records(reduce_groups(e, n, order[i])));
    assert forall|i: int| 0 <= i < trs.len() implies records_of_groups(reduce_groups(e, n, order[i]), #[trigger] trs[i], rel)
        && outs[i] == records_text(trs[i]) by {
        let gs = reduce_groups(e, n, order[i]);
        assert forall|j: int| 0 <= j < trs[i].len() implies (#[trigger] trs[i][j]).0 == gs[j].0 && rel(
            gs[j].0,
            gs[j].1,
            trs[i][j].1,
        ) by {}
    }
    assert(order.no_duplicates());
    lemma_run_records(e, n, order, trs, outs, rel);
    let recs = flatten_records(trs);
    assert forall|j: int| 0 <= j < recs.len() implies occurrences_in_tasks(inputs, (#[trigger] recs[j]).0) > 0
        && recs[j].1 == decimal(occurrences_in_tasks(inputs, recs[j].0)) by {
        let k = recs[j].0;
        lemma_emitted_values(inputs, k);
        lemma_word_count_totals(inputs, k);
    }
    assert forall|w: Seq<char>| occurrences_in_tasks(inputs, w) > 0 implies exists|j: int|
        0 <= j < recs.len() && (#[trigger] recs[j]).0 == w by {
        lemma_emitted_values(inputs, w);
        lemma_run_reduces_each_key_once(e, n, w);
        assert(order.contains(key_bucket(w, n)));
    }
}

/// The same run law for reduce tasks run by `TaskWorker::reduce` with
/// `wc_reduce_fn`.
pub proof fn lemma_word_count_output_with_reduce_fn(
    inputs: Seq<Seq<Seq<char>>>,
    n: nat,
    order: Seq<nat>,
    outs: Seq<Seq<char>>,
)
    requires
        n > 0,
        inputs.len() <= u32::MAX + 1,
        forall|m: int| 0 <= m < inputs.len() ==> all_json_facts(#[trigger] group_all(wc_emits(inputs)[m])),
        forall|v: Seq<char>|
            #[trigger] occurrences_in_tasks(inputs, v) > 0 ==> occurrences_in_tasks(inputs, v) <= u32::MAX
                && forall|c: int| 0 <= c < v.len() ==> v[c] != ';',
        task_order(order, n),
        outs.len() == order.len(),
        forall|i: int|
            0 <= i < outs.len() ==> reduce_output(
                wc_reduce_fn,
                reduce_groups(wc_emits(inputs), n, order[i]),
                #[trigger] outs[i],
            ),
    ensures
        exists|recs: Seq<(Seq<char>, Seq<char>)>|
            {
                &&& joined(outs) == records_text(recs)
                &&& distinct_record_keys(recs)
                &&& forall|j: int|
                    0 <= j < recs.len() ==> occurrences_in_tasks(inputs, (#[trigger] recs[j]).0) > 0
                        && recs[j].1 == decimal(occurrences_in_tasks(inputs, recs[j].0))
                &&& forall|w: Seq<char>|
                    occurrences_in_tasks(inputs, w) > 0 ==> exists|j: int|
                        0 <= j < recs.len() && (#[trigger] recs[j]).0 == w
            },
{
    assert forall|i: int| 0 <= i < outs.len() implies #[trigger] outs[i] == records_text(
        count_records(reduce_groups(wc_emits(inputs), n, order[i])),
    ) by {
        lemma_reduce_with_wc_reduce_fn(reduce_groups(wc_emits(inputs), n, order[i]), outs[i]);
    }
    lemma_word_count_output(inputs, n, order, outs);
}

/// Word count over a whole run: the reduce tasks `0..n` all decode their
/// partitions, every word's counts there are `u32` values summing to a
/// `u32` (so `reduce_counts` renders every line), and reduce task
/// `key_bucket(w, n)` has a group for `w` exactly when `w` occurs in the
/// input lines, with counts that sum to its occurrences. So the records that
/// the reduce tasks render hold `w` once, in that task, with the number of
/// its occurrences, and no other task holds `w`. This holds where
/// no word holds `;`, every word's total fits in a `u32`, and the map tasks'
/// JSON texts are those `TaskWorker::map` ensures.
pub proof fn lemma_word_count_run(inputs: Seq<Seq<Seq<char>>>, n: nat, w: Seq<char>)
    requires
        n > 0,
        inputs.len() <= u32::MAX + 1,
        forall|m: int| 0 <= m < inputs.len() ==> all_json_facts(#[trigger] group_all(wc_emits(inputs)[m])),
        forall|v: Seq<char>|
            #[trigger] occurrences_in_tasks(inputs, v) > 0 ==> occurrences_in_tasks(inputs, v) <= u32::MAX
                && forall|c: int| 0 <= c < v.len() ==> v[c] != ';',
    ensures
        forall|r: nat| r < n ==> (#[trigger] decode_partitions(crate::worker::reduce_inputs(wc_emits(inputs), n, r))) is Ok,
        forall|r: nat, i: int|
            r < n && 0 <= i < reduce_groups(wc_emits(inputs), n, r).len() ==> counts_summable(
                (#[trigger] reduce_groups(wc_emits(inputs), n, r)[i]).1,
            ),
        has_key(reduce_groups(wc_emits(inputs), n, key_bucket(w, n)), w) <==> occurrences_in_tasks(inputs, w) > 0,
        occurrences_in_tasks(inputs, w) > 0 ==> sum_counts(
            values_of(reduce_groups(wc_emits(inputs), n, key_bucket(w, n)), w),
        ) == occurrences_in_tasks(inputs, w),
        forall|r: nat| r < n ==> crate::grouping::distinct_keys(#[trigger] reduce_groups(wc_emits(inputs), n, r)),
        forall|r: nat, i: int|
            r < n && 0 <= i < reduce_groups(wc_emits(inputs), n, r).len() && (#[trigger] count_records(
                reduce_groups(wc_emits(inputs), n, r),
            )[i]).0 == w ==> r == key_bucket(w, n) && count_records(reduce_groups(wc_emits(inputs), n, r))[i].1
                == decimal(occurrences_in_tasks(inputs, w)),
        occurrences_in_tasks(inputs, w) > 0 ==> exists|i: int|
            0 <= i < reduce_groups(wc_emits(inputs), n, key_bucket(w, n)).len() && #[trigger] count_records(
                reduce_groups(wc_emits(inputs), n, key_bucket(w, n)),
            )[i] == (w, decimal(occurrences_in_tasks(inputs, w))),
{
    let e = wc_emits(inputs);
    lemma_wc_round_trips(inputs);
    lemma_run_reduces_each_key_once(e, n, w);
    lemma_emitted_values(inputs, w);
    if occurrences_in_tasks(inputs, w) > 0 {
        lemma_word_count_totals(inputs, w);
    }
    assert forall|r: nat, i: int|
        r < n && 0 <= i < reduce_groups(e, n, r).len() implies counts_summable(
        (#[trigger] reduce_groups(e, n, r)[i]).1,
    ) by {
        let gs = reduce_groups(e, n, r);
        let k = gs[i].0;
        lemma_run_reduces_each_key_once(e, n, k);
        assert(has_key(gs, k));
        lemma_emitted_values(inputs, k);
        let total = occurrences_in_tasks(inputs, k);
        assert(total > 0);
        lemma_word_count_totals(inputs, k);
        lemma_key_index(gs, k);
        let m = key_index(gs, k)->0;
        if m != i {
            assert(gs[m as int].0 == gs[i].0);
        }
        assert(values_of(gs, k) == gs[i].1);
        let vs = gs[i].1;
        assert forall|j: int| 0 <= j < vs.len() implies (#[trigger] parse_u32_spec(vs[j])) is Some by {
            assert(small_decimal(vs[j], total));
            let c = choose|c: nat| c <= total && vs[j] == #[trigger] decimal(c);
            lemma_parse_decimal(c as u32);
        }
    }
    let occ = occurrences_in_tasks(inputs, w);
    assert forall|r: nat, i: int|
        r < n && 0 <= i < reduce_groups(e, n, r).len() && (#[trigger] count_records(reduce_groups(e, n, r))[i]).0
            == w implies r == key_bucket(w, n) && count_records(reduce_groups(e, n, r))[i].1 == decimal(occ) by {
        let gs = reduce_groups(e, n, r);
        assert(gs[i].0 == w);
        assert(has_key(gs, w));
        lemma_key_index(gs, w);
        let m = key_index(gs, w)->0;
        if m != i {
            assert(gs[m as int].0 == gs[i].0);
        }
        assert(values_of(gs, w) == gs[i].1);
    }
    if occ > 0 {
        let gs = reduce_groups(e, n, key_bucket(w, n));
        lemma_key_index(gs, w);
        let i = key_index(gs, w)->0;
        assert(count_records(gs)[i as int] == (w, decimal(occ)));
    }
}

/// On a non-empty text without whitespace, word count finds that one word,
/// once: `wc_map_fn` gives exactly `[(w, "1")]`.
pub proof fn lemma_wc_one_word(w: Seq<char>)
    requires
        w.len() > 0,
        crate::text::no_space(w),
    ensures
        word_counts(w) == seq![(w, seq!['1'])],
{
    crate::text::lemma_one_word(w);
    let wp = word_pairs(seq![w]);
    assert(wp =~= seq![(w, seq![w])]);
    assert(wp.drop_last() =~= Seq::<GroupView>::empty());
    assert(group_all(wp.drop_last()) =~= Seq::<GroupView>::empty());
    crate::grouping::lemma_key_index(Seq::<GroupView>::empty(), w);
    assert(group_all(wp) =~= seq![(w, seq![w])]);
    assert(decimal(1) =~= seq!['1']);
    assert(word_counts(w) =~= seq![(w, seq!['1'])]);
}

impl TaskWorker {
    /// Reduce task of word count: decodes the partitions `contents` of a
    /// reduce task (`contents[m]` is the one that map task `m` filled),
    /// groups the counts by word and returns one `word;total` line per word,
    /// or `None` where some word's counts are not `u32` values summing to a
    /// `u32` (the inputs on which `wc_reduce_fn` has no result).
    pub fn reduce_counts(&self, contents: &Vec<String>) -> (r: Result<Option<String>, TaskError>)
        requires
            contents.len() <= u32::MAX + 1,
        ensures
            match decode_partitions(strings_view(contents@)) {
                Ok(pairs) => r matches Ok(o) && (o is Some <==> forall|i: int|
                    0 <= i < group_all(pairs).len() ==> counts_summable(
                        #[trigger] group_all(pairs)[i].1,
                    )) && (o matches Some(out) ==> out@ == records_text(
                    count_records(group_all(pairs)),
                )),
                Err(e) => r matches Err(x) && x@ == e,
            },
    {
        let groups = match collect_partitions(contents) {
            Ok(groups) => groups,
            Err(e) => {
                return Err(e);
            },
        };
        let ghost gv = groups_view(groups@);
        let mut out = String::new();
        for i in 0..groups.len()
            invariant
                gv == groups_view(groups@),
                decode_partitions(strings_view(contents@)) matches Ok(pairs) && gv == group_all(pairs),
                forall|j: int| 0 <= j < i ==> counts_summable(#[trigger] gv[j].1),
                out@ == records_text(count_records(gv.take(i as int))),
        {
            if count_total(&groups[i].1).is_none() {
                assert(!counts_summable(gv[i as int].1));
                assert(gv == group_all(decode_partitions(strings_view(contents@))->Ok_0));
                assert(!counts_summable(group_all(decode_partitions(strings_view(contents@))->Ok_0)[i as int].1));
                return Ok(None);
            }
            let total = wc_reduce_fn(groups[i].0.as_str(), &groups[i].1);
            let line = format_record(groups[i].0.as_str(), total.as_str());
            out.append(line.as_str());
            assert(count_records(gv.take(i + 1)).drop_last() =~= count_records(gv.take(i as int)));
        }
        assert(gv.take(groups.len() as int) == gv);
        Ok(Some(out))
    }
}

} // verus!
