//! The computing part of the map and reduce tasks that a worker runs: what a
//! map task writes into each intermediate partition, and what a reduce task
//! makes of the partitions that it reads.
use vstd::prelude::*;
use vstd::string::*;
use crate::grouping::{GroupView, strings_view, groups_view, group_all, group_pairs, collect_values, values_of, has_key, lemma_group_all_distinct, lemma_group_all_values, lemma_collect_concat, lemma_collect_distinct};
use crate::hashing::{generate_hash, key_bucket};
use crate::json::{json_of_strings, strings_of_json, strings_to_json, json_to_strings, json_text_facts};
use crate::records::{record_line, format_record, split_record, split_record_spec, records_text, record_fits_line, no_line_feed, lemma_lines_of_records, lemma_split_record_line};
use crate::text::{lines, split_lines};

verus! {

/// Why a task could not produce its output.
#[derive(PartialEq, Eq, Debug, Clone)]
pub enum TaskError {
    /// A line of the partition written by map task `map_num` has no `;`.
    InvalidIntermediate { map_num: u32 },
    /// The values of a line written by map task `map_num` are not a JSON
    /// list of strings; `message` is what `serde_json` reported.
    Decode { map_num: u32, message: String },
}

/// A task's error in mathematical terms.
pub enum TaskErrorView {
    InvalidIntermediate { map_num: u32 },
    Decode { map_num: u32, message: Seq<char> },
}

impl View for TaskError {
    type V = TaskErrorView;

    open spec fn view(&self) -> TaskErrorView {
        match self {
            TaskError::InvalidIntermediate { map_num } => TaskErrorView::InvalidIntermediate {
                map_num: *map_num,
            },
            TaskError::Decode { map_num, message } => TaskErrorView::Decode {
                map_num: *map_num,
                message: message@,
            },
        }
    }
}

/// What JSON encoding gives for every group's values ends with `]`, holds no
/// line feed and reads back as the values.
pub open spec fn all_json_facts(groups: Seq<GroupView>) -> bool {
    forall|i: int| 0 <= i < groups.len() ==> #[trigger] json_text_facts(groups[i].1)
}

/// The record line of a group: its key and its values as JSON.
pub open spec fn group_record(g: GroupView) -> Seq<char> {
    record_line(g.0, json_of_strings(g.1))
}

/// The text of partition `p` (of `n`): the records, in order, of the groups
/// whose key hashes to `p`.
pub open spec fn partition_text(groups: Seq<GroupView>, n: nat, p: nat) -> Seq<char>
    decreases groups.len(),
{
    if groups.len() == 0 {
        seq![]
    } else {
        partition_text(groups.drop_last(), n, p) + if key_bucket(groups.last().0, n) == p {
            group_record(groups.last())
        } else {
            seq![]
        }
    }
}

/// The texts of all `n` partitions.
pub open spec fn map_partitions(groups: Seq<GroupView>, n: nat) -> Seq<Seq<char>> {
    Seq::new(n, |p: int| partition_text(groups, n, p as nat))
}

/// Writes each group, as a record line, into the partition its key hashes to.
pub fn partition_groups(groups: &Vec<(String, Vec<String>)>, n_reduce: u32) -> (parts: Vec<String>)
    requires
        n_reduce > 0 || groups.len() == 0,
    ensures
        strings_view(parts@) == map_partitions(groups_view(groups@), n_reduce as nat),
        all_json_facts(groups_view(groups@)),
{
    let ghost gv = groups_view(groups@);
    let ghost n = n_reduce as nat;
    let mut parts: Vec<String> = Vec::new();
    let mut p: u32 = 0;
    while p < n_reduce
        invariant
            p <= n_reduce,
            parts@.len() == p,
            forall|q: int| 0 <= q < p ==> (#[trigger] parts@[q])@.len() == 0,
        decreases n_reduce - p,
    {
        parts.push(String::new());
        p = p + 1;
    }
    for i in 0..groups.len()
        invariant
            n_reduce > 0 || groups.len() == 0,
            gv == groups_view(groups@),
            n == n_reduce as nat,
            parts@.len() == n,
            all_json_facts(gv.take(i as int)),
            forall|q: int| 0 <= q < n ==> (#[trigger] parts@[q])@ == partition_text(gv.take(i as int), n, q as nat),
    {
        let ghost before = parts@;
        let ghost pre = gv.take(i as int);
        assert(gv.take(i + 1).drop_last() == pre);
        assert(gv.take(i + 1).last() == gv[i as int]);
        let b = generate_hash(groups[i].0.as_str(), n_reduce) as usize;
        let json = match strings_to_json(&groups[i].1) {
            Ok(text) => text,
            // `strings_to_json` does not fail on a list of strings
            Err(_) => String::new(),
        };
        let line = format_record(groups[i].0.as_str(), json.as_str());
        parts[b].append(line.as_str());
        assert forall|q: int| 0 <= q < n implies (#[trigger] parts@[q])@ == partition_text(
            gv.take(i + 1),
            n,
            q as nat,
        ) by {
            if q != b {
                assert(parts@[q] == before[q]);
                assert(partition_text(gv.take(i + 1), n, q as nat) =~= partition_text(pre, n, q as nat));
            }
        }
        assert(all_json_facts(gv.take(i + 1))) by {
            assert forall|j: int| 0 <= j < i + 1 implies #[trigger] json_text_facts(gv.take(i + 1)[j].1) by {
                if j < i {
                    assert(gv.take(i + 1)[j] == pre[j]);
                }
            }
        }
    }
    assert(gv.take(groups.len() as int) == gv);
    assert(strings_view(parts@) =~= map_partitions(gv, n));
    parts
}

/// The pairs that one map call's output feeds to grouping: each value alone.
pub open spec fn emitted_view(kvs: Seq<(String, String)>) -> Seq<GroupView> {
    kvs.map_values(|kv: (String, String)| (kv.0@, seq![kv.1@]))
}

/// The pairs of all map calls' outputs, in order.
pub open spec fn all_emitted(outs: Seq<Vec<(String, String)>>) -> Seq<GroupView>
    decreases outs.len(),
{
    if outs.len() == 0 {
        seq![]
    } else {
        all_emitted(outs.drop_last()) + emitted_view(outs.last()@)
    }
}

/// `out` is an output that `map_fn` may give for the file name `file` and
/// the input line `item`.
pub open spec fn map_called<F: Fn(&str, &str) -> Vec<(String, String)>>(
    map_fn: F,
    file: Seq<char>,
    item: Seq<char>,
    out: Vec<(String, String)>,
) -> bool {
    exists|a: &str, b: &str| a@ == file && b@ == item && call_ensures(map_fn, (a, b), out)
}



/// A line of the partition written by map task `map_num`: its key and its
/// decoded values.
pub open spec fn decode_line(line: Seq<char>, map_num: u32) -> Result<GroupView, TaskErrorView> {
    match split_record_spec(line) {
        None => Err(TaskErrorView::InvalidIntermediate { map_num }),
        Some(kv) => match strings_of_json(kv.1) {
            Err(message) => Err(TaskErrorView::Decode { map_num, message }),
            Ok(vs) => Ok((kv.0, vs)),
        },
    }
}

/// The lines of a partition decoded in order, or the first line's error.
pub open spec fn decode_lines(ls: Seq<Seq<char>>, map_num: u32) -> Result<Seq<GroupView>, TaskErrorView>
    decreases ls.len(),
{
    if ls.len() == 0 {
        Ok(seq![])
    } else {
        match decode_lines(ls.drop_last(), map_num) {
            Err(e) => Err(e),
            Ok(ps) => match decode_line(ls.last(), map_num) {
                Err(e) => Err(e),
                Ok(p) => Ok(ps.push(p)),
            },
        }
    }
}

/// All records of the partitions that map tasks `0, 1, ...` wrote for one
/// reduce task, decoded in order, or the first error.
pub open spec fn decode_partitions(contents: Seq<Seq<char>>) -> Result<Seq<GroupView>, TaskErrorView>
    decreases contents.len(),
{
    if contents.len() == 0 {
        Ok(seq![])
    } else {
        match decode_partitions(contents.drop_last()) {
            Err(e) => Err(e),
            Ok(ps) => match decode_lines(lines(contents.last()), (contents.len() - 1) as u32) {
                Err(e) => Err(e),
                Ok(qs) => Ok(ps + qs),
            },
        }
    }
}

/// Decodes the lines of one partition onto the end of `pairs`.
fn decode_partition(content: &str, map_num: u32, pairs: &mut Vec<(String, Vec<String>)>) -> (r:
    Result<(), TaskError>)
    ensures
        match decode_lines(lines(content@), map_num) {
            Ok(qs) => r is Ok && groups_view(final(pairs)@) == groups_view(old(pairs)@) + qs,
            Err(e) => r matches Err(x) && x@ == e,
        },
{
    let ls = split_lines(content);
    let ghost lv = lines(content@);
    let ghost start = groups_view(pairs@);
    for i in 0..ls.len()
        invariant
            strings_view(ls@) == lv,
            lv == lines(content@),
            start == groups_view(old(pairs)@),
            decode_lines(lv.take(i as int), map_num) matches Ok(qs) && groups_view(pairs@) == start + qs,
    {
        assert(lv.take(i + 1).drop_last() == lv.take(i as int));
        assert(lv.take(i + 1).last() == ls@[i as int]@);
        let ghost qs = decode_lines(lv.take(i as int), map_num)->Ok_0;
        let (key, text) = match split_record(ls[i].as_str()) {
            Some(kv) => kv,
            None => {
                assert(decode_lines(lv, map_num) == Err::<Seq<GroupView>, TaskErrorView>(TaskErrorView::InvalidIntermediate { map_num })) by {
                    lemma_decode_lines_error_persists(lv, i as int, map_num);
                }
                return Err(TaskError::InvalidIntermediate { map_num });
            },
        };
        let values = match json_to_strings(text.as_str()) {
            Ok(vs) => vs,
            Err(message) => {
                assert(decode_lines(lv, map_num) == Err::<Seq<GroupView>, TaskErrorView>(
                    TaskErrorView::Decode { map_num, message: message@ },
                )) by {
                    lemma_decode_lines_error_persists(lv, i as int, map_num);
                }
                return Err(TaskError::Decode { map_num, message });
            },
        };
        let ghost prev = groups_view(pairs@);
        pairs.push((key, values));
        assert(groups_view(pairs@) =~= prev.push((key@, strings_view(values@))));
        assert(groups_view(pairs@) =~= start + qs.push((key@, strings_view(values@))));
    }
    assert(lv.take(ls@.len() as int) == lv);
    Ok(())
}

/// Once a line fails to decode, decoding the whole partition fails with its
/// error.
proof fn lemma_decode_lines_error_persists(ls: Seq<Seq<char>>, i: int, map_num: u32)
    requires
        0 <= i < ls.len(),
        decode_lines(ls.take(i), map_num) is Ok,
        decode_line(ls[i], map_num) is Err,
    ensures
        decode_lines(ls, map_num) == Err::<Seq<GroupView>, TaskErrorView>(decode_line(ls[i], map_num)->Err_0),
    decreases ls.len(),
{
    if i == ls.len() - 1 {
        assert(ls.drop_last() == ls.take(i));
    } else {
        assert(ls.drop_last().take(i) == ls.take(i));
        lemma_decode_lines_error_persists(ls.drop_last(), i, map_num);
    }
}

/// Decodes the partitions that map tasks `0, 1, ...` wrote for one reduce
/// task (`contents[m]` from map task `m`) and groups their records by key.
pub fn collect_partitions(contents: &Vec<String>) -> (r: Result<Vec<(String, Vec<String>)>, TaskError>)
    requires
        contents.len() <= u32::MAX + 1,
    ensures
        match decode_partitions(strings_view(contents@)) {
            Ok(pairs) => r matches Ok(groups) && groups_view(groups@) == group_all(pairs),
            Err(e) => r matches Err(x) && x@ == e,
        },
{
    let ghost cv = strings_view(contents@);
    let mut pairs: Vec<(String, Vec<String>)> = Vec::new();
    for m in 0..contents.len()
        invariant
            cv == strings_view(contents@),
            contents.len() <= u32::MAX + 1,
            decode_partitions(cv.take(m as int)) matches Ok(ps) && groups_view(pairs@) == ps,
    {
        assert(cv.take(m + 1).drop_last() == cv.take(m as int));
        assert(cv.take(m + 1).last() == contents@[m as int]@);
        let r = decode_partition(contents[m].as_str(), m as u32, &mut pairs);
        match r {
            Err(e) => {
                assert(decode_partitions(cv) == Err::<Seq<GroupView>, TaskErrorView>(e@)) by {
                    lemma_decode_partitions_error_persists(cv, m as int);
                }
                return Err(e);
            },
            Ok(()) => {},
        }
    }
    assert(cv.take(contents.len() as int) == cv);
    Ok(group_pairs(&pairs))
}

/// Once a partition fails to decode, decoding all of them fails with its
/// error.
proof fn lemma_decode_partitions_error_persists(cs: Seq<Seq<char>>, m: int)
    requires
        0 <= m < cs.len(),
        decode_partitions(cs.take(m)) is Ok,
        decode_lines(lines(cs[m]), m as u32) is Err,
    ensures
        decode_partitions(cs) == Err::<Seq<GroupView>, TaskErrorView>(decode_lines(lines(cs[m]), m as u32)->Err_0),
    decreases cs.len(),
{
    if m == cs.len() - 1 {
        assert(cs.drop_last() == cs.take(m));
    } else {
        assert(cs.drop_last().take(m) == cs.take(m));
        lemma_decode_partitions_error_persists(cs.drop_last(), m);
    }
}


/// `out` is an output that `reduce_fn` may give for the key `key` and the
/// values `values`.
pub open spec fn reduce_called<F: Fn(&str, &Vec<String>) -> String>(
    reduce_fn: F,
    key: Seq<char>,
    values: Seq<Seq<char>>,
    out: String,
) -> bool {
    exists|a: &str, b: &Vec<String>|
        a@ == key && strings_view(b@) == values && call_ensures(reduce_fn, (a, b), out)
}

/// The records that pair each group's key with its reduced value.
pub open spec fn reduced_records(groups: Seq<GroupView>, finals: Seq<String>) -> Seq<(Seq<char>, Seq<char>)> {
    Seq::new(groups.len(), |i: int| (groups[i].0, finals[i]@))
}


/// The groups whose key hashes to partition `p` of `n`, in order.
pub open spec fn groups_in_partition(groups: Seq<GroupView>, n: nat, p: nat) -> Seq<GroupView>
    decreases groups.len(),
{
    if groups.len() == 0 {
        seq![]
    } else {
        let prev = groups_in_partition(groups.drop_last(), n, p);
        if key_bucket(groups.last().0, n) == p {
            prev.push(groups.last())
        } else {
            prev
        }
    }
}

/// A key that a record line carries intact: it holds no `;` and no line feed.
pub open spec fn key_fits(k: Seq<char>) -> bool {
    &&& forall|i: int| 0 <= i < k.len() ==> k[i] != ';'
    &&& no_line_feed(k)
}

/// A group survives being written into a partition and read back: its key
/// fits a record line, and the JSON text of its values (as the map task
/// writes it) fits on the line and reads back as the values.
pub open spec fn group_round_trips(g: GroupView) -> bool {
    &&& key_fits(g.0)
    &&& json_text_facts(g.1)
}

/// The records of groups: each key with its values as JSON.
pub open spec fn encoded_records(groups: Seq<GroupView>) -> Seq<(Seq<char>, Seq<char>)> {
    groups.map_values(|g: GroupView| (g.0, json_of_strings(g.1)))
}

proof fn lemma_partition_text_records(groups: Seq<GroupView>, n: nat, p: nat)
    requires
        forall|i: int| 0 <= i < groups.len() ==> group_round_trips(#[trigger] groups[i]),
    ensures
        partition_text(groups, n, p) == records_text(encoded_records(groups_in_partition(groups, n, p))),
        forall|j: int|
            0 <= j < groups_in_partition(groups, n, p).len() ==> group_round_trips(
                #[trigger] groups_in_partition(groups, n, p)[j],
            ),
    decreases groups.len(),
{
    if groups.len() == 0 {
        assert(encoded_records(groups_in_partition(groups, n, p)) =~= Seq::<(Seq<char>, Seq<char>)>::empty());
    } else {
        let init = groups.drop_last();
        assert forall|i: int| 0 <= i < init.len() implies group_round_trips(#[trigger] init[i]) by {
            assert(init[i] == groups[i]);
        }
        lemma_partition_text_records(init, n, p);
        let prev = groups_in_partition(init, n, p);
        let g = groups.last();
        assert(group_round_trips(groups[groups.len() - 1]));
        if key_bucket(g.0, n) == p {
            let cur = prev.push(g);
            assert(encoded_records(cur).drop_last() =~= encoded_records(prev));
            assert(encoded_records(cur).last() == (g.0, json_of_strings(g.1)));
            assert forall|j: int| 0 <= j < cur.len() implies group_round_trips(#[trigger] cur[j]) by {
                if j < prev.len() {
                    assert(cur[j] == prev[j]);
                }
            }
        } else {
            assert(partition_text(groups, n, p) =~= partition_text(init, n, p));
        }
    }
}

proof fn lemma_decode_encoded(sel: Seq<GroupView>, m: u32)
    requires
        forall|j: int| 0 <= j < sel.len() ==> group_round_trips(#[trigger] sel[j]),
    ensures
        decode_lines(
            encoded_records(sel).map_values(|r: (Seq<char>, Seq<char>)| r.0.push(';') + r.1),
            m,
        ) == Ok::<Seq<GroupView>, TaskErrorView>(sel),
    decreases sel.len(),
{
    let f = |r: (Seq<char>, Seq<char>)| r.0.push(';') + r.1;
    let ls = encoded_records(sel).map_values(f);
    if sel.len() == 0 {
        assert(ls =~= Seq::<Seq<char>>::empty());
        assert(sel =~= Seq::<GroupView>::empty());
    } else {
        let init = sel.drop_last();
        assert forall|j: int| 0 <= j < init.len() implies group_round_trips(#[trigger] init[j]) by {
            assert(init[j] == sel[j]);
        }
        lemma_decode_encoded(init, m);
        assert(ls.drop_last() =~= encoded_records(init).map_values(f));
        let g = sel.last();
        assert(group_round_trips(sel[sel.len() - 1]));
        let j = json_of_strings(g.1);
        assert(ls.last() == g.0.push(';') + j);
        lemma_split_record_line(g.0, j);
        assert(decode_line(ls.last(), m) == Ok::<GroupView, TaskErrorView>(g));
        assert(init.push(g) =~= sel);
    }
}

/// What a reduce task decodes from the partition `p` that a map task wrote
/// is exactly that map task's groups of partition `p`, in order, for groups
/// that survive the record framing and the JSON encoding.
pub proof fn lemma_partition_round_trip(groups: Seq<GroupView>, n: nat, p: nat, m: u32)
    requires
        forall|i: int| 0 <= i < groups.len() ==> group_round_trips(#[trigger] groups[i]),
    ensures
        decode_lines(lines(partition_text(groups, n, p)), m) == Ok::<Seq<GroupView>, TaskErrorView>(
            groups_in_partition(groups, n, p),
        ),
{
    lemma_partition_text_records(groups, n, p);
    let sel = groups_in_partition(groups, n, p);
    let recs = encoded_records(sel);
    assert forall|j: int| 0 <= j < recs.len() implies record_fits_line(#[trigger] recs[j].0, recs[j].1) by {
        assert(group_round_trips(sel[j]));
    }
    lemma_lines_of_records(recs);
    lemma_decode_encoded(sel, m);
}



/// Every key of the grouped map output is in the partition its hash names
/// and in no other.
pub proof fn lemma_partition_membership(groups: Seq<GroupView>, n: nat, r: nat, k: Seq<char>)
    ensures
        has_key(groups_in_partition(groups, n, r), k) <==> has_key(groups, k) && key_bucket(k, n) == r,
    decreases groups.len(),
{
    if groups.len() > 0 {
        let init = groups.drop_last();
        lemma_partition_membership(init, n, r, k);
        let prev = groups_in_partition(init, n, r);
        let g = groups.last();
        let cur = groups_in_partition(groups, n, r);
        if has_key(init, k) {
            let j = choose|j: int| 0 <= j < init.len() && (#[trigger] init[j]).0 == k;
            assert(groups[j].0 == k);
        }
        if has_key(groups, k) && g.0 != k {
            let j = choose|j: int| 0 <= j < groups.len() && (#[trigger] groups[j]).0 == k;
            assert(init[j].0 == k);
        }
        if g.0 == k {
            assert(groups[groups.len() - 1].0 == k);
        }
        if key_bucket(g.0, n) == r {
            assert(cur == prev.push(g));
            if has_key(prev, k) {
                let j = choose|j: int| 0 <= j < prev.len() && (#[trigger] prev[j]).0 == k;
                assert(cur[j].0 == k);
            }
            if has_key(cur, k) && g.0 != k {
                let j = choose|j: int| 0 <= j < cur.len() && (#[trigger] cur[j]).0 == k;
                assert(prev[j].0 == k);
            }
            if g.0 == k {
                assert(cur[prev.len() as int].0 == k);
            }
        }
    }
}

/// The values of key `k` that the map tasks emitted, task after task.
pub open spec fn values_over_tasks(emits: Seq<Seq<GroupView>>, k: Seq<char>) -> Seq<Seq<char>>
    decreases emits.len(),
{
    if emits.len() == 0 {
        seq![]
    } else {
        values_over_tasks(emits.drop_last(), k) + collect_values(emits.last(), k)
    }
}

/// The partitions that reduce task `r` of `n` reads when the map tasks
/// emitted `emits`: partition `r` of each map task's grouped output.
pub open spec fn reduce_inputs(emits: Seq<Seq<GroupView>>, n: nat, r: nat) -> Seq<Seq<char>> {
    Seq::new(emits.len(), |m: int| partition_text(group_all(emits[m]), n, r))
}

/// Some map task emitted key `k`.
pub open spec fn emitted_somewhere(emits: Seq<Seq<GroupView>>, k: Seq<char>) -> bool {
    exists|m: int| 0 <= m < emits.len() && has_key(#[trigger] emits[m], k)
}

/// The groups of partition `r` of each map task, task after task.
pub open spec fn selected_over_tasks(emits: Seq<Seq<GroupView>>, n: nat, r: nat) -> Seq<GroupView>
    decreases emits.len(),
{
    if emits.len() == 0 {
        seq![]
    } else {
        selected_over_tasks(emits.drop_last(), n, r) + groups_in_partition(group_all(emits.last()), n, r)
    }
}

proof fn lemma_decode_reduce_inputs(emits: Seq<Seq<GroupView>>, n: nat, r: nat)
    requires
        emits.len() <= u32::MAX + 1,
        forall|m: int, i: int|
            0 <= m < emits.len() && 0 <= i < group_all(emits[m]).len() ==> group_round_trips(
                #[trigger] group_all(emits[m])[i],
            ),
    ensures
        decode_partitions(reduce_inputs(emits, n, r)) == Ok::<Seq<GroupView>, TaskErrorView>(
            selected_over_tasks(emits, n, r),
        ),
    decreases emits.len(),
{
    if emits.len() > 0 {
        let init = emits.drop_last();
        assert forall|m: int, i: int|
            0 <= m < init.len() && 0 <= i < group_all(init[m]).len() implies group_round_trips(
            #[trigger] group_all(init[m])[i],
        ) by {
            assert(init[m] == emits[m]);
        }
        lemma_decode_reduce_inputs(init, n, r);
        assert(reduce_inputs(emits, n, r).drop_last() =~= reduce_inputs(init, n, r));
        let last = group_all(emits.last());
        assert forall|i: int| 0 <= i < last.len() implies group_round_trips(#[trigger] last[i]) by {
            assert(emits.last() == emits[emits.len() - 1]);
        }
        lemma_partition_round_trip(last, n, r, (emits.len() - 1) as u32);
        assert(reduce_inputs(emits, n, r).last() == partition_text(last, n, r));
    }
}


proof fn lemma_collect_partition(g: Seq<GroupView>, n: nat, r: nat, k: Seq<char>)
    ensures
        collect_values(groups_in_partition(g, n, r), k) == if key_bucket(k, n) == r {
            collect_values(g, k)
        } else {
            Seq::<Seq<char>>::empty()
        },
        has_key(groups_in_partition(g, n, r), k) ==> key_bucket(k, n) == r,
    decreases g.len(),
{
    if g.len() > 0 {
        let init = g.drop_last();
        lemma_collect_partition(init, n, r, k);
        let prev = groups_in_partition(init, n, r);
        if key_bucket(g.last().0, n) == r {
            assert(prev.push(g.last()).drop_last() == prev);
            if has_key(prev.push(g.last()), k) && g.last().0 != k {
                let j = choose|j: int| 0 <= j < prev.push(g.last()).len() && (#[trigger] prev.push(g.last())[j]).0 == k;
                assert(prev[j].0 == k);
            }
        } else {
            if key_bucket(k, n) == r {
                assert(g.last().0 != k);
                assert(collect_values(g, k) =~= collect_values(init, k));
            }
        }
    }
}


proof fn lemma_collect_selected(emits: Seq<Seq<GroupView>>, n: nat, r: nat, k: Seq<char>)
    ensures
        collect_values(selected_over_tasks(emits, n, r), k) == if key_bucket(k, n) == r {
            values_over_tasks(emits, k)
        } else {
            Seq::<Seq<char>>::empty()
        },
        has_key(selected_over_tasks(emits, n, r), k) <==> key_bucket(k, n) == r && emitted_somewhere(
            emits,
            k,
        ),
    decreases emits.len(),
{
    if emits.len() > 0 {
        let init = emits.drop_last();
        lemma_collect_selected(init, n, r, k);
        let a = selected_over_tasks(init, n, r);
        let g = group_all(emits.last());
        let b = groups_in_partition(g, n, r);
        lemma_collect_concat(a, b, k);
        lemma_collect_partition(g, n, r, k);
        lemma_group_all_distinct(emits.last());
        lemma_collect_distinct(g, k);
        lemma_group_all_values(emits.last(), k);
        lemma_partition_membership(g, n, r, k);
        if has_key(a + b, k) {
            let j = choose|j: int| 0 <= j < (a + b).len() && (#[trigger] (a + b)[j]).0 == k;
            if j < a.len() {
                assert(a[j].0 == k);
            } else {
                assert(b[j - a.len()].0 == k);
            }
        }
        if has_key(a, k) {
            let j = choose|j: int| 0 <= j < a.len() && (#[trigger] a[j]).0 == k;
            assert((a + b)[j].0 == k);
        }
        if has_key(b, k) {
            let j = choose|j: int| 0 <= j < b.len() && (#[trigger] b[j]).0 == k;
            assert((a + b)[a.len() + j].0 == k);
        }
        if emitted_somewhere(emits, k) && !has_key(emits.last(), k) {
            let m = choose|m: int| 0 <= m < emits.len() && has_key(#[trigger] emits[m], k);
            assert(init[m] == emits[m]);
        }
        if emitted_somewhere(init, k) {
            let m = choose|m: int| 0 <= m < init.len() && has_key(#[trigger] init[m], k);
            assert(init[m] == emits[m]);
        }
        if has_key(emits.last(), k) {
            assert(has_key(emits[emits.len() - 1], k));
        }
        if key_bucket(k, n) != r {
            assert(Seq::<Seq<char>>::empty() + Seq::<Seq<char>>::empty() =~= Seq::<Seq<char>>::empty());
        }
    }
}

/// Reduce task `r` receives every key that some map task emitted and that
/// hashes to `r`, and no other key; with each, all the values that the map
/// tasks emitted under it, map task after map task and in emitted order.
/// This holds for map output whose groups survive the record framing and
/// the JSON encoding (`TaskWorker::map` ensures the JSON part).
pub proof fn lemma_reduce_receives_all_values(emits: Seq<Seq<GroupView>>, n: nat, r: nat, k: Seq<char>)
    requires
        emits.len() <= u32::MAX + 1,
        forall|m: int, i: int|
            0 <= m < emits.len() && 0 <= i < group_all(emits[m]).len() ==> group_round_trips(
                #[trigger] group_all(emits[m])[i],
            ),
    ensures
        decode_partitions(reduce_inputs(emits, n, r)) is Ok,
        values_of(group_all(decode_partitions(reduce_inputs(emits, n, r))->Ok_0), k) == if key_bucket(k, n) == r {
            values_over_tasks(emits, k)
        } else {
            Seq::<Seq<char>>::empty()
        },
        has_key(group_all(decode_partitions(reduce_inputs(emits, n, r))->Ok_0), k) <==> key_bucket(k, n)
            == r && emitted_somewhere(emits, k),
{
    lemma_decode_reduce_inputs(emits, n, r);
    let pairs = selected_over_tasks(emits, n, r);
    lemma_group_all_values(pairs, k);
    lemma_collect_selected(emits, n, r, k);
}


/// The partitions that reduce task `r` reads, grouped by key.
pub open spec fn reduce_groups(emits: Seq<Seq<GroupView>>, n: nat, r: nat) -> Seq<GroupView> {
    group_all(decode_partitions(reduce_inputs(emits, n, r))->Ok_0)
}

/// Over a whole run, every emitted key is reduced exactly once: the reduce
/// tasks `0..n` all decode their partitions; a key is in the groups of
/// reduce task `r` only when some map task emitted it and it hashes to `r`,
/// and it is there, in one group, with all its values.
pub proof fn lemma_run_reduces_each_key_once(emits: Seq<Seq<GroupView>>, n: nat, k: Seq<char>)
    requires
        n > 0,
        emits.len() <= u32::MAX + 1,
        forall|m: int, i: int|
            0 <= m < emits.len() && 0 <= i < group_all(emits[m]).len() ==> group_round_trips(
                #[trigger] group_all(emits[m])[i],
            ),
    ensures
        forall|r: nat| r < n ==> (#[trigger] decode_partitions(reduce_inputs(emits, n, r))) is Ok,
        forall|r: nat| r < n ==> crate::grouping::distinct_keys(#[trigger] reduce_groups(emits, n, r)),
        forall|r: nat|
            r < n ==> (has_key(#[trigger] reduce_groups(emits, n, r), k) <==> r == key_bucket(k, n)
                && emitted_somewhere(emits, k)),
        key_bucket(k, n) < n,
        emitted_somewhere(emits, k) ==> values_of(reduce_groups(emits, n, key_bucket(k, n)), k)
            == values_over_tasks(emits, k),
{
    assert forall|r: nat| r < n implies (#[trigger] decode_partitions(reduce_inputs(emits, n, r))) is Ok
        && crate::grouping::distinct_keys(reduce_groups(emits, n, r)) && (has_key(
        reduce_groups(emits, n, r),
        k,
    ) <==> r == key_bucket(k, n) && emitted_somewhere(emits, k)) by {
        lemma_reduce_receives_all_values(emits, n, r, k);
        lemma_group_all_distinct(decode_partitions(reduce_inputs(emits, n, r))->Ok_0);
    }
    lemma_reduce_receives_all_values(emits, n, key_bucket(k, n), k);
}

/// `finals` are what `reduce_fn` returned for each of `groups`, and `out` is
/// the text of their records.
pub open spec fn finals_fit<F: Fn(&str, &Vec<String>) -> String>(
    reduce_fn: F,
    groups: Seq<GroupView>,
    out: Seq<char>,
    finals: Seq<String>,
) -> bool {
    &&& finals.len() == groups.len()
    &&& forall|i: int|
        0 <= i < finals.len() ==> #[trigger] reduce_called(reduce_fn, groups[i].0, groups[i].1, finals[i])
    &&& out == records_text(reduced_records(groups, finals))
}

/// `out` is what a reduce task returns for `groups`: one record per group,
/// in order, its key with what `reduce_fn` returned for its key and values.
pub open spec fn reduce_output<F: Fn(&str, &Vec<String>) -> String>(
    reduce_fn: F,
    groups: Seq<GroupView>,
    out: Seq<char>,
) -> bool {
    exists|finals: Seq<String>| finals_fit(reduce_fn, groups, out, finals)
}

/// The texts `outs`, one after the other: what appending them to an empty
/// file leaves in it.
pub open spec fn joined(outs: Seq<Seq<char>>) -> Seq<char>
    decreases outs.len(),
{
    if outs.len() == 0 {
        seq![]
    } else {
        joined(outs.drop_last()) + outs.last()
    }
}

/// The record sequences `trs`, one after the other.
pub open spec fn flatten_records(trs: Seq<Seq<(Seq<char>, Seq<char>)>>) -> Seq<(Seq<char>, Seq<char>)>
    decreases trs.len(),
{
    if trs.len() == 0 {
        seq![]
    } else {
        flatten_records(trs.drop_last()) + trs.last()
    }
}

/// `recs` hold one record per group of `groups`, in order: the group's key,
/// and a value that `rel` relates to the key and the group's values.
pub open spec fn records_of_groups(
    groups: Seq<GroupView>,
    recs: Seq<(Seq<char>, Seq<char>)>,
    rel: spec_fn(Seq<char>, Seq<Seq<char>>, Seq<char>) -> bool,
) -> bool {
    &&& recs.len() == groups.len()
    &&& forall|j: int|
        0 <= j < recs.len() ==> (#[trigger] recs[j]).0 == groups[j].0 && rel(groups[j].0, groups[j].1, recs[j].1)
}

/// No two records have the same key.
pub open spec fn distinct_record_keys(recs: Seq<(Seq<char>, Seq<char>)>) -> bool {
    forall|i: int, j: int|
        0 <= i < recs.len() && 0 <= j < recs.len() && i != j ==> (#[trigger] recs[i]).0 != (#[trigger] recs[j]).0
}

/// The premise of the run laws: every group that a map task emits survives
/// being written into a partition and read back.
pub open spec fn emits_round_trip(emits: Seq<Seq<GroupView>>) -> bool {
    forall|m: int, i: int|
        0 <= m < emits.len() && 0 <= i < group_all(emits[m]).len() ==> group_round_trips(
            #[trigger] group_all(emits[m])[i],
        )
}

/// `order` lists each reduce task `0..n` once: the order in which their
/// outputs were appended.
pub open spec fn task_order(order: Seq<nat>, n: nat) -> bool {
    &&& order.no_duplicates()
    &&& forall|i: int| 0 <= i < order.len() ==> #[trigger] order[i] < n
    &&& forall|r: nat| r < n ==> #[trigger] order.contains(r)
}

pub proof fn lemma_records_text_concat(a: Seq<(Seq<char>, Seq<char>)>, b: Seq<(Seq<char>, Seq<char>)>)
    ensures
        records_text(a + b) == records_text(a) + records_text(b),
    decreases b.len(),
{
    if b.len() == 0 {
        assert(a + b =~= a);
        assert(records_text(a) + records_text(b) =~= records_text(a));
    } else {
        lemma_records_text_concat(a, b.drop_last());
        assert((a + b).drop_last() =~= a + b.drop_last());
        assert((a + b).last() == b.last());
    }
}

/// The records of reduce task `r`: each is for a key that some map task
/// emitted and that hashes to `r`, with a value related to all the key's
/// values over the run; no key twice; every such key present.
proof fn lemma_task_records(
    emits: Seq<Seq<GroupView>>,
    n: nat,
    r: nat,
    tr: Seq<(Seq<char>, Seq<char>)>,
    rel: spec_fn(Seq<char>, Seq<Seq<char>>, Seq<char>) -> bool,
)
    requires
        n > 0,
        r < n,
        emits.len() <= u32::MAX + 1,
        emits_round_trip(emits),
        records_of_groups(reduce_groups(emits, n, r), tr, rel),
    ensures
        forall|j: int|
            0 <= j < tr.len() ==> rel((#[trigger] tr[j]).0, values_over_tasks(emits, tr[j].0), tr[j].1)
                && emitted_somewhere(emits, tr[j].0) && key_bucket(tr[j].0, n) == r,
        distinct_record_keys(tr),
        forall|k: Seq<char>|
            emitted_somewhere(emits, k) && key_bucket(k, n) == r ==> exists|j: int|
                0 <= j < tr.len() && (#[trigger] tr[j]).0 == k,
{
    let gs = reduce_groups(emits, n, r);
    lemma_run_reduces_each_key_once(emits, n, seq![]);
    assert(crate::grouping::distinct_keys(gs));
    assert forall|j: int| 0 <= j < tr.len() implies rel((#[trigger] tr[j]).0, values_over_tasks(emits, tr[j].0), tr[j].1)
        && emitted_somewhere(emits, tr[j].0) && key_bucket(tr[j].0, n) == r by {
        let k = gs[j].0;
        assert(tr[j].0 == k);
        lemma_run_reduces_each_key_once(emits, n, k);
        assert(has_key(gs, k));
        crate::grouping::lemma_key_index(gs, k);
        let m = crate::grouping::key_index(gs, k)->0;
        if m != j {
            assert(gs[m as int].0 == gs[j].0);
        }
        assert(values_of(gs, k) == gs[j].1);
    }
    assert forall|i: int, j: int| 0 <= i < tr.len() && 0 <= j < tr.len() && i != j implies (#[trigger] tr[i]).0
        != (#[trigger] tr[j]).0 by {
        assert(tr[i].0 == gs[i].0);
        assert(tr[j].0 == gs[j].0);
    }
    assert forall|k: Seq<char>| emitted_somewhere(emits, k) && key_bucket(k, n) == r implies exists|j: int|
        0 <= j < tr.len() && (#[trigger] tr[j]).0 == k by {
        lemma_run_reduces_each_key_once(emits, n, k);
        assert(has_key(gs, k));
        let j = choose|j: int| 0 <= j < gs.len() && (#[trigger] gs[j]).0 == k;
        assert(tr[j].0 == k);
    }
}

/// The records of the reduce tasks `order`, appended one task after another.
pub(crate) proof fn lemma_run_records(
    emits: Seq<Seq<GroupView>>,
    n: nat,
    order: Seq<nat>,
    trs: Seq<Seq<(Seq<char>, Seq<char>)>>,
    outs: Seq<Seq<char>>,
    rel: spec_fn(Seq<char>, Seq<Seq<char>>, Seq<char>) -> bool,
)
    requires
        n > 0,
        emits.len() <= u32::MAX + 1,
        emits_round_trip(emits),
        order.len() == trs.len(),
        outs.len() == trs.len(),
        order.no_duplicates(),
        forall|i: int| 0 <= i < order.len() ==> #[trigger] order[i] < n,
        forall|i: int| 0 <= i < trs.len() ==> records_of_groups(reduce_groups(emits, n, order[i]), #[trigger] trs[i], rel),
        forall|i: int| 0 <= i < outs.len() ==> #[trigger] outs[i] == records_text(trs[i]),
    ensures
        joined(outs) == records_text(flatten_records(trs)),
        forall|j: int|
            0 <= j < flatten_records(trs).len() ==> rel(
                (#[trigger] flatten_records(trs)[j]).0,
                values_over_tasks(emits, flatten_records(trs)[j].0),
                flatten_records(trs)[j].1,
            ) && emitted_somewhere(emits, flatten_records(trs)[j].0) && order.contains(
                key_bucket(flatten_records(trs)[j].0, n),
            ),
        distinct_record_keys(flatten_records(trs)),
        forall|k: Seq<char>|
            emitted_somewhere(emits, k) && order.contains(key_bucket(k, n)) ==> exists|j: int|
                0 <= j < flatten_records(trs).len() && (#[trigger] flatten_records(trs)[j]).0 == k,
    decreases trs.len(),
{
    if trs.len() > 0 {
        let o0 = order.drop_last();
        let t0 = trs.drop_last();
        let u0 = outs.drop_last();
        let last = order.last();
        assert forall|i: int| 0 <= i < o0.len() implies #[trigger] o0[i] < n by {
            assert(o0[i] == order[i]);
        }
        assert forall|i: int| 0 <= i < t0.len() implies records_of_groups(reduce_groups(emits, n, o0[i]), #[trigger] t0[i], rel) by {
            assert(t0[i] == trs[i] && o0[i] == order[i]);
        }
        assert forall|i: int| 0 <= i < u0.len() implies #[trigger] u0[i] == records_text(t0[i]) by {
            assert(u0[i] == outs[i] && t0[i] == trs[i]);
        }
        assert(o0.no_duplicates()) by {
            assert forall|i: int, j: int| 0 <= i < o0.len() && 0 <= j < o0.len() && i != j implies o0[i] != o0[j] by {
                assert(o0[i] == order[i] && o0[j] == order[j]);
            }
        }
        lemma_run_records(emits, n, o0, t0, u0, rel);
        let a = flatten_records(t0);
        let b = trs.last();
        assert(order[order.len() - 1] < n);
        assert(records_of_groups(reduce_groups(emits, n, last), trs[trs.len() - 1], rel));
        lemma_task_records(emits, n, last, b, rel);
        let f = flatten_records(trs);
        assert(f == a + b);
        lemma_records_text_concat(a, b);
        assert(outs.last() == records_text(b)) by {
            assert(outs[outs.len() - 1] == records_text(trs[trs.len() - 1]));
        }
        assert(!o0.contains(last)) by {
            if o0.contains(last) {
                let i = choose|i: int| 0 <= i < o0.len() && o0[i] == last;
                assert(order[i] == order[order.len() - 1]);
            }
        }
        assert forall|i: int| 0 <= i < o0.len() implies order.contains(#[trigger] o0[i]) by {
            assert(order[i] == o0[i]);
        }
        assert(order.contains(last)) by {
            assert(order[order.len() - 1] == last);
        }
        assert forall|j: int| 0 <= j < f.len() implies rel((#[trigger] f[j]).0, values_over_tasks(emits, f[j].0), f[j].1)
            && emitted_somewhere(emits, f[j].0) && order.contains(key_bucket(f[j].0, n)) by {
            if j < a.len() {
                assert(f[j] == a[j]);
                let x = key_bucket(a[j].0, n);
                let i = choose|i: int| 0 <= i < o0.len() && o0[i] == x;
                assert(order.contains(o0[i]));
            } else {
                assert(f[j] == b[j - a.len()]);
            }
        }
        assert forall|i: int, j: int| 0 <= i < f.len() && 0 <= j < f.len() && i != j implies (#[trigger] f[i]).0
            != (#[trigger] f[j]).0 by {
            if i < a.len() && j < a.len() {
                assert(f[i] == a[i] && f[j] == a[j]);
            } else if i >= a.len() && j >= a.len() {
                assert(f[i] == b[i - a.len()] && f[j] == b[j - a.len()]);
            } else if i < a.len() {
                assert(f[i] == a[i] && f[j] == b[j - a.len()]);
                assert(o0.contains(key_bucket(a[i].0, n)));
            } else {
                assert(f[j] == a[j] && f[i] == b[i - a.len()]);
                assert(o0.contains(key_bucket(a[j].0, n)));
            }
        }
        assert forall|k: Seq<char>| emitted_somewhere(emits, k) && order.contains(key_bucket(k, n)) implies exists|j: int|
            0 <= j < f.len() && (#[trigger] f[j]).0 == k by {
            let x = key_bucket(k, n);
            if x == last {
                let j = choose|j: int| 0 <= j < b.len() && (#[trigger] b[j]).0 == k;
                assert(f[a.len() + j] == b[j]);
            } else {
                let i = choose|i: int| 0 <= i < order.len() && order[i] == x;
                assert(i != order.len() - 1);
                assert(o0[i] == x);
                assert(o0.contains(x));
                let j = choose|j: int| 0 <= j < a.len() && (#[trigger] a[j]).0 == k;
                assert(f[j] == a[j]);
            }
        }
    } else {
        assert(flatten_records(trs) =~= Seq::<(Seq<char>, Seq<char>)>::empty());
    }
}

/// The value that a reduce task writes for key `k` is a result that
/// `reduce_fn` returned for `k` and the values `vs`.
pub open spec fn reduced_by<F: Fn(&str, &Vec<String>) -> String>(
    reduce_fn: F,
    k: Seq<char>,
    vs: Seq<Seq<char>>,
    v: Seq<char>,
) -> bool {
    exists|f: String| f@ == v && #[trigger] reduce_called(reduce_fn, k, vs, f)
}

/// The output of a whole run: where the reduce tasks `0..n` have all
/// returned, in the order `order`, the outputs `outs` for what the map tasks
/// emitted (`emits`), the text that appending them gives is one record line
/// per key that some map task emitted, in some order, each key once, with
/// what `reduce_fn` returned for the key and all its values (taken by map
/// task, then in the order emitted). This holds where every emitted group
/// survives being written into a partition and read back.
pub proof fn lemma_run_output<F: Fn(&str, &Vec<String>) -> String>(
    reduce_fn: F,
    emits: Seq<Seq<GroupView>>,
    n: nat,
    order: Seq<nat>,
    outs: Seq<Seq<char>>,
)
    requires
        n > 0,
        emits.len() <= u32::MAX + 1,
        emits_round_trip(emits),
        task_order(order, n),
        outs.len() == order.len(),
        forall|i: int| 0 <= i < outs.len() ==> reduce_output(reduce_fn, reduce_groups(emits, n, order[i]), #[trigger] outs[i]),
    ensures
        exists|recs: Seq<(Seq<char>, Seq<char>)>|
            {
                &&& joined(outs) == records_text(recs)
                &&& distinct_record_keys(recs)
                &&& forall|j: int|
                    0 <= j < recs.len() ==> emitted_somewhere(emits, (#[trigger] recs[j]).0) && reduced_by(
                        reduce_fn,
                        recs[j].0,
                        values_over_tasks(emits, recs[j].0),
                        recs[j].1,
                    )
                &&& forall|k: Seq<char>|
                    emitted_somewhere(emits, k) ==> exists|j: int| 0 <= j < recs.len() && (#[trigger] recs[j]).0 == k
            },
{
    let rel = |k: Seq<char>, vs: Seq<Seq<char>>, v: Seq<char>| reduced_by(reduce_fn, k, vs, v);
    let trs = Seq::new(
        outs.len(),
        |i: int|
            {
                let gs = reduce_groups(emits, n, order[i]);
                reduced_records(gs, choose|finals: Seq<String>| finals_fit(reduce_fn, gs, outs[i], finals))
            },
    );
    assert forall|i: int| 0 <= i < trs.len() implies records_of_groups(reduce_groups(emits, n, order[i]), #[trigger] trs[i], rel)
        && outs[i] == records_text(trs[i]) by {
        let gs = reduce_groups(emits, n, order[i]);
        assert(reduce_output(reduce_fn, gs, outs[i]));
        let finals = choose|finals: Seq<String>| finals_fit(reduce_fn, gs, outs[i], finals);
        assert(finals_fit(reduce_fn, gs, outs[i], finals));
        assert forall|j: int| 0 <= j < trs[i].len() implies (#[trigger] trs[i][j]).0 == gs[j].0 && rel(
            gs[j].0,
            gs[j].1,
            trs[i][j].1,
        ) by {
            assert(reduce_called(reduce_fn, gs[j].0, gs[j].1, finals[j]));
        }
    }
    lemma_run_records(emits, n, order, trs, outs, rel);
    let recs = flatten_records(trs);
    assert forall|k: Seq<char>| emitted_somewhere(emits, k) implies exists|j: int|
        0 <= j < recs.len() && (#[trigger] recs[j]).0 == k by {
        lemma_run_reduces_each_key_once(emits, n, k);
        assert(order.contains(key_bucket(k, n)));
    }
}

/// A worker, which runs map and reduce tasks.
pub struct TaskWorker {}

impl TaskWorker {
    /// Map task: applies `map_fn` to every line of the task's input
    /// `content` (read from the file `file_name`), groups the emitted values
    /// by key and renders each key's group into the text of the partition its
    /// key hashes to. The result holds the text of each of the `n_reduce`
    /// partitions. With no partitions, the lines must emit nothing.
    pub fn map<F: Fn(&str, &str) -> Vec<(String, String)>>(
        &self,
        file_name: &str,
        content: &str,
        map_fn: F,
        n_reduce: u32,
    ) -> (r: Vec<String>)
        requires
            forall|a: &str, b: &str| call_requires(map_fn, (a, b)),
            n_reduce > 0 || forall|i: int, a: &str, b: &str, out: Vec<(String, String)>|
                0 <= i < lines(content@).len() && a@ == file_name@ && b@ == #[trigger] lines(
                    content@,
                )[i] && #[trigger] call_ensures(map_fn, (a, b), out) ==> out@.len() == 0,
        ensures
            exists|outs: Seq<Vec<(String, String)>>|
                {
                    &&& outs.len() == lines(content@).len()
                    &&& forall|i: int|
                        0 <= i < outs.len() ==> #[trigger] map_called(
                            map_fn,
                            file_name@,
                            lines(content@)[i],
                            outs[i],
                        )
                    &&& strings_view(r@) == map_partitions(group_all(all_emitted(outs)), n_reduce as nat)
                    &&& all_json_facts(group_all(all_emitted(outs)))
                },
    {
        let items = split_lines(content);
        let ghost ls = lines(content@);
        let mut emitted: Vec<(String, Vec<String>)> = Vec::new();
        let ghost mut outs: Seq<Vec<(String, String)>> = Seq::empty();
        for i in 0..items.len()
            invariant
                strings_view(items@) == ls,
                ls == lines(content@),
                forall|a: &str, b: &str| call_requires(map_fn, (a, b)),
                outs.len() == i,
                forall|k: int| 0 <= k < i ==> #[trigger] map_called(map_fn, file_name@, ls[k], outs[k]),
                groups_view(emitted@) == all_emitted(outs),
                n_reduce > 0 || forall|k: int, a: &str, b: &str, out: Vec<(String, String)>|
                    0 <= k < ls.len() && a@ == file_name@ && b@ == #[trigger] ls[k] && #[trigger] call_ensures(map_fn, (a, b), out) ==> out@.len() == 0,
                n_reduce > 0 || emitted@.len() == 0,
        {
            let item: &str = items[i].as_str();
            let out = map_fn(file_name, item);
            assert(ls[i as int] == item@);
            assert(map_called(map_fn, file_name@, item@, out));
            assert(n_reduce == 0 ==> out@.len() == 0);
            let ghost before_outs = outs;
            let ghost start = groups_view(emitted@);
            for j in 0..out.len()
                invariant
                    start == all_emitted(before_outs),
                    n_reduce > 0 || out@.len() == 0,
                    groups_view(emitted@) == start + emitted_view(out@.take(j as int)),
            {
                let mut vals: Vec<String> = Vec::new();
                vals.push(out[j].1.clone());
                let ghost prev = groups_view(emitted@);
                emitted.push((out[j].0.clone(), vals));
                assert(strings_view(vals@) =~= seq![out@[j as int].1@]);
                assert(groups_view(emitted@) =~= prev.push((out@[j as int].0@, seq![out@[j as int].1@])));
                assert(emitted_view(out@.take(j + 1)) =~= emitted_view(out@.take(j as int)).push(
                    (out@[j as int].0@, seq![out@[j as int].1@]),
                ));
            }
            assert(out@.take(out@.len() as int) == out@);
            proof {
                outs = outs.push(out);
                assert(outs.drop_last() == before_outs);
                assert forall|k: int| 0 <= k < i + 1 implies #[trigger] map_called(map_fn, file_name@, ls[k], outs[k]) by {
                    if k < i {
                        assert(outs[k] == before_outs[k]);
                    }
                }
            }
        }
        let groups = group_pairs(&emitted);
        if n_reduce == 0 {
            assert(groups_view(emitted@) =~= Seq::<GroupView>::empty());
            assert(groups_view(groups@).len() == 0);
        }
        partition_groups(&groups, n_reduce)
    }

    /// Reduce task: decodes the partitions `contents` of a reduce task
    /// (`contents[m]` is the one that map task `m` filled), groups
    /// their values by key, applies `reduce_fn` to each key and its values,
    /// and returns one record line per key: the text to append to the
    /// output file.
    pub fn reduce<F: Fn(&str, &Vec<String>) -> String>(
        &self,
        contents: &Vec<String>,
        reduce_fn: F,
    ) -> (r: Result<String, TaskError>)
        requires
            contents.len() <= u32::MAX + 1,
            decode_partitions(strings_view(contents@)) matches Ok(pairs) ==> forall|
                i: int,
                a: &str,
                b: &Vec<String>,
            |
                0 <= i < group_all(pairs).len() && a@ == (#[trigger] group_all(pairs)[i]).0
                    && strings_view(b@) == group_all(pairs)[i].1 ==> #[trigger] call_requires(
                    reduce_fn,
                    (a, b),
                ),
        ensures
            match decode_partitions(strings_view(contents@)) {
                Ok(pairs) => r matches Ok(out) && reduce_output(reduce_fn, group_all(pairs), out@),
                Err(e) => r matches Err(x) && x@ == e,
            },
    {
        let groups = match collect_partitions(contents) {
            Ok(groups) => groups,
            Err(e) => {
                return Err(e);
            },
        };
        let ghost gv = groups_view(groups@);
        let mut out = String::new();
        let ghost mut finals: Seq<String> = Seq::empty();
        for i in 0..groups.len()
            invariant
                gv == groups_view(groups@),
                forall|j: int, a: &str, b: &Vec<String>|
                    0 <= j < gv.len() && a@ == (#[trigger] gv[j]).0 && strings_view(b@) == gv[j].1
                        ==> #[trigger] call_requires(reduce_fn, (a, b)),
                finals.len() == i,
                forall|k: int| 0 <= k < i ==> #[trigger] reduce_called(reduce_fn, gv[k].0, gv[k].1, finals[k]),
                out@ == records_text(reduced_records(gv.take(i as int), finals)),
        {
            let key: &str = groups[i].0.as_str();
            let values: &Vec<String> = &groups[i].1;
            assert(gv[i as int].0 == key@ && strings_view(values@) == gv[i as int].1);
            let fin = reduce_fn(key, values);
            assert(reduce_called(reduce_fn, gv[i as int].0, gv[i as int].1, fin));
            let line = format_record(key, fin.as_str());
            let ghost before = finals;
            out.append(line.as_str());
            proof {
                finals = finals.push(fin);
                assert forall|k: int| 0 <= k < i + 1 implies #[trigger] reduce_called(reduce_fn, gv[k].0, gv[k].1, finals[k]) by {
                    if k < i {
                        assert(finals[k] == before[k]);
                    }
                }
                let recs = reduced_records(gv.take(i + 1), finals);
                assert(recs.drop_last() =~= reduced_records(gv.take(i as int), before));
                assert(recs.last() == (gv[i as int].0, fin@));
            }
        }
        assert(gv.take(groups.len() as int) == gv);
        assert(finals_fit(reduce_fn, gv, out@, finals));
        Ok(out)
    }
}

} // verus!
