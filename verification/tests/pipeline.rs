use mapreduce::flat_names;
use mapreduce::grouping::group_pairs;
use mapreduce::master::split_input;
use mapreduce::records::split_record;
use mapreduce::text::{decimal_string, is_whitespace, parse_u32, split_lines, split_words};
use mapreduce::wordcount::count_total;
use mapreduce::worker::{collect_partitions, partition_groups};
use mapreduce::{
    format_record, generate_hash, get_map_split_file, get_reduce_split_file, wc_map_fn,
    wc_reduce_fn, Action, Master, Phase, Scheduler, TaskError, TaskWorker, WorkerTask, DELIMITOR,
};
use std::collections::hash_map::DefaultHasher;
use std::hash::{Hash, Hasher};

fn s(x: &str) -> String {
    x.to_string()
}

#[test]
fn map_split_file_names() {
    assert_eq!(get_map_split_file(0), "map_files/Mfile_0");
    assert_eq!(get_map_split_file(4294967295), "map_files/Mfile_4294967295");
    assert_eq!(flat_names::get_map_split_file(17), "Mfile_17");
}

#[test]
fn reduce_split_file_names() {
    assert_eq!(get_reduce_split_file(3, 12), "reduce_files/Rfile:m3-r12");
    assert_eq!(flat_names::get_reduce_split_file(0, 4), "Rfile:m0-r4");
}

#[test]
fn reduce_split_file_names_are_distinct() {
    assert_ne!(get_reduce_split_file(1, 23), get_reduce_split_file(12, 3));
    assert_ne!(get_map_split_file(1), get_reduce_split_file(1, 0));
    assert_ne!(flat_names::get_reduce_split_file(11, 1), flat_names::get_reduce_split_file(1, 11));
}

#[test]
fn words_split_on_unicode_whitespace() {
    assert_eq!(split_words("  hello \t world\nhello  "), vec![s("hello"), s("world"), s("hello")]);
    assert_eq!(split_words("a\u{3000}b\u{a0}c\u{2009}d"), vec![s("a"), s("b"), s("c"), s("d")]);
    assert_eq!(split_words("   "), Vec::<String>::new());
    assert_eq!(split_words(""), Vec::<String>::new());
    for c in ['\u{85}', '\u{1680}', '\u{2028}', '\u{205f}', '\u{0b}', 'x', '\u{200b}'] {
        assert_eq!(is_whitespace(c), c.is_whitespace());
    }
}

#[test]
fn words_match_split_whitespace() {
    let text = " one two\r\n three\u{2003}four\tfour ";
    let expected: Vec<String> = text.split_whitespace().map(|w| w.to_string()).collect();
    assert_eq!(split_words(text), expected);
}

#[test]
fn lines_match_str_lines() {
    for text in ["a\r\nb\n\nc\r", "", "\n", "x", "x\n", "x\r\n\r\ny", "\r\r\n"] {
        let expected: Vec<String> = text.lines().map(|l| l.to_string()).collect();
        assert_eq!(split_lines(text), expected, "{:?}", text);
    }
    assert_eq!(split_lines("a\r\nb\n\nc\r"), vec![s("a"), s("b"), s(""), s("c\r")]);
}

#[test]
fn decimal_rendering() {
    assert_eq!(decimal_string(0), "0");
    assert_eq!(decimal_string(10), "10");
    assert_eq!(decimal_string(18446744073709551615), "18446744073709551615");
}

#[test]
fn parsing_unsigned_numbers() {
    assert_eq!(parse_u32("42"), Some(42));
    assert_eq!(parse_u32("+42"), Some(42));
    assert_eq!(parse_u32("007"), Some(7));
    assert_eq!(parse_u32("4294967295"), Some(4294967295));
    assert_eq!(parse_u32("4294967296"), None);
    assert_eq!(parse_u32("99999999999999999999"), None);
    assert_eq!(parse_u32("-1"), None);
    assert_eq!(parse_u32("+"), None);
    assert_eq!(parse_u32(""), None);
    assert_eq!(parse_u32(" 1"), None);
    assert_eq!(parse_u32("1a"), None);
    for text in ["12", "+0", "-0", "++1", "4294967295", "4294967296", ""] {
        assert_eq!(parse_u32(text), text.parse::<u32>().ok(), "{:?}", text);
    }
}

#[test]
fn decimal_parses_back() {
    for n in [0u32, 1, 9, 10, 65535, 4294967295] {
        assert_eq!(parse_u32(&decimal_string(n as u64)), Some(n));
    }
}

#[test]
fn record_lines() {
    assert_eq!(format_record("key", "[\"1\"]"), "key;[\"1\"]\n");
    assert_eq!(format_record("", ""), ";\n");
}

#[test]
fn record_splitting() {
    assert_eq!(split_record("a;b;c"), Some((s("a"), s("b;c"))));
    assert_eq!(split_record(";x"), Some((s(""), s("x"))));
    assert_eq!(split_record("a;"), Some((s("a"), s(""))));
    assert_eq!(split_record("abc"), None);
    assert_eq!(split_record(""), None);
}

#[test]
fn record_round_trip() {
    let line = format_record("word", "[\"3\",\"4\"]");
    let lines = split_lines(&line);
    assert_eq!(lines.len(), 1);
    assert_eq!(split_record(&lines[0]), Some((s("word"), s("[\"3\",\"4\"]"))));
}

#[test]
fn grouping_keeps_first_appearance_and_value_order() {
    let pairs = vec![
        (s("b"), vec![s("1")]),
        (s("a"), vec![s("2")]),
        (s("b"), vec![s("3"), s("4")]),
        (s("c"), vec![]),
        (s("a"), vec![s("5")]),
    ];
    let groups = group_pairs(&pairs);
    assert_eq!(
        groups,
        vec![
            (s("b"), vec![s("1"), s("3"), s("4")]),
            (s("a"), vec![s("2"), s("5")]),
            (s("c"), vec![]),
        ]
    );
}

fn std_hash(key: &str) -> u64 {
    let mut hasher = DefaultHasher::new();
    key.hash(&mut hasher);
    hasher.finish()
}

#[test]
fn hash_partitions() {
    for key in ["", "hello", "world", "a;b"] {
        for n in [1u32, 2, 5, 7] {
            let h = generate_hash(key, n);
            assert!(h < n as u64);
            assert_eq!(h, std_hash(key) % n as u64);
        }
    }
    assert_eq!(generate_hash("anything", 1), 0);
}

#[test]
fn word_count_map() {
    let out = wc_map_fn("input", "the cat saw the  other cat\tthe");
    assert_eq!(out, vec![(s("the"), s("3")), (s("cat"), s("2")), (s("saw"), s("1")), (s("other"), s("1"))]);
    assert_eq!(wc_map_fn("input", "  "), Vec::<(String, String)>::new());
}

#[test]
fn word_count_reduce() {
    assert_eq!(wc_reduce_fn("k", &vec![s("1"), s("2"), s("+3")]), "6");
    assert_eq!(wc_reduce_fn("k", &vec![]), "0");
    assert_eq!(wc_reduce_fn("k", &vec![s("4294967294"), s("1")]), "4294967295");
}

#[test]
fn count_totals() {
    assert_eq!(count_total(&vec![s("2"), s("5")]), Some(7));
    assert_eq!(count_total(&vec![s("2"), s("x")]), None);
    assert_eq!(count_total(&vec![s("4294967295"), s("1")]), None);
    assert_eq!(count_total(&vec![]), Some(0));
}

#[test]
fn partitions_hold_json_records() {
    let groups = vec![(s("a"), vec![s("2")]), (s("b"), vec![s("1"), s("1")]), (s("q\""), vec![s("x\ny")])];
    let parts = partition_groups(&groups, 1);
    assert_eq!(parts, vec![s("a;[\"2\"]\nb;[\"1\",\"1\"]\nq\";[\"x\\ny\"]\n")]);
    let parts = partition_groups(&groups, 3);
    assert_eq!(parts.len(), 3);
    for (k, v) in &groups {
        let p = generate_hash(k, 3) as usize;
        let line = format_record(k, &serde_json::to_string(v).unwrap());
        assert!(parts[p].contains(&line));
        for (q, part) in parts.iter().enumerate() {
            if q != p {
                assert!(!part.contains(&line));
            }
        }
    }
    assert_eq!(partition_groups(&vec![], 0), Vec::<String>::new());
    assert_eq!(partition_groups(&vec![], 2), vec![s(""), s("")]);
}

#[test]
fn map_task_with_word_count() {
    let worker = TaskWorker {};
    let parts = worker.map("map_files/Mfile_0", "a b a\nb", wc_map_fn, 1);
    assert_eq!(parts, vec![s("a;[\"2\"]\nb;[\"1\",\"1\"]\n")]);
    let empty = worker.map("map_files/Mfile_1", "", wc_map_fn, 3);
    assert_eq!(empty, vec![s(""), s(""), s("")]);
}

#[test]
fn reduce_task_with_word_count() {
    let worker = TaskWorker {};
    let contents = vec![s("a;[\"2\"]\nb;[\"1\",\"1\"]\n"), s(""), s("b;[\"5\"]\nc;[\"1\"]\n")];
    let out = worker.reduce(&contents, wc_reduce_fn).unwrap();
    assert_eq!(out, "a;2\nb;7\nc;1\n");
}

#[test]
fn map_then_reduce_counts_words() {
    let worker = TaskWorker {};
    let inputs = ["the quick fox", "the lazy dog and the fox", "dog"];
    let n_reduce = 3u32;
    let maps: Vec<Vec<String>> = inputs
        .iter()
        .enumerate()
        .map(|(i, text)| worker.map(&get_map_split_file(i as u32), text, wc_map_fn, n_reduce))
        .collect();
    let mut totals: Vec<(String, String)> = Vec::new();
    for r in 0..n_reduce as usize {
        let contents: Vec<String> = maps.iter().map(|parts| parts[r].clone()).collect();
        let out = worker.reduce(&contents, wc_reduce_fn).unwrap();
        for line in split_lines(&out) {
            totals.push(split_record(&line).unwrap());
        }
    }
    totals.sort();
    assert_eq!(
        totals,
        vec![
            (s("and"), s("1")),
            (s("dog"), s("2")),
            (s("fox"), s("2")),
            (s("lazy"), s("1")),
            (s("quick"), s("1")),
            (s("the"), s("3")),
        ]
    );
}

/// What `serde_json` reports for a text that is no JSON list of strings.
fn json_error(text: &str) -> String {
    serde_json::from_str::<Vec<String>>(text).unwrap_err().to_string()
}

#[test]
fn decode_errors_carry_the_json_message() {
    let worker = TaskWorker {};
    let contents = vec![s("a;[\"1\"]\n"), s("b;[\"1\",\n")];
    match worker.reduce(&contents, wc_reduce_fn) {
        Err(TaskError::Decode { map_num, message }) => {
            assert_eq!(map_num, 1);
            assert_eq!(message, json_error("[\"1\","));
            assert!(message.contains("line 1"));
        }
        other => panic!("expected a decode error, got {:?}", other),
    }
    assert_eq!(json_error("[1]"), "invalid type: integer `1`, expected a string at line 1 column 2");
}

#[test]
fn reduce_errors() {
    let worker = TaskWorker {};
    let bad_delim = vec![s("a;[\"1\"]\n"), s("no delimiter here\n")];
    assert_eq!(worker.reduce(&bad_delim, wc_reduce_fn), Err(TaskError::InvalidIntermediate { map_num: 1 }));
    let bad_json = vec![s("a;not json\n")];
    assert_eq!(
        collect_partitions(&bad_json),
        Err(TaskError::Decode { map_num: 0, message: json_error("not json") })
    );
    let first_error_wins = vec![s("x;[1]\ny\n")];
    assert_eq!(
        collect_partitions(&first_error_wins),
        Err(TaskError::Decode { map_num: 0, message: json_error("[1]") })
    );
}

#[test]
fn collecting_partitions_groups_values() {
    let contents = vec![s("k;[\"a\"]\n"), s("j;[]\nk;[\"b\",\"c\"]\n")];
    assert_eq!(
        collect_partitions(&contents).unwrap(),
        vec![(s("k"), vec![s("a"), s("b"), s("c")]), (s("j"), vec![])]
    );
}

#[test]
fn input_splits_by_line() {
    let splits = split_input("first line\r\nsecond\n\nlast");
    assert_eq!(
        splits,
        vec![
            (s("map_files/Mfile_0"), s("first line")),
            (s("map_files/Mfile_1"), s("second")),
            (s("map_files/Mfile_2"), s("")),
            (s("map_files/Mfile_3"), s("last")),
        ]
    );
}

#[test]
fn scheduler_runs_maps_then_reduces() {
    let master = Master::new(2);
    let mut sched: Scheduler = master.schedule(3, 1);
    assert_eq!(sched.next_action(), Action::Run { worker: 0, task: WorkerTask::MapTask(0, 1) });
    assert_eq!(sched.next_action(), Action::Run { worker: 1, task: WorkerTask::MapTask(1, 1) });
    assert_eq!(sched.next_action(), Action::Wait);
    sched.task_finished(1, true);
    assert_eq!(sched.next_action(), Action::Run { worker: 1, task: WorkerTask::MapTask(2, 1) });
    assert_eq!(sched.next_action(), Action::Wait);
    sched.task_finished(0, true);
    // worker 0 is idle but map task 2 still runs: no reduce task yet
    assert_eq!(sched.next_action(), Action::Wait);
    assert_eq!(sched.phase(), Phase::Mapping);
    sched.task_finished(1, true);
    assert_eq!(sched.next_action(), Action::Run { worker: 0, task: WorkerTask::ReduceTask(0, 3) });
    assert_eq!(sched.phase(), Phase::Reducing);
    assert!(sched.is_running(0));
    assert!(!sched.is_running(1));
    assert!(!sched.is_running(7));
    assert_eq!(sched.next_action(), Action::Wait);
    sched.task_finished(0, true);
    assert_eq!(sched.next_action(), Action::Done);
    assert_eq!(sched.next_action(), Action::Done);
    assert_eq!(sched.phase(), Phase::Finished);
}

#[test]
fn scheduler_aborts_on_failure() {
    let mut sched = Scheduler::new(1, 2, 2);
    assert_eq!(sched.next_action(), Action::Run { worker: 0, task: WorkerTask::MapTask(0, 2) });
    sched.task_finished(0, false);
    assert_eq!(sched.next_action(), Action::Abort);
    assert_eq!(sched.phase(), Phase::Failed);
}

#[test]
fn scheduler_with_no_tasks_is_done() {
    let mut sched = Scheduler::new(3, 0, 0);
    assert_eq!(sched.next_action(), Action::Done);
}

#[test]
fn scheduler_with_no_reduce_tasks() {
    let mut sched = Scheduler::new(1, 1, 0);
    assert_eq!(sched.next_action(), Action::Run { worker: 0, task: WorkerTask::MapTask(0, 0) });
    sched.task_finished(0, true);
    assert_eq!(sched.next_action(), Action::Done);
}

#[test]
fn scheduler_hands_every_task_once() {
    let mut sched = Scheduler::new(3, 5, 4);
    let mut handed = Vec::new();
    let mut running: Vec<usize> = Vec::new();
    loop {
        match sched.next_action() {
            Action::Run { worker, task } => {
                assert!(!running.contains(&worker));
                running.push(worker);
                handed.push(task);
            }
            Action::Wait => {
                let w = running.remove(0);
                sched.task_finished(w, true);
            }
            Action::Done => break,
            Action::Abort => panic!("no task failed"),
        }
    }
    let mut expected: Vec<WorkerTask> = (0..5).map(|i| WorkerTask::MapTask(i, 4)).collect();
    expected.extend((0..4).map(|i| WorkerTask::ReduceTask(i, 5)));
    assert_eq!(handed, expected);
}

#[test]
fn records_are_delimited_by_semicolons() {
    assert_eq!(DELIMITOR, ";");
    assert_eq!(format_record("k", "v"), format!("k{}v\n", DELIMITOR));
}

#[test]
fn map_task_without_partitions() {
    let worker = TaskWorker {};
    assert_eq!(worker.map("map_files/Mfile_0", "", wc_map_fn, 0), Vec::<String>::new());
    assert_eq!(worker.map("map_files/Mfile_0", " \n\t\n", wc_map_fn, 0), Vec::<String>::new());
}

#[test]
fn reduce_counts_totals_each_word() {
    let worker = TaskWorker {};
    let contents = vec![s("a;[\"2\"]\nb;[\"1\",\"1\"]\n")];
    assert_eq!(worker.reduce_counts(&contents), Ok(Some(s("a;2\nb;2\n"))));
    let merged = vec![s("a;[\"2\"]\n"), s(""), s("b;[\"5\"]\na;[\"1\"]\n")];
    assert_eq!(worker.reduce_counts(&merged), Ok(Some(s("a;3\nb;5\n"))));
    assert_eq!(worker.reduce_counts(&vec![]), Ok(Some(s(""))));
}

#[test]
fn reduce_counts_refuses_what_is_no_count() {
    let worker = TaskWorker {};
    assert_eq!(worker.reduce_counts(&vec![s("a;[\"x\"]\n")]), Ok(None));
    assert_eq!(worker.reduce_counts(&vec![s("a;[\"4294967295\",\"1\"]\n")]), Ok(None));
    assert_eq!(
        worker.reduce_counts(&vec![s("a;[\"1\"]\n"), s("oops\n")]),
        Err(TaskError::InvalidIntermediate { map_num: 1 })
    );
    assert_eq!(
        worker.reduce_counts(&vec![s("a;[1]\n")]),
        Err(TaskError::Decode { map_num: 0, message: json_error("[1]") })
    );
}

fn count_of(pairs: &[(String, String)], w: &str) -> u32 {
    pairs
        .iter()
        .rev()
        .find(|(k, _)| k == w)
        .map(|(_, v)| v.parse::<u32>().unwrap())
        .unwrap_or(0)
}

#[test]
fn word_counts_add_over_joined_texts() {
    let a = "the fox and the dog";
    let b = "fox\tthe end";
    let joined = format!("{} {}", a, b);
    let ca = wc_map_fn("f", a);
    let cb = wc_map_fn("f", b);
    let cj = wc_map_fn("f", &joined);
    for w in ["the", "fox", "and", "dog", "end", "cat"] {
        assert_eq!(count_of(&cj, w), count_of(&ca, w) + count_of(&cb, w));
    }
    assert_eq!(count_of(&cj, "the"), 3);
}

#[test]
fn reduce_ignores_the_order_of_counts() {
    let values = vec![s("1"), s("20"), s("300")];
    let shuffled = vec![s("300"), s("1"), s("20")];
    assert_eq!(wc_reduce_fn("x", &values), "321");
    assert_eq!(wc_reduce_fn("y", &shuffled), "321");
}

#[test]
fn map_then_reduce_counts_with_reduce_counts() {
    let worker = TaskWorker {};
    let inputs = ["a b a", "b c", "", "a"];
    let n_reduce = 2u32;
    let maps: Vec<Vec<String>> = inputs
        .iter()
        .enumerate()
        .map(|(i, text)| worker.map(&get_map_split_file(i as u32), text, wc_map_fn, n_reduce))
        .collect();
    let mut totals: Vec<(String, String)> = Vec::new();
    for r in 0..n_reduce as usize {
        let contents: Vec<String> = maps.iter().map(|parts| parts[r].clone()).collect();
        let out = worker.reduce_counts(&contents).unwrap().unwrap();
        for line in split_lines(&out) {
            let (k, v) = split_record(&line).unwrap();
            assert_eq!(generate_hash(&k, n_reduce) as usize, r);
            totals.push((k, v));
        }
    }
    totals.sort();
    assert_eq!(totals, vec![(s("a"), s("3")), (s("b"), s("2")), (s("c"), s("1"))]);
}

#[test]
fn scheduler_run_ends_after_every_task_is_handed_and_reported() {
    let (n_map, n_reduce) = (4u32, 3u32);
    let mut sched = Scheduler::new(1, n_map, n_reduce);
    let mut steps = 0;
    let mut running: Option<usize> = None;
    loop {
        match sched.next_action() {
            Action::Run { worker, .. } => {
                assert!(running.is_none());
                running = Some(worker);
                steps += 1;
            }
            Action::Wait => {
                let w = running.take().expect("waiting with nothing running");
                sched.task_finished(w, true);
                steps += 1;
            }
            Action::Done => break,
            Action::Abort => panic!("no task failed"),
        }
    }
    assert_eq!(steps, 2 * (n_map + n_reduce));
}
