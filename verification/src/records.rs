//! The framing of intermediate records: one `key;value` line per record.
use vstd::prelude::*;
use vstd::string::*;
use crate::text::{lines, lines_scan, strip_cr, push_char};

verus! {

/// The character that separates a record's key from its value.
pub const DELIMITOR: &'static str = ";";

/// `{key};{value}` followed by a line feed.
pub open spec fn record_line(key: Seq<char>, value: Seq<char>) -> Seq<char> {
    key.push(';') + value.push('\n')
}

/// The text of several records, one line each, in order.
pub open spec fn records_text(records: Seq<(Seq<char>, Seq<char>)>) -> Seq<char>
    decreases records.len(),
{
    if records.len() == 0 {
        seq![]
    } else {
        records_text(records.drop_last()) + record_line(records.last().0, records.last().1)
    }
}

/// Renders one record line.
pub fn format_record(key: &str, value: &str) -> (line: String)
    ensures
        line@ == record_line(key@, value@),
{
    let mut line = String::from_str(key);
    line.append(DELIMITOR);
    proof {
        reveal_strlit(";");
    }
    line.append(value);
    push_char(&mut line, '\n');
    assert(line@ =~= record_line(key@, value@));
    line
}

/// The position of the first `c` in `s`, if any.
pub open spec fn first_index_of(s: Seq<char>, c: char) -> Option<nat>
    decreases s.len(),
{
    if s.len() == 0 {
        None
    } else {
        match first_index_of(s.drop_last(), c) {
            Some(i) => Some(i),
            None => if s.last() == c {
                Some((s.len() - 1) as nat)
            } else {
                None
            },
        }
    }
}

/// `line.split_once(';')`: the text before the first `;` and the text after it.
pub open spec fn split_record_spec(line: Seq<char>) -> Option<(Seq<char>, Seq<char>)> {
    match first_index_of(line, ';') {
        Some(i) => Some((line.take(i as int), line.skip(i as int + 1))),
        None => None,
    }
}

proof fn lemma_first_index_bound(s: Seq<char>, c: char)
    ensures
        first_index_of(s, c) matches Some(i) ==> i < s.len() && s[i as int] == c,
    decreases s.len(),
{
    if s.len() > 0 {
        lemma_first_index_bound(s.drop_last(), c);
    }
}

proof fn lemma_first_index_none(s: Seq<char>, c: char)
    ensures
        first_index_of(s, c) is None <==> forall|i: int| 0 <= i < s.len() ==> s[i] != c,
    decreases s.len(),
{
    if s.len() > 0 {
        lemma_first_index_none(s.drop_last(), c);
        if first_index_of(s, c) is None {
            assert forall|i: int| 0 <= i < s.len() implies s[i] != c by {
                if i < s.len() - 1 {
                    assert(s[i] == s.drop_last()[i]);
                }
            }
        }
    }
}

proof fn lemma_first_index_of_append(s: Seq<char>, t: Seq<char>, c: char)
    requires
        forall|i: int| 0 <= i < s.len() ==> s[i] != c,
        t.len() > 0,
        t[0] == c,
    ensures
        first_index_of(s + t, c) == Some(s.len()),
    decreases t.len(),
{
    lemma_first_index_none(s, c);
    if t.len() == 1 {
        assert((s + t).drop_last() =~= s);
    } else {
        lemma_first_index_of_append(s, t.drop_last(), c);
        assert((s + t).drop_last() =~= s + t.drop_last());
    }
}

/// Splits a record line at its first `;`.
pub fn split_record(line: &str) -> (r: Option<(String, String)>)
    ensures
        r matches Some(kv) ==> split_record_spec(line@) == Some((kv.0@, kv.1@)),
        r is None <==> split_record_spec(line@) is None,
{
    let mut key = String::new();
    let mut value = String::new();
    let mut found = false;
    for c in it: line.chars()
        invariant
            it.seq() == line@,
            found <==> first_index_of(line@.take(it.index() as int), ';') is Some,
            !found ==> key@ == line@.take(it.index() as int) && value@.len() == 0,
            found ==> ({
                let i = first_index_of(line@.take(it.index() as int), ';')->0;
                &&& key@ == line@.take(i as int)
                &&& value@ == line@.subrange(i as int + 1, it.index() as int)
            }),
    {
        let ghost n = it.index();
        assert(line@.take(n + 1).drop_last() == line@.take(n as int));
        assert(line@.take(n + 1).last() == c);
        proof {
            lemma_first_index_bound(line@.take(n as int), ';');
        }
        if found {
            push_char(&mut value, c);
            let ghost i = first_index_of(line@.take(n as int), ';')->0;
            assert(value@ =~= line@.subrange(i as int + 1, n + 1));
        } else if c == ';' {
            found = true;
            assert(value@ =~= line@.subrange(n + 1, n + 1));
        } else {
            push_char(&mut key, c);
            assert(key@ =~= line@.take(n + 1));
        }
    }
    assert(line@.take(line@.len() as int) == line@);
    if found {
        assert(value@ =~= line@.skip(first_index_of(line@, ';')->0 as int + 1));
        Some((key, value))
    } else {
        None
    }
}

/// A record line without its line feed splits back into its key and value,
/// when the key holds no `;`.
pub proof fn lemma_split_record_line(key: Seq<char>, value: Seq<char>)
    requires
        forall|i: int| 0 <= i < key.len() ==> key[i] != ';',
    ensures
        split_record_spec(key.push(';') + value) == Some((key, value)),
{
    let s = key.push(';') + value;
    assert(s =~= key + seq![';'].add(value));
    lemma_first_index_of_append(key, seq![';'].add(value), ';');
    assert(s.take(key.len() as int) =~= key);
    assert(s.skip(key.len() as int + 1) =~= value);
}

/// A text without line feeds is read as one unfinished line.
proof fn lemma_lines_scan_no_newline(s: Seq<char>)
    requires
        forall|i: int| 0 <= i < s.len() ==> s[i] != '\n',
    ensures
        lines_scan(s) == (Seq::<Seq<char>>::empty(), s),
    decreases s.len(),
{
    if s.len() > 0 {
        lemma_lines_scan_no_newline(s.drop_last());
        assert(s.drop_last().push(s.last()) =~= s);
    }
}

/// Reading `p + r` after `p` has ended a line continues as reading `r`.
proof fn lemma_lines_scan_append(p: Seq<char>, r: Seq<char>)
    requires
        lines_scan(p).1.len() == 0,
    ensures
        lines_scan(p + r) == (lines_scan(p).0 + lines_scan(r).0, lines_scan(r).1),
    decreases r.len(),
{
    if r.len() == 0 {
        assert(p + r =~= p);
        assert(lines_scan(p).0 + Seq::<Seq<char>>::empty() =~= lines_scan(p).0);
    } else {
        lemma_lines_scan_append(p, r.drop_last());
        assert((p + r).drop_last() =~= p + r.drop_last());
        assert((p + r).last() == r.last());
        let prev = lines_scan(r.drop_last());
        assert(lines_scan(p).0 + prev.0.push(strip_cr(prev.1)) =~= (lines_scan(p).0 + prev.0).push(strip_cr(prev.1)));
    }
}

pub open spec fn no_line_feed(s: Seq<char>) -> bool {
    forall|i: int| 0 <= i < s.len() ==> s[i] != '\n'
}

/// Whether a record survives being written as a line and read back: neither
/// part holds a line feed, and the value does not end with a carriage return.
pub open spec fn record_fits_line(key: Seq<char>, value: Seq<char>) -> bool {
    &&& no_line_feed(key)
    &&& no_line_feed(value)
    &&& !(value.len() > 0 && value.last() == '\r')
}

/// The lines of a text of records are the records without their line feeds.
pub proof fn lemma_lines_of_records(records: Seq<(Seq<char>, Seq<char>)>)
    requires
        forall|j: int|
            0 <= j < records.len() ==> record_fits_line(#[trigger] records[j].0, records[j].1),
    ensures
        lines(records_text(records)) == records.map_values(
            |r: (Seq<char>, Seq<char>)| r.0.push(';') + r.1,
        ),
        lines_scan(records_text(records)).1.len() == 0,
    decreases records.len(),
{
    let f = |r: (Seq<char>, Seq<char>)| r.0.push(';') + r.1;
    if records.len() == 0 {
        assert(records_text(records) =~= Seq::<char>::empty());
        assert(records.map_values(f) =~= Seq::<Seq<char>>::empty());
    } else {
        let init = records.drop_last();
        assert forall|j: int| 0 <= j < init.len() implies record_fits_line(
            #[trigger] init[j].0,
            init[j].1,
        ) by {
            assert(init[j] == records[j]);
        }
        lemma_lines_of_records(init);
        let (k, v) = records.last();
        assert(record_fits_line(records[records.len() - 1].0, records[records.len() - 1].1));
        let body = k.push(';') + v;
        assert forall|i: int| 0 <= i < body.len() implies body[i] != '\n' by {
            if i < k.len() {
                assert(body[i] == k[i]);
            } else if i > k.len() {
                assert(body[i] == v[i - k.len() - 1]);
            }
        }
        lemma_lines_scan_no_newline(body);
        let line = record_line(k, v);
        assert(line =~= body.push('\n'));
        assert(line.drop_last() =~= body);
        assert(strip_cr(body) == body) by {
            if v.len() == 0 {
                assert(body.last() == ';');
            } else {
                assert(body.last() == v.last());
            }
        }
        assert(lines_scan(line) == (seq![body], Seq::<char>::empty()));
        lemma_lines_scan_append(records_text(init), line);
        assert(records.map_values(f) =~= init.map_values(f).push(body));
        assert(lines_scan(records_text(init)).0 == lines(records_text(init)));
        assert(lines(records_text(init)).push(body) =~= lines(records_text(init)) + seq![body]);
    }
}

} // verus!
