//! Names of the files that hold map inputs and intermediate partitions,
//! kept in their own directories.
use vstd::prelude::*;
use vstd::string::*;
use crate::text::{decimal, push_decimal, all_digits, lemma_decimal_digits, lemma_decimal_injective};

verus! {

/// `map_files/Mfile_{map_num}`
pub open spec fn map_split_name(map_num: nat) -> Seq<char> {
    "map_files/Mfile_"@ + decimal(map_num)
}

/// `reduce_files/Rfile:m{map_num}-r{reduce_num}`
pub open spec fn reduce_split_name(map_num: nat, reduce_num: nat) -> Seq<char> {
    "reduce_files/Rfile:m"@ + decimal(map_num) + "-r"@ + decimal(reduce_num)
}

/// The file that holds the input of map task `map_num`.
pub fn get_map_split_file(map_num: u32) -> (name: String)
    ensures
        name@ == map_split_name(map_num as nat),
{
    let mut name = String::from_str("map_files/Mfile_");
    push_decimal(&mut name, map_num as u64);
    name
}

/// The file in which map task `map_num` leaves the part of its output that
/// reduce task `reduce_num` reads.
pub fn get_reduce_split_file(map_num: u32, reduce_num: u32) -> (name: String)
    ensures
        name@ == reduce_split_name(map_num as nat, reduce_num as nat),
{
    let mut name = String::from_str("reduce_files/Rfile:m");
    push_decimal(&mut name, map_num as u64);
    name.append("-r");
    push_decimal(&mut name, reduce_num as u64);
    assert(name@ =~= reduce_split_name(map_num as nat, reduce_num as nat));
    name
}

/// If `p + x == p + y` then `x == y`.
pub(crate) proof fn lemma_drop_common_prefix(p: Seq<char>, x: Seq<char>, y: Seq<char>)
    requires
        p + x == p + y,
    ensures
        x == y,
{
    assert((p + x).skip(p.len() as int) =~= x);
    assert((p + y).skip(p.len() as int) =~= y);
}

/// Two numbers joined by `-r` determine the numbers.
pub(crate) proof fn lemma_numbers_joined(a: nat, b: nat, c: nat, d: nat)
    requires
        decimal(a) + "-r"@ + decimal(b) == decimal(c) + "-r"@ + decimal(d),
    ensures
        a == c,
        b == d,
{
    reveal_strlit("-r");
    lemma_decimal_digits(a);
    lemma_decimal_digits(b);
    lemma_decimal_digits(c);
    lemma_decimal_digits(d);
    let (da, db, dc, dd) = (decimal(a), decimal(b), decimal(c), decimal(d));
    let s = da + "-r"@ + db;
    let t = dc + "-r"@ + dd;
    assert(s[da.len() as int] == '-');
    assert(t[dc.len() as int] == '-');
    if da.len() < dc.len() {
        assert(s[da.len() as int] == t[da.len() as int]);
        assert(t[da.len() as int] == dc[da.len() as int]);
        assert(all_digits(dc));
    } else if dc.len() < da.len() {
        assert(s[dc.len() as int] == t[dc.len() as int]);
        assert(s[dc.len() as int] == da[dc.len() as int]);
        assert(all_digits(da));
    }
    assert(da =~= s.take(da.len() as int));
    assert(dc =~= t.take(dc.len() as int));
    lemma_decimal_injective(a, c);
    assert(db =~= s.skip(da.len() as int + 2));
    assert(dd =~= t.skip(dc.len() as int + 2));
    lemma_decimal_injective(b, d);
}

/// Distinct map tasks read distinct input files.
pub proof fn lemma_map_split_names_distinct(a: nat, b: nat)
    ensures
        map_split_name(a) == map_split_name(b) ==> a == b,
{
    if map_split_name(a) == map_split_name(b) {
        lemma_drop_common_prefix("map_files/Mfile_"@, decimal(a), decimal(b));
        lemma_decimal_injective(a, b);
    }
}

/// Distinct (map task, reduce task) pairs use distinct intermediate files.
pub proof fn lemma_reduce_split_names_distinct(a: nat, b: nat, c: nat, d: nat)
    ensures
        reduce_split_name(a, b) == reduce_split_name(c, d) ==> a == c && b == d,
{
    if reduce_split_name(a, b) == reduce_split_name(c, d) {
        let p = "reduce_files/Rfile:m"@;
        assert(reduce_split_name(a, b) =~= p + (decimal(a) + "-r"@ + decimal(b)));
        assert(reduce_split_name(c, d) =~= p + (decimal(c) + "-r"@ + decimal(d)));
        lemma_drop_common_prefix(p, decimal(a) + "-r"@ + decimal(b), decimal(c) + "-r"@ + decimal(d));
        lemma_numbers_joined(a, b, c, d);
    }
}

/// No map input file is also an intermediate file.
pub proof fn lemma_map_and_reduce_names_differ(a: nat, b: nat, c: nat)
    ensures
        map_split_name(a) != reduce_split_name(b, c),
{
    reveal_strlit("map_files/Mfile_");
    reveal_strlit("reduce_files/Rfile:m");
    assert(map_split_name(a)[0] == 'm');
    assert(reduce_split_name(b, c)[0] == 'r');
}

} // verus!
