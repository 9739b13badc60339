//! Names of the map input and intermediate files, kept in the working
//! directory itself.
use vstd::prelude::*;
use vstd::string::*;
use crate::text::{decimal, push_decimal, lemma_decimal_injective};
use crate::names::{lemma_drop_common_prefix, lemma_numbers_joined};

verus! {

/// `Mfile_{map_num}`
pub open spec fn flat_map_split_name(map_num: nat) -> Seq<char> {
    "Mfile_"@ + decimal(map_num)
}

/// `Rfile:m{map_num}-r{reduce_num}`
pub open spec fn flat_reduce_split_name(map_num: nat, reduce_num: nat) -> Seq<char> {
    "Rfile:m"@ + decimal(map_num) + "-r"@ + decimal(reduce_num)
}

/// The file that holds the input of map task `map_num`.
pub fn get_map_split_file(map_num: u32) -> (name: String)
    ensures
        name@ == flat_map_split_name(map_num as nat),
{
    let mut name = String::from_str("Mfile_");
    push_decimal(&mut name, map_num as u64);
    name
}

/// The file in which map task `map_num` leaves the part of its output that
/// reduce task `reduce_num` reads.
pub fn get_reduce_split_file(map_num: u32, reduce_num: u32) -> (name: String)
    ensures
        name@ == flat_reduce_split_name(map_num as nat, reduce_num as nat),
{
    let mut name = String::from_str("Rfile:m");
    push_decimal(&mut name, map_num as u64);
    name.append("-r");
    push_decimal(&mut name, reduce_num as u64);
    assert(name@ =~= flat_reduce_split_name(map_num as nat, reduce_num as nat));
    name
}

/// Distinct map tasks read distinct input files.
pub proof fn lemma_flat_map_split_names_distinct(a: nat, b: nat)
    ensures
        flat_map_split_name(a) == flat_map_split_name(b) ==> a == b,
{
    if flat_map_split_name(a) == flat_map_split_name(b) {
        lemma_drop_common_prefix("Mfile_"@, decimal(a), decimal(b));
        lemma_decimal_injective(a, b);
    }
}

/// Distinct (map task, reduce task) pairs use distinct intermediate files.
pub proof fn lemma_flat_reduce_split_names_distinct(a: nat, b: nat, c: nat, d: nat)
    ensures
        flat_reduce_split_name(a, b) == flat_reduce_split_name(c, d) ==> a == c && b == d,
{
    if flat_reduce_split_name(a, b) == flat_reduce_split_name(c, d) {
        let p = "Rfile:m"@;
        assert(flat_reduce_split_name(a, b) =~= p + (decimal(a) + "-r"@ + decimal(b)));
        assert(flat_reduce_split_name(c, d) =~= p + (decimal(c) + "-r"@ + decimal(d)));
        lemma_drop_common_prefix(p, decimal(a) + "-r"@ + decimal(b), decimal(c) + "-r"@ + decimal(d));
        lemma_numbers_joined(a, b, c, d);
    }
}

/// No map input file is also an intermediate file.
pub proof fn lemma_flat_map_and_reduce_names_differ(a: nat, b: nat, c: nat)
    ensures
        flat_map_split_name(a) != flat_reduce_split_name(b, c),
{
    reveal_strlit("Mfile_");
    reveal_strlit("Rfile:m");
    assert(flat_map_split_name(a)[0] == 'M');
    assert(flat_reduce_split_name(b, c)[0] == 'R');
}

} // verus!
