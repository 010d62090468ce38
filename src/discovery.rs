//! Locating the processed dictionary files: `data/processed/<name>` in the
//! working directory or in one of its four nearest parents.

use vstd::prelude::*;
use crate::text::{chars_of, string_of};

verus! {

/// How many directories are searched, the working directory included.
pub const SEARCH_DEPTH: usize = 5;

/// `k` steps up the directory tree.
pub open spec fn parents(k: nat) -> Seq<char>
    decreases k,
{
    if k == 0 {
        Seq::empty()
    } else {
        parents((k - 1) as nat) + "../"@
    }
}

/// The `k`-th place where `filename` is looked for.
pub open spec fn candidate_path(filename: Seq<char>, k: nat) -> Seq<char> {
    parents(k) + "data/processed/"@ + filename
}

fn append_str(v: &mut Vec<char>, s: &str)
    ensures
        final(v)@ == old(v)@ + s@,
{
    let c = chars_of(s);
    let ghost start = v@;
    let mut i: usize = 0;
    while i < c.len()
        invariant
            i <= c.len(),
            c@ == s@,
            v@ == start + c@.take(i as int),
        decreases c.len() - i,
    {
        v.push(c[i]);
        assert(c@.take(i + 1) =~= c@.take(i as int).push(c@[i as int]));
        i = i + 1;
    }
    assert(c@.take(c.len() as int) =~= c@);
}

/// The path of `filename` seen from `k` directories below its data folder.
pub fn candidate(filename: &str, k: usize) -> (r: String)
    ensures
        r@ == candidate_path(filename@, k as nat),
{
    let mut v: Vec<char> = Vec::new();
    let mut i: usize = 0;
    assert(v@ =~= parents(0));
    while i < k
        invariant
            i <= k,
            v@ == parents(i as nat),
        decreases k - i,
    {
        append_str(&mut v, "../");
        i = i + 1;
    }
    append_str(&mut v, "data/processed/");
    append_str(&mut v, filename);
    string_of(&v)
}

/// The first of the places that holds the file, nearest first:
/// `present[k]` tells whether place `k` holds it (see `candidate`). `None`
/// when none of the searched places does.
pub fn find_processed_file(filename: &str, present: &Vec<bool>) -> (r: Option<String>)
    ensures
        match r {
            Some(path) => exists|k: int|
                0 <= k < SEARCH_DEPTH && k < present@.len() && present@[k] && path@ == candidate_path(
                    filename@,
                    k as nat,
                ) && forall|j: int| 0 <= j < k ==> !#[trigger] present@[j],
            None => forall|k: int| 0 <= k < SEARCH_DEPTH && k < present@.len() ==> !#[trigger] present@[k],
        },
{
    let mut k: usize = 0;
    while k < SEARCH_DEPTH && k < present.len()
        invariant
            k <= SEARCH_DEPTH,
            k <= present.len(),
            forall|j: int| 0 <= j < k ==> !#[trigger] present@[j],
        decreases SEARCH_DEPTH - k,
    {
        if present[k] {
            let path = candidate(filename, k);
            assert(path@ == candidate_path(filename@, k as nat));
            return Some(path);
        }
        k = k + 1;
    }
    None
}

} // verus!
