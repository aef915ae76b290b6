//! Fresh identifiers for generated code: `a` to `z`, then the two-letter
//! names, then the three-letter ones, each letter group in the order of its
//! combinations with replacement.
use vstd::prelude::*;

use itertools::Itertools;

verus! {

/// The combinations, with replacement, of `k` letters of `pool`, in
/// lexicographic order of their positions in `pool`: those that start with
/// the first letter, then those made of the other letters only.
pub open spec fn letter_combinations(pool: Seq<char>, k: nat) -> Seq<Seq<char>>
    decreases k + pool.len(),
{
    if k == 0 {
        seq![Seq::empty()]
    } else if pool.len() == 0 {
        Seq::empty()
    } else {
        letter_combinations(pool, (k - 1) as nat).map_values(|c: Seq<char>| seq![pool[0]] + c)
            + letter_combinations(pool.drop_first(), k)
    }
}

/// A pool with at least one letter gives at least one combination.
pub proof fn lemma_some_combination(pool: Seq<char>, k: nat)
    requires
        pool.len() > 0,
    ensures
        letter_combinations(pool, k).len() > 0,
    decreases k,
{
    if k > 0 {
        lemma_some_combination(pool, (k - 1) as nat);
    }
}

/// The letters names are made of.
pub open spec fn alphabet() -> Seq<char> {
    seq![
        'a', 'b', 'c', 'd', 'e', 'f', 'g', 'h', 'i', 'j', 'k', 'l', 'm',
        'n', 'o', 'p', 'q', 'r', 's', 't', 'u', 'v', 'w', 'x', 'y', 'z',
    ]
}

/// All names of one to `k` letters, shortest first.
pub open spec fn names_upto(k: nat) -> Seq<Seq<char>>
    decreases k,
{
    if k == 0 {
        Seq::empty()
    } else {
        names_upto((k - 1) as nat) + letter_combinations(alphabet(), k)
    }
}

/// Relies on `Itertools::combinations_with_replacement`: every choice of `k`
/// positions of `pool`, repeats allowed, in non-decreasing order, listed
/// lexicographically; each combination holds the items at those positions.
#[verifier::external_body]
fn combinations(pool: &Vec<char>, k: usize) -> (r: Vec<Vec<char>>)
    ensures
        r@.map_values(|v: Vec<char>| v@) == letter_combinations(pool@, k as nat),
{
    pool.iter().copied().combinations_with_replacement(k).collect()
}

/// Relies on `Itertools::join` with an empty separator: the letters, in order.
#[verifier::external_body]
fn join_letters(letters: &Vec<char>) -> (r: String)
    ensures
        r@ == letters@,
{
    letters.iter().join("")
}

/// The first `count` names: every name of one letter, then of two, and so on.
pub fn name_generator(count: usize) -> (r: Vec<String>)
    ensures
        r@.len() == count,
        exists|k: nat|
            names_upto(k).len() >= count && #[trigger] names_upto(k).take(count as int) == r@.map_values(
                |s: String| s@,
            ),
{
    let pool: Vec<char> = vec![
        'a', 'b', 'c', 'd', 'e', 'f', 'g', 'h', 'i', 'j', 'k', 'l', 'm',
        'n', 'o', 'p', 'q', 'r', 's', 't', 'u', 'v', 'w', 'x', 'y', 'z',
    ];
    assert(pool@ =~= alphabet());
    let mut r: Vec<String> = Vec::new();
    let mut k: usize = 0;
    assert(r@.map_values(|s: String| s@) =~= names_upto(0));
    while r.len() < count
        invariant
            pool@ == alphabet(),
            k <= r@.len(),
            r@.len() <= count,
            names_upto(k as nat).len() == r@.len(),
            r@.map_values(|s: String| s@) == names_upto(k as nat),
        decreases count - r@.len(),
    {
        k = k + 1;
        let group = combinations(&pool, k);
        proof {
            lemma_some_combination(alphabet(), k as nat);
            assert(group@.map_values(|v: Vec<char>| v@).len() == group@.len());
        }
        let ghost block = letter_combinations(alphabet(), k as nat);
        let ghost before = r@.map_values(|s: String| s@);
        let mut j: usize = 0;
        while j < group.len() && r.len() < count
            invariant
                block == group@.map_values(|v: Vec<char>| v@),
                j <= group@.len(),
                r@.len() <= count,
                r@.len() == before.len() + j,
                r@.map_values(|s: String| s@) == before + block.take(j as int),
            decreases group@.len() - j,
        {
            let name = join_letters(&group[j]);
            let ghost r0 = r@;
            r.push(name);
            assert(r@.map_values(|s: String| s@) =~= r0.map_values(|s: String| s@).push(group@[j as int]@));
            assert(block.take(j + 1) =~= block.take(j as int).push(group@[j as int]@));
            assert(r@.map_values(|s: String| s@) =~= before + block.take(j + 1));
            j = j + 1;
        }
        if j == group.len() {
            assert(block.take(j as int) =~= block);
            assert(r@.len() >= before.len() + 1);
        } else {
            assert(r@.len() == count);
            assert(names_upto(k as nat).take(count as int) =~= r@.map_values(|s: String| s@));
            return r;
        }
    }
    assert(names_upto(k as nat).take(count as int) =~= r@.map_values(|s: String| s@));
    r
}

} // verus!
