//! Levenshtein edit distance: the mathematical definition used by the
//! similarity predicate, and the trusted bridge to its implementation.

use vstd::math::max;
use vstd::math::min;
use vstd::prelude::*;

verus! {

/// The Levenshtein edit distance between `a` and `b`: the minimum number of
/// single-character insertions, deletions and substitutions that turn one
/// into the other.
pub open spec fn lev(a: Seq<char>, b: Seq<char>) -> nat
    decreases a.len() + b.len(),
{
    if a.len() == 0 {
        b.len()
    } else if b.len() == 0 {
        a.len()
    } else {
        let del = lev(a.drop_last(), b) + 1;
        let ins = lev(a, b.drop_last()) + 1;
        let subst = lev(a.drop_last(), b.drop_last()) + if a.last() == b.last() {
            0nat
        } else {
            1nat
        };
        min(min(del as int, ins as int), subst as int) as nat
    }
}

/// The distance from a sequence to itself is zero.
pub proof fn lemma_lev_self(a: Seq<char>)
    ensures
        lev(a, a) == 0,
    decreases a.len(),
{
    if a.len() > 0 {
        lemma_lev_self(a.drop_last());
    }
}

/// The distance never exceeds the longer length.
pub proof fn lemma_lev_le_max(a: Seq<char>, b: Seq<char>)
    ensures
        lev(a, b) <= max(a.len() as int, b.len() as int),
    decreases a.len() + b.len(),
{
    if a.len() > 0 && b.len() > 0 {
        lemma_lev_le_max(a.drop_last(), b.drop_last());
    }
}

/// Relies on strsim::levenshtein: the minimum number of single-character
/// insertions, deletions and substitutions, over the characters of the two
/// strings.
#[verifier::external_body]
pub(crate) fn lev_dist(a: &str, b: &str) -> (r: usize)
    ensures
        r as nat == lev(a@, b@),
{
    strsim::levenshtein(a, b)
}

} // verus!
