//! The fixed table of small primes used for trial division and for the
//! safe-prime sieve.

use vstd::prelude::*;

verus! {

/// The small primes, in increasing order: every prime below 256.
pub open spec fn small_primes_seq() -> Seq<u64> {
    seq![
        2u64, 3, 5, 7, 11, 13, 17, 19, 23, 29, 31, 37, 41, 43, 47, 53, 59, 61, 67, 71, 73, 79, 83,
        89, 97, 101, 103, 107, 109, 113, 127, 131, 137, 139, 149, 151, 157, 163, 167, 173, 179,
        181, 191, 193, 197, 199, 211, 223, 227, 229, 233, 239, 241, 251,
    ]
}

/// The small-prime table as a vector, constructed fresh for each use
/// and never mutated: the first entry is two, the second three, and
/// every entry lies in `[2, 256)`.
pub fn small_primes() -> (v: Vec<u64>)
    ensures
        v@ == small_primes_seq(),
        forall|i: int| 0 <= i < v@.len() ==> 2 <= #[trigger] v@[i] < 256,
        v@[0] == 2,
        v@[1] == 3,
        v@.len() == 54,
{
    let v: Vec<u64> = vec![
        2, 3, 5, 7, 11, 13, 17, 19, 23, 29, 31, 37, 41, 43, 47, 53, 59, 61, 67, 71, 73, 79, 83, 89,
        97, 101, 103, 107, 109, 113, 127, 131, 137, 139, 149, 151, 157, 163, 167, 173, 179, 181,
        191, 193, 197, 199, 211, 223, 227, 229, 233, 239, 241, 251,
    ];
    proof {
        assert(v@ =~= small_primes_seq());
    }
    v
}

} // verus!
