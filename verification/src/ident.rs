//! Random identifiers drawn from the base-58 alphabet.

use crate::text::{chars_of, string_of};
use rand::Rng;
use vstd::prelude::*;

verus! {

/// The base-58 alphabet: digits and letters without `0`, `O`, `I` and `l`.
pub open spec fn base58_alphabet() -> Seq<char> {
    "123456789ABCDEFGHJKLMNPQRSTUVWXYZabcdefghijkmnopqrstuvwxyz"@
}

/// Every character of `s` belongs to the base-58 alphabet.
pub open spec fn is_base58(s: Seq<char>) -> bool {
    forall|i: int| 0 <= i < s.len() ==> base58_alphabet().contains(#[trigger] s[i])
}

/// `rand::Rng::gen_range` on `rand::rngs::OsRng` with the range `0..bound`:
/// some index below `bound`, from the operating system's generator.
#[verifier::external_body]
fn random_below(bound: usize) -> (r: usize)
    requires
        bound > 0,
    ensures
        r < bound,
{
    rand::rngs::OsRng.gen_range(0..bound)
}

/// A fresh identifier of `count` random base-58 characters.
pub fn random_base58(count: usize) -> (id: String)
    ensures
        id@.len() == count,
        is_base58(id@),
{
    let alphabet = chars_of("123456789ABCDEFGHJKLMNPQRSTUVWXYZabcdefghijkmnopqrstuvwxyz");
    proof {
        reveal_strlit("123456789ABCDEFGHJKLMNPQRSTUVWXYZabcdefghijkmnopqrstuvwxyz");
    }
    let mut out: Vec<char> = Vec::new();
    let mut i: usize = 0;
    while i < count
        invariant
            i <= count,
            out@.len() == i,
            is_base58(out@),
            alphabet@ == base58_alphabet(),
            alphabet@.len() == 58,
        decreases count - i,
    {
        let pick = random_below(alphabet.len());
        out.push(alphabet[pick]);
        i = i + 1;
    }
    string_of(&out)
}

} // verus!
