//! Recovers dispatch selectors and event-signature hashes from compiled
//! stack-machine bytecode: a push-aware instruction decoder, a linear
//! pattern-matching automaton over the instruction stream, and the two
//! heuristics built on them.
pub mod bytecode;
pub mod heuristic;
pub mod lex;
pub mod op_codes;

use vstd::array::array_index_get;
use vstd::prelude::*;

verus! {

/// The big-endian 32-bit value of a 4-byte sequence.
pub open spec fn be_u32(s: Seq<u8>) -> u32
    recommends
        s.len() == 4,
{
    (s[0] * 0x1000000 + s[1] * 0x10000 + s[2] * 0x100 + s[3]) as u32
}

/// The chosen idiom's selectors as big-endian 32-bit words.
pub open spec fn chosen_selector_words(code: Seq<u8>) -> Seq<u32> {
    crate::heuristic::chosen_selectors(code).map_values(|s: Seq<u8>| be_u32(s))
}

/// Get 4-byte dispatch selectors from the bytecode, each as its big-endian
/// 32-bit value, in match order of the winning idiom.
pub fn selectors_from_bytecode(input: &[u8]) -> (r: Vec<u32>)
    ensures
        r@ == chosen_selector_words(input@),
{
    let ghost chosen = crate::heuristic::chosen_selectors(input@);
    let sels = crate::heuristic::selectors_from_bytecode(input);
    let mut r: Vec<u32> = Vec::new();
    let mut i: usize = 0;
    proof {
        assert(sels.deep_view().len() == sels@.len());
    }
    while i < sels.len()
        invariant
            i <= sels@.len(),
            sels.deep_view() == chosen,
            chosen.len() == sels@.len(),
            r@.len() == i,
            forall|k: int| 0 <= k < i ==> r@[k] == be_u32(chosen[k]),
        decreases sels@.len() - i,
    {
        let a = sels[i];
        let b0 = *array_index_get(&a, 0);
        let b1 = *array_index_get(&a, 1);
        let b2 = *array_index_get(&a, 2);
        let b3 = *array_index_get(&a, 3);
        let w: u32 = (b0 as u32) * 0x1000000 + (b1 as u32) * 0x10000 + (b2 as u32) * 0x100 + (
        b3 as u32);
        proof {
            assert(a.deep_view() == chosen[i as int]);
            assert(a@ =~= a.deep_view());
            assert(w == be_u32(chosen[i as int]));
        }
        r.push(w);
        i = i + 1;
    }
    proof {
        assert(r@ =~= chosen_selector_words(input@));
    }
    r
}

} // verus!
