//! Small general lemmas about sequences, shared by the store's proofs.

use vstd::prelude::*;

verus! {

/// Mapping a function over a sequence commutes with appending one element.
pub proof fn lemma_map_values_push<A, B>(s: Seq<A>, f: spec_fn(A) -> B, x: A)
    ensures
        s.push(x).map_values(f) =~= s.map_values(f).push(f(x)),
{
    assert forall|i: int| 0 <= i < s.len() + 1 implies s.push(x).map_values(f)[i] == s.map_values(
        f,
    ).push(f(x))[i] by {
        if i < s.len() {
            assert(s.push(x)[i] == s[i]);
        }
    }
}

/// One step of a suffix: skipping `i` elements starts at the element at `i`.
pub proof fn lemma_skip_step<A>(s: Seq<A>, i: int)
    requires
        0 <= i < s.len(),
    ensures
        s.skip(i).len() == s.len() - i,
        s.skip(i)[0] == s[i],
        s.skip(i).drop_first() =~= s.skip(i + 1),
{
}

} // verus!
