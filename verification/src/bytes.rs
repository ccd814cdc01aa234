//! Small helpers on byte strings.

use vstd::prelude::*;
use vstd::slice::slice_to_vec;
use vstd::string::StringSliceAdditionalSpecFns;

verus! {

/// `count` copies of `x`.
pub open spec fn repeated<T>(x: T, count: nat) -> Seq<T> {
    Seq::new(count, |i: int| x)
}

/// The chunks joined end to end, in order.
pub open spec fn joined(chunks: Seq<&[u8]>) -> Seq<u8>
    decreases chunks.len(),
{
    if chunks.len() == 0 {
        Seq::empty()
    } else {
        joined(chunks.drop_last()) + chunks.last()@
    }
}

/// Joining the chunks adds their lengths up.
pub open spec fn joined_len(chunks: Seq<&[u8]>) -> nat
    decreases chunks.len(),
{
    if chunks.len() == 0 {
        0
    } else {
        joined_len(chunks.drop_last()) + chunks.last()@.len()
    }
}

/// The length of the joined chunks is the sum of their lengths.
pub proof fn lemma_joined_len(chunks: Seq<&[u8]>)
    ensures
        joined(chunks).len() == joined_len(chunks),
    decreases chunks.len(),
{
    if chunks.len() > 0 {
        lemma_joined_len(chunks.drop_last());
    }
}

/// The bytes of a string: its UTF-8 encoding.
pub fn b(s: &str) -> (bytes: Vec<u8>)
    ensures
        bytes@ == s.spec_bytes(),
{
    slice_to_vec(s.as_bytes())
}

/// Joins the chunks end to end into one byte vector.
pub fn concat(chunks: &[&[u8]]) -> (result: Vec<u8>)
    ensures
        result@ == joined(chunks@),
{
    let mut result: Vec<u8> = Vec::new();
    let mut i: usize = 0;
    while i < chunks.len()
        invariant
            i <= chunks@.len(),
            result@ == joined(chunks@.subrange(0, i as int)),
        decreases chunks@.len() - i,
    {
        let chunk: &[u8] = chunks[i];
        let ghost before = result@;
        let mut j: usize = 0;
        while j < chunk.len()
            invariant
                j <= chunk@.len(),
                result@ == before + chunk@.subrange(0, j as int),
            decreases chunk@.len() - j,
        {
            result.push(chunk[j]);
            assert(chunk@.subrange(0, j + 1) =~= chunk@.subrange(0, j as int).push(
                chunk@[j as int],
            ));
            assert(result@ =~= before + chunk@.subrange(0, j + 1));
            j = j + 1;
        }
        proof {
            assert(chunk@.subrange(0, j as int) =~= chunk@);
            let upto = chunks@.subrange(0, i + 1);
            assert(upto.drop_last() =~= chunks@.subrange(0, i as int));
            assert(upto.last() == chunk);
        }
        i = i + 1;
    }
    assert(chunks@.subrange(0, i as int) =~= chunks@);
    result
}

} // verus!
