//! Alignment of an embedding response with the batch it answers.
//!
//! The embedding endpoint answers a batch of texts with a list of items, each
//! carrying the position of the input it embeds. The batch is accepted only
//! when the items correspond one for one, in order, to the inputs; the vectors
//! are then handed on in input order. The vector type is a parameter.

use vstd::prelude::*;
use crate::error::PipelineError;
use crate::upload::reversed;

verus! {

/// The embedding model used for segments and questions.
pub const EMBEDDING_MODEL: &'static str = "text-embedding-ada-002";

/// The items answer `count` inputs one for one: there are `count` of them and
/// the item at position `i` carries index `i`.
pub open spec fn in_input_order<V>(count: nat, items: Seq<(u32, V)>) -> bool {
    &&& items.len() == count
    &&& forall|i: int| 0 <= i < items.len() ==> (#[trigger] items[i]).0 == i
}

/// The vectors of an embedding response for a batch of `count` inputs, in
/// input order: `r[i]` embeds input `i`. Fails with `Embedding` when the
/// items do not correspond one for one, in order, to the inputs.
pub fn align_embeddings<V>(count: usize, items: Vec<(u32, V)>) -> (r: Result<Vec<V>, PipelineError>)
    ensures
        match r {
            Ok(vectors) => {
                &&& in_input_order(count as nat, items@)
                &&& vectors@.len() == count
                &&& forall|i: int| 0 <= i < count ==> #[trigger] vectors@[i] == items@[i].1
            },
            Err(e) => !in_input_order(count as nat, items@) && e is Embedding,
        },
{
    if items.len() != count {
        return Err(PipelineError::Embedding(String::from_str("the response does not have one item per input")));
    }
    let mut i: usize = 0;
    while i < items.len()
        invariant
            i <= items@.len(),
            forall|j: int| 0 <= j < i ==> (#[trigger] items@[j]).0 == j,
        decreases items@.len() - i,
    {
        if items[i].0 as usize != i {
            return Err(PipelineError::Embedding(String::from_str("the response items are not in input order")));
        }
        i = i + 1;
    }
    let ghost orig = items@;
    let mut rest = reversed(items);
    let mut vectors: Vec<V> = Vec::new();
    while rest.len() > 0
        invariant
            orig.len() == count,
            vectors@.len() <= count,
            rest@ == orig.subrange(vectors@.len() as int, count as int).reverse(),
            forall|j: int| 0 <= j < vectors@.len() ==> #[trigger] vectors@[j] == orig[j].1,
        decreases rest@.len(),
    {
        let k = vectors.len();
        let (_, vector) = rest.pop().unwrap();
        vectors.push(vector);
        assert(rest@ =~= orig.subrange(k + 1, count as int).reverse());
    }
    Ok(vectors)
}

} // verus!
