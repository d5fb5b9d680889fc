//! What every index offers: the lookup of a key.

use vstd::prelude::*;

verus! {

/// An index from keys of type `K` to positions of type `I`.
pub trait Model<K, I> where K: Copy {
    /// The index is in a state in which it can be asked. An index that
    /// says nothing else always is.
    open spec fn ready(&self) -> bool {
        true
    }

    /// `r` is a right answer of this index to a lookup of `key`. An index
    /// that says nothing else promises nothing of its answers.
    open spec fn may_answer(&self, key: K, r: Option<I>) -> bool {
        true
    }

    /// Look up one key.
    fn eval(&self, key: K) -> (r: Option<I>)
        requires
            self.ready(),
        ensures
            self.may_answer(key, r),
    ;

    /// Look up `keys` one after the other and write the answer for
    /// `keys[i]` to `indices[i]`; what lies behind stays.
    fn eval_many(&self, keys: &[K], indices: &mut [Option<I>])
        requires
            self.ready(),
            keys@.len() <= old(indices)@.len(),
        ensures
            final(indices)@.len() == old(indices)@.len(),
            forall|i: int|
                0 <= i < keys@.len() ==> self.may_answer(#[trigger] keys@[i], final(indices)@[i]),
            forall|i: int|
                keys@.len() <= i < old(indices)@.len() ==> final(indices)@[i] == old(indices)@[i],
    {
        let mut i: usize = 0;
        while i < keys.len()
            invariant
                self.ready(),
                i <= keys@.len() <= indices@.len(),
                indices@.len() == old(indices)@.len(),
                forall|j: int| 0 <= j < i ==> self.may_answer(#[trigger] keys@[j], indices@[j]),
                forall|j: int| i <= j < indices@.len() ==> indices@[j] == old(indices)@[j],
            decreases keys@.len() - i,
        {
            indices[i] = self.eval(keys[i]);
            i += 1;
        }
    }
}

} // verus!
