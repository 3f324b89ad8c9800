use vstd::prelude::*;

verus! {

/// A dense non-negative integer identifying a canonical Devanagari word.
/// Stable for the lifetime of a dictionary snapshot.
pub type WordId = usize;

/// Metadata kept for each canonical Devanagari word.
pub struct WordMetadata {
    /// The canonical Devanagari string, immutable once assigned.
    pub devanagari: String,
    /// Number of user confirmations of this word; never decreases.
    pub frequency: u64,
    /// All Roman spellings ever confirmed for this word, without duplicates.
    pub variants: Vec<String>,
}

impl WordMetadata {
    /// The recorded Roman variants are pairwise distinct.
    pub open spec fn wf(&self) -> bool {
        forall|i: int, j: int|
            0 <= i < j < self.variants@.len() ==> self.variants@[i]@ != self.variants@[j]@
    }
}

} // verus!
