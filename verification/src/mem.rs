//! The word-granular, write-once-from-erased memory abstraction, and an
//! in-memory region for tests and examples.

use vstd::prelude::*;
use vstd::pervasive::VecAdditionalExecFns;
use crate::words::{Word, ERASED};

verus! {

/// A finite linear array of words with NOR-flash write semantics: a word
/// may only be (successfully) written while it holds the erased pattern.
///
/// The concrete flash driver is outside the store; an implementation must
/// satisfy these contracts for the recovery guarantees to hold.
pub trait StorageMem: Sized {
    type Error;

    /// The current contents of the region, one entry per word.
    spec fn view(&self) -> Seq<u32>;

    /// Write `word` at word offset `offset_words`.  Must fail if the target
    /// word is not currently erased; a successful write persists exactly
    /// that word and changes nothing else.  The write is atomic: on failure
    /// the region is unchanged.
    fn write(&mut self, offset_words: usize, word: Word) -> (r: Result<(), Self::Error>)
        requires
            offset_words < old(self).view().len(),
        ensures
            old(self).view()[offset_words as int] != ERASED ==> r is Err,
            r is Ok ==> final(self).view() == old(self).view().update(
                offset_words as int,
                word,
            ),
            r is Err ==> final(self).view() == old(self).view(),
    ;

    /// Read the word at word offset `offset_words`.
    fn read(&self, offset_words: usize) -> (w: Word)
        requires
            offset_words < self.view().len(),
        ensures
            w == self.view()[offset_words as int],
    ;

    /// Read-only borrow of the half-open word range `[offset_start, offset_end)`.
    fn read_slice(&self, offset_start: usize, offset_end: usize) -> (ws: &[Word])
        requires
            offset_start <= offset_end <= self.view().len(),
        ensures
            ws@ == self.view().subrange(offset_start as int, offset_end as int),
    ;

    /// Total region size in words.
    fn len(&self) -> (n: usize)
        ensures
            n == self.view().len(),
    ;
}

/// A region held in ordinary memory, with the same write-once-from-erased
/// discipline a NOR driver would enforce.  The words are public so that a
/// test can corrupt or erase cells behind the store's back.
pub struct TestMem {
    pub words: Vec<u32>,
}

impl TestMem {
    /// A region of `n` words, all erased.
    pub fn new_erased(n: usize) -> (r: TestMem)
        ensures
            r.words@.len() == n,
            forall|i: int| 0 <= i < n ==> r.words@[i] == ERASED,
    {
        let mut words: Vec<u32> = Vec::new();
        let mut k: usize = 0;
        while k < n
            invariant
                k <= n,
                words@.len() == k,
                forall|i: int| 0 <= i < k ==> words@[i] == ERASED,
            decreases n - k,
        {
            words.push(ERASED);
            k = k + 1;
        }
        TestMem { words }
    }
}

impl StorageMem for TestMem {
    type Error = ();

    open spec fn view(&self) -> Seq<u32> {
        self.words@
    }

    fn write(&mut self, offset_words: usize, word: Word) -> (r: Result<(), Self::Error>) {
        if self.words[offset_words] == ERASED {
            self.words.set(offset_words, word);
            Ok(())
        } else {
            Err(())
        }
    }

    fn read(&self, offset_words: usize) -> (w: Word) {
        self.words[offset_words]
    }

    fn read_slice(&self, offset_start: usize, offset_end: usize) -> (ws: &[Word]) {
        vstd::slice::slice_subrange(self.words.as_slice(), offset_start, offset_end)
    }

    fn len(&self) -> (n: usize) {
        self.words.len()
    }
}

} // verus!
