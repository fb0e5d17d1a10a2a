//! Atomic cells for the words that threads share: anchors, the heads and
//! links of the lock-free lists, and page-map entries.

use vstd::prelude::*;
use atomic::Atomic;
use atomic::Ordering;

verus! {

/// `atomic::Atomic<T>`, a cell that is read and written in one step.
#[verifier::external_type_specification]
#[verifier::external_body]
#[verifier::reject_recursive_types(T)]
pub struct ExAtomic<T>(Atomic<T>);

/// The word that a cell of pointer size holds.
pub uninterp spec fn cell_word(cell: Atomic<usize>) -> usize;

/// The word that a cell of 64 bits holds.
pub uninterp spec fn cell_word64(cell: Atomic<u64>) -> u64;

/// `Atomic::new`: a cell that holds `word`.
#[verifier::external_body]
pub(crate) fn cell_new(word: usize) -> (cell: Atomic<usize>)
    ensures
        cell_word(cell) == word,
{
    Atomic::new(word)
}

/// `Atomic::load`, sequentially consistent: the word that the cell holds.
#[verifier::external_body]
pub(crate) fn cell_load(cell: &Atomic<usize>) -> (word: usize)
    ensures
        word == cell_word(*cell),
{
    cell.load(Ordering::SeqCst)
}

/// `Atomic::store`, sequentially consistent, on a cell that the caller has
/// to itself: the cell holds `word` afterwards.
#[verifier::external_body]
pub(crate) fn cell_store(cell: &mut Atomic<usize>, word: usize)
    ensures
        cell_word(*final(cell)) == word,
{
    cell.store(word, Ordering::SeqCst)
}

/// `Atomic::compare_exchange`, sequentially consistent, on a cell that the
/// caller has to itself: if the cell holds `current`, `new` is stored and the
/// result is `Ok` of the word replaced; else the cell is left alone and the
/// result is `Err` of the word that it holds.
#[verifier::external_body]
pub(crate) fn cell_compare_exchange(cell: &mut Atomic<usize>, current: usize, new: usize) -> (r:
    Result<usize, usize>)
    ensures
        r.is_ok() == (cell_word(*old(cell)) == current),
        r.is_ok() ==> r.unwrap() == current && cell_word(*final(cell)) == new,
        r.is_err() ==> r.unwrap_err() == cell_word(*old(cell)) && cell_word(*final(cell))
            == cell_word(*old(cell)),
{
    cell.compare_exchange(current, new, Ordering::SeqCst, Ordering::SeqCst)
}

/// `Atomic::new`: a cell that holds `word`.
#[verifier::external_body]
pub(crate) fn cell_new64(word: u64) -> (cell: Atomic<u64>)
    ensures
        cell_word64(cell) == word,
{
    Atomic::new(word)
}

/// `Atomic::load`, sequentially consistent: the word that the cell holds.
#[verifier::external_body]
pub(crate) fn cell_load64(cell: &Atomic<u64>) -> (word: u64)
    ensures
        word == cell_word64(*cell),
{
    cell.load(Ordering::SeqCst)
}

/// `Atomic::store`, sequentially consistent, on a cell that the caller has
/// to itself: the cell holds `word` afterwards.
#[verifier::external_body]
pub(crate) fn cell_store64(cell: &mut Atomic<u64>, word: u64)
    ensures
        cell_word64(*final(cell)) == word,
{
    cell.store(word, Ordering::SeqCst)
}

} // verus!
