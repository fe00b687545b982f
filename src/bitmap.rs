//! Bit-level access to a 64-bit word.
use vstd::prelude::*;

verus! {

/// Error for bitmap operations.
#[derive(Debug, PartialEq, Eq, Structural)]
pub enum BitmapErr {
    /// The bit index is not below 64.
    OutOfBounds,
}

/// Value (0 or 1) of bit `n` of `word`.
pub open spec fn nth_bit(word: u64, n: u32) -> u64 {
    (word >> (n as u64)) & 1u64
}

/// Whether bit `n` of `word` is 1.
pub open spec fn bit_is_set(word: u64, n: u32) -> bool {
    nth_bit(word, n) == 1u64
}

proof fn lemma_bit_of_or(w: u64, n: u64, m: u64)
    by (bit_vector)
    requires
        n < 64,
        m < 64,
    ensures
        m == n ==> ((w | (1u64 << n)) >> m) & 1u64 == 1u64,
        m != n ==> ((w | (1u64 << n)) >> m) & 1u64 == (w >> m) & 1u64,
{
}

proof fn lemma_bit_of_and_not(w: u64, n: u64, m: u64)
    by (bit_vector)
    requires
        n < 64,
        m < 64,
    ensures
        m == n ==> ((w & !(1u64 << n)) >> m) & 1u64 == 0u64,
        m != n ==> ((w & !(1u64 << n)) >> m) & 1u64 == (w >> m) & 1u64,
{
}

/// Every bit of a word is 0 or 1.
pub proof fn lemma_bit_is_binary(w: u64, m: u64)
    by (bit_vector)
    ensures
        (w >> m) & 1u64 == 0u64 || (w >> m) & 1u64 == 1u64,
{
}

/// No bit of the zero word is set.
pub proof fn lemma_zero_word_clear(m: u64)
    by (bit_vector)
    requires
        m < 64,
    ensures
        (0u64 >> m) & 1u64 == 0u64,
{
}

/// Return the n-th bit of the 64-bit bitmap.
pub fn get_nth_bit(bitmap: &u64, n: u32) -> (r: Result<u64, BitmapErr>)
    ensures
        n >= 64 ==> r == Err::<u64, BitmapErr>(BitmapErr::OutOfBounds),
        n < 64 ==> r == Ok::<u64, BitmapErr>(nth_bit(*bitmap, n)),
        n < 64 ==> (r == Ok::<u64, BitmapErr>(0u64) || r == Ok::<u64, BitmapErr>(1u64)),
{
    if n >= 64 {
        return Err(BitmapErr::OutOfBounds);
    }
    proof {
        lemma_bit_is_binary(*bitmap, n as u64);
    }
    Ok((*bitmap >> n) & 1u64)
}

/// Set the n-th bit of the 64-bit bitmap to 1.
pub fn set_nth_bit(bitmap: &mut u64, n: u32) -> (r: Result<(), BitmapErr>)
    ensures
        n >= 64 ==> r == Err::<(), BitmapErr>(BitmapErr::OutOfBounds) && *final(bitmap) == *old(bitmap),
        n < 64 ==> r == Ok::<(), BitmapErr>(()) && *final(bitmap) == *old(bitmap) | (1u64 << (n as u64)),
        n < 64 ==> forall|m: u32|
            m < 64 ==> #[trigger] bit_is_set(*final(bitmap), m) == (m == n || bit_is_set(*old(bitmap), m)),
{
    if n >= 64 {
        return Err(BitmapErr::OutOfBounds);
    }
    let ghost w = *bitmap;
    *bitmap = *bitmap | (1u64 << n);
    assert forall|m: u32| m < 64 implies #[trigger] bit_is_set(*bitmap, m) == (m == n || bit_is_set(w, m)) by {
        lemma_bit_of_or(w, n as u64, m as u64);
    }
    Ok(())
}

/// Set the n-th bit of the 64-bit bitmap to 0.
pub fn clear_nth_bit(bitmap: &mut u64, n: u32) -> (r: Result<(), BitmapErr>)
    ensures
        n >= 64 ==> r == Err::<(), BitmapErr>(BitmapErr::OutOfBounds) && *final(bitmap) == *old(bitmap),
        n < 64 ==> r == Ok::<(), BitmapErr>(()) && *final(bitmap) == *old(bitmap) & !(1u64 << (n as u64)),
        n < 64 ==> forall|m: u32|
            m < 64 ==> #[trigger] bit_is_set(*final(bitmap), m) == (m != n && bit_is_set(*old(bitmap), m)),
{
    if n >= 64 {
        return Err(BitmapErr::OutOfBounds);
    }
    let ghost w = *bitmap;
    *bitmap = *bitmap & !(1u64 << n);
    assert forall|m: u32| m < 64 implies #[trigger] bit_is_set(*bitmap, m) == (m != n && bit_is_set(w, m)) by {
        lemma_bit_of_and_not(w, n as u64, m as u64);
    }
    Ok(())
}

} // verus!
