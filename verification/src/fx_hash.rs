//! Hashing with the hasher of the `rustc-hash` crate.

use rustc_hash::FxHasher;
use std::hash::{Hash, Hasher};
use vstd::prelude::*;

verus! {

/// The hasher of the `rustc-hash` crate, [`rustc_hash::FxHasher`].
#[verifier::external_type_specification]
#[verifier::external_body]
pub struct ExFxHasher(FxHasher);

/// A value that a hasher has been fed with.
#[verifier::ext_equal]
pub enum FxWord {
    Usize(usize),
    I32(i32),
    U32(u32),
    U64(u64),
    U64List(Seq<u64>),
}

/// The values that a hasher has been fed with, in turn.
pub uninterp spec fn fx_written(hasher: FxHasher) -> Seq<FxWord>;

/// What a hasher makes of the values it has been fed with, on the target at hand,
/// whose pointers have `pointer_bits` bits.
pub uninterp spec fn fx_digest(pointer_bits: nat, written: Seq<FxWord>) -> u64;

/// The digest of the values.
pub open spec fn digest(written: Seq<FxWord>) -> u64 {
    fx_digest(usize::BITS as nat, written)
}

/// `FxHasher::default`: a hasher that has been fed with nothing.
#[verifier::external_body]
pub(crate) fn fx_new() -> (hasher: FxHasher)
    ensures
        fx_written(hasher) == Seq::<FxWord>::empty(),
{
    FxHasher::default()
}

/// `usize::hash` into an `FxHasher`: feeds it with one more value.
#[verifier::external_body]
pub(crate) fn fx_usize(hasher: &mut FxHasher, value: usize)
    ensures
        fx_written(*final(hasher)) == fx_written(*old(hasher)).push(FxWord::Usize(value)),
{
    value.hash(hasher)
}

/// `i32::hash` into an `FxHasher`: feeds it with one more value.
#[verifier::external_body]
pub(crate) fn fx_i32(hasher: &mut FxHasher, value: i32)
    ensures
        fx_written(*final(hasher)) == fx_written(*old(hasher)).push(FxWord::I32(value)),
{
    value.hash(hasher)
}

/// `u32::hash` into an `FxHasher`: feeds it with one more value.
#[verifier::external_body]
pub(crate) fn fx_u32(hasher: &mut FxHasher, value: u32)
    ensures
        fx_written(*final(hasher)) == fx_written(*old(hasher)).push(FxWord::U32(value)),
{
    value.hash(hasher)
}

/// `u64::hash` into an `FxHasher`: feeds it with one more value.
#[verifier::external_body]
pub(crate) fn fx_u64(hasher: &mut FxHasher, value: u64)
    ensures
        fx_written(*final(hasher)) == fx_written(*old(hasher)).push(FxWord::U64(value)),
{
    value.hash(hasher)
}

/// `Vec::<u64>::hash` into an `FxHasher`: feeds it with one more value, the
/// list with its length.
#[verifier::external_body]
pub(crate) fn fx_u64_list(hasher: &mut FxHasher, values: &Vec<u64>)
    ensures
        fx_written(*final(hasher)) == fx_written(*old(hasher)).push(FxWord::U64List(values@)),
{
    values.hash(hasher)
}

/// `FxHasher::finish`: the digest of what the hasher has been fed with. It
/// depends on that alone and on the target that the crate is built for. Numbers
/// are mixed in by the width of a pointer, which is named. A list is mixed in by
/// the order of the bytes in a word and the widening multiplication of the target
/// as well, which are not: the name speaks of the target at hand.
#[verifier::external_body]
pub(crate) fn fx_finish(hasher: &FxHasher) -> (hash: u64)
    ensures
        hash == fx_digest(usize::BITS as nat, fx_written(*hasher)),
{
    hasher.finish()
}

} // verus!
