//! The contract of a plain (non-compressed) block builder: the collaborator a
//! run-length encoder wraps. Each implementation carries its own abstract
//! model, so the wrapper's contracts are exact per implementation.

use crate::rle_block::RLETypeEncode;
use vstd::prelude::*;

verus! {

/// What a block statistic aggregates.
pub enum BlockStatisticsType {
    /// Number of rows in the block.
    RowCount,
    /// Number of distinct values in the block.
    DistinctValue,
}

/// One statistic of a block: its type tag and the encoded aggregate value.
pub struct BlockStatistics {
    pub block_stat_type: BlockStatisticsType,
    pub body: Vec<u8>,
}

/// The signature an appended item carries: the value's serialized bytes, or
/// `None` for a null.
pub open spec fn opt_sig<T: RLETypeEncode + ?Sized>(item: Option<&T>) -> Option<Seq<u8>> {
    match item {
        Some(v) => Some(v.sig()),
        None => None,
    }
}

/// An incremental builder of one block for one logical type: values go in one
/// at a time, a finished byte payload comes out once.
///
/// `model` is the sequence of item signatures appended so far; `payload` the
/// bytes `finish` would emit; `spec_est` the current size estimate. `accepts`
/// bounds what may be appended, `size_bound_ok` only keeps the size
/// arithmetic within machine bounds.
pub trait BlockBuilder<T: RLETypeEncode + ?Sized>: Sized {
    spec fn wf(&self) -> bool;

    spec fn model(&self) -> Seq<Option<Seq<u8>>>;

    spec fn spec_est(&self) -> nat;

    spec fn accepts(&self, item: Option<Seq<u8>>) -> bool;

    spec fn spec_should_finish(&self, item: Option<Seq<u8>>) -> bool;

    spec fn size_bound_ok(&self, item: Option<Seq<u8>>) -> bool;

    spec fn stats(&self) -> Seq<BlockStatistics>;

    spec fn can_finish(&self) -> bool;

    spec fn payload(&self) -> Seq<u8>;

    /// Appends one value or null; the estimate never shrinks.
    fn append(&mut self, item: Option<&T>)
        requires
            old(self).wf(),
            old(self).accepts(opt_sig(item)),
        ensures
            final(self).wf(),
            final(self).model() == old(self).model().push(opt_sig(item)),
            final(self).spec_est() >= old(self).spec_est(),
    ;

    /// The current size estimate of the block under construction.
    fn estimated_size(&self) -> (r: usize)
        requires
            self.wf(),
            self.spec_est() <= usize::MAX,
        ensures
            r == self.spec_est(),
    ;

    /// Whether the block should close rather than take `next_item`.
    fn should_finish(&self, next_item: &Option<&T>) -> (r: bool)
        requires
            self.wf(),
            self.size_bound_ok(opt_sig(*next_item)),
        ensures
            r == self.spec_should_finish(opt_sig(*next_item)),
    ;

    /// Per-value statistics of the block under construction.
    fn get_statistics(&self) -> (r: Vec<BlockStatistics>)
        requires
            self.wf(),
        ensures
            r@ == self.stats(),
    ;

    /// Emits the block's payload bytes and consumes the builder.
    fn finish(self) -> (r: Vec<u8>)
        requires
            self.wf(),
            self.can_finish(),
        ensures
            r@ == self.payload(),
    ;
}

} // verus!
