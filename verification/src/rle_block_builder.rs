//! The run-length encoder: deduplicates consecutive equal values into runs,
//! forwards only the first value of each run to a wrapped plain builder, and
//! prepends the run-count table to the wrapped payload on finish.
//!
//! The encoded block layout is
//! `| run count (u32 LE) | one u16 LE count per run | wrapped payload |`.

use crate::block_builder::{opt_sig, BlockBuilder, BlockStatistics};
use crate::rle_block::{RLETypeEncode, RLETypeKind};
use crate::runs::{
    counts_bytes, lemma_rle_step_items, lemma_rle_step_wf, rle_continues, rle_empty, rle_items,
    rle_step, rle_wf, RleState, RUN_CAP,
};
use core::marker::PhantomData;
use vstd::bytes::{spec_u32_to_le_bytes, u16_to_le_bytes, u32_to_le_bytes};
use vstd::prelude::*;
use vstd::slice::slice_to_vec;

verus! {

/// Byte-for-byte equality of two buffers.
fn bytes_eq(a: &[u8], b: &[u8]) -> (r: bool)
    ensures
        r == (a@ == b@),
{
    if a.len() != b.len() {
        return false;
    }
    let n: usize = a.len();
    let mut i: usize = 0;
    while i < n
        invariant
            i <= n,
            n == a@.len(),
            a@.len() == b@.len(),
            forall|j: int| 0 <= j < i ==> a@[j] == b@[j],
        decreases n - i,
    {
        if a[i] != b[i] {
            return false;
        }
        i = i + 1;
    }
    proof {
        assert(a@ =~= b@);
    }
    true
}

/// Run-length encoder for one block: wraps a plain builder, merges
/// consecutive equal values (compared by their byte signature, owned bytes
/// for `Primitive`, borrowed bytes for `Bytes`) into runs capped at
/// `RUN_CAP`, and emits the run-count table before the wrapped payload.
pub struct RLEBlockBuilder<T, B> where T: RLETypeEncode + ?Sized, B: BlockBuilder<T> {
    block_builder: B,
    rle_counts: Vec<u16>,
    previous_value: Option<Vec<u8>>,
    target_size: usize,
    rle_type: RLETypeKind,
    _phantom: PhantomData<T>,
}

impl<T, B> RLEBlockBuilder<T, B> where T: RLETypeEncode + ?Sized, B: BlockBuilder<T> {
    /// The wrapped plain builder.
    pub closed spec fn wrapped(&self) -> B {
        self.block_builder
    }

    /// The abstract run table state: counts, forwarded signatures, and the
    /// current run's signature.
    pub closed spec fn rle(&self) -> RleState {
        RleState {
            counts: self.rle_counts@,
            fwd: self.block_builder.model(),
            prev: match self.previous_value {
                Some(v) => Some(v@),
                None => None,
            },
        }
    }

    pub closed spec fn target(&self) -> int {
        self.target_size as int
    }

    pub closed spec fn kind(&self) -> RLETypeKind {
        self.rle_type
    }

    pub open spec fn wf(&self) -> bool {
        &&& rle_wf(self.rle())
        &&& self.wrapped().wf()
    }

    /// The value sequence appended so far: each run's signature repeated by
    /// its count.
    pub open spec fn items(&self) -> Seq<Option<Seq<u8>>> {
        rle_items(self.rle())
    }

    /// The current size estimate: the 4-byte run count, 2 bytes per run, and
    /// the wrapped builder's own estimate.
    pub open spec fn est(&self) -> int {
        4 + 2 * self.rle().counts.len() as int + self.wrapped().spec_est() as int
    }

    /// What may be appended: anything that continues the current run costs
    /// nothing; anything else must be acceptable to the wrapped builder.
    pub open spec fn accepts_item(&self, s: Option<Seq<u8>>) -> bool {
        rle_continues(self.rle(), s) || self.wrapped().accepts(s)
    }

    /// Marginal byte cost of starting a new run with signature `s`.
    pub open spec fn marginal(&self, s: Option<Seq<u8>>) -> int {
        match self.kind() {
            RLETypeKind::Primitive => T::spec_width() as int + 2,
            RLETypeKind::Bytes(Some(w)) => w as int + 2,
            RLETypeKind::Bytes(None) => (match s {
                Some(b) => b.len() as int,
                None => 0int,
            }) + 4 + 2,
        }
    }

    /// The block should close before `s` exactly when `s` would start a new
    /// run whose marginal cost overruns the target size; extending the
    /// current run is free, and an empty block always accepts.
    pub open spec fn spec_should_finish(&self, s: Option<Seq<u8>>) -> bool {
        &&& !rle_continues(self.rle(), s)
        &&& self.rle().counts.len() > 0
        &&& self.est() + self.marginal(s) > self.target()
    }

    /// The forwarded signatures of the run table are exactly the items the
    /// wrapped builder has taken.
    pub proof fn lemma_wrapped_model(&self)
        ensures
            self.rle().fwd == self.wrapped().model(),
    {
    }

    pub fn new(block_builder: B, target_size: usize, rle_type: RLETypeKind) -> (r: Self)
        requires
            block_builder.wf(),
            block_builder.model() == Seq::<Option<Seq<u8>>>::empty(),
        ensures
            r.wf(),
            r.rle() == rle_empty(),
            r.items() == Seq::<Option<Seq<u8>>>::empty(),
            r.wrapped() == block_builder,
            r.target() == target_size,
            r.kind() == rle_type,
    {
        let r = RLEBlockBuilder {
            block_builder,
            rle_counts: Vec::new(),
            previous_value: None,
            target_size,
            rle_type,
            _phantom: PhantomData,
        };
        proof {
            assert(r.rle() =~= rle_empty());
            assert(r.items() =~= Seq::<Option<Seq<u8>>>::empty());
        }
        r
    }

    /// Forwards `item` to the wrapped builder, records its signature, and
    /// opens a new run of count 1.
    fn append_inner(&mut self, item: Option<&T>)
        requires
            old(self).wf(),
            old(self).wrapped().accepts(opt_sig(item)),
        ensures
            final(self).wf(),
            final(self).rle() == (RleState {
                counts: old(self).rle().counts.push(1u16),
                fwd: old(self).rle().fwd.push(opt_sig(item)),
                prev: opt_sig(item),
            }),
            final(self).wrapped().spec_est() >= old(self).wrapped().spec_est(),
            final(self).target() == old(self).target(),
            final(self).kind() == old(self).kind(),
    {
        self.previous_value = match self.rle_type {
            RLETypeKind::Primitive => match item {
                Some(x) => Some(x.to_vec_bytes()),
                None => None,
            },
            RLETypeKind::Bytes(_) => match item {
                Some(x) => match x.to_ref_bytes() {
                    Some(rb) => Some(slice_to_vec(rb)),
                    None => Some(x.to_vec_bytes()),
                },
                None => None,
            },
        };
        self.block_builder.append(item);
        self.rle_counts.push(1u16);
        proof {
            assert(final(self).rle() =~= RleState {
                counts: old(self).rle().counts.push(1u16),
                fwd: old(self).rle().fwd.push(opt_sig(item)),
                prev: opt_sig(item),
            });
        }
    }

    /// Appends one value or null: a value whose signature equals the current
    /// run's (and whose run is below the cap) only increments that run's
    /// count; anything else is forwarded to the wrapped builder and starts a
    /// new run.
    pub fn append(&mut self, item: Option<&T>)
        requires
            old(self).wf(),
            old(self).accepts_item(opt_sig(item)),
        ensures
            final(self).wf(),
            final(self).rle() == rle_step(old(self).rle(), opt_sig(item)),
            final(self).items() == old(self).items().push(opt_sig(item)),
            final(self).est() >= old(self).est(),
            final(self).target() == old(self).target(),
            final(self).kind() == old(self).kind(),
    {
        proof {
            lemma_rle_step_wf(old(self).rle(), opt_sig(item));
            lemma_rle_step_items(old(self).rle(), opt_sig(item));
        }
        let len: usize = self.rle_counts.len();
        match item {
            Some(x) => {
                let mut same: bool = false;
                if let Some(prev) = &self.previous_value {
                    same = match self.rle_type {
                        RLETypeKind::Primitive => {
                            let vb = x.to_vec_bytes();
                            bytes_eq(prev.as_slice(), vb.as_slice())
                        },
                        RLETypeKind::Bytes(_) => match x.to_ref_bytes() {
                            Some(rb) => bytes_eq(prev.as_slice(), rb),
                            None => {
                                let vb = x.to_vec_bytes();
                                bytes_eq(prev.as_slice(), vb.as_slice())
                            },
                        },
                    };
                }
                if same {
                    let c: u16 = self.rle_counts[len - 1];
                    if c < RUN_CAP {
                        self.rle_counts[len - 1] = c + 1;
                        proof {
                            assert(rle_continues(old(self).rle(), opt_sig(item)));
                            assert(final(self).rle() =~= rle_step(
                                old(self).rle(),
                                opt_sig(item),
                            ));
                        }
                        return;
                    }
                }
            },
            None => {
                if self.previous_value.is_none() && len > 0 {
                    let c: u16 = self.rle_counts[len - 1];
                    if c < RUN_CAP {
                        self.rle_counts[len - 1] = c + 1;
                        proof {
                            assert(rle_continues(old(self).rle(), opt_sig(item)));
                            assert(final(self).rle() =~= rle_step(
                                old(self).rle(),
                                opt_sig(item),
                            ));
                        }
                        return;
                    }
                }
            },
        }
        proof {
            assert(!rle_continues(old(self).rle(), opt_sig(item)));
        }
        self.append_inner(item);
        proof {
            assert(final(self).rle() =~= rle_step(old(self).rle(), opt_sig(item)));
        }
    }

    /// The current size estimate: `4 + 2 * runs + wrapped estimate`, never
    /// smaller than before any earlier append.
    pub fn estimated_size(&self) -> (r: usize)
        requires
            self.wf(),
            self.est() <= usize::MAX,
        ensures
            r == self.est(),
    {
        self.block_builder.estimated_size() + self.rle_counts.len() * 2 + 4
    }

    /// Whether the block should close rather than take `next_item`: false
    /// while `next_item` would extend the current run or no run exists yet,
    /// true exactly when the marginal cost of its new run would push the
    /// estimate past the target size.
    pub fn should_finish(&self, next_item: &Option<&T>) -> (r: bool)
        requires
            self.wf(),
            self.est() + self.marginal(opt_sig(*next_item)) <= usize::MAX,
            self.kind() matches RLETypeKind::Bytes(Some(w)) ==> w <= usize::MAX,
        ensures
            r == self.spec_should_finish(opt_sig(*next_item)),
    {
        let len: usize = self.rle_counts.len();
        match *next_item {
            Some(x) => {
                if let Some(prev) = &self.previous_value {
                    let same: bool = match self.rle_type {
                        RLETypeKind::Primitive => {
                            let vb = x.to_vec_bytes();
                            bytes_eq(prev.as_slice(), vb.as_slice())
                        },
                        RLETypeKind::Bytes(_) => match x.to_ref_bytes() {
                            Some(rb) => bytes_eq(prev.as_slice(), rb),
                            None => {
                                let vb = x.to_vec_bytes();
                                bytes_eq(prev.as_slice(), vb.as_slice())
                            },
                        },
                    };
                    if same && self.rle_counts[len - 1] < RUN_CAP {
                        return false;
                    }
                }
            },
            None => {
                if self.previous_value.is_none() {
                    if len == 0 {
                        return false;
                    }
                    if self.rle_counts[len - 1] < RUN_CAP {
                        return false;
                    }
                }
            },
        }
        let est: usize = self.estimated_size();
        let could_not_append_one: bool = match self.rle_type {
            RLETypeKind::Primitive => est + T::width() + 2 > self.target_size,
            RLETypeKind::Bytes(Some(char_width)) => est + (char_width as usize) + 2
                > self.target_size,
            RLETypeKind::Bytes(None) => {
                let l: usize = match *next_item {
                    Some(x) => x.len(),
                    None => 0,
                };
                est + l + 4 + 2 > self.target_size
            },
        };
        !self.rle_counts.is_empty() && could_not_append_one
    }

    /// Statistics of the wrapped builder, passed through unmodified.
    pub fn get_statistics(&self) -> (r: Vec<BlockStatistics>)
        requires
            self.wf(),
        ensures
            r@ == self.wrapped().stats(),
    {
        self.block_builder.get_statistics()
    }

    /// Emits the encoded block and consumes the builder: the run count as a
    /// little-endian `u32`, each run's count as a little-endian `u16`, then
    /// the wrapped builder's payload.
    pub fn finish(self) -> (r: Vec<u8>)
        requires
            self.wf(),
            self.rle().counts.len() <= u32::MAX,
            self.wrapped().can_finish(),
        ensures
            r@ == spec_u32_to_le_bytes(self.rle().counts.len() as u32) + counts_bytes(
                self.rle().counts,
            ) + self.wrapped().payload(),
    {
        let RLEBlockBuilder { block_builder, rle_counts, .. } = self;
        let n: usize = rle_counts.len();
        let mut encoded: Vec<u8> = u32_to_le_bytes(n as u32);
        let mut i: usize = 0;
        while i < n
            invariant
                i <= n,
                n == rle_counts@.len(),
                n == self.rle().counts.len(),
                rle_counts@ == self.rle().counts,
                encoded@ == spec_u32_to_le_bytes(n as u32) + counts_bytes(
                    rle_counts@.take(i as int),
                ),
            decreases n - i,
        {
            let mut cb = u16_to_le_bytes(rle_counts[i]);
            encoded.append(&mut cb);
            i = i + 1;
            proof {
                let taken = rle_counts@.take(i as int);
                assert(taken.drop_last() =~= rle_counts@.take(i - 1));
                assert(taken.last() == rle_counts@[i - 1]);
                assert(encoded@ =~= spec_u32_to_le_bytes(n as u32) + counts_bytes(taken));
            }
        }
        let mut data = block_builder.finish();
        encoded.append(&mut data);
        proof {
            assert(rle_counts@.take(n as int) =~= self.rle().counts);
        }
        encoded
    }
}

/// A run-length encoder is itself a block builder, so encoders compose with
/// anything that consumes one.
impl<T, B> BlockBuilder<T> for RLEBlockBuilder<T, B> where
    T: RLETypeEncode + ?Sized,
    B: BlockBuilder<T>,
 {
    closed spec fn wf(&self) -> bool {
        RLEBlockBuilder::wf(self)
    }

    closed spec fn model(&self) -> Seq<Option<Seq<u8>>> {
        self.items()
    }

    closed spec fn spec_est(&self) -> nat {
        self.est() as nat
    }

    closed spec fn accepts(&self, item: Option<Seq<u8>>) -> bool {
        self.accepts_item(item)
    }

    closed spec fn spec_should_finish(&self, item: Option<Seq<u8>>) -> bool {
        RLEBlockBuilder::spec_should_finish(self, item)
    }

    closed spec fn size_bound_ok(&self, item: Option<Seq<u8>>) -> bool {
        &&& self.est() + self.marginal(item) <= usize::MAX
        &&& (self.kind() matches RLETypeKind::Bytes(Some(w)) ==> w <= usize::MAX)
    }

    closed spec fn stats(&self) -> Seq<BlockStatistics> {
        self.wrapped().stats()
    }

    closed spec fn can_finish(&self) -> bool {
        self.rle().counts.len() <= u32::MAX && self.wrapped().can_finish()
    }

    closed spec fn payload(&self) -> Seq<u8> {
        spec_u32_to_le_bytes(self.rle().counts.len() as u32) + counts_bytes(self.rle().counts)
            + self.wrapped().payload()
    }

    fn append(&mut self, item: Option<&T>) {
        RLEBlockBuilder::append(self, item)
    }

    fn estimated_size(&self) -> (r: usize) {
        RLEBlockBuilder::estimated_size(self)
    }

    fn should_finish(&self, next_item: &Option<&T>) -> (r: bool) {
        RLEBlockBuilder::should_finish(self, next_item)
    }

    fn get_statistics(&self) -> (r: Vec<BlockStatistics>) {
        RLEBlockBuilder::get_statistics(self)
    }

    fn finish(self) -> (r: Vec<u8>) {
        RLEBlockBuilder::finish(self)
    }
}

} // verus!
