//! Plain (non-compressed) block builders: the baseline encoders a run-length
//! encoder forwards the first value of each run to. Each keeps the payload
//! bytes it will emit, plus a ghost record of the appended signatures that
//! ties the bytes to their meaning.

use crate::block_builder::{BlockBuilder, BlockStatistics, opt_sig};
use crate::rle_block::RLETypeEncode;
use crate::runs::{
    concat_seqs, counts_bytes, expand_runs, len_prefixed, lemma_concat_fixed_len,
    lemma_counts_bytes_len, lemma_counts_round_trip, lemma_split_fixed_round_trip, pad_to,
    parse_counts, rle_items, rle_wf, sig_values, split_fixed, zeros, RleState,
};
use core::marker::PhantomData;
use vstd::bytes::{
    lemma_auto_spec_u32_to_from_le_bytes, spec_u32_from_le_bytes, spec_u32_to_le_bytes,
    u32_to_le_bytes,
};
use vstd::prelude::*;
use vstd::slice::slice_to_vec;

verus! {

/// A vector of `n` zero bytes.
fn zeros_vec(n: usize) -> (r: Vec<u8>)
    ensures
        r@ == zeros(n as nat),
{
    let mut r: Vec<u8> = Vec::new();
    let mut i: usize = 0;
    while i < n
        invariant
            i <= n,
            r@ == zeros(i as nat),
        decreases n - i,
    {
        r.push(0u8);
        i = i + 1;
        proof {
            assert(r@ =~= zeros(i as nat));
        }
    }
    r
}

/// Byte payload for fixed-width values: their signatures, concatenated.
pub struct PlainPrimitiveBlockBuilder<T: RLETypeEncode> {
    data: Vec<u8>,
    target_size: usize,
    items: Ghost<Seq<Seq<u8>>>,
    _phantom: PhantomData<T>,
}

impl<T: RLETypeEncode> PlainPrimitiveBlockBuilder<T> {
    pub fn new(target_size: usize) -> (r: Self)
        requires
            T::spec_width() > 0,
        ensures
            r.wf(),
            r.model() == Seq::<Option<Seq<u8>>>::empty(),
            r.spec_est() == 0,
            r.target() == target_size,
    {
        let r = PlainPrimitiveBlockBuilder {
            data: Vec::new(),
            target_size,
            items: Ghost(Seq::empty()),
            _phantom: PhantomData,
        };
        proof {
            assert(r.model() =~= Seq::<Option<Seq<u8>>>::empty());
            assert(r.data@ =~= concat_seqs(r.items@));
        }
        r
    }

    pub closed spec fn target(&self) -> int {
        self.target_size as int
    }

    /// The signatures appended so far; the payload is their concatenation.
    pub closed spec fn sigs(&self) -> Seq<Seq<u8>> {
        self.items@
    }
}

impl<T: RLETypeEncode> BlockBuilder<T> for PlainPrimitiveBlockBuilder<T> {
    closed spec fn wf(&self) -> bool {
        &&& T::spec_width() > 0
        &&& forall|i: int|
            0 <= i < self.items@.len() ==> (#[trigger] self.items@[i]).len() == T::spec_width()
        &&& self.data@ == concat_seqs(self.items@)
    }

    closed spec fn model(&self) -> Seq<Option<Seq<u8>>> {
        self.items@.map_values(|s: Seq<u8>| Some(s))
    }

    closed spec fn spec_est(&self) -> nat {
        self.data@.len()
    }

    open spec fn accepts(&self, item: Option<Seq<u8>>) -> bool {
        item matches Some(b) && b.len() == T::spec_width()
    }

    closed spec fn spec_should_finish(&self, item: Option<Seq<u8>>) -> bool {
        self.data@.len() > 0 && self.data@.len() + T::spec_width() > self.target_size
    }

    closed spec fn size_bound_ok(&self, item: Option<Seq<u8>>) -> bool {
        self.data@.len() + T::spec_width() <= usize::MAX
    }

    closed spec fn stats(&self) -> Seq<BlockStatistics> {
        Seq::empty()
    }

    open spec fn can_finish(&self) -> bool {
        true
    }

    closed spec fn payload(&self) -> Seq<u8> {
        self.data@
    }

    fn append(&mut self, item: Option<&T>) {
        match item {
            Some(x) => {
                let mut bs = x.to_vec_bytes();
                self.data.append(&mut bs);
                proof {
                    let s = x.sig();
                    self.items@ = old(self).items@.push(s);
                    assert(self.items@.drop_last() =~= old(self).items@);
                    assert(self.data@ =~= concat_seqs(self.items@));
                    assert(self.model() =~= old(self).model().push(opt_sig(item)));
                }
            },
            None => {
                proof {
                    assert(false);
                }
            },
        }
    }

    fn estimated_size(&self) -> (r: usize) {
        self.data.len()
    }

    fn should_finish(&self, next_item: &Option<&T>) -> (r: bool) {
        !self.data.is_empty() && self.data.len() + T::width() > self.target_size
    }

    fn get_statistics(&self) -> (r: Vec<BlockStatistics>) {
        Vec::new()
    }

    fn finish(self) -> (r: Vec<u8>) {
        self.data
    }
}

/// The primitive builder's payload and estimate as functions of its model:
/// the payload is the concatenation of the appended signatures, each exactly
/// the type's width.
pub proof fn lemma_primitive_payload<T: RLETypeEncode>(b: PlainPrimitiveBlockBuilder<T>)
    requires
        b.wf(),
    ensures
        b.payload() == concat_seqs(sig_values(b.model())),
        b.spec_est() == b.payload().len(),
        T::spec_width() > 0,
        forall|i: int|
            0 <= i < b.model().len() ==> ((#[trigger] b.model()[i]) matches Some(s) && s.len()
                == T::spec_width()),
{
    assert(sig_values(b.model()) =~= b.sigs());
}

/// Powers of two, for bit packing.
pub open spec fn two_pow(k: nat) -> int
    decreases k,
{
    if k == 0 {
        1
    } else {
        2 * two_pow((k - 1) as nat)
    }
}

proof fn lemma_two_pow_bound(k: nat)
    requires
        k <= 8,
    ensures
        1 <= two_pow(k) <= 256,
        k <= 7 ==> two_pow(k) <= 128,
{
    reveal_with_fuel(two_pow, 10);
}

/// The value of the `k` bits starting at `base`, least significant first.
pub open spec fn bits_value(bits: Seq<bool>, base: int, k: nat) -> int
    decreases k,
{
    if k == 0 {
        0
    } else {
        bits_value(bits, base, (k - 1) as nat) + if bits[base + k - 1] {
            two_pow((k - 1) as nat)
        } else {
            0
        }
    }
}

proof fn lemma_bits_value_bound(bits: Seq<bool>, base: int, k: nat)
    ensures
        0 <= bits_value(bits, base, k) < two_pow(k),
    decreases k,
{
    if k > 0 {
        lemma_bits_value_bound(bits, base, (k - 1) as nat);
    }
}

proof fn lemma_bits_value_congruent(b1: Seq<bool>, b2: Seq<bool>, base: int, k: nat)
    requires
        forall|j: int| 0 <= j < k ==> #[trigger] b1[base + j] == b2[base + j],
    ensures
        bits_value(b1, base, k) == bits_value(b2, base, k),
    decreases k,
{
    if k > 0 {
        lemma_bits_value_congruent(b1, b2, base, (k - 1) as nat);
    }
}

/// Number of bytes `n` bits pack into.
pub open spec fn ceil_div8(n: nat) -> nat {
    n / 8 + if n % 8 == 0 {
        0nat
    } else {
        1nat
    }
}

/// How many of the `n` bits fall into byte `i`.
pub open spec fn chunk_width(n: nat, i: int) -> nat {
    if n - 8 * i >= 8 {
        8nat
    } else {
        (n - 8 * i) as nat
    }
}

/// Bits packed into bytes, least significant bit first.
pub open spec fn pack_bits(bits: Seq<bool>) -> Seq<u8> {
    Seq::new(
        ceil_div8(bits.len()),
        |i: int| bits_value(bits, 8 * i, chunk_width(bits.len(), i)) as u8,
    )
}

/// Appending one bit either starts a new byte or adds one power of two to
/// the last byte.
proof fn lemma_pack_push(bits: Seq<bool>, v: bool)
    ensures
        ({
            let n = bits.len() as int;
            let p = pack_bits(bits);
            let p2 = pack_bits(bits.push(v));
            &&& (n % 8 == 0 ==> p2 == p.push(if v {
                1u8
            } else {
                0u8
            }))
            &&& (n % 8 != 0 ==> p2 == p.update(
                p.len() - 1,
                ((p.last() as int) + if v {
                    two_pow((n % 8) as nat)
                } else {
                    0
                }) as u8,
            ))
        }),
{
    let n = bits.len() as int;
    let k = n % 8;
    let bits2 = bits.push(v);
    let p = pack_bits(bits);
    let p2 = pack_bits(bits2);
    assert(8 * (n / 8) + k == n);
    assert forall|i: int| 0 <= i < n / 8 implies p2[i] == p[i] by {
        assert(n - 8 * i >= 8);
        assert(n + 1 - 8 * i >= 8);
        assert(chunk_width(n as nat, i) == 8);
        assert(chunk_width((n + 1) as nat, i) == 8);
        lemma_bits_value_congruent(bits2, bits, 8 * i, 8);
    }
    if k == 0 {
        assert(p.len() == n / 8);
        assert(p2.len() == n / 8 + 1);
        assert(chunk_width((n + 1) as nat, n / 8) == 1);
        assert(bits2[8 * (n / 8) + 0] == v);
        reveal_with_fuel(bits_value, 3);
        assert(bits_value(bits2, 8 * (n / 8), 1nat) == if v {
            1int
        } else {
            0int
        });
        assert(p2 =~= p.push(
            if v {
                1u8
            } else {
                0u8
            },
        ));
    } else {
        let i = n / 8;
        assert(p.len() == i + 1);
        assert(p2.len() == i + 1);
        assert(chunk_width(n as nat, i) == k);
        assert(chunk_width((n + 1) as nat, i) == (k + 1) as nat);
        lemma_bits_value_congruent(bits2, bits, 8 * i, k as nat);
        lemma_bits_value_bound(bits, 8 * i, k as nat);
        lemma_two_pow_bound(k as nat);
        assert(bits2[8 * i + k] == v);
        assert(bits_value(bits2, 8 * i, (k + 1) as nat) == bits_value(bits, 8 * i, k as nat)
            + if v {
            two_pow(k as nat)
        } else {
            0
        });
        assert(p.last() as int == bits_value(bits, 8 * i, k as nat));
        assert(p2 =~= p.update(
            p.len() - 1,
            ((p.last() as int) + if v {
                two_pow(k as nat)
            } else {
                0
            }) as u8,
        ));
    }
}

/// The bit mask of position `k` within a byte.
fn bit_mask(k: usize) -> (r: u8)
    requires
        k < 8,
    ensures
        r == two_pow(k as nat),
{
    proof {
        reveal_with_fuel(two_pow, 10);
    }
    if k == 0 {
        1
    } else if k == 1 {
        2
    } else if k == 2 {
        4
    } else if k == 3 {
        8
    } else if k == 4 {
        16
    } else if k == 5 {
        32
    } else if k == 6 {
        64
    } else {
        128
    }
}

/// The `n` bits of a packed bitmap, peeled from the last bit down: in the
/// byte holding the last bit all higher bits are still clear, so that bit is
/// set exactly when the byte reaches its weight.
pub open spec fn unpack_bits(bytes: Seq<u8>, n: nat) -> Seq<bool>
    decreases n,
{
    if n == 0 {
        Seq::empty()
    } else {
        let i = ((n - 1) as int) / 8;
        let k = ((n - 1) as int) % 8;
        let b = bytes[i] as int;
        let bit = b >= two_pow(k as nat);
        let shrunk = if k == 0 {
            bytes.drop_last()
        } else {
            bytes.update(
                i,
                (b - if bit {
                    two_pow(k as nat)
                } else {
                    0
                }) as u8,
            )
        };
        unpack_bits(shrunk, (n - 1) as nat).push(bit)
    }
}

/// A packed bitmap unpacks back into exactly its bits.
pub proof fn lemma_pack_bits_round_trip(bits: Seq<bool>)
    ensures
        unpack_bits(pack_bits(bits), bits.len()) == bits,
    decreases bits.len(),
{
    if bits.len() == 0 {
        assert(unpack_bits(pack_bits(bits), 0) =~= bits);
    } else {
        let prefix = bits.drop_last();
        let v = bits.last();
        lemma_pack_bits_round_trip(prefix);
        lemma_pack_push(prefix, v);
        assert(prefix.push(v) =~= bits);
        let n = bits.len() as int;
        let k = (n - 1) % 8;
        let i = (n - 1) / 8;
        let p = pack_bits(prefix);
        let p2 = pack_bits(bits);
        lemma_two_pow_bound(k as nat);
        if k == 0 {
            assert(p2 == p.push(
                if v {
                    1u8
                } else {
                    0u8
                },
            ));
            assert(p.len() == i);
            assert(p2[i] as int == if v {
                1int
            } else {
                0int
            });
            assert(p2.drop_last() =~= p);
            assert(unpack_bits(p2, n as nat) =~= bits);
        } else {
            lemma_bits_value_bound(prefix, 8 * i, k as nat);
            assert(p.len() == i + 1);
            assert(p2 == p.update(
                p.len() - 1,
                ((p.last() as int) + if v {
                    two_pow(k as nat)
                } else {
                    0
                }) as u8,
            ));
            let bb = p.last() as int;
            assert(bb == bits_value(prefix, 8 * i, k as nat));
            assert(bb < two_pow(k as nat));
            assert(p2[i] as int == bb + if v {
                two_pow(k as nat)
            } else {
                0int
            });
            assert((p2[i] as int >= two_pow(k as nat)) == v);
            assert(p2.update(
                i,
                (p2[i] as int - if v {
                    two_pow(k as nat)
                } else {
                    0
                }) as u8,
            ) =~= p);
            assert(unpack_bits(p2, n as nat) =~= bits);
        }
    }
}

/// Whether each item holds a value (`true`) or a null (`false`).
pub open spec fn null_bits(items: Seq<Option<Seq<u8>>>) -> Seq<bool> {
    items.map_values(|s: Option<Seq<u8>>| s is Some)
}

/// The payload cell of each item: its signature, or zero bytes for a null.
pub open spec fn cell_bytes(items: Seq<Option<Seq<u8>>>, w: nat) -> Seq<Seq<u8>> {
    items.map_values(
        |s: Option<Seq<u8>>|
            match s {
                Some(b) => b,
                None => zeros(w),
            },
    )
}

/// Round trip of an encoded nullable fixed-width block: the header gives
/// back the run count and the counts; the payload's fixed-width cells and
/// its packed presence bitmap give back every run's signature, nulls
/// included; and expanding those by the counts reproduces exactly the
/// appended value sequence.
pub proof fn lemma_nullable_block_round_trip(m: RleState, w: nat, block: Seq<u8>)
    requires
        rle_wf(m),
        m.counts.len() <= u32::MAX,
        w > 0,
        forall|i: int|
            0 <= i < m.fwd.len() ==> ((#[trigger] m.fwd[i]) matches Some(b) ==> b.len() == w),
        block == spec_u32_to_le_bytes(m.counts.len() as u32) + counts_bytes(m.counts)
            + concat_seqs(cell_bytes(m.fwd, w)) + pack_bits(null_bits(m.fwd)),
    ensures
        spec_u32_from_le_bytes(block.subrange(0, 4)) == m.counts.len(),
        parse_counts(block.subrange(4, 4 + 2 * m.counts.len() as int), m.counts.len())
            == m.counts,
        ({
            let n = m.counts.len() as int;
            let cells_end = 4 + 2 * n + n * w;
            let cells = split_fixed(block.subrange(4 + 2 * n, cells_end), m.counts.len(), w);
            let bits = unpack_bits(
                block.subrange(cells_end, block.len() as int),
                m.counts.len(),
            );
            let recovered = Seq::new(
                m.counts.len(),
                |i: int|
                    if bits[i] {
                        Some(cells[i])
                    } else {
                        None
                    },
            );
            recovered == m.fwd && expand_runs(recovered, m.counts) == rle_items(m)
        }),
{
    lemma_auto_spec_u32_to_from_le_bytes();
    lemma_counts_bytes_len(m.counts);
    lemma_counts_round_trip(m.counts);
    let n = m.counts.len() as int;
    let cells0 = cell_bytes(m.fwd, w);
    assert(forall|i: int| 0 <= i < cells0.len() ==> (#[trigger] cells0[i]).len() == w);
    lemma_concat_fixed_len(cells0, w);
    lemma_split_fixed_round_trip(cells0, w);
    lemma_pack_bits_round_trip(null_bits(m.fwd));
    let cells_end = 4 + 2 * n + n * w;
    assert(block.subrange(0, 4) =~= spec_u32_to_le_bytes(m.counts.len() as u32));
    assert(block.subrange(4, 4 + 2 * n) =~= counts_bytes(m.counts));
    assert(block.subrange(4 + 2 * n, cells_end) =~= concat_seqs(cells0));
    assert(block.subrange(cells_end, block.len() as int) =~= pack_bits(null_bits(m.fwd)));
    let cells = split_fixed(block.subrange(4 + 2 * n, cells_end), m.counts.len(), w);
    let bits = unpack_bits(block.subrange(cells_end, block.len() as int), m.counts.len());
    assert(cells == cells0);
    assert(bits == null_bits(m.fwd));
    let recovered = Seq::new(
        m.counts.len(),
        |i: int|
            if bits[i] {
                Some(cells[i])
            } else {
                None
            },
    );
    assert(recovered =~= m.fwd);
}

/// Byte payload for nullable fixed-width values: one fixed-width cell per
/// row (zeros for a null), then the packed presence bitmap.
pub struct PlainPrimitiveNullableBlockBuilder<T: RLETypeEncode> {
    data: Vec<u8>,
    bitmap: Vec<u8>,
    nbits: usize,
    target_size: usize,
    items: Ghost<Seq<Option<Seq<u8>>>>,
    _phantom: PhantomData<T>,
}

impl<T: RLETypeEncode> PlainPrimitiveNullableBlockBuilder<T> {
    pub fn new(target_size: usize) -> (r: Self)
        requires
            T::spec_width() > 0,
        ensures
            r.wf(),
            r.model() == Seq::<Option<Seq<u8>>>::empty(),
            r.spec_est() == 0,
            r.target() == target_size,
    {
        let r = PlainPrimitiveNullableBlockBuilder {
            data: Vec::new(),
            bitmap: Vec::new(),
            nbits: 0,
            target_size,
            items: Ghost(Seq::empty()),
            _phantom: PhantomData,
        };
        proof {
            assert(r.data@ =~= concat_seqs(cell_bytes(r.items@, T::spec_width())));
            assert(r.bitmap@ =~= pack_bits(null_bits(r.items@)));
        }
        r
    }

    pub closed spec fn target(&self) -> int {
        self.target_size as int
    }
}

impl<T: RLETypeEncode> BlockBuilder<T> for PlainPrimitiveNullableBlockBuilder<T> {
    closed spec fn wf(&self) -> bool {
        &&& T::spec_width() > 0
        &&& forall|i: int|
            0 <= i < self.items@.len() ==> ((#[trigger] self.items@[i]) matches Some(b) ==> b.len()
                == T::spec_width())
        &&& self.data@ == concat_seqs(cell_bytes(self.items@, T::spec_width()))
        &&& self.nbits == self.items@.len()
        &&& self.bitmap@ == pack_bits(null_bits(self.items@))
    }

    closed spec fn model(&self) -> Seq<Option<Seq<u8>>> {
        self.items@
    }

    closed spec fn spec_est(&self) -> nat {
        self.data@.len() + self.bitmap@.len()
    }

    open spec fn accepts(&self, item: Option<Seq<u8>>) -> bool {
        &&& (item matches Some(b) ==> b.len() == T::spec_width())
        &&& self.model().len() + T::spec_width() <= usize::MAX
    }

    closed spec fn spec_should_finish(&self, item: Option<Seq<u8>>) -> bool {
        self.data@.len() > 0 && self.data@.len() + self.bitmap@.len() + T::spec_width()
            > self.target_size
    }

    closed spec fn size_bound_ok(&self, item: Option<Seq<u8>>) -> bool {
        self.data@.len() + self.bitmap@.len() + T::spec_width() <= usize::MAX
    }

    closed spec fn stats(&self) -> Seq<BlockStatistics> {
        Seq::empty()
    }

    open spec fn can_finish(&self) -> bool {
        true
    }

    closed spec fn payload(&self) -> Seq<u8> {
        self.data@ + self.bitmap@
    }

    fn append(&mut self, item: Option<&T>) {
        let ghost w = T::spec_width();
        let is_some: bool = match item {
            Some(_) => true,
            None => false,
        };
        match item {
            Some(x) => {
                let mut bs = x.to_vec_bytes();
                self.data.append(&mut bs);
            },
            None => {
                let mut z = zeros_vec(T::width());
                self.data.append(&mut z);
            },
        }
        proof {
            self.items@ = old(self).items@.push(opt_sig(item));
            assert(cell_bytes(self.items@, w).drop_last() =~= cell_bytes(old(self).items@, w));
            assert(self.data@ =~= concat_seqs(cell_bytes(self.items@, w)));
            assert(null_bits(self.items@) =~= null_bits(old(self).items@).push(is_some));
            lemma_pack_push(null_bits(old(self).items@), is_some);
        }
        let k: usize = self.nbits % 8;
        if k == 0 {
            self.bitmap.push(if is_some {
                1u8
            } else {
                0u8
            });
        } else if is_some {
            let ghost bits = null_bits(old(self).items@);
            let idx: usize = self.bitmap.len() - 1;
            let b: u8 = self.bitmap[idx];
            let m: u8 = bit_mask(k);
            proof {
                let n = self.nbits as int;
                assert(bits.len() == n);
                assert(idx as int == n / 8);
                assert(chunk_width(bits.len(), idx as int) == k as nat);
                lemma_bits_value_bound(bits, 8 * (idx as int), k as nat);
                lemma_two_pow_bound(k as nat);
                assert(b as int == bits_value(bits, 8 * (idx as int), k as nat));
            }
            self.bitmap[idx] = b + m;
            proof {
                assert(self.bitmap@ =~= pack_bits(null_bits(self.items@)));
            }
        }
        self.nbits = self.nbits + 1;
        proof {
            assert(self.bitmap@ =~= pack_bits(null_bits(self.items@)));
            assert(self.model() =~= old(self).model().push(opt_sig(item)));
        }
    }

    fn estimated_size(&self) -> (r: usize) {
        self.data.len() + self.bitmap.len()
    }

    fn should_finish(&self, next_item: &Option<&T>) -> (r: bool) {
        !self.data.is_empty() && self.data.len() + self.bitmap.len() + T::width()
            > self.target_size
    }

    fn get_statistics(&self) -> (r: Vec<BlockStatistics>) {
        Vec::new()
    }

    fn finish(self) -> (r: Vec<u8>) {
        let PlainPrimitiveNullableBlockBuilder { mut data, mut bitmap, .. } = self;
        data.append(&mut bitmap);
        data
    }
}

/// Byte payload for bounded-width character data: each value's bytes padded
/// with zeros to the fixed character width.
pub struct PlainCharBlockBuilder {
    data: Vec<u8>,
    target_size: usize,
    char_width: usize,
    items: Ghost<Seq<Seq<u8>>>,
}

impl PlainCharBlockBuilder {
    pub fn new(target_size: usize, char_width: u64) -> (r: Self)
        requires
            0 < char_width <= usize::MAX,
        ensures
            r.wf(),
            r.model() == Seq::<Option<Seq<u8>>>::empty(),
            r.spec_est() == 0,
            r.target() == target_size,
            r.width() == char_width,
    {
        let r = PlainCharBlockBuilder {
            data: Vec::new(),
            target_size,
            char_width: char_width as usize,
            items: Ghost(Seq::empty()),
        };
        proof {
            assert(r.model() =~= Seq::<Option<Seq<u8>>>::empty());
            assert(r.padded() =~= Seq::<Seq<u8>>::empty());
            assert(r.data@ =~= concat_seqs(r.padded()));
        }
        r
    }

    pub closed spec fn target(&self) -> int {
        self.target_size as int
    }

    pub closed spec fn width(&self) -> int {
        self.char_width as int
    }

    /// The signatures appended so far, before padding.
    pub closed spec fn sigs(&self) -> Seq<Seq<u8>> {
        self.items@
    }

    /// The appended signatures, each padded to the character width; the
    /// payload is their concatenation.
    pub closed spec fn padded(&self) -> Seq<Seq<u8>> {
        self.items@.map_values(|s: Seq<u8>| pad_to(s, self.char_width as nat))
    }
}

impl BlockBuilder<str> for PlainCharBlockBuilder {
    closed spec fn wf(&self) -> bool {
        &&& self.char_width > 0
        &&& forall|i: int|
            0 <= i < self.items@.len() ==> (#[trigger] self.items@[i]).len() <= self.char_width
        &&& self.data@ == concat_seqs(self.padded())
    }

    closed spec fn model(&self) -> Seq<Option<Seq<u8>>> {
        self.items@.map_values(|s: Seq<u8>| Some(s))
    }

    closed spec fn spec_est(&self) -> nat {
        self.data@.len()
    }

    open spec fn accepts(&self, item: Option<Seq<u8>>) -> bool {
        item matches Some(b) && b.len() <= self.width()
    }

    closed spec fn spec_should_finish(&self, item: Option<Seq<u8>>) -> bool {
        self.data@.len() > 0 && self.data@.len() + self.char_width > self.target_size
    }

    closed spec fn size_bound_ok(&self, item: Option<Seq<u8>>) -> bool {
        self.data@.len() + self.char_width <= usize::MAX
    }

    closed spec fn stats(&self) -> Seq<BlockStatistics> {
        Seq::empty()
    }

    open spec fn can_finish(&self) -> bool {
        true
    }

    closed spec fn payload(&self) -> Seq<u8> {
        self.data@
    }

    fn append(&mut self, item: Option<&str>) {
        match item {
            Some(x) => {
                let mut bs = x.to_vec_bytes();
                let pad_len: usize = self.char_width - bs.len();
                self.data.append(&mut bs);
                let mut pad: Vec<u8> = zeros_vec(pad_len);
                self.data.append(&mut pad);
                proof {
                    let s = x.sig();
                    let w = self.char_width as nat;
                    self.items@ = old(self).items@.push(s);
                    assert(self.padded().drop_last() =~= old(self).padded());
                    assert(self.padded().last() =~= pad_to(s, w));
                    assert(self.data@ =~= concat_seqs(self.padded()));
                    assert(self.model() =~= old(self).model().push(opt_sig(item)));
                }
            },
            None => {
                proof {
                    assert(false);
                }
            },
        }
    }

    fn estimated_size(&self) -> (r: usize) {
        self.data.len()
    }

    fn should_finish(&self, next_item: &Option<&str>) -> (r: bool) {
        !self.data.is_empty() && self.data.len() + self.char_width > self.target_size
    }

    fn get_statistics(&self) -> (r: Vec<BlockStatistics>) {
        Vec::new()
    }

    fn finish(self) -> (r: Vec<u8>) {
        self.data
    }
}

/// Byte payload for unbounded variable-width data: each value's bytes behind
/// a 4-byte little-endian length prefix.
pub struct PlainBlobBlockBuilder<T: RLETypeEncode + ?Sized> {
    data: Vec<u8>,
    target_size: usize,
    items: Ghost<Seq<Seq<u8>>>,
    _phantom: PhantomData<T>,
}

impl<T: RLETypeEncode + ?Sized> PlainBlobBlockBuilder<T> {
    pub fn new(target_size: usize) -> (r: Self)
        ensures
            r.wf(),
            r.model() == Seq::<Option<Seq<u8>>>::empty(),
            r.spec_est() == 0,
            r.target() == target_size,
    {
        let r = PlainBlobBlockBuilder {
            data: Vec::new(),
            target_size,
            items: Ghost(Seq::empty()),
            _phantom: PhantomData,
        };
        proof {
            assert(r.model() =~= Seq::<Option<Seq<u8>>>::empty());
            assert(r.prefixed() =~= Seq::<Seq<u8>>::empty());
            assert(r.data@ =~= concat_seqs(r.prefixed()));
        }
        r
    }

    pub closed spec fn target(&self) -> int {
        self.target_size as int
    }

    /// The signatures appended so far, before length prefixing.
    pub closed spec fn sigs(&self) -> Seq<Seq<u8>> {
        self.items@
    }

    /// The appended signatures, each behind its length prefix; the payload is
    /// their concatenation.
    pub closed spec fn prefixed(&self) -> Seq<Seq<u8>> {
        self.items@.map_values(|s: Seq<u8>| len_prefixed(s))
    }
}

impl<T: RLETypeEncode + ?Sized> BlockBuilder<T> for PlainBlobBlockBuilder<T> {
    closed spec fn wf(&self) -> bool {
        &&& forall|i: int|
            0 <= i < self.items@.len() ==> (#[trigger] self.items@[i]).len() <= u32::MAX
        &&& self.data@ == concat_seqs(self.prefixed())
    }

    closed spec fn model(&self) -> Seq<Option<Seq<u8>>> {
        self.items@.map_values(|s: Seq<u8>| Some(s))
    }

    closed spec fn spec_est(&self) -> nat {
        self.data@.len()
    }

    open spec fn accepts(&self, item: Option<Seq<u8>>) -> bool {
        item matches Some(b) && b.len() <= u32::MAX
    }

    closed spec fn spec_should_finish(&self, item: Option<Seq<u8>>) -> bool {
        self.data@.len() > 0 && self.data@.len() + (match item {
            Some(b) => b.len(),
            None => 0,
        }) + 4 > self.target_size
    }

    closed spec fn size_bound_ok(&self, item: Option<Seq<u8>>) -> bool {
        self.data@.len() + (match item {
            Some(b) => b.len(),
            None => 0,
        }) + 4 <= usize::MAX
    }

    closed spec fn stats(&self) -> Seq<BlockStatistics> {
        Seq::empty()
    }

    open spec fn can_finish(&self) -> bool {
        true
    }

    closed spec fn payload(&self) -> Seq<u8> {
        self.data@
    }

    fn append(&mut self, item: Option<&T>) {
        match item {
            Some(x) => {
                let mut bs = match x.to_ref_bytes() {
                    Some(r) => slice_to_vec(r),
                    None => x.to_vec_bytes(),
                };
                let mut lenb = u32_to_le_bytes(bs.len() as u32);
                self.data.append(&mut lenb);
                self.data.append(&mut bs);
                proof {
                    let s = x.sig();
                    self.items@ = old(self).items@.push(s);
                    assert(self.prefixed().drop_last() =~= old(self).prefixed());
                    assert(self.prefixed().last() =~= len_prefixed(s));
                    assert(self.data@ =~= concat_seqs(self.prefixed()));
                    assert(self.model() =~= old(self).model().push(opt_sig(item)));
                }
            },
            None => {
                proof {
                    assert(false);
                }
            },
        }
    }

    fn estimated_size(&self) -> (r: usize) {
        self.data.len()
    }

    fn should_finish(&self, next_item: &Option<&T>) -> (r: bool) {
        let item_len: usize = match *next_item {
            Some(x) => x.len(),
            None => 0,
        };
        !self.data.is_empty() && self.data.len() + item_len + 4 > self.target_size
    }

    fn get_statistics(&self) -> (r: Vec<BlockStatistics>) {
        Vec::new()
    }

    fn finish(self) -> (r: Vec<u8>) {
        self.data
    }
}

/// The nullable builder's payload and estimate as functions of its model:
/// one fixed-width cell per item, then the packed presence bitmap.
pub proof fn lemma_nullable_payload<T: RLETypeEncode>(b: PlainPrimitiveNullableBlockBuilder<T>)
    requires
        b.wf(),
    ensures
        b.payload() == concat_seqs(cell_bytes(b.model(), T::spec_width())) + pack_bits(
            null_bits(b.model()),
        ),
        b.spec_est() == b.payload().len(),
        T::spec_width() > 0,
        forall|i: int|
            0 <= i < b.model().len() ==> ((#[trigger] b.model()[i]) matches Some(s) ==> s.len()
                == T::spec_width()),
{
}

/// The character builder's payload and estimate as functions of its model:
/// the appended signatures, each padded with zeros to the fixed width.
pub proof fn lemma_char_payload(b: PlainCharBlockBuilder)
    requires
        b.wf(),
    ensures
        b.payload() == concat_seqs(
            sig_values(b.model()).map_values(|s: Seq<u8>| pad_to(s, b.width() as nat)),
        ),
        b.spec_est() == b.payload().len(),
        b.width() > 0,
        forall|i: int|
            0 <= i < b.model().len() ==> ((#[trigger] b.model()[i]) matches Some(s) && s.len()
                <= b.width()),
{
    assert(sig_values(b.model()) =~= b.sigs());
    assert(sig_values(b.model()).map_values(|s: Seq<u8>| pad_to(s, b.width() as nat))
        =~= b.padded());
}

/// The blob builder's payload and estimate as functions of its model: the
/// appended signatures, each behind its 4-byte length prefix.
pub proof fn lemma_blob_payload<T: RLETypeEncode + ?Sized>(b: PlainBlobBlockBuilder<T>)
    requires
        b.wf(),
    ensures
        b.payload() == concat_seqs(sig_values(b.model()).map_values(|s: Seq<u8>| len_prefixed(s))),
        b.spec_est() == b.payload().len(),
        forall|i: int|
            0 <= i < b.model().len() ==> ((#[trigger] b.model()[i]) matches Some(s) && s.len()
                <= u32::MAX),
{
    assert(sig_values(b.model()) =~= b.sigs());
    assert(sig_values(b.model()).map_values(|s: Seq<u8>| len_prefixed(s)) =~= b.prefixed());
}

} // verus!
