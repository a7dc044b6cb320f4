//! The mathematical model of run-length encoding: an abstract encoder state,
//! the step it takes on each appended value, expansion of runs back into the
//! value sequence, and the byte layout of the run-count table.

use vstd::prelude::*;
use vstd::bytes::{
    lemma_auto_spec_u16_to_from_le_bytes, lemma_auto_spec_u32_to_from_le_bytes,
    spec_u16_from_le_bytes, spec_u16_to_le_bytes, spec_u32_from_le_bytes, spec_u32_to_le_bytes,
};

verus! {

/// Largest repeat count one run can hold: the run-count table stores `u16`s.
pub const RUN_CAP: u16 = 65535;

/// Abstract state of a run-length encoder.
///
/// `counts` is the run-count table built so far, `fwd` the byte signature of
/// the first value of each run (`None` for a null run), in the same order, and
/// `prev` the signature of the current run. `prev` is `None` both before the
/// first run and while the current run is a null run: the two conditions share
/// one sentinel, a deliberate simplification of this layout.
#[verifier::ext_equal]
pub struct RleState {
    pub counts: Seq<u16>,
    pub fwd: Seq<Option<Seq<u8>>>,
    pub prev: Option<Seq<u8>>,
}

/// State of a fresh encoder: no runs yet.
pub open spec fn rle_empty() -> RleState {
    RleState { counts: Seq::empty(), fwd: Seq::empty(), prev: None }
}

/// Well-formedness: one forwarded signature per run, every run holds at least
/// one value, and `prev` records the signature of the last run.
pub open spec fn rle_wf(m: RleState) -> bool {
    &&& m.counts.len() == m.fwd.len()
    &&& forall|i: int| 0 <= i < m.counts.len() ==> 1 <= #[trigger] m.counts[i]
    &&& (m.counts.len() == 0 ==> m.prev is None)
    &&& (m.counts.len() > 0 ==> m.prev == m.fwd.last())
}

/// A value with signature `s` merely extends the current run: a run exists,
/// its signature equals `s`, and its count is below the cap.
pub open spec fn rle_continues(m: RleState, s: Option<Seq<u8>>) -> bool {
    m.counts.len() > 0 && m.prev == s && m.counts.last() < RUN_CAP
}

/// One append of a value with signature `s`: either the last run's count is
/// incremented, or a new run of count 1 starts and `s` is forwarded.
pub open spec fn rle_step(m: RleState, s: Option<Seq<u8>>) -> RleState {
    if rle_continues(m, s) {
        RleState {
            counts: m.counts.update(m.counts.len() - 1, (m.counts.last() + 1) as u16),
            fwd: m.fwd,
            prev: m.prev,
        }
    } else {
        RleState { counts: m.counts.push(1u16), fwd: m.fwd.push(s), prev: s }
    }
}

/// `k` appends of the same signature in a row.
pub open spec fn rle_push_n(m: RleState, s: Option<Seq<u8>>, k: nat) -> RleState
    decreases k,
{
    if k == 0 {
        m
    } else {
        rle_step(rle_push_n(m, s, (k - 1) as nat), s)
    }
}

/// `n` copies of one signature.
pub open spec fn repeat_sig(s: Option<Seq<u8>>, n: nat) -> Seq<Option<Seq<u8>>> {
    Seq::new(n, |i: int| s)
}

/// Expansion of the runs back into the full value sequence: each forwarded
/// signature repeated by its run count, in order.
pub open spec fn expand_runs(fwd: Seq<Option<Seq<u8>>>, counts: Seq<u16>) -> Seq<Option<Seq<u8>>>
    decreases counts.len(),
{
    if counts.len() == 0 || fwd.len() == 0 {
        Seq::empty()
    } else {
        expand_runs(fwd.drop_last(), counts.drop_last()) + repeat_sig(
            fwd.last(),
            counts.last() as nat,
        )
    }
}

/// The sequence of values an encoder state stands for.
pub open spec fn rle_items(m: RleState) -> Seq<Option<Seq<u8>>> {
    expand_runs(m.fwd, m.counts)
}

pub proof fn lemma_rle_step_wf(m: RleState, s: Option<Seq<u8>>)
    requires
        rle_wf(m),
    ensures
        rle_wf(rle_step(m, s)),
{
}

/// Appending one value appends exactly that value to the expansion: the run
/// table loses no value and invents none.
pub proof fn lemma_rle_step_items(m: RleState, s: Option<Seq<u8>>)
    requires
        rle_wf(m),
    ensures
        rle_items(rle_step(m, s)) == rle_items(m).push(s),
{
    let m2 = rle_step(m, s);
    if rle_continues(m, s) {
        let n = m.counts.len();
        assert(m2.counts.drop_last() =~= m.counts.drop_last());
        assert(m2.fwd =~= m.fwd);
        let c: u16 = m.counts.last();
        assert(repeat_sig(s, (c + 1) as nat) =~= repeat_sig(s, c as nat).push(s));
        assert(m.fwd.last() == s);
        assert(rle_items(m2) =~= rle_items(m).push(s));
    } else {
        assert(m2.fwd.drop_last() =~= m.fwd);
        assert(m2.counts.drop_last() =~= m.counts);
        assert(repeat_sig(s, 1nat) =~= Seq::empty().push(s));
        assert(rle_items(m2) =~= rle_items(m).push(s));
    }
}

/// Run merging: from a fresh encoder, appending one value `k` times in a row
/// (null or not) yields a single run of count `k` while `k` stays within the
/// run cap; the appends past the cap open exactly one further run (for `k` up
/// to twice the cap).
pub proof fn lemma_run_merging(s: Option<Seq<u8>>, k: nat)
    requires
        1 <= k <= 2 * RUN_CAP,
    ensures
        rle_wf(rle_push_n(rle_empty(), s, k)),
        rle_push_n(rle_empty(), s, k).prev == s,
        k <= RUN_CAP ==> rle_push_n(rle_empty(), s, k).counts == seq![k as u16]
            && rle_push_n(rle_empty(), s, k).fwd == seq![s],
        k > RUN_CAP ==> rle_push_n(rle_empty(), s, k).counts == seq![
            RUN_CAP,
            (k - RUN_CAP) as u16,
        ] && rle_push_n(rle_empty(), s, k).fwd == seq![s, s],
    decreases k,
{
    if k == 1 {
        let m = rle_push_n(rle_empty(), s, 1);
        assert(m.counts =~= seq![1u16]);
        assert(m.fwd =~= seq![s]);
    } else {
        lemma_run_merging(s, (k - 1) as nat);
        let m1 = rle_push_n(rle_empty(), s, (k - 1) as nat);
        let m = rle_step(m1, s);
        if k <= RUN_CAP {
            assert(m1.counts == seq![(k - 1) as u16]);
            assert(m1.counts.last() == (k - 1) as u16);
            assert(rle_continues(m1, s));
            assert(m.counts =~= seq![k as u16]);
        } else if k == RUN_CAP + 1 {
            assert(m1.counts == seq![RUN_CAP]);
            assert(m1.counts.last() == RUN_CAP);
            assert(!rle_continues(m1, s));
            assert(m.counts =~= seq![RUN_CAP, 1u16]);
            assert(m.fwd =~= seq![s, s]);
        } else {
            assert(m1.counts == seq![RUN_CAP, (k - 1 - RUN_CAP) as u16]);
            assert(m1.counts.last() == (k - 1 - RUN_CAP) as u16);
            assert(rle_continues(m1, s));
            assert(m.counts =~= seq![RUN_CAP, (k - RUN_CAP) as u16]);
            assert(m.fwd =~= seq![s, s]);
        }
    }
}

/// The run-count table as bytes: each count as two little-endian bytes, in
/// run order.
pub open spec fn counts_bytes(counts: Seq<u16>) -> Seq<u8>
    decreases counts.len(),
{
    if counts.len() == 0 {
        Seq::empty()
    } else {
        counts_bytes(counts.drop_last()) + spec_u16_to_le_bytes(counts.last())
    }
}

pub proof fn lemma_counts_bytes_len(counts: Seq<u16>)
    ensures
        counts_bytes(counts).len() == 2 * counts.len(),
    decreases counts.len(),
{
    lemma_auto_spec_u16_to_from_le_bytes();
    if counts.len() > 0 {
        lemma_counts_bytes_len(counts.drop_last());
    }
}

/// Reading the run-count table back: `n` little-endian `u16`s.
pub open spec fn parse_counts(b: Seq<u8>, n: nat) -> Seq<u16> {
    Seq::new(n, |i: int| spec_u16_from_le_bytes(b.subrange(2 * i, 2 * i + 2)))
}

/// The run-count table written by the encoder parses back to the same counts.
pub proof fn lemma_counts_round_trip(counts: Seq<u16>)
    ensures
        parse_counts(counts_bytes(counts), counts.len()) == counts,
    decreases counts.len(),
{
    lemma_auto_spec_u16_to_from_le_bytes();
    lemma_counts_bytes_len(counts);
    if counts.len() > 0 {
        let prefix = counts.drop_last();
        lemma_counts_round_trip(prefix);
        lemma_counts_bytes_len(prefix);
        let b = counts_bytes(counts);
        let pb = counts_bytes(prefix);
        assert forall|i: int| 0 <= i < counts.len() implies parse_counts(b, counts.len())[i]
            == counts[i] by {
            if i < counts.len() - 1 {
                assert(b.subrange(2 * i, 2 * i + 2) =~= pb.subrange(2 * i, 2 * i + 2));
                assert(parse_counts(pb, prefix.len())[i] == prefix[i]);
            } else {
                assert(b.subrange(2 * i, 2 * i + 2) =~= spec_u16_to_le_bytes(counts.last()));
            }
        }
        assert(parse_counts(b, counts.len()) =~= counts);
    } else {
        assert(parse_counts(counts_bytes(counts), 0) =~= counts);
    }
}

/// Concatenation of byte strings, in order.
pub open spec fn concat_seqs(items: Seq<Seq<u8>>) -> Seq<u8>
    decreases items.len(),
{
    if items.len() == 0 {
        Seq::empty()
    } else {
        concat_seqs(items.drop_last()) + items.last()
    }
}

pub proof fn lemma_concat_fixed_len(items: Seq<Seq<u8>>, w: nat)
    requires
        forall|i: int| 0 <= i < items.len() ==> (#[trigger] items[i]).len() == w,
    ensures
        concat_seqs(items).len() == items.len() * w,
    decreases items.len(),
{
    if items.len() > 0 {
        lemma_concat_fixed_len(items.drop_last(), w);
        assert(items.drop_last().len() * w + w == items.len() * w) by (nonlinear_arith)
            requires items.drop_last().len() + 1 == items.len();
    }
}

/// Cutting a buffer into `n` pieces of `w` bytes each.
pub open spec fn split_fixed(b: Seq<u8>, n: nat, w: nat) -> Seq<Seq<u8>> {
    Seq::new(n, |i: int| b.subrange(i * w, i * w + w))
}

/// `n` zero bytes.
pub open spec fn zeros(n: nat) -> Seq<u8> {
    Seq::new(n, |i: int| 0u8)
}

/// `s` padded with zero bytes up to width `w`.
pub open spec fn pad_to(s: Seq<u8>, w: nat) -> Seq<u8> {
    s + zeros((w - s.len()) as nat)
}

/// `s` with its length prefixed as a little-endian `u32`.
pub open spec fn len_prefixed(s: Seq<u8>) -> Seq<u8> {
    spec_u32_to_le_bytes(s.len() as u32) + s
}

/// Front decomposition of a concatenation.
pub proof fn lemma_concat_first(items: Seq<Seq<u8>>)
    requires
        items.len() > 0,
    ensures
        concat_seqs(items) == items.first() + concat_seqs(items.drop_first()),
    decreases items.len(),
{
    if items.len() == 1 {
        assert(items.drop_last() =~= Seq::<Seq<u8>>::empty());
        assert(items.drop_first() =~= Seq::<Seq<u8>>::empty());
        assert(concat_seqs(items) =~= items.first() + concat_seqs(items.drop_first()));
    } else {
        lemma_concat_first(items.drop_last());
        assert(items.drop_last().drop_first() =~= items.drop_first().drop_last());
        assert(items.drop_first().last() == items.last());
        assert(items.drop_last().first() == items.first());
        assert(concat_seqs(items) =~= items.first() + concat_seqs(items.drop_first()));
    }
}

/// Reading a length-prefixed payload back: `n` values, each behind its
/// 4-byte little-endian length.
pub open spec fn parse_prefixed(p: Seq<u8>, n: nat) -> Seq<Seq<u8>>
    decreases n,
{
    if n == 0 {
        Seq::empty()
    } else {
        let l = spec_u32_from_le_bytes(p.subrange(0, 4)) as int;
        seq![p.subrange(4, 4 + l)] + parse_prefixed(p.skip(4 + l), (n - 1) as nat)
    }
}

/// A concatenation of length-prefixed byte strings parses back into exactly
/// those strings.
pub proof fn lemma_prefixed_round_trip(items: Seq<Seq<u8>>)
    requires
        forall|i: int| 0 <= i < items.len() ==> (#[trigger] items[i]).len() <= u32::MAX,
    ensures
        parse_prefixed(
            concat_seqs(items.map_values(|s: Seq<u8>| len_prefixed(s))),
            items.len(),
        ) == items,
    decreases items.len(),
{
    lemma_auto_spec_u32_to_from_le_bytes();
    let pref = items.map_values(|s: Seq<u8>| len_prefixed(s));
    if items.len() > 0 {
        lemma_concat_first(pref);
        let p = concat_seqs(pref);
        let first = items.first();
        let rest = concat_seqs(pref.drop_first());
        assert(pref.first() == len_prefixed(first));
        assert(p.subrange(0, 4) =~= spec_u32_to_le_bytes(first.len() as u32));
        assert(p.subrange(4, 4 + first.len() as int) =~= first);
        assert(p.skip(4 + first.len() as int) =~= rest);
        assert(pref.drop_first() =~= items.drop_first().map_values(
            |s: Seq<u8>| len_prefixed(s),
        ));
        lemma_prefixed_round_trip(items.drop_first());
        assert(parse_prefixed(p, items.len()) =~= items);
    } else {
        assert(parse_prefixed(concat_seqs(pref), 0) =~= items);
    }
}

/// Round trip of an encoded variable-width block without nulls: the header
/// gives back the run count and the counts, and the length-prefixed payload
/// parses back into the forwarded signatures, whose expansion by the counts
/// is exactly the appended value sequence.
pub proof fn lemma_blob_block_round_trip(m: RleState, block: Seq<u8>)
    requires
        rle_wf(m),
        m.counts.len() <= u32::MAX,
        forall|i: int|
            0 <= i < m.fwd.len() ==> ((#[trigger] m.fwd[i]) matches Some(b) && b.len()
                <= u32::MAX),
        block == spec_u32_to_le_bytes(m.counts.len() as u32) + counts_bytes(m.counts)
            + concat_seqs(sig_values(m.fwd).map_values(|s: Seq<u8>| len_prefixed(s))),
    ensures
        spec_u32_from_le_bytes(block.subrange(0, 4)) == m.counts.len(),
        parse_counts(block.subrange(4, 4 + 2 * m.counts.len() as int), m.counts.len())
            == m.counts,
        parse_prefixed(
            block.subrange(4 + 2 * m.counts.len() as int, block.len() as int),
            m.counts.len(),
        ) == sig_values(m.fwd),
        expand_runs(
            parse_prefixed(
                block.subrange(4 + 2 * m.counts.len() as int, block.len() as int),
                m.counts.len(),
            ).map_values(|s: Seq<u8>| Some(s)),
            m.counts,
        ) == rle_items(m),
{
    lemma_auto_spec_u32_to_from_le_bytes();
    lemma_counts_bytes_len(m.counts);
    lemma_counts_round_trip(m.counts);
    let vals = sig_values(m.fwd);
    lemma_prefixed_round_trip(vals);
    let n = m.counts.len() as int;
    assert(block.subrange(0, 4) =~= spec_u32_to_le_bytes(m.counts.len() as u32));
    assert(block.subrange(4, 4 + 2 * n) =~= counts_bytes(m.counts));
    assert(block.subrange(4 + 2 * n, block.len() as int) =~= concat_seqs(
        vals.map_values(|s: Seq<u8>| len_prefixed(s)),
    ));
    assert(vals.map_values(|s: Seq<u8>| Some(s)) =~= m.fwd);
}

/// Trailing zero bytes removed.
pub open spec fn strip_trailing_zeros(s: Seq<u8>) -> Seq<u8>
    decreases s.len(),
{
    if s.len() == 0 || s.last() != 0 {
        s
    } else {
        strip_trailing_zeros(s.drop_last())
    }
}

/// Stripping the zero padding gives the value back, provided the value does
/// not itself end in a zero byte.
pub proof fn lemma_strip_pad(s: Seq<u8>, w: nat)
    requires
        s.len() <= w,
        s.len() > 0 ==> s.last() != 0,
    ensures
        strip_trailing_zeros(pad_to(s, w)) == s,
    decreases w,
{
    if s.len() == w {
        assert(pad_to(s, w) =~= s);
    } else {
        assert(pad_to(s, w).len() == w);
        assert(pad_to(s, w).last() == 0);
        assert(pad_to(s, w).drop_last() =~= pad_to(s, (w - 1) as nat));
        lemma_strip_pad(s, (w - 1) as nat);
    }
}

/// Round trip of an encoded bounded-width character block: the header gives
/// back the run count and counts, and the zero-padded cells give back the
/// forwarded signatures, for values that do not end in a zero byte (zero
/// bytes pad the cells, so a trailing zero cannot be told from padding).
pub proof fn lemma_char_block_round_trip(m: RleState, w: nat, block: Seq<u8>)
    requires
        rle_wf(m),
        m.counts.len() <= u32::MAX,
        w > 0,
        forall|i: int|
            0 <= i < m.fwd.len() ==> ((#[trigger] m.fwd[i]) matches Some(b) && b.len() <= w && (
            b.len() > 0 ==> b.last() != 0)),
        block == spec_u32_to_le_bytes(m.counts.len() as u32) + counts_bytes(m.counts)
            + concat_seqs(sig_values(m.fwd).map_values(|s: Seq<u8>| pad_to(s, w))),
    ensures
        spec_u32_from_le_bytes(block.subrange(0, 4)) == m.counts.len(),
        parse_counts(block.subrange(4, 4 + 2 * m.counts.len() as int), m.counts.len())
            == m.counts,
        split_fixed(
            block.subrange(4 + 2 * m.counts.len() as int, block.len() as int),
            m.counts.len(),
            w,
        ).map_values(|c: Seq<u8>| strip_trailing_zeros(c)) == sig_values(m.fwd),
        expand_runs(
            split_fixed(
                block.subrange(4 + 2 * m.counts.len() as int, block.len() as int),
                m.counts.len(),
                w,
            ).map_values(|c: Seq<u8>| Some(strip_trailing_zeros(c))),
            m.counts,
        ) == rle_items(m),
{
    lemma_auto_spec_u32_to_from_le_bytes();
    lemma_counts_bytes_len(m.counts);
    lemma_counts_round_trip(m.counts);
    let vals = sig_values(m.fwd);
    let padded = vals.map_values(|s: Seq<u8>| pad_to(s, w));
    assert(forall|i: int| 0 <= i < padded.len() ==> (#[trigger] padded[i]).len() == w);
    lemma_concat_fixed_len(padded, w);
    lemma_split_fixed_round_trip(padded, w);
    let n = m.counts.len() as int;
    assert(block.subrange(0, 4) =~= spec_u32_to_le_bytes(m.counts.len() as u32));
    assert(block.subrange(4, 4 + 2 * n) =~= counts_bytes(m.counts));
    assert(block.subrange(4 + 2 * n, block.len() as int) =~= concat_seqs(padded));
    let cells = split_fixed(block.subrange(4 + 2 * n, block.len() as int), m.counts.len(), w);
    assert(cells == padded);
    assert forall|i: int| 0 <= i < n implies cells.map_values(
        |c: Seq<u8>| strip_trailing_zeros(c),
    )[i] == vals[i] by {
        lemma_strip_pad(vals[i], w);
    }
    assert(cells.map_values(|c: Seq<u8>| strip_trailing_zeros(c)) =~= vals);
    assert(cells.map_values(|c: Seq<u8>| Some(strip_trailing_zeros(c))) =~= m.fwd);
}

/// The forwarded signatures of a run table whose runs all carry values,
/// unwrapped.
pub open spec fn sig_values(fwd: Seq<Option<Seq<u8>>>) -> Seq<Seq<u8>> {
    fwd.map_values(|s: Option<Seq<u8>>| s.unwrap())
}

/// Round trip of an encoded fixed-width block without nulls: the block's
/// first four bytes give back the run count, the run-count table parses back
/// to the counts, the payload splits back into the forwarded signatures, and
/// expanding those by the counts reproduces exactly the appended value
/// sequence.
pub proof fn lemma_fixed_block_round_trip(m: RleState, w: nat, block: Seq<u8>)
    requires
        rle_wf(m),
        m.counts.len() <= u32::MAX,
        w > 0,
        forall|i: int|
            0 <= i < m.fwd.len() ==> ((#[trigger] m.fwd[i]) matches Some(b) && b.len() == w),
        block == spec_u32_to_le_bytes(m.counts.len() as u32) + counts_bytes(m.counts)
            + concat_seqs(sig_values(m.fwd)),
    ensures
        block.len() == 4 + 2 * m.counts.len() + m.counts.len() * w,
        spec_u32_from_le_bytes(block.subrange(0, 4)) == m.counts.len(),
        parse_counts(block.subrange(4, 4 + 2 * m.counts.len() as int), m.counts.len()) == m.counts,
        split_fixed(
            block.subrange(4 + 2 * m.counts.len() as int, block.len() as int),
            m.counts.len(),
            w,
        ) == sig_values(m.fwd),
        expand_runs(
            split_fixed(
                block.subrange(4 + 2 * m.counts.len() as int, block.len() as int),
                m.counts.len(),
                w,
            ).map_values(|s: Seq<u8>| Some(s)),
            m.counts,
        ) == rle_items(m),
{
    lemma_auto_spec_u32_to_from_le_bytes();
    lemma_counts_bytes_len(m.counts);
    lemma_counts_round_trip(m.counts);
    let vals = sig_values(m.fwd);
    assert(vals.len() == m.counts.len());
    assert(forall|i: int| 0 <= i < vals.len() ==> (#[trigger] vals[i]).len() == w);
    lemma_concat_fixed_len(vals, w);
    lemma_split_fixed_round_trip(vals, w);
    let n = m.counts.len() as int;
    assert(block.subrange(0, 4) =~= spec_u32_to_le_bytes(m.counts.len() as u32));
    assert(block.subrange(4, 4 + 2 * n) =~= counts_bytes(m.counts));
    assert(block.subrange(4 + 2 * n, block.len() as int) =~= concat_seqs(vals));
    assert(vals.map_values(|s: Seq<u8>| Some(s)) =~= m.fwd);
}

/// A concatenation of equal-width byte strings splits back into exactly those
/// strings.
pub proof fn lemma_split_fixed_round_trip(items: Seq<Seq<u8>>, w: nat)
    requires
        forall|i: int| 0 <= i < items.len() ==> (#[trigger] items[i]).len() == w,
    ensures
        split_fixed(concat_seqs(items), items.len(), w) == items,
    decreases items.len(),
{
    lemma_concat_fixed_len(items, w);
    if items.len() > 0 {
        let prefix = items.drop_last();
        lemma_split_fixed_round_trip(prefix, w);
        lemma_concat_fixed_len(prefix, w);
        let b = concat_seqs(items);
        let pb = concat_seqs(prefix);
        let n = items.len() as int;
        assert forall|i: int| 0 <= i < n implies split_fixed(b, items.len(), w)[i]
            == items[i] by {
            assert(0 <= i * w && i * w + w <= n * w) by (nonlinear_arith)
                requires 0 <= i < n, w >= 0;
            if i < n - 1 {
                assert(i * w + w <= (n - 1) * w) by (nonlinear_arith)
                    requires 0 <= i <= n - 2, w >= 0;
                assert(b.subrange(i * w, i * w + w) =~= pb.subrange(i * w, i * w + w));
                assert(split_fixed(pb, prefix.len(), w)[i] == prefix[i]);
            } else {
                assert((n - 1) * w + w == n * w) by (nonlinear_arith);
                assert(b.subrange(i * w, i * w + w) =~= items.last());
            }
        }
        assert(split_fixed(b, items.len(), w) =~= items);
    } else {
        assert(split_fixed(concat_seqs(items), 0, w) =~= items);
    }
}

} // verus!
