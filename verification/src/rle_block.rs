//! The per-type serialization contract that run detection compares values by,
//! and the decoding of an encoded block into its run-count table and wrapped
//! payload.

use crate::byte_buf::{bytes_as_slice, bytes_from_vec, bytes_view};
use crate::values::{Date, DecimalValue, F64Bits, Interval};
use vstd::bytes::{
    lemma_auto_spec_u32_to_from_le_bytes, lemma_auto_spec_u64_to_from_le_bytes,
    spec_u32_from_le_bytes, spec_u32_to_le_bytes, spec_u64_to_le_bytes, u32_from_le_bytes,
    u32_to_le_bytes, u64_to_le_bytes,
};
use vstd::prelude::*;
use vstd::slice::{slice_subrange, slice_to_vec};
use vstd::string::StringSliceAdditionalSpecFns;

verus! {

/// How run signatures are compared and how the marginal byte cost of a new
/// run is computed.
pub enum RLETypeKind {
    /// Fixed-width scalar type.
    Primitive,
    /// Variable-width byte string, carrying the fixed character width when
    /// the column is bounded.
    Bytes(Option<u64>),
}

/// The serialization contract of one logical type: a byte signature per
/// value, a fixed width (0 meaning variable), and owned or borrowed access to
/// the signature bytes. Runs are maximal spans of equal signatures.
pub trait RLETypeEncode {
    /// The serialized bytes of this value.
    spec fn sig(&self) -> Seq<u8>;

    /// Fixed serialized width of the type; 0 means variable, consult
    /// `self.len()` per value.
    spec fn spec_width() -> nat;

    /// A fixed-width type serializes every value to exactly `spec_width`
    /// bytes.
    proof fn lemma_sig_width(&self)
        ensures
            Self::spec_width() > 0 ==> self.sig().len() == Self::spec_width(),
    ;

    fn width() -> (w: usize)
        ensures
            w == Self::spec_width(),
    ;

    /// The signature as owned bytes; always available.
    fn to_vec_bytes(&self) -> (r: Vec<u8>)
        ensures
            r@ == self.sig(),
    ;

    /// The signature as a borrowed view, where the value naturally holds its
    /// bytes; scalar types may decline.
    fn to_ref_bytes(&self) -> (r: Option<&[u8]>)
        ensures
            r matches Some(b) ==> b@ == self.sig(),
    ;

    /// The byte length of this value's signature.
    fn len(&self) -> (l: usize)
        ensures
            l == self.sig().len(),
    ;
}

impl RLETypeEncode for bool {
    open spec fn sig(&self) -> Seq<u8> {
        seq![if *self { 1u8 } else { 0u8 }]
    }

    open spec fn spec_width() -> nat {
        1
    }

    proof fn lemma_sig_width(&self) {
    }

    fn width() -> usize {
        1
    }

    fn to_vec_bytes(&self) -> (r: Vec<u8>) {
        let mut v: Vec<u8> = Vec::new();
        v.push(if *self { 1u8 } else { 0u8 });
        proof {
            assert(v@ =~= self.sig());
        }
        v
    }

    fn to_ref_bytes(&self) -> Option<&[u8]> {
        None
    }

    fn len(&self) -> usize {
        1
    }
}

impl RLETypeEncode for i32 {
    open spec fn sig(&self) -> Seq<u8> {
        spec_u32_to_le_bytes(*self as u32)
    }

    open spec fn spec_width() -> nat {
        4
    }

    proof fn lemma_sig_width(&self) {
        lemma_auto_spec_u32_to_from_le_bytes();
    }

    fn width() -> usize {
        4
    }

    fn to_vec_bytes(&self) -> (r: Vec<u8>) {
        u32_to_le_bytes(*self as u32)
    }

    fn to_ref_bytes(&self) -> Option<&[u8]> {
        None
    }

    fn len(&self) -> usize {
        proof {
            lemma_auto_spec_u32_to_from_le_bytes();
        }
        4
    }
}

impl RLETypeEncode for Date {
    open spec fn sig(&self) -> Seq<u8> {
        spec_u32_to_le_bytes(self.0 as u32)
    }

    open spec fn spec_width() -> nat {
        4
    }

    proof fn lemma_sig_width(&self) {
        lemma_auto_spec_u32_to_from_le_bytes();
    }

    fn width() -> usize {
        4
    }

    fn to_vec_bytes(&self) -> (r: Vec<u8>) {
        u32_to_le_bytes(self.0 as u32)
    }

    fn to_ref_bytes(&self) -> Option<&[u8]> {
        None
    }

    fn len(&self) -> usize {
        proof {
            lemma_auto_spec_u32_to_from_le_bytes();
        }
        4
    }
}

impl RLETypeEncode for Interval {
    open spec fn sig(&self) -> Seq<u8> {
        spec_u32_to_le_bytes(self.months as u32) + spec_u32_to_le_bytes(self.days as u32)
    }

    open spec fn spec_width() -> nat {
        8
    }

    proof fn lemma_sig_width(&self) {
        lemma_auto_spec_u32_to_from_le_bytes();
    }

    fn width() -> usize {
        8
    }

    fn to_vec_bytes(&self) -> (r: Vec<u8>) {
        let mut v = u32_to_le_bytes(self.months as u32);
        let mut d = u32_to_le_bytes(self.days as u32);
        v.append(&mut d);
        v
    }

    fn to_ref_bytes(&self) -> Option<&[u8]> {
        None
    }

    fn len(&self) -> usize {
        proof {
            lemma_auto_spec_u32_to_from_le_bytes();
        }
        8
    }
}

impl RLETypeEncode for DecimalValue {
    open spec fn sig(&self) -> Seq<u8> {
        spec_u32_to_le_bytes(self.flags) + spec_u32_to_le_bytes(self.lo) + spec_u32_to_le_bytes(
            self.mid,
        ) + spec_u32_to_le_bytes(self.hi)
    }

    open spec fn spec_width() -> nat {
        16
    }

    proof fn lemma_sig_width(&self) {
        lemma_auto_spec_u32_to_from_le_bytes();
    }

    fn width() -> usize {
        16
    }

    fn to_vec_bytes(&self) -> (r: Vec<u8>) {
        let mut v = u32_to_le_bytes(self.flags);
        let mut lo = u32_to_le_bytes(self.lo);
        let mut mid = u32_to_le_bytes(self.mid);
        let mut hi = u32_to_le_bytes(self.hi);
        v.append(&mut lo);
        v.append(&mut mid);
        v.append(&mut hi);
        v
    }

    fn to_ref_bytes(&self) -> Option<&[u8]> {
        None
    }

    fn len(&self) -> usize {
        proof {
            lemma_auto_spec_u32_to_from_le_bytes();
        }
        16
    }
}

impl RLETypeEncode for F64Bits {
    open spec fn sig(&self) -> Seq<u8> {
        spec_u64_to_le_bytes(self.0)
    }

    open spec fn spec_width() -> nat {
        8
    }

    proof fn lemma_sig_width(&self) {
        lemma_auto_spec_u64_to_from_le_bytes();
    }

    fn width() -> usize {
        8
    }

    fn to_vec_bytes(&self) -> (r: Vec<u8>) {
        u64_to_le_bytes(self.0)
    }

    fn to_ref_bytes(&self) -> Option<&[u8]> {
        None
    }

    fn len(&self) -> usize {
        proof {
            lemma_auto_spec_u64_to_from_le_bytes();
        }
        8
    }
}

impl RLETypeEncode for str {
    open spec fn sig(&self) -> Seq<u8> {
        self.spec_bytes()
    }

    open spec fn spec_width() -> nat {
        0
    }

    proof fn lemma_sig_width(&self) {
    }

    fn width() -> usize {
        0
    }

    fn to_vec_bytes(&self) -> (r: Vec<u8>) {
        slice_to_vec(self.as_bytes())
    }

    fn to_ref_bytes(&self) -> Option<&[u8]> {
        Some(self.as_bytes())
    }

    fn len(&self) -> usize {
        let b: &[u8] = self.as_bytes();
        b.len()
    }
}

impl RLETypeEncode for [u8] {
    open spec fn sig(&self) -> Seq<u8> {
        self@
    }

    open spec fn spec_width() -> nat {
        0
    }

    proof fn lemma_sig_width(&self) {
    }

    fn width() -> usize {
        0
    }

    fn to_vec_bytes(&self) -> (r: Vec<u8>) {
        slice_to_vec(self)
    }

    fn to_ref_bytes(&self) -> Option<&[u8]> {
        Some(self)
    }

    fn len(&self) -> usize {
        let b: &[u8] = self;
        b.len()
    }
}

/// Splits an encoded block into its run count, the run-count table bytes and
/// the wrapped payload bytes. The caller owes a buffer long enough for the
/// run count its first four bytes announce; `try_decode_rle_block` checks
/// instead of requiring.
pub fn decode_rle_block(data: bytes::Bytes) -> (r: (usize, bytes::Bytes, bytes::Bytes))
    requires
        bytes_view(data).len() >= 4,
        4 + 2 * (spec_u32_from_le_bytes(bytes_view(data).subrange(0, 4)) as int) <= bytes_view(
            data,
        ).len(),
    ensures
        ({
            let v = bytes_view(data);
            let n = spec_u32_from_le_bytes(v.subrange(0, 4)) as int;
            &&& r.0 == n
            &&& bytes_view(r.1) == v.subrange(4, 4 + 2 * n)
            &&& bytes_view(r.2) == v.subrange(4 + 2 * n, v.len() as int)
        }),
{
    let s: &[u8] = bytes_as_slice(&data);
    let slen: usize = s.len();
    let head: &[u8] = slice_subrange(s, 0, 4);
    let rle_num: usize = u32_from_le_bytes(head) as usize;
    let rle_length: usize = 4 + 2 * rle_num;
    let rle_data: Vec<u8> = slice_to_vec(slice_subrange(s, 4, rle_length));
    let block_data: Vec<u8> = slice_to_vec(slice_subrange(s, rle_length, slen));
    (rle_num, bytes_from_vec(rle_data), bytes_from_vec(block_data))
}

/// `decode_rle_block` with the bounds check made explicit: `None` exactly
/// when the buffer is shorter than its run count demands.
pub fn try_decode_rle_block(data: &bytes::Bytes) -> (r: Option<(usize, bytes::Bytes, bytes::Bytes)>)
    ensures
        ({
            let v = bytes_view(*data);
            &&& (r is Some <==> v.len() >= 4 && 4 + 2 * (spec_u32_from_le_bytes(
                v.subrange(0, 4),
            ) as int) <= v.len())
            &&& (r matches Some(t) ==> {
                let n = spec_u32_from_le_bytes(v.subrange(0, 4)) as int;
                &&& t.0 == n
                &&& bytes_view(t.1) == v.subrange(4, 4 + 2 * n)
                &&& bytes_view(t.2) == v.subrange(4 + 2 * n, v.len() as int)
            })
        }),
{
    let s: &[u8] = bytes_as_slice(data);
    let slen: usize = s.len();
    if slen < 4 {
        return None;
    }
    let head: &[u8] = slice_subrange(s, 0, 4);
    let rle_num: usize = u32_from_le_bytes(head) as usize;
    if rle_num > (slen - 4) / 2 {
        return None;
    }
    let rle_length: usize = 4 + 2 * rle_num;
    let rle_data: Vec<u8> = slice_to_vec(slice_subrange(s, 4, rle_length));
    let block_data: Vec<u8> = slice_to_vec(slice_subrange(s, rle_length, slen));
    Some((rle_num, bytes_from_vec(rle_data), bytes_from_vec(block_data)))
}

} // verus!
