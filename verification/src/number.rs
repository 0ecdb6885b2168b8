//! What every number representation shares: the vocabulary of arithmetic
//! operations and the monotone steps of scrub editing.
use crate::value::CellId;
use core::cmp::Ordering;
use vstd::prelude::*;
use vstd::std_specs::cmp::PartialOrdSpec;

verus! {

pub const ID: CellId = 0xc46d010325d3a1ec0f2a84dd3a9570ae;

pub const LEFT: CellId = 0x764f6afe17ba14e81f5ab61204be0bec;

pub const RIGHT: CellId = 0x4f53ff25390f58472d31a6142644dec2;

pub const OPERAND: CellId = 0x50a20d15e4ae56be51b882de9d58c676;

/// The larger of two values; `left` unless `right` compares greater, so an
/// incomparable `right` never replaces `left`.
pub fn partial_max<N: Copy + PartialOrd>(left: N, right: N) -> (r: N)
    ensures
        N::obeys_partial_cmp_spec() ==> r == if right.partial_cmp_spec(&left) == Some(
            Ordering::Greater,
        ) {
            right
        } else {
            left
        },
{
    if right > left {
        right
    } else {
        left
    }
}

/// The smaller of two values; `left` unless `right` compares less, so an
/// incomparable `right` never replaces `left`.
pub fn partial_min<N: Copy + PartialOrd>(left: N, right: N) -> (r: N)
    ensures
        N::obeys_partial_cmp_spec() ==> r == if right.partial_cmp_spec(&left) == Some(
            Ordering::Less,
        ) {
            right
        } else {
            left
        },
{
    if right < left {
        right
    } else {
        left
    }
}

/// For integers the larger value is the maximum and the smaller the minimum.
pub proof fn lemma_integer_extremes(left: u64, right: u64)
    ensures
        (if right.partial_cmp_spec(&left) == Some(Ordering::Greater) {
            right
        } else {
            left
        }) == if left >= right {
            left
        } else {
            right
        },
        (if right.partial_cmp_spec(&left) == Some(Ordering::Less) {
            right
        } else {
            left
        }) == if left <= right {
            left
        } else {
            right
        },
{
}

} // verus!
