//! Wrap-aware arithmetic on 32-bit TCP sequence numbers.
use vstd::prelude::*;

verus! {

/// Size of the circular sequence-number space.
pub open spec fn seq_space() -> int {
    0x1_0000_0000
}

/// `a - b` taken modulo 2^32: how far `a` lies ahead of `b`.
pub open spec fn seq_dist(a: u32, b: u32) -> int {
    if a >= b {
        a - b
    } else {
        a - b + seq_space()
    }
}

/// `a - b` read as a signed 32-bit number.
pub open spec fn seq_signed_diff(a: u32, b: u32) -> int {
    let d = seq_dist(a, b);
    if d >= 0x8000_0000 {
        d - seq_space()
    } else {
        d
    }
}

/// The sign of the signed 32-bit difference `a - b`.
pub open spec fn seq_cmp(a: u32, b: u32) -> int {
    let d = seq_signed_diff(a, b);
    if d > 0 {
        1
    } else if d < 0 {
        -1
    } else {
        0
    }
}

/// `a` comes strictly after `b` in the circular order.
pub open spec fn seq_after(a: u32, b: u32) -> bool {
    seq_cmp(a, b) > 0
}

/// `a` comes strictly before `b` in the circular order.
pub open spec fn seq_before(a: u32, b: u32) -> bool {
    seq_cmp(a, b) < 0
}

/// `seq` lies in `[start, start + size)`, the window taken with wrap.
pub open spec fn in_window(seq: u32, start: u32, size: u32) -> bool {
    seq_dist(seq, start) < size
}

/// `a + n` taken modulo 2^32.
pub open spec fn seq_add(a: u32, n: int) -> u32 {
    ((a + n) % seq_space()) as u32
}

/// Compares two sequence numbers with wrap: the result is the sign of the
/// signed 32-bit difference `seq1 - seq2`.
pub fn seq_compare(seq1: u32, seq2: u32) -> (r: i32)
    ensures
        r == seq_cmp(seq1, seq2),
        r == 0 <==> seq1 == seq2,
{
    let d = seq_distance(seq1, seq2);
    if d == 0 {
        0
    } else if d < 0x8000_0000 {
        1
    } else {
        -1
    }
}

/// `a` comes strictly after `b`, with wrap.
pub fn is_seq_after(a: u32, b: u32) -> (r: bool)
    ensures
        r == seq_after(a, b),
{
    seq_compare(a, b) > 0
}

/// `a` comes strictly before `b`, with wrap.
pub fn is_seq_before(a: u32, b: u32) -> (r: bool)
    ensures
        r == seq_before(a, b),
{
    seq_compare(a, b) < 0
}

/// The two sequence numbers are the same.
pub fn is_seq_equal(a: u32, b: u32) -> (r: bool)
    ensures
        r == (a == b),
{
    seq_compare(a, b) == 0
}

/// How far `seq1` lies ahead of `seq2`, modulo 2^32.
pub fn seq_distance(seq1: u32, seq2: u32) -> (r: u32)
    ensures
        r == seq_dist(seq1, seq2),
{
    if seq1 >= seq2 {
        seq1 - seq2
    } else {
        (0xFFFF_FFFFu32 - seq2) + seq1 + 1
    }
}

/// `seq` lies in the window of `window_size` numbers that starts at
/// `window_start`, with wrap.
pub fn is_seq_in_window(seq: u32, window_start: u32, window_size: u32) -> (r: bool)
    ensures
        r == in_window(seq, window_start, window_size),
{
    seq_distance(seq, window_start) < window_size
}

/// Adds a length to a sequence number, modulo 2^32.
pub fn seq_advance(seq: u32, n: u32) -> (r: u32)
    ensures
        r == seq_add(seq, n as int),
{
    if seq as u64 + n as u64 > 0xFFFF_FFFFu64 {
        (seq as u64 + n as u64 - 0x1_0000_0000u64) as u32
    } else {
        seq + n
    }
}

/// Wrap-aware comparison puts 0 just after the largest sequence number.
pub proof fn law_wrap_comparison()
    ensures
        seq_cmp(0, 0xFFFF_FFFF) > 0,
        seq_cmp(0xFFFF_FFFF, 0) < 0,
{
}

} // verus!
