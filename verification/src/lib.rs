//! A user-space packet-processing dataplane.
//!
//! The crate builds a directed graph of apps connected by unidirectional
//! links and drives it through repeated breaths (inhale/exhale cycles) that
//! move fixed-capacity packet buffers from a bounded freelist, through the
//! apps, and back.
//!
//! This root module holds small byte and integer utilities shared by the
//! rest of the crate.

use vstd::prelude::*;

pub mod basic_apps;
pub mod config;
pub mod engine;
pub mod ixgbe;
pub mod link;
pub mod packet;

verus! {

/// The result of rounding `value` up to a multiple of `size`.
pub open spec fn spec_align(value: int, size: int) -> int {
    if value % size == 0 {
        value
    } else {
        value + size - value % size
    }
}

/// Increase `value` to be a multiple of `size` (if it is not already).
pub fn align(value: usize, size: usize) -> (r: usize)
    requires
        size > 0,
        spec_align(value as int, size as int) <= usize::MAX,
    ensures
        r == spec_align(value as int, size as int),
        r % size == 0,
        value <= r < value + size,
{
    if value % size == 0 {
        value
    } else {
        let r = value + (size - value % size);
        assert(r % size == 0) by {
            vstd::arithmetic::div_mod::lemma_fundamental_div_mod(value as int, size as int);
            assert(r == size * (value / size + 1)) by {
                assert(size * (value / size + 1) == size * (value / size) + size)
                    by (nonlinear_arith);
            }
            vstd::arithmetic::div_mod::lemma_mod_multiples_basic(
                value / size + 1,
                size as int,
            );
        }
        r
    }
}

/// The bytes of a 32-bit value reversed, as on conversion between host
/// (little-endian) and network byte order.
pub open spec fn spec_swap_u32(x: u32) -> u32 {
    ((x & 0xff) << 24 | (x & 0xff00) << 8 | (x & 0xff_0000) >> 8 | (x & 0xff00_0000) >> 24) as u32
}

/// The bytes of a 16-bit value reversed.
pub open spec fn spec_swap_u16(x: u16) -> u16 {
    ((x & 0xff) << 8 | (x & 0xff00) >> 8) as u16
}

/// Convert a 32-bit value from host to network byte order.
pub fn htonl(l: u32) -> (r: u32)
    ensures
        r == spec_swap_u32(l),
{
    (l & 0xff) << 24 | (l & 0xff00) << 8 | (l & 0xff_0000) >> 8 | (l & 0xff00_0000) >> 24
}

/// Convert a 32-bit value from network to host byte order.
pub fn ntohl(l: u32) -> (r: u32)
    ensures
        r == spec_swap_u32(l),
{
    htonl(l)
}

/// Convert a 16-bit value from host to network byte order.
pub fn htons(s: u16) -> (r: u16)
    ensures
        r == spec_swap_u16(s),
{
    (s & 0xff) << 8 | (s & 0xff00) >> 8
}

/// Convert a 16-bit value from network to host byte order.
pub fn ntohs(s: u16) -> (r: u16)
    ensures
        r == spec_swap_u16(s),
{
    htons(s)
}

/// Set the first `min(len, dst.len())` bytes of `dst` to `val`; the rest of
/// `dst` is unchanged.
pub fn fill(dst: &mut Vec<u8>, len: usize, val: u8)
    ensures
        final(dst)@.len() == old(dst)@.len(),
        forall|i: int|
            0 <= i < len && i < old(dst)@.len() ==> final(dst)@[i] == val,
        forall|i: int|
            len <= i < old(dst)@.len() ==> final(dst)@[i] == old(dst)@[i],
{
    let n = if len < dst.len() {
        len
    } else {
        dst.len()
    };
    let mut i: usize = 0;
    while i < n
        invariant
            i <= n,
            n <= dst@.len(),
            n == if len < old(dst)@.len() {
                len as int
            } else {
                old(dst)@.len() as int
            },
            dst@.len() == old(dst)@.len(),
            forall|k: int| 0 <= k < i ==> dst@[k] == val,
            forall|k: int| i <= k < old(dst)@.len() ==> dst@[k] == old(dst)@[k],
        decreases n - i,
    {
        dst.set(i, val);
        i = i + 1;
    }
}

/// Copy the first `min(len, src.len(), dst.len())` bytes of `src` into
/// `dst`; the rest of `dst` is unchanged.
pub fn copy(dst: &mut Vec<u8>, src: &Vec<u8>, len: usize)
    ensures
        final(dst)@.len() == old(dst)@.len(),
        forall|i: int|
            0 <= i < len && i < src@.len() && i < old(dst)@.len() ==> final(dst)@[i] == src@[i],
        forall|i: int|
            0 <= i < old(dst)@.len() && !(i < len && i < src@.len()) ==> final(dst)@[i] == old(
                dst,
            )@[i],
{
    let mut n = if len < src.len() {
        len
    } else {
        src.len()
    };
    if dst.len() < n {
        n = dst.len();
    }
    let mut i: usize = 0;
    while i < n
        invariant
            i <= n,
            n <= dst@.len(),
            n <= src@.len(),
            n == if len < src@.len() {
                if len < old(dst)@.len() {
                    len as int
                } else {
                    old(dst)@.len() as int
                }
            } else {
                if src@.len() < old(dst)@.len() {
                    src@.len() as int
                } else {
                    old(dst)@.len() as int
                }
            },
            dst@.len() == old(dst)@.len(),
            forall|k: int| 0 <= k < i ==> dst@[k] == src@[k],
            forall|k: int| i <= k < old(dst)@.len() ==> dst@[k] == old(dst)@[k],
        decreases n - i,
    {
        dst.set(i, src[i]);
        i = i + 1;
    }
}

} // verus!
