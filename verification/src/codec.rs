//! Little-endian integers.

use vstd::arithmetic::power::{lemma_pow0, lemma_pow1, lemma_pow_adds, pow};
use vstd::prelude::*;

verus! {

/// The `width` lowest bytes of `n`, lowest first.
pub open spec fn le_bytes(n: nat, width: nat) -> Seq<u8>
    decreases width,
{
    if width == 0 {
        Seq::empty()
    } else {
        seq![(n % 256) as u8] + le_bytes(n / 256, (width - 1) as nat)
    }
}

/// The number whose bytes are `s`, lowest first.
pub open spec fn le_value(s: Seq<u8>) -> nat
    decreases s.len(),
{
    if s.len() == 0 {
        0
    } else {
        s[0] as nat + 256 * le_value(s.skip(1))
    }
}

/// 64-bit two's complement.
pub open spec fn unsigned(x: i64) -> nat {
    if x >= 0 {
        x as nat
    } else {
        (x + 0x1_0000_0000_0000_0000) as nat
    }
}

/// 64-bit two's complement, read back.
pub open spec fn signed(n: nat) -> int {
    if n < 0x8000_0000_0000_0000 {
        n as int
    } else {
        n - 0x1_0000_0000_0000_0000
    }
}

pub proof fn lemma_le_bytes_len(n: nat, width: nat)
    ensures
        le_bytes(n, width).len() == width,
    decreases width,
{
    if width > 0 {
        lemma_le_bytes_len(n / 256, (width - 1) as nat);
    }
}

/// What was written reads back, but for what the width cuts off.
pub proof fn lemma_le_round_trip(n: nat, width: nat)
    requires
        n < pow(256, width),
    ensures
        le_value(le_bytes(n, width)) == n,
    decreases width,
{
    if width == 0 {
        lemma_pow0(256);
    } else {
        lemma_pow1(256);
        lemma_pow_adds(256, 1, (width - 1) as nat);
        assert(n / 256 < pow(256, (width - 1) as nat)) by (nonlinear_arith)
            requires
                n < 256 * pow(256, (width - 1) as nat),
        ;
        lemma_le_round_trip(n / 256, (width - 1) as nat);
        let s = le_bytes(n, width);
        assert(s.skip(1) =~= le_bytes(n / 256, (width - 1) as nat));
    }
}

pub proof fn lemma_le_value_bound(s: Seq<u8>)
    ensures
        le_value(s) < pow(256, s.len()),
    decreases s.len(),
{
    if s.len() == 0 {
        lemma_pow0(256);
    } else {
        lemma_le_value_bound(s.skip(1));
        lemma_pow1(256);
        lemma_pow_adds(256, 1, (s.len() - 1) as nat);
    }
}

pub proof fn lemma_pow256()
    ensures
        pow(256, 4) == 0x1_0000_0000,
        pow(256, 8) == 0x1_0000_0000_0000_0000,
{
    lemma_pow1(256);
    lemma_pow_adds(256, 1, 1);
    assert(pow(256, 2) == 0x1_0000);
    lemma_pow_adds(256, 2, 2);
    assert(pow(256, 4) == 0x1_0000 * 0x1_0000);
    lemma_pow_adds(256, 4, 4);
    assert(pow(256, 8) == 0x1_0000_0000 * 0x1_0000_0000);
}

/// Appends the low `width` bytes of `n`.
fn put_le(out: &mut Vec<u8>, n: u64, width: usize)
    ensures
        final(out)@ == old(out)@ + le_bytes(n as nat, width as nat),
{
    let mut rest: u64 = n;
    let mut left: usize = width;
    while left > 0
        invariant
            left <= width,
            out@ + le_bytes(rest as nat, left as nat) == old(out)@ + le_bytes(
                n as nat,
                width as nat,
            ),
        decreases left,
    {
        let ghost before = out@;
        out.push((rest % 256) as u8);
        proof {
            assert(out@ + le_bytes((rest / 256) as nat, (left - 1) as nat) =~= before + le_bytes(
                rest as nat,
                left as nat,
            ));
        }
        rest = rest / 256;
        left -= 1;
    }
    assert(out@ + le_bytes(rest as nat, 0) =~= out@);
}

pub fn put_u32_le(out: &mut Vec<u8>, n: u32)
    ensures
        final(out)@ == old(out)@ + le_bytes(n as nat, 4),
{
    put_le(out, n as u64, 4);
}

pub fn put_i64_le(out: &mut Vec<u8>, x: i64)
    ensures
        final(out)@ == old(out)@ + le_bytes(unsigned(x), 8),
{
    let n: u64 = if x >= 0 {
        x as u64
    } else {
        (x as i128 + 0x1_0000_0000_0000_0000) as u64
    };
    put_le(out, n, 8);
}

/// Reads `width` bytes from `at`.
fn get_le(bytes: &[u8], at: usize, width: usize) -> (n: u64)
    requires
        width <= 8,
        at + width <= bytes@.len(),
    ensures
        n == le_value(bytes@.subrange(at as int, at + width)),
{
    let mut i: usize = width;
    let mut n: u64 = 0;
    let len: usize = bytes.len();
    proof {
        lemma_pow256();
        assert(bytes@.subrange((at + width) as int, (at + width) as int) =~= Seq::<u8>::empty());
    }
    while i > 0
        invariant
            i <= width <= 8,
            at + width <= len == bytes@.len(),
            n == le_value(bytes@.subrange((at + i) as int, (at + width) as int)),
            pow(256, 8) == 0x1_0000_0000_0000_0000,
        decreases i,
    {
        i -= 1;
        proof {
            let s = bytes@.subrange((at + i) as int, (at + width) as int);
            assert(s.skip(1) =~= bytes@.subrange((at + i + 1) as int, (at + width) as int));
            lemma_le_value_bound(s);
            vstd::arithmetic::power::lemma_pow_increases(256, s.len(), 8);
            assert(s[0] == bytes@[(at + i) as int]);
        }
        n = n * 256 + bytes[at + i] as u64;
    }
    n
}

pub fn get_u32_le(bytes: &[u8], at: usize) -> (n: u32)
    requires
        at + 4 <= bytes@.len(),
    ensures
        n == le_value(bytes@.subrange(at as int, at + 4)),
{
    let n = get_le(bytes, at, 4);
    proof {
        lemma_le_value_bound(bytes@.subrange(at as int, at + 4));
        lemma_pow256();
    }
    n as u32
}

pub fn get_i64_le(bytes: &[u8], at: usize) -> (x: i64)
    requires
        at + 8 <= bytes@.len(),
    ensures
        x == signed(le_value(bytes@.subrange(at as int, at + 8))),
{
    let n = get_le(bytes, at, 8);
    if n < 0x8000_0000_0000_0000 {
        n as i64
    } else {
        (n as i128 - 0x1_0000_0000_0000_0000) as i64
    }
}

} // verus!
