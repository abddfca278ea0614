//! Pseudo-random numbers by shifts and exclusive ors.

use vstd::prelude::*;

verus! {

/// The state that follows a 64-bit state.
pub open spec fn next_64(s: u64) -> u64 {
    let a = s ^ (s << 13u64);
    let b = a ^ (a >> 7u64);
    b ^ (b << 17u64)
}

/// The state that follows a 64-bit state.
pub fn xorshift64(s: u64) -> (r: u64)
    ensures
        r == next_64(s),
{
    let a: u64 = s ^ (s << 13u64);
    let b: u64 = a ^ (a >> 7u64);
    b ^ (b << 17u64)
}

/// The state that follows a 32-bit state.
pub open spec fn next_32(s: u32) -> u32 {
    let a = s ^ (s << 13u32);
    let b = a ^ (a >> 17u32);
    b ^ (b << 5u32)
}

/// The state that follows a 32-bit state.
pub fn xorshift32(s: u32) -> (r: u32)
    ensures
        r == next_32(s),
{
    let a: u32 = s ^ (s << 13u32);
    let b: u32 = a ^ (a >> 17u32);
    b ^ (b << 5u32)
}

/// A state other than zero is never followed by zero, so a sequence of states that
/// starts with another number never runs dry.
pub proof fn states_never_run_dry(s: u64, t: u32)
    ensures
        s != 0 ==> next_64(s) != 0,
        t != 0 ==> next_32(t) != 0,
{
    assert(s != 0 ==> ({
        let a = s ^ (s << 13u64);
        let b = a ^ (a >> 7u64);
        b ^ (b << 17u64)
    }) != 0) by (bit_vector);
    assert(t != 0 ==> ({
        let a = t ^ (t << 13u32);
        let b = a ^ (a >> 17u32);
        b ^ (b << 5u32)
    }) != 0) by (bit_vector);
}

/// The steps between states are those of these shifts, and a step keeps exclusive ors:
/// the state behind two combined states is the combination of the states behind them.
pub proof fn states_follow_by_shifts(s: u64, t: u64, u: u32, v: u32)
    ensures
        next_64(s ^ t) == next_64(s) ^ next_64(t),
        next_32(u ^ v) == next_32(u) ^ next_32(v),
        next_64(s) == s ^ (s << 13u64) ^ ((s ^ (s << 13u64)) >> 7u64) ^ ((s ^ (s << 13u64) ^ ((s ^ (
        s << 13u64)) >> 7u64)) << 17u64),
        next_32(u) == u ^ (u << 13u32) ^ ((u ^ (u << 13u32)) >> 17u32) ^ ((u ^ (u << 13u32) ^ ((u ^ (
        u << 13u32)) >> 17u32)) << 5u32),
{
    let p = s ^ t;
    assert(({
        let a = p ^ (p << 13u64);
        let b = a ^ (a >> 7u64);
        b ^ (b << 17u64)
    }) == ({
        let a = s ^ (s << 13u64);
        let b = a ^ (a >> 7u64);
        b ^ (b << 17u64)
    }) ^ ({
        let a = t ^ (t << 13u64);
        let b = a ^ (a >> 7u64);
        b ^ (b << 17u64)
    })) by (bit_vector)
        requires
            p == s ^ t,
    ;
    let q = u ^ v;
    assert(({
        let a = q ^ (q << 13u32);
        let b = a ^ (a >> 17u32);
        b ^ (b << 5u32)
    }) == ({
        let a = u ^ (u << 13u32);
        let b = a ^ (a >> 17u32);
        b ^ (b << 5u32)
    }) ^ ({
        let a = v ^ (v << 13u32);
        let b = a ^ (a >> 17u32);
        b ^ (b << 5u32)
    })) by (bit_vector)
        requires
            q == u ^ v,
    ;
}

} // verus!
