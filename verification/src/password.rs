//! Password validation: digit rules over a six-digit numeric range.

use vstd::prelude::*;

verus! {

pub const LOW: u32 = 134792;

pub const HIGH: u32 = 675810;

/// Some pair of adjacent decimal digits of `p` is equal.
pub open spec fn spec_has_adjacent_pair(p: nat) -> bool
    decreases p,
{
    if p < 10 {
        false
    } else {
        p % 10 == p / 10 % 10 || spec_has_adjacent_pair(p / 10)
    }
}

/// Scanning `p` from its lowest digit: some run of equal adjacent digits
/// has length exactly two. `dropped_eq` records whether the digit just
/// scanned past equals the current lowest digit (so a pair found now
/// would extend a longer run).
pub open spec fn spec_exact_pair_scan(p: nat, dropped_eq: bool) -> bool
    decreases p,
{
    if p < 10 {
        false
    } else {
        let x = p % 10;
        let y = p / 10 % 10;
        let z = p / 100 % 10;
        (x == y && !dropped_eq && y != z) || spec_exact_pair_scan(p / 10, x == y)
    }
}

/// Some maximal run of equal adjacent decimal digits of `p` has length
/// exactly two.
pub open spec fn spec_has_exact_pair(p: nat) -> bool {
    spec_exact_pair_scan(p, false)
}

/// The decimal digits of `p` never decrease from left to right.
pub open spec fn spec_never_decreases(p: nat) -> bool
    decreases p,
{
    if p < 10 {
        true
    } else {
        p / 10 % 10 <= p % 10 && spec_never_decreases(p / 10)
    }
}

fn adjacent_pair(p: u32) -> (r: bool)
    ensures
        r == spec_has_adjacent_pair(p as nat),
    decreases p,
{
    if p < 10 {
        false
    } else {
        p % 10 == p / 10 % 10 || adjacent_pair(p / 10)
    }
}

fn exact_pair_scan(p: u32, dropped_eq: bool) -> (r: bool)
    ensures
        r == spec_exact_pair_scan(p as nat, dropped_eq),
    decreases p,
{
    if p < 10 {
        false
    } else {
        let x = p % 10;
        let y = p / 10 % 10;
        let z = p / 100 % 10;
        (x == y && !dropped_eq && y != z) || exact_pair_scan(p / 10, x == y)
    }
}

/// Whether `p` has a pair of equal adjacent digits; with `just_two`, the
/// pair must not be part of a longer run.
pub fn has_same_adjacent_digits(p: u32, just_two: bool) -> (r: bool)
    ensures
        r == if just_two {
            spec_has_exact_pair(p as nat)
        } else {
            spec_has_adjacent_pair(p as nat)
        },
{
    if just_two {
        exact_pair_scan(p, false)
    } else {
        adjacent_pair(p)
    }
}

/// Whether the digits of `p` never decrease from left to right.
pub fn never_decreases(p: u32) -> (r: bool)
    ensures
        r == spec_never_decreases(p as nat),
    decreases p,
{
    if p < 10 {
        true
    } else {
        p / 10 % 10 <= p % 10 && never_decreases(p / 10)
    }
}

/// A valid password is six digits, lies in the fixed range, has the
/// required kind of adjacent pair, and never decreases.
pub fn is_valid_password(p: u32, just_two: bool) -> (r: bool)
    ensures
        r == (p > 99999 && p < 1000000 && LOW <= p <= HIGH && (if just_two {
            spec_has_exact_pair(p as nat)
        } else {
            spec_has_adjacent_pair(p as nat)
        }) && spec_never_decreases(p as nat)),
{
    let six_digit = p > 99999 && p < 1000000;
    let within_range = p >= LOW && p <= HIGH;
    let same_adjacent_digits = has_same_adjacent_digits(p, just_two);
    let increasing = never_decreases(p);
    six_digit && within_range && same_adjacent_digits && increasing
}

} // verus!
