//! The amplifier chain and the feedback network: several machine
//! instances wired output-to-input, either as a one-pass pipeline or as a
//! cooperatively scheduled ring, together with the phase-permutation
//! search that drives them.

use vstd::prelude::*;
use vstd::seq_lib::lemma_multiset_commutative;
use crate::vm::{
    init_state, is_terminal, lemma_run_deterministic, run_exhausts, run_terminal, runs_to,
    spec_is_halted, spec_step_res, CPU, State, StepResult, VmError,
};

verus! {

/// Upper bound on scheduling rounds of one network run; the budget exists
/// so the scheduler provably terminates.
pub const MAX_ROUNDS: u64 = 0x1_0000_0000;

/// Failure of an amplifier pipeline or network pass.
#[derive(Clone, Copy, PartialEq, Eq, Structural, Debug)]
pub enum NetError {
    /// A machine instance faulted (or exhausted its step budget).
    Vm(VmError),
    /// A chain stage ran to rest without producing any output to pass on.
    NoOutput,
}

// ------------------------------------------------------------------
// Lexicographic next-permutation
// ------------------------------------------------------------------

/// Index of the pivot: scanning left from `j`, the first position not in
/// the non-increasing suffix (or 0).
pub open spec fn find_pivot(s: Seq<i128>, j: int) -> int
    decreases j,
{
    if j > 0 && s[j] >= s[j + 1] {
        find_pivot(s, j - 1)
    } else {
        j
    }
}

/// Rightmost index above `j` holding a value greater than `s[j]`,
/// scanning left from `l`.
pub open spec fn find_swap(s: Seq<i128>, j: int, l: int) -> int
    decreases l - j,
{
    if l > j && s[j] >= s[l] {
        find_swap(s, j, l - 1)
    } else {
        l
    }
}

/// The lexicographically next permutation (wrapping around to the sorted
/// order after the last one): pivot on the longest non-increasing suffix,
/// swap with the smallest larger element, reverse the suffix.
pub open spec fn spec_next_perm(s: Seq<i128>) -> Seq<i128> {
    let j = find_pivot(s, s.len() - 2);
    if s[j] < s[j + 1] {
        let l = find_swap(s, j, s.len() - 1);
        let sw = s.update(j, s[l]).update(l, s[j]);
        sw.take(j + 1) + sw.skip(j + 1).reverse()
    } else {
        s.reverse()
    }
}

/// The phase settings tried by the one-pass chain search, in their first
/// (ascending) order.
pub open spec fn phases_low() -> Seq<i128> {
    seq![0i128, 1i128, 2i128, 3i128, 4i128]
}

/// The phase settings tried by the feedback-network search, in their first
/// (ascending) order.
pub open spec fn phases_high() -> Seq<i128> {
    seq![5i128, 6i128, 7i128, 8i128, 9i128]
}

/// `k` applications of [`spec_next_perm`] to `start`: the `k`-th phase
/// setting tried by the search loops.
pub open spec fn perm_iter(start: Seq<i128>, k: nat) -> Seq<i128>
    decreases k,
{
    if k == 0 {
        start
    } else {
        spec_next_perm(perm_iter(start, (k - 1) as nat))
    }
}

pub proof fn lemma_find_pivot_range(s: Seq<i128>, j: int)
    requires
        j >= 0,
    ensures
        0 <= find_pivot(s, j) <= j,
    decreases j,
{
    if j > 0 && s[j] >= s[j + 1] {
        lemma_find_pivot_range(s, j - 1);
    }
}

pub proof fn lemma_find_swap_range(s: Seq<i128>, j: int, l: int)
    requires
        l >= j,
    ensures
        j <= find_swap(s, j, l) <= l,
    decreases l - j,
{
    if l > j && s[j] >= s[l] {
        lemma_find_swap_range(s, j, l - 1);
    }
}

/// Positions above the pivot scan's result descend or stay level: the
/// scanned suffix is non-increasing.
pub proof fn lemma_find_pivot_suffix(s: Seq<i128>, j0: int)
    requires
        0 <= j0,
    ensures
        forall|t: int| find_pivot(s, j0) < t <= j0 ==> s[t] >= #[trigger] s[t + 1],
    decreases j0,
{
    if j0 > 0 && s[j0] >= s[j0 + 1] {
        lemma_find_pivot_suffix(s, j0 - 1);
        lemma_find_pivot_range(s, j0 - 1);
    }
}

/// The pivot scan stops only at 0 or at an ascent.
pub proof fn lemma_find_pivot_exit(s: Seq<i128>, j0: int)
    requires
        0 <= j0,
    ensures
        find_pivot(s, j0) == 0 || s[find_pivot(s, j0)] < s[find_pivot(s, j0) + 1],
    decreases j0,
{
    if j0 > 0 && s[j0] >= s[j0 + 1] {
        lemma_find_pivot_exit(s, j0 - 1);
    }
}

/// When an ascent exists right after the pivot, the swap scan lands
/// strictly above the pivot, on a strictly larger value.
pub proof fn lemma_find_swap_hit(s: Seq<i128>, j: int, l0: int)
    requires
        j + 1 <= l0,
        s[j] < s[j + 1],
    ensures
        j < find_swap(s, j, l0) <= l0,
        s[j] < s[find_swap(s, j, l0)],
    decreases l0 - j,
{
    if l0 > j && s[j] >= s[l0] {
        lemma_find_swap_hit(s, j, l0 - 1);
    }
}

/// Adjacent non-increase extends to any pair of positions.
pub proof fn lemma_noninc_global(s: Seq<i128>, a: int, b: int)
    requires
        forall|t: int| 0 <= t < s.len() - 1 ==> #[trigger] s[t] >= s[t + 1],
        0 <= a <= b < s.len(),
    ensures
        s[a] >= s[b],
    decreases b - a,
{
    if a < b {
        lemma_noninc_global(s, a + 1, b);
    }
}

/// Strictly lexicographically smaller, for sequences of equal length:
/// the two agree on a prefix and then `a` holds the smaller value.
pub open spec fn lex_lt(a: Seq<i128>, b: Seq<i128>) -> bool {
    exists|i: int|
        #![trigger a.take(i), b.take(i)]
        0 <= i < a.len() && i < b.len() && a.take(i) == b.take(i) && a[i] < b[i]
}

/// When the arrangement is not the last one (the pivot scan finds an
/// ascent), the next permutation is strictly greater in lexicographic
/// order: the prefix before the pivot is unchanged and the pivot cell
/// strictly grows.
pub proof fn lemma_next_perm_greater(s: Seq<i128>)
    requires
        s.len() >= 2,
        s[find_pivot(s, s.len() - 2)] < s[find_pivot(s, s.len() - 2) + 1],
    ensures
        spec_next_perm(s).len() == s.len(),
        lex_lt(s, spec_next_perm(s)),
{
    lemma_find_pivot_range(s, s.len() - 2);
    let j = find_pivot(s, s.len() - 2);
    lemma_find_swap_hit(s, j, s.len() - 1);
    let l = find_swap(s, j, s.len() - 1);
    let sw = s.update(j, s[l]).update(l, s[j]);
    let next = sw.take(j + 1) + sw.skip(j + 1).reverse();
    assert(next == spec_next_perm(s));
    assert(next.len() == s.len());
    assert forall|t: int| 0 <= t < j implies next[t] == s[t] by {
        assert(next[t] == sw.take(j + 1)[t]);
        assert(sw[t] == s[t]);
    }
    assert(s.take(j) =~= next.take(j));
    assert(next[j] == sw.take(j + 1)[j]);
    assert(next[j] == sw[j]);
    assert(sw[j] == s[l]);
    assert(0 <= j < s.len() && j < next.len() && s.take(j) == next.take(j) && s[j] < next[j]);
}

/// When the arrangement is the last one (non-increasing throughout),
/// the next permutation is its reversal: the non-decreasing first
/// arrangement, restarting the cycle.
pub proof fn lemma_next_perm_wrap(s: Seq<i128>)
    requires
        s.len() >= 2,
        !(s[find_pivot(s, s.len() - 2)] < s[find_pivot(s, s.len() - 2) + 1]),
    ensures
        spec_next_perm(s) == s.reverse(),
        forall|a: int, b: int|
            #![trigger spec_next_perm(s)[a], spec_next_perm(s)[b]]
            0 <= a <= b < s.len() ==> spec_next_perm(s)[a] <= spec_next_perm(s)[b],
{
    lemma_find_pivot_range(s, s.len() - 2);
    lemma_find_pivot_suffix(s, s.len() - 2);
    lemma_find_pivot_exit(s, s.len() - 2);
    let j = find_pivot(s, s.len() - 2);
    assert(j == 0);
    assert forall|t: int| 0 <= t < s.len() - 1 implies #[trigger] s[t] >= s[t + 1] by {
        if t > 0 {
            assert(s[t] >= s[t + 1]);
        }
    }
    let next = spec_next_perm(s);
    assert(next == s.reverse());
    assert forall|a: int, b: int|
        #![trigger next[a], next[b]]
        0 <= a <= b < s.len() implies next[a] <= next[b] by {
        assert(next[a] == s[s.len() - 1 - a]);
        assert(next[b] == s[s.len() - 1 - b]);
        lemma_noninc_global(s, s.len() - 1 - b, s.len() - 1 - a);
    }
}

/// Swapping two elements rearranges a sequence: the multiset of its
/// elements is unchanged.
pub proof fn lemma_swap_multiset(s: Seq<i128>, a: int, b: int)
    requires
        0 <= a <= b < s.len(),
    ensures
        s.update(a, s[b]).update(b, s[a]).to_multiset() == s.to_multiset(),
{
    let sw = s.update(a, s[b]).update(b, s[a]);
    if a == b {
        assert(sw =~= s);
    } else {
        let p1 = s.take(a);
        let p2 = s.subrange(a + 1, b);
        let p3 = s.skip(b + 1);
        assert(s =~= p1 + seq![s[a]] + p2 + seq![s[b]] + p3);
        assert(sw =~= p1 + seq![s[b]] + p2 + seq![s[a]] + p3);
        lemma_multiset_commutative(p1 + seq![s[a]] + p2 + seq![s[b]], p3);
        lemma_multiset_commutative(p1 + seq![s[a]] + p2, seq![s[b]]);
        lemma_multiset_commutative(p1 + seq![s[a]], p2);
        lemma_multiset_commutative(p1, seq![s[a]]);
        lemma_multiset_commutative(p1 + seq![s[b]] + p2 + seq![s[a]], p3);
        lemma_multiset_commutative(p1 + seq![s[b]] + p2, seq![s[a]]);
        lemma_multiset_commutative(p1 + seq![s[b]], p2);
        lemma_multiset_commutative(p1, seq![s[b]]);
        assert(sw.to_multiset() =~= s.to_multiset());
    }
}

/// The next permutation rearranges the same elements.
pub proof fn lemma_next_perm_multiset(s: Seq<i128>)
    requires
        s.len() >= 2,
    ensures
        spec_next_perm(s).to_multiset() == s.to_multiset(),
{
    lemma_find_pivot_range(s, s.len() - 2);
    let j = find_pivot(s, s.len() - 2);
    if s[j] < s[j + 1] {
        lemma_find_swap_range(s, j, s.len() - 1);
        let l = find_swap(s, j, s.len() - 1);
        let sw = s.update(j, s[l]).update(l, s[j]);
        lemma_swap_multiset(s, j, l);
        lemma_multiset_commutative(sw.take(j + 1), sw.skip(j + 1).reverse());
        sw.skip(j + 1).lemma_reverse_to_multiset();
        lemma_multiset_commutative(sw.take(j + 1), sw.skip(j + 1));
        assert(sw.take(j + 1) + sw.skip(j + 1) =~= sw);
        assert(spec_next_perm(s).to_multiset() =~= s.to_multiset());
    } else {
        s.lemma_reverse_to_multiset();
        assert(spec_next_perm(s).to_multiset() =~= s.to_multiset());
    }
}

/// Reverse `elems[k..]` in place.
fn reverse_tail(elems: &mut Vec<i128>, k: usize)
    requires
        k <= old(elems)@.len(),
    ensures
        final(elems)@ == old(elems)@.take(k as int) + old(elems)@.skip(k as int).reverse(),
{
    let ghost orig = elems@;
    let ghost target = orig.take(k as int) + orig.skip(k as int).reverse();
    let len = elems.len();
    proof {
        assert(target.len() == len);
        assert forall|t: int| k <= t < len implies target[t] == orig[k + len - 1 - t] by {
            assert(orig.skip(k as int).reverse()[t - k] == orig.skip(k as int)[len - k - 1 - (t
                - k)]);
        }
    }
    let mut i: usize = 0;
    while i < (len - k) / 2
        invariant
            elems@.len() == len,
            k <= len,
            i <= (len - k) / 2,
            orig.len() == len,
            target.len() == len,
            forall|t: int| 0 <= t < k ==> target[t] == orig[t],
            forall|t: int| k <= t < len ==> target[t] == orig[k + len - 1 - t],
            forall|t: int|
                0 <= t < len ==> elems@[t] == (if k + i <= t < len - i {
                    orig[t]
                } else {
                    target[t]
                }),
        decreases (len - k) / 2 - i,
    {
        let a = k + i;
        let b = len - 1 - i;
        let va = elems[a];
        let vb = elems[b];
        elems[a] = vb;
        elems[b] = va;
        i = i + 1;
    }
    proof {
        assert forall|t: int| 0 <= t < len implies elems@[t] == target[t] by {
            if k + i <= t < len - i {
                assert(k + len - 1 - t == t);
            }
        }
        assert(elems@ =~= target);
    }
}

/// Advance `elems` to the lexicographically next permutation, wrapping to
/// ascending order after the last one.
pub fn next_permutation(elems: &mut Vec<i128>)
    requires
        old(elems)@.len() >= 2,
    ensures
        final(elems)@ == spec_next_perm(old(elems)@),
        final(elems)@.len() == old(elems)@.len(),
        final(elems)@.to_multiset() == old(elems)@.to_multiset(),
{
    proof {
        lemma_next_perm_multiset(old(elems)@);
    }
    let len = elems.len();
    let mut j = len - 2;
    while j > 0 && elems[j] >= elems[j + 1]
        invariant
            elems@.len() == len,
            len >= 2,
            j <= len - 2,
            find_pivot(elems@, len - 2) == find_pivot(elems@, j as int),
        decreases j,
    {
        j = j - 1;
    }
    proof {
        assert(find_pivot(elems@, len - 2) == j);
    }
    if elems[j] < elems[j + 1] {
        let mut l = len - 1;
        while l > j && elems[j] >= elems[l]
            invariant
                elems@.len() == len,
                len >= 2,
                j < l <= len - 1,
                j + 1 < len,
                elems@[j as int] < elems@[j + 1],
                find_swap(elems@, j as int, len - 1) == find_swap(elems@, j as int, l as int),
            decreases l - j,
        {
            l = l - 1;
        }
        proof {
            assert(find_swap(elems@, j as int, len - 1) == l);
        }
        let vj = elems[j];
        let vl = elems[l];
        elems[j] = vl;
        elems[l] = vj;
        reverse_tail(elems, j + 1);
    } else {
        reverse_tail(elems, 0);
        proof {
            assert(old(elems)@.take(0) + old(elems)@.skip(0).reverse() =~= old(elems)@.reverse());
        }
    }
}

// ------------------------------------------------------------------
// Maximum of the search results
// ------------------------------------------------------------------

/// The largest element of a non-empty sequence.
pub open spec fn seq_max(s: Seq<i128>) -> i128
    decreases s.len(),
{
    if s.len() <= 1 {
        s[0]
    } else {
        let m = seq_max(s.drop_last());
        if s.last() > m {
            s.last()
        } else {
            m
        }
    }
}

/// The maximum of a non-empty sequence is attained by one of its
/// elements and dominates every one of them.
pub proof fn lemma_seq_max_props(s: Seq<i128>)
    requires
        s.len() >= 1,
    ensures
        exists|j: int| 0 <= j < s.len() && #[trigger] s[j] == seq_max(s),
        forall|k: int| 0 <= k < s.len() ==> #[trigger] s[k] <= seq_max(s),
    decreases s.len(),
{
    if s.len() == 1 {
        assert(s[0] == seq_max(s));
    } else {
        lemma_seq_max_props(s.drop_last());
        let j0 = choose|j: int|
            0 <= j < s.drop_last().len() && #[trigger] s.drop_last()[j] == seq_max(s.drop_last());
        if s.last() > seq_max(s.drop_last()) {
            assert(s[s.len() - 1] == seq_max(s));
        } else {
            assert(s[j0] == seq_max(s));
        }
        assert forall|k: int| 0 <= k < s.len() implies #[trigger] s[k] <= seq_max(s) by {
            if k < s.len() - 1 {
                assert(s.drop_last()[k] == s[k]);
            }
        }
    }
}

// ------------------------------------------------------------------
// One amplifier, and the one-pass chain
// ------------------------------------------------------------------

/// The starting state of one amplifier: a fresh machine loaded with
/// `prog`, its phase setting queued ahead of the incoming signal.
pub open spec fn amp_init(prog: Seq<i128>, phase: i128, sig: i128) -> State {
    init_state(prog, seq![phase, sig])
}

/// A fresh machine loaded with `prog` and fed `phase` then `sig` runs to
/// rest without faulting, has produced at least one output, and its most
/// recent output is `out`. Execution being deterministic, at most one
/// `out` satisfies this.
pub open spec fn amp_rel(prog: Seq<i128>, phase: i128, sig: i128, out: i128) -> bool {
    exists|t: State|
        #[trigger] run_terminal(amp_init(prog, phase, sig), t)
            && spec_step_res(t) is Ok
            && t.outputs.len() > 0
            && out == t.outputs.last()
}

/// At most one value satisfies [`amp_rel`] for fixed program and inputs.
pub proof fn lemma_amp_rel_deterministic(prog: Seq<i128>, phase: i128, sig: i128, o1: i128, o2: i128)
    requires
        amp_rel(prog, phase, sig, o1),
        amp_rel(prog, phase, sig, o2),
    ensures
        o1 == o2,
{
    let s0 = amp_init(prog, phase, sig);
    let t1 = choose|t: State|
        #[trigger] run_terminal(s0, t) && spec_step_res(t) is Ok && t.outputs.len() > 0 && o1
            == t.outputs.last();
    let t2 = choose|t: State|
        #[trigger] run_terminal(s0, t) && spec_step_res(t) is Ok && t.outputs.len() > 0 && o2
            == t.outputs.last();
    let n1 = choose|n: nat| #[trigger] runs_to(s0, t1, n) && is_terminal(t1);
    let n2 = choose|n: nat| #[trigger] runs_to(s0, t2, n) && is_terminal(t2);
    lemma_run_deterministic(s0, t1, t2, n1, n2);
}

/// Run one amplifier on `prog` with inputs `phase`, `sig` and report its
/// final output. `Ok(v)` holds exactly the [`amp_rel`] result; any error
/// other than the step budget means no such result exists.
pub fn amp_output(prog: &Vec<i128>, phase: i128, sig: i128) -> (r: Result<i128, NetError>)
    ensures
        r matches Ok(v) ==> amp_rel(prog@, phase, sig, v),
        (r matches Err(e) && e != NetError::Vm(VmError::StepLimitReached)) ==> forall|v: i128|
            !amp_rel(prog@, phase, sig, v),
        r == Err::<i128, NetError>(NetError::Vm(VmError::StepLimitReached)) ==> run_exhausts(
            amp_init(prog@, phase, sig),
        ),
{
    let mut cpu = CPU::new(prog.clone());
    cpu.add_input(phase);
    cpu.add_input(sig);
    let ghost s0 = amp_init(prog@, phase, sig);
    proof {
        assert(Seq::<i128>::empty().push(phase).push(sig) =~= seq![phase, sig]);
        assert(cpu@ =~= s0);
    }
    let res = cpu.run();
    match res {
        Err(e) => {
            proof {
                if e == VmError::StepLimitReached {
                    assert(run_exhausts(s0));
                }
                if e != VmError::StepLimitReached {
                    let nf = choose|n: nat|
                        #[trigger] runs_to(s0, cpu@, n) && spec_step_res(cpu@)
                            == Err::<StepResult, VmError>(e);
                    assert forall|v: i128| !amp_rel(prog@, phase, sig, v) by {
                        if amp_rel(prog@, phase, sig, v) {
                            let t = choose|t: State|
                                #[trigger] run_terminal(s0, t) && spec_step_res(t) is Ok
                                    && t.outputs.len() > 0 && v == t.outputs.last();
                            let nt = choose|n: nat| #[trigger] runs_to(s0, t, n) && is_terminal(t);
                            lemma_run_deterministic(s0, t, cpu@, nt, nf);
                        }
                    }
                }
            }
            Err(NetError::Vm(e))
        },
        Ok(res) => {
            match cpu.last_output() {
                Some(v) => {
                    proof {
                        let nf = choose|n: nat|
                            #[trigger] runs_to(s0, cpu@, n) && spec_step_res(cpu@)
                                == Ok::<StepResult, VmError>(res);
                        assert(run_terminal(s0, cpu@));
                    }
                    Ok(v)
                },
                None => {
                    proof {
                        let nf = choose|n: nat|
                            #[trigger] runs_to(s0, cpu@, n) && spec_step_res(cpu@)
                                == Ok::<StepResult, VmError>(res);
                        assert forall|v: i128| !amp_rel(prog@, phase, sig, v) by {
                            if amp_rel(prog@, phase, sig, v) {
                                let t = choose|t: State|
                                    #[trigger] run_terminal(s0, t) && spec_step_res(t) is Ok
                                        && t.outputs.len() > 0 && v == t.outputs.last();
                                let nt = choose|n: nat|
                                    #[trigger] runs_to(s0, t, n) && is_terminal(t);
                                lemma_run_deterministic(s0, t, cpu@, nt, nf);
                            }
                        }
                    }
                    Err(NetError::NoOutput)
                },
            }
        },
    }
}

/// The one-pass chain from stage `i` on: each remaining amplifier maps the
/// running signal to its final output; `out` is what leaves the last
/// stage.
pub open spec fn chain_from(prog: Seq<i128>, phases: Seq<i128>, i: int, sig: i128, out: i128) -> bool
    decreases phases.len() - i,
{
    if i >= phases.len() {
        out == sig
    } else {
        exists|mid: i128|
            #[trigger] amp_rel(prog, phases[i], sig, mid) && chain_from(prog, phases, i + 1, mid, out)
    }
}

/// Passing one stage with its (unique) amplifier result preserves the set
/// of possible chain outputs.
pub proof fn lemma_chain_step(prog: Seq<i128>, phases: Seq<i128>, i: int, sig: i128, mid: i128)
    requires
        0 <= i < phases.len(),
        amp_rel(prog, phases[i], sig, mid),
    ensures
        forall|out: i128| #[trigger] chain_from(prog, phases, i, sig, out) <==> chain_from(
            prog,
            phases,
            i + 1,
            mid,
            out,
        ),
{
    assert forall|out: i128|
        #[trigger] chain_from(prog, phases, i, sig, out) <==> chain_from(
            prog,
            phases,
            i + 1,
            mid,
            out,
        ) by {
        if chain_from(prog, phases, i, sig, out) {
            let m2 = choose|m: i128|
                #[trigger] amp_rel(prog, phases[i], sig, m) && chain_from(
                    prog,
                    phases,
                    i + 1,
                    m,
                    out,
                );
            lemma_amp_rel_deterministic(prog, phases[i], sig, mid, m2);
        }
        if chain_from(prog, phases, i + 1, mid, out) {
            assert(amp_rel(prog, phases[i], sig, mid) && chain_from(prog, phases, i + 1, mid, out));
        }
    }
}

/// A stage at which no amplifier result exists kills every chain output.
pub proof fn lemma_chain_stuck(prog: Seq<i128>, phases: Seq<i128>, i: int, sig: i128)
    requires
        0 <= i < phases.len(),
        forall|v: i128| !amp_rel(prog, phases[i], sig, v),
    ensures
        forall|out: i128| !chain_from(prog, phases, i, sig, out),
{
    assert forall|out: i128| !chain_from(prog, phases, i, sig, out) by {
        if chain_from(prog, phases, i, sig, out) {
            let m = choose|m: i128|
                #[trigger] amp_rel(prog, phases[i], sig, m) && chain_from(
                    prog,
                    phases,
                    i + 1,
                    m,
                    out,
                );
        }
    }
}

/// A chain over one more stage: appending a stage whose amplifier maps
/// the chain's output extends the chain.
pub proof fn lemma_chain_snoc(prog: Seq<i128>, q: Seq<i128>, j: int, sig0: i128, sig: i128, x: i128, v: i128)
    requires
        0 <= j <= q.len(),
        chain_from(prog, q, j, sig0, sig),
        amp_rel(prog, x, sig, v),
    ensures
        chain_from(prog, q.push(x), j, sig0, v),
    decreases q.len() - j,
{
    if j == q.len() {
        assert(sig == sig0);
        assert(q.push(x)[j] == x);
        assert(chain_from(prog, q.push(x), j + 1, v, v));
        assert(amp_rel(prog, q.push(x)[j], sig0, v) && chain_from(prog, q.push(x), j + 1, v, v));
    } else {
        let mid = choose|m: i128|
            #[trigger] amp_rel(prog, q[j], sig0, m) && chain_from(prog, q, j + 1, m, sig);
        lemma_chain_snoc(prog, q, j + 1, mid, sig, x, v);
        assert(q.push(x)[j] == q[j]);
        assert(amp_rel(prog, q.push(x)[j], sig0, mid) && chain_from(
            prog,
            q.push(x),
            j + 1,
            mid,
            v,
        ));
    }
}

/// The one-pass chain ran into the step budget: some stage's signal is
/// produced by the stages before it, and on that signal the stage's
/// amplifier executes a whole instruction budget without coming to rest.
pub open spec fn chain_budget_stuck(prog: Seq<i128>, phases: Seq<i128>) -> bool {
    exists|i: int, sig: i128|
        0 <= i < phases.len() && #[trigger] chain_from(prog, phases.take(i), 0, 0, sig)
            && run_exhausts(amp_init(prog, phases[i], sig))
}

/// Feed signal 0 through the amplifiers in phase order, one pass, and
/// report the last stage's output. `Ok(v)` holds exactly the chain result;
/// any error other than the step budget means no chain result exists.
pub fn chain_output(prog: &Vec<i128>, phases: &Vec<i128>) -> (r: Result<i128, NetError>)
    ensures
        r matches Ok(v) ==> chain_from(prog@, phases@, 0, 0, v),
        (r matches Err(e) && e != NetError::Vm(VmError::StepLimitReached)) ==> forall|v: i128|
            !chain_from(prog@, phases@, 0, 0, v),
        r == Err::<i128, NetError>(NetError::Vm(VmError::StepLimitReached)) ==> chain_budget_stuck(
            prog@,
            phases@,
        ),
{
    let mut sig: i128 = 0;
    let n = phases.len();
    proof {
        assert(phases@.take(0).len() == 0);
        assert(chain_from(prog@, phases@.take(0), 0, 0, 0i128));
    }
    for i in 0..n
        invariant
            n == phases@.len(),
            forall|out: i128| #[trigger] chain_from(prog@, phases@, 0, 0, out) <==> chain_from(
                prog@,
                phases@,
                i as int,
                sig,
                out,
            ),
            chain_from(prog@, phases@.take(i as int), 0, 0, sig),
    {
        match amp_output(prog, phases[i], sig) {
            Ok(v) => {
                proof {
                    lemma_chain_step(prog@, phases@, i as int, sig, v);
                    lemma_chain_snoc(prog@, phases@.take(i as int), 0, 0, sig, phases@[i as int], v);
                    assert(phases@.take(i as int).push(phases@[i as int]) =~= phases@.take(i + 1));
                }
                sig = v;
            },
            Err(e) => {
                proof {
                    if e != NetError::Vm(VmError::StepLimitReached) {
                        lemma_chain_stuck(prog@, phases@, i as int, sig);
                    } else {
                        assert(run_exhausts(amp_init(prog@, phases@[i as int], sig)));
                        assert(chain_budget_stuck(prog@, phases@));
                    }
                }
                return Err(e);
            },
        }
    }
    proof {
        assert(chain_from(prog@, phases@, n as int, sig, sig));
    }
    Ok(sig)
}

/// Try every permutation of the phase settings 0 through 4 on the one-pass
/// chain and report the largest of the 120 chain results: the returned
/// value is one of the results and no result exceeds it.
pub fn part1(instrs: &Vec<i128>) -> (r: Result<i128, NetError>)
    ensures
        r matches Ok(v) ==> exists|outs: Seq<i128>|
            #![trigger seq_max(outs)]
            outs.len() == 120 && (forall|k: int|
                0 <= k < 120 ==> chain_from(
                    instrs@,
                    perm_iter(phases_low(), k as nat),
                    0,
                    0,
                    #[trigger] outs[k],
                )) && v == seq_max(outs) && (exists|j: int| 0 <= j < 120 && v == outs[j]) && (
            forall|k: int| 0 <= k < 120 ==> #[trigger] outs[k] <= v),
        (r matches Err(e) && e != NetError::Vm(VmError::StepLimitReached)) ==> exists|k: nat|
            k < 120 && (forall|v: i128|
                !chain_from(
                    instrs@,
                    #[trigger] perm_iter(phases_low(), k),
                    0,
                    0,
                    v,
                )),
        r == Err::<i128, NetError>(NetError::Vm(VmError::StepLimitReached)) ==> exists|k: nat|
            k < 120 && chain_budget_stuck(instrs@, #[trigger] perm_iter(phases_low(), k)),
{
    let mut phases: Vec<i128> = Vec::new();
    phases.push(0);
    phases.push(1);
    phases.push(2);
    phases.push(3);
    phases.push(4);
    proof {
        assert(phases@ =~= phases_low());
    }
    let mut max_output: i128 = 0;
    let ghost mut outs: Seq<i128> = Seq::<i128>::empty();
    for iter in 0..120usize
        invariant
            phases@.len() == 5,
            phases@ == perm_iter(phases_low(), iter as nat),
            outs.len() == iter,
            forall|k: int|
                0 <= k < iter ==> chain_from(instrs@, perm_iter(phases_low(), k as nat), 0, 0, #[trigger] outs[k]),
            iter > 0 ==> max_output == seq_max(outs),
    {
        match chain_output(instrs, &phases) {
            Err(e) => {
                proof {
                    assert(perm_iter(phases_low(), iter as nat) == phases@);
                    if e != NetError::Vm(VmError::StepLimitReached) {
                        assert forall|v: i128|
                            !chain_from(
                                instrs@,
                                perm_iter(phases_low(), iter as nat),
                                0,
                                0,
                                v,
                            ) by {
                            assert(!chain_from(instrs@, phases@, 0, 0, v));
                        }
                    } else {
                        assert(chain_budget_stuck(instrs@, perm_iter(phases_low(), iter as nat)));
                    }
                }
                return Err(e);
            },
            Ok(out) => {
                proof {
                    let grown = outs.push(out);
                    if iter == 0 {
                        assert(grown.len() == 1 && grown[0] == out);
                        assert(seq_max(grown) == out);
                    } else {
                        assert(grown.drop_last() =~= outs);
                        assert(grown.last() == out);
                        assert(seq_max(grown) == if out > seq_max(outs) {
                            out
                        } else {
                            seq_max(outs)
                        });
                    }
                    outs = grown;
                }
                if iter == 0 {
                    max_output = out;
                } else if out > max_output {
                    max_output = out;
                }
                next_permutation(&mut phases);
            },
        }
    }
    proof {
        lemma_seq_max_props(outs);
    }
    Ok(max_output)
}

// ------------------------------------------------------------------
// The feedback network
// ------------------------------------------------------------------

/// The mathematical state of a network pass: each instance's machine
/// state, the output batch in flight, and the last value seen at the tap
/// point (the final instance).
#[verifier::ext_equal]
pub ghost struct NetState {
    pub amps: Seq<State>,
    pub batch: Seq<i128>,
    pub last_out: i128,
}

/// Whether the instance at index `i` of a ring of `n` is the tap point:
/// the last instance before wraparound, whose output is the network's
/// externally observed result.
pub open spec fn visit_tap(i: int, n: nat) -> bool {
    i == n - 1
}

/// One visit of the scheduler to instance `a1`. A halted instance is
/// skipped and passes the batch through untouched. A live one receives
/// the batch at the tail of its input queue, runs to rest without
/// faulting, hands its whole output store on as the new batch (cleared so
/// nothing is replayed), and, if it is the tap instance and produced
/// anything, updates the tap value.
pub open spec fn amp_visit(
    a1: State,
    b_in: Seq<i128>,
    last1: i128,
    tap: bool,
    a2: State,
    b_out: Seq<i128>,
    last2: i128,
) -> bool {
    if spec_is_halted(a1) {
        a2 == a1 && b_out == b_in && last2 == last1
    } else {
        exists|t: State|
            #[trigger] run_terminal(State { inputs: a1.inputs + b_in, ..a1 }, t)
                && spec_step_res(t) is Ok
                && a2 == (State { outputs: Seq::<i128>::empty(), ..t })
                && b_out == t.outputs
                && last2 == (if tap && t.outputs.len() > 0 { t.outputs.last() } else { last1 })
    }
}

/// The rest of one scheduling round, visiting instances `i` onward in
/// index order; `ns2` is the configuration when the round ends.
pub open spec fn round_from(amps: Seq<State>, i: int, b: Seq<i128>, last: i128, ns2: NetState) -> bool
    decreases amps.len() - i,
{
    if !(0 <= i < amps.len()) {
        ns2 == (NetState { amps, batch: b, last_out: last })
    } else {
        exists|a2: State, bm: Seq<i128>, lm: i128|
            #[trigger] amp_visit(amps[i], b, last, visit_tap(i, amps.len()), a2, bm, lm)
                && round_from(amps.update(i, a2), i + 1, bm, lm, ns2)
    }
}

/// `k` full scheduling rounds take `ns1` to `ns2`.
pub open spec fn net_rounds(ns1: NetState, ns2: NetState, k: nat) -> bool
    decreases k,
{
    if k == 0 {
        ns1 == ns2
    } else {
        exists|mid: NetState|
            #[trigger] round_from(ns1.amps, 0, ns1.batch, ns1.last_out, mid)
                && net_rounds(mid, ns2, (k - 1) as nat)
    }
}

/// Every instance of the ring rests on a halt instruction.
pub open spec fn all_halted(amps: Seq<State>) -> bool {
    forall|i: int| 0 <= i < amps.len() ==> spec_is_halted(#[trigger] amps[i])
}

/// The starting configuration: one fresh machine per phase setting, each
/// with its phase queued ahead of any data, and the seed signal 0 as the
/// batch bound for the first instance.
pub open spec fn build_net(prog: Seq<i128>, phases: Seq<i128>) -> NetState {
    NetState {
        amps: Seq::new(phases.len(), |i: int| init_state(prog, seq![phases[i]])),
        batch: seq![0i128],
        last_out: 0,
    }
}

/// `v` is the tap-point result of running the network built from `prog`
/// and `phases` until every instance has halted. Scheduling being
/// deterministic, at most one value satisfies this
/// ([`lemma_net_result_deterministic`]).
pub open spec fn net_result(prog: Seq<i128>, phases: Seq<i128>, v: i128) -> bool {
    exists|ns2: NetState, k: nat|
        #[trigger] net_rounds(build_net(prog, phases), ns2, k)
            && all_halted(ns2.amps)
            && v == ns2.last_out
}

/// One more completed round at the end of a run of rounds.
pub proof fn lemma_net_rounds_extend(a: NetState, b: NetState, c: NetState, k: nat)
    requires
        net_rounds(a, b, k),
        round_from(b.amps, 0, b.batch, b.last_out, c),
    ensures
        net_rounds(a, c, k + 1),
    decreases k,
{
    if k == 0 {
        assert(b == a);
        assert(net_rounds(c, c, 0));
        assert(net_rounds(a, c, 1));
    } else {
        let mid = choose|mid: NetState|
            #[trigger] round_from(a.amps, 0, a.batch, a.last_out, mid) && net_rounds(
                mid,
                b,
                (k - 1) as nat,
            );
        lemma_net_rounds_extend(mid, b, c, (k - 1) as nat);
    }
}

/// Prepending one scheduler visit to the rest of a round.
pub proof fn lemma_round_from_cons(
    amps: Seq<State>,
    i: int,
    b: Seq<i128>,
    l: i128,
    a2: State,
    bm: Seq<i128>,
    lm: i128,
    x: NetState,
)
    requires
        0 <= i < amps.len(),
        amp_visit(amps[i], b, l, visit_tap(i, amps.len()), a2, bm, lm),
        round_from(amps.update(i, a2), i + 1, bm, lm, x),
    ensures
        round_from(amps, i, b, l, x),
{
}

/// The scheduler's round budget, as a mathematical count.
pub open spec fn rounds_budget() -> nat {
    MAX_ROUNDS as nat
}

/// The first visits of one round: instances `lo` up to (excluding) `hi`
/// have been visited, leaving the configuration `(amps2, b2, l2)`.
pub open spec fn round_prefix(
    amps: Seq<State>,
    b: Seq<i128>,
    last: i128,
    lo: int,
    hi: int,
    amps2: Seq<State>,
    b2: Seq<i128>,
    l2: i128,
) -> bool
    decreases hi - lo,
{
    if lo >= hi {
        amps2 == amps && b2 == b && l2 == last
    } else {
        exists|a2: State, bm: Seq<i128>, lm: i128|
            #[trigger] amp_visit(amps[lo], b, last, visit_tap(lo, amps.len()), a2, bm, lm)
                && round_prefix(amps.update(lo, a2), bm, lm, lo + 1, hi, amps2, b2, l2)
    }
}

/// The round from configuration `(amps, b, last)` ran into the
/// instruction budget: after some prefix of visits, the next live
/// instance executes a whole budget without coming to rest.
pub open spec fn round_budget_stuck(amps: Seq<State>, b: Seq<i128>, last: i128, lo: int) -> bool {
    exists|i: int, amps2: Seq<State>, b2: Seq<i128>, l2: i128|
        lo <= i && #[trigger] round_prefix(amps, b, last, lo, i, amps2, b2, l2)
            && i < amps2.len()
            && !spec_is_halted(amps2[i])
            && run_exhausts(State { inputs: amps2[i].inputs + b2, ..amps2[i] })
}

/// A network run from `ns0` exhausted a budget: either the scheduler
/// performed its whole round budget without ever seeing the ring fully
/// halted, or a configuration reachable by full rounds holds a live
/// instance that executes a whole instruction budget when visited.
pub open spec fn net_stuck_from(ns0: NetState) -> bool {
    ((exists|ns: NetState| #[trigger] net_rounds(ns0, ns, rounds_budget())) && (forall|
        ns2: NetState,
        k: nat,
    |
        k < rounds_budget() ==> !(#[trigger] net_rounds(ns0, ns2, k) && all_halted(ns2.amps))))
        || (exists|ns: NetState, k: nat|
        #[trigger] net_rounds(ns0, ns, k) && round_budget_stuck(ns.amps, ns.batch, ns.last_out, 0))
}

/// A visit to a live instance whose run faults has no outcome at all.
pub proof fn lemma_amp_visit_none(
    a1: State,
    b: Seq<i128>,
    l: i128,
    tap: bool,
    t0: State,
    e: VmError,
)
    requires
        !spec_is_halted(a1),
        run_terminal(State { inputs: a1.inputs + b, ..a1 }, t0),
        spec_step_res(t0) == Err::<StepResult, VmError>(e),
    ensures
        forall|a2: State, bm: Seq<i128>, lm: i128| !amp_visit(a1, b, l, tap, a2, bm, lm),
{
    let fed = State { inputs: a1.inputs + b, ..a1 };
    assert forall|a2: State, bm: Seq<i128>, lm: i128| !amp_visit(a1, b, l, tap, a2, bm, lm) by {
        if amp_visit(a1, b, l, tap, a2, bm, lm) {
            let t = choose|t: State|
                #[trigger] run_terminal(fed, t) && spec_step_res(t) is Ok && a2 == (State {
                    outputs: Seq::<i128>::empty(),
                    ..t
                }) && bm == t.outputs && lm == (if tap && t.outputs.len() > 0 {
                    t.outputs.last()
                } else {
                    l
                });
            let n1 = choose|n: nat| #[trigger] runs_to(fed, t, n) && is_terminal(t);
            let n0 = choose|n: nat| #[trigger] runs_to(fed, t0, n) && is_terminal(t0);
            lemma_run_deterministic(fed, t, t0, n1, n0);
        }
    }
}

/// Runs of rounds from one configuration agree on their common prefix.
pub proof fn lemma_net_rounds_prefix(a: NetState, x: NetState, kx: nat, y: NetState, ky: nat)
    requires
        net_rounds(a, x, kx),
        net_rounds(a, y, ky),
        kx <= ky,
    ensures
        net_rounds(x, y, (ky - kx) as nat),
    decreases kx,
{
    if kx != 0 {
        let m1 = choose|mid: NetState|
            #[trigger] round_from(a.amps, 0, a.batch, a.last_out, mid) && net_rounds(
                mid,
                x,
                (kx - 1) as nat,
            );
        let m2 = choose|mid: NetState|
            #[trigger] round_from(a.amps, 0, a.batch, a.last_out, mid) && net_rounds(
                mid,
                y,
                (ky - 1) as nat,
            );
        lemma_round_deterministic(a.amps, 0, a.batch, a.last_out, m1, m2);
        lemma_net_rounds_prefix(m1, x, (kx - 1) as nat, y, (ky - 1) as nat);
    }
}

/// Over a fully halted ring a round does have an outcome: the identity.
pub proof fn lemma_round_identity_exists(amps: Seq<State>, i: int, b: Seq<i128>, l: i128)
    requires
        all_halted(amps),
        0 <= i,
    ensures
        round_from(amps, i, b, l, NetState { amps, batch: b, last_out: l }),
    decreases amps.len() - i,
{
    if i < amps.len() {
        assert(spec_is_halted(amps[i]));
        assert(amp_visit(amps[i], b, l, visit_tap(i, amps.len()), amps[i], b, l));
        assert(amps.update(i, amps[i]) =~= amps);
        lemma_round_identity_exists(amps, i + 1, b, l);
    }
}

/// A feedback ring of machine instances, round-robin scheduled, with the
/// batch in flight and the tap-point value.
pub struct Network {
    amps: Vec<CPU>,
    batch: Vec<i128>,
    last_out: i128,
}

impl View for Network {
    type V = NetState;

    closed spec fn view(&self) -> NetState {
        NetState {
            amps: self.amps@.map_values(|c: CPU| c@),
            batch: self.batch@,
            last_out: self.last_out,
        }
    }
}

impl Network {
    /// Wire one fresh instance per phase setting into a ring, each phase
    /// queued ahead of any data, with the seed batch `[0]`.
    pub fn build(prog: &Vec<i128>, phases: &Vec<i128>) -> (nw: Network)
        ensures
            nw@ == build_net(prog@, phases@),
    {
        let mut amps: Vec<CPU> = Vec::new();
        let n = phases.len();
        for i in 0..n
            invariant
                n == phases@.len(),
                amps@.len() == i,
                forall|j: int|
                    0 <= j < i ==> (#[trigger] amps@[j])@ == init_state(prog@, seq![phases@[j]]),
        {
            let mut c = CPU::new(prog.clone());
            c.add_input(phases[i]);
            proof {
                assert(Seq::<i128>::empty().push(phases@[i as int]) =~= seq![phases@[i as int]]);
                assert(c@ =~= init_state(prog@, seq![phases@[i as int]]));
            }
            amps.push(c);
        }
        let mut batch: Vec<i128> = Vec::new();
        batch.push(0);
        let nw = Network { amps, batch, last_out: 0 };
        proof {
            assert(nw@.amps =~= Seq::new(
                phases@.len(),
                |i: int| init_state(prog@, seq![phases@[i]]),
            ));
            assert(nw@.batch =~= seq![0i128]);
            assert(nw@ =~= build_net(prog@, phases@));
        }
        nw
    }

    /// One scheduler visit to instance `i`: skip it if already halted,
    /// else feed it the batch, run it to rest, and take over its outputs
    /// as the new batch (updating the tap value at the tap instance).
    /// `Ok(true)` means the instance was already halted.
    #[verifier::rlimit(100)]
    fn visit(&mut self, i: usize) -> (r: Result<bool, VmError>)
        requires
            i < old(self)@.amps.len(),
        ensures
            r matches Ok(was_halted) ==> {
                &&& amp_visit(
                    old(self)@.amps[i as int],
                    old(self)@.batch,
                    old(self)@.last_out,
                    visit_tap(i as int, old(self)@.amps.len()),
                    final(self)@.amps[i as int],
                    final(self)@.batch,
                    final(self)@.last_out,
                )
                &&& final(self)@.amps == old(self)@.amps.update(
                    i as int,
                    final(self)@.amps[i as int],
                )
                &&& final(self)@.amps.len() == old(self)@.amps.len()
                &&& was_halted == spec_is_halted(old(self)@.amps[i as int])
                &&& (was_halted ==> final(self)@ == old(self)@)
            },
            (r matches Err(e) && e != VmError::StepLimitReached) ==> forall|
                a2: State,
                bm: Seq<i128>,
                lm: i128,
            |
                !amp_visit(
                    old(self)@.amps[i as int],
                    old(self)@.batch,
                    old(self)@.last_out,
                    visit_tap(i as int, old(self)@.amps.len()),
                    a2,
                    bm,
                    lm,
                ),
            r == Err::<bool, VmError>(VmError::StepLimitReached) ==> !spec_is_halted(
                old(self)@.amps[i as int],
            ) && run_exhausts(
                State {
                    inputs: old(self)@.amps[i as int].inputs + old(self)@.batch,
                    ..old(self)@.amps[i as int]
                },
            ),
    {
        let n = self.amps.len();
        let ghost pre = self@;
        let ghost tap = visit_tap(i as int, pre.amps.len());
        proof {
            assert(pre.amps[i as int] == self.amps@[i as int]@);
        }
        let halted = self.amps[i].is_halted();
        if halted {
            proof {
                assert(spec_is_halted(pre.amps[i as int]));
                assert(amp_visit(
                    pre.amps[i as int],
                    pre.batch,
                    pre.last_out,
                    tap,
                    pre.amps[i as int],
                    pre.batch,
                    pre.last_out,
                ));
                assert(pre.amps.update(i as int, pre.amps[i as int]) =~= pre.amps);
            }
            return Ok(true);
        }
        let ghost a1 = pre.amps[i as int];
        self.amps[i].transfer_outputs(self.batch.as_slice());
        let ghost fed = State { inputs: a1.inputs + pre.batch, ..a1 };
        proof {
            assert(self.amps@[i as int]@ =~= fed);
        }
        let res = match self.amps[i].run() {
            Err(e) => {
                proof {
                    if e != VmError::StepLimitReached {
                        let t0 = self.amps@[i as int]@;
                        assert(run_terminal(fed, t0));
                        lemma_amp_visit_none(a1, pre.batch, pre.last_out, tap, t0, e);
                    } else {
                        assert(run_exhausts(fed));
                    }
                }
                return Err(e);
            },
            Ok(res) => res,
        };
        let ghost t = self.amps@[i as int]@;
        let outs = self.amps[i].take_outputs();
        self.batch = outs;
        if i == n - 1 {
            let bl = self.batch.len();
            if bl > 0 {
                self.last_out = self.batch[bl - 1];
            }
        }
        proof {
            let a2 = State { outputs: Seq::<i128>::empty(), ..t };
            assert(is_terminal(t));
            assert(run_terminal(fed, t));
            assert(self@.batch == t.outputs);
            assert(self@.last_out == (if tap && t.outputs.len() > 0 {
                t.outputs.last()
            } else {
                pre.last_out
            }));
            assert(amp_visit(a1, pre.batch, pre.last_out, tap, a2, t.outputs, self@.last_out));
            assert(self@.amps =~= pre.amps.update(i as int, a2));
            assert(self@.amps[i as int] == a2);
        }
        Ok(false)
    }

    /// The rest of one scheduling round, visiting instances `i` onward in
    /// ring order. `Ok(d)` reports how many of the visited instances were
    /// already halted.
    fn round_rec(&mut self, i: usize) -> (r: Result<usize, VmError>)
        requires
            i <= old(self)@.amps.len(),
        ensures
            r matches Ok(d) ==> {
                &&& round_from(
                    old(self)@.amps,
                    i as int,
                    old(self)@.batch,
                    old(self)@.last_out,
                    final(self)@,
                ) || (i == old(self)@.amps.len() && final(self)@ == old(self)@)
                &&& final(self)@.amps.len() == old(self)@.amps.len()
                &&& d <= old(self)@.amps.len() - i
                &&& (d == old(self)@.amps.len() - i ==> final(self)@ == old(self)@ && forall|
                    j: int,
                |
                    i <= j < old(self)@.amps.len() ==> spec_is_halted(
                        #[trigger] old(self)@.amps[j],
                    ))
                &&& (d < old(self)@.amps.len() - i ==> exists|j: int|
                    i <= j < old(self)@.amps.len() && !spec_is_halted(
                        #[trigger] old(self)@.amps[j],
                    ))
            },
            (r matches Err(e) && e != VmError::StepLimitReached) ==> forall|x: NetState|
                !round_from(
                    old(self)@.amps,
                    i as int,
                    old(self)@.batch,
                    old(self)@.last_out,
                    x,
                ),
            r == Err::<usize, VmError>(VmError::StepLimitReached) ==> round_budget_stuck(
                old(self)@.amps,
                old(self)@.batch,
                old(self)@.last_out,
                i as int,
            ),
        decreases old(self)@.amps.len() - i,
    {
        let n = self.amps.len();
        if i >= n {
            return Ok(0);
        }
        let ghost pre = self@;
        let was = match self.visit(i) {
            Err(e) => {
                proof {
                    if e == VmError::StepLimitReached {
                        assert(round_prefix(
                            pre.amps,
                            pre.batch,
                            pre.last_out,
                            i as int,
                            i as int,
                            pre.amps,
                            pre.batch,
                            pre.last_out,
                        ));
                        assert(round_budget_stuck(pre.amps, pre.batch, pre.last_out, i as int));
                    }
                    if e != VmError::StepLimitReached {
                        assert forall|x: NetState|
                            !round_from(pre.amps, i as int, pre.batch, pre.last_out, x) by {
                            if round_from(pre.amps, i as int, pre.batch, pre.last_out, x) {
                                let (a2, bm, lm) = choose|a2: State, bm: Seq<i128>, lm: i128|
                                    #[trigger] amp_visit(
                                        pre.amps[i as int],
                                        pre.batch,
                                        pre.last_out,
                                        visit_tap(i as int, pre.amps.len()),
                                        a2,
                                        bm,
                                        lm,
                                    ) && round_from(
                                        pre.amps.update(i as int, a2),
                                        i + 1,
                                        bm,
                                        lm,
                                        x,
                                    );
                            }
                        }
                    }
                }
                return Err(e);
            },
            Ok(w) => w,
        };
        let ghost mid = self@;
        let rest = match self.round_rec(i + 1) {
            Err(e) => {
                proof {
                    if e == VmError::StepLimitReached {
                        let (i2, amps2, b2, l2) = choose|
                            i2: int,
                            amps2: Seq<State>,
                            b2: Seq<i128>,
                            l2: i128,
                        |
                            i + 1 <= i2 && #[trigger] round_prefix(
                                mid.amps,
                                mid.batch,
                                mid.last_out,
                                i + 1,
                                i2,
                                amps2,
                                b2,
                                l2,
                            ) && i2 < amps2.len() && !spec_is_halted(amps2[i2]) && run_exhausts(
                                State { inputs: amps2[i2].inputs + b2, ..amps2[i2] },
                            );
                        assert(mid.amps == pre.amps.update(i as int, mid.amps[i as int]));
                        assert(amp_visit(
                            pre.amps[i as int],
                            pre.batch,
                            pre.last_out,
                            visit_tap(i as int, pre.amps.len()),
                            mid.amps[i as int],
                            mid.batch,
                            mid.last_out,
                        ));
                        assert(round_prefix(
                            pre.amps,
                            pre.batch,
                            pre.last_out,
                            i as int,
                            i2,
                            amps2,
                            b2,
                            l2,
                        ));
                        assert(round_budget_stuck(pre.amps, pre.batch, pre.last_out, i as int));
                    }
                    if e != VmError::StepLimitReached {
                        assert forall|x: NetState|
                            !round_from(pre.amps, i as int, pre.batch, pre.last_out, x) by {
                            if round_from(pre.amps, i as int, pre.batch, pre.last_out, x) {
                                let (a2, bm, lm) = choose|a2: State, bm: Seq<i128>, lm: i128|
                                    #[trigger] amp_visit(
                                        pre.amps[i as int],
                                        pre.batch,
                                        pre.last_out,
                                        visit_tap(i as int, pre.amps.len()),
                                        a2,
                                        bm,
                                        lm,
                                    ) && round_from(
                                        pre.amps.update(i as int, a2),
                                        i + 1,
                                        bm,
                                        lm,
                                        x,
                                    );
                                lemma_amp_visit_deterministic(
                                    pre.amps[i as int],
                                    pre.batch,
                                    pre.last_out,
                                    visit_tap(i as int, pre.amps.len()),
                                    a2,
                                    bm,
                                    lm,
                                    mid.amps[i as int],
                                    mid.batch,
                                    mid.last_out,
                                );
                                assert(mid.amps == pre.amps.update(i as int, mid.amps[i as int]));
                                assert(round_from(mid.amps, i + 1, mid.batch, mid.last_out, x));
                            }
                        }
                    }
                }
                return Err(e);
            },
            Ok(d) => d,
        };
        proof {
            if i + 1 == mid.amps.len() {
                assert(round_from(mid.amps, i + 1, mid.batch, mid.last_out, self@) || self@
                    == mid);
                if self@ == mid {
                    assert(self@ =~= (NetState {
                        amps: mid.amps,
                        batch: mid.batch,
                        last_out: mid.last_out,
                    }));
                    assert(round_from(mid.amps, i + 1, mid.batch, mid.last_out, self@));
                }
            }
            assert(round_from(mid.amps, i + 1, mid.batch, mid.last_out, self@));
            assert(mid.amps == pre.amps.update(i as int, mid.amps[i as int]));
            lemma_round_from_cons(
                pre.amps,
                i as int,
                pre.batch,
                pre.last_out,
                mid.amps[i as int],
                mid.batch,
                mid.last_out,
                self@,
            );
        }
        if was {
            proof {
                if rest == n - (i + 1) {
                    assert(mid == pre);
                    assert forall|j: int| i <= j < pre.amps.len() implies spec_is_halted(
                        #[trigger] pre.amps[j],
                    ) by {
                        if j != i {
                            assert(spec_is_halted(mid.amps[j]));
                        }
                    }
                } else {
                    let j = choose|j: int|
                        i + 1 <= j < mid.amps.len() && !spec_is_halted(#[trigger] mid.amps[j]);
                    assert(mid == pre);
                    assert(!spec_is_halted(pre.amps[j]));
                }
            }
            Ok(rest + 1)
        } else {
            proof {
                assert(!spec_is_halted(pre.amps[i as int]));
            }
            Ok(rest)
        }
    }

    /// One full scheduling round. `Ok(done)` reports how many instances
    /// were already halted when visited; `done` equal to the ring size
    /// means the round changed nothing and the whole network has halted.
    fn round(&mut self) -> (r: Result<usize, VmError>)
        ensures
            r matches Ok(done) ==> {
                &&& round_from(
                    old(self)@.amps,
                    0,
                    old(self)@.batch,
                    old(self)@.last_out,
                    final(self)@,
                ) || (old(self)@.amps.len() == 0 && final(self)@ == old(self)@)
                &&& final(self)@.amps.len() == old(self)@.amps.len()
                &&& done <= old(self)@.amps.len()
                &&& (done == old(self)@.amps.len() ==> final(self)@ == old(self)@ && all_halted(
                    old(self)@.amps,
                ))
                &&& (done < old(self)@.amps.len() ==> !all_halted(old(self)@.amps))
            },
            (r matches Err(e) && e != VmError::StepLimitReached) ==> forall|x: NetState|
                !round_from(old(self)@.amps, 0, old(self)@.batch, old(self)@.last_out, x),
            r == Err::<usize, VmError>(VmError::StepLimitReached) ==> round_budget_stuck(
                old(self)@.amps,
                old(self)@.batch,
                old(self)@.last_out,
                0,
            ),
    {
        let r = self.round_rec(0);
        proof {
            if r matches Ok(d) && d == old(self)@.amps.len() {
                assert(all_halted(old(self)@.amps));
            }
            if r matches Ok(d) && d < old(self)@.amps.len() {
                let j = choose|j: int|
                    0 <= j < old(self)@.amps.len() && !spec_is_halted(
                        #[trigger] old(self)@.amps[j],
                    );
                assert(!all_halted(old(self)@.amps));
            }
        }
        r
    }

    /// Schedule rounds until every instance has halted, then report the
    /// tap-point value: the final result of the network pass. The reached
    /// configuration is one the round semantics produces from the
    /// starting one.
    pub fn run_to_completion(&mut self) -> (r: Result<i128, NetError>)
        ensures
            r matches Ok(v) ==> exists|ns2: NetState, k: nat|
                #[trigger] net_rounds(old(self)@, ns2, k) && all_halted(ns2.amps) && v
                    == ns2.last_out,
            (r matches Err(e) && e != NetError::Vm(VmError::StepLimitReached)) ==> forall|
                ns2: NetState,
                k: nat,
            |
                !(#[trigger] net_rounds(old(self)@, ns2, k) && all_halted(ns2.amps)),
            r == Err::<i128, NetError>(NetError::Vm(VmError::StepLimitReached))
                ==> net_stuck_from(old(self)@),
    {
        let mut rounds: u64 = 0;
        proof {
            assert(net_rounds(old(self)@, old(self)@, 0));
        }
        loop
            invariant_except_break
                rounds < MAX_ROUNDS,
                net_rounds(old(self)@, self@, rounds as nat),
                forall|ns2: NetState, k: nat|
                    k < rounds as nat ==> !(#[trigger] net_rounds(old(self)@, ns2, k)
                        && all_halted(ns2.amps)),
            decreases MAX_ROUNDS - rounds,
        {
            let n = self.amps.len();
            let ghost pre = self@;
            match self.round() {
                Err(e) => {
                    proof {
                        if e == VmError::StepLimitReached {
                            assert(net_rounds(old(self)@, pre, rounds as nat)
                                && round_budget_stuck(pre.amps, pre.batch, pre.last_out, 0));
                            assert(net_stuck_from(old(self)@));
                        }
                        if e != VmError::StepLimitReached {
                            let k0: nat = rounds as nat;
                            assert forall|ns2: NetState, k: nat|
                                !(#[trigger] net_rounds(old(self)@, ns2, k) && all_halted(
                                    ns2.amps,
                                )) by {
                                if net_rounds(old(self)@, ns2, k) && all_halted(ns2.amps) {
                                    if k <= k0 {
                                        lemma_net_rounds_prefix(old(self)@, ns2, k, pre, k0);
                                        lemma_net_halted_stable(ns2, pre, (k0 - k) as nat);
                                        assert(all_halted(pre.amps));
                                        lemma_round_identity_exists(
                                            pre.amps,
                                            0,
                                            pre.batch,
                                            pre.last_out,
                                        );
                                        assert(false);
                                    } else {
                                        lemma_net_rounds_prefix(old(self)@, pre, k0, ns2, k);
                                        let m = choose|mid: NetState|
                                            #[trigger] round_from(
                                                pre.amps,
                                                0,
                                                pre.batch,
                                                pre.last_out,
                                                mid,
                                            ) && net_rounds(mid, ns2, (k - k0 - 1) as nat);
                                        assert(false);
                                    }
                                }
                            }
                        }
                    }
                    return Err(NetError::Vm(e));
                },
                Ok(done) => {
                    if done == n {
                        proof {
                            assert(all_halted(self@.amps));
                            assert(net_rounds(old(self)@, self@, rounds as nat));
                        }
                        return Ok(self.last_out);
                    }
                    proof {
                        lemma_net_rounds_extend(old(self)@, pre, self@, rounds as nat);
                        // The round was not a fully halted pass, so no run of
                        // `rounds` or fewer rounds reaches a halted ring.
                        assert(!all_halted(pre.amps));
                        assert forall|ns2: NetState, k: nat|
                            k < rounds as nat + 1 implies !(#[trigger] net_rounds(
                            old(self)@,
                            ns2,
                            k,
                        ) && all_halted(ns2.amps)) by {
                            if net_rounds(old(self)@, ns2, k) && all_halted(ns2.amps) && k
                                == rounds as nat {
                                lemma_net_rounds_prefix(old(self)@, ns2, k, pre, rounds as nat);
                                assert(net_rounds(ns2, pre, 0));
                                assert(pre == ns2);
                            }
                        }
                    }
                    rounds = rounds + 1;
                    if rounds == MAX_ROUNDS {
                        proof {
                            assert(rounds as nat == rounds_budget());
                            assert(net_rounds(old(self)@, self@, rounds_budget()));
                            assert(net_stuck_from(old(self)@));
                        }
                        return Err(NetError::Vm(VmError::StepLimitReached));
                    }
                },
            }
        }
    }
}

// ------------------------------------------------------------------
// Determinism of the network
// ------------------------------------------------------------------

/// One scheduler visit has at most one outcome.
pub proof fn lemma_amp_visit_deterministic(
    a1: State,
    b: Seq<i128>,
    l: i128,
    tap: bool,
    xa: State,
    xb: Seq<i128>,
    xl: i128,
    ya: State,
    yb: Seq<i128>,
    yl: i128,
)
    requires
        amp_visit(a1, b, l, tap, xa, xb, xl),
        amp_visit(a1, b, l, tap, ya, yb, yl),
    ensures
        xa == ya,
        xb == yb,
        xl == yl,
{
    if !spec_is_halted(a1) {
        let fed = State { inputs: a1.inputs + b, ..a1 };
        let t1 = choose|t: State|
            #[trigger] run_terminal(fed, t) && spec_step_res(t) is Ok && xa == (State {
                outputs: Seq::<i128>::empty(),
                ..t
            }) && xb == t.outputs && xl == (if tap && t.outputs.len() > 0 {
                t.outputs.last()
            } else {
                l
            });
        let t2 = choose|t: State|
            #[trigger] run_terminal(fed, t) && spec_step_res(t) is Ok && ya == (State {
                outputs: Seq::<i128>::empty(),
                ..t
            }) && yb == t.outputs && yl == (if tap && t.outputs.len() > 0 {
                t.outputs.last()
            } else {
                l
            });
        let n1 = choose|n: nat| #[trigger] runs_to(fed, t1, n) && is_terminal(t1);
        let n2 = choose|n: nat| #[trigger] runs_to(fed, t2, n) && is_terminal(t2);
        lemma_run_deterministic(fed, t1, t2, n1, n2);
    }
}

/// One scheduling round has at most one outcome.
pub proof fn lemma_round_deterministic(
    amps: Seq<State>,
    i: int,
    b: Seq<i128>,
    l: i128,
    x: NetState,
    y: NetState,
)
    requires
        round_from(amps, i, b, l, x),
        round_from(amps, i, b, l, y),
        0 <= i,
    ensures
        x == y,
    decreases amps.len() - i,
{
    if 0 <= i < amps.len() {
        let (xa, xb, xl) = choose|a2: State, bm: Seq<i128>, lm: i128|
            #[trigger] amp_visit(amps[i], b, l, visit_tap(i, amps.len()), a2, bm, lm) && round_from(
                amps.update(i, a2),
                i + 1,
                bm,
                lm,
                x,
            );
        let (ya, yb, yl) = choose|a2: State, bm: Seq<i128>, lm: i128|
            #[trigger] amp_visit(amps[i], b, l, visit_tap(i, amps.len()), a2, bm, lm) && round_from(
                amps.update(i, a2),
                i + 1,
                bm,
                lm,
                y,
            );
        lemma_amp_visit_deterministic(amps[i], b, l, visit_tap(i, amps.len()), xa, xb, xl, ya, yb, yl);
        lemma_round_deterministic(amps.update(i, xa), i + 1, xb, xl, x, y);
    }
}

/// A round over a fully halted ring changes nothing.
pub proof fn lemma_round_halted_identity(
    amps: Seq<State>,
    i: int,
    b: Seq<i128>,
    l: i128,
    x: NetState,
)
    requires
        round_from(amps, i, b, l, x),
        forall|j: int| 0 <= j < amps.len() ==> spec_is_halted(#[trigger] amps[j]),
        0 <= i,
    ensures
        x == (NetState { amps, batch: b, last_out: l }),
    decreases amps.len() - i,
{
    if 0 <= i < amps.len() {
        let (a2, bm, lm) = choose|a2: State, bm: Seq<i128>, lm: i128|
            #[trigger] amp_visit(amps[i], b, l, visit_tap(i, amps.len()), a2, bm, lm) && round_from(
                amps.update(i, a2),
                i + 1,
                bm,
                lm,
                x,
            );
        assert(a2 == amps[i] && bm == b && lm == l);
        assert(amps.update(i, a2) =~= amps);
        lemma_round_halted_identity(amps, i + 1, b, l, x);
    }
}

/// Once every instance has halted, further rounds keep the configuration.
pub proof fn lemma_net_halted_stable(ns: NetState, y: NetState, k: nat)
    requires
        all_halted(ns.amps),
        net_rounds(ns, y, k),
    ensures
        y == ns,
    decreases k,
{
    if k != 0 {
        let mid = choose|mid: NetState|
            #[trigger] round_from(ns.amps, 0, ns.batch, ns.last_out, mid) && net_rounds(
                mid,
                y,
                (k - 1) as nat,
            );
        lemma_round_halted_identity(ns.amps, 0, ns.batch, ns.last_out, mid);
        assert(mid =~= ns);
        lemma_net_halted_stable(ns, y, (k - 1) as nat);
    }
}

/// Determinism of the feedback network: from one starting configuration,
/// any two runs that end with every instance halted end identically —
/// same machines, same batch, same tap value.
pub proof fn lemma_network_deterministic(ns: NetState, x: NetState, y: NetState, k1: nat, k2: nat)
    requires
        net_rounds(ns, x, k1),
        all_halted(x.amps),
        net_rounds(ns, y, k2),
        all_halted(y.amps),
    ensures
        x == y,
    decreases k1,
{
    if k1 == 0 {
        lemma_net_halted_stable(ns, y, k2);
    } else if k2 == 0 {
        lemma_net_halted_stable(ns, x, k1);
    } else {
        let m1 = choose|mid: NetState|
            #[trigger] round_from(ns.amps, 0, ns.batch, ns.last_out, mid) && net_rounds(
                mid,
                x,
                (k1 - 1) as nat,
            );
        let m2 = choose|mid: NetState|
            #[trigger] round_from(ns.amps, 0, ns.batch, ns.last_out, mid) && net_rounds(
                mid,
                y,
                (k2 - 1) as nat,
            );
        lemma_round_deterministic(ns.amps, 0, ns.batch, ns.last_out, m1, m2);
        lemma_network_deterministic(m1, x, y, (k1 - 1) as nat, (k2 - 1) as nat);
    }
}

/// For a fixed program and a fixed phase permutation the network's
/// tap-point result is unique: two independent runs produce identical
/// results.
pub proof fn lemma_net_result_deterministic(prog: Seq<i128>, phases: Seq<i128>, v1: i128, v2: i128)
    requires
        net_result(prog, phases, v1),
        net_result(prog, phases, v2),
    ensures
        v1 == v2,
{
    let (x, k1) = choose|ns2: NetState, k: nat|
        #[trigger] net_rounds(build_net(prog, phases), ns2, k) && all_halted(ns2.amps) && v1
            == ns2.last_out;
    let (y, k2) = choose|ns2: NetState, k: nat|
        #[trigger] net_rounds(build_net(prog, phases), ns2, k) && all_halted(ns2.amps) && v2
            == ns2.last_out;
    lemma_network_deterministic(build_net(prog, phases), x, y, k1, k2);
}

/// Try every permutation of the phase settings 5 through 9 on the
/// feedback network and report the largest of the 120 tap-point results:
/// the returned value is one of the results and no result exceeds it.
pub fn part2(instrs: &Vec<i128>) -> (r: Result<i128, NetError>)
    ensures
        r matches Ok(v) ==> exists|outs: Seq<i128>|
            #![trigger seq_max(outs)]
            outs.len() == 120 && (forall|k: int|
                0 <= k < 120 ==> net_result(
                    instrs@,
                    perm_iter(phases_high(), k as nat),
                    #[trigger] outs[k],
                )) && v == seq_max(outs) && (exists|j: int| 0 <= j < 120 && v == outs[j]) && (
            forall|k: int| 0 <= k < 120 ==> #[trigger] outs[k] <= v),
        (r matches Err(e) && e != NetError::Vm(VmError::StepLimitReached)) ==> exists|k: nat|
            k < 120 && (forall|v: i128|
                !net_result(instrs@, #[trigger] perm_iter(phases_high(), k), v)),
        r == Err::<i128, NetError>(NetError::Vm(VmError::StepLimitReached)) ==> exists|k: nat|
            k < 120 && net_stuck_from(build_net(instrs@, #[trigger] perm_iter(phases_high(), k))),
{
    let mut phases: Vec<i128> = Vec::new();
    phases.push(5);
    phases.push(6);
    phases.push(7);
    phases.push(8);
    phases.push(9);
    proof {
        assert(phases@ =~= phases_high());
    }
    let mut max_output: i128 = 0;
    let ghost mut outs: Seq<i128> = Seq::<i128>::empty();
    for iter in 0..120usize
        invariant
            phases@.len() == 5,
            phases@ == perm_iter(phases_high(), iter as nat),
            outs.len() == iter,
            forall|k: int|
                0 <= k < iter ==> net_result(
                    instrs@,
                    perm_iter(phases_high(), k as nat),
                    #[trigger] outs[k],
                ),
            iter > 0 ==> max_output == seq_max(outs),
    {
        let mut nw = Network::build(instrs, &phases);
        let ghost ns0 = nw@;
        match nw.run_to_completion() {
            Err(e) => {
                proof {
                    if e == NetError::Vm(VmError::StepLimitReached) {
                        assert(perm_iter(phases_high(), iter as nat) == phases@);
                        assert(net_stuck_from(build_net(
                            instrs@,
                            perm_iter(phases_high(), iter as nat),
                        )));
                    }
                    if e != NetError::Vm(VmError::StepLimitReached) {
                        assert(perm_iter(phases_high(), iter as nat) == phases@);
                        assert forall|v: i128|
                            !net_result(instrs@, perm_iter(phases_high(), iter as nat), v) by {
                            if net_result(instrs@, perm_iter(phases_high(), iter as nat), v) {
                                let (ns2, kk) = choose|ns2: NetState, k: nat|
                                    #[trigger] net_rounds(
                                        build_net(instrs@, perm_iter(phases_high(), iter as nat)),
                                        ns2,
                                        k,
                                    ) && all_halted(ns2.amps) && v == ns2.last_out;
                                assert(net_rounds(ns0, ns2, kk));
                                assert(false);
                            }
                        }
                    }
                }
                return Err(e);
            },
            Ok(out) => {
                proof {
                    let (ns2, kk) = choose|ns2: NetState, k: nat|
                        #[trigger] net_rounds(ns0, ns2, k) && all_halted(ns2.amps) && out
                            == ns2.last_out;
                    assert(net_rounds(build_net(instrs@, phases@), ns2, kk));
                    assert(net_result(instrs@, phases@, out));
                    assert(net_result(instrs@, perm_iter(phases_high(), iter as nat), out));
                    let grown = outs.push(out);
                    if iter == 0 {
                        assert(grown.len() == 1 && grown[0] == out);
                        assert(seq_max(grown) == out);
                    } else {
                        assert(grown.drop_last() =~= outs);
                        assert(grown.last() == out);
                        assert(seq_max(grown) == if out > seq_max(outs) {
                            out
                        } else {
                            seq_max(outs)
                        });
                    }
                    outs = grown;
                }
                if iter == 0 {
                    max_output = out;
                } else if out > max_output {
                    max_output = out;
                }
                next_permutation(&mut phases);
            },
        }
    }
    proof {
        lemma_seq_max_props(outs);
    }
    Ok(max_output)
}

} // verus!
