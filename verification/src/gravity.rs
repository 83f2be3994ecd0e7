//! The earliest revision of the machine: a position-only, unsigned
//! three-opcode store (add, multiply, halt), and the noun/verb search
//! over its first two cells.

use vstd::prelude::*;
use crate::vm::VmError;

verus! {

pub const WANTED_OUTPUT: u32 = 19690720;

/// One step of the three-opcode machine: `(memory, counter, outcome)`,
/// where `Ok(true)` is a halt, `Ok(false)` a completed instruction, and
/// any error leaves memory and counter unchanged.
pub open spec fn spec_step1(mem: Seq<u32>, pc: int) -> (Seq<u32>, int, Result<bool, VmError>) {
    if !(0 <= pc < mem.len()) {
        (mem, pc, Err(VmError::AddressOutOfRange))
    } else if mem[pc] == 99 {
        (mem, pc, Ok(true))
    } else if mem[pc] != 1 && mem[pc] != 2 {
        (mem, pc, Err(VmError::InvalidOpcode))
    } else if pc + 4 > mem.len() {
        (mem, pc, Err(VmError::AddressOutOfRange))
    } else {
        let a = mem[pc + 1];
        let b = mem[pc + 2];
        let c = mem[pc + 3];
        if !(a < mem.len() && b < mem.len() && c < mem.len()) {
            (mem, pc, Err(VmError::AddressOutOfRange))
        } else {
            let v: int = if mem[pc] == 1 {
                mem[a as int] + mem[b as int]
            } else {
                mem[a as int] * mem[b as int]
            };
            if v > u32::MAX {
                (mem, pc, Err(VmError::Overflow))
            } else {
                (mem.update(c as int, v as u32), pc + 4, Ok(false))
            }
        }
    }
}

/// `n` completed instructions take `(m1, pc1)` to `(m2, pc2)`.
pub open spec fn runs1_to(m1: Seq<u32>, pc1: int, m2: Seq<u32>, pc2: int, n: nat) -> bool
    decreases n,
{
    if n == 0 {
        m2 == m1 && pc2 == pc1
    } else {
        &&& spec_step1(m1, pc1).2 == Ok::<bool, VmError>(false)
        &&& runs1_to(spec_step1(m1, pc1).0, spec_step1(m1, pc1).1, m2, pc2, (n - 1) as nat)
    }
}

/// A run extended by one more completed instruction.
pub proof fn lemma_runs1_extend(m0: Seq<u32>, pc0: int, m1: Seq<u32>, pc1: int, n: nat)
    requires
        runs1_to(m0, pc0, m1, pc1, n),
        spec_step1(m1, pc1).2 == Ok::<bool, VmError>(false),
    ensures
        runs1_to(m0, pc0, spec_step1(m1, pc1).0, spec_step1(m1, pc1).1, n + 1),
    decreases n,
{
    if n == 0 {
        assert(runs1_to(spec_step1(m0, pc0).0, spec_step1(m0, pc0).1, spec_step1(m1, pc1).0, spec_step1(m1, pc1).1, 0));
        assert(runs1_to(m0, pc0, spec_step1(m1, pc1).0, spec_step1(m1, pc1).1, 1));
    } else {
        lemma_runs1_extend(spec_step1(m0, pc0).0, spec_step1(m0, pc0).1, m1, pc1, (n - 1) as nat);
    }
}

/// Stepping preserves the memory size.
pub proof fn lemma_runs1_len(m1: Seq<u32>, pc1: int, m2: Seq<u32>, pc2: int, n: nat)
    requires
        runs1_to(m1, pc1, m2, pc2, n),
    ensures
        m2.len() == m1.len(),
    decreases n,
{
    if n != 0 {
        lemma_runs1_len(spec_step1(m1, pc1).0, spec_step1(m1, pc1).1, m2, pc2, (n - 1) as nat);
    }
}

/// Execution of the three-opcode machine is deterministic: one reachable
/// non-continuing configuration.
pub proof fn lemma_runs1_deterministic(
    m0: Seq<u32>,
    pc0: int,
    ma: Seq<u32>,
    pca: int,
    na: nat,
    mb: Seq<u32>,
    pcb: int,
    nb: nat,
)
    requires
        runs1_to(m0, pc0, ma, pca, na),
        spec_step1(ma, pca).2 != Ok::<bool, VmError>(false),
        runs1_to(m0, pc0, mb, pcb, nb),
        spec_step1(mb, pcb).2 != Ok::<bool, VmError>(false),
    ensures
        ma == mb,
        pca == pcb,
        na == nb,
    decreases na,
{
    if na == 0 {
        if nb != 0 {
            assert(false);
        }
    } else {
        if nb == 0 {
            assert(false);
        } else {
            lemma_runs1_deterministic(
                spec_step1(m0, pc0).0,
                spec_step1(m0, pc0).1,
                ma,
                pca,
                (na - 1) as nat,
                mb,
                pcb,
                (nb - 1) as nat,
            );
        }
    }
}

/// The sum or product of two cells, selected by the opcode.
pub fn apply_op(op: u32, a: u32, b: u32) -> (r: u32)
    requires
        op == 1 || op == 2,
        op == 1 ==> a + b <= u32::MAX,
        op == 2 ==> a * b <= u32::MAX,
    ensures
        r == if op == 1 {
            a + b
        } else {
            a * b
        },
{
    if op == 1 {
        a + b
    } else {
        a * b
    }
}

/// Run the three-opcode machine in place from counter 0 until it halts
/// or faults: the final memory is reachable from the starting one and
/// its outcome at the final counter is exactly the reported result.
pub fn process(mem: &mut Vec<u32>) -> (r: Result<(), VmError>)
    ensures
        exists|n: nat, pcf: int|
            #[trigger] runs1_to(old(mem)@, 0, final(mem)@, pcf, n) && spec_step1(
                final(mem)@,
                pcf,
            ).2 == (match r {
                Ok(()) => Ok::<bool, VmError>(true),
                Err(e) => Err::<bool, VmError>(e),
            }),
{
    let mut pc: usize = 0;
    let ghost mut steps: nat = 0;
    proof {
        assert(runs1_to(old(mem)@, 0, mem@, 0, 0));
    }
    loop
        invariant_except_break
            mem@.len() == old(mem)@.len(),
            pc <= mem@.len(),
            runs1_to(old(mem)@, 0, mem@, pc as int, steps),
        decreases mem@.len() - pc,
    {
        let len = mem.len();
        if pc >= len {
            return Err(VmError::AddressOutOfRange);
        }
        let op = mem[pc];
        if op == 99 {
            return Ok(());
        }
        if op != 1 && op != 2 {
            return Err(VmError::InvalidOpcode);
        }
        if len - pc < 4 {
            return Err(VmError::AddressOutOfRange);
        }
        let a = mem[pc + 1];
        let b = mem[pc + 2];
        let c = mem[pc + 3];
        if !((a as usize) < len && (b as usize) < len && (c as usize) < len) {
            return Err(VmError::AddressOutOfRange);
        }
        let av = mem[a as usize];
        let bv = mem[b as usize];
        let fits = if op == 1 {
            av.checked_add(bv).is_some()
        } else {
            av.checked_mul(bv).is_some()
        };
        if !fits {
            return Err(VmError::Overflow);
        }
        let v = apply_op(op, av, bv);
        let ghost pre = mem@;
        mem[c as usize] = v;
        proof {
            assert(mem@ =~= spec_step1(pre, pc as int).0);
            lemma_runs1_extend(old(mem)@, 0, pre, pc as int, steps);
            steps = steps + 1;
        }
        pc = pc + 4;
    }
}

/// The machine loaded from `init` with cells 1 and 2 replaced by `noun`
/// and `verb` halts, and cell 0 of its final memory is `out`. Execution
/// being deterministic, at most one `out` satisfies this.
pub open spec fn v1_output(init: Seq<u32>, noun: u32, verb: u32, out: u32) -> bool {
    exists|mf: Seq<u32>, pcf: int, n: nat|
        #[trigger] runs1_to(init.update(1, noun).update(2, verb), 0, mf, pcf, n)
            && spec_step1(mf, pcf).2 == Ok::<bool, VmError>(true)
            && mf.len() > 0
            && out == mf[0]
}

/// At most one value satisfies [`v1_output`] for fixed inputs.
pub proof fn lemma_v1_output_unique(init: Seq<u32>, noun: u32, verb: u32, o1: u32, o2: u32)
    requires
        v1_output(init, noun, verb, o1),
        v1_output(init, noun, verb, o2),
    ensures
        o1 == o2,
{
    let m0 = init.update(1, noun).update(2, verb);
    let (ma, pa, na) = choose|mf: Seq<u32>, pf: int, n: nat|
        #[trigger] runs1_to(m0, 0, mf, pf, n) && spec_step1(mf, pf).2 == Ok::<bool, VmError>(true)
            && mf.len() > 0 && o1 == mf[0];
    let (mb, pb, nb) = choose|mf: Seq<u32>, pf: int, n: nat|
        #[trigger] runs1_to(m0, 0, mf, pf, n) && spec_step1(mf, pf).2 == Ok::<bool, VmError>(true)
            && mf.len() > 0 && o2 == mf[0];
    lemma_runs1_deterministic(m0, 0, ma, pa, na, mb, pb, nb);
}

/// Run a copy of `init_mem` with the given noun and verb and report cell
/// 0 of the halted memory. `Ok(v)` holds exactly the [`v1_output`]
/// result; an error means no such result exists.
pub fn get_output(noun: u32, verb: u32, init_mem: &Vec<u32>) -> (r: Result<u32, VmError>)
    requires
        init_mem@.len() >= 3,
    ensures
        r matches Ok(v) ==> v1_output(init_mem@, noun, verb, v),
        r matches Err(e) ==> forall|v: u32| !v1_output(init_mem@, noun, verb, v),
{
    let mut mem = init_mem.clone();
    mem[1] = noun;
    mem[2] = verb;
    let ghost m0 = init_mem@.update(1, noun).update(2, verb);
    proof {
        assert(mem@ =~= m0);
    }
    let r = process(&mut mem);
    let ghost (nf, pcf) = choose|n: nat, pcf: int|
        #[trigger] runs1_to(m0, 0, mem@, pcf, n) && spec_step1(mem@, pcf).2 == (match r {
            Ok(()) => Ok::<bool, VmError>(true),
            Err(e) => Err::<bool, VmError>(e),
        });
    proof {
        lemma_runs1_len(m0, 0, mem@, pcf, nf);
    }
    match r {
        Ok(()) => {
            let out = mem[0];
            proof {
                assert(runs1_to(m0, 0, mem@, pcf, nf) && spec_step1(mem@, pcf).2 == Ok::<
                    bool,
                    VmError,
                >(true) && mem@.len() > 0 && out == mem@[0]);
            }
            Ok(out)
        },
        Err(e) => {
            proof {
                assert forall|v: u32| !v1_output(init_mem@, noun, verb, v) by {
                    if v1_output(init_mem@, noun, verb, v) {
                        let (mf, pf, n2) = choose|mf: Seq<u32>, pf: int, n2: nat|
                            #[trigger] runs1_to(m0, 0, mf, pf, n2) && spec_step1(mf, pf).2
                                == Ok::<bool, VmError>(true) && mf.len() > 0 && v == mf[0];
                        lemma_runs1_deterministic(m0, 0, mf, pf, n2, mem@, pcf, nf);
                    }
                }
            }
            Err(e)
        },
    }
}

/// Search nouns and verbs 0 through 99 in lexicographic order for the
/// first pair that makes the machine output `out`. `None` means no pair
/// in that range does.
pub fn find_inputs_for(out: u32, init_mem: &Vec<u32>) -> (r: Option<(u32, u32)>)
    requires
        init_mem@.len() >= 3,
    ensures
        r matches Some(p) ==> p.0 < 100 && p.1 < 100 && v1_output(init_mem@, p.0, p.1, out)
            && (forall|i: u32, j: u32|
            i < 100 && j < 100 && (i < p.0 || (i == p.0 && j < p.1)) ==> !v1_output(
                init_mem@,
                i,
                j,
                out,
            )),
        r is None ==> forall|i: u32, j: u32|
            i < 100 && j < 100 ==> !v1_output(init_mem@, i, j, out),
{
    for i in 0..100u32
        invariant
            init_mem@.len() >= 3,
            forall|i2: u32, j2: u32|
                i2 < i && j2 < 100 ==> !v1_output(init_mem@, i2, j2, out),
    {
        for j in 0..100u32
            invariant
                init_mem@.len() >= 3,
                i < 100,
                forall|i2: u32, j2: u32|
                    i2 < i && j2 < 100 ==> !v1_output(init_mem@, i2, j2, out),
                forall|j2: u32| j2 < j ==> !v1_output(init_mem@, i, j2, out),
        {
            let res = get_output(i, j, init_mem);
            let hit = match res {
                Ok(v) => v == out,
                Err(_) => false,
            };
            if hit {
                return Some((i, j));
            }
            proof {
                if v1_output(init_mem@, i, j, out) {
                    match res {
                        Ok(v) => {
                            lemma_v1_output_unique(init_mem@, i, j, out, v);
                        },
                        Err(_) => {},
                    }
                    assert(false);
                }
            }
        }
    }
    None
}

} // verus!
