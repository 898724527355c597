//! The linear, collision-aware signature generator.
//!
//! Instead of re-scanning the whole image after every append, this strategy
//! sweeps every candidate offset once. Wherever the signature built so far
//! also matches — a collision — it is extended with the next instruction of
//! the target function until the collision is gone. Because the signature
//! only ever grows, resolving a collision can never resurrect an earlier
//! one. A final hardening phase appends a few more instructions when the
//! function still has room, for resilience against future patching.

use vstd::prelude::*;

use crate::generate::{
    chain_wf, consume_instruction, consume_spec, entry_addr, lemma_runs_concat_len, res_eq,
    run_of, runs_concat, runs_ok, InstructionInfo,
};
use crate::image::LogicalImage;
use crate::scan::{matches_at, scan_bound, sig_matches};
use crate::sigbyte::{SigByte, SigError};

verus! {

/// How many extra instructions the hardening phase tries to append.
pub const HARDEN_COUNT: usize = 3;

/// The termination measure for collision extension: how much longer the
/// signature can get before it can no longer match anywhere in the image.
pub open spec fn extend_measure(img_len: int, sig_len: int) -> int {
    if sig_len <= img_len {
        img_len + 1 - sig_len
    } else {
        0
    }
}

/// Collision extension at candidate offset `a`: while the signature matches
/// there, append the next instruction of the target function, failing once
/// growth would reach the function's end or an instruction is unusable. A
/// well-formed chain always holds the entry the step needs, so the
/// out-of-chain guard is never the answer.
pub open spec fn lin_extend(
    img: Seq<u8>,
    sig_addr: int,
    func_end: int,
    infos: Seq<InstructionInfo>,
    a: int,
    k: int,
    sig: Seq<SigByte>,
) -> Result<(Seq<SigByte>, int), SigError>
    decreases extend_measure(img.len() as int, sig.len() as int),
{
    if !matches_at(sig, img, a) {
        Ok((sig, k))
    } else if sig_addr + sig.len() >= func_end {
        Err(SigError::FuncLimitExceeded)
    } else if k < 0 || k >= infos.len() {
        Err(SigError::FuncLimitExceeded)
    } else {
        match consume_spec(infos[k]) {
            Err(e) => Err(e),
            Ok(run) => lin_extend(img, sig_addr, func_end, infos, a, k + 1, sig + run),
        }
    }
}

/// The sweep over candidate offsets `a .. bound`, skipping the target
/// address itself, resolving each collision by [`lin_extend`].
pub open spec fn lin_sweep(
    img: Seq<u8>,
    img_start: int,
    sig_addr: int,
    func_end: int,
    infos: Seq<InstructionInfo>,
    a: int,
    bound: int,
    k: int,
    sig: Seq<SigByte>,
) -> Result<(Seq<SigByte>, int), SigError>
    decreases bound - a,
{
    if a >= bound {
        Ok((sig, k))
    } else if img_start + a == sig_addr {
        lin_sweep(img, img_start, sig_addr, func_end, infos, a + 1, bound, k, sig)
    } else {
        match lin_extend(img, sig_addr, func_end, infos, a, k, sig) {
            Err(e) => Err(e),
            Ok((s2, k2)) => lin_sweep(img, img_start, sig_addr, func_end, infos, a + 1, bound, k2, s2),
        }
    }
}

/// The hardening phase: up to [`HARDEN_COUNT`] extra appends, each skipped
/// rather than failed when the function's end is reached or an instruction
/// is unusable — the signature kept so far is still returned.
pub open spec fn lin_harden(
    sig_addr: int,
    func_end: int,
    infos: Seq<InstructionInfo>,
    j: int,
    k: int,
    sig: Seq<SigByte>,
) -> Seq<SigByte>
    decreases HARDEN_COUNT - j,
{
    if j >= HARDEN_COUNT {
        sig
    } else if sig_addr + sig.len() >= func_end {
        sig
    } else if k < 0 || k >= infos.len() {
        sig
    } else {
        match consume_spec(infos[k]) {
            Err(_) => sig,
            Ok(run) => lin_harden(sig_addr, func_end, infos, j + 1, k + 1, sig + run),
        }
    }
}

/// What the linear generator returns: the sweep from an empty signature over
/// every candidate offset, then hardening.
pub open spec fn linear_spec(
    img: Seq<u8>,
    img_start: int,
    sig_addr: int,
    func_end: int,
    infos: Seq<InstructionInfo>,
) -> Result<Seq<SigByte>, SigError> {
    match lin_sweep(
        img,
        img_start,
        sig_addr,
        func_end,
        infos,
        0,
        scan_bound(0, img.len() as int),
        0,
        Seq::empty(),
    ) {
        Err(e) => Err(e),
        Ok((s, k)) => Ok(lin_harden(sig_addr, func_end, infos, 0, k, s)),
    }
}

/// A complete chain always holds the entry for the next consume: once every
/// run so far succeeded and the next address is still inside the function,
/// the chain cannot already be exhausted.
pub proof fn lemma_chain_has_next(
    infos: Seq<InstructionInfo>,
    start: int,
    func_end: int,
    k: int,
)
    requires
        chain_wf(infos, start, func_end),
        0 <= k <= infos.len(),
        runs_ok(infos, k),
        entry_addr(infos, start, k) < func_end,
    ensures
        k < infos.len(),
{
    if k == infos.len() {
        if infos.len() == 0 {
        } else {
            assert forall|j: int| 0 <= j < infos.len() implies crate::generate::valid_len(
                #[trigger] infos[j],
            ) by {
                assert(consume_spec(infos[j]) is Ok);
            }
            assert(crate::generate::valid_len(infos.last()));
        }
    }
}

/// Sweeps every candidate offset of the image once, extending the signature
/// out of the target function wherever it still collides, then hardens it.
///
/// The result is exactly [`linear_spec`]: on success the signature is the
/// concatenation of the first `m` instruction runs for some `m` — the
/// generator only ever appends — and it matches at no swept offset other
/// than the target address's own. It fails once collision resolution would
/// reach `func_end` or meets an unusable instruction.
pub fn linear_generate_signature(
    image: &LogicalImage,
    sig_address: u64,
    func_end: u64,
    instructions: &Vec<InstructionInfo>,
) -> (r: Result<Vec<SigByte>, SigError>)
    requires
        image.wf(),
        chain_wf(instructions@, sig_address as int, func_end as int),
    ensures
        res_eq(
            r,
            linear_spec(
                image.bytes@,
                image.start as int,
                sig_address as int,
                func_end as int,
                instructions@,
            ),
        ),
        r matches Ok(sig) ==> exists|m: int|
            0 <= m <= instructions@.len() && runs_ok(instructions@, m) && sig@ == runs_concat(
                instructions@,
                m,
            ),
        r matches Ok(sig) ==> forall|off: int|
            0 <= off < scan_bound(0, image.bytes@.len() as int) && image.start + off
                != sig_address ==> !matches_at(sig@, image.bytes@, off),
{
    let ghost img = image.bytes@;
    let ghost infos = instructions@;
    let ghost bound = scan_bound(0, img.len() as int);
    let ghost sweep_goal = lin_sweep(
        img,
        image.start as int,
        sig_address as int,
        func_end as int,
        infos,
        0,
        bound,
        0,
        Seq::empty(),
    );
    let bound_exec: usize = if image.bytes.len() >= 1 {
        image.bytes.len() - 1
    } else {
        0
    };
    let mut signature: Vec<SigByte> = Vec::new();
    let mut k: usize = 0;
    let mut a: usize = 0;
    proof {
        assert(runs_concat(infos, 0) =~= Seq::<SigByte>::empty());
        assert(signature@ =~= runs_concat(infos, 0));
    }
    while a < bound_exec
        invariant
            image.wf(),
            chain_wf(infos, sig_address as int, func_end as int),
            img == image.bytes@,
            infos == instructions@,
            bound == scan_bound(0, img.len() as int),
            bound_exec == bound,
            a <= bound_exec,
            k <= infos.len(),
            runs_ok(infos, k as int),
            signature@ == runs_concat(infos, k as int),
            sweep_goal == lin_sweep(
                img,
                image.start as int,
                sig_address as int,
                func_end as int,
                infos,
                0,
                bound,
                0,
                Seq::empty(),
            ),
            lin_sweep(
                img,
                image.start as int,
                sig_address as int,
                func_end as int,
                infos,
                a as int,
                bound,
                k as int,
                signature@,
            ) == sweep_goal,
            forall|off: int|
                0 <= off < a && image.start + off != sig_address ==> !matches_at(
                    signature@,
                    img,
                    off,
                ),
        decreases bound_exec - a,
    {
        if image.start + (a as u64) == sig_address {
            a += 1;
            continue;
        }
        let ghost sig0 = signature@;
        let ghost k0 = k as int;
        while sig_matches(&signature, &image.bytes, a as u64)
            invariant
                image.wf(),
                chain_wf(infos, sig_address as int, func_end as int),
                img == image.bytes@,
                infos == instructions@,
                a < bound_exec,
                bound == scan_bound(0, img.len() as int),
                bound_exec == bound,
                image.start + a != sig_address,
                sweep_goal == lin_sweep(
                    img,
                    image.start as int,
                    sig_address as int,
                    func_end as int,
                    infos,
                    0,
                    bound,
                    0,
                    Seq::empty(),
                ),
                lin_sweep(
                    img,
                    image.start as int,
                    sig_address as int,
                    func_end as int,
                    infos,
                    a as int,
                    bound,
                    k0,
                    sig0,
                ) == sweep_goal,
                k <= infos.len(),
                runs_ok(infos, k as int),
                signature@ == runs_concat(infos, k as int),
                lin_extend(
                    img,
                    sig_address as int,
                    func_end as int,
                    infos,
                    a as int,
                    k as int,
                    signature@,
                ) == lin_extend(
                    img,
                    sig_address as int,
                    func_end as int,
                    infos,
                    a as int,
                    k0,
                    sig0,
                ),
                forall|off: int|
                    0 <= off < a && image.start + off != sig_address ==> !matches_at(
                        signature@,
                        img,
                        off,
                    ),
            decreases extend_measure(img.len() as int, signature@.len() as int),
        {
            proof {
                lemma_runs_concat_len(infos, sig_address as int, k as int);
            }
            let next_addr: u64 = sig_address + signature.len() as u64;
            if func_end <= next_addr {
                proof {
                    assert(lin_extend(
                        img,
                        sig_address as int,
                        func_end as int,
                        infos,
                        a as int,
                        k0,
                        sig0,
                    ) == Err::<(Seq<SigByte>, int), SigError>(SigError::FuncLimitExceeded));
                }
                return Err(SigError::FuncLimitExceeded);
            }
            proof {
                lemma_chain_has_next(infos, sig_address as int, func_end as int, k as int);
            }
            let step = consume_instruction(&instructions[k]);
            match step {
                Err(e) => {
                    proof {
                        assert(lin_extend(
                            img,
                            sig_address as int,
                            func_end as int,
                            infos,
                            a as int,
                            k0,
                            sig0,
                        ) == Err::<(Seq<SigByte>, int), SigError>(e));
                    }
                    return Err(e);
                },
                Ok(mut run) => {
                    let ghost old_sig = signature@;
                    proof {
                        assert(run@ == run_of(infos[k as int]));
                        assert(run@.len() >= 1);
                        assert(consume_spec(infos[k as int]) is Ok);
                        assert(runs_ok(infos, k + 1));
                        assert(runs_concat(infos, k + 1) == runs_concat(infos, k as int) + run_of(
                            infos[k as int],
                        ));
                    }
                    signature.append(&mut run);
                    proof {
                        assert forall|off: int|
                            0 <= off < a && image.start + off != sig_address implies !matches_at(
                            signature@,
                            img,
                            off,
                        ) by {
                            crate::scan::lemma_extension_preserves_mismatch(
                                old_sig,
                                run_of(infos[k as int]),
                                img,
                                off,
                            );
                        }
                    }
                    let total = instructions.len();
                    assert(k < total);
                    k += 1;
                },
            }
        }
        proof {
            assert(lin_extend(
                img,
                sig_address as int,
                func_end as int,
                infos,
                a as int,
                k as int,
                signature@,
            ) == Ok::<(Seq<SigByte>, int), SigError>((signature@, k as int)));
            assert(lin_sweep(
                img,
                image.start as int,
                sig_address as int,
                func_end as int,
                infos,
                a as int,
                bound,
                k0,
                sig0,
            ) == lin_sweep(
                img,
                image.start as int,
                sig_address as int,
                func_end as int,
                infos,
                a + 1,
                bound,
                k as int,
                signature@,
            ));
        }
        a += 1;
    }
    // the sweep is done: the signature collides nowhere but possibly at the
    // target address itself; now harden it while the function has room
    let ghost sweep_sig = signature@;
    let ghost sweep_k = k as int;
    let ghost harden_goal = lin_harden(
        sig_address as int,
        func_end as int,
        infos,
        0,
        sweep_k,
        sweep_sig,
    );
    proof {
        assert(sweep_goal == Ok::<(Seq<SigByte>, int), SigError>((sweep_sig, sweep_k)));
    }
    let mut j: usize = 0;
    while j < HARDEN_COUNT
        invariant_except_break
            image.wf(),
            chain_wf(infos, sig_address as int, func_end as int),
            img == image.bytes@,
            infos == instructions@,
            bound == scan_bound(0, img.len() as int),
            sweep_goal == lin_sweep(
                img,
                image.start as int,
                sig_address as int,
                func_end as int,
                infos,
                0,
                bound,
                0,
                Seq::empty(),
            ),
            sweep_goal == Ok::<(Seq<SigByte>, int), SigError>((sweep_sig, sweep_k)),
            harden_goal == lin_harden(
                sig_address as int,
                func_end as int,
                infos,
                0,
                sweep_k,
                sweep_sig,
            ),
            j <= HARDEN_COUNT,
            k <= infos.len(),
            runs_ok(infos, k as int),
            signature@ == runs_concat(infos, k as int),
            lin_harden(
                sig_address as int,
                func_end as int,
                infos,
                j as int,
                k as int,
                signature@,
            ) == harden_goal,
            forall|off: int|
                0 <= off < bound && image.start + off != sig_address ==> !matches_at(
                    signature@,
                    img,
                    off,
                ),
        ensures
            img == image.bytes@,
            infos == instructions@,
            bound == scan_bound(0, img.len() as int),
            sweep_goal == lin_sweep(
                img,
                image.start as int,
                sig_address as int,
                func_end as int,
                infos,
                0,
                bound,
                0,
                Seq::empty(),
            ),
            sweep_goal == Ok::<(Seq<SigByte>, int), SigError>((sweep_sig, sweep_k)),
            harden_goal == lin_harden(
                sig_address as int,
                func_end as int,
                infos,
                0,
                sweep_k,
                sweep_sig,
            ),
            k <= infos.len(),
            runs_ok(infos, k as int),
            signature@ == runs_concat(infos, k as int),
            signature@ == harden_goal,
            forall|off: int|
                0 <= off < bound && image.start + off != sig_address ==> !matches_at(
                    signature@,
                    img,
                    off,
                ),
        decreases HARDEN_COUNT - j,
    {
        proof {
            lemma_runs_concat_len(infos, sig_address as int, k as int);
        }
        let next_addr: u64 = sig_address + signature.len() as u64;
        if func_end <= next_addr {
            break;
        }
        proof {
            lemma_chain_has_next(infos, sig_address as int, func_end as int, k as int);
        }
        let step = consume_instruction(&instructions[k]);
        match step {
            Err(_) => {
                break;
            },
            Ok(mut run) => {
                let ghost old_sig = signature@;
                proof {
                    assert(run@ == run_of(infos[k as int]));
                    assert(consume_spec(infos[k as int]) is Ok);
                    assert(runs_ok(infos, k + 1));
                    assert(runs_concat(infos, k + 1) == runs_concat(infos, k as int) + run_of(
                        infos[k as int],
                    ));
                }
                signature.append(&mut run);
                proof {
                    assert forall|off: int|
                        0 <= off < bound && image.start + off != sig_address implies !matches_at(
                        signature@,
                        img,
                        off,
                    ) by {
                        crate::scan::lemma_extension_preserves_mismatch(
                            old_sig,
                            run_of(infos[k as int]),
                            img,
                            off,
                        );
                    }
                }
                let total = instructions.len();
                assert(k < total);
                k += 1;
                j += 1;
            },
        }
    }
    proof {
        assert(linear_spec(
            img,
            image.start as int,
            sig_address as int,
            func_end as int,
            infos,
        ) == Ok::<Seq<SigByte>, SigError>(harden_goal));
    }
    Ok(signature)
}

} // verus!
