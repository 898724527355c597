//! The instruction consumer and the incremental signature generator.
//!
//! The disassembly service's answers arrive as plain data: for each
//! instruction its reported length, its raw bytes, and the constant operands
//! it references. A generator walks instructions forward from its start
//! address, so the answers it can ever need form a chain: entry `k` describes
//! the instruction at the start address plus the total length of the `k`
//! entries before it. The caller collects that chain up to the owning
//! function's end (or up to the first unusable instruction) and the
//! generators run entirely over it and the logical image.

use vstd::prelude::*;

use crate::image::LogicalImage;
use crate::scan::{find_signature, match_count};
use crate::sigbyte::{SigByte, SigError};

verus! {

/// One constant operand the disassembly service reports for an instruction:
/// its byte size, whether it is pointer-like, and its value.
pub struct ConstantRef {
    pub size: usize,
    pub is_pointer: bool,
    pub value: i64,
}

/// The disassembly service's answers for one instruction: its reported
/// length (absent when the service has none), its raw bytes, and its
/// constant operands (absent when the service cannot tell).
pub struct InstructionInfo {
    pub length: Option<usize>,
    pub bytes: Vec<u8>,
    pub constants: Option<Vec<ConstantRef>>,
}

impl InstructionInfo {
    /// A usable answer carries exactly as many raw bytes as the reported
    /// instruction length.
    pub open spec fn wf(&self) -> bool {
        match self.length {
            Some(n) => n > 0 ==> self.bytes@.len() == n,
            None => true,
        }
    }
}

/// How many bytes a constant contributes to wildcarding: its size when it is
/// pointer-like and nonzero, else nothing.
pub open spec fn qualifying_size(c: ConstantRef) -> int {
    if c.is_pointer && c.value != 0 {
        c.size as int
    } else {
        0
    }
}

/// The total number of wildcarded bytes: the sum of the qualifying
/// constants' sizes.
pub open spec fn wildcard_sum(cs: Seq<ConstantRef>) -> int
    decreases cs.len(),
{
    if cs.len() == 0 {
        0
    } else {
        wildcard_sum(cs.drop_last()) + qualifying_size(cs.last())
    }
}

/// The instruction's constants; an unavailable answer counts as none.
pub open spec fn constants_of(info: InstructionInfo) -> Seq<ConstantRef> {
    match info.constants {
        Some(cs) => cs@,
        None => Seq::empty(),
    }
}

/// What consuming one instruction yields: its length, absent or zero, is
/// `InvalidInstruction`; wildcarding that covers the whole instruction is
/// `OversizedWildcard`; otherwise a run as long as the instruction whose
/// leading bytes are literal and whose trailing wildcarded bytes are
/// wildcards.
pub open spec fn consume_spec(info: InstructionInfo) -> Result<Seq<SigByte>, SigError> {
    match info.length {
        None => Err(SigError::InvalidInstruction),
        Some(n) => if n == 0 {
            Err(SigError::InvalidInstruction)
        } else if wildcard_sum(constants_of(info)) >= n {
            Err(SigError::OversizedWildcard)
        } else {
            Ok(
                Seq::new(
                    n as nat,
                    |i: int|
                        if i < n - wildcard_sum(constants_of(info)) {
                            SigByte::Match(info.bytes@[i])
                        } else {
                            SigByte::Wildcard
                        },
                ),
            )
        },
    }
}

/// The run a successfully consumed instruction contributes.
pub open spec fn run_of(info: InstructionInfo) -> Seq<SigByte> {
    match consume_spec(info) {
        Ok(s) => s,
        Err(_) => Seq::empty(),
    }
}

/// Whether an executable result agrees with a specification-level one.
pub open spec fn res_eq(r: Result<Vec<SigByte>, SigError>, s: Result<Seq<SigByte>, SigError>) -> bool {
    match (r, s) {
        (Ok(v), Ok(q)) => v@ == q,
        (Err(a), Err(b)) => a == b,
        _ => false,
    }
}

/// A prefix of the constants never sums to more than the whole list.
proof fn lemma_wildcard_sum_prefix(cs: Seq<ConstantRef>, m: int)
    requires
        0 <= m <= cs.len(),
    ensures
        wildcard_sum(cs.take(m)) <= wildcard_sum(cs),
    decreases cs.len(),
{
    if m < cs.len() {
        assert(cs.drop_last().take(m) =~= cs.take(m));
        lemma_wildcard_sum_prefix(cs.drop_last(), m);
    } else {
        assert(cs.take(m) =~= cs);
    }
}

/// Turns the disassembly service's answers for one instruction into
/// signature bytes.
///
/// Succeeds exactly when the reported length is present and positive and the
/// qualifying constants' sizes sum to less than it; the run is then as long
/// as the instruction, literal bytes first, wildcards for the tail.
pub fn consume_instruction(info: &InstructionInfo) -> (r: Result<Vec<SigByte>, SigError>)
    requires
        info.wf(),
    ensures
        res_eq(r, consume_spec(*info)),
        r is Ok <==> (match info.length {
            Some(n) => n > 0 && wildcard_sum(constants_of(*info)) < n,
            None => false,
        }),
{
    let n: usize = match info.length {
        Some(n) => n,
        None => {
            return Err(SigError::InvalidInstruction);
        },
    };
    if n == 0 {
        return Err(SigError::InvalidInstruction);
    }
    let mut wildcard: usize = 0;
    match &info.constants {
        None => {},
        Some(cs) => {
            let mut idx: usize = 0;
            while idx < cs.len()
                invariant
                    idx <= cs@.len(),
                    info.wf(),
                    info.length == Some(n),
                    n > 0,
                    wildcard == wildcard_sum(cs@.take(idx as int)),
                    wildcard < n,
                    constants_of(*info) == cs@,
                decreases cs.len() - idx,
            {
                let c = &cs[idx];
                proof {
                    assert(cs@.take(idx + 1).drop_last() =~= cs@.take(idx as int));
                    assert(cs@.take(idx + 1).last() == cs@[idx as int]);
                }
                if c.is_pointer && c.value != 0 {
                    if c.size >= n - wildcard {
                        proof {
                            assert(wildcard_sum(cs@.take(idx + 1)) >= n);
                            lemma_wildcard_sum_prefix(cs@, idx + 1);
                        }
                        return Err(SigError::OversizedWildcard);
                    }
                    wildcard += c.size;
                }
                idx += 1;
            }
            proof {
                assert(cs@.take(cs@.len() as int) =~= cs@);
            }
        },
    }
    let keep: usize = n - wildcard;
    let mut sig: Vec<SigByte> = Vec::new();
    let mut i: usize = 0;
    while i < keep
        invariant
            keep <= n,
            n == info.bytes@.len(),
            i <= keep,
            sig@.len() == i,
            forall|j: int| 0 <= j < i ==> sig@[j] == SigByte::Match(info.bytes@[j]),
        decreases keep - i,
    {
        sig.push(SigByte::Match(info.bytes[i]));
        i += 1;
    }
    while i < n
        invariant
            keep <= n,
            i <= n,
            sig@.len() == i,
            keep <= i,
            forall|j: int| 0 <= j < keep ==> sig@[j] == SigByte::Match(info.bytes@[j]),
            forall|j: int| keep <= j < i ==> sig@[j] == SigByte::Wildcard,
        decreases n - i,
    {
        sig.push(SigByte::Wildcard);
        i += 1;
    }
    proof {
        assert(sig@ =~= match consume_spec(*info) {
            Ok(s) => s,
            Err(_) => Seq::empty(),
        });
    }
    Ok(sig)
}

/// The highest end address among a function's basic blocks, or zero when it
/// has none: the hard ceiling on signature growth.
pub fn find_func_end(block_ends: &Vec<u64>) -> (r: u64)
    ensures
        forall|i: int| 0 <= i < block_ends@.len() ==> block_ends@[i] <= r,
        r == 0 || exists|i: int| 0 <= i < block_ends@.len() && block_ends@[i] == r,
{
    let mut func_end: u64 = 0;
    let mut i: usize = 0;
    while i < block_ends.len()
        invariant
            i <= block_ends@.len(),
            forall|j: int| 0 <= j < i ==> block_ends@[j] <= func_end,
            func_end == 0 || exists|j: int| 0 <= j < i && block_ends@[j] == func_end,
        decreases block_ends.len() - i,
    {
        let e = block_ends[i];
        if e > func_end {
            func_end = e;
        }
        i += 1;
    }
    func_end
}

/// Whether an answer reports a usable (present, positive) length.
pub open spec fn valid_len(info: InstructionInfo) -> bool {
    match info.length {
        Some(n) => n > 0,
        None => false,
    }
}

/// An entry's length contribution to the chain's addresses.
pub open spec fn info_len(info: InstructionInfo) -> int {
    match info.length {
        Some(n) => n as int,
        None => 0,
    }
}

/// The address chain entry `k` describes: the start address plus the lengths
/// of the `k` entries before it.
pub open spec fn entry_addr(infos: Seq<InstructionInfo>, start: int, k: int) -> int
    decreases k,
{
    if k <= 0 {
        start
    } else {
        entry_addr(infos, start, k - 1) + info_len(infos[k - 1])
    }
}

/// What the caller-collected chain must look like: every answer well formed,
/// every entry but possibly the last with a usable length, every address
/// representable, and the chain complete — it stops only at an unusable
/// entry or once it has reached the function's end.
pub open spec fn chain_wf(infos: Seq<InstructionInfo>, start: int, func_end: int) -> bool {
    &&& forall|k: int| 0 <= k < infos.len() ==> (#[trigger] infos[k]).wf()
    &&& forall|k: int| 0 <= k < infos.len() - 1 ==> valid_len(#[trigger] infos[k])
    &&& forall|k: int| 0 <= k <= infos.len() ==> entry_addr(infos, start, k) <= u64::MAX
    &&& (infos.len() == 0 ==> start >= func_end)
    &&& (infos.len() > 0 && valid_len(infos.last()) ==> entry_addr(
        infos,
        start,
        infos.len() as int,
    ) >= func_end)
}

/// Whether the first `k` chain entries all consume successfully.
pub open spec fn runs_ok(infos: Seq<InstructionInfo>, k: int) -> bool {
    forall|j: int| 0 <= j < k ==> consume_spec(#[trigger] infos[j]) is Ok
}

/// The signature made of the first `k` chain entries' runs, in order.
pub open spec fn runs_concat(infos: Seq<InstructionInfo>, k: int) -> Seq<SigByte>
    decreases k,
{
    if k <= 0 {
        Seq::empty()
    } else {
        runs_concat(infos, k - 1) + run_of(infos[k - 1])
    }
}

/// A signature of successfully consumed runs is exactly as long as the
/// distance from the start address to the next entry's address.
pub proof fn lemma_runs_concat_len(infos: Seq<InstructionInfo>, start: int, k: int)
    requires
        0 <= k <= infos.len(),
        runs_ok(infos, k),
    ensures
        runs_concat(infos, k).len() == entry_addr(infos, start, k) - start,
    decreases k,
{
    if k > 0 {
        lemma_runs_concat_len(infos, start, k - 1);
        assert(consume_spec(infos[k - 1]) is Ok);
        assert(run_of(infos[k - 1]).len() == info_len(infos[k - 1]));
    }
}

/// The incremental generator's iteration cap: growth that has not produced a
/// unique signature after this many appended instructions fails instead.
pub const ITER_LIMIT: usize = 25;

/// One state of the incremental generator: the signature so far (the runs of
/// the first `k` chain entries) and how many appends the loop has done. Each
/// round first probes the image: fewer than two matches means the signature
/// is unique and is returned. Otherwise the next instruction is appended,
/// unless that would cross the function's end, the instruction is unusable,
/// or the iteration cap is hit. A well-formed chain always holds the entry
/// the step needs, so the out-of-chain guard is never the answer.
pub open spec fn incr_step(
    img: Seq<u8>,
    offset: int,
    func_end: int,
    infos: Seq<InstructionInfo>,
    k: int,
    sig: Seq<SigByte>,
    iter: int,
) -> Result<Seq<SigByte>, SigError>
    decreases infos.len() - k,
{
    if match_count(sig, img) < 2 {
        Ok(sig)
    } else if offset + sig.len() >= func_end {
        Err(SigError::FuncLimitExceeded)
    } else if k < 0 || k >= infos.len() {
        Err(SigError::FuncLimitExceeded)
    } else {
        match consume_spec(infos[k]) {
            Err(e) => Err(e),
            Ok(run) => if iter + 1 >= ITER_LIMIT {
                Err(SigError::IterLimitExceeded)
            } else {
                incr_step(img, offset, func_end, infos, k + 1, sig + run, iter + 1)
            },
        }
    }
}

/// What the incremental generator returns: the first instruction's run,
/// grown by [`incr_step`] until unique or failed.
pub open spec fn incremental_spec(
    img: Seq<u8>,
    offset: int,
    func_end: int,
    infos: Seq<InstructionInfo>,
) -> Result<Seq<SigByte>, SigError> {
    match consume_spec(infos[0]) {
        Err(e) => Err(e),
        Ok(run0) => incr_step(img, offset, func_end, infos, 1, run0, 0),
    }
}

/// Grows a signature instruction by instruction from `offset`, re-probing
/// the whole image after each append, until fewer than two offsets match.
///
/// The result is exactly [`incremental_spec`]: on success the signature is
/// unique in the image (fewer than two scanner matches) and is the
/// concatenation of the first `m` instruction runs for some `m` — the
/// generator only ever appends. It fails once growth would reach `func_end`,
/// when an instruction cannot be consumed, or at the iteration cap.
pub fn generate_signature(
    image: &LogicalImage,
    offset: u64,
    func_end: u64,
    instructions: &Vec<InstructionInfo>,
) -> (r: Result<Vec<SigByte>, SigError>)
    requires
        image.wf(),
        instructions@.len() >= 1,
        chain_wf(instructions@, offset as int, func_end as int),
    ensures
        res_eq(
            r,
            incremental_spec(image.bytes@, offset as int, func_end as int, instructions@),
        ),
        r matches Ok(sig) ==> match_count(sig@, image.bytes@) < 2,
        r matches Ok(sig) ==> exists|m: int|
            1 <= m <= instructions@.len() && runs_ok(instructions@, m) && sig@ == runs_concat(
                instructions@,
                m,
            ),
{
    let ghost goal = incremental_spec(
        image.bytes@,
        offset as int,
        func_end as int,
        instructions@,
    );
    let first = consume_instruction(&instructions[0]);
    let mut signature: Vec<SigByte> = match first {
        Ok(v) => v,
        Err(e) => {
            return Err(e);
        },
    };
    let mut k: usize = 1;
    let mut iter: usize = 0;
    proof {
        assert(runs_concat(instructions@, 0) =~= Seq::<SigByte>::empty());
        assert(runs_concat(instructions@, 1) =~= run_of(instructions@[0]));
    }
    loop
        invariant
            image.wf(),
            instructions@.len() >= 1,
            chain_wf(instructions@, offset as int, func_end as int),
            1 <= k <= instructions@.len(),
            iter < ITER_LIMIT,
            runs_ok(instructions@, k as int),
            signature@ == runs_concat(instructions@, k as int),
            goal == incremental_spec(
                image.bytes@,
                offset as int,
                func_end as int,
                instructions@,
            ),
            incr_step(
                image.bytes@,
                offset as int,
                func_end as int,
                instructions@,
                k as int,
                signature@,
                iter as int,
            ) == goal,
        decreases instructions@.len() - k,
    {
        let found = find_signature(&signature, image, 2);
        if found.len() < 2 {
            proof {
                assert(match_count(signature@, image.bytes@) < 2);
                assert(incr_step(
                    image.bytes@,
                    offset as int,
                    func_end as int,
                    instructions@,
                    k as int,
                    signature@,
                    iter as int,
                ) == Ok::<Seq<SigByte>, SigError>(signature@));
                assert(runs_ok(instructions@, k as int) && signature@ == runs_concat(
                    instructions@,
                    k as int,
                ));
            }
            return Ok(signature);
        }
        proof {
            assert(match_count(signature@, image.bytes@) >= 2);
            lemma_runs_concat_len(instructions@, offset as int, k as int);
            assert(offset + signature@.len() == entry_addr(
                instructions@,
                offset as int,
                k as int,
            ));
        }
        let next_addr: u64 = offset + signature.len() as u64;
        if func_end <= next_addr {
            return Err(SigError::FuncLimitExceeded);
        }
        proof {
            if k as int == instructions@.len() {
                assert forall|j: int| 0 <= j < instructions@.len() implies valid_len(
                    #[trigger] instructions@[j],
                ) by {
                    assert(consume_spec(instructions@[j]) is Ok);
                }
                assert(valid_len(instructions@.last()));
                assert(entry_addr(instructions@, offset as int, instructions@.len() as int)
                    >= func_end);
                assert(false);
            }
            assert((k as int) < instructions@.len());
        }
        let step = consume_instruction(&instructions[k]);
        match step {
            Err(e) => {
                return Err(e);
            },
            Ok(mut run) => {
                proof {
                    assert(run@ == run_of(instructions@[k as int]));
                    assert(consume_spec(instructions@[k as int]) is Ok);
                    assert(runs_ok(instructions@, k + 1));
                    assert(runs_concat(instructions@, k + 1) == runs_concat(
                        instructions@,
                        k as int,
                    ) + run_of(instructions@[k as int]));
                }
                signature.append(&mut run);
                iter += 1;
                if iter >= ITER_LIMIT {
                    return Err(SigError::IterLimitExceeded);
                }
                let total = instructions.len();
                assert(k < total);
                k += 1;
            },
        }
    }
}

} // verus!
