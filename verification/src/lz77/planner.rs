//! The greedy planner: which instructions stand for an input.
//!
//! The planner walks the input once. Behind the cursor lies a window of
//! bytes already planned; ahead of it a pending match grows while the
//! window still holds it. A match that ends where the window ends may
//! repeat itself past the window's edge.

use super::search::{
    contains_slice, find_offset, lemma_nearest_offset, lemma_occurs_prefix, nearest_offset,
    occurs_in,
};
use super::stream::{
    encode, encode_instructions, expand, expand_one, expand_onto, instruction_fits,
    lemma_decode_encode, lemma_expand_concat, lemma_shift_bounds, lemma_well_formed_concat,
    decode, max_count, max_offset, replay, valid_profile, well_formed, well_formed_onto,
    Instruction,
};
use vstd::prelude::*;

verus! {

/// Where the planner stands.
pub struct Scan {
    /// How many bytes of the input the plan covers.
    pub done: int,
    /// The length of the pending match, which starts where the plan ends.
    pub run: int,
    /// How far behind its start the pending match is found.
    pub offset: int,
    /// The instructions planned so far.
    pub plan: Seq<Instruction>,
}

/// The bytes that a match starting at `done` may refer to: the last
/// `reach` bytes before it, or all of them where there are fewer.
pub open spec fn window(s: Seq<u8>, done: int, reach: int) -> Seq<u8> {
    s.subrange(
        if done > reach {
            done - reach
        } else {
            0
        },
        done,
    )
}

/// One literal for each byte.
pub open spec fn literals(bytes: Seq<u8>) -> Seq<Instruction> {
    Seq::new(bytes.len(), |i: int| Instruction::Literal(bytes[i]))
}

/// How many bytes from `pos` on, `limit` at most, repeat the byte `period`
/// places before them.
pub open spec fn run_extent(s: Seq<u8>, pos: int, period: int, limit: int) -> int
    decreases limit,
{
    if limit <= 0 || pos >= s.len() || pos < period || period <= 0 || s[pos] != s[pos - period] {
        0
    } else {
        1 + run_extent(s, pos + 1, period, limit - 1)
    }
}

/// The state after the pending match of `run` bytes is written out: as
/// literals where it is shorter than three bytes, else as one reference.
pub open spec fn flushed(s: Seq<u8>, done: int, run: int, offset: int, plan: Seq<Instruction>) -> Scan {
    Scan {
        done: done + run,
        run: 0,
        offset: 0,
        plan: if run < 3 {
            plan + literals(s.subrange(done, done + run))
        } else {
            plan.push(Instruction::Reference { length: run as usize, offset: offset as usize })
        },
    }
}

/// The state after the byte at `done` is written out as a literal.
pub open spec fn literal_taken(s: Seq<u8>, done: int, plan: Seq<Instruction>) -> Scan {
    Scan { done: done + 1, run: 0, offset: 0, plan: plan.push(Instruction::Literal(s[done])) }
}

/// One move of the planner, from a state with input left.
///
/// With no match pending, the next byte starts one if the window holds it
/// and it is not the last byte; else it is a literal. A pending match that
/// ends at the window's edge and whose first byte comes next repeats
/// itself as far as the input does and the profile lets it; it is written
/// out if that fills the profile's length or uses up the input. Else the
/// match grows by the next byte if the window holds the longer run, and is
/// written out if not, or if it cannot grow, or if the input ends. A match
/// of two bytes that cannot grow gives up its second byte where the two
/// differ or where the window holds the second byte with its successor.
pub open spec fn step(s: Seq<u8>, st: Scan, low_bits: usize, ref_bytes: usize) -> Scan {
    let limit = max_count(low_bits, ref_bytes);
    let behind = window(s, st.done, max_offset(low_bits, ref_bytes));
    if st.run == 0 {
        let first = s.subrange(st.done, st.done + 1);
        if occurs_in(behind, first) && st.done + 1 != s.len() {
            Scan { done: st.done, run: 1, offset: nearest_offset(behind, first), plan: st.plan }
        } else {
            literal_taken(s, st.done, st.plan)
        }
    } else {
        let repeats = st.run == st.offset && s[st.done + st.run] == s[st.done];
        let run = if repeats {
            st.run + run_extent(s, st.done + st.run, st.offset, limit - st.run)
        } else {
            st.run
        };
        if repeats && (run == limit || st.done + run == s.len()) {
            flushed(s, st.done, run, st.offset, st.plan)
        } else {
            let longer = s.subrange(st.done, st.done + run + 1);
            if !occurs_in(behind, longer) {
                if run == 2 && (s[st.done] != s[st.done + 1] || occurs_in(
                    behind,
                    s.subrange(st.done + 1, st.done + 3),
                )) {
                    literal_taken(s, st.done, st.plan)
                } else {
                    flushed(s, st.done, run, st.offset, st.plan)
                }
            } else if run == limit {
                flushed(
                    s,
                    st.done,
                    run,
                    nearest_offset(behind, s.subrange(st.done, st.done + run)),
                    st.plan,
                )
            } else {
                let offset = nearest_offset(behind, longer);
                if st.done + run + 1 == s.len() {
                    flushed(s, st.done, run + 1, offset, st.plan)
                } else {
                    Scan { done: st.done, run: run + 1, offset, plan: st.plan }
                }
            }
        }
    }
}

/// The extent of a repeat is between nothing and the limit, and stays
/// within the input; each byte of it repeats the byte `period` before it.
pub proof fn lemma_run_extent(s: Seq<u8>, pos: int, period: int, limit: int)
    requires
        0 <= pos,
    ensures
        0 <= run_extent(s, pos, period, limit),
        run_extent(s, pos, period, limit) <= limit || limit < 0,
        pos + run_extent(s, pos, period, limit) <= s.len() || pos > s.len(),
        forall|i: int|
            pos <= i < pos + run_extent(s, pos, period, limit) ==> #[trigger] s[i] == s[i
                - period],
    decreases limit,
{
    if limit <= 0 || pos >= s.len() || pos < period || period <= 0 || s[pos] != s[pos - period] {
    } else {
        lemma_run_extent(s, pos + 1, period, limit - 1);
    }
}

/// Whether a step from `st` leaves less to do: more bytes planned, or as
/// many and a longer pending match.
pub open spec fn advances(st: Scan, next: Scan) -> bool {
    next.done > st.done || (next.done == st.done && next.run > st.run)
}

/// Every step from a state with input left leaves less to do.
pub proof fn lemma_step_advances(s: Seq<u8>, st: Scan, low_bits: usize, ref_bytes: usize)
    requires
        0 <= st.done,
        0 <= st.run,
        st.done + st.run < s.len(),
    ensures
        advances(st, step(s, st, low_bits, ref_bytes)),
        step(s, st, low_bits, ref_bytes).run >= 0,
        step(s, st, low_bits, ref_bytes).done + step(s, st, low_bits, ref_bytes).run <= s.len(),
{
    let limit = max_count(low_bits, ref_bytes);
    lemma_run_extent(s, st.done + st.run, st.offset, limit - st.run);
}

/// The plan at the end of the input, from state `st` on.
pub open spec fn run_to_end(s: Seq<u8>, st: Scan, low_bits: usize, ref_bytes: usize) -> Seq<
    Instruction,
>
    decreases s.len() - st.done, s.len() - st.done - st.run,
{
    if st.done < 0 || st.run < 0 || st.done + st.run >= s.len() {
        st.plan
    } else {
        proof {
            lemma_step_advances(s, st, low_bits, ref_bytes);
        }
        run_to_end(s, step(s, st, low_bits, ref_bytes), low_bits, ref_bytes)
    }
}

/// The instructions that the compressor writes for an input: none for the
/// empty input, else a literal for the first byte and what the planner
/// makes of the rest.
pub open spec fn plan(s: Seq<u8>, low_bits: usize, ref_bytes: usize) -> Seq<Instruction> {
    if s.len() == 0 {
        Seq::empty()
    } else {
        run_to_end(
            s,
            Scan { done: 1, run: 0, offset: 0, plan: seq![Instruction::Literal(s[0])] },
            low_bits,
            ref_bytes,
        )
    }
}

/// The compressed stream of an input.
pub open spec fn compressed(s: Seq<u8>, low_bits: usize, ref_bytes: usize) -> Seq<u8> {
    encode(plan(s, low_bits, ref_bytes), low_bits, ref_bytes)
}


/// Whether each of the `run` bytes from `done` on equals the byte `offset`
/// places before it.
pub open spec fn repeats_behind(s: Seq<u8>, done: int, run: int, offset: int) -> bool {
    forall|i: int| done <= i < done + run ==> #[trigger] s[i] == s[i - offset]
}

/// What holds of every state the planner reaches: the plan is well formed
/// and stands for the bytes before `done`, and a pending match is one that
/// a reference of the profile can express.
pub open spec fn scan_inv(s: Seq<u8>, st: Scan, low_bits: usize, ref_bytes: usize) -> bool {
    &&& 1 <= st.done <= s.len()
    &&& 0 <= st.run
    &&& well_formed(st.plan, low_bits, ref_bytes)
    &&& expand(st.plan) == s.take(st.done)
    &&& st.run > 0 ==> {
        &&& st.done + st.run < s.len()
        &&& st.run <= max_count(low_bits, ref_bytes)
        &&& 1 <= st.offset <= max_offset(low_bits, ref_bytes)
        &&& st.offset <= st.done
        &&& repeats_behind(s, st.done, st.run, st.offset)
    }
}

/// Replaying bytes that repeat what lies `offset` behind them gives the
/// input itself.
proof fn lemma_replay_repeat(s: Seq<u8>, done: int, run: int, offset: int)
    requires
        1 <= offset <= done,
        0 <= run,
        done + run <= s.len(),
        repeats_behind(s, done, run, offset),
    ensures
        replay(s.take(done), offset, run) == s.take(done + run),
    decreases run,
{
    if run > 0 {
        let out = s.take(done);
        assert(s[done] == s[done - offset]);
        assert(out.push(out[out.len() - offset]) =~= s.take(done + 1));
        lemma_replay_repeat(s, done + 1, run - 1, offset);
    }
}

/// Literals stand for their bytes, and are always well formed.
proof fn lemma_literals(out: Seq<u8>, bytes: Seq<u8>, low_bits: usize, ref_bytes: usize)
    ensures
        expand_onto(out, literals(bytes)) == out + bytes,
        well_formed_onto(out, literals(bytes), low_bits, ref_bytes),
    decreases bytes.len(),
{
    if bytes.len() == 0 {
        assert(out + bytes =~= out);
    } else {
        assert(literals(bytes).skip(1) =~= literals(bytes.skip(1)));
        lemma_literals(out.push(bytes[0]), bytes.skip(1), low_bits, ref_bytes);
        assert(out.push(bytes[0]) + bytes.skip(1) =~= out + bytes);
    }
}

/// One more instruction adds its bytes to what the plan stands for, and
/// keeps the plan well formed if it fits and stays within the output.
proof fn lemma_plan_push(plan: Seq<Instruction>, x: Instruction, low_bits: usize, ref_bytes: usize)
    ensures
        expand(plan.push(x)) == expand_one(expand(plan), x),
        well_formed(plan.push(x), low_bits, ref_bytes) <==> (well_formed(
            plan,
            low_bits,
            ref_bytes,
        ) && instruction_fits(x, low_bits, ref_bytes) && (x matches Instruction::Reference {
            length,
            offset,
        } ==> offset <= expand(plan).len())),
{
    let one = seq![x];
    assert(plan.push(x) =~= plan + one);
    lemma_expand_concat(Seq::empty(), plan, one);
    lemma_well_formed_concat(Seq::empty(), plan, one, low_bits, ref_bytes);
    let before = expand(plan);
    assert(one.skip(1).len() == 0);
    assert(one[0] == x);
    assert(expand_onto(expand_one(before, x), one.skip(1)) == expand_one(before, x));
    assert(well_formed_onto(expand_one(before, x), one.skip(1), low_bits, ref_bytes));
    assert(expand_onto(before, one) == expand_one(before, x));
}

/// Taking a literal keeps the invariant.
proof fn lemma_literal_taken_inv(
    s: Seq<u8>,
    done: int,
    plan: Seq<Instruction>,
    low_bits: usize,
    ref_bytes: usize,
)
    requires
        1 <= done < s.len(),
        well_formed(plan, low_bits, ref_bytes),
        expand(plan) == s.take(done),
    ensures
        scan_inv(s, literal_taken(s, done, plan), low_bits, ref_bytes),
{
    lemma_plan_push(plan, Instruction::Literal(s[done]), low_bits, ref_bytes);
    assert(s.take(done).push(s[done]) =~= s.take(done + 1));
}

/// The limits of a valid profile: a length of three at least, an offset
/// of one at least.
proof fn lemma_profile_bounds(low_bits: usize, ref_bytes: usize)
    requires
        valid_profile(low_bits, ref_bytes),
    ensures
        3 <= max_count(low_bits, ref_bytes) <= 65538,
        1 <= max_offset(low_bits, ref_bytes) <= 32768,
{
    let k = low_bits as u32;
    lemma_shift_bounds(k);
    if ref_bytes == 2 {
        lemma_shift_bounds((16 - k) as u32);
    } else {
        lemma_shift_bounds((8 - k) as u32);
    }
}

/// Writing out a pending match keeps the invariant.
proof fn lemma_flushed_inv(
    s: Seq<u8>,
    done: int,
    run: int,
    offset: int,
    plan: Seq<Instruction>,
    low_bits: usize,
    ref_bytes: usize,
)
    requires
        valid_profile(low_bits, ref_bytes),
        1 <= done,
        1 <= run,
        done + run <= s.len(),
        well_formed(plan, low_bits, ref_bytes),
        expand(plan) == s.take(done),
        run >= 3 ==> {
            &&& run <= max_count(low_bits, ref_bytes)
            &&& 1 <= offset <= max_offset(low_bits, ref_bytes)
            &&& offset <= done
            &&& repeats_behind(s, done, run, offset)
        },
    ensures
        scan_inv(s, flushed(s, done, run, offset, plan), low_bits, ref_bytes),
{
    lemma_profile_bounds(low_bits, ref_bytes);
    if run < 3 {
        let bytes = s.subrange(done, done + run);
        lemma_literals(s.take(done), bytes, low_bits, ref_bytes);
        lemma_expand_concat(Seq::empty(), plan, literals(bytes));
        lemma_well_formed_concat(Seq::empty(), plan, literals(bytes), low_bits, ref_bytes);
        assert(s.take(done) + bytes =~= s.take(done + run));
    } else {
        let x = Instruction::Reference { length: run as usize, offset: offset as usize };
        lemma_plan_push(plan, x, low_bits, ref_bytes);
        lemma_replay_repeat(s, done, run, offset);
    }
}

/// Where the window holds the pending bytes, the nearest offset is one
/// that a reference can carry, and the bytes repeat what lies behind them
/// at that offset.
proof fn lemma_found_offset(s: Seq<u8>, done: int, run: int, reach: int)
    requires
        1 <= done,
        1 <= run,
        1 <= reach,
        done + run <= s.len(),
        occurs_in(window(s, done, reach), s.subrange(done, done + run)),
    ensures
        ({
            let offset = nearest_offset(window(s, done, reach), s.subrange(done, done + run));
            &&& run <= offset <= reach
            &&& offset <= done
            &&& repeats_behind(s, done, run, offset)
        }),
{
    let behind = window(s, done, reach);
    let needle = s.subrange(done, done + run);
    lemma_nearest_offset(behind, needle);
    let offset = nearest_offset(behind, needle);
    let at = behind.len() - offset;
    let low = done - behind.len();
    assert forall|i: int| done <= i < done + run implies #[trigger] s[i] == s[i - offset] by {
        let k = i - done;
        assert(behind.subrange(at, at + run)[k] == needle[k]);
        assert(behind[at + k] == s[low + at + k]);
    }
}

/// A step from a state that the invariant holds of leads to one of which
/// it holds.
pub proof fn lemma_step_inv(s: Seq<u8>, st: Scan, low_bits: usize, ref_bytes: usize)
    requires
        valid_profile(low_bits, ref_bytes),
        scan_inv(s, st, low_bits, ref_bytes),
        st.done + st.run < s.len(),
    ensures
        scan_inv(s, step(s, st, low_bits, ref_bytes), low_bits, ref_bytes),
{
    lemma_profile_bounds(low_bits, ref_bytes);
    let limit = max_count(low_bits, ref_bytes);
    let reach = max_offset(low_bits, ref_bytes);
    let behind = window(s, st.done, reach);
    if st.run == 0 {
        let first = s.subrange(st.done, st.done + 1);
        if occurs_in(behind, first) && st.done + 1 != s.len() {
            lemma_found_offset(s, st.done, 1, reach);
        } else {
            lemma_literal_taken_inv(s, st.done, st.plan, low_bits, ref_bytes);
        }
    } else {
        let repeats = st.run == st.offset && s[st.done + st.run] == s[st.done];
        let extent = run_extent(s, st.done + st.run, st.offset, limit - st.run);
        let run = if repeats {
            st.run + extent
        } else {
            st.run
        };
        lemma_run_extent(s, st.done + st.run, st.offset, limit - st.run);
        assert(repeats_behind(s, st.done, run, st.offset));
        if repeats && (run == limit || st.done + run == s.len()) {
            lemma_flushed_inv(s, st.done, run, st.offset, st.plan, low_bits, ref_bytes);
        } else {
            let longer = s.subrange(st.done, st.done + run + 1);
            if !occurs_in(behind, longer) {
                if run == 2 && (s[st.done] != s[st.done + 1] || occurs_in(
                    behind,
                    s.subrange(st.done + 1, st.done + 3),
                )) {
                    lemma_literal_taken_inv(s, st.done, st.plan, low_bits, ref_bytes);
                } else {
                    lemma_flushed_inv(s, st.done, run, st.offset, st.plan, low_bits, ref_bytes);
                }
            } else if run == limit {
                let now = s.subrange(st.done, st.done + run);
                lemma_occurs_prefix(behind, longer, run);
                assert(longer.take(run) =~= now);
                lemma_found_offset(s, st.done, run, reach);
                lemma_flushed_inv(
                    s,
                    st.done,
                    run,
                    nearest_offset(behind, now),
                    st.plan,
                    low_bits,
                    ref_bytes,
                );
            } else {
                lemma_found_offset(s, st.done, run + 1, reach);
                let offset = nearest_offset(behind, longer);
                if st.done + run + 1 == s.len() {
                    lemma_flushed_inv(s, st.done, run + 1, offset, st.plan, low_bits, ref_bytes);
                }
            }
        }
    }
}

/// From a state that the invariant holds of, the planner ends with a
/// well-formed plan that stands for the whole input.
pub proof fn lemma_run_to_end(s: Seq<u8>, st: Scan, low_bits: usize, ref_bytes: usize)
    requires
        valid_profile(low_bits, ref_bytes),
        scan_inv(s, st, low_bits, ref_bytes),
    ensures
        well_formed(run_to_end(s, st, low_bits, ref_bytes), low_bits, ref_bytes),
        expand(run_to_end(s, st, low_bits, ref_bytes)) == s,
    decreases s.len() - st.done, s.len() - st.done - st.run,
{
    if st.done + st.run >= s.len() {
        assert(s.take(st.done) =~= s);
    } else {
        lemma_step_advances(s, st, low_bits, ref_bytes);
        lemma_step_inv(s, st, low_bits, ref_bytes);
        lemma_run_to_end(s, step(s, st, low_bits, ref_bytes), low_bits, ref_bytes);
    }
}

/// The plan of every input is well formed and stands for the input.
pub proof fn lemma_plan_expands(s: Seq<u8>, low_bits: usize, ref_bytes: usize)
    requires
        valid_profile(low_bits, ref_bytes),
    ensures
        well_formed(plan(s, low_bits, ref_bytes), low_bits, ref_bytes),
        expand(plan(s, low_bits, ref_bytes)) == s,
{
    if s.len() == 0 {
        assert(s =~= Seq::<u8>::empty());
    } else {
        let first = Instruction::Literal(s[0]);
        let st = Scan { done: 1, run: 0, offset: 0, plan: seq![first] };
        lemma_plan_push(Seq::empty(), first, low_bits, ref_bytes);
        assert(Seq::<Instruction>::empty().push(first) =~= seq![first]);
        assert(Seq::<u8>::empty().push(s[0]) =~= s.take(1));
        lemma_run_to_end(s, st, low_bits, ref_bytes);
    }
}

/// Decompressing what the compressor writes gives the input back, for
/// every input and every profile.
pub proof fn lemma_round_trip(s: Seq<u8>, low_bits: usize, ref_bytes: usize)
    requires
        valid_profile(low_bits, ref_bytes),
    ensures
        decode(compressed(s, low_bits, ref_bytes), low_bits, ref_bytes) == s,
{
    lemma_plan_expands(s, low_bits, ref_bytes);
    lemma_decode_encode(plan(s, low_bits, ref_bytes), low_bits, ref_bytes);
}


/// Every instruction of a well-formed list fits the profile.
proof fn lemma_well_formed_fits(
    out: Seq<u8>,
    instructions: Seq<Instruction>,
    low_bits: usize,
    ref_bytes: usize,
)
    requires
        well_formed_onto(out, instructions, low_bits, ref_bytes),
    ensures
        forall|i: int|
            0 <= i < instructions.len() ==> instruction_fits(
                #[trigger] instructions[i],
                low_bits,
                ref_bytes,
            ),
    decreases instructions.len(),
{
    if instructions.len() > 0 {
        let later = instructions.skip(1);
        lemma_well_formed_fits(expand_one(out, instructions[0]), later, low_bits, ref_bytes);
        assert forall|i: int| 0 <= i < instructions.len() implies instruction_fits(
            #[trigger] instructions[i],
            low_bits,
            ref_bytes,
        ) by {
            if i > 0 {
                assert(instructions[i] == later[i - 1]);
            }
        }
    }
}

/// Writes out a pending match: as literals where it is shorter than three
/// bytes, else as one reference.
fn flush(
    input_bytes: &[u8],
    done: usize,
    run: usize,
    offset: usize,
    instructions: &mut Vec<Instruction>,
)
    requires
        done + run <= input_bytes@.len(),
    ensures
        final(instructions)@ == flushed(
            input_bytes@,
            done as int,
            run as int,
            offset as int,
            old(instructions)@,
        ).plan,
{
    if run < 3 {
        let ghost before = instructions@;
        let ghost bytes = input_bytes@.subrange(done as int, done + run);
        let total: usize = input_bytes.len();
        let mut k: usize = 0;
        while k < run
            invariant
                k <= run,
                total == input_bytes@.len(),
                done + run <= total,
                bytes == input_bytes@.subrange(done as int, done + run),
                instructions@ =~= before + literals(bytes).take(k as int),
            decreases run - k,
        {
            instructions.push(Instruction::Literal(input_bytes[done + k]));
            k += 1;
        }
        assert(literals(bytes).take(run as int) =~= literals(bytes));
    } else {
        instructions.push(Instruction::Reference { length: run, offset });
    }
}

/// Compresses `input_bytes` for the given profile.
///
/// The result is the stream of the greedy plan, and decompressing it with
/// the same profile gives `input_bytes` back.
pub fn compress(input_bytes: &[u8], low_bits: usize, ref_bytes: usize) -> (out: Vec<u8>)
    requires
        valid_profile(low_bits, ref_bytes),
    ensures
        out@ == compressed(input_bytes@, low_bits, ref_bytes),
        decode(out@, low_bits, ref_bytes) == input_bytes@,
{
    let n: usize = input_bytes.len();
    proof {
        lemma_round_trip(input_bytes@, low_bits, ref_bytes);
        lemma_plan_expands(input_bytes@, low_bits, ref_bytes);
        lemma_profile_bounds(low_bits, ref_bytes);
    }
    if n == 0 {
        return Vec::new();
    }
    let shift: u32 = low_bits as u32;
    let limit: usize;
    let reach: usize;
    if ref_bytes == 2 {
        proof {
            lemma_shift_bounds(shift);
            lemma_shift_bounds((16 - shift) as u32);
        }
        limit = ((1u32 << (16 - shift)) + 2) as usize;
        reach = (1u32 << shift) as usize;
    } else {
        proof {
            lemma_shift_bounds(shift);
            lemma_shift_bounds((8 - shift) as u32);
        }
        limit = ((1u32 << shift) + 1) as usize;
        reach = (1u32 << (8 - shift)) as usize;
    }
    let mut instructions: Vec<Instruction> = Vec::new();
    instructions.push(Instruction::Literal(input_bytes[0]));
    let mut done: usize = 1;
    let mut run: usize = 0;
    let mut offset: usize = 0;
    proof {
        let first = Instruction::Literal(input_bytes@[0]);
        lemma_plan_push(Seq::empty(), first, low_bits, ref_bytes);
        assert(Seq::<Instruction>::empty().push(first) =~= seq![first]);
        assert(instructions@ =~= seq![first]);
        assert(Seq::<u8>::empty().push(input_bytes@[0]) =~= input_bytes@.take(1));
    }
    while done + run < n
        invariant
            valid_profile(low_bits, ref_bytes),
            n == input_bytes@.len(),
            limit == max_count(low_bits, ref_bytes),
            reach == max_offset(low_bits, ref_bytes),
            3 <= limit <= 65538,
            1 <= reach <= 32768,
            done + run <= n,
            scan_inv(
                input_bytes@,
                Scan { done: done as int, run: run as int, offset: offset as int, plan: instructions@ },
                low_bits,
                ref_bytes,
            ),
            run_to_end(
                input_bytes@,
                Scan { done: done as int, run: run as int, offset: offset as int, plan: instructions@ },
                low_bits,
                ref_bytes,
            ) == plan(input_bytes@, low_bits, ref_bytes),
        decreases n - done, n - done - run,
    {
        let ghost s = input_bytes@;
        let ghost st = Scan {
            done: done as int,
            run: run as int,
            offset: offset as int,
            plan: instructions@,
        };
        let ghost next = step(s, st, low_bits, ref_bytes);
        proof {
            lemma_step_advances(s, st, low_bits, ref_bytes);
            lemma_step_inv(s, st, low_bits, ref_bytes);
        }
        let low: usize = if done > reach {
            done - reach
        } else {
            0
        };
        let behind: &[u8] = &input_bytes[low..done];
        assert(behind@ == window(s, done as int, reach as int));
        if run == 0 {
            let first: &[u8] = &input_bytes[done..done + 1];
            if contains_slice(behind, first) && done + 1 != n {
                run = 1;
                offset = find_offset(behind, first);
            } else {
                instructions.push(Instruction::Literal(input_bytes[done]));
                done += 1;
                offset = 0;
            }
        } else {
            let repeats: bool = run == offset && input_bytes[done + run] == input_bytes[done];
            if repeats {
                let ghost start = run;
                while run < limit && done + run < n && input_bytes[done + run] == input_bytes[done
                    + run - offset]
                    invariant
                        n == input_bytes@.len(),
                        s == input_bytes@,
                        1 <= offset <= done,
                        start <= run <= limit,
                        done + run <= n,
                        run_extent(s, done + start, offset as int, limit - start) == (run - start)
                            + run_extent(s, done + run, offset as int, limit - run),
                    decreases limit - run,
                {
                    run += 1;
                }
            }
            if repeats && (run == limit || done + run == n) {
                flush(input_bytes, done, run, offset, &mut instructions);
                done += run;
                run = 0;
                offset = 0;
            } else {
                let longer: &[u8] = &input_bytes[done..done + run + 1];
                if !contains_slice(behind, longer) {
                    if run == 2 && (input_bytes[done] != input_bytes[done + 1] || contains_slice(
                        behind,
                        &input_bytes[done + 1..done + 3],
                    )) {
                        instructions.push(Instruction::Literal(input_bytes[done]));
                        done += 1;
                    } else {
                        flush(input_bytes, done, run, offset, &mut instructions);
                        done += run;
                    }
                    run = 0;
                    offset = 0;
                } else if run == limit {
                    let found: usize = find_offset(behind, &input_bytes[done..done + run]);
                    flush(input_bytes, done, run, found, &mut instructions);
                    done += run;
                    run = 0;
                    offset = 0;
                } else {
                    offset = find_offset(behind, longer);
                    run += 1;
                    if done + run == n {
                        flush(input_bytes, done, run, offset, &mut instructions);
                        done += run;
                        run = 0;
                        offset = 0;
                    }
                }
            }
        }
        assert(Scan {
            done: done as int,
            run: run as int,
            offset: offset as int,
            plan: instructions@,
        } == next);
    }
    proof {
        lemma_well_formed_fits(Seq::empty(), instructions@, low_bits, ref_bytes);
    }
    encode_instructions(instructions.as_slice(), low_bits, ref_bytes)
}

} // verus!
