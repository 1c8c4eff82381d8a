//! The decisions that the audio-thread processor makes in each callback:
//! whether to run the schedule at all, how the requested frames split into
//! blocks, and where each block lies in the interleaved buffers.
use vstd::prelude::*;

verus! {

/// What the audio callback reports to its host.
#[derive(Clone, Copy, Debug, PartialEq, Eq, Structural)]
pub enum FirewheelProcessorStatus {
    /// The processor keeps running.
    Continue,
    /// If this is returned, then the processor must be dropped.
    DropProcessor,
}

/// How a callback begins, before any block runs: with a status to return
/// at once over a silent output, or `None` when the schedule is to run.
pub fn callback_start(running: bool, has_schedule: bool, frames: usize) -> (r: Option<
    FirewheelProcessorStatus,
>)
    ensures
        !running ==> r == Some(FirewheelProcessorStatus::DropProcessor),
        running && (!has_schedule || frames == 0) ==> r == Some(FirewheelProcessorStatus::Continue),
        running && has_schedule && frames > 0 ==> r is None,
{
    if !running {
        Some(FirewheelProcessorStatus::DropProcessor)
    } else if !has_schedule || frames == 0 {
        Some(FirewheelProcessorStatus::Continue)
    } else {
        None
    }
}

/// The status that ends a callback whose blocks ran.
pub fn callback_end(running: bool) -> (r: FirewheelProcessorStatus)
    ensures
        running <==> r == FirewheelProcessorStatus::Continue,
        !running <==> r == FirewheelProcessorStatus::DropProcessor,
{
    if running {
        FirewheelProcessorStatus::Continue
    } else {
        FirewheelProcessorStatus::DropProcessor
    }
}

/// One block of a callback and the sample ranges it covers in the
/// interleaved input and output buffers.
#[derive(Clone, Copy, Debug, PartialEq, Eq, Structural)]
pub struct SubBlock {
    /// The first frame of the block within the callback.
    pub start_frame: usize,
    /// The number of frames in the block.
    pub frames: usize,
    pub in_start: usize,
    pub in_end: usize,
    pub out_start: usize,
    pub out_end: usize,
}

/// The smaller of two numbers.
pub open spec fn min_nat(a: nat, b: nat) -> nat {
    if a <= b {
        a
    } else {
        b
    }
}

/// The block that starts at frame `done` of a callback of `frames` frames:
/// as long as the frames left and `max_block_frames` allow.
pub open spec fn block_at(
    done: nat,
    frames: nat,
    max_block_frames: nat,
    num_in: nat,
    num_out: nat,
) -> SubBlock {
    let len = min_nat((frames - done) as nat, max_block_frames);
    SubBlock {
        start_frame: done as usize,
        frames: len as usize,
        in_start: (done * num_in) as usize,
        in_end: ((done + len) * num_in) as usize,
        out_start: (done * num_out) as usize,
        out_end: ((done + len) * num_out) as usize,
    }
}

/// The sizes of the blocks that a callback of `frames` frames splits into.
pub open spec fn block_sizes(frames: nat, max_block_frames: nat) -> Seq<nat>
    decreases frames,
{
    if frames == 0 || max_block_frames == 0 {
        Seq::empty()
    } else if frames <= max_block_frames {
        seq![frames]
    } else {
        seq![max_block_frames] + block_sizes((frames - max_block_frames) as nat, max_block_frames)
    }
}

/// The block that follows `done` frames already processed, or `None` once
/// all `frames` are done.
pub fn next_block(
    done: usize,
    frames: usize,
    max_block_frames: usize,
    num_in: usize,
    num_out: usize,
) -> (r: Option<SubBlock>)
    requires
        max_block_frames > 0,
        frames * num_in <= usize::MAX,
        frames * num_out <= usize::MAX,
    ensures
        done >= frames ==> r is None,
        done < frames ==> r == Some(block_at(done as nat, frames as nat, max_block_frames as nat, num_in as nat, num_out as nat)),
{
    if done >= frames {
        return None;
    }
    let left = frames - done;
    let len = if left < max_block_frames {
        left
    } else {
        max_block_frames
    };
    proof {
        assert(done * num_in <= frames * num_in) by (nonlinear_arith)
            requires
                done <= frames,
        ;
        assert((done + len) * num_in <= frames * num_in) by (nonlinear_arith)
            requires
                done + len <= frames,
        ;
        assert(done * num_out <= frames * num_out) by (nonlinear_arith)
            requires
                done <= frames,
        ;
        assert((done + len) * num_out <= frames * num_out) by (nonlinear_arith)
            requires
                done + len <= frames,
        ;
    }
    Some(
        SubBlock {
            start_frame: done,
            frames: len,
            in_start: done * num_in,
            in_end: (done + len) * num_in,
            out_start: done * num_out,
            out_end: (done + len) * num_out,
        },
    )
}

/// Following `next_block` from frame zero yields blocks of the sizes in
/// `block_sizes`: block `i` starts at frame `i * max_block_frames` and is
/// as long as `max_block_frames` or what is left, whichever is less; there
/// are as many blocks as it takes to cover `frames`.
pub proof fn lemma_blocks_cover(frames: nat, max_block_frames: nat)
    requires
        max_block_frames > 0,
    ensures
        block_sizes(frames, max_block_frames).len() == (frames + max_block_frames - 1)
            / max_block_frames as int,
        forall|i: int|
            0 <= i < block_sizes(frames, max_block_frames).len() ==> (#[trigger] block_sizes(
                frames,
                max_block_frames,
            )[i]) == min_nat(
                (frames - i * max_block_frames) as nat,
                max_block_frames,
            ),
    decreases frames,
{
    let s = block_sizes(frames, max_block_frames);
    if frames == 0 {
        assert((max_block_frames - 1) / max_block_frames as int == 0) by (nonlinear_arith)
            requires
                max_block_frames > 0,
        ;
        assert(s.len() == 0);
    } else if frames <= max_block_frames {
        assert((frames + max_block_frames - 1) / max_block_frames as int == 1) by (nonlinear_arith)
            requires
                0 < frames <= max_block_frames,
        ;
        assert(s =~= seq![frames]);
        assert forall|i: int| 0 <= i < s.len() implies (#[trigger] s[i]) == min_nat((frames - i * max_block_frames) as nat, max_block_frames) by {
            assert(i == 0);
            assert(0 * max_block_frames == 0);
        }
    } else {
        let rest = (frames - max_block_frames) as nat;
        lemma_blocks_cover(rest, max_block_frames);
        assert((frames + max_block_frames - 1) / max_block_frames as int == (rest
            + max_block_frames - 1) / max_block_frames as int + 1) by (nonlinear_arith)
            requires
                rest == frames - max_block_frames,
                max_block_frames > 0,
        ;
        assert forall|i: int| 0 <= i < s.len() implies (#[trigger] s[i]) == min_nat((frames - i * max_block_frames) as nat, max_block_frames) by {
            assert(s =~= seq![max_block_frames] + block_sizes(rest, max_block_frames));
            if i == 0 {
                assert(s[0] == max_block_frames);
                assert(0 * max_block_frames == 0);
            } else {
                assert(s[i] == block_sizes(rest, max_block_frames)[i - 1]);
                assert((i - 1) * max_block_frames + max_block_frames == i * max_block_frames)
                    by (nonlinear_arith);
            }
        }
    }
}

} // verus!
