//! Which frames each worker takes, and which earlier frame a frame is compared with.

use vstd::prelude::*;

verus! {

/// The number of frames in each worker's share: `fcount` frames over `threads` workers, rounded
/// up.
pub open spec fn spec_chunk_size(fcount: u32, threads: u32) -> int {
    (fcount + threads - 1) / (threads as int)
}

/// The first and the last frame of the share of worker `i`; frames count from 1. The share is
/// empty where its first frame lies behind its last.
pub open spec fn spec_chunk(i: u32, fcount: u32, threads: u32) -> (int, int) {
    let size = spec_chunk_size(fcount, threads);
    (
        i * size + 1,
        if (i + 1) * size < fcount {
            (i + 1) * size
        } else {
            fcount as int
        },
    )
}

/// Whether `frame` belongs to the share of worker `i`.
pub open spec fn in_chunk(i: u32, fcount: u32, threads: u32, frame: int) -> bool {
    spec_chunk(i, fcount, threads).0 <= frame <= spec_chunk(i, fcount, threads).1
}

/// How many frames a worker takes.
pub fn chunk_size(fcount: u32, threads: u32) -> (size: u32)
    requires
        threads >= 1,
    ensures
        size == spec_chunk_size(fcount, threads),
{
    let size: u64 = (fcount as u64 + threads as u64 - 1) / (threads as u64);
    assert(size <= fcount) by (nonlinear_arith)
        requires
            size == (fcount + threads - 1) / (threads as int),
            threads >= 1,
            fcount >= 0,
    ;
    size as u32
}

/// The share of worker `i` of `threads`: its first and its last frame, or nothing where no
/// frame is left for it.
pub fn chunk(i: u32, fcount: u32, threads: u32) -> (range: Option<(u32, u32)>)
    requires
        threads >= 1,
        i < threads,
    ensures
        range.is_some() == (spec_chunk(i, fcount, threads).0 <= spec_chunk(i, fcount, threads).1),
        range.is_some() ==> range.unwrap().0 == spec_chunk(i, fcount, threads).0 && range.unwrap().1
            == spec_chunk(i, fcount, threads).1,
{
    let size: u64 = chunk_size(fcount, threads) as u64;
    assert(i * size <= 0xffff_ffff * 0xffff_ffff && (i + 1) * size <= 0x1_0000_0000 * 0xffff_ffff)
        by (nonlinear_arith)
        requires
            0 <= i <= 0xffff_ffff,
            0 <= size <= 0xffff_ffff,
    ;
    let first: u64 = i as u64 * size + 1;
    let full: u64 = (i as u64 + 1) * size;
    let last: u64 = if full < fcount as u64 {
        full
    } else {
        fcount as u64
    };
    if first <= last {
        Some((first as u32, last as u32))
    } else {
        None
    }
}

/// A share holds a frame at least, where there is one, and the shares together are no fewer
/// than the frames.
pub proof fn lemma_chunk_size(fcount: u32, threads: u32)
    requires
        threads >= 1,
    ensures
        0 <= spec_chunk_size(fcount, threads) <= fcount,
        fcount >= 1 ==> spec_chunk_size(fcount, threads) >= 1,
        spec_chunk_size(fcount, threads) * threads >= fcount,
{
    let size = spec_chunk_size(fcount, threads);
    let t = threads as int;
    vstd::arithmetic::div_mod::lemma_fundamental_div_mod(fcount + t - 1, t);
    vstd::arithmetic::div_mod::lemma_mod_bound(fcount + t - 1, t);
    assert(t * size == size * t) by (nonlinear_arith);
    if size < 1 {
        assert(size * t <= 0) by (nonlinear_arith)
            requires
                size <= 0,
                t >= 1,
        ;
    }
    assert(size <= fcount) by (nonlinear_arith)
        requires
            size * t <= fcount + t - 1,
            t >= 1,
            fcount >= 0,
            size >= 0,
    ;
}

/// The shares split the frames among the workers: each frame from 1 to `fcount` belongs to the
/// share of one worker and of no other.
pub proof fn lemma_chunks_partition(fcount: u32, threads: u32, frame: int) -> (worker: u32)
    requires
        threads >= 1,
        1 <= frame <= fcount,
    ensures
        worker < threads,
        in_chunk(worker, fcount, threads, frame),
        forall|i: u32| i != worker ==> !in_chunk(i, fcount, threads, frame),
        worker == (frame - 1) / spec_chunk_size(fcount, threads),
{
    let size = spec_chunk_size(fcount, threads);
    let t = threads as int;
    assert(size >= 1 && size * t >= fcount) by {
        vstd::arithmetic::div_mod::lemma_fundamental_div_mod(fcount + t - 1, t);
        vstd::arithmetic::div_mod::lemma_mod_bound(fcount + t - 1, t);
        assert(t * size == size * t) by (nonlinear_arith);
        if size < 1 {
            assert(size * t <= 0) by (nonlinear_arith)
                requires
                    size <= 0,
                    t >= 1,
            ;
        }
    }
    let w = (frame - 1) / size;
    vstd::arithmetic::div_mod::lemma_fundamental_div_mod(frame - 1, size);
    vstd::arithmetic::div_mod::lemma_mod_bound(frame - 1, size);
    vstd::arithmetic::div_mod::lemma_div_pos_is_pos(frame - 1, size);
    assert(size * w == w * size) by (nonlinear_arith);
    assert((w + 1) * size == w * size + size) by (nonlinear_arith);
    if w >= t {
        assert(w * size >= t * size) by (nonlinear_arith)
            requires
                w >= t,
                size >= 1,
        ;
        assert(t * size == size * t) by (nonlinear_arith);
    }
    let worker = w as u32;
    assert forall|i: u32| i != worker implies !in_chunk(i, fcount, threads, frame) by {
        if i < worker {
            assert((i + 1) * size <= w * size) by (nonlinear_arith)
                requires
                    i + 1 <= w,
                    size >= 1,
            ;
        } else {
            assert(i * size >= (w + 1) * size) by (nonlinear_arith)
                requires
                    i >= w + 1,
                    size >= 1,
            ;
        }
    }
    worker
}

/// The frame that `frame` is compared with, to tell the background: the frame halfway back to
/// the start, and the first frame at the least.
pub open spec fn spec_reference_frame(frame: u32) -> int {
    if frame / 2 >= 1 {
        (frame / 2) as int
    } else {
        1
    }
}

/// The frame that `frame` is compared with.
pub fn reference_frame(frame: u32) -> (reference: u32)
    ensures
        reference == spec_reference_frame(frame),
        frame >= 1 ==> 1 <= reference <= frame,
{
    if frame / 2 >= 1 {
        frame / 2
    } else {
        1
    }
}

} // verus!
