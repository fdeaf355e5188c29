//! Conversion of a whole recording, block by block.
use vstd::prelude::*;

use crate::arith::{Arith, Num, Op, Rel};
use crate::dsp::resample::{
    chunk_of, chunks, concat, full_chunks, law_chunks_cover, lemma_chunk_bounds, padded_to, rest,
};
use crate::dsp::table::{copied_range, push_all, rows_of};
use crate::engine::{one_answer, Features, Latent, Sessions, SynthInputs};
use crate::exact::{lemma_integer, Reals};
use crate::stats::{between, time_between};
use crate::stream::{
    law_push_is_a_function, law_same_seed_same_stream, law_window_is_newest, lemma_scaled_sum,
    newest, scaled, StreamEngine, StreamError, IN_RATE,
};

verus! {

/// Whether a recording must be resampled before it is converted.
pub fn needs_resampling(sr: u32) -> (r: bool)
    ensures
        r == (sr != 16000),
{
    sr as usize != IN_RATE
}

/// Samples, clamped to full scale.
pub open spec fn clamped<T>(n: Num<T>, xs: Seq<T>) -> Seq<T> {
    Seq::new(xs.len(), |i: int| n.clamp(xs[i], n.integer((-1) as i64), n.integer(1)))
}

/// Clamps samples to full scale, so that numbers out of range do not confuse the networks.
pub fn clamp_all<T: Copy, O: Fn(Op<T>) -> T, G: Fn(T, T) -> Rel, Z: Fn(T) -> i128>(
    ar: &Arith<T, O, G, Z>,
    xs: &mut Vec<T>,
)
    requires
        ar.wf(),
    ensures
        final(xs)@ == Seq::new(
            old(xs)@.len(),
            |i: int|
                ar.model@.clamp(
                    old(xs)@[i],
                    ar.model@.integer((-1) as i64),
                    ar.model@.integer(1),
                ),
        ),
        final(xs)@ == clamped(ar.model@, old(xs)@),
{
    let lo = ar.integer(-1);
    let hi = ar.integer(1);
    let len: usize = xs.len();
    let mut i: usize = 0;
    while i < len
        invariant
            ar.wf(),
            lo == ar.model@.integer((-1) as i64),
            hi == ar.model@.integer(1),
            len == old(xs)@.len(),
            xs@.len() == len,
            i <= len,
            forall|j: int| 0 <= j < i ==> #[trigger] xs@[j] == ar.model@.clamp(old(xs)@[j], lo, hi),
            forall|j: int| i <= j < len ==> #[trigger] xs@[j] == old(xs)@[j],
        decreases len - i,
    {
        let v = ar.clamp(xs[i], lo, hi);
        xs[i] = v;
        i += 1;
    }
}

/// The blocks of a recording: its full chunks, and what is left, padded with zeros to a block.
pub open spec fn blocks_of<T>(audio: Seq<T>, block: nat, zero: T) -> Seq<Seq<T>> {
    if rest(audio, block).len() == 0 {
        chunks(audio, block)
    } else {
        chunks(audio, block).push(padded_to(rest(audio, block), block, zero))
    }
}

/// The blocks of a recording.
pub fn split_blocks<T: Copy>(audio: &[T], block: usize, zero: T) -> (r: Vec<Vec<T>>)
    requires
        block > 0,
    ensures
        rows_of(r@) == blocks_of(audio@, block as nat, zero),
{
    let len: usize = audio.len();
    let full: usize = len / block;
    let ghost whole = chunks(audio@, block as nat);
    let mut r: Vec<Vec<T>> = Vec::new();
    let mut at: usize = 0;
    proof {
        lemma_chunk_bounds(len as nat, block as nat, 0);
        assert(rows_of(r@) =~= whole.take(0));
        assert(0 * block == 0) by (nonlinear_arith);
    }
    while r.len() < full
        invariant
            block > 0,
            len == audio@.len(),
            full == full_chunks(len as nat, block as nat),
            whole == chunks(audio@, block as nat),
            r@.len() <= full,
            at == r@.len() * block,
            at <= len,
            rows_of(r@) == whole.take(r@.len() as int),
        decreases full - r@.len(),
    {
        let ghost k = r@.len();
        proof {
            lemma_chunk_bounds(len as nat, block as nat, k);
            assert((k + 1) * block == k * block + block) by (nonlinear_arith);
        }
        let row = copied_range(audio, at, at + block);
        let ghost before = r@;
        r.push(row);
        proof {
            assert(row@ == chunk_of(audio@, block as nat, k as int));
            assert(rows_of(r@) =~= rows_of(before).push(row@));
            assert(whole.take(k + 1int) =~= whole.take(k as int).push(whole[k as int]));
        }
        at += block;
    }
    assert(whole.take(full as int) =~= whole);
    let ghost left = rest(audio@, block as nat);
    if at < len {
        let mut last = copied_range(audio, at, len);
        assert(last@ =~= left);
        while last.len() < block
            invariant
                left.len() <= last@.len() <= block,
                last@ == padded_to(left, last@.len(), zero),
            decreases block - last@.len(),
        {
            last.push(zero);
        }
        let ghost before = r@;
        r.push(last);
        assert(rows_of(r@) =~= rows_of(before).push(last@));
    }
    r
}

/// No sample is lost: the blocks, one behind the other, are the recording with silence behind
/// it, less than a block of it.
pub proof fn law_blocks_cover<T>(audio: Seq<T>, block: nat, zero: T)
    requires
        block > 0,
    ensures
        ({
            let all = concat(blocks_of(audio, block, zero));
            &&& audio.len() <= all.len() < audio.len() + block
            &&& all.take(audio.len() as int) == audio
            &&& forall|i: int| audio.len() <= i < all.len() ==> #[trigger] all[i] == zero
        }),
        forall|k: int|
            0 <= k < blocks_of(audio, block, zero).len() ==> (#[trigger] blocks_of(
                audio,
                block,
                zero,
            )[k]).len() == block,
{
    law_chunks_cover(audio, block);
    let full = chunks(audio, block);
    let left = rest(audio, block);
    let all = concat(blocks_of(audio, block, zero));
    if left.len() > 0 {
        let parts = full.push(padded_to(left, block, zero));
        assert(parts.drop_last() =~= full);
        assert(all =~= concat(full) + padded_to(left, block, zero));
    } else {
        assert(concat(full) + left =~= concat(full));
    }
    assert(all.take(audio.len() as int) =~= audio);
    assert forall|k: int| 0 <= k < full.len() implies (#[trigger] full[k]).len() == block by {
        lemma_chunk_bounds(audio.len(), block, k as nat);
        assert((k + 1) * block == k * block + block) by (nonlinear_arith);
        assert(0 <= k * block) by (nonlinear_arith)
            requires
                k >= 0,
        ;
    }
}

/// What a pushed block adds to the output.
pub open spec fn added<T>(b: Option<Vec<T>>) -> Seq<T> {
    match b {
        Some(v) => v@,
        None => Seq::empty(),
    }
}

/// Pushing `blocks`, one after the other, takes the stream from `before` to `after` and gives
/// `out`.
pub open spec fn streams<
    T: Copy,
    E,
    CV: Fn(&Vec<T>) -> Result<Features<T>, E>,
    FF: Fn(&Vec<T>) -> Result<Vec<(T, T)>, E>,
    FC: Fn(&Vec<Vec<T>>) -> Result<Latent<T>, E>,
    SY: Fn(&SynthInputs<T>) -> Result<Vec<T>, E>,
    W: Copy,
    WO: Fn(Op<W>) -> W,
    WG: Fn(W, W) -> Rel,
    WZ: Fn(W) -> i128,
    NR: Fn(W) -> T,
>(
    n: Num<T>,
    s: Sessions<CV, FF, FC, SY, W, WO, WG, WZ, NR>,
    before: StreamEngine<T>,
    blocks: Seq<Seq<T>>,
    after: StreamEngine<T>,
    out: Seq<T>,
) -> bool
    decreases blocks.len(),
{
    if blocks.len() == 0 {
        after == before && out == Seq::<T>::empty()
    } else {
        exists|mid: StreamEngine<T>, b: Option<Vec<T>>|
            {
                let split = out.len() - added(b).len();
                &&& #[trigger] mid.pushes(
                    n,
                    s,
                    blocks.last(),
                    after,
                    Ok::<Option<Vec<T>>, StreamError<E>>(b),
                )
                &&& 0 <= split
                &&& out.skip(split) == added(b)
                &&& streams::<T, E, CV, FF, FC, SY, W, WO, WG, WZ, NR>(
                    n,
                    s,
                    before,
                    blocks.drop_last(),
                    mid,
                    out.take(split),
                )
            }
    }
}

/// The last step of pushing `blocks`: the stream before the last block, and what that block gave.
proof fn lemma_last_step<
    T: Copy,
    E,
    CV: Fn(&Vec<T>) -> Result<Features<T>, E>,
    FF: Fn(&Vec<T>) -> Result<Vec<(T, T)>, E>,
    FC: Fn(&Vec<Vec<T>>) -> Result<Latent<T>, E>,
    SY: Fn(&SynthInputs<T>) -> Result<Vec<T>, E>,
    W: Copy,
    WO: Fn(Op<W>) -> W,
    WG: Fn(W, W) -> Rel,
    WZ: Fn(W) -> i128,
    NR: Fn(W) -> T,
>(
    n: Num<T>,
    s: Sessions<CV, FF, FC, SY, W, WO, WG, WZ, NR>,
    before: StreamEngine<T>,
    blocks: Seq<Seq<T>>,
    after: StreamEngine<T>,
    out: Seq<T>,
) -> (r: (StreamEngine<T>, Option<Vec<T>>))
    requires
        blocks.len() > 0,
        streams::<T, E, CV, FF, FC, SY, W, WO, WG, WZ, NR>(n, s, before, blocks, after, out),
    ensures
        r.0.pushes(n, s, blocks.last(), after, Ok::<Option<Vec<T>>, StreamError<E>>(r.1)),
        added(r.1).len() <= out.len(),
        out.skip(out.len() - added(r.1).len()) == added(r.1),
        streams::<T, E, CV, FF, FC, SY, W, WO, WG, WZ, NR>(
            n,
            s,
            before,
            blocks.drop_last(),
            r.0,
            out.take(out.len() - added(r.1).len()),
        ),
{
    choose|mid: StreamEngine<T>, b: Option<Vec<T>>|
        {
            let split = out.len() - added(b).len();
            &&& #[trigger] mid.pushes(
                n,
                s,
                blocks.last(),
                after,
                Ok::<Option<Vec<T>>, StreamError<E>>(b),
            )
            &&& 0 <= split
            &&& out.skip(split) == added(b)
            &&& streams::<T, E, CV, FF, FC, SY, W, WO, WG, WZ, NR>(
                n,
                s,
                before,
                blocks.drop_last(),
                mid,
                out.take(split),
            )
        }
}

/// Pushing `blocks`, one after the other, takes the stream from `before` up to a block that fails
/// with `e`, and leaves it as `after`.
pub open spec fn breaks_off<
    T: Copy,
    E,
    CV: Fn(&Vec<T>) -> Result<Features<T>, E>,
    FF: Fn(&Vec<T>) -> Result<Vec<(T, T)>, E>,
    FC: Fn(&Vec<Vec<T>>) -> Result<Latent<T>, E>,
    SY: Fn(&SynthInputs<T>) -> Result<Vec<T>, E>,
    W: Copy,
    WO: Fn(Op<W>) -> W,
    WG: Fn(W, W) -> Rel,
    WZ: Fn(W) -> i128,
    NR: Fn(W) -> T,
>(
    n: Num<T>,
    s: Sessions<CV, FF, FC, SY, W, WO, WG, WZ, NR>,
    before: StreamEngine<T>,
    blocks: Seq<Seq<T>>,
    after: StreamEngine<T>,
    e: StreamError<E>,
) -> bool {
    exists|k: int, mid: StreamEngine<T>, head: Seq<T>|
        {
            &&& 0 <= k < blocks.len()
            &&& #[trigger] streams::<T, E, CV, FF, FC, SY, W, WO, WG, WZ, NR>(
                n,
                s,
                before,
                blocks.take(k),
                mid,
                head,
            )
            &&& mid.pushes(n, s, blocks[k], after, Err::<Option<Vec<T>>, StreamError<E>>(e))
        }
}

/// `t` is the time between two readings of the clock.
pub open spec fn elapsed<CK: Fn() -> u64>(clock: CK, t: u64) -> bool {
    exists|from: u64, to: u64| #[trigger]
        call_ensures(clock, (), from) && #[trigger] call_ensures(clock, (), to) && t == between(
            from,
            to,
        )
}

/// Two streams that are alike turn the same blocks into the same output, and are alike afterwards,
/// where every part of the outside work has one answer.
pub proof fn law_streams_are_reproducible<
    T: Copy,
    E,
    CV: Fn(&Vec<T>) -> Result<Features<T>, E>,
    FF: Fn(&Vec<T>) -> Result<Vec<(T, T)>, E>,
    FC: Fn(&Vec<Vec<T>>) -> Result<Latent<T>, E>,
    SY: Fn(&SynthInputs<T>) -> Result<Vec<T>, E>,
    W: Copy,
    WO: Fn(Op<W>) -> W,
    WG: Fn(W, W) -> Rel,
    WZ: Fn(W) -> i128,
    NR: Fn(W) -> T,
>(
    n: Num<T>,
    s: Sessions<CV, FF, FC, SY, W, WO, WG, WZ, NR>,
    one: StreamEngine<T>,
    other: StreamEngine<T>,
    blocks: Seq<Seq<T>>,
    after: StreamEngine<T>,
    other_after: StreamEngine<T>,
    out: Seq<T>,
    other_out: Seq<T>,
)
    requires
        one_answer::<T, E, CV, FF, FC, SY, W, WO, WG, WZ, NR>(s),
        one.alike(other),
        streams::<T, E, CV, FF, FC, SY, W, WO, WG, WZ, NR>(n, s, one, blocks, after, out),
        streams::<T, E, CV, FF, FC, SY, W, WO, WG, WZ, NR>(
            n,
            s,
            other,
            blocks,
            other_after,
            other_out,
        ),
    ensures
        out == other_out,
        after.alike(other_after),
    decreases blocks.len(),
{
    if blocks.len() > 0 {
        let (mid, b) = lemma_last_step::<T, E, CV, FF, FC, SY, W, WO, WG, WZ, NR>(
            n,
            s,
            one,
            blocks,
            after,
            out,
        );
        let (other_mid, c) = lemma_last_step::<T, E, CV, FF, FC, SY, W, WO, WG, WZ, NR>(
            n,
            s,
            other,
            blocks,
            other_after,
            other_out,
        );
        let head = out.take(out.len() - added(b).len());
        let other_head = other_out.take(other_out.len() - added(c).len());
        law_streams_are_reproducible(
            n,
            s,
            one,
            other,
            blocks.drop_last(),
            mid,
            other_mid,
            head,
            other_head,
        );
        law_push_is_a_function(
            n,
            s,
            mid,
            other_mid,
            blocks.last(),
            after,
            other_after,
            Ok::<Option<Vec<T>>, StreamError<E>>(b),
            Ok::<Option<Vec<T>>, StreamError<E>>(c),
        );
        assert(out =~= head + added(b));
        assert(other_out =~= other_head + added(c));
    }
}

/// Same seed, same output: two streams that begin with the same seed, layout and chain turn the
/// same recording into the same samples, where every part of the outside work has one answer.
pub proof fn law_same_seed_same_output<
    T: Copy,
    E,
    CV: Fn(&Vec<T>) -> Result<Features<T>, E>,
    FF: Fn(&Vec<T>) -> Result<Vec<(T, T)>, E>,
    FC: Fn(&Vec<Vec<T>>) -> Result<Latent<T>, E>,
    SY: Fn(&SynthInputs<T>) -> Result<Vec<T>, E>,
    W: Copy,
    WO: Fn(Op<W>) -> W,
    WG: Fn(W, W) -> Rel,
    WZ: Fn(W) -> i128,
    NR: Fn(W) -> T,
>(
    n: Num<T>,
    s: Sessions<CV, FF, FC, SY, W, WO, WG, WZ, NR>,
    one: StreamEngine<T>,
    other: StreamEngine<T>,
    blocks: Seq<Seq<T>>,
    after: StreamEngine<T>,
    other_after: StreamEngine<T>,
    out: Seq<T>,
    other_out: Seq<T>,
)
    requires
        one_answer::<T, E, CV, FF, FC, SY, W, WO, WG, WZ, NR>(s),
        one.fresh(n),
        other.fresh(n),
        one.cfg == other.cfg,
        one.engine.alike(other.engine),
        streams::<T, E, CV, FF, FC, SY, W, WO, WG, WZ, NR>(n, s, one, blocks, after, out),
        streams::<T, E, CV, FF, FC, SY, W, WO, WG, WZ, NR>(
            n,
            s,
            other,
            blocks,
            other_after,
            other_out,
        ),
    ensures
        out == other_out,
{
    law_same_seed_same_stream(n, one, other);
    law_streams_are_reproducible(n, s, one, other, blocks, after, other_after, out, other_out);
}

/// What pushes all blocks pushes the first `k` of them, and then the next one.
proof fn lemma_streams_up_to<
    T: Copy,
    E,
    CV: Fn(&Vec<T>) -> Result<Features<T>, E>,
    FF: Fn(&Vec<T>) -> Result<Vec<(T, T)>, E>,
    FC: Fn(&Vec<Vec<T>>) -> Result<Latent<T>, E>,
    SY: Fn(&SynthInputs<T>) -> Result<Vec<T>, E>,
    W: Copy,
    WO: Fn(Op<W>) -> W,
    WG: Fn(W, W) -> Rel,
    WZ: Fn(W) -> i128,
    NR: Fn(W) -> T,
>(
    n: Num<T>,
    s: Sessions<CV, FF, FC, SY, W, WO, WG, WZ, NR>,
    before: StreamEngine<T>,
    blocks: Seq<Seq<T>>,
    after: StreamEngine<T>,
    out: Seq<T>,
    k: int,
) -> (r: (StreamEngine<T>, Seq<T>, StreamEngine<T>, Option<Vec<T>>))
    requires
        0 <= k < blocks.len(),
        streams::<T, E, CV, FF, FC, SY, W, WO, WG, WZ, NR>(n, s, before, blocks, after, out),
    ensures
        streams::<T, E, CV, FF, FC, SY, W, WO, WG, WZ, NR>(n, s, before, blocks.take(k), r.0, r.1),
        r.0.pushes(n, s, blocks[k], r.2, Ok::<Option<Vec<T>>, StreamError<E>>(r.3)),
    decreases blocks.len(),
{
    let (mid, b) = lemma_last_step::<T, E, CV, FF, FC, SY, W, WO, WG, WZ, NR>(
        n,
        s,
        before,
        blocks,
        after,
        out,
    );
    let head = out.take(out.len() - added(b).len());
    if k == blocks.len() - 1 {
        assert(blocks.take(k) =~= blocks.drop_last());
        (mid, head, after, b)
    } else {
        let short = blocks.drop_last();
        assert(short.take(k) =~= blocks.take(k));
        assert(short[k] == blocks[k]);
        lemma_streams_up_to(n, s, before, short, mid, head, k)
    }
}

/// Of two streams that are alike, neither breaks off on blocks that the other converts, where
/// every part of the outside work has one answer.
pub proof fn law_neither_breaks_off<
    T: Copy,
    E,
    CV: Fn(&Vec<T>) -> Result<Features<T>, E>,
    FF: Fn(&Vec<T>) -> Result<Vec<(T, T)>, E>,
    FC: Fn(&Vec<Vec<T>>) -> Result<Latent<T>, E>,
    SY: Fn(&SynthInputs<T>) -> Result<Vec<T>, E>,
    W: Copy,
    WO: Fn(Op<W>) -> W,
    WG: Fn(W, W) -> Rel,
    WZ: Fn(W) -> i128,
    NR: Fn(W) -> T,
>(
    n: Num<T>,
    s: Sessions<CV, FF, FC, SY, W, WO, WG, WZ, NR>,
    one: StreamEngine<T>,
    other: StreamEngine<T>,
    blocks: Seq<Seq<T>>,
    after: StreamEngine<T>,
    other_after: StreamEngine<T>,
    out: Seq<T>,
    e: StreamError<E>,
)
    requires
        one_answer::<T, E, CV, FF, FC, SY, W, WO, WG, WZ, NR>(s),
        one.alike(other),
        streams::<T, E, CV, FF, FC, SY, W, WO, WG, WZ, NR>(n, s, one, blocks, after, out),
    ensures
        !breaks_off::<T, E, CV, FF, FC, SY, W, WO, WG, WZ, NR>(n, s, other, blocks, other_after, e),
{
    if breaks_off::<T, E, CV, FF, FC, SY, W, WO, WG, WZ, NR>(n, s, other, blocks, other_after, e) {
        let (k, mid, head) = choose|k: int, mid: StreamEngine<T>, head: Seq<T>|
            {
                &&& 0 <= k < blocks.len()
                &&& #[trigger] streams::<T, E, CV, FF, FC, SY, W, WO, WG, WZ, NR>(
                    n,
                    s,
                    other,
                    blocks.take(k),
                    mid,
                    head,
                )
                &&& mid.pushes(
                    n,
                    s,
                    blocks[k],
                    other_after,
                    Err::<Option<Vec<T>>, StreamError<E>>(e),
                )
            };
        let (there, there_out, next, b) = lemma_streams_up_to::<T, E, CV, FF, FC, SY, W, WO, WG, WZ, NR>(
            n,
            s,
            one,
            blocks,
            after,
            out,
            k,
        );
        law_streams_are_reproducible(
            n,
            s,
            one,
            other,
            blocks.take(k),
            there,
            mid,
            there_out,
            head,
        );
        law_push_is_a_function(
            n,
            s,
            there,
            mid,
            blocks[k],
            next,
            other_after,
            Ok::<Option<Vec<T>>, StreamError<E>>(b),
            Err::<Option<Vec<T>>, StreamError<E>>(e),
        );
    }
}

/// Two streams that are alike break off with the same complaint, and are alike afterwards, where
/// every part of the outside work has one answer.
pub proof fn law_breaking_off_is_reproducible<
    T: Copy,
    E,
    CV: Fn(&Vec<T>) -> Result<Features<T>, E>,
    FF: Fn(&Vec<T>) -> Result<Vec<(T, T)>, E>,
    FC: Fn(&Vec<Vec<T>>) -> Result<Latent<T>, E>,
    SY: Fn(&SynthInputs<T>) -> Result<Vec<T>, E>,
    W: Copy,
    WO: Fn(Op<W>) -> W,
    WG: Fn(W, W) -> Rel,
    WZ: Fn(W) -> i128,
    NR: Fn(W) -> T,
>(
    n: Num<T>,
    s: Sessions<CV, FF, FC, SY, W, WO, WG, WZ, NR>,
    one: StreamEngine<T>,
    other: StreamEngine<T>,
    blocks: Seq<Seq<T>>,
    after: StreamEngine<T>,
    other_after: StreamEngine<T>,
    d: StreamError<E>,
    e: StreamError<E>,
)
    requires
        one_answer::<T, E, CV, FF, FC, SY, W, WO, WG, WZ, NR>(s),
        one.alike(other),
        breaks_off::<T, E, CV, FF, FC, SY, W, WO, WG, WZ, NR>(n, s, one, blocks, after, d),
        breaks_off::<T, E, CV, FF, FC, SY, W, WO, WG, WZ, NR>(n, s, other, blocks, other_after, e),
    ensures
        d == e,
        after.alike(other_after),
{
    let (k, mid, head) = choose|k: int, mid: StreamEngine<T>, head: Seq<T>|
        {
            &&& 0 <= k < blocks.len()
            &&& #[trigger] streams::<T, E, CV, FF, FC, SY, W, WO, WG, WZ, NR>(
                n,
                s,
                one,
                blocks.take(k),
                mid,
                head,
            )
            &&& mid.pushes(n, s, blocks[k], after, Err::<Option<Vec<T>>, StreamError<E>>(d))
        };
    let (j, other_mid, other_head) = choose|k: int, mid: StreamEngine<T>, head: Seq<T>|
        {
            &&& 0 <= k < blocks.len()
            &&& #[trigger] streams::<T, E, CV, FF, FC, SY, W, WO, WG, WZ, NR>(
                n,
                s,
                other,
                blocks.take(k),
                mid,
                head,
            )
            &&& mid.pushes(n, s, blocks[k], other_after, Err::<Option<Vec<T>>, StreamError<E>>(e))
        };
    if j < k {
        lemma_breaks_within::<T, E, CV, FF, FC, SY, W, WO, WG, WZ, NR>(
            n,
            s,
            other,
            blocks,
            other_after,
            e,
            j,
            k,
        );
        law_neither_breaks_off(n, s, one, other, blocks.take(k), mid, other_after, head, e);
    } else if k < j {
        lemma_breaks_within::<T, E, CV, FF, FC, SY, W, WO, WG, WZ, NR>(
            n,
            s,
            one,
            blocks,
            after,
            d,
            k,
            j,
        );
        lemma_alike_both_ways(one, other);
        law_neither_breaks_off(
            n,
            s,
            other,
            one,
            blocks.take(j),
            other_mid,
            after,
            other_head,
            d,
        );
    } else {
        law_streams_are_reproducible(
            n,
            s,
            one,
            other,
            blocks.take(k),
            mid,
            other_mid,
            head,
            other_head,
        );
        law_push_is_a_function(
            n,
            s,
            mid,
            other_mid,
            blocks[k],
            after,
            other_after,
            Err::<Option<Vec<T>>, StreamError<E>>(d),
            Err::<Option<Vec<T>>, StreamError<E>>(e),
        );
    }
}

proof fn lemma_alike_both_ways<T: Copy>(one: StreamEngine<T>, other: StreamEngine<T>)
    requires
        one.alike(other),
    ensures
        other.alike(one),
{
}

/// Blocks that break off at block `j` break off within the first `k` of them too, where `j < k`.
proof fn lemma_breaks_within<
    T: Copy,
    E,
    CV: Fn(&Vec<T>) -> Result<Features<T>, E>,
    FF: Fn(&Vec<T>) -> Result<Vec<(T, T)>, E>,
    FC: Fn(&Vec<Vec<T>>) -> Result<Latent<T>, E>,
    SY: Fn(&SynthInputs<T>) -> Result<Vec<T>, E>,
    W: Copy,
    WO: Fn(Op<W>) -> W,
    WG: Fn(W, W) -> Rel,
    WZ: Fn(W) -> i128,
    NR: Fn(W) -> T,
>(
    n: Num<T>,
    s: Sessions<CV, FF, FC, SY, W, WO, WG, WZ, NR>,
    before: StreamEngine<T>,
    blocks: Seq<Seq<T>>,
    after: StreamEngine<T>,
    e: StreamError<E>,
    j: int,
    k: int,
)
    requires
        0 <= j < k <= blocks.len(),
        exists|mid: StreamEngine<T>, head: Seq<T>| #[trigger]
            streams::<T, E, CV, FF, FC, SY, W, WO, WG, WZ, NR>(
                n,
                s,
                before,
                blocks.take(j),
                mid,
                head,
            )
                && mid.pushes(n, s, blocks[j], after, Err::<Option<Vec<T>>, StreamError<E>>(e)),
    ensures
        breaks_off::<T, E, CV, FF, FC, SY, W, WO, WG, WZ, NR>(
            n,
            s,
            before,
            blocks.take(k),
            after,
            e,
        ),
{
    let (mid, head) = choose|mid: StreamEngine<T>, head: Seq<T>| #[trigger]
        streams::<T, E, CV, FF, FC, SY, W, WO, WG, WZ, NR>(
            n,
            s,
            before,
            blocks.take(j),
            mid,
            head,
        ) && mid.pushes(
            n,
            s,
            blocks[j],
            after,
            Err::<Option<Vec<T>>, StreamError<E>>(e),
        );
    let short = blocks.take(k);
    assert(short.take(j) =~= blocks.take(j));
    assert(short[j] == blocks[j]);
    assert(streams::<T, E, CV, FF, FC, SY, W, WO, WG, WZ, NR>(
        n,
        s,
        before,
        short.take(j),
        mid,
        head,
    ));
}

/// The first block only warms the stream up; every other block gives one block of output. So the
/// output of a cold stream lags one block behind, and nothing of it is lost on the way.
pub proof fn law_output_length<
    T: Copy,
    E,
    CV: Fn(&Vec<T>) -> Result<Features<T>, E>,
    FF: Fn(&Vec<T>) -> Result<Vec<(T, T)>, E>,
    FC: Fn(&Vec<Vec<T>>) -> Result<Latent<T>, E>,
    SY: Fn(&SynthInputs<T>) -> Result<Vec<T>, E>,
    W: Copy,
    WO: Fn(Op<W>) -> W,
    WG: Fn(W, W) -> Rel,
    WZ: Fn(W) -> i128,
    NR: Fn(W) -> T,
>(
    n: Num<T>,
    s: Sessions<CV, FF, FC, SY, W, WO, WG, WZ, NR>,
    before: StreamEngine<T>,
    blocks: Seq<Seq<T>>,
    after: StreamEngine<T>,
    out: Seq<T>,
)
    requires
        before.wf(),
        !before.warm(),
        streams::<T, E, CV, FF, FC, SY, W, WO, WG, WZ, NR>(n, s, before, blocks, after, out),
    ensures
        out.len() == if blocks.len() == 0 {
            0
        } else {
            (blocks.len() - 1) * before.block_len()
        },
        after.warm() <==> blocks.len() > 0,
        after.cfg == before.cfg,
        after.engine == before.engine,
        after.sola.crossfade == before.sola.crossfade,
        after.sola.search == before.sola.search,
    decreases blocks.len(),
{
    if blocks.len() > 0 {
        let (mid, b) = lemma_last_step::<T, E, CV, FF, FC, SY, W, WO, WG, WZ, NR>(
            n,
            s,
            before,
            blocks,
            after,
            out,
        );
        let head = out.take(out.len() - added(b).len());
        law_output_length(n, s, before, blocks.drop_last(), mid, head);
        lemma_emitted_length(n, s, mid, blocks.last(), after, b);
        let len = before.block_len();
        if blocks.len() > 1 {
            assert((blocks.len() - 1) * len == (blocks.len() - 2) * len + len) by (nonlinear_arith);
        } else {
            assert((blocks.len() - 1) * len == 0) by (nonlinear_arith)
                requires
                    blocks.len() == 1,
            ;
        }
    }
}

/// Whatever is pushed, the window holds the newest samples of all: of what it held at first and
/// of all blocks behind it.
pub proof fn law_window_holds_the_newest<
    T: Copy,
    E,
    CV: Fn(&Vec<T>) -> Result<Features<T>, E>,
    FF: Fn(&Vec<T>) -> Result<Vec<(T, T)>, E>,
    FC: Fn(&Vec<Vec<T>>) -> Result<Latent<T>, E>,
    SY: Fn(&SynthInputs<T>) -> Result<Vec<T>, E>,
    W: Copy,
    WO: Fn(Op<W>) -> W,
    WG: Fn(W, W) -> Rel,
    WZ: Fn(W) -> i128,
    NR: Fn(W) -> T,
>(
    n: Num<T>,
    s: Sessions<CV, FF, FC, SY, W, WO, WG, WZ, NR>,
    before: StreamEngine<T>,
    blocks: Seq<Seq<T>>,
    after: StreamEngine<T>,
    out: Seq<T>,
)
    requires
        before.wf(),
        streams::<T, E, CV, FF, FC, SY, W, WO, WG, WZ, NR>(n, s, before, blocks, after, out),
        forall|k: int| 0 <= k < blocks.len() ==> (#[trigger] blocks[k]).len() == before.cfg.block,
    ensures
        after.in_buf@ == newest(before.in_buf@ + concat(blocks), before.cfg.window()),
        after.cfg == before.cfg,
    decreases blocks.len(),
{
    let window = before.cfg.window();
    let history = before.in_buf@;
    if blocks.len() == 0 {
        assert(newest(history + concat(blocks), window) =~= history);
    } else {
        let short = blocks.drop_last();
        let (mid, b) = lemma_last_step::<T, E, CV, FF, FC, SY, W, WO, WG, WZ, NR>(
            n,
            s,
            before,
            blocks,
            after,
            out,
        );
        assert forall|k: int| 0 <= k < short.len() implies (#[trigger] short[k]).len()
            == before.cfg.block by {
            assert(short[k] == blocks[k]);
        }
        let head = out.take(out.len() - added(b).len());
        law_window_holds_the_newest(n, s, before, short, mid, head);
        law_window_is_newest(history + concat(short), blocks.last(), window);
        assert(history + concat(short) + blocks.last() =~= history + concat(blocks));
    }
}

/// A pushed block gives nothing on a cold stream, and one block of output on a warm one.
proof fn lemma_emitted_length<
    T: Copy,
    E,
    CV: Fn(&Vec<T>) -> Result<Features<T>, E>,
    FF: Fn(&Vec<T>) -> Result<Vec<(T, T)>, E>,
    FC: Fn(&Vec<Vec<T>>) -> Result<Latent<T>, E>,
    SY: Fn(&SynthInputs<T>) -> Result<Vec<T>, E>,
    W: Copy,
    WO: Fn(Op<W>) -> W,
    WG: Fn(W, W) -> Rel,
    WZ: Fn(W) -> i128,
    NR: Fn(W) -> T,
>(
    n: Num<T>,
    s: Sessions<CV, FF, FC, SY, W, WO, WG, WZ, NR>,
    mid: StreamEngine<T>,
    block: Seq<T>,
    after: StreamEngine<T>,
    b: Option<Vec<T>>,
)
    requires
        mid.pushes(n, s, block, after, Ok::<Option<Vec<T>>, StreamError<E>>(b)),
        mid.cfg.usable(mid.engine.cfg.out_sr),
        mid.sola.crossfade == scaled(mid.cfg.crossfade as int, mid.engine.cfg.out_sr),
        mid.sola.search == scaled(mid.cfg.sola_search as int, mid.engine.cfg.out_sr),
    ensures
        added(b).len() == if mid.warm() {
            mid.block_len()
        } else {
            0
        },
        after.warm(),
        after.cfg == mid.cfg,
        after.engine == mid.engine,
        after.sola.crossfade == mid.sola.crossfade,
        after.sola.search == mid.sola.search,
{
    lemma_scaled_sum(
        mid.cfg.block as int,
        mid.cfg.crossfade as int,
        mid.cfg.sola_search as int,
        mid.cfg.lookahead as int,
        mid.engine.cfg.out_sr,
    );
}

/// Converts a recording block by block. Gives the output of all blocks, one behind the other,
/// and the times that the full blocks took by the clock.
pub fn convert_recording<
    T: Copy,
    O: Fn(Op<T>) -> T,
    G: Fn(T, T) -> Rel,
    Z: Fn(T) -> i128,
    E,
    CV: Fn(&Vec<T>) -> Result<Features<T>, E>,
    FF: Fn(&Vec<T>) -> Result<Vec<(T, T)>, E>,
    FC: Fn(&Vec<Vec<T>>) -> Result<Latent<T>, E>,
    SY: Fn(&SynthInputs<T>) -> Result<Vec<T>, E>,
    W: Copy,
    WO: Fn(Op<W>) -> W,
    WG: Fn(W, W) -> Rel,
    WZ: Fn(W) -> i128,
    NR: Fn(W) -> T,
    CK: Fn() -> u64,
>(
    ar: &Arith<T, O, G, Z>,
    s: &Sessions<CV, FF, FC, SY, W, WO, WG, WZ, NR>,
    stream: &mut StreamEngine<T>,
    audio: &[T],
    clock: &CK,
) -> (r: Result<(Vec<T>, Vec<u64>), StreamError<E>>)
    requires
        ar.wf(),
        old(stream).ready::<E, CV, FF, FC, SY, W, WO, WG, WZ, NR>(*s),
        old(stream).cfg.block > 0,
        call_requires(*clock, ()),
    ensures
        final(stream).ready::<E, CV, FF, FC, SY, W, WO, WG, WZ, NR>(*s),
        ({
            let blocks = blocks_of(audio@, old(stream).cfg.block as nat, ar.model@.zero());
            match r {
                Ok((out, times)) => {
                    &&& streams::<T, E, CV, FF, FC, SY, W, WO, WG, WZ, NR>(
                        ar.model@,
                        *s,
                        *old(stream),
                        blocks,
                        *final(stream),
                        out@,
                    )
                    &&& times@.len() == full_chunks(audio@.len(), old(stream).cfg.block as nat)
                    &&& forall|k: int|
                        0 <= k < times@.len() ==> elapsed(*clock, #[trigger] times@[k])
                },
                Err(e) => breaks_off::<T, E, CV, FF, FC, SY, W, WO, WG, WZ, NR>(
                    ar.model@,
                    *s,
                    *old(stream),
                    blocks,
                    *final(stream),
                    e,
                ),
            }
        }),
{
    let ghost n = ar.model@;
    let ghost start = *stream;
    let block: usize = stream.cfg.block;
    let full: usize = audio.len() / block;
    let rows = split_blocks(audio, block, ar.zero());
    let ghost blocks = rows_of(rows@);
    let mut out: Vec<T> = Vec::new();
    let mut times: Vec<u64> = Vec::new();
    let mut i: usize = 0;
    proof {
        law_blocks_cover(audio@, block as nat, n.zero());
        assert(blocks.take(0) =~= Seq::<Seq<T>>::empty());
        assert(streams::<T, E, CV, FF, FC, SY, W, WO, WG, WZ, NR>(
            n,
            *s,
            start,
            blocks.take(0),
            *stream,
            out@,
        ));
    }
    while i < rows.len()
        invariant
            ar.wf(),
            n == ar.model@,
            start == *old(stream),
            block == start.cfg.block,
            block == stream.cfg.block,
            stream.ready::<E, CV, FF, FC, SY, W, WO, WG, WZ, NR>(*s),
            call_requires(*clock, ()),
            blocks == rows_of(rows@),
            blocks == blocks_of(audio@, block as nat, n.zero()),
            full == full_chunks(audio@.len(), block as nat),
            full <= rows@.len() <= full + 1,
            forall|k: int| 0 <= k < blocks.len() ==> (#[trigger] blocks[k]).len() == block,
            i <= rows@.len(),
            times@.len() == if i < full {
                i
            } else {
                full
            },
            forall|k: int| 0 <= k < times@.len() ==> elapsed(*clock, #[trigger] times@[k]),
            streams::<T, E, CV, FF, FC, SY, W, WO, WG, WZ, NR>(
                n,
                *s,
                start,
                blocks.take(i as int),
                *stream,
                out@,
            ),
        decreases rows@.len() - i,
    {
        let ghost before = *stream;
        let ghost head = out@;
        assert(blocks[i as int] == rows@[i as int]@);
        let t0 = clock();
        let pushed = stream.push(ar, s, rows[i].as_slice());
        match pushed {
            Err(e) => {
                return Err(e);
            },
            Ok(b) => {
                let t1 = clock();
                if i < full {
                    let t = time_between(t0, t1);
                    assert(elapsed(*clock, t));
                    times.push(t);
                }
                if let Some(v) = &b {
                    push_all(&mut out, v.as_slice());
                }
                proof {
                    let next = blocks.take(i + 1);
                    assert(next.drop_last() =~= blocks.take(i as int));
                    let split = out@.len() - added(b).len();
                    assert(out@.take(split) =~= head);
                    assert(out@.skip(split) =~= added(b));
                    assert(before.pushes(
                        n,
                        *s,
                        next.last(),
                        *stream,
                        Ok::<Option<Vec<T>>, StreamError<E>>(b),
                    ));
                    assert(streams::<T, E, CV, FF, FC, SY, W, WO, WG, WZ, NR>(
                        n,
                        *s,
                        start,
                        next,
                        *stream,
                        out@,
                    ));
                }
            },
        }
        i += 1;
    }
    assert(blocks.take(blocks.len() as int) =~= blocks);
    Ok((out, times))
}

/// Clamped samples are within full scale; what was within it stays as it is, and what was beyond it
/// is at its end on the same side.
pub proof fn law_clamped_samples_are_within_full_scale<T>(
    n: Num<T>,
    m: Reals<T>,
    xs: Seq<T>,
    i: int,
)
    requires
        m.computes(n),
        m.orders(n),
        0 <= i < xs.len(),
    ensures
        ({
            let (x, y) = (m.of(xs[i]), m.of(clamped(n, xs)[i]));
            &&& clamped(n, xs).len() == xs.len()
            &&& -1real <= x <= 1real ==> y == x
            &&& x > 1real ==> y == 1real
            &&& x < -1real ==> y == -1real
        }),
{
    lemma_integer(n, m, (-1) as i64);
    lemma_integer(n, m, 1);
}

/// Blocks and further blocks stream as one after the other: the stream goes on where it is, and the
/// further output comes behind.
pub proof fn law_streaming_goes_on<
    T: Copy,
    E,
    CV: Fn(&Vec<T>) -> Result<Features<T>, E>,
    FF: Fn(&Vec<T>) -> Result<Vec<(T, T)>, E>,
    FC: Fn(&Vec<Vec<T>>) -> Result<Latent<T>, E>,
    SY: Fn(&SynthInputs<T>) -> Result<Vec<T>, E>,
    W: Copy,
    WO: Fn(Op<W>) -> W,
    WG: Fn(W, W) -> Rel,
    WZ: Fn(W) -> i128,
    NR: Fn(W) -> T,
>(
    n: Num<T>,
    s: Sessions<CV, FF, FC, SY, W, WO, WG, WZ, NR>,
    before: StreamEngine<T>,
    blocks: Seq<Seq<T>>,
    mid: StreamEngine<T>,
    out: Seq<T>,
    block: Seq<T>,
    after: StreamEngine<T>,
    b: Option<Vec<T>>,
)
    requires
        streams::<T, E, CV, FF, FC, SY, W, WO, WG, WZ, NR>(n, s, before, blocks, mid, out),
        mid.pushes(n, s, block, after, Ok::<Option<Vec<T>>, StreamError<E>>(b)),
    ensures
        streams::<T, E, CV, FF, FC, SY, W, WO, WG, WZ, NR>(
            n,
            s,
            before,
            blocks.push(block),
            after,
            match b {
                Some(v) => out + v@,
                None => out,
            },
        ),
{
    let all = blocks.push(block);
    assert(all.drop_last() =~= blocks);
    assert(all.last() == block);
    let given = match b {
        Some(v) => out + v@,
        None => out,
    };
    let split = given.len() - added(b).len();
    assert(given.take(split) =~= out);
    assert(given.skip(split) =~= added(b));
    assert(mid.pushes(n, s, all.last(), after, Ok::<Option<Vec<T>>, StreamError<E>>(b)));
    assert(streams::<T, E, CV, FF, FC, SY, W, WO, WG, WZ, NR>(n, s, before, all, after, given));
}

} // verus!
