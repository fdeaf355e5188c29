//! Streaming rate conversion: input of any size, converted in chunks of one size.
use vstd::prelude::*;

use crate::dsp::table::push_all;

verus! {

/// The chunk size of the rate converter, in input samples.
pub const CHUNK: usize = 1024;

/// How the windowed-sinc rate converter is set up.
#[derive(Clone, Copy, Debug, PartialEq, Eq, Structural)]
pub struct SincPlan {
    /// Input rate.
    pub from_hz: usize,
    /// Output rate.
    pub to_hz: usize,
    /// Length of the sinc filter.
    pub sinc_len: usize,
    /// Relative cutoff frequency, in percent of the band edge.
    pub cutoff_percent: u32,
    /// How many intermediate filters are kept.
    pub oversampling: usize,
    /// The largest factor by which the ratio may change later.
    pub max_ratio_change: u32,
    /// Input samples per chunk.
    pub chunk: usize,
    /// Channels.
    pub channels: usize,
}

/// Streaming mono rate converter. Accumulates input and converts whenever a full chunk is
/// there; `flush` converts what is left, padded with zeros. The converter proper keeps a history
/// of its own between chunks: its state is handed in, and handed back as it is then.
pub struct Resampler<T> {
    /// Setup of the converter that `step` stands for.
    pub plan: SincPlan,
    /// Input that waits for the rest of its chunk.
    pub pending: Vec<T>,
}

/// The converter `step`, in the state `from`, may answer the samples `input` with the samples
/// `output`, and be in the state `to` then.
pub open spec fn step_gives<St, T, E, F: Fn(St, &Vec<T>) -> (St, Result<Vec<T>, E>)>(
    step: F,
    from: St,
    input: Seq<T>,
    to: St,
    output: Seq<T>,
) -> bool {
    exists|i: Vec<T>, o: Vec<T>| #[trigger]
        call_ensures(step, (from, &i), (to, Ok::<Vec<T>, E>(o))) && i@ == input && o@ == output
}

/// The converter `step`, in the state `from`, may answer the samples `input` with the error `e`,
/// and be in the state `to` then.
pub open spec fn step_fails<St, T, E, F: Fn(St, &Vec<T>) -> (St, Result<Vec<T>, E>)>(
    step: F,
    from: St,
    input: Seq<T>,
    to: St,
    e: E,
) -> bool {
    exists|i: Vec<T>| #[trigger]
        call_ensures(step, (from, &i), (to, Err::<Vec<T>, E>(e))) && i@ == input
}

/// How many full chunks `len` samples make.
pub open spec fn full_chunks(len: nat, chunk: nat) -> nat
    recommends
        chunk > 0,
{
    len / chunk
}

/// The `k`-th chunk of `s`.
pub open spec fn chunk_of<T>(s: Seq<T>, chunk: nat, k: int) -> Seq<T> {
    s.subrange(k * chunk, (k + 1) * chunk)
}

/// The full chunks of `s`, in order.
pub open spec fn chunks<T>(s: Seq<T>, chunk: nat) -> Seq<Seq<T>> {
    Seq::new(full_chunks(s.len(), chunk), |k: int| chunk_of(s, chunk, k))
}

/// What is left of `s` behind its full chunks.
pub open spec fn rest<T>(s: Seq<T>, chunk: nat) -> Seq<T> {
    s.skip((full_chunks(s.len(), chunk) * chunk) as int)
}

/// `parts`, one behind the other.
pub open spec fn concat<T>(parts: Seq<Seq<T>>) -> Seq<T>
    decreases parts.len(),
{
    if parts.len() == 0 {
        Seq::empty()
    } else {
        concat(parts.drop_last()) + parts.last()
    }
}

/// The converter, starting in the state `conv`, is given the first chunks of `s`, each once and in
/// order; `states` are the states that it goes through, and `outs` are its answers.
pub open spec fn steps<St, T, E, F: Fn(St, &Vec<T>) -> (St, Result<Vec<T>, E>)>(
    step: F,
    conv: St,
    s: Seq<T>,
    chunk: nat,
    states: Seq<St>,
    outs: Seq<Seq<T>>,
) -> bool {
    &&& states.len() == outs.len() + 1
    &&& states[0] == conv
    &&& forall|k: int|
        0 <= k < outs.len() ==> step_gives::<St, T, E, F>(
            step,
            states[k],
            chunk_of(s, chunk, k),
            states[k + 1],
            #[trigger] outs[k],
        )
}

/// The converter, starting in the state `conv`, converts all full chunks of `s` into `out`, and is
/// in the state `end` then.
pub open spec fn runs<St, T, E, F: Fn(St, &Vec<T>) -> (St, Result<Vec<T>, E>)>(
    step: F,
    conv: St,
    s: Seq<T>,
    chunk: nat,
    end: St,
    out: Seq<T>,
) -> bool {
    exists|states: Seq<St>, outs: Seq<Seq<T>>|
        {
            &&& #[trigger] steps::<St, T, E, F>(step, conv, s, chunk, states, outs)
            &&& outs.len() == full_chunks(s.len(), chunk)
            &&& end == states.last()
            &&& out == concat(outs)
        }
}

/// The converter, starting in the state `conv`, fails on a full chunk of `s` with `e`; `left` is
/// what is behind that chunk.
pub open spec fn breaks<St, T, E, F: Fn(St, &Vec<T>) -> (St, Result<Vec<T>, E>)>(
    step: F,
    conv: St,
    s: Seq<T>,
    chunk: nat,
    end: St,
    e: E,
    left: Seq<T>,
) -> bool {
    exists|states: Seq<St>, outs: Seq<Seq<T>>|
        {
            &&& #[trigger] steps::<St, T, E, F>(step, conv, s, chunk, states, outs)
            &&& outs.len() < full_chunks(s.len(), chunk)
            &&& step_fails::<St, T, E, F>(
                step,
                states.last(),
                chunk_of(s, chunk, outs.len() as int),
                end,
                e,
            )
            &&& left == s.skip(((outs.len() + 1) * chunk) as int)
        }
}

/// Two results are the same, samples for samples.
pub open spec fn same_answer<T, E>(a: Result<Vec<T>, E>, b: Result<Vec<T>, E>) -> bool {
    match (a, b) {
        (Ok(x), Ok(y)) => x@ == y@,
        (Err(x), Err(y)) => x == y,
        _ => false,
    }
}

/// The converter is a function of its state and of the samples that it is given.
pub open spec fn functional<St, T, E, F: Fn(St, &Vec<T>) -> (St, Result<Vec<T>, E>)>(
    step: F,
) -> bool {
    forall|
        from: St,
        i: Vec<T>,
        j: Vec<T>,
        r: (St, Result<Vec<T>, E>),
        q: (St, Result<Vec<T>, E>),
    |
        #[trigger] call_ensures(step, (from, &i), r) && #[trigger] call_ensures(
            step,
            (from, &j),
            q,
        ) && i@ == j@ ==> r.0 == q.0 && same_answer(r.1, q.1)
}

/// The first `len` samples of `s` with zeros behind them where `s` has fewer.
pub open spec fn padded_to<T>(s: Seq<T>, len: nat, zero: T) -> Seq<T> {
    Seq::new(
        len,
        |i: int|
            if i < s.len() {
                s[i]
            } else {
                zero
            },
    )
}

/// Where the full chunks of `len` samples end.
pub proof fn lemma_chunk_bounds(len: nat, chunk: nat, k: nat)
    requires
        chunk > 0,
    ensures
        k < full_chunks(len, chunk) <==> (k + 1) * chunk <= len,
        full_chunks(len, chunk) * chunk <= len,
        len - full_chunks(len, chunk) * chunk < chunk,
{
    vstd::arithmetic::div_mod::lemma_fundamental_div_mod(len as int, chunk as int);
    let q = len / chunk;
    assert(chunk * q == q * chunk) by (nonlinear_arith);
    if k < q {
        assert((k + 1) * chunk <= q * chunk) by (nonlinear_arith)
            requires
                k + 1 <= q,
        ;
    } else {
        assert((k + 1) * chunk >= q * chunk + chunk) by (nonlinear_arith)
            requires
                k >= q,
        ;
    }
}

/// How the input is cut into calls does not matter: pushing `a` and then `b` converts the
/// same chunks, and leaves the same samples waiting, as pushing both at once.
pub proof fn law_chunking_is_streaming<T>(pending: Seq<T>, a: Seq<T>, b: Seq<T>, chunk: nat)
    requires
        chunk > 0,
    ensures
        chunks(pending + a, chunk) + chunks(rest(pending + a, chunk) + b, chunk) == chunks(
            pending + a + b,
            chunk,
        ),
        rest(rest(pending + a, chunk) + b, chunk) == rest(pending + a + b, chunk),
{
    let s = pending + a;
    let t = s + b;
    let q = full_chunks(s.len(), chunk);
    let left = rest(s, chunk);
    let u = left + b;
    lemma_chunk_bounds(s.len(), chunk, 0);
    lemma_chunk_bounds(t.len(), chunk, 0);
    lemma_chunk_bounds(u.len(), chunk, 0);
    let p = full_chunks(u.len(), chunk);
    assert(t.len() == q * chunk + u.len());
    assert(full_chunks(t.len(), chunk) == q + p) by {
        vstd::arithmetic::div_mod::lemma_div_multiples_vanish_fancy(q as int + p as int,
            u.len() - p * chunk, chunk as int);
        assert(chunk * (q + p) == q * chunk + p * chunk) by (nonlinear_arith);
    }
    assert forall|k: int| 0 <= k < q + p implies #[trigger] (chunks(s, chunk) + chunks(
        u,
        chunk,
    ))[k] == chunks(t, chunk)[k] by {
        lemma_chunk_bounds(t.len(), chunk, k as nat);
        assert((k + 1) * chunk == k * chunk + chunk) by (nonlinear_arith);
        assert(0 <= k * chunk) by (nonlinear_arith)
            requires
                k >= 0,
        ;
        if k < q {
            lemma_chunk_bounds(s.len(), chunk, k as nat);
            assert(chunk_of(s, chunk, k) =~= chunk_of(t, chunk, k));
        } else {
            let j = k - q;
            lemma_chunk_bounds(u.len(), chunk, j as nat);
            assert((j + 1) * chunk == j * chunk + chunk) by (nonlinear_arith);
            assert(k * chunk == q * chunk + j * chunk) by (nonlinear_arith)
                requires
                    k == q + j,
            ;
            assert(0 <= j * chunk) by (nonlinear_arith)
                requires
                    j >= 0,
            ;
            assert(chunk_of(u, chunk, j) =~= chunk_of(t, chunk, k));
        }
    }
    assert(chunks(s, chunk) + chunks(u, chunk) =~= chunks(t, chunk));
    assert((q + p) * chunk == q * chunk + p * chunk) by (nonlinear_arith);
    assert(rest(u, chunk) =~= rest(t, chunk));
}

/// No sample is lost or reordered: the chunks and what is left make up the whole input.
pub proof fn law_chunks_cover<T>(s: Seq<T>, chunk: nat)
    requires
        chunk > 0,
    ensures
        concat(chunks(s, chunk)) + rest(s, chunk) == s,
        rest(s, chunk).len() < chunk,
{
    lemma_chunk_bounds(s.len(), chunk, 0);
    lemma_concat_prefix(s, chunk, full_chunks(s.len(), chunk));
    assert(chunks(s, chunk).take(full_chunks(s.len(), chunk) as int) =~= chunks(s, chunk));
    assert(s.take((full_chunks(s.len(), chunk) * chunk) as int) + rest(s, chunk) =~= s);
}

proof fn lemma_concat_prefix<T>(s: Seq<T>, chunk: nat, m: nat)
    requires
        chunk > 0,
        m <= full_chunks(s.len(), chunk),
    ensures
        concat(chunks(s, chunk).take(m as int)) == s.take((m * chunk) as int),
        m * chunk <= s.len(),
    decreases m,
{
    if m == 0 {
        assert(chunks(s, chunk).take(0).len() == 0);
        assert(0 * chunk == 0) by (nonlinear_arith);
        assert(concat(chunks(s, chunk).take(0)) =~= s.take(0));
    } else {
        lemma_concat_prefix(s, chunk, (m - 1) as nat);
        lemma_chunk_bounds(s.len(), chunk, (m - 1) as nat);
        let parts = chunks(s, chunk).take(m as int);
        assert(parts.drop_last() =~= chunks(s, chunk).take(m - 1));
        assert(m * chunk == (m - 1) * chunk + chunk) by (nonlinear_arith);
        assert(s.take((m - 1) * chunk) + chunk_of(s, chunk, m - 1) =~= s.take(
            (m * chunk) as int,
        ));
    }
}

impl<T: Copy> Resampler<T> {
    /// Less than a chunk waits.
    pub open spec fn wf(&self) -> bool {
        &&& self.plan.chunk > 0
        &&& self.pending@.len() < self.plan.chunk
    }

    /// A converter from one rate to another, without input.
    pub fn new(from_hz: usize, to_hz: usize) -> (r: Self)
        ensures
            r.wf(),
            r.pending@ == Seq::<T>::empty(),
            r.plan == (SincPlan {
                from_hz,
                to_hz,
                sinc_len: 256,
                cutoff_percent: 95,
                oversampling: 256,
                max_ratio_change: 2,
                chunk: CHUNK,
                channels: 1,
            }),
            r.plan.chunk == 1024,
    {
        Resampler {
            plan: SincPlan {
                from_hz,
                to_hz,
                sinc_len: 256,
                cutoff_percent: 95,
                oversampling: 256,
                max_ratio_change: 2,
                chunk: CHUNK,
                channels: 1,
            },
            pending: Vec::new(),
        }
    }

    /// Takes `input` and gives every chunk that is full to the converter, once and in order;
    /// `step` converts one chunk. Where `step` fails, the chunks up to the failed one are spent
    /// and the others keep waiting.
    pub fn process<St, E, F: Fn(St, &Vec<T>) -> (St, Result<Vec<T>, E>)>(
        &mut self,
        conv: St,
        input: &[T],
        step: &F,
    ) -> (r: (St, Result<Vec<T>, E>))
        requires
            old(self).plan.chunk > 0,
            forall|s: St, c: Vec<T>|
                c@.len() == old(self).plan.chunk ==> #[trigger] call_requires(*step, (s, &c)),
        ensures
            final(self).plan == old(self).plan,
            ({
                let all = old(self).pending@ + input@;
                let chunk = old(self).plan.chunk as nat;
                match r.1 {
                    Ok(out) => {
                        &&& runs::<St, T, E, F>(*step, conv, all, chunk, r.0, out@)
                        &&& final(self).pending@ == rest(all, chunk)
                        &&& final(self).wf()
                    },
                    Err(e) => breaks::<St, T, E, F>(
                        *step,
                        conv,
                        all,
                        chunk,
                        r.0,
                        e,
                        final(self).pending@,
                    ),
                }
            }),
    {
        let ghost all = self.pending@ + input@;
        let ghost chunk = self.plan.chunk as nat;
        let ghost mut states: Seq<St> = seq![conv];
        let ghost mut outs: Seq<Seq<T>> = Seq::empty();
        push_all(&mut self.pending, input);
        let size: usize = self.plan.chunk;
        let mut state = conv;
        let mut out: Vec<T> = Vec::new();
        proof {
            assert(outs.len() * chunk == 0) by (nonlinear_arith)
                requires
                    outs.len() == 0,
            ;
            assert(all.skip(0) =~= all);
        }
        while self.pending.len() >= size
            invariant
                size > 0,
                size == chunk,
                self.plan == old(self).plan,
                self.plan.chunk == size,
                outs.len() * chunk <= all.len(),
                self.pending@ == all.skip((outs.len() * chunk) as int),
                steps::<St, T, E, F>(*step, conv, all, chunk, states, outs),
                state == states.last(),
                out@ == concat(outs),
                forall|s: St, c: Vec<T>|
                    c@.len() == size ==> #[trigger] call_requires(*step, (s, &c)),
                all == old(self).pending@ + input@,
                chunk == old(self).plan.chunk,
            decreases self.pending@.len(),
        {
            let ghost k = outs.len();
            proof {
                assert((k + 1) * chunk == k * chunk + chunk) by (nonlinear_arith);
                lemma_chunk_bounds(all.len(), chunk, k);
            }
            let later = self.pending.split_off(size);
            let mut take: Vec<T> = later;
            std::mem::swap(&mut take, &mut self.pending);
            assert(take@ =~= chunk_of(all, chunk, k as int));
            assert(self.pending@ =~= all.skip(((k + 1) * chunk) as int));
            let ghost from = state;
            let (next_state, res) = step(state, &take);
            match res {
                Ok(res) => {
                    let mut part = res;
                    let ghost piece = part@;
                    assert(step_gives::<St, T, E, F>(
                        *step,
                        from,
                        chunk_of(all, chunk, k as int),
                        next_state,
                        piece,
                    ));
                    out.append(&mut part);
                    state = next_state;
                    proof {
                        let next = outs.push(piece);
                        let path = states.push(state);
                        assert(next.drop_last() =~= outs);
                        assert forall|j: int| 0 <= j < next.len() implies step_gives::<
                            St,
                            T,
                            E,
                            F,
                        >(
                            *step,
                            path[j],
                            chunk_of(all, chunk, j),
                            path[j + 1],
                            #[trigger] next[j],
                        ) by {
                            if j < outs.len() {
                                assert(next[j] == outs[j]);
                                assert(path[j] == states[j] && path[j + 1] == states[j + 1]);
                            }
                        }
                        outs = next;
                        states = path;
                    }
                },
                Err(e) => {
                    assert(step_fails::<St, T, E, F>(
                        *step,
                        from,
                        chunk_of(all, chunk, k as int),
                        next_state,
                        e,
                    ));
                    proof {
                        lemma_breaks::<St, T, E, F>(
                            *step,
                            conv,
                            all,
                            chunk,
                            next_state,
                            e,
                            states,
                            outs,
                        );
                    }
                    return (next_state, Err(e));
                },
            }
        }
        proof {
            lemma_chunk_bounds(all.len(), chunk, outs.len());
            assert((outs.len() + 1) * chunk == outs.len() * chunk + chunk) by (nonlinear_arith);
            if outs.len() > 0 {
                lemma_chunk_bounds(all.len(), chunk, (outs.len() - 1) as nat);
            }
            lemma_runs::<St, T, E, F>(*step, conv, all, chunk, states, outs);
        }
        (state, Ok(out))
    }

    /// Converts what is left, padded with zeros to one full chunk; nothing where nothing is
    /// left. Call once at the end of the stream.
    pub fn flush<St, E, F: Fn(St, &Vec<T>) -> (St, Result<Vec<T>, E>)>(
        &mut self,
        conv: St,
        zero: T,
        step: &F,
    ) -> (r: (St, Result<Vec<T>, E>))
        requires
            old(self).plan.chunk > 0,
            forall|s: St, c: Vec<T>|
                c@.len() == old(self).plan.chunk ==> #[trigger] call_requires(*step, (s, &c)),
        ensures
            final(self).wf(),
            final(self).plan == old(self).plan,
            final(self).pending@ == Seq::<T>::empty(),
            ({
                let tail = padded_to(old(self).pending@, old(self).plan.chunk as nat, zero);
                if old(self).pending@.len() == 0 {
                    r.0 == conv && (r.1 matches Ok(out) && out@ == Seq::<T>::empty())
                } else {
                    match r.1 {
                        Ok(out) => step_gives::<St, T, E, F>(*step, conv, tail, r.0, out@),
                        Err(e) => step_fails::<St, T, E, F>(*step, conv, tail, r.0, e),
                    }
                }
            }),
    {
        if self.pending.len() == 0 {
            return (conv, Ok(Vec::new()));
        }
        let mut tail: Vec<T> = Vec::new();
        std::mem::swap(&mut tail, &mut self.pending);
        if tail.len() > self.plan.chunk {
            tail.truncate(self.plan.chunk);
        }
        while tail.len() < self.plan.chunk
            invariant
                self.plan == old(self).plan,
                self.pending@ == Seq::<T>::empty(),
                tail@.len() <= self.plan.chunk,
                old(self).pending@.len() <= tail@.len() || tail@.len() == self.plan.chunk,
                tail@ == padded_to(old(self).pending@, tail@.len(), zero),
            decreases self.plan.chunk - tail@.len(),
        {
            tail.push(zero);
        }
        step(conv, &tail)
    }
}

/// Steps over all full chunks are a run.
proof fn lemma_runs<St, T, E, F: Fn(St, &Vec<T>) -> (St, Result<Vec<T>, E>)>(
    step: F,
    conv: St,
    s: Seq<T>,
    chunk: nat,
    states: Seq<St>,
    outs: Seq<Seq<T>>,
)
    requires
        steps::<St, T, E, F>(step, conv, s, chunk, states, outs),
        outs.len() == full_chunks(s.len(), chunk),
    ensures
        runs::<St, T, E, F>(step, conv, s, chunk, states.last(), concat(outs)),
{
}

/// Steps up to a failed chunk are a broken run.
proof fn lemma_breaks<St, T, E, F: Fn(St, &Vec<T>) -> (St, Result<Vec<T>, E>)>(
    step: F,
    conv: St,
    s: Seq<T>,
    chunk: nat,
    end: St,
    e: E,
    states: Seq<St>,
    outs: Seq<Seq<T>>,
)
    requires
        steps::<St, T, E, F>(step, conv, s, chunk, states, outs),
        outs.len() < full_chunks(s.len(), chunk),
        step_fails::<St, T, E, F>(
            step,
            states.last(),
            chunk_of(s, chunk, outs.len() as int),
            end,
            e,
        ),
    ensures
        breaks::<St, T, E, F>(
            step,
            conv,
            s,
            chunk,
            end,
            e,
            s.skip(((outs.len() + 1) * chunk) as int),
        ),
{
}

/// Output of parts, one behind the other.
proof fn lemma_concat_append<T>(a: Seq<Seq<T>>, b: Seq<Seq<T>>)
    ensures
        concat(a + b) == concat(a) + concat(b),
    decreases b.len(),
{
    if b.len() == 0 {
        assert(a + b =~= a);
        assert(concat(a) + concat(b) =~= concat(a));
    } else {
        assert((a + b).drop_last() =~= a + b.drop_last());
        lemma_concat_append(a, b.drop_last());
        assert(concat(a + b) =~= concat(a) + concat(b));
    }
}

/// The output does not depend on how the input is cut into calls: what `process` gives for `a`
/// and then for `b` is, one behind the other, what it may give for both at once, and the
/// converter ends in the same state.
pub proof fn law_output_does_not_depend_on_cuts<
    St,
    T,
    E,
    F: Fn(St, &Vec<T>) -> (St, Result<Vec<T>, E>),
>(
    step: F,
    conv: St,
    pending: Seq<T>,
    a: Seq<T>,
    b: Seq<T>,
    chunk: nat,
    mid: St,
    out_a: Seq<T>,
    end: St,
    out_b: Seq<T>,
)
    requires
        chunk > 0,
        runs::<St, T, E, F>(step, conv, pending + a, chunk, mid, out_a),
        runs::<St, T, E, F>(step, mid, rest(pending + a, chunk) + b, chunk, end, out_b),
    ensures
        runs::<St, T, E, F>(step, conv, pending + a + b, chunk, end, out_a + out_b),
{
    let s = pending + a;
    let u = rest(s, chunk) + b;
    let t = s + b;
    let (states1, outs1) = choose|states: Seq<St>, outs: Seq<Seq<T>>|
        {
            &&& #[trigger] steps::<St, T, E, F>(step, conv, s, chunk, states, outs)
            &&& outs.len() == full_chunks(s.len(), chunk)
            &&& mid == states.last()
            &&& out_a == concat(outs)
        };
    let (states2, outs2) = choose|states: Seq<St>, outs: Seq<Seq<T>>|
        {
            &&& #[trigger] steps::<St, T, E, F>(step, mid, u, chunk, states, outs)
            &&& outs.len() == full_chunks(u.len(), chunk)
            &&& end == states.last()
            &&& out_b == concat(outs)
        };
    law_chunking_is_streaming(pending, a, b, chunk);
    let states = states1.drop_last() + states2;
    let outs = outs1 + outs2;
    assert(chunks(s, chunk) + chunks(u, chunk) == chunks(t, chunk));
    assert(outs.len() == chunks(t, chunk).len());
    assert forall|k: int| 0 <= k < outs.len() implies step_gives::<St, T, E, F>(
        step,
        states[k],
        chunk_of(t, chunk, k),
        states[k + 1],
        #[trigger] outs[k],
    ) by {
        assert(chunks(t, chunk)[k] == (chunks(s, chunk) + chunks(u, chunk))[k]);
        if k < outs1.len() {
            assert(outs[k] == outs1[k]);
            assert(states[k] == states1[k]);
            assert(states[k + 1] == states1[k + 1]);
        } else {
            let j = k - outs1.len();
            assert(outs[k] == outs2[j]);
            assert(states[k] == states2[j]);
            assert(states[k + 1] == states2[j + 1]);
        }
    }
    assert(states[0] == conv);
    lemma_concat_append(outs1, outs2);
    lemma_runs::<St, T, E, F>(step, conv, t, chunk, states, outs);
}

/// With a converter that is a function of its state and its input, the output is determined: two
/// runs over the same samples from the same state give the same output and end in the same state.
pub proof fn law_output_is_determined<St, T, E, F: Fn(St, &Vec<T>) -> (St, Result<Vec<T>, E>)>(
    step: F,
    conv: St,
    s: Seq<T>,
    chunk: nat,
    end: St,
    out: Seq<T>,
    other_end: St,
    other_out: Seq<T>,
)
    requires
        functional::<St, T, E, F>(step),
        runs::<St, T, E, F>(step, conv, s, chunk, end, out),
        runs::<St, T, E, F>(step, conv, s, chunk, other_end, other_out),
    ensures
        end == other_end,
        out == other_out,
{
    let (states1, outs1) = choose|states: Seq<St>, outs: Seq<Seq<T>>|
        {
            &&& #[trigger] steps::<St, T, E, F>(step, conv, s, chunk, states, outs)
            &&& outs.len() == full_chunks(s.len(), chunk)
            &&& end == states.last()
            &&& out == concat(outs)
        };
    let (states2, outs2) = choose|states: Seq<St>, outs: Seq<Seq<T>>|
        {
            &&& #[trigger] steps::<St, T, E, F>(step, conv, s, chunk, states, outs)
            &&& outs.len() == full_chunks(s.len(), chunk)
            &&& other_end == states.last()
            &&& other_out == concat(outs)
        };
    lemma_same_path::<St, T, E, F>(
        step,
        conv,
        s,
        chunk,
        states1,
        outs1,
        states2,
        outs2,
        outs1.len(),
    );
    assert(outs1 =~= outs2);
}

/// Two paths over the same chunks from the same state agree up to step `m`.
proof fn lemma_same_path<St, T, E, F: Fn(St, &Vec<T>) -> (St, Result<Vec<T>, E>)>(
    step: F,
    conv: St,
    s: Seq<T>,
    chunk: nat,
    states1: Seq<St>,
    outs1: Seq<Seq<T>>,
    states2: Seq<St>,
    outs2: Seq<Seq<T>>,
    m: nat,
)
    requires
        functional::<St, T, E, F>(step),
        steps::<St, T, E, F>(step, conv, s, chunk, states1, outs1),
        steps::<St, T, E, F>(step, conv, s, chunk, states2, outs2),
        m <= outs1.len(),
        outs1.len() == outs2.len(),
    ensures
        forall|k: int| 0 <= k < m ==> #[trigger] outs1[k] == outs2[k],
        states1[m as int] == states2[m as int],
    decreases m,
{
    if m > 0 {
        let k = m - 1;
        lemma_same_path::<St, T, E, F>(
            step,
            conv,
            s,
            chunk,
            states1,
            outs1,
            states2,
            outs2,
            (m - 1) as nat,
        );
        let c = chunk_of(s, chunk, k);
        assert(step_gives::<St, T, E, F>(step, states1[k], c, states1[k + 1], outs1[k]));
        assert(step_gives::<St, T, E, F>(step, states2[k], c, states2[k + 1], outs2[k]));
        let (i, o) = choose|i: Vec<T>, o: Vec<T>| #[trigger]
            call_ensures(step, (states1[k], &i), (states1[k + 1], Ok::<Vec<T>, E>(o))) && i@ == c
                && o@ == outs1[k];
        let (j, q) = choose|i: Vec<T>, o: Vec<T>| #[trigger]
            call_ensures(step, (states2[k], &i), (states2[k + 1], Ok::<Vec<T>, E>(o))) && i@ == c
                && o@ == outs2[k];
        assert(states1[k] == states2[k]);
        assert(same_answer::<T, E>(Ok(o), Ok(q)));
    }
}

/// Flushing is processing the missing zeros: what the converter may answer to the padded rest is
/// what a run may give for the rest with zeros behind it, up to a full chunk.
pub proof fn law_flush_is_processing_zeros<
    St,
    T,
    E,
    F: Fn(St, &Vec<T>) -> (St, Result<Vec<T>, E>),
>(step: F, conv: St, pending: Seq<T>, chunk: nat, zero: T, end: St, out: Seq<T>)
    requires
        pending.len() <= chunk,
        chunk > 0,
    ensures
        ({
            let zeros = Seq::new((chunk - pending.len()) as nat, |i: int| zero);
            step_gives::<St, T, E, F>(step, conv, padded_to(pending, chunk, zero), end, out)
                <==> runs::<St, T, E, F>(step, conv, pending + zeros, chunk, end, out)
        }),
{
    let zeros = Seq::new((chunk - pending.len()) as nat, |i: int| zero);
    let s = pending + zeros;
    let whole = padded_to(pending, chunk, zero);
    assert(s =~= whole);
    assert(full_chunks(s.len(), chunk) == 1) by (nonlinear_arith)
        requires
            s.len() == chunk,
            chunk > 0,
            full_chunks(s.len(), chunk) == s.len() / chunk,
    ;
    assert(chunk_of(s, chunk, 0) =~= whole) by {
        assert(0 * chunk == 0 && (0 + 1) * chunk == chunk) by (nonlinear_arith);
    }
    if step_gives::<St, T, E, F>(step, conv, whole, end, out) {
        let states = seq![conv, end];
        let outs = seq![out];
        assert(outs.drop_last() =~= Seq::<Seq<T>>::empty());
        assert(concat(outs.drop_last()) =~= Seq::<T>::empty());
        assert(concat(outs) =~= out);
        assert(steps::<St, T, E, F>(step, conv, s, chunk, states, outs));
        lemma_runs::<St, T, E, F>(step, conv, s, chunk, states, outs);
    }
    if runs::<St, T, E, F>(step, conv, s, chunk, end, out) {
        let (states, outs) = choose|states: Seq<St>, outs: Seq<Seq<T>>|
            {
                &&& #[trigger] steps::<St, T, E, F>(step, conv, s, chunk, states, outs)
                &&& outs.len() == full_chunks(s.len(), chunk)
                &&& end == states.last()
                &&& out == concat(outs)
            };
        assert(outs.drop_last() =~= Seq::<Seq<T>>::empty());
        assert(concat(outs.drop_last()) =~= Seq::<T>::empty());
        assert(concat(outs) =~= outs[0]);
        assert(step_gives::<St, T, E, F>(step, states[0], whole, states[1], outs[0]));
    }
}

/// While less than a chunk has come in, nothing is given, and the converter is left alone.
pub proof fn law_short_input_gives_nothing<
    St,
    T,
    E,
    F: Fn(St, &Vec<T>) -> (St, Result<Vec<T>, E>),
>(step: F, conv: St, s: Seq<T>, chunk: nat, end: St, out: Seq<T>)
    requires
        s.len() < chunk,
        runs::<St, T, E, F>(step, conv, s, chunk, end, out),
    ensures
        end == conv,
        out == Seq::<T>::empty(),
        rest(s, chunk) == s,
{
    assert(full_chunks(s.len(), chunk) == 0) by (nonlinear_arith)
        requires
            s.len() < chunk,
            full_chunks(s.len(), chunk) == s.len() / chunk,
    ;
    assert(0 * chunk == 0) by (nonlinear_arith);
    assert(rest(s, chunk) =~= s);
}

/// Where the converter fails, the chunks up to the failed one are spent and nothing else: what
/// keeps waiting is the end of the input, whole chunks of it are gone, and the last of these is the
/// one that failed.
pub proof fn law_failed_chunk_is_spent<St, T, E, F: Fn(St, &Vec<T>) -> (St, Result<Vec<T>, E>)>(
    step: F,
    conv: St,
    s: Seq<T>,
    chunk: nat,
    end: St,
    e: E,
    left: Seq<T>,
)
    requires
        chunk > 0,
        breaks::<St, T, E, F>(step, conv, s, chunk, end, e, left),
    ensures
        ({
            let spent = s.len() - left.len();
            &&& chunk <= spent <= s.len()
            &&& spent % (chunk as int) == 0
            &&& left == s.skip(spent)
            &&& exists|from: St| #[trigger]
                step_fails::<St, T, E, F>(step, from, s.subrange(spent - chunk, spent), end, e)
        }),
{
    let (states, outs) = choose|states: Seq<St>, outs: Seq<Seq<T>>|
        {
            &&& #[trigger] steps::<St, T, E, F>(step, conv, s, chunk, states, outs)
            &&& outs.len() < full_chunks(s.len(), chunk)
            &&& step_fails::<St, T, E, F>(
                step,
                states.last(),
                chunk_of(s, chunk, outs.len() as int),
                end,
                e,
            )
            &&& left == s.skip(((outs.len() + 1) * chunk) as int)
        };
    let k = outs.len();
    lemma_chunk_bounds(s.len(), chunk, k);
    let spent = ((k + 1) * chunk) as int;
    assert(spent == k * chunk + chunk) by (nonlinear_arith)
        requires
            spent == (k + 1) * chunk,
    ;
    assert(0 <= k * chunk) by (nonlinear_arith);
    vstd::arithmetic::div_mod::lemma_mod_multiples_basic((k + 1) as int, chunk as int);
    assert(s.len() - left.len() == spent);
    assert(chunk_of(s, chunk, k as int) =~= s.subrange(spent - chunk, spent));
    assert(step_fails::<St, T, E, F>(
        step,
        states.last(),
        s.subrange(spent - chunk, spent),
        end,
        e,
    ));
}

} // verus!
