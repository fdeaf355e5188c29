//! The sound server's side: sample rings between the realtime callbacks and the worker.
//!
//! A ring carries samples as their bit patterns. The callbacks only move bytes between a
//! buffer of the sound server and a ring; they neither allocate nor wait.
use rtrb::{Consumer, Producer, RingBuffer};
use vstd::arithmetic::power::pow;
use vstd::prelude::*;

use crate::text::{chars, contains, law_text_is_found_where_it_is_a_part, occurs, parts};

verus! {

/// `rtrb::Producer`: the writing end of a ring.
#[verifier::external_type_specification]
#[verifier::external_body]
#[verifier::reject_recursive_types(T)]
pub struct ExProducer<T>(rtrb::Producer<T>);

/// `rtrb::Consumer`: the reading end of a ring.
#[verifier::external_type_specification]
#[verifier::external_body]
#[verifier::reject_recursive_types(T)]
pub struct ExConsumer<T>(rtrb::Consumer<T>);

/// Everything that has been written through `tx`, in order.
pub uninterp spec fn ring_written(tx: Producer<u32>) -> Seq<u32>;

/// The number of samples that the ring of `tx` can hold.
pub uninterp spec fn ring_capacity(tx: Producer<u32>) -> nat;

/// Every sample that has been offered through `tx`, in order, with the ring's reply: whether it
/// was written.
pub uninterp spec fn ring_replies(tx: Producer<u32>) -> Seq<(u32, bool)>;

/// Everything that has been read through `rx`, in order.
pub uninterp spec fn ring_read(rx: Consumer<u32>) -> Seq<u32>;

/// Every answer that `rx` has had from its ring, in order: a sample, or nothing where the ring
/// was empty.
pub uninterp spec fn ring_answers(rx: Consumer<u32>) -> Seq<Option<u32>>;

/// `rtrb::RingBuffer::new`: the two ends of an empty ring.
#[verifier::external_body]
fn new_ring(capacity: usize) -> (r: (Producer<u32>, Consumer<u32>))
    requires
        4 * capacity <= isize::MAX,
    ensures
        ring_written(r.0) == Seq::<u32>::empty(),
        ring_replies(r.0) == Seq::<(u32, bool)>::empty(),
        ring_capacity(r.0) == capacity,
        ring_read(r.1) == Seq::<u32>::empty(),
        ring_answers(r.1) == Seq::<Option<u32>>::empty(),
{
    RingBuffer::new(capacity)
}

/// `rtrb::Producer::push`: writes `v`, or leaves it if the ring is full; either way it is one more
/// reply. A ring is not full
/// before its capacity has been written. Whether a later write finds room depends on how fast
/// the other end reads, and is not said.
#[verifier::external_body]
fn ring_push(tx: &mut Producer<u32>, v: u32) -> (r: bool)
    ensures
        ring_written(*final(tx)) == if r {
            ring_written(*old(tx)).push(v)
        } else {
            ring_written(*old(tx))
        },
        ring_replies(*final(tx)) == ring_replies(*old(tx)).push((v, r)),
        ring_capacity(*final(tx)) == ring_capacity(*old(tx)),
        ring_written(*old(tx)).len() < ring_capacity(*old(tx)) ==> r,
{
    tx.push(v).is_ok()
}

/// `rtrb::Consumer::pop`: reads the oldest sample, or nothing if the ring is empty; either way it
/// is one more answer. Which sample comes, and whether one does, depends on the other end, and is
/// not said.
#[verifier::external_body]
fn ring_pop(rx: &mut Consumer<u32>) -> (r: Option<u32>)
    ensures
        ring_answers(*final(rx)) == ring_answers(*old(rx)).push(r),
        ring_read(*final(rx)) == match r {
            Some(v) => ring_read(*old(rx)).push(v),
            None => ring_read(*old(rx)),
        },
{
    rx.pop().ok()
}

/// Samples in the ring of captured audio: four seconds at 16 kHz.
pub const CAPTURE_RING: usize = 64000;

/// Samples in the ring of converted audio: four seconds at 40 kHz.
pub const PLAYBACK_RING: usize = 160000;

/// The two ends of the ring of captured audio.
pub fn capture_ring() -> (r: (Producer<u32>, Consumer<u32>))
    ensures
        ring_written(r.0) == Seq::<u32>::empty(),
        ring_replies(r.0) == Seq::<(u32, bool)>::empty(),
        ring_capacity(r.0) == CAPTURE_RING,
        ring_capacity(r.0) == 4 * 16_000,
        ring_read(r.1) == Seq::<u32>::empty(),
        ring_answers(r.1) == Seq::<Option<u32>>::empty(),
{
    new_ring(CAPTURE_RING)
}

/// The two ends of the ring of converted audio.
pub fn playback_ring() -> (r: (Producer<u32>, Consumer<u32>))
    ensures
        ring_written(r.0) == Seq::<u32>::empty(),
        ring_replies(r.0) == Seq::<(u32, bool)>::empty(),
        ring_capacity(r.0) == PLAYBACK_RING,
        ring_capacity(r.0) == 4 * 40_000,
        ring_read(r.1) == Seq::<u32>::empty(),
        ring_answers(r.1) == Seq::<Option<u32>>::empty(),
{
    new_ring(PLAYBACK_RING)
}

/// The bit pattern of sample `i`: four bytes, lowest first.
pub open spec fn word_at(bytes: Seq<u8>, i: int) -> int {
    bytes[4 * i] + 0x100 * bytes[4 * i + 1] + 0x1_0000 * bytes[4 * i + 2] + 0x100_0000 * bytes[4 * i
        + 3]
}

/// Byte `k` of the bit pattern `v`, lowest first.
pub open spec fn byte_of(v: u32, k: int) -> u8 {
    if k == 0 {
        (v % 0x100) as u8
    } else if k == 1 {
        (v / 0x100 % 0x100) as u8
    } else if k == 2 {
        (v / 0x1_0000 % 0x100) as u8
    } else {
        (v / 0x100_0000) as u8
    }
}

/// The samples of a buffer, of whose bytes `len` are filled.
pub open spec fn words(bytes: Seq<u8>, len: int) -> Seq<u32> {
    Seq::new((len / 4) as nat, |i: int| word_at(bytes, i) as u32)
}

/// A sample survives its bytes: reading the four bytes that were written for a sample gives the
/// sample back.
pub proof fn law_bytes_give_back_sample(v: u32, bytes: Seq<u8>, i: int)
    requires
        0 <= i,
        4 * i + 4 <= bytes.len(),
        forall|k: int| 0 <= k < 4 ==> bytes[4 * i + k] == #[trigger] byte_of(v, k),
    ensures
        word_at(bytes, i) == v,
{
    assert(bytes[4 * i + 0] == byte_of(v, 0));
    assert(bytes[4 * i + 1] == byte_of(v, 1));
    assert(bytes[4 * i + 2] == byte_of(v, 2));
    assert(bytes[4 * i + 3] == byte_of(v, 3));
}

/// Those of `xs` that `ok` marks.
pub open spec fn marked(xs: Seq<u32>, ok: Seq<bool>) -> Seq<u32>
    decreases xs.len(),
{
    if xs.len() == 0 {
        Seq::empty()
    } else {
        let before = marked(xs.drop_last(), ok);
        if ok[xs.len() - 1] {
            before.push(xs.last())
        } else {
            before
        }
    }
}

/// The samples `xs`, each with its reply.
pub open spec fn replies(xs: Seq<u32>, ok: Seq<bool>) -> Seq<(u32, bool)> {
    Seq::new(xs.len(), |i: int| (xs[i], ok[i]))
}

/// What writing `xs` to a ring may do: each sample is offered in turn, and written or, if there is
/// no room, dropped; none is dropped before the ring's capacity has been written.
pub open spec fn offered(
    before: Producer<u32>,
    after: Producer<u32>,
    xs: Seq<u32>,
    ok: Seq<bool>,
) -> bool {
    &&& ok.len() == xs.len()
    &&& ring_replies(after) == ring_replies(before) + replies(xs, ok)
    &&& ring_written(after) == ring_written(before) + marked(xs, ok)
    &&& ring_capacity(after) == ring_capacity(before)
    &&& forall|i: int|
        0 <= i < xs.len() && ring_written(before).len() + i < ring_capacity(before)
            ==> #[trigger] ok[i]
}

/// What does not depend on later marks does not change with them.
proof fn lemma_marked_prefix(xs: Seq<u32>, ok: Seq<bool>, other: Seq<bool>)
    requires
        forall|i: int| 0 <= i < xs.len() ==> ok[i] == other[i],
    ensures
        marked(xs, ok) == marked(xs, other),
        marked(xs, ok).len() <= xs.len(),
    decreases xs.len(),
{
    if xs.len() > 0 {
        lemma_marked_prefix(xs.drop_last(), ok, other);
    }
}

/// One more sample is offered.
proof fn lemma_offer_one(
    before: Producer<u32>,
    mid: Producer<u32>,
    after: Producer<u32>,
    xs: Seq<u32>,
    v: u32,
    ok: Seq<bool>,
    r: bool,
)
    requires
        offered(before, mid, xs, ok),
        ring_replies(after) == ring_replies(mid).push((v, r)),
        ring_written(after) == if r {
            ring_written(mid).push(v)
        } else {
            ring_written(mid)
        },
        ring_capacity(after) == ring_capacity(mid),
        ring_written(mid).len() < ring_capacity(mid) ==> r,
    ensures
        offered(before, after, xs.push(v), ok.push(r)),
{
    let next = ok.push(r);
    lemma_marked_prefix(xs, ok, next);
    assert(xs.push(v).drop_last() =~= xs);
    assert(ring_replies(after) =~= ring_replies(before) + replies(xs.push(v), next));
    assert(ring_written(after) =~= ring_written(before) + marked(xs.push(v), next));
    assert forall|i: int|
        0 <= i < xs.push(v).len() && ring_written(before).len() + i < ring_capacity(
            before,
        ) implies #[trigger] next[i] by {
        if i < xs.len() {
            assert(ok[i]);
        }
    }
}

/// Moves a filled capture buffer into the ring. Tells whether a sample had to be dropped.
pub fn capture(tx: &mut Producer<u32>, bytes: &[u8], len: usize) -> (dropped: bool)
    requires
        len / 4 * 4 <= bytes@.len(),
    ensures
        exists|ok: Seq<bool>|
            {
                &&& #[trigger] offered(*old(tx), *final(tx), words(bytes@, len as int), ok)
                &&& dropped <==> ok.contains(false)
            },
{
    let n: usize = len / 4;
    let ghost all = words(bytes@, len as int);
    let ghost start = *tx;
    let ghost mut ok: Seq<bool> = Seq::empty();
    let mut dropped = false;
    let mut i: usize = 0;
    while i < n
        invariant
            n == len / 4,
            4 * n <= bytes@.len(),
            start == *old(tx),
            all == words(bytes@, len as int),
            i <= n,
            offered(start, *tx, all.take(i as int), ok),
            dropped <==> ok.contains(false),
        decreases n - i,
    {
        let v: u32 = bytes[i * 4] as u32 + bytes[i * 4 + 1] as u32 * 0x100 + bytes[i * 4 + 2] as u32
            * 0x1_0000 + bytes[i * 4 + 3] as u32 * 0x100_0000;
        let ghost mid = *tx;
        let r = ring_push(tx, v);
        proof {
            lemma_offer_one(start, mid, *tx, all.take(i as int), v, ok, r);
            assert(all.take(i as int).push(v) =~= all.take(i + 1));
            let next = ok.push(r);
            assert(next.contains(false) <==> ok.contains(false) || !r) by {
                if ok.contains(false) {
                    let k = choose|k: int| 0 <= k < ok.len() && ok[k] == false;
                    assert(next[k] == false);
                }
                if !r {
                    assert(next[ok.len() as int] == false);
                }
                if next.contains(false) {
                    let k = choose|k: int| 0 <= k < next.len() && next[k] == false;
                    if k < ok.len() {
                        assert(ok[k] == false);
                    }
                }
            }
            ok = next;
        }
        if !r {
            dropped = true;
        }
        i += 1;
    }
    assert(all.take(n as int) =~= all);
    dropped
}

/// Offers samples to a ring; what finds no room is lost.
pub fn send(tx: &mut Producer<u32>, xs: &[u32])
    ensures
        exists|ok: Seq<bool>| #[trigger] offered(*old(tx), *final(tx), xs@, ok),
{
    let ghost start = *tx;
    let ghost mut ok: Seq<bool> = Seq::empty();
    let mut i: usize = 0;
    while i < xs.len()
        invariant
            start == *old(tx),
            i <= xs@.len(),
            offered(start, *tx, xs@.take(i as int), ok),
        decreases xs@.len() - i,
    {
        let v = xs[i];
        let ghost mid = *tx;
        let r = ring_push(tx, v);
        proof {
            lemma_offer_one(start, mid, *tx, xs@.take(i as int), v, ok, r);
            assert(xs@.take(i as int).push(v) =~= xs@.take(i + 1));
            ok = ok.push(r);
        }
        i += 1;
    }
    assert(xs@.take(xs@.len() as int) =~= xs@);
}

/// The samples among the answers of a ring, in order.
pub open spec fn received(answers: Seq<Option<u32>>) -> Seq<u32>
    decreases answers.len(),
{
    if answers.len() == 0 {
        Seq::empty()
    } else {
        match answers.last() {
            Some(v) => received(answers.drop_last()).push(v),
            None => received(answers.drop_last()),
        }
    }
}

/// The sample that is played for an answer of the ring: silence where it has none.
pub open spec fn played(answer: Option<u32>) -> u32 {
    match answer {
        Some(v) => v,
        None => 0,
    }
}

/// The four bytes of frame `i` are those of the sample that is played for `answer`.
pub open spec fn frame_plays(bytes: Seq<u8>, i: int, answer: Option<u32>) -> bool {
    forall|k: int| 0 <= k < 4 ==> bytes[4 * i + k] == #[trigger] byte_of(played(answer), k)
}

/// Writes frame `i` of a playback buffer for an answer of the ring: the sample, or silence where
/// there is none. The other frames stay. Tells whether the sample was missing.
pub fn play_frame(bytes: &mut [u8], i: usize, answer: Option<u32>) -> (missing: bool)
    requires
        4 * i + 4 <= old(bytes)@.len(),
    ensures
        final(bytes)@.len() == old(bytes)@.len(),
        frame_plays(final(bytes)@, i as int, answer),
        forall|j: int|
            0 <= j < old(bytes)@.len() && (j < 4 * i || 4 * i + 4 <= j)
                ==> #[trigger] final(bytes)@[j] == old(bytes)@[j],
        missing == (answer is None),
{
    let size: usize = bytes.len();
    let v: u32 = match answer {
        Some(v) => v,
        None => 0,
    };
    bytes[i * 4] = (v % 0x100) as u8;
    bytes[i * 4 + 1] = (v / 0x100 % 0x100) as u8;
    bytes[i * 4 + 2] = (v / 0x1_0000 % 0x100) as u8;
    bytes[i * 4 + 3] = (v / 0x100_0000) as u8;
    answer.is_none()
}

/// What filling a playback buffer of `frames` frames may do, once the worker is ready: one answer
/// of the ring is taken for each frame, and each frame plays its answer; there is an underrun
/// exactly if some frame had none.
pub open spec fn plays(
    before: Consumer<u32>,
    after: Consumer<u32>,
    bytes: Seq<u8>,
    frames: int,
    underrun: bool,
    answers: Seq<Option<u32>>,
) -> bool {
    &&& answers.len() == frames
    &&& underrun <==> answers.contains(None)
    &&& ring_answers(after) == ring_answers(before) + answers
    &&& ring_read(after) == ring_read(before) + received(answers)
    &&& forall|i: int| 0 <= i < frames ==> frame_plays(bytes, i, #[trigger] answers[i])
}

/// What filling a playback buffer may do, whatever the ring answers.
pub open spec fn may_play(
    before: Consumer<u32>,
    after: Consumer<u32>,
    bytes: Seq<u8>,
    frames: int,
    underrun: bool,
) -> bool {
    exists|answers: Seq<Option<u32>>| #[trigger]
        plays(before, after, bytes, frames, underrun, answers)
}

/// Fills a playback buffer. Once the worker is ready, every frame is the next sample of the ring,
/// or silence where the ring has none; before that the ring is left alone and all frames are
/// silent. Gives the number of frames, and whether there was an underrun: a frame that had to be
/// filled with silence because the ring was empty.
pub fn playback(rx: &mut Consumer<u32>, bytes: &mut [u8], ready: bool) -> (r: (usize, bool))
    ensures
        r.0 == old(bytes)@.len() / 4,
        final(bytes)@.len() == old(bytes)@.len(),
        ready ==> may_play(*old(rx), *final(rx), final(bytes)@, r.0 as int, r.1),
        !ready ==> {
            &&& *final(rx) == *old(rx)
            &&& forall|i: int| 0 <= i < r.0 ==> #[trigger] frame_plays(final(bytes)@, i, None)
            &&& !r.1
        },
        forall|i: int|
            4 * r.0 <= i < old(bytes)@.len() ==> #[trigger] final(bytes)@[i] == old(bytes)@[i],
{
    let size: usize = bytes.len();
    let n: usize = size / 4;
    let ghost start = *rx;
    let ghost before = bytes@;
    let ghost mut answers: Seq<Option<u32>> = Seq::empty();
    let mut underrun = false;
    let mut i: usize = 0;
    proof {
        assert(ring_answers(start) + answers =~= ring_answers(start));
        assert(ring_read(start) + received(answers) =~= ring_read(start));
    }
    while i < n
        invariant
            n == size / 4,
            size == bytes@.len(),
            size == before.len(),
            start == *old(rx),
            i <= n,
            answers.len() == i,
            ready ==> plays(start, *rx, bytes@, i as int, underrun, answers),
            !ready ==> *rx == start,
            forall|k: int| 0 <= k < i ==> frame_plays(bytes@, k, #[trigger] answers[k]),
            !ready ==> forall|k: int| 0 <= k < i ==> #[trigger] answers[k] is None,
            underrun <==> ready && answers.contains(None),
            forall|j: int| 4 * i <= j < size ==> #[trigger] bytes@[j] == before[j],
        decreases n - i,
    {
        let ghost was = bytes@;
        let answer: Option<u32> = if ready {
            ring_pop(rx)
        } else {
            None
        };
        let missing = play_frame(bytes, i, answer);
        if ready && missing {
            underrun = true;
        }
        proof {
            let next = answers.push(answer);
            assert(next.drop_last() =~= answers);
            assert forall|k: int| 0 <= k < i + 1 implies frame_plays(
                bytes@,
                k,
                #[trigger] next[k],
            ) by {
                if k < i {
                    assert(frame_plays(was, k, answers[k]));
                    assert forall|b: int| 0 <= b < 4 implies bytes@[4 * k + b]
                        == #[trigger] byte_of(played(next[k]), b) by {
                        assert(was[4 * k + b] == byte_of(played(answers[k]), b));
                    }
                }
            }
            if ready {
                assert(ring_answers(*rx) =~= ring_answers(start) + next);
                assert(ring_read(*rx) =~= ring_read(start) + received(next));
            }
            lemma_pushed_none(answers, answer);
            answers = next;
        }
        i += 1;
    }
    proof {
        if !ready {
            assert forall|k: int| 0 <= k < n implies #[trigger] frame_plays(bytes@, k, None) by {
                assert(answers[k] is None);
            }
        } else {
            assert(plays(start, *rx, bytes@, n as int, underrun, answers));
            assert(may_play(start, *rx, bytes@, n as int, underrun));
        }
    }
    (n, underrun)
}

/// When a longer list of answers has an empty one.
proof fn lemma_pushed_none(answers: Seq<Option<u32>>, answer: Option<u32>)
    ensures
        answers.push(answer).contains(None) <==> answers.contains(None) || answer is None,
{
    let next = answers.push(answer);
    if answers.contains(None) {
        let k = choose|k: int| 0 <= k < answers.len() && answers[k] == None::<u32>;
        assert(next[k] == None::<u32>);
    }
    if answer is None {
        assert(next[answers.len() as int] == None::<u32>);
    }
    if next.contains(None) {
        let k = choose|k: int| 0 <= k < next.len() && next[k] == None::<u32>;
        if k < answers.len() {
            assert(answers[k] == None::<u32>);
        }
    }
}

/// What filling a block may do: the ring is asked until the block is full or the ring is empty,
/// and what it answers goes behind what the block held.
pub open spec fn fills(
    before: Consumer<u32>,
    after: Consumer<u32>,
    held: Seq<u32>,
    block: Seq<u32>,
    full: bool,
    answers: Seq<Option<u32>>,
) -> bool {
    &&& ring_answers(after) == ring_answers(before) + answers
    &&& ring_read(after) == ring_read(before) + received(answers)
    &&& block == held + received(answers)
    &&& full ==> !answers.contains(None)
    &&& !full ==> answers.len() > 0 && answers.last() is None && !answers.drop_last().contains(
        None,
    )
}

/// Reads from the ring until the block is full or the ring is empty. Tells whether the block is
/// full.
pub fn fill_block(rx: &mut Consumer<u32>, inbuf: &mut Vec<u32>, block: usize) -> (full: bool)
    requires
        old(inbuf)@.len() <= block,
    ensures
        final(inbuf)@.len() <= block,
        full == (final(inbuf)@.len() == block),
        exists|answers: Seq<Option<u32>>| #[trigger]
            fills(*old(rx), *final(rx), old(inbuf)@, final(inbuf)@, full, answers),
{
    let ghost start = *rx;
    let ghost held = inbuf@;
    let ghost mut answers: Seq<Option<u32>> = Seq::empty();
    proof {
        assert(ring_answers(start) + answers =~= ring_answers(start));
        assert(ring_read(start) + received(answers) =~= ring_read(start));
        assert(held + received(answers) =~= held);
    }
    while inbuf.len() < block
        invariant
            start == *old(rx),
            held == old(inbuf)@,
            inbuf@.len() <= block,
            fills(start, *rx, held, inbuf@, true, answers),
        decreases block - inbuf@.len(),
    {
        let answer = ring_pop(rx);
        proof {
            let next = answers.push(answer);
            assert(next.drop_last() =~= answers);
            assert(ring_answers(*rx) =~= ring_answers(start) + next);
            assert(ring_read(*rx) =~= ring_read(start) + received(next));
            lemma_pushed_none(answers, answer);
        }
        match answer {
            Some(v) => {
                inbuf.push(v);
                proof {
                    answers = answers.push(answer);
                    assert(inbuf@ =~= held + received(answers));
                }
            },
            None => {
                assert(fills(start, *rx, held, inbuf@, false, answers.push(answer)));
                return false;
            },
        }
    }
    true
}

/// Port of the playback stream.
pub fn link_source() -> (r: String)
    ensures
        r@ == "vc-live-out:output_MONO"@,
{
    "vc-live-out:output_MONO".to_owned()
}

/// Input ports of the virtual microphone, left and right.
pub fn link_targets(mic: &str) -> (r: (String, String))
    ensures
        r.0@ == mic@ + ":input_FL"@,
        r.1@ == mic@ + ":input_FR"@,
{
    let mut left = mic.to_owned();
    left.append(":input_FL");
    let mut right = mic.to_owned();
    right.append(":input_FR");
    (left, right)
}

/// What one call of the linking tool came to.
pub enum LinkReply {
    /// The tool could not be run.
    NoTool,
    /// The tool ran.
    Ran {
        /// It reported success.
        success: bool,
        /// What it complained.
        stderr: String,
    },
}

/// The port is linked: by this call, or before it.
pub open spec fn linked(reply: LinkReply) -> bool {
    reply matches LinkReply::Ran { success, stderr } && (success || occurs(
        stderr@,
        "File exists"@,
    ))
}

/// What to do after an attempt to link.
#[derive(Clone, Copy, Debug, PartialEq, Eq, Structural)]
pub enum LinkStep {
    /// A port is linked: done.
    Done,
    /// The ports are not there yet: wait, and try again.
    Retry,
}

fn is_linked(reply: &LinkReply) -> (r: bool)
    ensures
        r == linked(*reply),
{
    match reply {
        LinkReply::NoTool => false,
        LinkReply::Ran { success, stderr } => *success || contains(
            chars(stderr.as_str()).as_slice(),
            chars("File exists").as_slice(),
        ),
    }
}

/// What to do after an attempt to link, given the replies for the two input ports. One linked
/// port is enough; linking is retried until there is one.
pub fn link_step(left: &LinkReply, right: &LinkReply) -> (r: LinkStep)
    ensures
        r == LinkStep::Retry <==> !linked(*left) && !linked(*right),
        r == LinkStep::Done <==> linked(*left) || linked(*right),
{
    if is_linked(left) || is_linked(right) {
        LinkStep::Done
    } else {
        LinkStep::Retry
    }
}

/// A sample's bytes count by their places, the first byte least: one more in byte `k` is 256 to the
/// power of `k` more in the sample, and bytes that are all zero are the sample zero.
pub proof fn law_bytes_count_by_their_places(
    bytes: Seq<u8>,
    other: Seq<u8>,
    len: int,
    i: int,
    k: int,
)
    requires
        0 <= i < len / 4,
        len <= bytes.len(),
        len <= other.len(),
        0 <= k < 4,
        forall|j: int| 0 <= j < 4 && j != k ==> #[trigger] bytes[4 * i + j] == other[4 * i + j],
    ensures
        words(bytes, len).len() == len / 4,
        words(bytes, len)[i] - words(other, len)[i] == (bytes[4 * i + k] - other[4 * i + k]) * pow(
            256,
            k as nat,
        ),
        (forall|j: int| 0 <= j < 4 ==> #[trigger] bytes[4 * i + j] == 0) ==> words(bytes, len)[i]
            == 0,
{
    assert(pow(256, 0) == 1 && pow(256, 1) == 0x100 && pow(256, 2) == 0x1_0000 && pow(256, 3)
        == 0x100_0000) by {
        reveal_with_fuel(pow, 4);
    }
    assert(bytes[4 * i + 0] == bytes[4 * i] && other[4 * i + 0] == other[4 * i]);
    assert(words(bytes, len)[i] == word_at(bytes, i));
    assert(words(other, len)[i] == word_at(other, i));
    if k != 0 {
        assert(bytes[4 * i + 0] == other[4 * i + 0]);
    }
    if k != 1 {
        assert(bytes[4 * i + 1] == other[4 * i + 1]);
    }
    if k != 2 {
        assert(bytes[4 * i + 2] == other[4 * i + 2]);
    }
    if k != 3 {
        assert(bytes[4 * i + 3] == other[4 * i + 3]);
    }
    if forall|j: int| 0 <= j < 4 ==> #[trigger] bytes[4 * i + j] == 0 {
        assert(bytes[4 * i + 0] == 0 && bytes[4 * i + 1] == 0 && bytes[4 * i + 2] == 0 && bytes[4
            * i + 3] == 0);
    }
}

/// A frame that plays a sample reads as the sample; a frame that plays no sample is all zero.
pub proof fn law_frames_play_their_samples(bytes: Seq<u8>, i: int, answer: Option<u32>)
    requires
        0 <= i,
        4 * i + 4 <= bytes.len(),
        frame_plays(bytes, i, answer),
    ensures
        match answer {
            Some(v) => word_at(bytes, i) == v,
            None => forall|k: int| 0 <= k < 4 ==> #[trigger] bytes[4 * i + k] == 0,
        },
{
    let v = played(answer);
    assert forall|k: int| 0 <= k < 4 implies bytes[4 * i + k] == #[trigger] byte_of(v, k) by {
        assert(bytes[4 * i + k] == byte_of(played(answer), k));
    }
    match answer {
        Some(v) => law_bytes_give_back_sample(v, bytes, i),
        None => {
            assert forall|k: int| 0 <= k < 4 implies #[trigger] bytes[4 * i + k] == 0 by {
                assert(bytes[4 * i + k] == byte_of(v, k));
            }
        },
    }
}

/// What is written of samples and further samples is what is written of the first and then what is
/// written of the others; of one sample, itself if there was room for it.
pub proof fn law_writes_follow_each_other(
    xs: Seq<u32>,
    ok: Seq<bool>,
    more: Seq<u32>,
    more_ok: Seq<bool>,
    v: u32,
)
    requires
        xs.len() == ok.len(),
        more.len() == more_ok.len(),
    ensures
        marked(xs + more, ok + more_ok) == marked(xs, ok) + marked(more, more_ok),
        marked(seq![v], seq![true]) == seq![v],
        marked(seq![v], seq![false]) == Seq::<u32>::empty(),
    decreases more.len(),
{
    let one = seq![v];
    assert(one.drop_last() =~= Seq::<u32>::empty());
    assert(marked(Seq::<u32>::empty(), seq![true]) =~= Seq::empty());
    assert(marked(Seq::<u32>::empty(), seq![false]) =~= Seq::empty());
    assert(marked(one, seq![true]) =~= seq![v]);
    assert(marked(one, seq![false]) =~= Seq::empty());
    if more.len() == 0 {
        assert(xs + more =~= xs);
        assert(ok + more_ok =~= ok);
        assert(marked(xs, ok) + marked(more, more_ok) =~= marked(xs, ok));
    } else {
        let rest = more.drop_last();
        let rest_ok = more_ok.drop_last();
        assert((xs + more).drop_last() =~= xs + rest);
        law_writes_follow_each_other(xs, ok, rest, rest_ok, v);
        lemma_marked_prefix(xs + rest, ok + more_ok, ok + rest_ok);
        lemma_marked_prefix(rest, more_ok, rest_ok);
        assert(marked(xs + more, ok + more_ok) =~= marked(xs, ok) + marked(more, more_ok));
    }
}

/// What is read in answers and further answers is what is read in the first and then what is read
/// in the others; in one answer, its sample if it has one.
pub proof fn law_reads_follow_each_other(
    answers: Seq<Option<u32>>,
    more: Seq<Option<u32>>,
    v: u32,
)
    ensures
        received(answers + more) == received(answers) + received(more),
        received(seq![Some(v)]) == seq![v],
        received(seq![None]) == Seq::<u32>::empty(),
    decreases more.len(),
{
    assert(seq![Some(v)].drop_last() =~= Seq::<Option<u32>>::empty());
    assert(seq![None::<u32>].drop_last() =~= Seq::<Option<u32>>::empty());
    assert(received(Seq::<Option<u32>>::empty()) =~= Seq::empty());
    assert(received(seq![Some(v)]) =~= seq![v]);
    if more.len() == 0 {
        assert(answers + more =~= answers);
        assert(received(answers) + received(more) =~= received(answers));
    } else {
        assert((answers + more).drop_last() =~= answers + more.drop_last());
        law_reads_follow_each_other(answers, more.drop_last(), v);
        assert(received(answers + more) =~= received(answers) + received(more));
    }
}

/// A port that was linked before counts as linked: the tool fails and complains that the link
/// exists. With any other complaint, or without the tool, it is not linked.
pub proof fn law_existing_links_count(reply: LinkReply, before: Seq<char>, after: Seq<char>)
    requires
        reply matches LinkReply::Ran { success, stderr } && !success,
    ensures
        reply->stderr@ == before + "File exists"@ + after ==> linked(reply),
        !(exists|a: Seq<char>, b: Seq<char>| #[trigger]
            parts(reply->stderr@, a, "File exists"@, b)) ==> !linked(reply),
{
    law_text_is_found_where_it_is_a_part(reply->stderr@, "File exists"@);
    if reply->stderr@ == before + "File exists"@ + after {
        assert(parts(reply->stderr@, before, "File exists"@, after));
    }
}

/// Nothing is dropped while there is room: what is offered to a ring that has not yet been given as
/// much as it holds is all written, in order.
pub proof fn law_nothing_is_dropped_while_there_is_room(
    before: Producer<u32>,
    after: Producer<u32>,
    xs: Seq<u32>,
    ok: Seq<bool>,
)
    requires
        offered(before, after, xs, ok),
        ring_written(before).len() + xs.len() <= ring_capacity(before),
    ensures
        ring_written(after) == ring_written(before) + xs,
        ring_capacity(after) == ring_capacity(before),
        !ok.contains(false),
{
    assert forall|i: int| 0 <= i < ok.len() implies ok[i] by {}
    lemma_all_marked(xs, ok);
}

proof fn lemma_all_marked(xs: Seq<u32>, ok: Seq<bool>)
    requires
        forall|i: int| 0 <= i < xs.len() ==> ok[i],
    ensures
        marked(xs, ok) == xs,
    decreases xs.len(),
{
    if xs.len() > 0 {
        lemma_all_marked(xs.drop_last(), ok);
        assert(marked(xs, ok) =~= xs);
    } else {
        assert(marked(xs, ok) =~= xs);
    }
}

proof fn lemma_all_received(answers: Seq<Option<u32>>)
    requires
        !answers.contains(None),
    ensures
        received(answers).len() == answers.len(),
        forall|i: int|
            0 <= i < answers.len() ==> answers[i] == Some(#[trigger] received(answers)[i]),
    decreases answers.len(),
{
    if answers.len() > 0 {
        let rest = answers.drop_last();
        assert(answers[answers.len() - 1] is Some) by {
            if answers[answers.len() - 1] is None {
                assert(answers.contains(None));
            }
        }
        assert(!rest.contains(None)) by {
            if rest.contains(None) {
                let k = choose|k: int| 0 <= k < rest.len() && rest[k] == None::<u32>;
                assert(answers[k] == None::<u32>);
            }
        }
        lemma_all_received(rest);
    }
}

/// Without an underrun, what is played is what is read: one sample of the ring to a frame, in
/// order.
pub proof fn law_playback_plays_what_it_reads(
    before: Consumer<u32>,
    after: Consumer<u32>,
    bytes: Seq<u8>,
    frames: int,
    answers: Seq<Option<u32>>,
)
    requires
        0 <= frames,
        4 * frames <= bytes.len(),
        plays(before, after, bytes, frames, false, answers),
    ensures
        ring_read(after) == ring_read(before) + words(bytes, 4 * frames),
{
    lemma_all_received(answers);
    let xs = words(bytes, 4 * frames);
    assert forall|i: int| 0 <= i < frames implies #[trigger] xs[i] == received(answers)[i] by {
        assert(frame_plays(bytes, i, answers[i]));
        law_frames_play_their_samples(bytes, i, answers[i]);
        assert(answers[i] == Some(received(answers)[i]));
    }
    assert(xs =~= received(answers));
}

/// A block is filled with what is read, behind what it held; nothing that is read is lost.
pub proof fn law_block_is_filled_with_what_is_read(
    before: Consumer<u32>,
    after: Consumer<u32>,
    held: Seq<u32>,
    block: Seq<u32>,
    full: bool,
    answers: Seq<Option<u32>>,
)
    requires
        fills(before, after, held, block, full, answers),
    ensures
        held.len() <= block.len(),
        block.take(held.len() as int) == held,
        ring_read(after) == ring_read(before) + block.skip(held.len() as int),
        full ==> ring_answers(after).len() == ring_answers(before).len() + block.len() - held.len(),
        !full ==> ring_answers(after).len() == ring_answers(before).len() + block.len() - held.len()
            + 1,
{
    assert(block.take(held.len() as int) =~= held);
    assert(block.skip(held.len() as int) =~= received(answers));
    if full {
        lemma_all_received(answers);
    } else {
        lemma_all_received(answers.drop_last());
    }
}

} // verus!
