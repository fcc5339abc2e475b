//! Datagram framing for UDP applications carried over QUIC DATAGRAM frames.
//!
//! One application datagram becomes one or more frames; delivery is
//! all-or-nothing per datagram. The layout is the same in both directions.

use vstd::prelude::*;

use crate::bytes::{append, get_be16, get_be32, push_be16, push_be32};

verus! {

/// Largest application datagram the protocol carries.
pub const UDP_QUIC_MAX_DGRAM: usize = 65507;

/// Frame header: session id (4), datagram id (2), fragment offset (2),
/// total length (2), all in network order.
pub const HDR: usize = 10;

/// One fragment of an application datagram.
#[derive(Debug, Clone, PartialEq, Eq)]
pub struct Frame<'a> {
    pub session_id: u32,
    pub dgram_id: u16,
    pub frag_offset: u16,
    pub total_len: u16,
    pub payload: &'a [u8],
}

/// The value of a frame.
pub struct FrameView {
    pub session_id: u32,
    pub dgram_id: u16,
    pub frag_offset: u16,
    pub total_len: u16,
    pub payload: Seq<u8>,
}

impl<'a> View for Frame<'a> {
    type V = FrameView;

    open spec fn view(&self) -> FrameView {
        FrameView {
            session_id: self.session_id,
            dgram_id: self.dgram_id,
            frag_offset: self.frag_offset,
            total_len: self.total_len,
            payload: self.payload@,
        }
    }
}

/// Wire form of a frame: header, then payload.
pub open spec fn encoded(f: FrameView) -> Seq<u8> {
    crate::bytes::be32(f.session_id) + crate::bytes::be16(f.dgram_id) + crate::bytes::be16(f.frag_offset) + crate::bytes::be16(f.total_len) + f.payload
}

/// The frame a byte string stands for; none when shorter than the header.
pub open spec fn decoded(b: Seq<u8>) -> Option<FrameView> {
    if b.len() < HDR {
        None
    } else {
        Some(
            FrameView {
                session_id: crate::bytes::val32(b, 0) as u32,
                dgram_id: crate::bytes::val16(b, 4) as u16,
                frag_offset: crate::bytes::val16(b, 6) as u16,
                total_len: crate::bytes::val16(b, 8) as u16,
                payload: b.subrange(HDR as int, b.len() as int),
            },
        )
    }
}

/// Appends the wire form of `f` to `out`.
pub fn encode(out: &mut Vec<u8>, f: &Frame)
    ensures
        final(out)@ == old(out)@ + encoded(f@),
{
    push_be32(out, f.session_id);
    push_be16(out, f.dgram_id);
    push_be16(out, f.frag_offset);
    push_be16(out, f.total_len);
    append(out, f.payload);
    assert(out@ =~= old(out)@ + encoded(f@));
}

/// Reads a frame; `None` when the bytes are shorter than the header. Whether
/// offset and total fit together is the reassembler's question.
pub fn decode<'a>(b: &'a [u8]) -> (r: Option<Frame<'a>>)
    ensures
        match r {
            Some(f) => decoded(b@) == Some(f@),
            None => decoded(b@) is None,
        },
{
    if b.len() < HDR {
        return None;
    }
    Some(
        Frame {
            session_id: get_be32(b, 0),
            dgram_id: get_be16(b, 4),
            frag_offset: get_be16(b, 6),
            total_len: get_be16(b, 8),
            payload: vstd::slice::slice_subrange(b, HDR, b.len()),
        },
    )
}

/// Law: decoding gives back every frame that was encoded.
pub proof fn law_decode_encode(f: FrameView)
    ensures
        decoded(encoded(f)) == Some(f),
{
    let b = encoded(f);
    assert(b.subrange(HDR as int, b.len() as int) =~= f.payload);
}

/// Law: encoding gives back every byte string that decodes.
pub proof fn law_encode_decode(b: Seq<u8>)
    requires
        b.len() >= HDR,
    ensures
        encoded(decoded(b)->Some_0) == b,
{
    let f = decoded(b)->Some_0;
    crate::bytes::lemma_val16_be16(b, 4);
    crate::bytes::lemma_val16_be16(b, 6);
    crate::bytes::lemma_val16_be16(b, 8);
    crate::bytes::lemma_val32_be32(b, 0);
    assert(b =~= b.subrange(0, 4) + b.subrange(4, 6) + b.subrange(6, 8) + b.subrange(8, 10)
        + f.payload);
}

/// The smaller of two naturals.
pub open spec fn min_nat(a: nat, b: nat) -> nat {
    if a <= b {
        a
    } else {
        b
    }
}

/// The frames that carry `data` from offset `off` on, cut every `chunk` bytes.
pub open spec fn frames_from(
    session_id: u32,
    dgram_id: u16,
    data: Seq<u8>,
    chunk: nat,
    off: nat,
) -> Seq<FrameView>
    decreases data.len() - off,
{
    if off >= data.len() || chunk == 0 {
        Seq::empty()
    } else {
        let end = min_nat(off + chunk, data.len());
        seq![
            FrameView {
                session_id,
                dgram_id,
                frag_offset: off as u16,
                total_len: data.len() as u16,
                payload: data.subrange(off as int, end as int),
            },
        ] + frames_from(session_id, dgram_id, data, chunk, end)
    }
}

/// Whether a datagram can be cut into frames of at most `max_frame` bytes.
pub open spec fn can_fragment(data: Seq<u8>, max_frame: nat) -> bool {
    data.len() <= UDP_QUIC_MAX_DGRAM && max_frame > HDR + 1
}

/// All frames of a datagram.
pub open spec fn frames_of(
    session_id: u32,
    dgram_id: u16,
    data: Seq<u8>,
    max_frame: nat,
) -> Seq<FrameView> {
    frames_from(session_id, dgram_id, data, (max_frame - HDR) as nat, 0)
}

/// Splits one datagram into wire frames of at most `max_frame` bytes. `None`
/// when the datagram is over the protocol cap or `max_frame` leaves no room.
pub fn fragment(session_id: u32, dgram_id: u16, data: &[u8], max_frame: usize) -> (r: Option<
    Vec<Vec<u8>>,
>)
    ensures
        r is Some <==> can_fragment(data@, max_frame as nat),
        r matches Some(out) ==> {
            let frames = frames_of(session_id, dgram_id, data@, max_frame as nat);
            &&& out@.len() == frames.len()
            &&& forall|i: int|
                0 <= i < out@.len() ==> (#[trigger] out@[i])@ == encoded(frames[i])
            &&& forall|i: int| 0 <= i < out@.len() ==> (#[trigger] out@[i])@.len() <= max_frame
        },
{
    if data.len() > UDP_QUIC_MAX_DGRAM || max_frame <= HDR + 1 {
        return None;
    }
    let chunk: usize = max_frame - HDR;
    let mut out: Vec<Vec<u8>> = Vec::new();
    let mut off: usize = 0;
    let ghost all = frames_of(session_id, dgram_id, data@, max_frame as nat);
    assert(all =~= Seq::<FrameView>::empty() + frames_from(
        session_id,
        dgram_id,
        data@,
        chunk as nat,
        0,
    ));
    let ghost mut done = Seq::<FrameView>::empty();
    while off < data.len()
        invariant
            off <= data.len() <= UDP_QUIC_MAX_DGRAM,
            chunk == max_frame - HDR,
            chunk > 1,
            done.len() == out@.len(),
            all == frames_of(session_id, dgram_id, data@, max_frame as nat),
            all == done + frames_from(session_id, dgram_id, data@, chunk as nat, off as nat),
            forall|i: int| 0 <= i < out@.len() ==> (#[trigger] out@[i])@ == encoded(done[i]),
            forall|i: int| 0 <= i < out@.len() ==> (#[trigger] out@[i])@.len() <= max_frame,
        decreases data.len() - off,
    {
        let end: usize = if data.len() - off <= chunk {
            data.len()
        } else {
            off + chunk
        };
        let mut f: Vec<u8> = Vec::new();
        let fr = Frame {
            session_id,
            dgram_id,
            frag_offset: off as u16,
            total_len: data.len() as u16,
            payload: vstd::slice::slice_subrange(data, off, end),
        };
        encode(&mut f, &fr);
        proof {
            assert(f@ =~= encoded(fr@));
            let rest = frames_from(session_id, dgram_id, data@, chunk as nat, off as nat);
            assert(rest[0] == fr@);
            let tail = frames_from(session_id, dgram_id, data@, chunk as nat, end as nat);
            assert(rest =~= seq![fr@] + tail);
            assert(all =~= done.push(fr@) + tail);
            done = done.push(fr@);
        }
        out.push(f);
        off = end;
    }
    assert(all =~= done);
    Some(out)
}

/// Frame size where the connection does not say.
pub const DEFAULT_FRAME: usize = 1200;

/// What became of sending a frame.
#[derive(Debug, Clone, Copy, PartialEq, Eq, Structural)]
pub enum Sent {
    Gone,
    /// The connection's frame size has shrunk meanwhile.
    TooLarge,
    Failed,
}

/// What a sender does next.
#[derive(Debug, Clone, Copy, PartialEq, Eq, Structural)]
pub enum SendStep {
    /// Send the next frame.
    Next,
    /// Fragment the datagram anew at the size the connection now has, and
    /// send it from the start.
    Again,
    /// The datagram is dealt with.
    Finished,
    /// The datagram is given up.
    GivenUp,
}

/// Whether the frame sent was the last.
pub open spec fn is_last(at: nat, count: nat) -> bool {
    at + 1 >= count
}

/// Decides after frame `at` of `count`. In the first round a frame that is too
/// large starts the second, and other failures are passed over: datagrams may
/// be lost. In the second round any failure gives the datagram up.
pub fn send_step(second: bool, at: usize, count: usize, sent: Sent) -> (r: SendStep)
    ensures
        r == if !second && sent == Sent::TooLarge {
            SendStep::Again
        } else if second && sent != Sent::Gone {
            SendStep::GivenUp
        } else if is_last(at as nat, count as nat) {
            SendStep::Finished
        } else {
            SendStep::Next
        },
{
    if !second && sent == Sent::TooLarge {
        return SendStep::Again;
    }
    if second && sent != Sent::Gone {
        return SendStep::GivenUp;
    }
    if count == 0 || at >= count - 1 {
        SendStep::Finished
    } else {
        SendStep::Next
    }
}

// ---------------------------------------------------------------------
// Reassembly
// ---------------------------------------------------------------------

/// Fragments held for one datagram, in ascending offset order.
pub type Frags = Seq<(nat, Seq<u8>)>;

/// A partial datagram.
pub struct SlotView {
    pub total: nat,
    pub got: Frags,
    pub first_seen: nat,
}

/// All partial datagrams of a session, with the limits in force.
pub struct ReasmView {
    pub slots: Map<u16, SlotView>,
    pub max_slots: nat,
    pub max_bytes: nat,
}

/// What became of a frame.
pub enum OutcomeView {
    Complete(Seq<u8>),
    Partial,
    Malformed,
    Evicted,
}

/// Bytes held by a list of fragments.
pub open spec fn frag_bytes(got: Frags) -> nat
    decreases got.len(),
{
    if got.len() == 0 {
        0
    } else {
        frag_bytes(got.drop_last()) + got.last().1.len()
    }
}

/// The fragments' payloads, one after another.
pub open spec fn frag_concat(got: Frags) -> Seq<u8>
    decreases got.len(),
{
    if got.len() == 0 {
        Seq::empty()
    } else {
        frag_concat(got.drop_last()) + got.last().1
    }
}

/// Whether a fragment at `off` is held already.
pub open spec fn has_offset(got: Frags, off: nat) -> bool {
    exists|i: int| 0 <= i < got.len() && (#[trigger] got[i]).0 == off
}

/// `got` with one more fragment at its place in the order.
pub open spec fn insert_frag(got: Frags, off: nat, payload: Seq<u8>) -> Frags
    decreases got.len(),
{
    if got.len() == 0 || got.last().0 < off {
        got.push((off, payload))
    } else {
        insert_frag(got.drop_last(), off, payload).push(got.last())
    }
}

/// Whether each fragment starts where the ones before it end.
pub open spec fn gapless(got: Frags) -> bool {
    forall|i: int|
        #![trigger got[i]]
        0 <= i < got.len() ==> got[i].0 == frag_bytes(got.subrange(0, i))
}

/// Whether the fragments make up a datagram of `total` bytes.
pub open spec fn is_complete(got: Frags, total: nat) -> bool {
    gapless(got) && frag_bytes(got) == total
}

/// Whether the frame's own numbers fit together and are within the cap.
pub open spec fn frame_in_bounds(f: FrameView) -> bool {
    0 < f.total_len <= UDP_QUIC_MAX_DGRAM && f.frag_offset + f.payload.len() <= f.total_len
}

/// Whether `id` is a partial datagram none of the others is older than.
pub open spec fn is_oldest(slots: Map<u16, SlotView>, id: u16) -> bool {
    slots.contains_key(id) && forall|j: u16|
        #[trigger] slots.contains_key(j) ==> slots[id].first_seen <= slots[j].first_seen
}

/// Whether a frame of datagram `id` finds every slot taken by others.
pub open spec fn under_pressure(pre: ReasmView, id: u16) -> bool {
    !pre.slots.contains_key(id) && pre.slots.len() >= pre.max_slots && pre.slots.len() > 0
}

/// The slot of datagram `f.dgram_id`, or a fresh one.
pub open spec fn slot_for(slots: Map<u16, SlotView>, f: FrameView, now: nat) -> SlotView {
    if slots.contains_key(f.dgram_id) {
        slots[f.dgram_id]
    } else {
        SlotView { total: f.total_len as nat, got: Seq::empty(), first_seen: now }
    }
}

/// The slot's fragments once the frame is taken in; a repeat changes nothing.
pub open spec fn got_with(got: Frags, f: FrameView) -> Frags {
    if has_offset(got, f.frag_offset as nat) {
        got
    } else {
        insert_frag(got, f.frag_offset as nat, f.payload)
    }
}

/// What an in-bounds frame does once room was made (`slots`; `evicted` says
/// whether another datagram had to go).
pub open spec fn taken_in(
    slots: Map<u16, SlotView>,
    max_bytes: nat,
    f: FrameView,
    now: nat,
    evicted: bool,
) -> (Map<u16, SlotView>, OutcomeView) {
    let slot = slot_for(slots, f, now);
    let got = got_with(slot.got, f);
    if frag_bytes(slot.got) + f.payload.len() > max_bytes {
        (slots.remove(f.dgram_id), OutcomeView::Malformed)
    } else if is_complete(got, slot.total) {
        (slots.remove(f.dgram_id), OutcomeView::Complete(frag_concat(got)))
    } else {
        (
            slots.insert(
                f.dgram_id,
                SlotView { total: slot.total, got, first_seen: slot.first_seen },
            ),
            if evicted {
                OutcomeView::Evicted
            } else {
                OutcomeView::Partial
            },
        )
    }
}

/// One reassembly step. Where several partial datagrams are equally old, any
/// of them may be the one that makes room.
pub open spec fn accept_step(
    pre: ReasmView,
    f: FrameView,
    now: nat,
    post: ReasmView,
    outcome: OutcomeView,
) -> bool {
    &&& post.max_slots == pre.max_slots
    &&& post.max_bytes == pre.max_bytes
    &&& if !frame_in_bounds(f) {
        post.slots == pre.slots && outcome == OutcomeView::Malformed
    } else if under_pressure(pre, f.dgram_id) {
        exists|victim: u16| #[trigger]
            is_oldest(pre.slots, victim) && (post.slots, outcome) == taken_in(
                pre.slots.remove(victim),
                pre.max_bytes,
                f,
                now,
                true,
            )
    } else {
        (post.slots, outcome) == taken_in(pre.slots, pre.max_bytes, f, now, false)
    }
}

/// What became of a frame handed to the reassembler.
#[derive(Debug, PartialEq, Eq)]
pub enum Outcome {
    /// The datagram is whole.
    Complete(Vec<u8>),
    /// Taken in; more fragments are needed.
    Partial,
    /// Refused: offset and total do not fit, or a cap is exceeded.
    Malformed,
    /// Taken in, and the oldest partial datagram was dropped to make room.
    Evicted,
}

impl View for Outcome {
    type V = OutcomeView;

    open spec fn view(&self) -> OutcomeView {
        match self {
            Outcome::Complete(d) => OutcomeView::Complete(d@),
            Outcome::Partial => OutcomeView::Partial,
            Outcome::Malformed => OutcomeView::Malformed,
            Outcome::Evicted => OutcomeView::Evicted,
        }
    }
}

struct Fragment {
    off: usize,
    data: Vec<u8>,
}

spec fn frags_view(v: Seq<Fragment>) -> Frags {
    Seq::new(v.len(), |i: int| (v[i].off as nat, v[i].data@))
}

struct Slot {
    id: u16,
    total: usize,
    got: Vec<Fragment>,
    bytes: usize,
    first_seen: u64,
}

impl Slot {
    spec fn view(&self) -> SlotView {
        SlotView {
            total: self.total as nat,
            got: frags_view(self.got@),
            first_seen: self.first_seen as nat,
        }
    }

    spec fn wf(&self, max_bytes: nat) -> bool {
        &&& self.bytes == frag_bytes(frags_view(self.got@))
        &&& self.bytes <= max_bytes
        &&& sorted_frags(frags_view(self.got@))
        &&& forall|i: int|
            #![trigger self.got@[i]]
            0 <= i < self.got@.len() ==> self.got@[i].off + self.got@[i].data@.len()
                <= UDP_QUIC_MAX_DGRAM
    }
}

/// Offsets ascend strictly.
pub open spec fn sorted_frags(got: Frags) -> bool {
    forall|i: int, j: int| 0 <= i < j < got.len() ==> (#[trigger] got[i]).0 < (#[trigger] got[j]).0
}

spec fn unique_ids(s: Seq<Slot>) -> bool {
    forall|i: int, j: int| 0 <= i < j < s.len() ==> (#[trigger] s[i]).id != (#[trigger] s[j]).id
}

spec fn slot_map(s: Seq<Slot>) -> Map<u16, SlotView>
    decreases s.len(),
{
    if s.len() == 0 {
        Map::empty()
    } else {
        slot_map(s.drop_last()).insert(s.last().id, s.last().view())
    }
}

spec fn at_id(s: Seq<Slot>, i: int, id: u16) -> bool {
    0 <= i < s.len() && s[i].id == id
}

proof fn lemma_slot_map(s: Seq<Slot>)
    requires
        unique_ids(s),
    ensures
        slot_map(s).dom().finite(),
        slot_map(s).len() == s.len(),
        forall|i: int|
            #![trigger s[i]]
            0 <= i < s.len() ==> slot_map(s).contains_key(s[i].id) && slot_map(s)[s[i].id]
                == s[i].view(),
        forall|id: u16| #[trigger]
            slot_map(s).contains_key(id) ==> exists|i: int| #[trigger] at_id(s, i, id),
    decreases s.len(),
{
    if s.len() > 0 {
        let t = s.drop_last();
        assert forall|i: int, j: int| 0 <= i < j < t.len() implies (#[trigger] t[i]).id != (
        #[trigger] t[j]).id by {
            assert(s[i].id != s[j].id);
        }
        lemma_slot_map(t);
        if slot_map(t).contains_key(s.last().id) {
            let i = choose|i: int| at_id(t, i, s.last().id);
            assert(s[i].id != s[s.len() - 1].id);
        }
        assert forall|i: int| #![trigger s[i]] 0 <= i < s.len() implies slot_map(s).contains_key(
            s[i].id,
        ) && slot_map(s)[s[i].id] == s[i].view() by {
            if i < s.len() - 1 {
                assert(t[i] == s[i]);
                assert(s[i].id != s[s.len() - 1].id);
            }
        }
        assert forall|id: u16| #[trigger] slot_map(s).contains_key(id) implies exists|i: int| #[trigger]
            at_id(s, i, id) by {
            if id == s.last().id {
                assert(at_id(s, s.len() - 1, id));
            } else {
                let i = choose|i: int| at_id(t, i, id);
                assert(at_id(s, i, id));
            }
        }
    }
}

proof fn lemma_slot_map_remove(s: Seq<Slot>, k: int)
    requires
        unique_ids(s),
        0 <= k < s.len(),
    ensures
        unique_ids(s.remove(k)),
        slot_map(s.remove(k)) == slot_map(s).remove(s[k].id),
{
    let t = s.remove(k);
    assert forall|i: int, j: int| 0 <= i < j < t.len() implies (#[trigger] t[i]).id != (
    #[trigger] t[j]).id by {
        let a = if i < k { i } else { i + 1 };
        let b = if j < k { j } else { j + 1 };
        assert(s[a].id != s[b].id);
    }
    lemma_slot_map(s);
    lemma_slot_map(t);
    assert forall|id: u16| slot_map(t).contains_key(id) == slot_map(s).remove(
        s[k].id,
    ).contains_key(id) && (slot_map(t).contains_key(id) ==> slot_map(t)[id] == slot_map(
        s,
    )[id]) by {
        if slot_map(t).contains_key(id) {
            let i = choose|i: int| at_id(t, i, id);
            let a = if i < k { i } else { i + 1 };
            assert(t[i] == s[a]);
            assert(s[a].id == id);
            if a < k {
                assert(s[a].id != s[k].id);
            } else {
                assert(s[k].id != s[a].id);
            }
        }
        if slot_map(s).contains_key(id) && id != s[k].id {
            let a = choose|a: int| at_id(s, a, id);
            let i = if a < k { a } else { a - 1 };
            assert(t[i] == s[a]);
        }
    }
    assert(slot_map(t) =~= slot_map(s).remove(s[k].id));
}

proof fn lemma_frag_bytes_prefix(got: Frags, i: int)
    requires
        0 <= i < got.len(),
    ensures
        frag_bytes(got.subrange(0, i + 1)) == frag_bytes(got.subrange(0, i)) + got[i].1.len(),
        frag_concat(got.subrange(0, i + 1)) == frag_concat(got.subrange(0, i)) + got[i].1,
{
    assert(got.subrange(0, i + 1).drop_last() =~= got.subrange(0, i));
}

/// Inserting at the first position whose offset is not below `off`.
proof fn lemma_insert_frag_at(got: Frags, off: nat, payload: Seq<u8>, k: int)
    requires
        sorted_frags(got),
        0 <= k <= got.len(),
        forall|i: int| 0 <= i < k ==> (#[trigger] got[i]).0 < off,
        forall|i: int| k <= i < got.len() ==> (#[trigger] got[i]).0 > off,
    ensures
        insert_frag(got, off, payload) == got.insert(k, (off, payload)),
    decreases got.len(),
{
    if got.len() == 0 || got.last().0 < off {
        if got.len() > 0 {
            assert(k == got.len()) by {
                if k < got.len() {
                    assert(got[got.len() - 1].0 > off);
                }
            }
        }
        assert(got.insert(k, (off, payload)) =~= got.push((off, payload)));
    } else {
        assert(k < got.len()) by {
            if k == got.len() {
                assert(got[got.len() - 1].0 < off);
            }
        }
        let t = got.drop_last();
        assert(sorted_frags(t)) by {
            assert forall|i: int, j: int| 0 <= i < j < t.len() implies (#[trigger] t[i]).0 < (
            #[trigger] t[j]).0 by {
                assert(got[i].0 < got[j].0);
            }
        }
        assert forall|i: int| 0 <= i < k implies (#[trigger] t[i]).0 < off by {
            assert(got[i].0 < off);
        }
        assert forall|i: int| k <= i < t.len() implies (#[trigger] t[i]).0 > off by {
            assert(got[i].0 > off);
        }
        lemma_insert_frag_at(t, off, payload, k);
        assert(got.insert(k, (off, payload)) =~= t.insert(k, (off, payload)).push(got.last()));
    }
}

proof fn lemma_insert_frag_bytes(got: Frags, off: nat, payload: Seq<u8>)
    ensures
        frag_bytes(insert_frag(got, off, payload)) == frag_bytes(got) + payload.len(),
    decreases got.len(),
{
    if got.len() == 0 || got.last().0 < off {
        assert(got.push((off, payload)).drop_last() =~= got);
    } else {
        lemma_insert_frag_bytes(got.drop_last(), off, payload);
        let r = insert_frag(got.drop_last(), off, payload);
        assert(r.push(got.last()).drop_last() =~= r);
    }
}

/// Bounded reassembly of one session's datagrams. Slots cap the number of
/// partial datagrams, bytes cap each of them.
pub struct Reassembler {
    slots: Vec<Slot>,
    max_slots: usize,
    max_bytes: usize,
}

impl View for Reassembler {
    type V = ReasmView;

    closed spec fn view(&self) -> ReasmView {
        ReasmView {
            slots: slot_map(self.slots@),
            max_slots: self.max_slots as nat,
            max_bytes: self.max_bytes as nat,
        }
    }
}

/// Bytes held over all partial datagrams.
pub open spec fn held_bytes(slots: Map<u16, SlotView>) -> nat
    decreases slots.dom().len(),
    when slots.dom().finite()
{
    if slots.dom().len() == 0 {
        0
    } else {
        let id = slots.dom().choose();
        frag_bytes(slots[id].got) + held_bytes(slots.remove(id))
    }
}

proof fn lemma_held_bytes_split(slots: Map<u16, SlotView>, id: u16)
    requires
        slots.dom().finite(),
        slots.contains_key(id),
    ensures
        held_bytes(slots) == frag_bytes(slots[id].got) + held_bytes(slots.remove(id)),
    decreases slots.dom().len(),
{
    let c = slots.dom().choose();
    assert(slots.dom().contains(c));
    if c != id {
        lemma_held_bytes_split(slots.remove(c), id);
        lemma_held_bytes_split(slots.remove(id), c);
        assert(slots.remove(c).remove(id) =~= slots.remove(id).remove(c));
    }
}

proof fn lemma_held_bytes_sum(s: Seq<Slot>, max_bytes: nat)
    requires
        unique_ids(s),
        forall|i: int| #![trigger s[i]] 0 <= i < s.len() ==> s[i].wf(max_bytes),
    ensures
        held_bytes(slot_map(s)) == slot_bytes_sum(s),
        slot_bytes_sum(s) <= s.len() * max_bytes,
    decreases s.len(),
{
    lemma_slot_map(s);
    if s.len() > 0 {
        let t = s.drop_last();
        lemma_slot_map_remove(s, s.len() - 1);
        assert(s.remove(s.len() - 1) =~= t);
        lemma_held_bytes_sum(t, max_bytes);
        let id = s[s.len() - 1].id;
        lemma_held_bytes_split(slot_map(s), id);
        assert(s.len() * max_bytes == t.len() * max_bytes + max_bytes) by (nonlinear_arith)
            requires
                s.len() == t.len() + 1,
        ;
    }
}

spec fn slot_bytes_sum(s: Seq<Slot>) -> nat
    decreases s.len(),
{
    if s.len() == 0 {
        0
    } else {
        slot_bytes_sum(s.drop_last()) + s.last().bytes as nat
    }
}

/// Law of the limits: the number of slots and the bytes of each.
pub open spec fn within_limits(r: ReasmView) -> bool {
    &&& r.slots.dom().finite()
    &&& r.slots.len() <= r.max_slots || r.slots.len() <= 1
    &&& forall|id: u16| #[trigger]
        r.slots.contains_key(id) ==> {
            &&& frag_bytes(r.slots[id].got) <= r.max_bytes
            &&& sorted_frags(r.slots[id].got)
        }
}

impl Reassembler {
    /// Ids name one slot each, and every slot is within its limits.
    pub closed spec fn wf(&self) -> bool {
        &&& unique_ids(self.slots@)
        &&& forall|i: int|
            #![trigger self.slots@[i]]
            0 <= i < self.slots@.len() ==> self.slots@[i].wf(self.max_bytes as nat)
        &&& (self.slots@.len() <= self.max_slots || self.slots@.len() <= 1)
    }

    /// An empty reassembler with the given limits.
    pub fn new(max_slots: usize, max_bytes: usize) -> (r: Self)
        ensures
            r.wf(),
            r@ == (ReasmView {
                slots: Map::empty(),
                max_slots: max_slots as nat,
                max_bytes: max_bytes as nat,
            }),
    {
        Reassembler { slots: Vec::new(), max_slots, max_bytes }
    }

    /// Partial datagrams held.
    pub fn slots_len(&self) -> (n: usize)
        requires
            self.wf(),
        ensures
            n == self@.slots.len(),
    {
        proof {
            lemma_slot_map(self.slots@);
        }
        self.slots.len()
    }

    fn position(&self, id: u16) -> (r: Option<usize>)
        requires
            self.wf(),
        ensures
            match r {
                Some(i) => i < self.slots@.len() && self.slots@[i as int].id == id,
                None => !self@.slots.contains_key(id),
            },
    {
        let mut i: usize = 0;
        while i < self.slots.len()
            invariant
                i <= self.slots@.len(),
                forall|j: int| 0 <= j < i ==> (#[trigger] self.slots@[j]).id != id,
            decreases self.slots@.len() - i,
        {
            if self.slots[i].id == id {
                return Some(i);
            }
            i += 1;
        }
        proof {
            lemma_slot_map(self.slots@);
            if self@.slots.contains_key(id) {
                let k = choose|k: int| at_id(self.slots@, k, id);
                assert(self.slots@[k].id != id);
            }
        }
        None
    }

    fn oldest(&self) -> (r: usize)
        requires
            self.wf(),
            self.slots@.len() > 0,
        ensures
            r < self.slots@.len(),
            is_oldest(self@.slots, self.slots@[r as int].id),
    {
        let mut best: usize = 0;
        let mut i: usize = 1;
        while i < self.slots.len()
            invariant
                best < self.slots@.len(),
                1 <= i <= self.slots@.len(),
                forall|j: int|
                    0 <= j < i ==> self.slots@[best as int].first_seen <= (
                    #[trigger] self.slots@[j]).first_seen,
            decreases self.slots@.len() - i,
        {
            if self.slots[i].first_seen < self.slots[best].first_seen {
                best = i;
            }
            i += 1;
        }
        proof {
            lemma_slot_map(self.slots@);
            let b = self.slots@[best as int].id;
            assert forall|j: u16| #[trigger]
                self@.slots.contains_key(j) implies self@.slots[b].first_seen
                <= self@.slots[j].first_seen by {
                let k = choose|k: int| at_id(self.slots@, k, j);
                assert(self.slots@[k].id == j);
            }
        }
        best
    }

    /// Id of a partial datagram that none is older than.
    pub fn oldest_id(&self) -> (r: Option<u16>)
        requires
            self.wf(),
        ensures
            match r {
                Some(id) => is_oldest(self@.slots, id),
                None => self@.slots == Map::<u16, SlotView>::empty(),
            },
    {
        if self.slots.len() == 0 {
            return None;
        }
        let i: usize = self.oldest();
        Some(self.slots[i].id)
    }

    fn drop_slot(&mut self, i: usize)
        requires
            old(self).wf(),
            i < old(self).slots@.len(),
        ensures
            final(self).wf(),
            final(self).slots@ == old(self).slots@.remove(i as int),
            final(self).max_slots == old(self).max_slots,
            final(self).max_bytes == old(self).max_bytes,
            final(self)@.slots == old(self)@.slots.remove(old(self).slots@[i as int].id),
    {
        proof {
            lemma_slot_map_remove(self.slots@, i as int);
        }
        let _gone = self.slots.remove(i);
        assert forall|k: int| #![trigger self.slots@[k]] 0 <= k < self.slots@.len() implies self.slots@[k].wf(self.max_bytes as nat) by {
            let a = if k < i { k } else { k + 1 };
            assert(self.slots@[k] == old(self).slots@[a]);
        }
    }

    /// Bytes held over all partial datagrams (saturating at the machine's limit).
    pub fn buffered(&self) -> (n: usize)
        requires
            self.wf(),
        ensures
            n == min_nat(held_bytes(self@.slots), usize::MAX as nat),
    {
        let mut n: usize = 0;
        let mut i: usize = 0;
        while i < self.slots.len()
            invariant
                i <= self.slots@.len(),
                n == min_nat(
                    slot_bytes_sum(self.slots@.subrange(0, i as int)),
                    usize::MAX as nat,
                ),
            decreases self.slots@.len() - i,
        {
            assert(self.slots@.subrange(0, i + 1).drop_last() =~= self.slots@.subrange(
                0,
                i as int,
            ));
            n = n.saturating_add(self.slots[i].bytes);
            i += 1;
        }
        proof {
            assert(self.slots@.subrange(0, i as int) =~= self.slots@);
            lemma_held_bytes_sum(self.slots@, self.max_bytes as nat);
        }
        n
    }

    /// Drops every partial datagram first seen more than `gap` ago; returns
    /// how many there were. Times are in one unit of a monotonic clock.
    pub fn reap_older(&mut self, now: u64, gap: u64) -> (n: usize)
        requires
            old(self).wf(),
        ensures
            final(self).wf(),
            final(self)@.max_slots == old(self)@.max_slots,
            final(self)@.max_bytes == old(self)@.max_bytes,
            forall|id: u16| #[trigger]
                final(self)@.slots.contains_key(id) <==> old(self)@.slots.contains_key(id)
                    && now - old(self)@.slots[id].first_seen <= gap,
            forall|id: u16| #[trigger]
                final(self)@.slots.contains_key(id) ==> final(self)@.slots[id]
                    == old(self)@.slots[id],
            n == old(self)@.slots.len() - final(self)@.slots.len(),
    {
        let mut n: usize = 0;
        let mut i: usize = 0;
        proof {
            lemma_slot_map(self.slots@);
        }
        while i < self.slots.len()
            invariant
                self.wf(),
                self.max_slots == old(self).max_slots,
                self.max_bytes == old(self).max_bytes,
                i <= self.slots@.len(),
                n == old(self)@.slots.len() - self.slots@.len(),
                n + self.slots@.len() <= usize::MAX,
                forall|id: u16| #[trigger]
                    self@.slots.contains_key(id) ==> old(self)@.slots.contains_key(id)
                        && self@.slots[id] == old(self)@.slots[id],
                forall|id: u16| #[trigger]
                    old(self)@.slots.contains_key(id) && now - old(self)@.slots[id].first_seen
                        <= gap ==> self@.slots.contains_key(id),
                forall|j: int|
                    0 <= j < i ==> now - (#[trigger] self.slots@[j]).first_seen <= gap,
            decreases self.slots@.len() - i,
        {
            proof {
                lemma_slot_map(self.slots@);
                assert(self.slots@[i as int].id == self.slots[i as int].id);
            }
            if now.saturating_sub(self.slots[i].first_seen) > gap {
                let ghost before = *self;
                self.drop_slot(i);
                n += 1;
                assert forall|j: int| 0 <= j < i implies now - (
                #[trigger] self.slots@[j]).first_seen <= gap by {
                    assert(self.slots@[j] == before.slots@[j]);
                }
            } else {
                i += 1;
            }
        }
        proof {
            lemma_slot_map(self.slots@);
            assert forall|id: u16| #[trigger]
                self@.slots.contains_key(id) implies now - old(self)@.slots[id].first_seen
                <= gap by {
                let k = choose|k: int| at_id(self.slots@, k, id);
                assert(self.slots@[k].id == id);
            }
        }
        n
    }

    /// Takes in one frame.
    pub fn accept(&mut self, f: &Frame, now: u64) -> (r: Outcome)
        requires
            old(self).wf(),
        ensures
            final(self).wf(),
            accept_step(old(self)@, f@, now as nat, final(self)@, r@),
    {
        let total: usize = f.total_len as usize;
        let off: usize = f.frag_offset as usize;
        if total == 0 || total > UDP_QUIC_MAX_DGRAM || f.payload.len() > total || off > total
            - f.payload.len() {
            return Outcome::Malformed;
        }
        proof {
            lemma_slot_map(self.slots@);
        }
        let ghost pre = self@;
        let found = self.position(f.dgram_id);
        let mut evicted = false;
        let ghost mut victim: u16 = 0;
        if found.is_none() && self.slots.len() >= self.max_slots && self.slots.len() > 0 {
            let o: usize = self.oldest();
            proof {
                victim = self.slots@[o as int].id;
            }
            self.drop_slot(o);
            evicted = true;
        }
        assert(evicted == under_pressure(pre, f.dgram_id)) by {
            if let Some(i) = found {
                assert(pre.slots.contains_key(old(self).slots@[i as int].id));
            }
        }
        let ghost base = self@.slots;
        let r = self.take_in(f, now, evicted);
        assert(evicted ==> is_oldest(pre.slots, victim) && base == pre.slots.remove(victim));
        assert(!evicted ==> base == pre.slots);
        r
    }

    fn take_in(&mut self, f: &Frame, now: u64, evicted: bool) -> (r: Outcome)
        requires
            old(self).wf(),
            frame_in_bounds(f@),
            old(self)@.slots.contains_key(f.dgram_id) || old(self).slots@.len() < old(
                self,
            ).max_slots || old(self).slots@.len() == 0,
        ensures
            final(self).wf(),
            final(self)@.max_slots == old(self)@.max_slots,
            final(self)@.max_bytes == old(self)@.max_bytes,
            (final(self)@.slots, r@) == taken_in(
                old(self)@.slots,
                old(self)@.max_bytes,
                f@,
                now as nat,
                evicted,
            ),
    {
        let ghost base = self@.slots;
        proof {
            lemma_slot_map(self.slots@);
        }
        // The slot is taken out of the table while it is worked on.
        let (mut slot, at): (Slot, Option<usize>) = match self.position(f.dgram_id) {
            Some(i) => {
                proof {
                    assert(self.slots@[i as int].id == f.dgram_id);
                    lemma_slot_map_remove(self.slots@, i as int);
                }
                let s = self.slots.remove(i);
                (s, Some(i))
            },
            None => (
                Slot {
                    id: f.dgram_id,
                    total: f.total_len as usize,
                    got: Vec::new(),
                    bytes: 0,
                    first_seen: now,
                },
                None,
            ),
        };
        let ghost slot0 = slot;
        proof {
            assert(slot.view().got =~= slot_for(base, f@, now as nat).got);
            assert(slot.view() == slot_for(base, f@, now as nat));
            assert(base.remove(f.dgram_id) =~= slot_map(self.slots@));
            assert forall|k: int| #![trigger self.slots@[k]] 0 <= k < self.slots@.len() implies self.slots@[k].wf(self.max_bytes as nat) by {
                if let Some(i) = at {
                    let a = if k < i { k } else { k + 1 };
                    assert(self.slots@[k] == old(self).slots@[a]);
                }
            }
        }
        if f.payload.len() > self.max_bytes - slot.bytes {
            return Outcome::Malformed;
        }
        slot.take_frame(f, Ghost(self.max_bytes as nat));
        if slot.whole() {
            let data = slot.join();
            return Outcome::Complete(data);
        }
        proof {
            lemma_slot_map(self.slots@);
            let t = self.slots@.push(slot);
            assert(t.drop_last() =~= self.slots@);
            assert(slot_map(t) =~= base.insert(f.dgram_id, slot.view()));
            assert forall|i: int, j: int| 0 <= i < j < t.len() implies (#[trigger] t[i]).id != (
            #[trigger] t[j]).id by {
                if j == t.len() - 1 {
                    assert(slot_map(self.slots@).contains_key(self.slots@[i].id));
                }
            }
        }
        self.slots.push(slot);
        if evicted {
            Outcome::Evicted
        } else {
            Outcome::Partial
        }
    }
}

impl Slot {
    fn take_frame(&mut self, f: &Frame, max_bytes: Ghost<nat>)
        requires
            old(self).wf(max_bytes@),
            frame_in_bounds(f@),
            old(self).bytes + f.payload@.len() <= max_bytes@ <= usize::MAX,
        ensures
            final(self).wf(max_bytes@),
            final(self).id == old(self).id,
            final(self).view() == (SlotView {
                total: old(self).view().total,
                got: got_with(old(self).view().got, f@),
                first_seen: old(self).view().first_seen,
            }),
    {
        let off: usize = f.frag_offset as usize;
        let ghost got0 = self.view().got;
        let mut k: usize = 0;
        while k < self.got.len() && self.got[k].off < off
            invariant
                k <= self.got@.len(),
                got0 == frags_view(self.got@),
                forall|i: int| 0 <= i < k ==> (#[trigger] self.got@[i]).off < off,
            decreases self.got@.len() - k,
        {
            k += 1;
        }
        if k < self.got.len() && self.got[k].off == off {
            assert(got0[k as int].0 == off as nat);
            assert(has_offset(got0, off as nat));
            assert(self.view() == old(self).view());
            return ;
        }
        proof {
            assert forall|i: int| 0 <= i < k implies (#[trigger] got0[i]).0 < off by {
                assert(self.got@[i].off < off);
            }
            assert forall|i: int| k <= i < got0.len() implies (#[trigger] got0[i]).0 > off by {
                if i > k {
                    assert(got0[k as int].0 < got0[i].0);
                }
            }
            assert(!has_offset(got0, off as nat));
            lemma_insert_frag_at(got0, off as nat, f.payload@, k as int);
            lemma_insert_frag_bytes(got0, off as nat, f.payload@);
        }
        let data = vstd::slice::slice_to_vec(f.payload);
        self.got.insert(k, Fragment { off, data });
        self.bytes = self.bytes + f.payload.len();
        proof {
            let got1 = frags_view(self.got@);
            assert(got1 =~= got0.insert(k as int, (off as nat, f.payload@)));
            assert forall|i: int, j: int| 0 <= i < j < got1.len() implies (#[trigger] got1[i]).0 < (
            #[trigger] got1[j]).0 by {
                let a = if i < k { i } else { i - 1 };
                let b = if j < k { j } else { j - 1 };
                if i != k && j != k {
                    assert(got0[a].0 < got0[b].0);
                }
            }
            assert forall|i: int| #![trigger self.got@[i]] 0 <= i < self.got@.len() implies self.got@[i].off + self.got@[i].data@.len() <= UDP_QUIC_MAX_DGRAM by {
                if i != k {
                    let a = if i < k { i } else { i - 1 };
                    assert(self.got@[i] == old(self).got@[a]);
                }
            }
        }
    }

    fn whole(&self) -> (r: bool)
        requires
            exists|m: nat| #[trigger] self.wf(m),
        ensures
            r == is_complete(self.view().got, self.view().total),
    {
        let ghost got = self.view().got;
        let mut want: usize = 0;
        let mut i: usize = 0;
        while i < self.got.len()
            invariant
                i <= self.got@.len(),
                exists|m: nat| #[trigger] self.wf(m),
                got == frags_view(self.got@),
                want == frag_bytes(got.subrange(0, i as int)),
                forall|j: int|
                    #![trigger got[j]]
                    0 <= j < i ==> got[j].0 == frag_bytes(got.subrange(0, j)),
            decreases self.got@.len() - i,
        {
            proof {
                lemma_frag_bytes_prefix(got, i as int);
                assert(got[i as int].0 == self.got@[i as int].off);
            }
            if self.got[i].off != want {
                return false;
            }
            want = want + self.got[i].data.len();
            i += 1;
        }
        assert(got.subrange(0, i as int) =~= got);
        want == self.total
    }

    fn join(&self) -> (r: Vec<u8>)
        ensures
            r@ == frag_concat(self.view().got),
    {
        let ghost got = self.view().got;
        let mut out: Vec<u8> = Vec::new();
        let mut i: usize = 0;
        while i < self.got.len()
            invariant
                i <= self.got@.len(),
                got == frags_view(self.got@),
                out@ == frag_concat(got.subrange(0, i as int)),
            decreases self.got@.len() - i,
        {
            proof {
                lemma_frag_bytes_prefix(got, i as int);
            }
            append(&mut out, self.got[i].data.as_slice());
            i += 1;
        }
        assert(got.subrange(0, i as int) =~= got);
        out
    }
}

// ---------------------------------------------------------------------
// Laws
// ---------------------------------------------------------------------

/// Law: every step keeps the slot count and the per-datagram bytes within the
/// limits, and with them the bytes held overall.
pub proof fn law_step_keeps_limits(
    pre: ReasmView,
    f: FrameView,
    now: nat,
    post: ReasmView,
    outcome: OutcomeView,
)
    requires
        within_limits(pre),
        accept_step(pre, f, now, post, outcome),
    ensures
        within_limits(post),
        held_bytes(post.slots) <= post.max_bytes * (if post.max_slots == 0 {
            1
        } else {
            post.max_slots
        }),
{
    if frame_in_bounds(f) {
        if under_pressure(pre, f.dgram_id) {
            let victim = choose|victim: u16| #[trigger]
                is_oldest(pre.slots, victim) && (post.slots, outcome) == taken_in(
                    pre.slots.remove(victim),
                    pre.max_bytes,
                    f,
                    now,
                    true,
                );
            lemma_taken_in_limits(pre.slots.remove(victim), pre.max_bytes, f, now, true);
        } else {
            lemma_taken_in_limits(pre.slots, pre.max_bytes, f, now, false);
        }
    }
    lemma_held_bytes_bound(post.slots, post.max_bytes);
    let n = post.slots.len();
    let m = if post.max_slots == 0 { 1 } else { post.max_slots };
    assert(n * post.max_bytes <= post.max_bytes * m) by (nonlinear_arith)
        requires
            n <= m,
    ;
}

proof fn lemma_insert_frag_sorted(got: Frags, off: nat, payload: Seq<u8>)
    requires
        sorted_frags(got),
        !has_offset(got, off),
    ensures
        sorted_frags(insert_frag(got, off, payload)),
        insert_frag(got, off, payload).len() == got.len() + 1,
        forall|i: int|
            0 <= i < got.len() + 1 ==> (#[trigger] insert_frag(got, off, payload)[i]) == (
                off,
                payload,
            ) || got.contains(insert_frag(got, off, payload)[i]),
    decreases got.len(),
{
    let r = insert_frag(got, off, payload);
    if got.len() == 0 || got.last().0 < off {
        assert forall|i: int, j: int| 0 <= i < j < r.len() implies (#[trigger] r[i]).0 < (
        #[trigger] r[j]).0 by {
            if j == r.len() - 1 && i < got.len() - 1 {
                assert(got[i].0 < got[got.len() - 1].0);
            }
        }
    } else {
        let t = got.drop_last();
        assert forall|i: int, j: int| 0 <= i < j < t.len() implies (#[trigger] t[i]).0 < (
        #[trigger] t[j]).0 by {
            assert(got[i].0 < got[j].0);
        }
        if has_offset(t, off) {
            let i = choose|i: int| 0 <= i < t.len() && (#[trigger] t[i]).0 == off;
            assert(got[i].0 == off);
        }
        lemma_insert_frag_sorted(t, off, payload);
        let u = insert_frag(t, off, payload);
        assert(got.last().0 > off) by {
            assert(got[got.len() - 1].0 != off);
        }
        assert forall|i: int| 0 <= i < u.len() implies (#[trigger] u[i]).0 < got.last().0 by {
            if u[i] != (off, payload) {
                let k = choose|k: int| 0 <= k < t.len() && t[k] == u[i];
                assert(got[k].0 < got[got.len() - 1].0);
            }
        }
        assert forall|i: int| 0 <= i < got.len() + 1 implies (#[trigger] r[i]) == (off, payload)
            || got.contains(r[i]) by {
            if i < u.len() {
                assert(r[i] == u[i]);
                if u[i] != (off, payload) {
                    let k = choose|k: int| 0 <= k < t.len() && t[k] == u[i];
                    assert(got[k] == r[i]);
                }
            } else {
                assert(r[i] == got[got.len() - 1]);
            }
        }
    }
}

proof fn lemma_taken_in_limits(
    slots: Map<u16, SlotView>,
    max_bytes: nat,
    f: FrameView,
    now: nat,
    evicted: bool,
)
    requires
        slots.dom().finite(),
        forall|id: u16| #[trigger]
            slots.contains_key(id) ==> frag_bytes(slots[id].got) <= max_bytes && sorted_frags(
                slots[id].got,
            ),
    ensures
        ({
            let post = taken_in(slots, max_bytes, f, now, evicted).0;
            &&& post.dom().finite()
            &&& post.len() <= slots.insert(f.dgram_id, slot_for(slots, f, now)).len()
            &&& forall|id: u16| #[trigger]
                post.contains_key(id) ==> frag_bytes(post[id].got) <= max_bytes && sorted_frags(
                    post[id].got,
                )
        }),
{
    let slot = slot_for(slots, f, now);
    if !has_offset(slot.got, f.frag_offset as nat) {
        lemma_insert_frag_bytes(slot.got, f.frag_offset as nat, f.payload);
        lemma_insert_frag_sorted(slot.got, f.frag_offset as nat, f.payload);
    }
    let post = taken_in(slots, max_bytes, f, now, evicted).0;
    assert forall|id: u16| #[trigger] post.contains_key(id) implies frag_bytes(post[id].got)
        <= max_bytes && sorted_frags(post[id].got) by {
        if id != f.dgram_id {
            assert(slots.contains_key(id));
        }
    }
}

proof fn lemma_held_bytes_bound(slots: Map<u16, SlotView>, max_bytes: nat)
    requires
        slots.dom().finite(),
        forall|id: u16| #[trigger]
            slots.contains_key(id) ==> frag_bytes(slots[id].got) <= max_bytes,
    ensures
        held_bytes(slots) <= slots.len() * max_bytes,
    decreases slots.len(),
{
    if slots.dom().len() > 0 {
        let c = slots.dom().choose();
        assert(slots.contains_key(c));
        lemma_held_bytes_bound(slots.remove(c), max_bytes);
        assert(slots.len() * max_bytes == slots.remove(c).len() * max_bytes + max_bytes)
            by (nonlinear_arith)
            requires
                slots.len() == slots.remove(c).len() + 1,
        ;
    }
}

/// Whether frame `i` carries a non-empty part of `data` that ends where the
/// next frame's part begins, or at the end of `data` for the last.
pub open spec fn tile_at(fs: Seq<FrameView>, data: Seq<u8>, i: int) -> bool {
    let f = fs[i];
    let end = f.frag_offset + f.payload.len();
    &&& f.payload.len() > 0
    &&& end <= data.len()
    &&& f.payload == data.subrange(f.frag_offset as int, end)
    &&& f.total_len == data.len()
    &&& end == if i + 1 < fs.len() {
        fs[i + 1].frag_offset as int
    } else {
        data.len() as int
    }
}

/// Whether consecutive frames carry consecutive, non-empty parts of `data`
/// from `off` to its end.
pub open spec fn tiles(fs: Seq<FrameView>, data: Seq<u8>, off: nat) -> bool {
    &&& fs.len() > 0 ==> fs[0].frag_offset == off
    &&& fs.len() == 0 ==> off == data.len()
    &&& forall|i: int| 0 <= i < fs.len() ==> #[trigger] tile_at(fs, data, i)
}

proof fn lemma_frames_tile(session_id: u32, dgram_id: u16, data: Seq<u8>, chunk: nat, off: nat)
    requires
        chunk > 0,
        off <= data.len() <= UDP_QUIC_MAX_DGRAM,
    ensures
        tiles(frames_from(session_id, dgram_id, data, chunk, off), data, off),
        forall|i: int|
            #![trigger frames_from(session_id, dgram_id, data, chunk, off)[i]]
            0 <= i < frames_from(session_id, dgram_id, data, chunk, off).len() ==> frames_from(
                session_id,
                dgram_id,
                data,
                chunk,
                off,
            )[i].dgram_id == dgram_id,
    decreases data.len() - off,
{
    let fs = frames_from(session_id, dgram_id, data, chunk, off);
    if off < data.len() {
        let end = min_nat(off + chunk, data.len());
        lemma_frames_tile(session_id, dgram_id, data, chunk, end);
        let tail = frames_from(session_id, dgram_id, data, chunk, end);
        assert forall|i: int| 0 <= i < fs.len() implies #[trigger] tile_at(fs, data, i) by {
            if i > 0 {
                assert(fs[i] == tail[i - 1]);
                assert(tile_at(tail, data, i - 1));
                if i + 1 < fs.len() {
                    assert(fs[i + 1] == tail[i]);
                }
            } else if fs.len() > 1 {
                assert(fs[1] == tail[0]);
            }
        }
        assert forall|i: int| #![trigger fs[i]] 0 <= i < fs.len() implies fs[i].dgram_id
            == dgram_id by {
            if i > 0 {
                assert(fs[i] == tail[i - 1]);
            }
        }
    }
}

/// Offsets of a tiling ascend.
proof fn lemma_tiles_ascend(fs: Seq<FrameView>, data: Seq<u8>, i: int, j: int)
    requires
        tiles(fs, data, 0),
        0 <= i < j < fs.len(),
    ensures
        fs[i].frag_offset + fs[i].payload.len() <= fs[j].frag_offset,
    decreases j - i,
{
    if i + 1 < j {
        lemma_tiles_ascend(fs, data, i, j - 1);
    }
    assert(tile_at(fs, data, j - 1));
}

/// The fragment a frame leaves in its slot.
pub open spec fn frag_of(f: FrameView) -> (nat, Seq<u8>) {
    (f.frag_offset as nat, f.payload)
}

spec fn drawn(got: Frags, fs: Seq<FrameView>, order: Seq<int>, n: int, k: int, j: int) -> bool {
    0 <= j < n && got[k] == frag_of(fs[order[j]])
}

spec fn is_drawn(got: Frags, fs: Seq<FrameView>, order: Seq<int>, n: int, k: int) -> bool {
    exists|j: int| #[trigger] drawn(got, fs, order, n, k, j)
}

/// `got` holds the fragments of the first `n` frames named by `order`.
spec fn holds_first(got: Frags, fs: Seq<FrameView>, order: Seq<int>, n: int) -> bool {
    &&& got.len() == n
    &&& sorted_frags(got)
    &&& forall|k: int| 0 <= k < n ==> #[trigger] is_drawn(got, fs, order, n, k)
}

/// Whether `order` names indices below `n`, none of them twice.
pub open spec fn is_pick(order: Seq<int>, n: nat) -> bool {
    &&& forall|i: int| #![trigger order[i]] 0 <= i < order.len() ==> 0 <= order[i] < n
    &&& forall|i: int, j: int|
        0 <= i < j < order.len() ==> #[trigger] order[i] != #[trigger] order[j]
}

/// Whether `order` names each index below `n` once.
pub open spec fn is_order(order: Seq<int>, n: nat) -> bool {
    is_pick(order, n) && order.len() == n
}

/// Whether nothing is held but under this id.
pub open spec fn only_id(slots: Map<u16, SlotView>, id: u16) -> bool {
    forall|j: u16| #[trigger] slots.contains_key(j) ==> j == id
}

/// The bytes of fragments of one tiling, in order, end where the last one ends.
proof fn lemma_drawn_bytes(
    got: Frags,
    fs: Seq<FrameView>,
    data: Seq<u8>,
    order: Seq<int>,
    n: int,
    m: int,
)
    requires
        tiles(fs, data, 0),
        is_pick(order, fs.len()),
        0 <= n <= order.len(),
        n <= fs.len(),
        holds_first(got, fs, order, n),
        0 <= m <= n,
    ensures
        m > 0 ==> frag_bytes(got.subrange(0, m)) <= got[m - 1].0 + got[m - 1].1.len(),
        m > 0 ==> got[m - 1].0 + got[m - 1].1.len() <= data.len(),
        m == 0 ==> frag_bytes(got.subrange(0, m)) == 0,
    decreases m,
{
    if m > 0 {
        lemma_drawn_bytes(got, fs, data, order, n, m - 1);
        lemma_frag_bytes_prefix(got, m - 1);
        assert(is_drawn(got, fs, order, n, m - 1));
        let b = choose|b: int| #[trigger] drawn(got, fs, order, n, m - 1, b);
        assert(got[m - 1] == frag_of(fs[order[b]]));
        assert(tile_at(fs, data, order[b]));
        if m > 1 {
            assert(is_drawn(got, fs, order, n, m - 2));
            let a = choose|a: int| #[trigger] drawn(got, fs, order, n, m - 2, a);
            assert(got[m - 2] == frag_of(fs[order[a]]));
            assert(got[m - 2].0 < got[m - 1].0);
            if order[a] > order[b] {
                lemma_tiles_ascend(fs, data, order[b], order[a]);
            }
            assert(order[a] < order[b]);
            lemma_tiles_ascend(fs, data, order[a], order[b]);
        }
    }
}

/// A gapless run of a tiling's fragments is the tiling's beginning.
proof fn lemma_gapless_is_prefix(
    got: Frags,
    fs: Seq<FrameView>,
    data: Seq<u8>,
    order: Seq<int>,
    n: int,
    k: int,
)
    requires
        tiles(fs, data, 0),
        is_pick(order, fs.len()),
        0 <= n <= order.len(),
        n <= fs.len(),
        holds_first(got, fs, order, n),
        gapless(got),
        0 <= k < n,
    ensures
        got[k] == frag_of(fs[k]),
    decreases k,
{
    assert(is_drawn(got, fs, order, n, k));
    let b = choose|b: int| #[trigger] drawn(got, fs, order, n, k, b);
    let o = order[b];
    assert(got[k] == frag_of(fs[o]));
    if k > 0 {
        lemma_gapless_is_prefix(got, fs, data, order, n, k - 1);
        lemma_frag_bytes_prefix(got, k - 1);
        assert(got[k - 1].0 == frag_bytes(got.subrange(0, k - 1)));
        assert(got[k].0 == frag_bytes(got.subrange(0, k)));
        assert(tile_at(fs, data, k - 1));
    } else {
        assert(got.subrange(0, 0) =~= Seq::empty());
    }
    if o < k {
        lemma_tiles_ascend(fs, data, o, k);
        assert(tile_at(fs, data, o));
    }
    if o > k {
        lemma_tiles_ascend(fs, data, k, o);
        assert(tile_at(fs, data, k));
    }
}

/// All fragments of a tiling, in order, are the tiling.
proof fn lemma_all_drawn(
    got: Frags,
    fs: Seq<FrameView>,
    data: Seq<u8>,
    order: Seq<int>,
)
    requires
        tiles(fs, data, 0),
        is_order(order, fs.len()),
        holds_first(got, fs, order, fs.len() as int),
    ensures
        forall|k: int| #![trigger got[k]] 0 <= k < fs.len() ==> got[k] == frag_of(fs[k]),
{
    let n = fs.len() as int;
    let place = |k: int| order[choose|b: int| #[trigger] drawn(got, fs, order, n, k, b)];
    assert forall|k: int| 0 <= k < n implies 0 <= #[trigger] place(k) < n && got[k] == frag_of(
        fs[place(k)],
    ) by {
        assert(is_drawn(got, fs, order, n, k));
        let b = choose|b: int| #[trigger] drawn(got, fs, order, n, k, b);
        assert(drawn(got, fs, order, n, k, b));
    }
    assert forall|k: int| 0 < k < n implies place(k - 1) < #[trigger] place(k) by {
        assert(got[k - 1].0 < got[k].0);
        let (x, y) = (place(k - 1), place(k));
        assert(got[k - 1] == frag_of(fs[x]) && got[k] == frag_of(fs[y]));
        if x > y {
            lemma_tiles_ascend(fs, data, y, x);
        }
    }
    lemma_ascending_is_identity(place, n);
    assert forall|k: int| #![trigger got[k]] 0 <= k < n implies got[k] == frag_of(fs[k]) by {
        assert(place(k) == k);
    }
}

/// A strictly ascending map of `0..n` into itself is the identity.
proof fn lemma_ascending_is_identity(place: spec_fn(int) -> int, n: int)
    requires
        0 <= n,
        forall|k: int| 0 <= k < n ==> 0 <= #[trigger] place(k) < n,
        forall|k: int| 0 < k < n ==> place(k - 1) < #[trigger] place(k),
    ensures
        forall|k: int| 0 <= k < n ==> #[trigger] place(k) == k,
{
    assert forall|k: int| 0 <= k < n implies #[trigger] place(k) == k by {
        lemma_ascending_low(place, n, k);
        lemma_ascending_high(place, n, k);
    }
}

proof fn lemma_ascending_low(place: spec_fn(int) -> int, n: int, k: int)
    requires
        0 <= k < n,
        forall|k: int| 0 <= k < n ==> 0 <= #[trigger] place(k) < n,
        forall|k: int| 0 < k < n ==> place(k - 1) < #[trigger] place(k),
    ensures
        place(k) >= k,
    decreases k,
{
    if k > 0 {
        lemma_ascending_low(place, n, k - 1);
        assert(place(k - 1) < place(k));
    }
}

proof fn lemma_ascending_high(place: spec_fn(int) -> int, n: int, k: int)
    requires
        0 <= k < n,
        forall|k: int| 0 <= k < n ==> 0 <= #[trigger] place(k) < n,
        forall|k: int| 0 < k < n ==> place(k - 1) < #[trigger] place(k),
    ensures
        place(k) <= k,
    decreases n - k,
{
    if k + 1 < n {
        lemma_ascending_high(place, n, k + 1);
        assert(place(k + 1 - 1) < place(k + 1));
    } else {
        assert(place(k) < n);
    }
}

/// The fragments of a whole tiling are complete and concatenate to the data.
proof fn lemma_tiling_complete(got: Frags, fs: Seq<FrameView>, data: Seq<u8>, m: int)
    requires
        tiles(fs, data, 0),
        got.len() == fs.len(),
        forall|k: int| #![trigger got[k]] 0 <= k < fs.len() ==> got[k] == frag_of(fs[k]),
        0 <= m <= got.len(),
    ensures
        frag_bytes(got.subrange(0, m)) == if m < fs.len() {
            fs[m].frag_offset as nat
        } else {
            data.len()
        },
        frag_concat(got.subrange(0, m)) == data.subrange(
            0,
            frag_bytes(got.subrange(0, m)) as int,
        ),
    decreases m,
{
    if m > 0 {
        lemma_tiling_complete(got, fs, data, m - 1);
        lemma_frag_bytes_prefix(got, m - 1);
        assert(got[m - 1] == frag_of(fs[m - 1]));
        let at = fs[m - 1].frag_offset as int;
        let end = at + fs[m - 1].payload.len();
        assert(tile_at(fs, data, m - 1));
        assert(data.subrange(0, at) + data.subrange(at, end) =~= data.subrange(0, end));
    } else {
        assert(got.subrange(0, 0) =~= Seq::empty());
        assert(data.subrange(0, 0) =~= Seq::<u8>::empty());
        if fs.len() == 0 {
            assert(data.len() == 0);
        }
    }
}

/// A run of reassembly steps: `states[i]` becomes `states[i + 1]` by taking in
/// `frames[i]` at time `times[i]`, with `outcomes[i]`.
pub open spec fn is_run(
    states: Seq<ReasmView>,
    frames: Seq<FrameView>,
    times: Seq<nat>,
    outcomes: Seq<OutcomeView>,
) -> bool {
    &&& states.len() == frames.len() + 1
    &&& times.len() == frames.len()
    &&& outcomes.len() == frames.len()
    &&& forall|i: int|
        #![trigger frames[i]]
        0 <= i < frames.len() ==> accept_step(
            states[i],
            frames[i],
            times[i],
            states[i + 1],
            outcomes[i],
        )
}

proof fn lemma_run_prefix(
    states: Seq<ReasmView>,
    frames: Seq<FrameView>,
    times: Seq<nat>,
    outcomes: Seq<OutcomeView>,
    fs: Seq<FrameView>,
    data: Seq<u8>,
    order: Seq<int>,
    id: u16,
    i: int,
)
    requires
        0 < data.len() <= UDP_QUIC_MAX_DGRAM,
        tiles(fs, data, 0),
        forall|k: int| #![trigger fs[k]] 0 <= k < fs.len() ==> fs[k].dgram_id == id,
        is_pick(order, fs.len()),
        frames.len() == order.len(),
        forall|k: int| #![trigger frames[k]] 0 <= k < frames.len() ==> frames[k] == fs[order[k]],
        is_run(states, frames, times, outcomes),
        !states[0].slots.contains_key(id),
        states[0].max_bytes >= data.len(),
        0 <= i < fs.len(),
        i <= order.len(),
    ensures
        i > 0 ==> {
            &&& states[i].slots.contains_key(id)
            &&& states[i].slots[id].total == data.len()
            &&& holds_first(states[i].slots[id].got, fs, order, i)
            &&& (outcomes[i - 1] is Partial || outcomes[i - 1] is Evicted)
            &&& only_id(states[0].slots, id) ==> outcomes[i - 1] is Partial
        },
        only_id(states[0].slots, id) ==> only_id(states[i].slots, id),
        states[i].max_bytes == states[0].max_bytes,
    decreases i,
{
    if i > 0 {
        lemma_run_prefix(states, frames, times, outcomes, fs, data, order, id, i - 1);
        let f = frames[i - 1];
        let got = slot_for(states[i - 1].slots, f, times[i - 1]).got;
        lemma_step_from(
            states[i - 1],
            f,
            times[i - 1],
            states[i - 1 + 1],
            outcomes[i - 1],
            fs,
            data,
            order,
            id,
            i - 1,
        );
        let got2 = insert_frag(got, f.frag_offset as nat, f.payload);
        if is_complete(got2, data.len()) {
            assert forall|k: int| #![trigger got2[k]] 0 <= k < i implies got2[k] == frag_of(fs[k]) by {
                lemma_gapless_is_prefix(got2, fs, data, order, i, k);
            }
            lemma_gapless_is_prefix(got2, fs, data, order, i, i - 1);
            lemma_frag_bytes_prefix(got2, i - 1);
            assert(got2.subrange(0, i) =~= got2);
            assert(got2[i - 1].0 == frag_bytes(got2.subrange(0, i - 1)));
            assert(tile_at(fs, data, i - 1));
            assert(tile_at(fs, data, i));
            assert(false);
        }
    }
}

/// One step of a run: the frame's fragment is new, fits, and is inserted.
proof fn lemma_step_from(
    pre: ReasmView,
    f: FrameView,
    now: nat,
    post: ReasmView,
    outcome: OutcomeView,
    fs: Seq<FrameView>,
    data: Seq<u8>,
    order: Seq<int>,
    id: u16,
    i: int,
)
    requires
        0 < data.len() <= UDP_QUIC_MAX_DGRAM,
        tiles(fs, data, 0),
        forall|k: int| #![trigger fs[k]] 0 <= k < fs.len() ==> fs[k].dgram_id == id,
        is_pick(order, fs.len()),
        0 <= i < fs.len(),
        i < order.len(),
        f == fs[order[i]],
        accept_step(pre, f, now, post, outcome),
        pre.max_bytes >= data.len(),
        i == 0 ==> !pre.slots.contains_key(id),
        i > 0 ==> pre.slots.contains_key(id) && pre.slots[id].total == data.len()
            && holds_first(pre.slots[id].got, fs, order, i),
    ensures
        ({
            let got2 = insert_frag(
                slot_for(pre.slots, f, now).got,
                f.frag_offset as nat,
                f.payload,
            );
            &&& holds_first(got2, fs, order, i + 1)
            &&& only_id(pre.slots, id) ==> only_id(post.slots, id) && !(outcome is Evicted)
            &&& if is_complete(got2, data.len()) {
                outcome == OutcomeView::Complete(frag_concat(got2)) && !post.slots.contains_key(id)
            } else {
                &&& post.slots.contains_key(id)
                &&& post.slots[id].total == data.len()
                &&& post.slots[id].got == got2
                &&& (outcome is Partial || outcome is Evicted)
            }
        }),
{
    let got = slot_for(pre.slots, f, now).got;
    let off = f.frag_offset as nat;
    assert(0 <= order[i] < fs.len());
    assert(fs[order[i]].dgram_id == id);
    assert(tile_at(fs, data, order[i]));
    assert(frame_in_bounds(f));
    assert(holds_first(got, fs, order, i));
    assert(!has_offset(got, off)) by {
        if has_offset(got, off) {
            let k = choose|k: int| 0 <= k < got.len() && (#[trigger] got[k]).0 == off;
            assert(is_drawn(got, fs, order, i, k));
            let b = choose|b: int| #[trigger] drawn(got, fs, order, i, k, b);
            assert(got[k] == frag_of(fs[order[b]]));
            assert(order[b] != order[i]);
            if order[b] < order[i] {
                lemma_tiles_ascend(fs, data, order[b], order[i]);
                assert(tile_at(fs, data, order[b]));
            } else {
                lemma_tiles_ascend(fs, data, order[i], order[b]);
            }
        }
    }
    lemma_insert_frag_sorted(got, off, f.payload);
    lemma_insert_frag_bytes(got, off, f.payload);
    let got2 = insert_frag(got, off, f.payload);
    assert forall|k: int| 0 <= k < i + 1 implies #[trigger] is_drawn(
        got2,
        fs,
        order,
        i + 1,
        k,
    ) by {
        if got2[k] == (off, f.payload) {
            assert(drawn(got2, fs, order, i + 1, k, i));
        } else {
            let q = choose|q: int| 0 <= q < got.len() && got[q] == got2[k];
            assert(is_drawn(got, fs, order, i, q));
            let j = choose|j: int| #[trigger] drawn(got, fs, order, i, q, j);
            assert(drawn(got2, fs, order, i + 1, k, j));
        }
    }
    lemma_drawn_bytes(got2, fs, data, order, i + 1, i + 1);
    assert(got2.subrange(0, i + 1) =~= got2);
    assert(frag_bytes(got) + f.payload.len() <= pre.max_bytes);
    if only_id(pre.slots, id) && !pre.slots.contains_key(id) {
        assert(pre.slots.dom() =~= Set::<u16>::empty());
    }
    if under_pressure(pre, f.dgram_id) {
        let victim = choose|victim: u16| #[trigger]
            is_oldest(pre.slots, victim) && (post.slots, outcome) == taken_in(
                pre.slots.remove(victim),
                pre.max_bytes,
                f,
                now,
                true,
            );
        assert(slot_for(pre.slots.remove(victim), f, now) == slot_for(pre.slots, f, now));
    }
}

proof fn lemma_concat_len(got: Frags)
    ensures
        frag_concat(got).len() == frag_bytes(got),
    decreases got.len(),
{
    if got.len() > 0 {
        lemma_concat_len(got.drop_last());
    }
}

/// Law: a datagram is delivered whole or not at all. What is delivered has the
/// length that its first frame announced, and nothing of it is kept.
pub proof fn law_delivery_is_whole(
    pre: ReasmView,
    f: FrameView,
    now: nat,
    post: ReasmView,
    data: Seq<u8>,
)
    requires
        accept_step(pre, f, now, post, OutcomeView::Complete(data)),
    ensures
        data.len() == slot_for(pre.slots, f, now).total,
        !post.slots.contains_key(f.dgram_id),
{
    let slots = if under_pressure(pre, f.dgram_id) {
        let victim = choose|victim: u16| #[trigger]
            is_oldest(pre.slots, victim) && (post.slots, OutcomeView::Complete(data)) == taken_in(
                pre.slots.remove(victim),
                pre.max_bytes,
                f,
                now,
                true,
            );
        pre.slots.remove(victim)
    } else {
        pre.slots
    };
    lemma_concat_len(got_with(slot_for(slots, f, now).got, f));
}

/// Law: the frames of a datagram, taken in at any times and in any order by a
/// reassembler that holds nothing under that id, give back the datagram with
/// the last frame and not before, and leave nothing of it behind. Where nothing
/// else is held, nothing has to make room: each frame before the last is taken
/// in and no more, and nothing at all is held afterwards.
pub proof fn law_fragments_reassemble(
    session_id: u32,
    id: u16,
    data: Seq<u8>,
    max_frame: nat,
    order: Seq<int>,
    states: Seq<ReasmView>,
    frames: Seq<FrameView>,
    times: Seq<nat>,
    outcomes: Seq<OutcomeView>,
)
    requires
        can_fragment(data, max_frame),
        data.len() > 0,
        is_order(order, frames_of(session_id, id, data, max_frame).len()),
        frames.len() == order.len(),
        forall|k: int|
            #![trigger frames[k]]
            0 <= k < frames.len() ==> frames[k] == frames_of(session_id, id, data, max_frame)[order[k]],
        is_run(states, frames, times, outcomes),
        !states[0].slots.contains_key(id),
        states[0].max_bytes >= data.len(),
    ensures
        frames.len() > 0,
        outcomes.last() == OutcomeView::Complete(data),
        !states.last().slots.contains_key(id),
        forall|i: int|
            #![trigger outcomes[i]]
            0 <= i < outcomes.len() - 1 ==> outcomes[i] is Partial || outcomes[i] is Evicted,
        states[0].slots == Map::<u16, SlotView>::empty() ==> {
            &&& forall|i: int|
                #![trigger outcomes[i]]
                0 <= i < outcomes.len() - 1 ==> outcomes[i] is Partial
            &&& states.last().slots == Map::<u16, SlotView>::empty()
            &&& held_bytes(states.last().slots) == 0
        },
{
    let fs = frames_of(session_id, id, data, max_frame);
    lemma_frames_tile(session_id, id, data, (max_frame - HDR) as nat, 0);
    let n = fs.len() as int;
    assert(n > 0);
    assert forall|i: int| #![trigger outcomes[i]] 0 <= i < n - 1 implies (outcomes[i] is Partial
        || outcomes[i] is Evicted) && (only_id(states[0].slots, id) ==> outcomes[i] is Partial) by {
        lemma_run_prefix(states, frames, times, outcomes, fs, data, order, id, i + 1);
    }
    lemma_run_prefix(states, frames, times, outcomes, fs, data, order, id, n - 1);
    let f = frames[n - 1];
    lemma_step_from(
        states[n - 1],
        f,
        times[n - 1],
        states[n - 1 + 1],
        outcomes[n - 1],
        fs,
        data,
        order,
        id,
        n - 1,
    );
    let got2 = insert_frag(
        slot_for(states[n - 1].slots, f, times[n - 1]).got,
        f.frag_offset as nat,
        f.payload,
    );
    lemma_all_drawn(got2, fs, data, order);
    assert forall|k: int| #![trigger got2[k]] 0 <= k < got2.len() implies got2[k].0 == frag_bytes(
        got2.subrange(0, k),
    ) by {
        lemma_tiling_complete(got2, fs, data, k);
    }
    lemma_tiling_complete(got2, fs, data, n);
    assert(got2.subrange(0, n) =~= got2);
    assert(data.subrange(0, data.len() as int) =~= data);
    if states[0].slots == Map::<u16, SlotView>::empty() {
        assert(only_id(states[0].slots, id));
        assert(states.last().slots =~= Map::<u16, SlotView>::empty());
        lemma_held_bytes_bound(states.last().slots, 0);
    }
}

/// Law: where a frame of a datagram is left out, whichever it is, the others
/// never give a datagram, in any order and at any times.
pub proof fn law_missing_frame_means_no_delivery(
    session_id: u32,
    id: u16,
    data: Seq<u8>,
    max_frame: nat,
    order: Seq<int>,
    states: Seq<ReasmView>,
    frames: Seq<FrameView>,
    times: Seq<nat>,
    outcomes: Seq<OutcomeView>,
    i: int,
)
    requires
        can_fragment(data, max_frame),
        data.len() > 0,
        is_pick(order, frames_of(session_id, id, data, max_frame).len()),
        order.len() < frames_of(session_id, id, data, max_frame).len(),
        frames.len() == order.len(),
        forall|k: int|
            #![trigger frames[k]]
            0 <= k < frames.len() ==> frames[k] == frames_of(session_id, id, data, max_frame)[order[k]],
        is_run(states, frames, times, outcomes),
        !states[0].slots.contains_key(id),
        states[0].max_bytes >= data.len(),
        0 <= i < outcomes.len(),
    ensures
        !(outcomes[i] is Complete),
{
    let fs = frames_of(session_id, id, data, max_frame);
    lemma_frames_tile(session_id, id, data, (max_frame - HDR) as nat, 0);
    lemma_run_prefix(states, frames, times, outcomes, fs, data, order, id, i + 1);
}

/// Law: the layout of a frame on the wire. Ten bytes of header, high bytes
/// first: the session in four, and the datagram, the offset and the total in
/// two each; then the payload.
pub proof fn law_wire_layout(f: FrameView)
    ensures
        ({
            let b = encoded(f);
            &&& b.len() == 10 + f.payload.len()
            &&& b[0] * 0x1000000 + b[1] * 0x10000 + b[2] * 0x100 + b[3] == f.session_id
            &&& b[4] * 0x100 + b[5] == f.dgram_id
            &&& b[6] * 0x100 + b[7] == f.frag_offset
            &&& b[8] * 0x100 + b[9] == f.total_len
            &&& forall|i: int| 0 <= i < f.payload.len() ==> b[10 + i] == f.payload[i]
        }),
{
}

/// Law: what is cut from a datagram. Every frame names the session, the
/// datagram and the whole length; each but the last is full, the last is not
/// empty, and together they leave no byte out.
pub proof fn law_frames_of_a_datagram(
    session_id: u32,
    dgram_id: u16,
    data: Seq<u8>,
    max_frame: nat,
    i: int,
)
    requires
        can_fragment(data, max_frame),
        0 <= i < frames_of(session_id, dgram_id, data, max_frame).len(),
    ensures
        ({
            let fs = frames_of(session_id, dgram_id, data, max_frame);
            let f = fs[i];
            &&& f.session_id == session_id && f.dgram_id == dgram_id
            &&& f.total_len == data.len()
            &&& i + 1 < fs.len() ==> f.payload.len() == max_frame - HDR
            &&& 0 < f.payload.len() <= max_frame - HDR
            &&& i == 0 ==> f.frag_offset == 0
            &&& i > 0 ==> f.frag_offset == fs[i - 1].frag_offset + fs[i - 1].payload.len()
            &&& i + 1 == fs.len() ==> f.frag_offset + f.payload.len() == data.len()
            &&& f.payload == data.subrange(
                f.frag_offset as int,
                f.frag_offset + f.payload.len(),
            )
        }),
        data.len() > 0,
{
    let chunk = (max_frame - HDR) as nat;
    let fs = frames_of(session_id, dgram_id, data, max_frame);
    lemma_frames_tile(session_id, dgram_id, data, chunk, 0);
    lemma_frames_full(session_id, dgram_id, data, chunk, 0, i);
    assert(tile_at(fs, data, i));
    if i > 0 {
        assert(tile_at(fs, data, i - 1));
    }
}

proof fn lemma_frames_full(
    session_id: u32,
    dgram_id: u16,
    data: Seq<u8>,
    chunk: nat,
    off: nat,
    i: int,
)
    requires
        chunk > 0,
        off <= data.len() <= UDP_QUIC_MAX_DGRAM,
        0 <= i < frames_from(session_id, dgram_id, data, chunk, off).len(),
    ensures
        ({
            let fs = frames_from(session_id, dgram_id, data, chunk, off);
            &&& fs[i].session_id == session_id
            &&& fs[i].payload.len() <= chunk
            &&& i + 1 < fs.len() ==> fs[i].payload.len() == chunk
        }),
    decreases i,
{
    let fs = frames_from(session_id, dgram_id, data, chunk, off);
    let end = min_nat(off + chunk, data.len());
    let tail = frames_from(session_id, dgram_id, data, chunk, end);
    assert(fs.drop_first() =~= tail);
    if i > 0 {
        lemma_frames_full(session_id, dgram_id, data, chunk, end, i - 1);
        assert(fs[i] == tail[i - 1]);
    } else if fs.len() > 1 {
        assert(tail.len() > 0);
    }
}

/// Law: a datagram can be cut exactly if it is within the cap and a frame has
/// room for two bytes of it; an empty one needs no frame, and any other one at
/// least one.
pub proof fn law_what_can_be_cut(
    session_id: u32,
    dgram_id: u16,
    data: Seq<u8>,
    max_frame: nat,
)
    ensures
        can_fragment(data, max_frame) <==> data.len() <= 65507 && max_frame >= 12,
        can_fragment(data, max_frame) ==> (data.len() == 0 <==> frames_of(
            session_id,
            dgram_id,
            data,
            max_frame,
        ).len() == 0),
{
}

/// Law: a frame whose numbers do not fit together is refused and leaves
/// everything as it was: one of no length or over the cap, or one that reaches
/// beyond its own total.
pub proof fn law_misfit_frame_is_refused(
    pre: ReasmView,
    f: FrameView,
    now: nat,
    post: ReasmView,
    outcome: OutcomeView,
)
    requires
        accept_step(pre, f, now, post, outcome),
        f.total_len == 0 || f.total_len > 65507 || f.frag_offset + f.payload.len() > f.total_len,
    ensures
        outcome == OutcomeView::Malformed,
        post == pre,
{
}

/// Law: a frame touches no datagram but its own, as long as there is room.
pub proof fn law_frames_keep_to_their_datagram(
    pre: ReasmView,
    f: FrameView,
    now: nat,
    post: ReasmView,
    outcome: OutcomeView,
    other: u16,
)
    requires
        accept_step(pre, f, now, post, outcome),
        pre.slots.contains_key(f.dgram_id) || pre.slots.len() < pre.max_slots,
        other != f.dgram_id,
    ensures
        post.slots.contains_key(other) <==> pre.slots.contains_key(other),
        pre.slots.contains_key(other) ==> post.slots[other] == pre.slots[other],
        !(outcome is Evicted),
{
}

/// Law: where there is no room for a new datagram, one that has waited longest
/// makes room, and no other one does.
pub proof fn law_oldest_makes_room(
    pre: ReasmView,
    f: FrameView,
    now: nat,
    post: ReasmView,
    outcome: OutcomeView,
) -> (victim: u16)
    requires
        accept_step(pre, f, now, post, outcome),
        frame_in_bounds(f),
        !pre.slots.contains_key(f.dgram_id),
        pre.slots.len() >= pre.max_slots,
        pre.slots.len() > 0,
    ensures
        pre.slots.contains_key(victim),
        !post.slots.contains_key(victim),
        forall|j: u16| #[trigger]
            pre.slots.contains_key(j) ==> pre.slots[victim].first_seen <= pre.slots[j].first_seen,
        forall|j: u16| #[trigger]
            pre.slots.contains_key(j) && j != victim ==> post.slots.contains_key(j)
                && post.slots[j] == pre.slots[j],
        outcome is Evicted || outcome is Complete || outcome is Malformed,
{
    let victim = choose|victim: u16| #[trigger]
        is_oldest(pre.slots, victim) && (post.slots, outcome) == taken_in(
            pre.slots.remove(victim),
            pre.max_bytes,
            f,
            now,
            true,
        );
    victim
}

/// Law: a fragment that is held already is not taken again: as long as the
/// limit allows, its datagram stays as it was.
pub proof fn law_repeat_changes_nothing(
    pre: ReasmView,
    f: FrameView,
    now: nat,
    post: ReasmView,
    outcome: OutcomeView,
    k: int,
)
    requires
        accept_step(pre, f, now, post, outcome),
        frame_in_bounds(f),
        pre.slots.contains_key(f.dgram_id),
        0 <= k < pre.slots[f.dgram_id].got.len(),
        pre.slots[f.dgram_id].got[k].0 == f.frag_offset,
        frag_bytes(pre.slots[f.dgram_id].got) + f.payload.len() <= pre.max_bytes,
        !is_complete(pre.slots[f.dgram_id].got, pre.slots[f.dgram_id].total),
    ensures
        outcome == OutcomeView::Partial,
        post == pre,
{
    assert(has_offset(pre.slots[f.dgram_id].got, f.frag_offset as nat));
    assert(post.slots =~= pre.slots);
}

/// Law: a datagram that would hold more than its limit is given up, with all
/// that was held of it.
pub proof fn law_overfull_datagram_is_given_up(
    pre: ReasmView,
    f: FrameView,
    now: nat,
    post: ReasmView,
    outcome: OutcomeView,
)
    requires
        accept_step(pre, f, now, post, outcome),
        pre.slots.contains_key(f.dgram_id),
        frag_bytes(pre.slots[f.dgram_id].got) + f.payload.len() > pre.max_bytes,
        frame_in_bounds(f),
    ensures
        outcome == OutcomeView::Malformed,
        !post.slots.contains_key(f.dgram_id),
{
}

/// Law: a datagram waits from its first frame on: later frames keep its time
/// and the length its first frame announced.
pub proof fn law_waiting_starts_with_first_frame(
    pre: ReasmView,
    f: FrameView,
    now: nat,
    post: ReasmView,
    outcome: OutcomeView,
)
    requires
        accept_step(pre, f, now, post, outcome),
        frame_in_bounds(f),
        post.slots.contains_key(f.dgram_id),
    ensures
        pre.slots.contains_key(f.dgram_id) ==> post.slots[f.dgram_id].first_seen
            == pre.slots[f.dgram_id].first_seen && post.slots[f.dgram_id].total
            == pre.slots[f.dgram_id].total,
        !pre.slots.contains_key(f.dgram_id) ==> post.slots[f.dgram_id].first_seen == now
            && post.slots[f.dgram_id].total == f.total_len,
        post.slots[f.dgram_id].got.len() > 0,
        has_offset(post.slots[f.dgram_id].got, f.frag_offset as nat),
{
    let slots = if under_pressure(pre, f.dgram_id) {
        let victim = choose|victim: u16| #[trigger]
            is_oldest(pre.slots, victim) && (post.slots, outcome) == taken_in(
                pre.slots.remove(victim),
                pre.max_bytes,
                f,
                now,
                true,
            );
        pre.slots.remove(victim)
    } else {
        pre.slots
    };
    lemma_insert_has(slot_for(slots, f, now).got, f.frag_offset as nat, f.payload);
}

proof fn lemma_insert_has(got: Frags, off: nat, payload: Seq<u8>)
    ensures
        has_offset(insert_frag(got, off, payload), off),
        insert_frag(got, off, payload).len() == got.len() + 1,
    decreases got.len(),
{
    let r = insert_frag(got, off, payload);
    if got.len() == 0 || got.last().0 < off {
        assert(r[got.len() as int].0 == off);
    } else {
        lemma_insert_has(got.drop_last(), off, payload);
        let q = insert_frag(got.drop_last(), off, payload);
        let i = choose|i: int| 0 <= i < q.len() && (#[trigger] q[i]).0 == off;
        assert(r[i].0 == off);
    }
}

} // verus!
