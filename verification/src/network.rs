//! The per-tick loops of the session layer: peer admission, inbound
//! processing, and the outbound heartbeat, together with the heartbeat
//! timer and the rendezvous address of a room.
//!
//! All three loops are pure state transformers: the driver polls the
//! transport, hands the results in as plain values, and sends the frames
//! that come back.  Nothing here blocks.

use vstd::prelude::*;
use vstd::string::StringExecFns;
use crate::codec::{spec_encode, encode, Message, MessageBody, MessageHeader};
use crate::table::{
    initial_negotiation, model_contains, model_record_seen, PeerModel, PeerNegotiation,
    PeerNegotiationTable,
};

verus! {

/// The fixed heartbeat cadence, in milliseconds of the scheduler's
/// elapsed-time source.
pub const HEARTBEAT_INTERVAL_MS: u64 = 1000;

/// The recurring heartbeat timer: it accumulates tick deltas and fires
/// once when the accumulated time reaches the interval, discarding any
/// excess rather than carrying it forward.
pub struct HeartbeatTimer {
    elapsed_ms: u64,
}

impl HeartbeatTimer {
    /// Milliseconds accumulated since the last fire.
    pub closed spec fn elapsed(self) -> u64 {
        self.elapsed_ms
    }

    /// The accumulator never reaches the interval between ticks.
    pub open spec fn wf(self) -> bool {
        self.elapsed() < HEARTBEAT_INTERVAL_MS
    }

    /// A timer that has just fired (or just been created): nothing
    /// accumulated yet.
    pub fn new() -> (t: HeartbeatTimer)
        ensures
            t.wf(),
            t.elapsed() == 0,
    {
        HeartbeatTimer { elapsed_ms: 0 }
    }

    /// Advance the timer by one tick's elapsed time.  Fires exactly when
    /// the accumulated time reaches the interval; on firing the
    /// accumulator resets to zero, so excess time is discarded.
    pub fn tick(&mut self, delta_ms: u64) -> (fired: bool)
        requires
            old(self).wf(),
        ensures
            final(self).wf(),
            fired == (old(self).elapsed() + delta_ms >= HEARTBEAT_INTERVAL_MS),
            fired ==> final(self).elapsed() == 0,
            !fired ==> final(self).elapsed() == old(self).elapsed() + delta_ms,
    {
        if delta_ms >= HEARTBEAT_INTERVAL_MS {
            self.elapsed_ms = 0;
            true
        } else {
            let acc = self.elapsed_ms + delta_ms;
            if acc >= HEARTBEAT_INTERVAL_MS {
                self.elapsed_ms = 0;
                true
            } else {
                self.elapsed_ms = acc;
                false
            }
        }
    }
}

/// The heartbeat message carrying a given sequence number.
pub open spec fn heartbeat_message(seq: u64) -> Message {
    Message { header: MessageHeader { seq }, body: MessageBody::Heartbeat }
}

/// One encoded message addressed to one peer, ready for the transport's
/// unicast send.
pub struct OutboundFrame {
    pub peer: String,
    pub payload: Vec<u8>,
}

/// No outbound counter is about to wrap: a fire advances each one by 1.
pub open spec fn model_can_fire(m: PeerModel) -> bool {
    forall|i: int| 0 <= i < m.len() ==> m[i].1.seq_out < u64::MAX
}

/// What one heartbeat fire does to the model: every row keeps its
/// identifier and `last_seen`, and its outbound counter advances by 1.
pub open spec fn model_after_fire(m: PeerModel) -> PeerModel {
    Seq::new(
        m.len(),
        |i: int|
            (
                m[i].0,
                PeerNegotiation {
                    seq_out: (m[i].1.seq_out + 1) as u64,
                    last_seen: m[i].1.last_seen,
                },
            ),
    )
}

/// The frames of one fire match the model it fired from: one frame per
/// row, addressed to that row's peer, carrying that row's outbound counter.
pub open spec fn frames_of_fire(frames: Seq<OutboundFrame>, m: PeerModel) -> bool {
    &&& frames.len() == m.len()
    &&& forall|i: int|
        0 <= i < m.len() ==> (#[trigger] frames[i]).peer@ == m[i].0 && frames[i].payload@
            == spec_encode(heartbeat_message(m[i].1.seq_out))
}

/// One heartbeat fire: for every row of the table, build a heartbeat
/// message carrying that row's current outbound counter, encode it,
/// address it to that peer, and advance the counter by exactly 1.
pub fn heartbeat_fire(table: &mut PeerNegotiationTable) -> (frames: Vec<OutboundFrame>)
    requires
        old(table).wf(),
        model_can_fire(old(table).model()),
    ensures
        final(table).wf(),
        final(table).model() == model_after_fire(old(table).model()),
        frames_of_fire(frames@, old(table).model()),
{
    let ghost m0 = table.model();
    let mut frames: Vec<OutboundFrame> = Vec::new();
    let n = table.len();
    let mut i: usize = 0;
    while i < n
        invariant
            table.wf(),
            n == m0.len(),
            i <= n,
            table.model().len() == m0.len(),
            model_can_fire(m0),
            forall|k: int| 0 <= k < i ==> table.model()[k] == model_after_fire(m0)[k],
            forall|k: int| i <= k < n ==> table.model()[k] == m0[k],
            frames@.len() == i,
            forall|k: int|
                0 <= k < i ==> (#[trigger] frames@[k]).peer@ == m0[k].0 && frames@[k].payload@
                    == spec_encode(heartbeat_message(m0[k].1.seq_out)),
        decreases n - i,
    {
        let peer = table.peer_id_at(i).clone();
        let neg = table.negotiation_at(i);
        let msg = Message { header: MessageHeader { seq: neg.seq_out }, body: MessageBody::Heartbeat };
        let payload = encode(&msg).unwrap();
        frames.push(OutboundFrame { peer, payload });
        proof {
            assert(table.model()[i as int] == m0[i as int]);
            assert(m0[i as int].1.seq_out < u64::MAX);
        }
        table.increment_seq_out_at(i);
        i += 1;
    }
    proof {
        assert(table.model() =~= model_after_fire(m0));
    }
    frames
}

/// The views of a batch of discovered peer identifiers.
pub open spec fn ids_view(ids: Seq<String>) -> Seq<Seq<char>> {
    ids.map_values(|s: String| s@)
}

/// What enrolling one discovered peer does to the model: nothing when the
/// peer is present, a zero-valued row when it is absent.
pub open spec fn model_enroll(m: PeerModel, id: Seq<char>) -> PeerModel {
    if model_contains(m, id) {
        m
    } else {
        m.push((id, initial_negotiation()))
    }
}

/// What one admission poll does to the model: each discovered identifier
/// is enrolled in turn.
pub open spec fn model_enroll_all(m: PeerModel, ids: Seq<Seq<char>>) -> PeerModel
    decreases ids.len(),
{
    if ids.len() == 0 {
        m
    } else {
        model_enroll_all(model_enroll(m, ids[0]), ids.drop_first())
    }
}

/// The peer admission loop: enroll every peer the transport discovered
/// since the last poll.  A no-op on an empty batch, and idempotent for
/// identifiers that are already present.
pub fn handle_new_peers(table: &mut PeerNegotiationTable, new_peers: &Vec<String>)
    requires
        old(table).wf(),
    ensures
        final(table).wf(),
        final(table).model() == model_enroll_all(old(table).model(), ids_view(new_peers@)),
{
    let ghost m0 = table.model();
    let ghost idsv = ids_view(new_peers@);
    let n = new_peers.len();
    proof {
        assert(idsv.subrange(0, n as int) =~= idsv);
    }
    let mut i: usize = 0;
    while i < n
        invariant
            table.wf(),
            n == new_peers@.len(),
            i <= n,
            idsv == ids_view(new_peers@),
            model_enroll_all(table.model(), idsv.subrange(i as int, n as int))
                == model_enroll_all(m0, idsv),
        decreases n - i,
    {
        let ghost pre = table.model();
        table.enroll(new_peers[i].clone());
        proof {
            assert(table.model() == model_enroll(pre, idsv[i as int]));
            assert(idsv.subrange(i as int, n as int).drop_first() =~= idsv.subrange(
                i as int + 1,
                n as int,
            ));
            assert(idsv.subrange(i as int, n as int)[0] == idsv[i as int]);
        }
        i += 1;
    }
    proof {
        assert(idsv.subrange(n as int, n as int) =~= Seq::<Seq<char>>::empty());
        assert(model_enroll_all(table.model(), idsv.subrange(n as int, n as int))
            == table.model());
    }
}

/// One message as the transport's poll hands it over: the sender and the
/// raw bytes.
pub struct InboundEntry {
    pub peer: String,
    pub payload: Vec<u8>,
}

/// The views of a batch of received entries.
pub open spec fn entries_view(entries: Seq<InboundEntry>) -> Seq<(Seq<char>, Seq<u8>)> {
    entries.map_values(|e: InboundEntry| (e.peer@, e.payload@))
}

/// What one received entry does to the model: a decodable payload
/// overwrites the sender's `last_seen` (lazily creating the row); a
/// malformed one is dropped and the model is unchanged.
pub open spec fn model_receive_one(m: PeerModel, peer: Seq<char>, payload: Seq<u8>) -> PeerModel {
    match crate::codec::spec_decode(payload) {
        Ok(msg) => model_record_seen(m, peer, msg.header.seq),
        Err(_) => m,
    }
}

/// A byte sequence that fails to decode — truncated, tag-unknown or
/// carrying trailing bytes — leaves the table exactly as it was: a
/// malformed entry contributes nothing to the tick's processing.
pub proof fn lemma_malformed_entry_leaves_table_unchanged(
    m: PeerModel,
    peer: Seq<char>,
    payload: Seq<u8>,
)
    requires
        crate::codec::spec_decode(payload) is Err,
    ensures
        model_receive_one(m, peer, payload) == m,
{
}

/// What one inbound poll does to the model: the entries apply in the
/// order the transport returned them, so within a tick the last write to
/// a peer's `last_seen` wins.
pub open spec fn model_receive_all(m: PeerModel, entries: Seq<(Seq<char>, Seq<u8>)>) -> PeerModel
    decreases entries.len(),
{
    if entries.len() == 0 {
        m
    } else {
        model_receive_all(model_receive_one(m, entries[0].0, entries[0].1), entries.drop_first())
    }
}

/// The inbound loop: decode each received entry and record the sequence
/// number it carries against its sender.  A `DecodingError` is fatal only
/// to its own entry — that entry is dropped, the table is left exactly as
/// it was, and processing continues with the remaining entries.
pub fn process_received(table: &mut PeerNegotiationTable, entries: &Vec<InboundEntry>)
    requires
        old(table).wf(),
    ensures
        final(table).wf(),
        final(table).model() == model_receive_all(old(table).model(), entries_view(entries@)),
{
    let ghost m0 = table.model();
    let ghost entsv = entries_view(entries@);
    let n = entries.len();
    proof {
        assert(entsv.subrange(0, n as int) =~= entsv);
    }
    let mut i: usize = 0;
    while i < n
        invariant
            table.wf(),
            n == entries@.len(),
            i <= n,
            entsv == entries_view(entries@),
            model_receive_all(table.model(), entsv.subrange(i as int, n as int))
                == model_receive_all(m0, entsv),
        decreases n - i,
    {
        let ghost pre = table.model();
        match crate::codec::decode(&entries[i].payload) {
            Ok(msg) => {
                table.record_seen(entries[i].peer.clone(), msg.header.seq);
            },
            Err(_) => {},
        }
        proof {
            assert(table.model() == model_receive_one(pre, entsv[i as int].0, entsv[i as int].1));
            assert(entsv.subrange(i as int, n as int).drop_first() =~= entsv.subrange(
                i as int + 1,
                n as int,
            ));
            assert(entsv.subrange(i as int, n as int)[0] == entsv[i as int]);
        }
        i += 1;
    }
    proof {
        assert(entsv.subrange(n as int, n as int) =~= Seq::<(Seq<char>, Seq<u8>)>::empty());
    }
}

/// The outbound heartbeat loop: advance the timer by this tick's elapsed
/// time and, exactly when it fires, send one heartbeat to every known
/// peer and advance each outbound counter by 1.  Between fires the table
/// is untouched and nothing is sent.
pub fn heartbeat(
    timer: &mut HeartbeatTimer,
    delta_ms: u64,
    table: &mut PeerNegotiationTable,
) -> (frames: Vec<OutboundFrame>)
    requires
        old(timer).wf(),
        old(table).wf(),
        model_can_fire(old(table).model()),
    ensures
        final(timer).wf(),
        final(table).wf(),
        (old(timer).elapsed() + delta_ms >= HEARTBEAT_INTERVAL_MS) ==> {
            &&& final(timer).elapsed() == 0
            &&& final(table).model() == model_after_fire(old(table).model())
            &&& frames_of_fire(frames@, old(table).model())
        },
        (old(timer).elapsed() + delta_ms < HEARTBEAT_INTERVAL_MS) ==> {
            &&& final(timer).elapsed() == old(timer).elapsed() + delta_ms
            &&& final(table).model() == old(table).model()
            &&& frames@.len() == 0
        },
{
    let fired = timer.tick(delta_ms);
    if fired {
        heartbeat_fire(table)
    } else {
        Vec::new()
    }
}

/// Enrollment only adds zero-valued rows, so it never brings an outbound
/// counter nearer to wrapping.
pub proof fn lemma_enroll_all_preserves_can_fire(m: PeerModel, ids: Seq<Seq<char>>)
    requires
        model_can_fire(m),
    ensures
        model_can_fire(model_enroll_all(m, ids)),
    decreases ids.len(),
{
    if ids.len() > 0 {
        let m1 = model_enroll(m, ids[0]);
        assert forall|i: int| 0 <= i < m1.len() implies m1[i].1.seq_out < u64::MAX by {
            if i < m.len() {
                assert(m[i].1.seq_out < u64::MAX);
            }
        }
        lemma_enroll_all_preserves_can_fire(m1, ids.drop_first());
    }
}

/// Recording received sequence numbers never changes an outbound counter
/// (new rows start at zero), so it too preserves room to advance.
pub proof fn lemma_receive_all_preserves_can_fire(m: PeerModel, entries: Seq<(Seq<char>, Seq<u8>)>)
    requires
        model_can_fire(m),
    ensures
        model_can_fire(model_receive_all(m, entries)),
    decreases entries.len(),
{
    if entries.len() > 0 {
        let m1 = model_receive_one(m, entries[0].0, entries[0].1);
        assert forall|i: int| 0 <= i < m1.len() implies m1[i].1.seq_out < u64::MAX by {
            if i < m.len() {
                assert(m[i].1.seq_out < u64::MAX);
            }
        }
        lemma_receive_all_preserves_can_fire(m1, entries.drop_first());
    }
}

/// One full scheduler tick while the session is in the lobby: the
/// admission loop, then the inbound loop, then the timer-gated heartbeat,
/// each to completion and in that order.  The returned frames are what the
/// driver hands to the transport's unicast send.
pub fn lobby_tick(
    table: &mut PeerNegotiationTable,
    timer: &mut HeartbeatTimer,
    delta_ms: u64,
    new_peers: &Vec<String>,
    received: &Vec<InboundEntry>,
) -> (frames: Vec<OutboundFrame>)
    requires
        old(table).wf(),
        old(timer).wf(),
        model_can_fire(old(table).model()),
    ensures
        final(table).wf(),
        final(timer).wf(),
        ({
            let mid = model_receive_all(
                model_enroll_all(old(table).model(), ids_view(new_peers@)),
                entries_view(received@),
            );
            &&& (old(timer).elapsed() + delta_ms >= HEARTBEAT_INTERVAL_MS) ==> {
                &&& final(timer).elapsed() == 0
                &&& final(table).model() == model_after_fire(mid)
                &&& frames_of_fire(frames@, mid)
            }
            &&& (old(timer).elapsed() + delta_ms < HEARTBEAT_INTERVAL_MS) ==> {
                &&& final(timer).elapsed() == old(timer).elapsed() + delta_ms
                &&& final(table).model() == mid
                &&& frames@.len() == 0
            }
        }),
{
    proof {
        lemma_enroll_all_preserves_can_fire(table.model(), ids_view(new_peers@));
        lemma_receive_all_preserves_can_fire(
            model_enroll_all(table.model(), ids_view(new_peers@)),
            entries_view(received@),
        );
    }
    handle_new_peers(table, new_peers);
    process_received(table, received);
    heartbeat(timer, delta_ms, table)
}

/// Enrollment leaves existing rows exactly where they were, appends only
/// zero-valued rows, and makes a peer known exactly when it was known
/// before or is in the enrolled batch.
pub proof fn lemma_enroll_all_frame(m: PeerModel, ids: Seq<Seq<char>>)
    ensures
        model_enroll_all(m, ids).len() >= m.len(),
        forall|k: int| 0 <= k < m.len() ==> model_enroll_all(m, ids)[k] == m[k],
        forall|k: int|
            m.len() <= k < model_enroll_all(m, ids).len() ==> (#[trigger] model_enroll_all(
                m,
                ids,
            )[k]).1 == initial_negotiation(),
        forall|id: Seq<char>|
            model_contains(model_enroll_all(m, ids), id) <==> (model_contains(m, id)
                || ids.contains(id)),
    decreases ids.len(),
{
    if ids.len() == 0 {
        assert forall|id: Seq<char>| ids.contains(id) implies false by {}
    } else {
        let m1 = model_enroll(m, ids[0]);
        lemma_enroll_all_frame(m1, ids.drop_first());
        let a = model_enroll_all(m, ids);
        assert(a == model_enroll_all(m1, ids.drop_first()));
        assert forall|k: int| 0 <= k < m.len() implies a[k] == m[k] by {
            assert(a[k] == m1[k]);
        }
        assert forall|k: int| m.len() <= k < a.len() implies (#[trigger] a[k]).1
            == initial_negotiation() by {
            if k < m1.len() {
                assert(a[k] == m1[k]);
            }
        }
        assert forall|id: Seq<char>|
            model_contains(m1, id) <==> (model_contains(m, id) || id == ids[0]) by {
            if model_contains(m1, id) && !model_contains(m, id) {
                let i = choose|i: int| 0 <= i < m1.len() && m1[i].0 == id;
                if i < m.len() {
                    assert(m[i].0 == id);
                } else {
                    assert(id == ids[0]);
                }
            }
            if model_contains(m, id) {
                let i = choose|i: int| 0 <= i < m.len() && m[i].0 == id;
                assert(m1[i].0 == id);
            }
            if id == ids[0] && !model_contains(m, id) {
                assert(m1[m.len() as int].0 == id);
            }
        }
        assert forall|id: Seq<char>|
            ids.contains(id) <==> (id == ids[0] || ids.drop_first().contains(id)) by {
            if ids.contains(id) {
                let i = choose|i: int| 0 <= i < ids.len() && ids[i] == id;
                if i > 0 {
                    assert(ids.drop_first()[i - 1] == id);
                }
            }
            if ids.drop_first().contains(id) {
                let i = choose|i: int| 0 <= i < ids.drop_first().len() && ids.drop_first()[i] == id;
                assert(ids[i + 1] == id);
            }
        }
    }
}

/// Peers known only via admission start from the initial state: enrolling
/// a previously-unknown peer, in whatever batch and alongside whomever
/// else, leaves it recorded with `seq_out == 0` and `last_seen == 0`.
pub proof fn lemma_admission_gives_initial_state(m: PeerModel, ids: Seq<Seq<char>>, id: Seq<char>)
    requires
        !model_contains(m, id),
        ids.contains(id),
    ensures
        model_contains(model_enroll_all(m, ids), id),
        crate::table::model_negotiation(model_enroll_all(m, ids), id) == initial_negotiation(),
{
    lemma_enroll_all_frame(m, ids);
    let a = model_enroll_all(m, ids);
    assert(model_contains(a, id));
    let j = crate::table::model_index_of(a, id);
    assert(0 <= j < a.len() && a[j].0 == id);
    if j < m.len() {
        assert(a[j] == m[j]);
        assert(model_contains(m, id));
    }
    assert(a[j].1 == initial_negotiation());
}

/// The model after `n` successive heartbeat fires.
pub open spec fn model_after_fires(m: PeerModel, n: nat) -> PeerModel
    decreases n,
{
    if n == 0 {
        m
    } else {
        model_after_fire(model_after_fires(m, (n - 1) as nat))
    }
}

/// After `n` heartbeat fires with a peer present throughout, its row keeps
/// its identifier and `last_seen` and its outbound counter has advanced by
/// exactly `n`.  Since each fire's frames carry the counters of the model
/// it fired from (`frames_of_fire`), the `n` heartbeats built for a row
/// that started at `s` carried sequence numbers `s`, `s + 1`, ...,
/// `s + n - 1`, in order.
pub proof fn lemma_repeated_fires(m: PeerModel, n: nat)
    requires
        forall|i: int| 0 <= i < m.len() ==> m[i].1.seq_out + n <= u64::MAX,
    ensures
        model_after_fires(m, n).len() == m.len(),
        forall|i: int|
            0 <= i < m.len() ==> (#[trigger] model_after_fires(m, n)[i]).0 == m[i].0
                && model_after_fires(m, n)[i].1.seq_out == m[i].1.seq_out + n
                && model_after_fires(m, n)[i].1.last_seen == m[i].1.last_seen,
    decreases n,
{
    if n > 0 {
        lemma_repeated_fires(m, (n - 1) as nat);
    }
}

/// What an encoded rendezvous component reads as: the result of
/// percent-encoding a room name, a function of the name alone.
pub uninterp spec fn url_encoded(s: Seq<char>) -> Seq<char>;

/// Relies on `urlencoding::encode`: percent-encodes every byte except
/// ASCII alphanumerics and `-`, `_`, `.`, `~`.  The result depends on the
/// input characters alone, and an empty input stays empty.
#[verifier::external_body]
fn encode_component(s: &str) -> (r: String)
    ensures
        r@ == url_encoded(s@),
        s@.len() == 0 ==> r@.len() == 0,
{
    urlencoding::encode(s).into_owned()
}

/// The rendezvous address for a room: the signalling server's base
/// address with the percent-encoded room name appended, so that any
/// user-supplied room name is safe inside the URL.
pub fn room_url(room: &str) -> (r: String)
    ensures
        r@ == "ws://127.0.0.1:3536/"@ + url_encoded(room@),
{
    let mut url: String = "ws://127.0.0.1:3536/".to_owned();
    let encoded = encode_component(room);
    url.append(encoded.as_str());
    url
}

/// Transport setup failed.  Establishment itself performs network I/O and
/// runs in the driver outside this library; the driver surfaces this error
/// to the presenter, which may re-invoke establishment — there is no
/// automatic retry.
#[derive(Clone, Copy, Debug, PartialEq, Eq, Structural)]
pub struct ConnectionEstablishError;

} // verus!
