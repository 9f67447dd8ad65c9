//! Peer negotiation table: the per-session mapping from peer identifier to
//! per-peer protocol state.
//!
//! Entries are created lazily on first contact — via admission or via the
//! first received message — with a zero-valued default, and live for the
//! rest of the session.  The table's mathematical model is the sequence of
//! its `(identifier, state)` pairs; well-formedness says the identifiers
//! are pairwise distinct, so the state of a peer is determined by its
//! identifier.

use vstd::prelude::*;

verus! {

/// Per-peer protocol state: the outbound sequence counter and the sequence
/// number carried by the most recently decoded message from that peer.
/// `last_seen` is overwritten, not merged: a later message with a lower
/// number replaces a higher one.
#[derive(Clone, Copy, Debug, PartialEq, Eq, Structural)]
pub struct PeerNegotiation {
    pub seq_out: u64,
    pub last_seen: u64,
}

/// The state every peer starts from: both counters at zero.
pub open spec fn initial_negotiation() -> PeerNegotiation {
    PeerNegotiation { seq_out: 0, last_seen: 0 }
}

impl Default for PeerNegotiation {
    /// Both counters start at zero.
    fn default() -> (r: Self)
        ensures
            r == initial_negotiation(),
    {
        PeerNegotiation { seq_out: 0, last_seen: 0 }
    }
}

/// One row of the table: a peer identifier and its negotiation state.
pub struct PeerRecord {
    pub id: String,
    pub negotiation: PeerNegotiation,
}

impl PeerRecord {
    /// The mathematical content of a row.
    pub open spec fn model(self) -> (Seq<char>, PeerNegotiation) {
        (self.id@, self.negotiation)
    }
}

/// The mathematical model of a table: its rows, in insertion order.
pub type PeerModel = Seq<(Seq<char>, PeerNegotiation)>;

/// Whether some row of `m` carries the identifier `id`.
pub open spec fn model_contains(m: PeerModel, id: Seq<char>) -> bool {
    exists|i: int| 0 <= i < m.len() && m[i].0 == id
}

/// The index of the row carrying `id` (meaningful when `model_contains`
/// holds; unique when `model_wf` holds).
pub open spec fn model_index_of(m: PeerModel, id: Seq<char>) -> int {
    choose|i: int| 0 <= i < m.len() && m[i].0 == id
}

/// The negotiation state recorded for `id`.
pub open spec fn model_negotiation(m: PeerModel, id: Seq<char>) -> PeerNegotiation {
    m[model_index_of(m, id)].1
}

/// Well-formedness: every peer has at most one row.
pub open spec fn model_wf(m: PeerModel) -> bool {
    forall|i: int, j: int| 0 <= i < j < m.len() ==> m[i].0 != m[j].0
}

/// What recording a received sequence number does to the model: an existing
/// row keeps its outbound counter and has `last_seen` overwritten; an absent
/// peer gets a fresh row whose `last_seen` is the received number.
pub open spec fn model_record_seen(m: PeerModel, id: Seq<char>, seq: u64) -> PeerModel {
    if model_contains(m, id) {
        let i = model_index_of(m, id);
        m.update(i, (id, PeerNegotiation { seq_out: m[i].1.seq_out, last_seen: seq }))
    } else {
        m.push((id, PeerNegotiation { seq_out: 0, last_seen: seq }))
    }
}

/// The mapping from peer identifier to negotiation state.
pub struct PeerNegotiationTable {
    records: Vec<PeerRecord>,
}

impl PeerNegotiationTable {
    /// The rows of the table, in insertion order.
    pub closed spec fn model(self) -> PeerModel {
        self.records@.map_values(|r: PeerRecord| r.model())
    }

    /// Identifiers are pairwise distinct.
    pub open spec fn wf(self) -> bool {
        model_wf(self.model())
    }

    /// Whether the table has a row for `id`.
    pub open spec fn contains_peer(self, id: Seq<char>) -> bool {
        model_contains(self.model(), id)
    }

    /// The negotiation state recorded for `id`.
    pub open spec fn negotiation_of(self, id: Seq<char>) -> PeerNegotiation {
        model_negotiation(self.model(), id)
    }

    /// An empty table.
    pub fn new() -> (t: PeerNegotiationTable)
        ensures
            t.wf(),
            t.model() == Seq::<(Seq<char>, PeerNegotiation)>::empty(),
    {
        let t = PeerNegotiationTable { records: Vec::new() };
        proof {
            assert(t.model() =~= Seq::<(Seq<char>, PeerNegotiation)>::empty());
        }
        t
    }

    /// The index of the row carrying `id`, if any.
    fn find(&self, id: &String) -> (r: Option<usize>)
        ensures
            match r {
                Some(i) => i < self.model().len() && self.model()[i as int].0 == id@,
                None => !self.contains_peer(id@),
            },
    {
        let n = self.records.len();
        let mut i: usize = 0;
        while i < n
            invariant
                n == self.records@.len(),
                i <= n,
                forall|k: int| 0 <= k < i ==> self.model()[k].0 != id@,
            decreases n - i,
        {
            if self.records[i].id == *id {
                return Some(i);
            }
            i += 1;
        }
        None
    }

    /// Number of known peers.
    pub fn len(&self) -> (n: usize)
        ensures
            n == self.model().len(),
    {
        self.records.len()
    }

    /// The identifier of the row at `i`, for read-only display.
    pub fn peer_id_at(&self, i: usize) -> (r: &String)
        requires
            i < self.model().len(),
        ensures
            r@ == self.model()[i as int].0,
    {
        &self.records[i].id
    }

    /// The negotiation state of the row at `i`, for read-only display.
    pub fn negotiation_at(&self, i: usize) -> (r: PeerNegotiation)
        requires
            i < self.model().len(),
        ensures
            r == self.model()[i as int].1,
    {
        self.records[i].negotiation
    }

    /// The negotiation state recorded for `id`, if the peer is known.
    pub fn get(&self, id: &String) -> (r: Option<PeerNegotiation>)
        requires
            self.wf(),
        ensures
            r is Some <==> self.contains_peer(id@),
            r is Some ==> r->Some_0 == self.negotiation_of(id@),
    {
        match self.find(id) {
            Some(i) => {
                proof {
                    lemma_wf_index_unique(self.model(), id@, i as int);
                }
                Some(self.records[i].negotiation)
            },
            None => None,
        }
    }

    /// Enroll a peer discovered by the transport: insert a zero-valued row
    /// if the peer is absent.  Enrolling an already-present identifier is a
    /// no-op — the model before and after is identical, so counters are
    /// never reset by repeated admission.
    pub fn enroll(&mut self, id: String)
        requires
            old(self).wf(),
        ensures
            final(self).wf(),
            old(self).contains_peer(id@) ==> final(self).model() == old(self).model(),
            !old(self).contains_peer(id@) ==> final(self).model() == old(self).model().push(
                (id@, initial_negotiation()),
            ),
            final(self).contains_peer(id@),
    {
        let ghost m0 = self.model();
        let ghost idv = id@;
        match self.find(&id) {
            Some(_) => {},
            None => {
                self.records.push(
                    PeerRecord { id, negotiation: PeerNegotiation { seq_out: 0, last_seen: 0 } },
                );
                proof {
                    assert(self.model() =~= m0.push((idv, initial_negotiation())));
                    assert forall|i: int, j: int| 0 <= i < j < self.model().len() implies self
                        .model()[i].0 != self.model()[j].0 by {
                        if j == m0.len() {
                            assert(!model_contains(m0, idv));
                            assert(self.model()[i] == m0[i]);
                        }
                    }
                    assert(self.model()[m0.len() as int].0 == idv);
                }
            },
        }
    }

    /// Record the sequence number of a decoded message from `id`: overwrite
    /// `last_seen` on the existing row, or lazily create a zero-valued row
    /// first (same default as admission) when the sender is unknown.
    pub fn record_seen(&mut self, id: String, seq: u64)
        requires
            old(self).wf(),
        ensures
            final(self).wf(),
            final(self).model() == model_record_seen(old(self).model(), id@, seq),
    {
        let ghost m0 = self.model();
        let ghost idv = id@;
        match self.find(&id) {
            Some(i) => {
                proof {
                    lemma_wf_index_unique(m0, idv, i as int);
                }
                self.records[i].negotiation.last_seen = seq;
                proof {
                    assert(self.model() =~= model_record_seen(m0, idv, seq));
                    assert forall|p: int, q: int| 0 <= p < q < self.model().len() implies self
                        .model()[p].0 != self.model()[q].0 by {
                        assert(self.model()[p].0 == m0[p].0 && self.model()[q].0 == m0[q].0);
                    }
                }
            },
            None => {
                self.records.push(
                    PeerRecord { id, negotiation: PeerNegotiation { seq_out: 0, last_seen: seq } },
                );
                proof {
                    assert(self.model() =~= model_record_seen(m0, idv, seq));
                    assert forall|p: int, q: int| 0 <= p < q < self.model().len() implies self
                        .model()[p].0 != self.model()[q].0 by {
                        if q == m0.len() {
                            assert(!model_contains(m0, idv));
                            assert(self.model()[p] == m0[p]);
                        }
                    }
                }
            },
        }
    }

    /// Advance the outbound counter of the row at `i` by exactly one, as
    /// the heartbeat loop does after building a message from it.
    pub fn increment_seq_out_at(&mut self, i: usize)
        requires
            old(self).wf(),
            i < old(self).model().len(),
            old(self).model()[i as int].1.seq_out < u64::MAX,
        ensures
            final(self).wf(),
            final(self).model() == old(self).model().update(
                i as int,
                (
                    old(self).model()[i as int].0,
                    PeerNegotiation {
                        seq_out: (old(self).model()[i as int].1.seq_out + 1) as u64,
                        last_seen: old(self).model()[i as int].1.last_seen,
                    },
                ),
            ),
    {
        let ghost m0 = self.model();
        let cur = self.records[i].negotiation.seq_out;
        self.records[i].negotiation.seq_out = cur + 1;
        proof {
            let m1 = m0.update(
                i as int,
                (
                    m0[i as int].0,
                    PeerNegotiation {
                        seq_out: (m0[i as int].1.seq_out + 1) as u64,
                        last_seen: m0[i as int].1.last_seen,
                    },
                ),
            );
            assert(self.model() =~= m1);
            assert forall|p: int, q: int| 0 <= p < q < self.model().len() implies self.model()[p].0
                != self.model()[q].0 by {
                assert(self.model()[p].0 == m0[p].0 && self.model()[q].0 == m0[q].0);
            }
        }
    }
}

/// In a well-formed model, any index whose row carries `id` is the index
/// that `model_index_of` denotes.
pub proof fn lemma_wf_index_unique(m: PeerModel, id: Seq<char>, i: int)
    requires
        model_wf(m),
        0 <= i < m.len(),
        m[i].0 == id,
    ensures
        model_contains(m, id),
        model_index_of(m, id) == i,
{
    assert(model_contains(m, id));
    let j = model_index_of(m, id);
    assert(0 <= j < m.len() && m[j].0 == id);
    if i < j {
        assert(m[i].0 != m[j].0);
    } else if j < i {
        assert(m[j].0 != m[i].0);
    }
}

} // verus!
