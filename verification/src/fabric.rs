//! Per-stream data-channel fabric.
//!
//! Every peer that opens a data channel on a stream gets a slot: a bounded
//! per-peer mailbox. A broadcast frame goes to every slot except the
//! sender's own (self-message suppression by the sender id in the frame
//! prefix); a unicast frame goes to the destination's slot when it exists
//! and is silently dropped otherwise. Mailboxes are lossy: a full mailbox
//! drops its oldest frame to admit a new one, and one slot's overflow
//! never affects another slot.

use vstd::prelude::*;
use crate::frame::{
    frame_from, frame_to, notice_frame, spec_header, u32_le, lemma_u32_le_round_trip, FrameType,
    HEADER_LEN,
};

verus! {

/// Mailbox capacity a publishing peer's slot is created with.
pub const PUBLISHER_SLOT_CAPACITY: usize = 128;

/// Mailbox capacity a subscribing peer's slot is created with.
pub const SUBSCRIBER_SLOT_CAPACITY: usize = 32;

/// One peer's slot: its id and its bounded mailbox.
pub struct PeerSlot {
    pub id: u32,
    pub capacity: usize,
    pub mailbox: Vec<Vec<u8>>,
}

/// A bounded lossy delivery: a full mailbox loses its oldest frame.
pub open spec fn deliver_spec(mb: Seq<Seq<u8>>, cap: int, f: Seq<u8>) -> Seq<Seq<u8>> {
    if mb.len() < cap {
        mb.push(f)
    } else {
        mb.skip(1).push(f)
    }
}

/// A full mailbox observes loss of exactly its oldest frame while a
/// mailbox with room observes none; both receive the new frame last.
pub proof fn lemma_overflow_isolation(mb: Seq<Seq<u8>>, cap: int, f: Seq<u8>)
    requires
        cap >= 1,
        mb.len() <= cap,
    ensures
        deliver_spec(mb, cap, f).len() <= cap,
        deliver_spec(mb, cap, f).last() == f,
        mb.len() < cap ==> deliver_spec(mb, cap, f) == mb.push(f),
        mb.len() == cap ==> deliver_spec(mb, cap, f) == mb.skip(1).push(f),
{
}

impl PeerSlot {
    /// The frames the slot holds, oldest first.
    pub open spec fn inbox(self) -> Seq<Seq<u8>> {
        self.mailbox.deep_view()
    }

    /// A slot is well formed when its capacity is positive and its
    /// mailbox is within it.
    pub open spec fn wf(self) -> bool {
        self.capacity >= 1 && self.mailbox.len() <= self.capacity
    }

    /// Admit one frame, dropping the oldest when full.
    pub fn deliver(&mut self, f: Vec<u8>)
        requires
            old(self).wf(),
        ensures
            final(self).wf(),
            final(self).id == old(self).id,
            final(self).capacity == old(self).capacity,
            final(self).inbox() == deliver_spec(old(self).inbox(), old(self).capacity as int, f@),
    {
        if self.mailbox.len() >= self.capacity {
            let ghost pre = self.mailbox.deep_view();
            self.mailbox.remove(0);
            assert(self.mailbox.deep_view() =~= pre.skip(1));
        }
        let ghost mid = self.mailbox.deep_view();
        assert(f.deep_view() =~= f@);
        self.mailbox.push(f);
        assert(self.mailbox.deep_view() =~= mid.push(f@));
    }
}

/// The data-channel fabric of one stream: every open peer slot.
pub struct Fabric {
    pub peers: Vec<PeerSlot>,
}

impl Fabric {
    /// All slots well formed, ids pairwise distinct.
    pub open spec fn wf(self) -> bool {
        &&& forall|i: int| 0 <= i < self.peers.len() ==> (#[trigger] self.peers[i]).wf()
        &&& forall|i: int, j: int|
            0 <= i < j < self.peers.len() ==> self.peers[i].id != self.peers[j].id
    }

    /// Whether a slot for `id` exists.
    pub open spec fn has_peer(self, id: u32) -> bool {
        exists|i: int| 0 <= i < self.peers.len() && (#[trigger] self.peers[i]).id == id
    }

    /// A fabric with no slots.
    pub fn new() -> (r: Fabric)
        ensures
            r.wf(),
            r.peers@.len() == 0,
    {
        Fabric { peers: Vec::new() }
    }

    /// Index of the slot for `id`, if one exists.
    fn find_peer(&self, id: u32) -> (r: Option<usize>)
        ensures
            match r {
                Some(i) => i < self.peers.len() && self.peers[i as int].id == id,
                None => !self.has_peer(id),
            },
    {
        let n = self.peers.len();
        let mut i: usize = 0;
        while i < n
            invariant
                i <= n,
                n == self.peers.len(),
                forall|j: int| 0 <= j < i ==> (#[trigger] self.peers@[j]).id != id,
            decreases n - i,
        {
            if self.peers[i].id == id {
                return Some(i);
            }
            i = i + 1;
        }
        None
    }

    /// Open (or reset) the slot for `id` with the given mailbox capacity.
    pub fn add_peer(&mut self, id: u32, capacity: usize)
        requires
            old(self).wf(),
            capacity >= 1,
        ensures
            final(self).wf(),
            final(self).has_peer(id),
            // every other slot is untouched
            final(self).peers.len() >= old(self).peers.len(),
            forall|i: int|
                0 <= i < final(self).peers.len() && (#[trigger] final(self).peers[i]).id != id
                    ==> 0 <= i < old(self).peers.len() && final(self).peers[i] == old(self).peers[i],
            // the slot for id is empty with the requested capacity
            forall|i: int|
                0 <= i < final(self).peers.len() && (#[trigger] final(self).peers[i]).id == id ==> {
                    &&& final(self).peers[i].capacity == capacity
                    &&& final(self).peers[i].inbox() == Seq::<Seq<u8>>::empty()
                },
    {
        let fresh = PeerSlot { id, capacity, mailbox: Vec::new() };
        assert(fresh.inbox() =~= Seq::<Seq<u8>>::empty());
        match self.find_peer(id) {
            Some(i) => {
                self.peers.remove(i);
                self.peers.insert(i, fresh);
                assert(self.peers@ =~= old(self).peers@.update(i as int, fresh));
                assert(self.peers@[i as int].id == id);
                assert(self.has_peer(id));
            },
            None => {
                self.peers.push(fresh);
                assert(self.peers@[self.peers@.len() - 1].id == id);
                assert(self.has_peer(id));
            },
        }
    }

    /// Drop the slot for `id`, if present.
    pub fn remove_peer(&mut self, id: u32)
        requires
            old(self).wf(),
        ensures
            final(self).wf(),
            !final(self).has_peer(id),
            // the surviving slots are exactly the others, in order
            old(self).has_peer(id) ==> exists|i: int|
                0 <= i < old(self).peers.len() && old(self).peers[i].id == id && final(self).peers@
                    =~= old(self).peers@.remove(i),
            !old(self).has_peer(id) ==> final(self).peers == old(self).peers,
    {
        match self.find_peer(id) {
            Some(i) => {
                self.peers.remove(i);
                proof {
                    let oi = i as int;
                    assert(forall|j: int|
                        0 <= j < self.peers.len() ==> self.peers[j] == if j < oi {
                            old(self).peers[j]
                        } else {
                            old(self).peers[j + 1]
                        });
                    assert forall|j: int|
                        0 <= j < self.peers.len() implies (#[trigger] self.peers[j]).id != id by {
                        if j < oi {
                            assert(old(self).peers[j].id != old(self).peers[oi].id);
                        } else {
                            assert(old(self).peers[oi].id != old(self).peers[j + 1].id);
                        }
                    };
                }
            },
            None => {},
        }
    }

    /// Publish a frame on the stream's group bus: every slot other than
    /// the sender's own admits it (self-message suppression), and no slot
    /// ever admits a frame carrying its own id as sender.
    pub fn group_send(&mut self, f: Vec<u8>)
        requires
            old(self).wf(),
            f@.len() >= HEADER_LEN,
        ensures
            final(self).wf(),
            final(self).peers.len() == old(self).peers.len(),
            forall|i: int|
                0 <= i < final(self).peers.len() ==> {
                    &&& (#[trigger] final(self).peers[i]).id == old(self).peers[i].id
                    &&& final(self).peers[i].capacity == old(self).peers[i].capacity
                    &&& final(self).peers[i].inbox() == if old(self).peers[i].id != frame_from(f@) {
                        deliver_spec(
                            old(self).peers[i].inbox(),
                            old(self).peers[i].capacity as int,
                            f@,
                        )
                    } else {
                        old(self).peers[i].inbox()
                    }
                },
    {
        let from = crate::frame::read_frame_from(&f);
        let n = self.peers.len();
        let mut i: usize = 0;
        while i < n
            invariant
                self.wf(),
                i <= n,
                n == self.peers.len(),
                n == old(self).peers.len(),
                from == frame_from(f@),
                f@.len() >= HEADER_LEN,
                forall|j: int|
                    i <= j < n ==> #[trigger] self.peers[j] == old(self).peers[j],
                forall|j: int|
                    0 <= j < i ==> {
                        &&& (#[trigger] self.peers[j]).id == old(self).peers[j].id
                        &&& self.peers[j].capacity == old(self).peers[j].capacity
                        &&& self.peers[j].inbox() == if old(self).peers[j].id != frame_from(f@) {
                            deliver_spec(
                                old(self).peers[j].inbox(),
                                old(self).peers[j].capacity as int,
                                f@,
                            )
                        } else {
                            old(self).peers[j].inbox()
                        }
                    },
            decreases n - i,
        {
            if self.peers[i].id != from {
                let ghost pre = self.peers@;
                let copy = clone_frame(&f);
                let mut slot = self.peers.remove(i);
                slot.deliver(copy);
                self.peers.insert(i, slot);
                assert(self.peers@ =~= pre.update(i as int, self.peers@[i as int]));
            }
            i = i + 1;
        }
    }

    /// Deliver a unicast frame to the destination named in its prefix:
    /// into that slot when it exists, silently dropped otherwise.
    pub fn unicast_send(&mut self, f: Vec<u8>)
        requires
            old(self).wf(),
            f@.len() >= HEADER_LEN,
        ensures
            final(self).wf(),
            final(self).peers.len() == old(self).peers.len(),
            forall|i: int|
                0 <= i < final(self).peers.len() ==> {
                    &&& (#[trigger] final(self).peers[i]).id == old(self).peers[i].id
                    &&& final(self).peers[i].capacity == old(self).peers[i].capacity
                    &&& final(self).peers[i].inbox() == if old(self).peers[i].id == frame_to(f@) {
                        deliver_spec(
                            old(self).peers[i].inbox(),
                            old(self).peers[i].capacity as int,
                            f@,
                        )
                    } else {
                        old(self).peers[i].inbox()
                    }
                },
    {
        let to = crate::frame::read_frame_to(&f);
        match self.find_peer(to) {
            Some(i) => {
                let mut slot = self.peers.remove(i);
                slot.deliver(f);
                self.peers.insert(i, slot);
                proof {
                    let oi = i as int;
                    assert(self.peers@ =~= old(self).peers@.update(oi, self.peers@[oi]));
                    assert forall|j: int|
                        0 <= j < old(self).peers.len() && j != oi implies (#[trigger] old(self).peers[j]).id != to by {
                        if j < oi {
                            assert(old(self).peers[j].id != old(self).peers[oi].id);
                        } else {
                            assert(old(self).peers[oi].id != old(self).peers[j].id);
                        }
                    };
                }
            },
            None => {},
        }
    }

    /// A peer's read loop handed the fabric one wire message: the first
    /// four bytes name the destination. The fabric stamps the full frame
    /// prefix with the reader as sender and routes it: destination equal
    /// to the reader means broadcast onto the group bus, anything else is
    /// a unicast to that slot.
    pub fn handle_peer_message(&mut self, reader: u32, msg: Vec<u8>) -> (broadcast_frame: bool)
        requires
            old(self).wf(),
            msg@.len() >= 4,
            msg@.len() + 5 <= usize::MAX,
        ensures
            final(self).wf(),
            ({
                let f = seq![0u8] + u32_le(reader) + msg@;
                let to = crate::frame::u32_from_le(msg@.subrange(0, 4));
                &&& frame_from(f) == reader
                &&& frame_to(f) == to
                &&& broadcast_frame == (to == reader)
                &&& final(self).peers.len() == old(self).peers.len()
                &&& forall|i: int|
                    0 <= i < final(self).peers.len() ==> {
                        &&& (#[trigger] final(self).peers[i]).id == old(self).peers[i].id
                        &&& final(self).peers[i].capacity == old(self).peers[i].capacity
                        &&& final(self).peers[i].inbox() == if (broadcast_frame && old(self).peers[i].id != reader) || (!broadcast_frame && old(self).peers[i].id
                            == to) {
                            deliver_spec(
                                old(self).peers[i].inbox(),
                                old(self).peers[i].capacity as int,
                                f,
                            )
                        } else {
                            old(self).peers[i].inbox()
                        }
                    }
            }),
    {
        let mut frame: Vec<u8> = Vec::new();
        frame.push(0u8);
        crate::frame::push_u32_le(&mut frame, reader);
        let mut k: usize = 0;
        let m = msg.len();
        while k < m
            invariant
                k <= m,
                m == msg@.len(),
                frame@ == seq![0u8] + u32_le(reader) + msg@.subrange(0, k as int),
            decreases m - k,
        {
            frame.push(msg[k]);
            k = k + 1;
            assert(frame@ =~= seq![0u8] + u32_le(reader) + msg@.subrange(0, k as int));
        }
        assert(msg@.subrange(0, m as int) =~= msg@);
        let ghost fview = seq![0u8] + u32_le(reader) + msg@;
        proof {
            assert(fview.subrange(1, 5) =~= u32_le(reader));
            lemma_u32_le_round_trip(reader);
            assert(fview.subrange(5, 9) =~= msg@.subrange(0, 4));
        }
        let to = crate::frame::read_frame_to(&frame);
        if to == reader {
            self.group_send(frame);
            true
        } else {
            self.unicast_send(frame);
            false
        }
    }

    /// Synthesize and broadcast the open or close notice for a peer: a
    /// nine-byte frame whose sender and destination are both the peer.
    pub fn announce(&mut self, id: u32, open: bool)
        requires
            old(self).wf(),
        ensures
            final(self).wf(),
            ({
                let f = spec_header(
                    if open {
                        FrameType::Open
                    } else {
                        FrameType::Close
                    },
                    id,
                    id,
                );
                &&& final(self).peers.len() == old(self).peers.len()
                &&& forall|i: int|
                    0 <= i < final(self).peers.len() ==> {
                        &&& (#[trigger] final(self).peers[i]).id == old(self).peers[i].id
                        &&& final(self).peers[i].capacity == old(self).peers[i].capacity
                        &&& final(self).peers[i].inbox() == if old(self).peers[i].id != id {
                            deliver_spec(
                                old(self).peers[i].inbox(),
                                old(self).peers[i].capacity as int,
                                f,
                            )
                        } else {
                            old(self).peers[i].inbox()
                        }
                    }
            }),
    {
        let f = notice_frame(id, open);
        self.group_send(f);
    }
}

/// Copy a frame byte for byte.
pub fn clone_frame(f: &Vec<u8>) -> (r: Vec<u8>)
    ensures
        r@ == f@,
{
    let r = f.clone();
    assert(r@ =~= f@);
    r
}

} // verus!
