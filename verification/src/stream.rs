//! Per-stream forwarding engine: one optional publisher, the published
//! track list, the subscribing peers with their forwarding machines, and
//! the stream's data-channel fabric.
//!
//! At most one publisher exists per stream, structurally: the publisher is
//! an `Option`, installation fails with `AlreadyExists` while it is
//! occupied, and a reconnect window starts the moment it empties
//! (`publish_leave_time`). Track-list changes renotify every subscriber's
//! forwarding machines, which is what unbinds them when the publisher
//! leaves.

use vstd::prelude::*;
use crate::errors::RelayError;
use crate::fabric::{Fabric, PUBLISHER_SLOT_CAPACITY, SUBSCRIBER_SLOT_CAPACITY};
use crate::rtp::{desired_index, KindForwarder, TrackInfo, TrackKind, RtpPacket};
use crate::frame::spec_header;
use crate::text::{chars_bytes, lex_le, str_eq, str_lex_le};

verus! {

/// Transceiver counts and the simulcast flag taken from a session offer.
#[derive(Clone, Copy, PartialEq, Eq, Structural, Debug)]
pub struct MediaSpec {
    /// Number of video transceivers the peer sends on.
    pub video_send: u8,
    /// Number of video transceivers the peer receives on.
    pub video_recv: u8,
    /// Whether the publisher offers layered (simulcast) video.
    pub video_simulcast: bool,
    /// Number of audio transceivers the peer sends on.
    pub audio_send: u8,
    /// Number of audio transceivers the peer receives on.
    pub audio_recv: u8,
}

/// Connection states the transport reports for a peer.
#[derive(Clone, Copy, PartialEq, Eq, Structural, Debug)]
pub enum PeerState {
    Unspecified,
    New,
    Connecting,
    Connected,
    Disconnected,
    Failed,
    Closed,
}

/// What the relay does in reaction to a peer's state change.
#[derive(Clone, Copy, PartialEq, Eq, Structural, Debug)]
pub enum TransportAction {
    /// Nothing to do.
    Ignore,
    /// Ask the transport to close the session.
    CloseTransport,
    /// The session ended: remove the peer from its stream.
    RemovePeer,
    /// The session is up: notify the waiting caller.
    NotifyConnected,
}

/// Reaction of the relay to a publisher's connection state: a failed or
/// disconnected transport is closed; a closed one has its publisher
/// removed; anything else is ignored.
pub fn publish_state_action(s: PeerState) -> (r: TransportAction)
    ensures
        r == TransportAction::CloseTransport <==> (s == PeerState::Failed || s
            == PeerState::Disconnected),
        r == TransportAction::RemovePeer <==> s == PeerState::Closed,
        r == TransportAction::Ignore <==> !(s == PeerState::Failed || s == PeerState::Disconnected
            || s == PeerState::Closed),
{
    match s {
        PeerState::Failed | PeerState::Disconnected => TransportAction::CloseTransport,
        PeerState::Closed => TransportAction::RemovePeer,
        _ => TransportAction::Ignore,
    }
}

/// Reaction to a subscriber's connection state: as for a publisher, and a
/// connected transport additionally notifies the waiting caller.
pub fn subscribe_state_action(s: PeerState) -> (r: TransportAction)
    ensures
        r == TransportAction::NotifyConnected <==> s == PeerState::Connected,
        r == TransportAction::CloseTransport <==> (s == PeerState::Failed || s
            == PeerState::Disconnected),
        r == TransportAction::RemovePeer <==> s == PeerState::Closed,
{
    match s {
        PeerState::Connected => TransportAction::NotifyConnected,
        PeerState::Failed | PeerState::Disconnected => TransportAction::CloseTransport,
        PeerState::Closed => TransportAction::RemovePeer,
        _ => TransportAction::Ignore,
    }
}

/// The installed publisher of a stream.
pub struct PublishSession {
    /// Stable session token of the publishing transport.
    pub session: String,
    /// The publishing peer's user id.
    pub id: u32,
    /// The publisher's media description.
    pub media: MediaSpec,
    /// The last connection state the transport reported for this session.
    pub state: PeerState,
}

/// One subscribing peer: its session, its user id, and one forwarding
/// machine per media kind.
pub struct Subscriber {
    pub session: String,
    pub id: u32,
    pub create_time: u64,
    pub video: KindForwarder,
    pub audio: KindForwarder,
}

/// The published tracks are kept ordered by layer id, so that the first
/// track of a kind carries the lexicographically smallest `rid` and the
/// default binding is deterministic.
pub open spec fn tracks_sorted(ts: Seq<TrackInfo>) -> bool {
    forall|i: int, j: int|
        0 <= i < j < ts.len() ==> lex_le(
            chars_bytes((#[trigger] ts[i]).rid@),
            chars_bytes((#[trigger] ts[j]).rid@),
        )
}

/// Whether some published video track carries this layer id.
pub open spec fn published_video_rid(tracks: Seq<TrackInfo>, rid: Seq<char>) -> bool {
    exists|k: int|
        0 <= k < tracks.len() && (#[trigger] tracks[k]).kind == TrackKind::Video && tracks[k].rid@
            == rid
}

/// Snapshot of a stream's lifecycle and sessions.
pub struct StreamInfo {
    pub id: String,
    pub create_time: u64,
    pub publish_leave_time: u64,
    pub subscribe_leave_time: u64,
    pub publish_session: Option<String>,
    pub subscribe_sessions: Vec<String>,
}

/// The forwarding state of one stream.
pub struct StreamForward {
    pub name: String,
    pub create_time: u64,
    /// Zero while a publisher is present; otherwise the instant the last
    /// publisher left, starting the reconnect grace window.
    pub publish_leave_time: u64,
    /// Zero while any subscriber is present; otherwise the instant the
    /// last subscriber left.
    pub subscribe_leave_time: u64,
    pub publish: Option<PublishSession>,
    pub tracks: Vec<TrackInfo>,
    pub subscribers: Vec<Subscriber>,
    pub fabric: Fabric,
}

impl StreamForward {
    /// The stream's structural invariant: a sound fabric and a track list
    /// ordered by layer id.
    pub open spec fn wf(self) -> bool {
        &&& self.fabric.wf()
        &&& tracks_sorted(self.tracks@)
        &&& forall|k: int|
            0 <= k < self.subscribers.len() ==> (#[trigger] self.subscribers[k]).video.kind
                == TrackKind::Video && self.subscribers[k].audio.kind == TrackKind::Audio
    }

    /// At most one publisher, at any instant, structurally.
    pub open spec fn publisher_count(self) -> nat {
        if self.publish is Some {
            1
        } else {
            0
        }
    }

    /// Every stream holds at most one publisher, at any instant: the
    /// publisher slot is a single option, and `set_publish` refuses a
    /// second installation while it is occupied.
    pub proof fn lemma_at_most_one_publisher(self)
        ensures
            self.publisher_count() <= 1,
    {
    }

    /// A fresh stream: no publisher (the grace window is not running),
    /// no subscribers (their leave clock starts now), no tracks.
    pub fn new(name: String, now: u64) -> (r: StreamForward)
        ensures
            r.wf(),
            r.name == name,
            r.create_time == now,
            r.publish_leave_time == 0,
            r.subscribe_leave_time == now,
            r.publish is None,
            r.tracks@.len() == 0,
            r.subscribers@.len() == 0,
    {
        StreamForward {
            name,
            create_time: now,
            publish_leave_time: 0,
            subscribe_leave_time: now,
            publish: None,
            tracks: Vec::new(),
            subscribers: Vec::new(),
            fabric: Fabric::new(),
        }
    }

    /// Whether a publisher is installed.
    pub fn publish_is_some(&self) -> (r: bool)
        ensures
            r == (self.publish is Some),
    {
        self.publish.is_some()
    }

    /// Whether a publisher is installed and its transport last reported
    /// itself connected.
    pub fn publish_is_ok(&self) -> (r: bool)
        ensures
            r == (self.publish matches Some(p) && p.state == PeerState::Connected),
    {
        match &self.publish {
            Some(p) => p.state == PeerState::Connected,
            None => false,
        }
    }

    /// Record the connection state the transport reports for the
    /// publisher. Returns whether the session named the installed
    /// publisher; an unknown session changes nothing.
    pub fn publish_state_changed(&mut self, session: &str, s: PeerState) -> (r: bool)
        requires
            old(self).wf(),
        ensures
            final(self).wf(),
            r <==> (old(self).publish matches Some(p) && p.session@ == session@),
            !r ==> *final(self) == *old(self),
            r ==> ({
                &&& final(self).publish matches Some(p1) && old(self).publish matches Some(p0)
                    && p1.session == p0.session && p1.id == p0.id && p1.media == p0.media
                    && p1.state == s
                &&& final(self).name == old(self).name
                &&& final(self).create_time == old(self).create_time
                &&& final(self).publish_leave_time == old(self).publish_leave_time
                &&& final(self).subscribe_leave_time == old(self).subscribe_leave_time
                &&& final(self).tracks == old(self).tracks
                &&& final(self).subscribers == old(self).subscribers
                &&& final(self).fabric == old(self).fabric
            }),
    {
        let matched = match &self.publish {
            Some(p) => str_eq(p.session.as_str(), session),
            None => false,
        };
        if !matched {
            return false;
        }
        let p = match self.publish.take() {
            Some(p) => p,
            None => {
                proof {
                    assert(false);
                }
                return false;
            },
        };
        self.publish = Some(PublishSession { session: p.session, id: p.id, media: p.media, state: s });
        true
    }

    /// Install the publisher. Fails with `AlreadyExists` while one is
    /// installed — a stream never has two publishers — and with
    /// `Malformed` when the offer asks for more than one send transceiver
    /// of a kind. Success stops the reconnect grace clock.
    pub fn set_publish(&mut self, session: String, id: u32, media: MediaSpec) -> (r: Result<
        (),
        RelayError,
    >)
        requires
            old(self).wf(),
        ensures
            final(self).wf(),
            r == Err::<(), RelayError>(RelayError::AlreadyExists) <==> old(self).publish is Some,
            (old(self).publish is None && (media.video_send > 1 || media.audio_send > 1)) <==> r
                == Err::<(), RelayError>(RelayError::Malformed),
            r is Err ==> *final(self) == *old(self),
            r is Ok <==> (old(self).publish is None && media.video_send <= 1 && media.audio_send
                <= 1),
            r is Ok ==> {
                &&& final(self).publish matches Some(p) && p.session == session && p.id == id
                    && p.media == media && p.state == PeerState::New
                &&& final(self).publish_leave_time == 0
                &&& final(self).publisher_count() == 1
                &&& final(self).name == old(self).name
                &&& final(self).create_time == old(self).create_time
                &&& final(self).subscribe_leave_time == old(self).subscribe_leave_time
                &&& final(self).tracks == old(self).tracks
                &&& final(self).subscribers == old(self).subscribers
                &&& final(self).fabric == old(self).fabric
            },
    {
        if self.publish.is_some() {
            return Err(RelayError::AlreadyExists);
        }
        if media.video_send > 1 || media.audio_send > 1 {
            return Err(RelayError::Malformed);
        }
        self.publish = Some(PublishSession { session, id, media, state: PeerState::New });
        self.publish_leave_time = 0;
        Ok(())
    }

    /// Renotify every subscriber's forwarding machines of the current
    /// track list, as the publish-tracks-change signal does.
    fn rebind_all(&mut self)
        requires
            old(self).wf(),
        ensures
            final(self).wf(),
            final(self).name == old(self).name,
            final(self).create_time == old(self).create_time,
            final(self).publish_leave_time == old(self).publish_leave_time,
            final(self).subscribe_leave_time == old(self).subscribe_leave_time,
            final(self).publish == old(self).publish,
            final(self).tracks == old(self).tracks,
            final(self).fabric == old(self).fabric,
            final(self).subscribers@.len() == old(self).subscribers@.len(),
            forall|k: int|
                0 <= k < old(self).subscribers@.len() ==> subscriber_rebound(
                    old(self).subscribers@[k],
                    #[trigger] final(self).subscribers@[k],
                    old(self).tracks@,
                ),
    {
        let n = self.subscribers.len();
        let mut k: usize = 0;
        while k < n
            invariant
                k <= n,
                n == self.subscribers.len(),
                self.wf(),
                self.name == old(self).name,
                self.create_time == old(self).create_time,
                self.publish_leave_time == old(self).publish_leave_time,
                self.subscribe_leave_time == old(self).subscribe_leave_time,
                self.publish == old(self).publish,
                self.tracks == old(self).tracks,
                self.fabric == old(self).fabric,
                forall|j: int| k <= j < n ==> #[trigger] self.subscribers@[j] == old(self).subscribers@[j],
                forall|j: int|
                    0 <= j < k ==> subscriber_rebound(
                        old(self).subscribers@[j],
                        #[trigger] self.subscribers@[j],
                        old(self).tracks@,
                    ),
            decreases n - k,
        {
            let ghost pre = self.subscribers@;
            let mut s = self.subscribers.remove(k);
            s.video.on_tracks_change(&self.tracks);
            s.audio.on_tracks_change(&self.tracks);
            self.subscribers.insert(k, s);
            assert(self.subscribers@ =~= pre.update(k as int, self.subscribers@[k as int]));
            k = k + 1;
        }
    }

    /// A new published track came up: insert it in layer-id order and
    /// renotify every subscriber.
    pub fn track_up(&mut self, track: TrackInfo)
        requires
            old(self).wf(),
        ensures
            final(self).wf(),
            final(self).name == old(self).name,
            final(self).publish == old(self).publish,
            final(self).publish_leave_time == old(self).publish_leave_time,
            final(self).subscribe_leave_time == old(self).subscribe_leave_time,
            final(self).fabric == old(self).fabric,
            final(self).tracks@.len() == old(self).tracks@.len() + 1,
            exists|p: int|
                0 <= p <= old(self).tracks@.len() && final(self).tracks@ == old(
                    self,
                ).tracks@.insert(p, track),
            final(self).subscribers@.len() == old(self).subscribers@.len(),
            forall|k: int|
                0 <= k < old(self).subscribers@.len() ==> subscriber_rebound(
                    old(self).subscribers@[k],
                    #[trigger] final(self).subscribers@[k],
                    final(self).tracks@,
                ),
    {
        let n = self.tracks.len();
        let mut p: usize = 0;
        while p < n
            invariant
                p <= n,
                n == self.tracks@.len(),
                tracks_sorted(self.tracks@),
                forall|j: int|
                    0 <= j < p ==> lex_le(
                        chars_bytes((#[trigger] self.tracks@[j]).rid@),
                        chars_bytes(track.rid@),
                    ),
            ensures
                p <= n,
                n == self.tracks@.len(),
                forall|j: int|
                    0 <= j < p ==> lex_le(
                        chars_bytes((#[trigger] self.tracks@[j]).rid@),
                        chars_bytes(track.rid@),
                    ),
                p < n ==> lex_le(
                    chars_bytes(track.rid@),
                    chars_bytes(self.tracks@[p as int].rid@),
                ),
            decreases n - p,
        {
            if !str_lex_le(self.tracks[p].rid.as_str(), track.rid.as_str()) {
                proof {
                    crate::text::lemma_lex_le_total(
                        chars_bytes(self.tracks@[p as int].rid@),
                        chars_bytes(track.rid@),
                    );
                }
                break ;
            }
            p = p + 1;
        }
        let ghost pre = self.tracks@;
        self.tracks.insert(p, track);
        proof {
            assert(self.tracks@ == pre.insert(p as int, track));
            let pi = p as int;
            assert forall|i: int, j: int|
                0 <= i < j < self.tracks@.len() implies lex_le(
                chars_bytes((#[trigger] self.tracks@[i]).rid@),
                chars_bytes((#[trigger] self.tracks@[j]).rid@),
            ) by {
                let a = if i < pi {
                    pre[i]
                } else if i == pi {
                    track
                } else {
                    pre[i - 1]
                };
                assert(self.tracks@[i] == a);
                let b = if j < pi {
                    pre[j]
                } else if j == pi {
                    track
                } else {
                    pre[j - 1]
                };
                assert(self.tracks@[j] == b);
                if i == pi {
                    // the new track precedes everything at and after p
                    assert(j - 1 >= pi);
                    if j - 1 == pi {
                        assert(lex_le(chars_bytes(track.rid@), chars_bytes(pre[pi].rid@)));
                    } else {
                        assert(lex_le(chars_bytes(pre[pi].rid@), chars_bytes(pre[j - 1].rid@)));
                        crate::text::lemma_lex_le_trans(
                            chars_bytes(track.rid@),
                            chars_bytes(pre[pi].rid@),
                            chars_bytes(pre[j - 1].rid@),
                        );
                    }
                } else if j == pi {
                    assert(lex_le(chars_bytes(pre[i].rid@), chars_bytes(track.rid@)));
                } else if i < pi && j > pi {
                    assert(i <= j - 1);
                    if i == j - 1 {
                        crate::text::lemma_lex_le_refl(chars_bytes(pre[i].rid@));
                    } else {
                        assert(lex_le(chars_bytes(pre[i].rid@), chars_bytes(pre[j - 1].rid@)));
                    }
                } else {
                }
            };
        }
        self.rebind_all();
    }

    /// The publisher left (its transport closed): clear the publisher and
    /// the track list, start the reconnect grace clock, broadcast the
    /// close notice on the fabric, drop the publisher's fabric slot, and
    /// renotify every subscriber — with no tracks left, every machine
    /// unbinds and emits nothing further. Fails with `NotFound` when no
    /// publisher is installed or the session is not the installed one.
    pub fn remove_publish(&mut self, id: u32, session: &str, now: u64) -> (r: Result<
        (),
        RelayError,
    >)
        requires
            old(self).wf(),
            now > 0,
        ensures
            final(self).wf(),
            r is Err ==> *final(self) == *old(self),
            r is Ok <==> (old(self).publish matches Some(p) && p.session@ == session@),
            r is Ok ==> {
                &&& final(self).publish is None
                &&& final(self).tracks@.len() == 0
                &&& final(self).publish_leave_time == now
                &&& final(self).subscribe_leave_time == old(self).subscribe_leave_time
                &&& final(self).name == old(self).name
                &&& final(self).subscribers@.len() == old(self).subscribers@.len()
                // every subscriber machine is unbound and keeps its counter
                &&& forall|k: int|
                    0 <= k < final(self).subscribers@.len() ==> {
                        &&& (#[trigger] final(self).subscribers@[k]).video.binding is None
                        &&& final(self).subscribers@[k].audio.binding is None
                        &&& final(self).subscribers@[k].video.seq == old(
                            self,
                        ).subscribers@[k].video.seq
                        &&& final(self).subscribers@[k].audio.seq == old(
                            self,
                        ).subscribers@[k].audio.seq
                        &&& final(self).subscribers@[k].session == old(self).subscribers@[k].session
                        &&& final(self).subscribers@[k].id == old(self).subscribers@[k].id
                    }
                &&& !final(self).fabric.has_peer(id)
            },
    {
        let matches_install = match &self.publish {
            Some(p) => str_eq(p.session.as_str(), session),
            None => false,
        };
        if !matches_install {
            return Err(RelayError::NotFound);
        }
        self.publish = None;
        self.tracks = Vec::new();
        self.publish_leave_time = now;
        self.fabric.announce(id, false);
        self.fabric.remove_peer(id);
        let ghost mid = *self;
        self.rebind_all();
        proof {
            assert forall|k: int| 0 <= k < self.subscribers@.len() implies {
                &&& (#[trigger] self.subscribers@[k]).video.binding is None
                &&& self.subscribers@[k].audio.binding is None
                &&& self.subscribers@[k].video.seq == old(self).subscribers@[k].video.seq
                &&& self.subscribers@[k].audio.seq == old(self).subscribers@[k].audio.seq
                &&& self.subscribers@[k].session == old(self).subscribers@[k].session
                &&& self.subscribers@[k].id == old(self).subscribers@[k].id
            } by {
                assert(subscriber_rebound(mid.subscribers@[k], self.subscribers@[k], mid.tracks@));
                assert(mid.tracks@.len() == 0);
                crate::rtp::lemma_first_match(
                    mid.tracks@,
                    mid.subscribers@[k].video.kind,
                    mid.subscribers@[k].video.selected_view(),
                );
            };
        }
        Ok(())
    }

    /// Admit a subscribing peer. Fails with `NotFound` while no publisher
    /// is installed and with `Malformed` when the offer asks for more than
    /// one receive transceiver of a kind. The new subscriber's machines
    /// bind immediately to the current track list, and the
    /// subscriber-leave clock stops.
    pub fn new_subscribe(&mut self, session: String, id: u32, media: MediaSpec, now: u64) -> (r:
        Result<(), RelayError>)
        requires
            old(self).wf(),
        ensures
            final(self).wf(),
            r == Err::<(), RelayError>(RelayError::NotFound) <==> old(self).publish is None,
            (old(self).publish is Some && (media.video_recv > 1 || media.audio_recv > 1)) <==> r
                == Err::<(), RelayError>(RelayError::Malformed),
            r is Err ==> *final(self) == *old(self),
            r is Ok <==> (old(self).publish is Some && media.video_recv <= 1 && media.audio_recv
                <= 1),
            r is Ok ==> {
                &&& final(self).subscribers@.len() == old(self).subscribers@.len() + 1
                &&& forall|k: int|
                    0 <= k < old(self).subscribers@.len() ==> #[trigger] final(self).subscribers@[k] == old(self).subscribers@[k]
                &&& final(self).subscribers@.last().session == session
                &&& final(self).subscribers@.last().id == id
                &&& final(self).subscribers@.last().create_time == now
                &&& final(self).subscribers@.last().video.seq == 0
                &&& final(self).subscribers@.last().audio.seq == 0
                &&& subscriber_rebound(
                    fresh_subscriber(session, id, now),
                    final(self).subscribers@.last(),
                    old(self).tracks@,
                )
                &&& final(self).subscribe_leave_time == 0
                &&& final(self).tracks == old(self).tracks
                &&& final(self).publish == old(self).publish
                &&& final(self).publish_leave_time == old(self).publish_leave_time
                &&& final(self).name == old(self).name
            },
    {
        if self.publish.is_none() {
            return Err(RelayError::NotFound);
        }
        if media.video_recv > 1 || media.audio_recv > 1 {
            return Err(RelayError::Malformed);
        }
        let mut s = Subscriber {
            session,
            id,
            create_time: now,
            video: KindForwarder::new(TrackKind::Video),
            audio: KindForwarder::new(TrackKind::Audio),
        };
        let ghost fresh = s;
        s.video.on_tracks_change(&self.tracks);
        s.audio.on_tracks_change(&self.tracks);
        proof {
            assert(subscriber_rebound(fresh, s, self.tracks@));
        }
        self.subscribers.push(s);
        self.subscribe_leave_time = 0;
        Ok(())
    }

    /// Index of the subscriber with this session token.
    fn subscriber_index(&self, session: &str) -> (r: Option<usize>)
        ensures
            match r {
                Some(i) => find_subscriber(self.subscribers@, session@) == Some(i as int),
                None => find_subscriber(self.subscribers@, session@) is None,
            },
    {
        proof {
            lemma_find_subscriber(self.subscribers@, session@);
        }
        let n = self.subscribers.len();
        let mut i: usize = 0;
        while i < n
            invariant
                i <= n,
                n == self.subscribers@.len(),
                forall|k: int|
                    0 <= k < i ==> (#[trigger] self.subscribers@[k]).session@ != session@,
            decreases n - i,
        {
            if str_eq(self.subscribers[i].session.as_str(), session) {
                proof {
                    lemma_find_subscriber(self.subscribers@, session@);
                }
                return Some(i);
            }
            i = i + 1;
        }
        proof {
            lemma_find_subscriber(self.subscribers@, session@);
        }
        None
    }

    /// Remove the subscriber with this session. Fails with `NotFound`
    /// when no subscriber carries it; when the last subscriber leaves,
    /// the subscriber-leave clock starts.
    pub fn remove_subscribe(&mut self, id: u32, session: &str, now: u64) -> (r: Result<
        (),
        RelayError,
    >)
        requires
            old(self).wf(),
            now > 0,
        ensures
            final(self).wf(),
            r is Err ==> *final(self) == *old(self),
            r is Err <==> find_subscriber(old(self).subscribers@, session@) is None,
            r is Ok ==> {
                &&& ({
                    let i = find_subscriber(old(self).subscribers@, session@)->Some_0;
                    old(self).subscribers@[i].session@ == session@ && final(self).subscribers@
                        == old(self).subscribers@.remove(i)
                })
                &&& final(self).subscribe_leave_time == if final(self).subscribers@.len() == 0 {
                    now
                } else {
                    old(self).subscribe_leave_time
                }
                &&& final(self).publish == old(self).publish
                &&& final(self).tracks == old(self).tracks
                &&& final(self).publish_leave_time == old(self).publish_leave_time
                &&& final(self).name == old(self).name
                &&& !final(self).fabric.has_peer(id)
            },
    {
        let i = match self.subscriber_index(session) {
            None => {
                return Err(RelayError::NotFound);
            },
            Some(i) => i,
        };
        proof {
            lemma_find_subscriber(self.subscribers@, session@);
        }
        self.subscribers.remove(i);
        if self.subscribers.len() == 0 {
            self.subscribe_leave_time = now;
        }
        self.fabric.remove_peer(id);
        Ok(())
    }

    /// Record a layer selection for one subscriber's kind and rebind it.
    /// Returns whether a subscriber with this session exists.
    pub fn select_kind_rid(&mut self, session: &str, kind: TrackKind, rid: Option<String>) -> (r:
        bool)
        requires
            old(self).wf(),
        ensures
            final(self).wf(),
            select_effect(
                *old(self),
                *final(self),
                session@,
                kind,
                match rid {
                    Some(x) => Some(x@),
                    None => None::<Seq<char>>,
                },
            ),
            r <==> find_subscriber(old(self).subscribers@, session@) is Some,
            !r ==> *final(self) == *old(self),
            final(self).name == old(self).name,
            final(self).publish == old(self).publish,
            final(self).tracks == old(self).tracks,
            final(self).publish_leave_time == old(self).publish_leave_time,
            final(self).subscribe_leave_time == old(self).subscribe_leave_time,
            final(self).subscribers@.len() == old(self).subscribers@.len(),
            r ==> ({
                let i = find_subscriber(old(self).subscribers@, session@)->Some_0;
                {
                    &&& 0 <= i < old(self).subscribers@.len()
                    &&& old(self).subscribers@[i].session@ == session@
                    &&& (forall|k: int|
                        0 <= k < old(self).subscribers@.len() && k != i ==> #[trigger] final(self).subscribers@[k] == old(self).subscribers@[k])
                    &&& ({
                        let sel = match rid {
                            Some(x) => Some(x@),
                            None => None::<Seq<char>>,
                        };
                        let s0 = old(self).subscribers@[i];
                        let s1 = final(self).subscribers@[i];
                        &&& s1.session == s0.session
                        &&& s1.id == s0.id
                        &&& if kind == TrackKind::Video {
                            s1.audio == s0.audio && s1.video.seq == s0.video.seq
                                && s1.video.selected_view() == sel && rebound_with(
                                s1.video,
                                old(self).tracks@,
                                TrackKind::Video,
                                sel,
                                s0.video.binding,
                            )
                        } else {
                            s1.video == s0.video && s1.audio.seq == s0.audio.seq
                                && s1.audio.selected_view() == sel && rebound_with(
                                s1.audio,
                                old(self).tracks@,
                                TrackKind::Audio,
                                sel,
                                s0.audio.binding,
                            )
                        }
                    })
                }
            }),
    {
        let i = match self.subscriber_index(session) {
            None => {
                return false;
            },
            Some(i) => i,
        };
        proof {
            lemma_find_subscriber(self.subscribers@, session@);
        }
        let ghost pre = self.subscribers@;
        let mut s = self.subscribers.remove(i);
        if matches!(kind, TrackKind::Video) {
            s.video.select_rid(rid);
            s.video.on_tracks_change(&self.tracks);
        } else {
            s.audio.select_rid(rid);
            s.audio.on_tracks_change(&self.tracks);
        }
        self.subscribers.insert(i, s);
        proof {
            assert(self.subscribers@ =~= pre.update(i as int, self.subscribers@[i as int]));
        }
        true
    }

    /// Forward one RTP packet for one subscriber and kind: the per-packet
    /// step of the forwarding loop. Unbound machines emit nothing; bound
    /// machines emit the packet restamped with their own counter.
    pub fn forward_rtp(&mut self, session: &str, kind: TrackKind, p: RtpPacket) -> (r: Option<
        RtpPacket,
    >)
        requires
            old(self).wf(),
        ensures
            final(self).wf(),
            final(self).name == old(self).name,
            final(self).publish == old(self).publish,
            final(self).tracks == old(self).tracks,
            final(self).fabric == old(self).fabric,
            final(self).subscribers@.len() == old(self).subscribers@.len(),
            find_subscriber(old(self).subscribers@, session@) is None ==> r is None && *final(self) == *old(self),
            find_subscriber(old(self).subscribers@, session@) matches Some(i) ==> ({
                let s0 = old(self).subscribers@[i];
                let m0 = if kind == TrackKind::Video {
                    s0.video
                } else {
                    s0.audio
                };
                &&& (m0.binding is None ==> r is None && final(self).subscribers@[i] == s0)
                &&& ({
                    let s1 = final(self).subscribers@[i];
                    &&& s1.session == s0.session
                    &&& s1.id == s0.id
                    &&& s1.create_time == s0.create_time
                    &&& if kind == TrackKind::Video {
                        s1.audio == s0.audio
                    } else {
                        s1.video == s0.video
                    }
                })
                &&& (m0.binding is Some ==> (r matches Some(q) && q.sequence_number == m0.seq
                    && q.timestamp == p.timestamp && q.ssrc == p.ssrc && q.payload == p.payload
                    && ({
                    let m1 = if kind == TrackKind::Video {
                        final(self).subscribers@[i].video
                    } else {
                        final(self).subscribers@[i].audio
                    };
                    m1.seq == crate::rtp::wrap_inc(m0.seq) && m1.binding == m0.binding
                        && m1.selected_rid == m0.selected_rid && m1.kind == m0.kind
                })))
                &&& forall|k: int|
                    0 <= k < old(self).subscribers@.len() && k != i ==> #[trigger] final(self).subscribers@[k] == old(self).subscribers@[k]
            }),
    {
        let i = match self.subscriber_index(session) {
            None => {
                return None;
            },
            Some(i) => i,
        };
        proof {
            lemma_find_subscriber(self.subscribers@, session@);
        }
        let ghost pre = self.subscribers@;
        let mut s = self.subscribers.remove(i);
        let r = if matches!(kind, TrackKind::Video) {
            s.video.forward(p)
        } else {
            s.audio.forward(p)
        };
        self.subscribers.insert(i, s);
        proof {
            assert(self.subscribers@ =~= pre.update(i as int, self.subscribers@[i as int]));
        }
        r
    }

    /// Whether the installed publisher offers layered video.
    pub fn publish_is_svc(&self) -> (r: bool)
        ensures
            r == match self.publish {
                Some(p) => p.media.video_simulcast,
                None => false,
            },
    {
        match &self.publish {
            Some(p) => p.media.video_simulcast,
            None => false,
        }
    }

    /// The distinct layer ids over the published video tracks, in layer
    /// order: what a client enumerates as selectable layers.
    pub fn publish_svc_rids(&self) -> (r: Vec<String>)
        requires
            self.wf(),
        ensures
            svc_rids_spec(self.tracks@, r@),
    {
        let mut out: Vec<String> = Vec::new();
        let n = self.tracks.len();
        let mut k: usize = 0;
        while k < n
            invariant
                k <= n,
                n == self.tracks@.len(),
                tracks_sorted(self.tracks@),
                forall|a: int, b: int|
                    0 <= a < b < out@.len() ==> (#[trigger] out@[a])@ != (#[trigger] out@[b])@,
                forall|j: int|
                    0 <= j < k && (#[trigger] self.tracks@[j]).kind == TrackKind::Video ==> exists|a: int|
                        0 <= a < out@.len() && (#[trigger] out@[a])@ == self.tracks@[j].rid@,
                forall|a: int|
                    0 <= a < out@.len() ==> published_video_rid(
                        self.tracks@.take(k as int),
                        (#[trigger] out@[a])@,
                    ),
                forall|a: int, b: int|
                    0 <= a < b < out@.len() ==> lex_le(
                        chars_bytes((#[trigger] out@[a])@),
                        chars_bytes((#[trigger] out@[b])@),
                    ),
            decreases n - k,
        {
            if self.tracks[k].kind == TrackKind::Video {
                let mut present = false;
                let m = out.len();
                let mut a: usize = 0;
                while a < m
                    invariant
                        a <= m,
                        m == out@.len(),
                        k < n,
                        n == self.tracks@.len(),
                        present ==> exists|b: int|
                            0 <= b < out@.len() && (#[trigger] out@[b])@ == self.tracks@[k as int].rid@,
                        !present ==> forall|b: int|
                            0 <= b < a ==> (#[trigger] out@[b])@ != self.tracks@[k as int].rid@,
                    ensures
                        m == out@.len(),
                        present ==> exists|b: int|
                            0 <= b < out@.len() && (#[trigger] out@[b])@ == self.tracks@[k as int].rid@,
                        !present ==> forall|b: int|
                            0 <= b < out@.len() ==> (#[trigger] out@[b])@ != self.tracks@[
                                k as int
                            ].rid@,
                    decreases m - a,
                {
                    if str_eq(out[a].as_str(), self.tracks[k].rid.as_str()) {
                        present = true;
                        break ;
                    }
                    a = a + 1;
                }
                if !present {
                    let ghost preout = out@;
                    out.push(crate::group::clone_string(&self.tracks[k].rid));
                    proof {
                        assert(out@.len() == preout.len() + 1);
                        assert(forall|b: int| 0 <= b < preout.len() ==> out@[b] == preout[b]);
                        assert((out@[out@.len() - 1])@ == self.tracks@[k as int].rid@);
                        assert forall|j: int|
                            0 <= j < k + 1 && (#[trigger] self.tracks@[j]).kind
                                == TrackKind::Video implies exists|a: int|
                            0 <= a < out@.len() && (#[trigger] out@[a])@ == self.tracks@[j].rid@ by {
                            if j < k {
                                let a = choose|a: int|
                                    0 <= a < preout.len() && (#[trigger] preout[a])@
                                        == self.tracks@[j].rid@;
                                assert((out@[a])@ == self.tracks@[j].rid@);
                            } else {
                                assert((out@[out@.len() - 1])@ == self.tracks@[j].rid@);
                            }
                        };
                        // the new layer id follows every earlier one in order
                        assert forall|a: int|
                            0 <= a < out@.len() - 1 implies lex_le(
                            chars_bytes((#[trigger] out@[a])@),
                            chars_bytes((out@[out@.len() - 1])@),
                        ) by {
                            lemma_prefix_video_rid_source(
                                self.tracks@,
                                k as int,
                                (out@[a])@,
                            );
                        };
                    }
                } else {
                    proof {
                        assert forall|j: int|
                            0 <= j < k + 1 && (#[trigger] self.tracks@[j]).kind
                                == TrackKind::Video implies exists|a: int|
                            0 <= a < out@.len() && (#[trigger] out@[a])@ == self.tracks@[j].rid@ by {
                            if j == k as int {
                                let b = choose|b: int|
                                    0 <= b < out@.len() && (#[trigger] out@[b])@ == self.tracks@[
                                        k as int
                                    ].rid@;
                                assert((out@[b])@ == self.tracks@[j].rid@);
                            }
                        };
                    }
                }
            }
            proof {
                assert forall|a: int| 0 <= a < out@.len() implies published_video_rid(
                    self.tracks@.take(k as int + 1),
                    (#[trigger] out@[a])@,
                ) by {
                    if published_video_rid(self.tracks@.take(k as int), (out@[a])@) {
                        let j = choose|j: int|
                            0 <= j < self.tracks@.take(k as int).len() && (
                            #[trigger] self.tracks@.take(k as int)[j]).kind == TrackKind::Video
                                && self.tracks@.take(k as int)[j].rid@ == (out@[a])@;
                        assert(self.tracks@.take(k as int + 1)[j] == self.tracks@[j]);
                        assert((#[trigger] self.tracks@.take(k as int + 1)[j]).kind
                            == TrackKind::Video);
                    } else {
                        // only the element pushed this round is new
                        assert((out@[a])@ == self.tracks@[k as int].rid@);
                        assert(self.tracks@.take(k as int + 1)[k as int] == self.tracks@[k as int]);
                        assert((#[trigger] self.tracks@.take(k as int + 1)[k as int]).kind
                            == TrackKind::Video);
                    }
                };
            }
            k = k + 1;
        }
        proof {
            assert(self.tracks@.take(n as int) =~= self.tracks@);
        }
        out
    }

    /// Snapshot of the stream: timestamps, the publisher session if any,
    /// and the subscriber sessions.
    pub fn info(&self) -> (r: StreamInfo)
        ensures
            r.id@ == self.name@,
            r.create_time == self.create_time,
            r.publish_leave_time == self.publish_leave_time,
            r.subscribe_leave_time == self.subscribe_leave_time,
            match (r.publish_session, self.publish) {
                (Some(s), Some(p)) => s@ == p.session@,
                (None, None) => true,
                _ => false,
            },
            r.subscribe_sessions@.len() == self.subscribers@.len(),
            forall|k: int|
                0 <= k < self.subscribers@.len() ==> (#[trigger] r.subscribe_sessions@[k])@
                    == self.subscribers@[k].session@,
    {
        let publish_session = match &self.publish {
            Some(p) => Some(crate::group::clone_string(&p.session)),
            None => None,
        };
        let mut sessions: Vec<String> = Vec::new();
        let n = self.subscribers.len();
        let mut k: usize = 0;
        while k < n
            invariant
                k <= n,
                n == self.subscribers@.len(),
                sessions@.len() == k,
                forall|j: int|
                    0 <= j < k ==> (#[trigger] sessions@[j])@ == self.subscribers@[j].session@,
            decreases n - k,
        {
            sessions.push(crate::group::clone_string(&self.subscribers[k].session));
            k = k + 1;
        }
        StreamInfo {
            id: crate::group::clone_string(&self.name),
            create_time: self.create_time,
            publish_leave_time: self.publish_leave_time,
            subscribe_leave_time: self.subscribe_leave_time,
            publish_session,
            subscribe_sessions: sessions,
        }
    }

    /// Open (or reset) a peer's data-channel slot: publishers get the
    /// larger mailbox. The peer's slot ends empty with the capacity of its
    /// role; every other slot is untouched.
    pub fn open_data_channel(&mut self, id: u32, publisher: bool)
        requires
            old(self).wf(),
        ensures
            final(self).wf(),
            final(self).fabric.has_peer(id),
            final(self).fabric.peers.len() >= old(self).fabric.peers.len(),
            forall|i: int|
                0 <= i < final(self).fabric.peers.len() && (#[trigger] final(self).fabric.peers[i]).id != id ==> 0 <= i < old(self).fabric.peers.len() && final(self).fabric.peers[i] == old(self).fabric.peers[i],
            forall|i: int|
                0 <= i < final(self).fabric.peers.len() && (#[trigger] final(self).fabric.peers[i]).id == id ==> {
                    &&& final(self).fabric.peers[i].capacity == if publisher {
                        PUBLISHER_SLOT_CAPACITY as usize
                    } else {
                        SUBSCRIBER_SLOT_CAPACITY as usize
                    }
                    &&& final(self).fabric.peers[i].inbox() == Seq::<Seq<u8>>::empty()
                },
            final(self).publish == old(self).publish,
            final(self).tracks == old(self).tracks,
            final(self).subscribers == old(self).subscribers,
            final(self).name == old(self).name,
            final(self).create_time == old(self).create_time,
            final(self).publish_leave_time == old(self).publish_leave_time,
            final(self).subscribe_leave_time == old(self).subscribe_leave_time,
    {
        let cap = if publisher {
            PUBLISHER_SLOT_CAPACITY
        } else {
            SUBSCRIBER_SLOT_CAPACITY
        };
        self.fabric.add_peer(id, cap);
    }

    /// Broadcast the open or close notice for a peer on the fabric: every
    /// slot except the peer's own admits the nine-byte frame that carries
    /// the peer's id as both sender and destination, and decodes back to
    /// exactly (type, id, id).
    pub fn notice_network_event(&mut self, id: u32, open: bool)
        requires
            old(self).wf(),
        ensures
            final(self).wf(),
            ({
                let f = spec_header(
                    if open {
                        crate::frame::FrameType::Open
                    } else {
                        crate::frame::FrameType::Close
                    },
                    id,
                    id,
                );
                &&& crate::frame::spec_decode_header(f) == Some(
                    (
                        if open {
                            crate::frame::FrameType::Open
                        } else {
                            crate::frame::FrameType::Close
                        },
                        id,
                        id,
                    ),
                )
                &&& final(self).fabric.peers.len() == old(self).fabric.peers.len()
                &&& forall|i: int|
                    0 <= i < final(self).fabric.peers.len() ==> {
                        &&& (#[trigger] final(self).fabric.peers[i]).id == old(
                            self,
                        ).fabric.peers[i].id
                        &&& final(self).fabric.peers[i].capacity == old(
                            self,
                        ).fabric.peers[i].capacity
                        &&& final(self).fabric.peers[i].inbox() == if old(
                            self,
                        ).fabric.peers[i].id != id {
                            crate::fabric::deliver_spec(
                                old(self).fabric.peers[i].inbox(),
                                old(self).fabric.peers[i].capacity as int,
                                f,
                            )
                        } else {
                            old(self).fabric.peers[i].inbox()
                        }
                    }
            }),
            final(self).publish == old(self).publish,
            final(self).tracks == old(self).tracks,
            final(self).subscribers == old(self).subscribers,
            final(self).name == old(self).name,
            final(self).create_time == old(self).create_time,
            final(self).publish_leave_time == old(self).publish_leave_time,
            final(self).subscribe_leave_time == old(self).subscribe_leave_time,
    {
        self.fabric.announce(id, open);
        proof {
            crate::frame::lemma_header_round_trip(
                if open {
                    crate::frame::FrameType::Open
                } else {
                    crate::frame::FrameType::Close
                },
                id,
                id,
                Seq::<u8>::empty(),
            );
            assert(spec_header(
                if open {
                    crate::frame::FrameType::Open
                } else {
                    crate::frame::FrameType::Close
                },
                id,
                id,
            ) + Seq::<u8>::empty() =~= spec_header(
                if open {
                    crate::frame::FrameType::Open
                } else {
                    crate::frame::FrameType::Close
                },
                id,
                id,
            ));
        }
    }
}


/// Smallest index of the subscriber with this session token.
pub open spec fn find_subscriber(subs: Seq<Subscriber>, session: Seq<char>) -> Option<int>
    decreases subs.len(),
{
    if subs.len() == 0 {
        None
    } else if subs[0].session@ == session {
        Some(0)
    } else {
        match find_subscriber(subs.skip(1), session) {
            Some(i) => Some(i + 1),
            None => None,
        }
    }
}

/// `find_subscriber` returns the least matching index, or `None` exactly
/// when no subscriber carries the session.
pub proof fn lemma_find_subscriber(subs: Seq<Subscriber>, session: Seq<char>)
    ensures
        match find_subscriber(subs, session) {
            Some(i) => 0 <= i < subs.len() && subs[i].session@ == session && forall|j: int|
                0 <= j < i ==> (#[trigger] subs[j]).session@ != session,
            None => forall|j: int| 0 <= j < subs.len() ==> (#[trigger] subs[j]).session@ != session,
        },
    decreases subs.len(),
{
    if subs.len() > 0 && subs[0].session@ != session {
        let rest = subs.skip(1);
        lemma_find_subscriber(rest, session);
        assert(forall|j: int| 0 <= j < rest.len() ==> rest[j] == subs[j + 1]);
        match find_subscriber(rest, session) {
            Some(i) => {
                assert(forall|j: int| 1 <= j < i + 1 ==> (#[trigger] subs[j]).session@ != session)
                    by {
                    assert(forall|j: int| 1 <= j < i + 1 ==> subs[j] == rest[j - 1]);
                };
            },
            None => {
                assert(forall|j: int|
                    1 <= j < subs.len() ==> (#[trigger] subs[j]).session@ != session) by {
                    assert(forall|j: int| 1 <= j < subs.len() ==> subs[j] == rest[j - 1]);
                };
            },
        }
    }
}

/// A fresh subscriber value before its machines first observe the track

/// list.
pub open spec fn fresh_subscriber(session: String, id: u32, now: u64) -> Subscriber {
    Subscriber {
        session,
        id,
        create_time: now,
        video: KindForwarder {
            kind: TrackKind::Video,
            binding: None,
            selected_rid: None,
            seq: 0,
        },
        audio: KindForwarder {
            kind: TrackKind::Audio,
            binding: None,
            selected_rid: None,
            seq: 0,
        },
    }
}

/// Whether one machine's state after a track-list change follows from
/// another's before it: the binding is the desired one, and the counter,
/// the selection and the identity survive.
pub open spec fn machine_rebound(m0: KindForwarder, m1: KindForwarder, tracks: Seq<TrackInfo>) -> bool {
    &&& m1.kind == m0.kind
    &&& m1.seq == m0.seq
    &&& m1.selected_rid == m0.selected_rid
    &&& binding_matches(m1, tracks, m0)
}

/// The binding demanded by `desired_index` over `tracks` for a machine of
/// `kind` under selection `sel`, starting from binding `b0`: unbound when
/// nothing suits, kept when the layer id is unchanged, else freshly bound.
pub open spec fn rebound_with(
    m1: KindForwarder,
    tracks: Seq<TrackInfo>,
    kind: TrackKind,
    sel: Option<Seq<char>>,
    b0: Option<crate::rtp::Binding>,
) -> bool {
    match desired_index(tracks, kind, sel) {
        None => m1.binding is None,
        Some(i) => {
            if (match b0 {
                Some(b) => Some(b.rid@),
                None => None::<Seq<char>>,
            }) == Some(tracks[i].rid@) {
                m1.binding == b0
            } else {
                m1.binding_rid_view() == Some(tracks[i].rid@) && (m1.binding matches Some(b)
                    && b.ssrc == tracks[i].ssrc)
            }
        },
    }
}

/// The binding demanded of a machine by `desired_index` over `tracks`,
/// allowing a kept binding when the layer id is unchanged.
pub open spec fn binding_matches(m1: KindForwarder, tracks: Seq<TrackInfo>, m0: KindForwarder) -> bool {
    rebound_with(m1, tracks, m0.kind, m0.selected_view(), m0.binding)
}



/// A layer id carried by a track before position `k` in a sorted track
/// list precedes (or equals) the layer id at `k` in byte order.
proof fn lemma_prefix_video_rid_source(tracks: Seq<TrackInfo>, k: int, rid: Seq<char>)
    requires
        tracks_sorted(tracks),
        0 <= k < tracks.len(),
        published_video_rid(tracks.take(k), rid),
    ensures
        lex_le(chars_bytes(rid), chars_bytes(tracks[k].rid@)),
{
    let j = choose|j: int|
        0 <= j < tracks.take(k).len() && (#[trigger] tracks.take(k)[j]).kind == TrackKind::Video
            && tracks.take(k)[j].rid@ == rid;
    assert(tracks.take(k)[j] == tracks[j]);
    assert(lex_le(chars_bytes(tracks[j].rid@), chars_bytes(tracks[k].rid@)));
}

/// What a layer selection does to a stream: only the named subscriber
/// changes; its selection becomes `sel`, the machine of `kind` rebinds per
/// `desired_index` under the new selection with its counter kept, and the
/// other machine, the other subscribers and every other stream field
/// survive. Naming an unknown session changes nothing.
pub open spec fn select_effect(
    pre: StreamForward,
    post: StreamForward,
    session: Seq<char>,
    kind: TrackKind,
    sel: Option<Seq<char>>,
) -> bool {
    &&& post.name == pre.name
    &&& post.create_time == pre.create_time
    &&& post.publish == pre.publish
    &&& post.tracks == pre.tracks
    &&& post.fabric == pre.fabric
    &&& post.publish_leave_time == pre.publish_leave_time
    &&& post.subscribe_leave_time == pre.subscribe_leave_time
    &&& post.subscribers@.len() == pre.subscribers@.len()
    &&& match find_subscriber(pre.subscribers@, session) {
        None => post.subscribers == pre.subscribers,
        Some(i) => {
            &&& (forall|k: int|
                0 <= k < pre.subscribers@.len() && k != i ==> #[trigger] post.subscribers@[k]
                    == pre.subscribers@[k])
            &&& ({
                let s0 = pre.subscribers@[i];
                let s1 = post.subscribers@[i];
                &&& s1.session == s0.session
                &&& s1.id == s0.id
                &&& s1.create_time == s0.create_time
                &&& if kind == TrackKind::Video {
                    s1.audio == s0.audio && s1.video.seq == s0.video.seq
                        && s1.video.selected_view() == sel && rebound_with(
                        s1.video,
                        pre.tracks@,
                        TrackKind::Video,
                        sel,
                        s0.video.binding,
                    )
                } else {
                    s1.video == s0.video && s1.audio.seq == s0.audio.seq
                        && s1.audio.selected_view() == sel && rebound_with(
                        s1.audio,
                        pre.tracks@,
                        TrackKind::Audio,
                        sel,
                        s0.audio.binding,
                    )
                }
            })
        },
    }
}

/// What the selectable-layer listing owes: the distinct layer ids of the
/// published video tracks, complete, sound, and in ascending layer order.
pub open spec fn svc_rids_spec(tracks: Seq<TrackInfo>, r: Seq<String>) -> bool {
    &&& forall|a: int, b: int| 0 <= a < b < r.len() ==> (#[trigger] r[a])@ != (#[trigger] r[b])@
    &&& forall|k: int|
        0 <= k < tracks.len() && (#[trigger] tracks[k]).kind == TrackKind::Video ==> exists|a: int|
            0 <= a < r.len() && (#[trigger] r[a])@ == tracks[k].rid@
    &&& forall|a: int| 0 <= a < r.len() ==> published_video_rid(tracks, (#[trigger] r[a])@)
    &&& forall|a: int, b: int|
        0 <= a < b < r.len() ==> lex_le(
            chars_bytes((#[trigger] r[a])@),
            chars_bytes((#[trigger] r[b])@),
        )
}

/// Both machines of a subscriber rebound over `tracks`; everything else
/// survives.
pub open spec fn subscriber_rebound(s0: Subscriber, s1: Subscriber, tracks: Seq<TrackInfo>) -> bool {
    &&& s1.session == s0.session
    &&& s1.id == s0.id
    &&& s1.create_time == s0.create_time
    &&& machine_rebound(s0.video, s1.video, tracks)
    &&& machine_rebound(s0.audio, s1.audio, tracks)
}

} // verus!
