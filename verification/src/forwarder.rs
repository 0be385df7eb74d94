//! Process-wide stream registry and its reaper.
//!
//! Streams are looked up by name; creation fails on a name collision.
//! Publish requests create the stream lazily. The reaper wakes
//! periodically and removes every stream whose publisher has been gone
//! longer than the configured grace window — a publisher that reconnects
//! in time resets the clock and the stream survives.

use vstd::prelude::*;
use crate::errors::RelayError;
use crate::rtp::TrackKind;
use crate::stream::{select_effect, svc_rids_spec, MediaSpec, PeerState, StreamForward, StreamInfo};
use crate::text::str_eq;

verus! {

/// Collaborator-supplied parameters of the forwarding plane.
#[derive(Clone, Copy, PartialEq, Eq, Structural, Debug)]
pub struct ForwarderConfig {
    /// Grace window in milliseconds for a publisher reconnect before the
    /// stream is reaped.
    pub publish_leave_timeout: u64,
    /// Whether tearing a republication down also closes its subscribers.
    pub reforward_close_sub: bool,
}

/// Milliseconds between two wake-ups of the reaper.
pub const REAP_PERIOD_MILLIS: u64 = 1000;

/// Smallest index of the stream with this name.
pub open spec fn find_stream(ss: Seq<StreamForward>, name: Seq<char>) -> Option<int>
    decreases ss.len(),
{
    if ss.len() == 0 {
        None
    } else if ss[0].name@ == name {
        Some(0)
    } else {
        match find_stream(ss.skip(1), name) {
            Some(i) => Some(i + 1),
            None => None,
        }
    }
}

/// `find_stream` returns the least index with the name, or `None` exactly
/// when no stream carries it.
pub proof fn lemma_find_stream(ss: Seq<StreamForward>, name: Seq<char>)
    ensures
        match find_stream(ss, name) {
            Some(i) => 0 <= i < ss.len() && ss[i].name@ == name && forall|j: int|
                0 <= j < i ==> (#[trigger] ss[j]).name@ != name,
            None => forall|j: int| 0 <= j < ss.len() ==> (#[trigger] ss[j]).name@ != name,
        },
    decreases ss.len(),
{
    if ss.len() > 0 && ss[0].name@ != name {
        let rest = ss.skip(1);
        lemma_find_stream(rest, name);
        assert(forall|j: int| 0 <= j < rest.len() ==> rest[j] == ss[j + 1]);
        match find_stream(rest, name) {
            Some(i) => {
                assert(forall|j: int| 1 <= j < i + 1 ==> (#[trigger] ss[j]).name@ != name) by {
                    assert(forall|j: int| 1 <= j < i + 1 ==> ss[j] == rest[j - 1]);
                };
            },
            None => {
                assert(forall|j: int| 1 <= j < ss.len() ==> (#[trigger] ss[j]).name@ != name) by {
                    assert(forall|j: int| 1 <= j < ss.len() ==> ss[j] == rest[j - 1]);
                };
            },
        }
    }
}

/// Whether a stream has outlived its publisher-reconnect grace window at
/// instant `now`: the publisher has been gone (`publish_leave_time` is
/// running) for more than `timeout` milliseconds.
pub open spec fn reap_expired(s: StreamForward, now: u64, timeout: u64) -> bool {
    s.publish_leave_time > 0 && now - s.publish_leave_time > timeout
}

/// The registry of a room's streams.
pub struct Forwarder {
    pub streams: Vec<StreamForward>,
    pub config: ForwarderConfig,
}

impl Forwarder {
    /// Every stream well formed, names pairwise distinct.
    pub open spec fn wf(self) -> bool {
        &&& forall|i: int| 0 <= i < self.streams.len() ==> (#[trigger] self.streams[i]).wf()
        &&& forall|i: int, j: int|
            0 <= i < j < self.streams.len() ==> self.streams[i].name@ != self.streams[j].name@
    }

    /// Whether a stream of this name exists.
    pub open spec fn spec_stream_exists(self, name: Seq<char>) -> bool {
        find_stream(self.streams@, name) is Some
    }

    /// An empty registry.
    pub fn new(config: ForwarderConfig) -> (r: Forwarder)
        ensures
            r.wf(),
            r.streams@.len() == 0,
            r.config == config,
    {
        Forwarder { streams: Vec::new(), config }
    }

    /// Index of the stream with this name, if any.
    fn stream_index(&self, name: &str) -> (r: Option<usize>)
        ensures
            match r {
                Some(i) => find_stream(self.streams@, name@) == Some(i as int),
                None => find_stream(self.streams@, name@) is None,
            },
    {
        proof {
            lemma_find_stream(self.streams@, name@);
        }
        let n = self.streams.len();
        let mut i: usize = 0;
        while i < n
            invariant
                i <= n,
                n == self.streams@.len(),
                forall|j: int| 0 <= j < i ==> (#[trigger] self.streams@[j]).name@ != name@,
            decreases n - i,
        {
            if str_eq(self.streams[i].name.as_str(), name) {
                proof {
                    lemma_find_stream(self.streams@, name@);
                }
                return Some(i);
            }
            i = i + 1;
        }
        proof {
            lemma_find_stream(self.streams@, name@);
        }
        None
    }

    /// Whether a stream of this name exists.
    pub fn is_stream_exists(&self, name: &str) -> (r: bool)
        ensures
            r == self.spec_stream_exists(name@),
    {
        self.stream_index(name).is_some()
    }

    /// Create an empty stream. Fails with `AlreadyExists` on a name
    /// collision.
    pub fn stream_create(&mut self, name: String, now: u64) -> (r: Result<(), RelayError>)
        requires
            old(self).wf(),
        ensures
            final(self).wf(),
            final(self).config == old(self).config,
            r == Err::<(), RelayError>(RelayError::AlreadyExists) <==> old(self).spec_stream_exists(
                name@,
            ),
            r is Err ==> final(self).streams == old(self).streams,
            r is Ok <==> !old(self).spec_stream_exists(name@),
            r is Ok ==> {
                &&& final(self).streams@.len() == old(self).streams@.len() + 1
                &&& forall|k: int|
                    0 <= k < old(self).streams@.len() ==> #[trigger] final(self).streams@[k] == old(
                        self,
                    ).streams@[k]
                &&& final(self).streams@.last().name@ == name@
                &&& final(self).streams@.last().publish is None
                &&& final(self).streams@.last().publish_leave_time == 0
                &&& final(self).streams@.last().subscribe_leave_time == now
                &&& final(self).streams@.last().create_time == now
                &&& final(self).streams@.last().subscribers@.len() == 0
                &&& final(self).streams@.last().tracks@.len() == 0
                &&& final(self).spec_stream_exists(name@)
            },
    {
        match self.stream_index(name.as_str()) {
            Some(_) => Err(RelayError::AlreadyExists),
            None => {
                proof {
                    lemma_find_stream(self.streams@, name@);
                }
                let s = StreamForward::new(name, now);
                self.streams.push(s);
                proof {
                    let post = self.streams@;
                    let n = post.len() - 1;
                    assert(forall|j: int| 0 <= j < n ==> post[j] == old(self).streams@[j]);
                    assert(post[n].name@ == name@);
                    lemma_find_stream(post, name@);
                    assert(find_stream(post, name@) is Some) by {
                        if find_stream(post, name@) is None {
                            assert(post[n].name@ != name@);
                        }
                    };
                }
                Ok(())
            },
        }
    }

    /// Delete a stream and everything in it. Fails with `NotFound` when
    /// no such stream exists.
    pub fn stream_delete(&mut self, name: &str) -> (r: Result<(), RelayError>)
        requires
            old(self).wf(),
        ensures
            final(self).wf(),
            final(self).config == old(self).config,
            r == Err::<(), RelayError>(RelayError::NotFound) <==> !old(self).spec_stream_exists(
                name@,
            ),
            r is Err ==> final(self).streams == old(self).streams,
            r is Ok <==> old(self).spec_stream_exists(name@),
            r is Ok ==> {
                &&& final(self).streams@ == old(self).streams@.remove(
                    find_stream(old(self).streams@, name@)->Some_0,
                )
                &&& !final(self).spec_stream_exists(name@)
            },
    {
        match self.stream_index(name) {
            None => Err(RelayError::NotFound),
            Some(i) => {
                proof {
                    lemma_find_stream(self.streams@, name@);
                }
                self.streams.remove(i);
                proof {
                    let oi = i as int;
                    assert(forall|j: int|
                        0 <= j < self.streams@.len() ==> self.streams@[j] == if j < oi {
                            old(self).streams@[j]
                        } else {
                            old(self).streams@[j + 1]
                        });
                    assert forall|j: int| 0 <= j < self.streams@.len() implies (
                    #[trigger] self.streams@[j]).name@ != name@ by {
                        if j < oi {
                            assert(old(self).streams@[j].name@ != old(self).streams@[oi].name@);
                        } else {
                            assert(old(self).streams@[oi].name@ != old(self).streams@[j + 1].name@);
                        }
                    };
                    lemma_find_stream(self.streams@, name@);
                }
                Ok(())
            },
        }
    }

    /// Install a publisher, creating the stream lazily when it does not
    /// exist. Fails with `AlreadyExists` when the stream already has a
    /// publisher and with `Malformed` when the offer asks for more than
    /// one send transceiver of a kind; a failed request changes nothing —
    /// in particular a lazily created stream is kept only on success.
    pub fn publish(&mut self, name: String, id: u32, session: String, media: MediaSpec, now: u64)
        -> (r: Result<(), RelayError>)
        requires
            old(self).wf(),
        ensures
            final(self).wf(),
            final(self).config == old(self).config,
            r is Ok <==> ((match find_stream(old(self).streams@, name@) {
                Some(g) => old(self).streams@[g].publish is None,
                None => true,
            }) && media.video_send <= 1 && media.audio_send <= 1),
            r is Err ==> final(self).streams@ == old(self).streams@,
            ({
                match find_stream(old(self).streams@, name@) {
                    Some(g) => {
                        &&& (r == Err::<(), RelayError>(RelayError::AlreadyExists) <==> old(
                            self,
                        ).streams@[g].publish is Some)
                        &&& ((old(self).streams@[g].publish is None && (media.video_send > 1
                            || media.audio_send > 1)) <==> r == Err::<(), RelayError>(
                            RelayError::Malformed,
                        ))
                    },
                    None => {
                        &&& (r == Err::<(), RelayError>(RelayError::Malformed) <==> (
                        media.video_send > 1 || media.audio_send > 1))
                        &&& r != Err::<(), RelayError>(RelayError::AlreadyExists)
                    },
                }
            }),
            r is Ok ==> ({
                &&& final(self).spec_stream_exists(name@)
                &&& ({
                    let g = find_stream(final(self).streams@, name@)->Some_0;
                    &&& final(self).streams@[g].publish matches Some(p) && p.session == session
                        && p.id == id && p.media == media && p.state
                        == crate::stream::PeerState::New
                    &&& final(self).streams@[g].publish_leave_time == 0
                    &&& match find_stream(old(self).streams@, name@) {
                        Some(g0) => {
                            &&& g0 == g
                            &&& final(self).streams@.len() == old(self).streams@.len()
                            &&& (forall|k: int|
                                0 <= k < old(self).streams@.len() && k != g
                                    ==> #[trigger] final(self).streams@[k] == old(self).streams@[k])
                            &&& final(self).streams@[g].name == old(self).streams@[g0].name
                            &&& final(self).streams@[g].create_time == old(self).streams@[g0].create_time
                            &&& final(self).streams@[g].tracks == old(self).streams@[g0].tracks
                            &&& final(self).streams@[g].subscribers == old(self).streams@[g0].subscribers
                            &&& final(self).streams@[g].fabric == old(self).streams@[g0].fabric
                            &&& final(self).streams@[g].subscribe_leave_time == old(self).streams@[g0].subscribe_leave_time
                        },
                        None => {
                            &&& g == old(self).streams@.len()
                            &&& final(self).streams@.len() == old(self).streams@.len() + 1
                            &&& (forall|k: int|
                                0 <= k < old(self).streams@.len() ==> #[trigger] final(self).streams@[k] == old(self).streams@[k])
                            &&& final(self).streams@[g].name@ == name@
                            &&& final(self).streams@[g].create_time == now
                            &&& final(self).streams@[g].subscribe_leave_time == now
                            &&& final(self).streams@[g].tracks@.len() == 0
                            &&& final(self).streams@[g].subscribers@.len() == 0
                        },
                    }
                })
            }),
    {
        match self.stream_index(name.as_str()) {
            Some(gi) => {
                proof {
                    lemma_find_stream(self.streams@, name@);
                }
                let ghost pre = *self;
                let mut s = self.streams.remove(gi);
                let r = s.set_publish(session, id, media);
                self.streams.insert(gi, s);
                proof {
                    assert(self.streams@ =~= pre.streams@.update(gi as int, self.streams@[gi as int]));
                    assert(forall|k: int|
                        0 <= k < self.streams@.len() ==> (#[trigger] self.streams@[k]).name@
                            == pre.streams@[k].name@);
                    lemma_find_stream_same_names(self.streams@, pre.streams@, name@);
                    lemma_find_stream(self.streams@, name@);
                    if r is Err {
                        assert(self.streams@ =~= pre.streams@);
                    }
                }
                r
            },
            None => {
                proof {
                    lemma_find_stream(self.streams@, name@);
                }
                let mut fresh = StreamForward::new(name, now);
                let r = fresh.set_publish(session, id, media);
                match r {
                    Ok(()) => {
                        let ghost gi = self.streams@.len() as int;
                        self.streams.push(fresh);
                        proof {
                            let post = self.streams@;
                            assert(forall|j: int| 0 <= j < gi ==> post[j] == old(self).streams@[j]);
                            lemma_find_stream_push_fresh(old(self).streams@, post.last());
                            assert(find_stream(post, name@) == Some(gi));
                        }
                        Ok(())
                    },
                    Err(e) => Err(e),
                }
            },
        }
    }

    /// Admit a subscriber to a stream. Fails with `NotFound` when the
    /// stream does not exist or has no publisher, and with `Malformed`
    /// when the offer asks for more than one receive transceiver of a
    /// kind.
    pub fn subscribe(&mut self, name: &str, id: u32, session: String, media: MediaSpec, now: u64)
        -> (r: Result<(), RelayError>)
        requires
            old(self).wf(),
        ensures
            final(self).wf(),
            final(self).config == old(self).config,
            !old(self).spec_stream_exists(name@) ==> r == Err::<(), RelayError>(
                RelayError::NotFound,
            ) && final(self).streams == old(self).streams,
            r is Ok <==> (old(self).spec_stream_exists(name@) && ({
                let s0 = old(self).streams@[find_stream(old(self).streams@, name@)->Some_0];
                s0.publish is Some && media.video_recv <= 1 && media.audio_recv <= 1
            })),
            r is Err ==> final(self).streams@ == old(self).streams@,
            old(self).spec_stream_exists(name@) ==> ({
                let g = find_stream(old(self).streams@, name@)->Some_0;
                let s0 = old(self).streams@[g];
                &&& (r == Err::<(), RelayError>(RelayError::NotFound) <==> s0.publish is None)
                &&& ((s0.publish is Some && (media.video_recv > 1 || media.audio_recv > 1)) <==> r
                    == Err::<(), RelayError>(RelayError::Malformed))
                &&& (r is Ok ==> ({
                    let s1 = final(self).streams@[g];
                    &&& s1.subscribers@.len() == s0.subscribers@.len() + 1
                    &&& forall|k: int|
                        0 <= k < s0.subscribers@.len() ==> #[trigger] s1.subscribers@[k]
                            == s0.subscribers@[k]
                    &&& s1.subscribers@.last().session == session
                    &&& s1.subscribers@.last().id == id
                    &&& s1.subscribe_leave_time == 0
                    &&& s1.publish == s0.publish
                    &&& s1.tracks == s0.tracks
                    &&& s1.publish_leave_time == s0.publish_leave_time
                    &&& s1.name == s0.name
                    &&& (forall|k: int|
                        0 <= k < old(self).streams@.len() && k != g ==> #[trigger] final(self).streams@[k] == old(self).streams@[k])
                }))
            }),
    {
        let gi = match self.stream_index(name) {
            None => {
                return Err(RelayError::NotFound);
            },
            Some(gi) => gi,
        };
        proof {
            lemma_find_stream(self.streams@, name@);
        }
        let ghost pre = *self;
        let mut s = self.streams.remove(gi);
        let r = s.new_subscribe(session, id, media, now);
        self.streams.insert(gi, s);
        proof {
            assert(self.streams@ =~= pre.streams@.update(gi as int, self.streams@[gi as int]));
            assert(forall|k: int|
                0 <= k < self.streams@.len() ==> (#[trigger] self.streams@[k]).name@
                    == pre.streams@[k].name@);
            if r is Err {
                assert(self.streams@ =~= pre.streams@);
            }
        }
        r
    }

    /// The publisher's transport closed: clear it from its stream and
    /// start the reconnect grace clock. Fails with `NotFound` when the
    /// stream does not exist or the session is not its publisher.
    pub fn remove_publish(&mut self, name: &str, id: u32, session: &str, now: u64) -> (r: Result<
        (),
        RelayError,
    >)
        requires
            old(self).wf(),
            now > 0,
        ensures
            final(self).wf(),
            final(self).config == old(self).config,
            !old(self).spec_stream_exists(name@) ==> r is Err && final(self).streams == old(
                self,
            ).streams,
            old(self).spec_stream_exists(name@) ==> ({
                let g = find_stream(old(self).streams@, name@)->Some_0;
                let s0 = old(self).streams@[g];
                &&& (r is Ok <==> (s0.publish matches Some(p) && p.session@ == session@))
                &&& (r is Ok ==> ({
                    let s1 = final(self).streams@[g];
                    &&& s1.publish is None
                    &&& s1.publish_leave_time == now
                    &&& s1.tracks@.len() == 0
                    &&& forall|k: int|
                        0 <= k < s1.subscribers@.len() ==> (#[trigger] s1.subscribers@[
                            k
                        ]).video.binding is None && s1.subscribers@[k].audio.binding is None
                }))
            }),
    {
        let gi = match self.stream_index(name) {
            None => {
                return Err(RelayError::NotFound);
            },
            Some(gi) => gi,
        };
        proof {
            lemma_find_stream(self.streams@, name@);
        }
        let ghost pre = *self;
        let mut s = self.streams.remove(gi);
        let r = s.remove_publish(id, session, now);
        self.streams.insert(gi, s);
        proof {
            assert(self.streams@ =~= pre.streams@.update(gi as int, self.streams@[gi as int]));
            assert(forall|k: int|
                0 <= k < self.streams@.len() ==> (#[trigger] self.streams@[k]).name@
                    == pre.streams@[k].name@);
        }
        r
    }

    /// A subscriber's transport closed: remove it from its stream — that
    /// subscriber alone leaves, the subscriber-leave clock starts when it
    /// was the last one, and the peer's fabric slot is dropped. Fails with
    /// `NotFound`, changing nothing, when the stream or the session does
    /// not exist.
    pub fn remove_subscribe(&mut self, name: &str, id: u32, session: &str, now: u64) -> (r: Result<
        (),
        RelayError,
    >)
        requires
            old(self).wf(),
            now > 0,
        ensures
            final(self).wf(),
            final(self).config == old(self).config,
            r is Ok <==> (old(self).spec_stream_exists(name@) && crate::stream::find_subscriber(
                old(self).streams@[find_stream(old(self).streams@, name@)->Some_0].subscribers@,
                session@,
            ) is Some),
            r is Err ==> final(self).streams@ == old(self).streams@,
            r is Ok ==> ({
                let g = find_stream(old(self).streams@, name@)->Some_0;
                let s0 = old(self).streams@[g];
                let i = crate::stream::find_subscriber(s0.subscribers@, session@)->Some_0;
                let s1 = final(self).streams@[g];
                &&& s1.subscribers@ == s0.subscribers@.remove(i)
                &&& s1.subscribe_leave_time == if s1.subscribers@.len() == 0 {
                    now
                } else {
                    s0.subscribe_leave_time
                }
                &&& s1.publish == s0.publish
                &&& s1.tracks == s0.tracks
                &&& s1.publish_leave_time == s0.publish_leave_time
                &&& s1.name == s0.name
                &&& !s1.fabric.has_peer(id)
                &&& (forall|k: int|
                    0 <= k < old(self).streams@.len() && k != g ==> #[trigger] final(self).streams@[k] == old(self).streams@[k])
            }),
    {
        let gi = match self.stream_index(name) {
            None => {
                return Err(RelayError::NotFound);
            },
            Some(gi) => gi,
        };
        proof {
            lemma_find_stream(self.streams@, name@);
        }
        let ghost pre = *self;
        let mut s = self.streams.remove(gi);
        let r = s.remove_subscribe(id, session, now);
        self.streams.insert(gi, s);
        proof {
            assert(self.streams@ =~= pre.streams@.update(gi as int, self.streams@[gi as int]));
            assert(forall|k: int|
                0 <= k < self.streams@.len() ==> (#[trigger] self.streams@[k]).name@
                    == pre.streams@[k].name@);
            crate::stream::lemma_find_subscriber(
                pre.streams@[gi as int].subscribers@,
                session@,
            );
            if r is Err {
                assert(self.streams@ =~= pre.streams@);
            }
        }
        r
    }

    /// Record a simulcast layer selection (`None` returns to the default
    /// layer) for a subscriber's video and rebind it. Fails with
    /// `NotFound`, changing nothing, when the stream does not exist; an
    /// unknown session is ignored, as the dispatch loop does.
    pub fn select_layer(&mut self, name: &str, session: &str, rid: Option<String>) -> (r: Result<
        (),
        RelayError,
    >)
        requires
            old(self).wf(),
        ensures
            final(self).wf(),
            final(self).config == old(self).config,
            r is Ok <==> old(self).spec_stream_exists(name@),
            r is Err ==> final(self).streams@ == old(self).streams@,
            r is Ok ==> ({
                let g = find_stream(old(self).streams@, name@)->Some_0;
                &&& select_effect(
                    old(self).streams@[g],
                    final(self).streams@[g],
                    session@,
                    TrackKind::Video,
                    match rid {
                        Some(x) => Some(x@),
                        None => None::<Seq<char>>,
                    },
                )
                &&& (forall|k: int|
                    0 <= k < old(self).streams@.len() && k != g ==> #[trigger] final(self).streams@[k] == old(self).streams@[k])
            }),
    {
        let gi = match self.stream_index(name) {
            None => {
                return Err(RelayError::NotFound);
            },
            Some(gi) => gi,
        };
        proof {
            lemma_find_stream(self.streams@, name@);
        }
        let ghost pre = *self;
        let mut s = self.streams.remove(gi);
        let _found = s.select_kind_rid(session, TrackKind::Video, rid);
        self.streams.insert(gi, s);
        proof {
            assert(self.streams@ =~= pre.streams@.update(gi as int, self.streams@[gi as int]));
            assert(forall|k: int|
                0 <= k < self.streams@.len() ==> (#[trigger] self.streams@[k]).name@
                    == pre.streams@[k].name@);
        }
        Ok(())
    }

    /// The selectable video layer ids of a stream. Fails with `NotFound`
    /// when the stream does not exist or its publisher offers no layered
    /// video.
    pub fn layers(&self, name: &str) -> (r: Result<Vec<String>, RelayError>)
        requires
            self.wf(),
        ensures
            r is Ok <==> (self.spec_stream_exists(name@) && (self.streams@[find_stream(
                self.streams@,
                name@,
            )->Some_0].publish matches Some(p) && p.media.video_simulcast)),
            r matches Ok(v) ==> svc_rids_spec(
                self.streams@[find_stream(self.streams@, name@)->Some_0].tracks@,
                v@,
            ),
    {
        let gi = match self.stream_index(name) {
            None => {
                return Err(RelayError::NotFound);
            },
            Some(gi) => gi,
        };
        proof {
            lemma_find_stream(self.streams@, name@);
        }
        if !self.streams[gi].publish_is_svc() {
            return Err(RelayError::NotFound);
        }
        Ok(self.streams[gi].publish_svc_rids())
    }

    /// Whether a stream's publisher is installed with its transport last
    /// reported connected. Fails with `NotFound` when the stream does not
    /// exist.
    pub fn publish_is_ok(&self, name: &str) -> (r: Result<bool, RelayError>)
        ensures
            r is Err <==> !self.spec_stream_exists(name@),
            r matches Ok(b) ==> b == (self.streams@[find_stream(self.streams@, name@)->Some_0].publish
                matches Some(p) && p.state == PeerState::Connected),
    {
        match self.stream_index(name) {
            None => Err(RelayError::NotFound),
            Some(gi) => {
                proof {
                    lemma_find_stream(self.streams@, name@);
                }
                Ok(self.streams[gi].publish_is_ok())
            },
        }
    }

    /// Record the connection state the transport reports for a stream's
    /// publisher. Fails with `NotFound` when the stream does not exist;
    /// returns whether the session named the installed publisher.
    pub fn publish_state_changed(&mut self, name: &str, session: &str, s: PeerState) -> (r: Result<
        bool,
        RelayError,
    >)
        requires
            old(self).wf(),
        ensures
            final(self).wf(),
            final(self).config == old(self).config,
            r is Err <==> !old(self).spec_stream_exists(name@),
            r is Err ==> final(self).streams == old(self).streams,
            old(self).spec_stream_exists(name@) ==> ({
                let g = find_stream(old(self).streams@, name@)->Some_0;
                let s0 = old(self).streams@[g];
                &&& (r == Ok::<bool, RelayError>(true) <==> (s0.publish matches Some(p) && p.session@
                    == session@))
                &&& (r == Ok::<bool, RelayError>(false) ==> final(self).streams@ == old(self).streams@)
                &&& (r == Ok::<bool, RelayError>(true) ==> ({
                    let s1 = final(self).streams@[g];
                    &&& s1.publish matches Some(p1) && s0.publish matches Some(p0) && p1.session
                        == p0.session && p1.id == p0.id && p1.media == p0.media && p1.state == s
                    &&& s1.name == s0.name
                    &&& s1.tracks == s0.tracks
                    &&& s1.subscribers == s0.subscribers
                    &&& s1.fabric == s0.fabric
                    &&& s1.publish_leave_time == s0.publish_leave_time
                    &&& s1.subscribe_leave_time == s0.subscribe_leave_time
                    &&& (forall|k: int|
                        0 <= k < old(self).streams@.len() && k != g ==> #[trigger] final(self).streams@[k] == old(self).streams@[k])
                }))
            }),
    {
        let gi = match self.stream_index(name) {
            None => {
                return Err(RelayError::NotFound);
            },
            Some(gi) => gi,
        };
        proof {
            lemma_find_stream(self.streams@, name@);
        }
        let ghost pre = *self;
        let mut st = self.streams.remove(gi);
        let found = st.publish_state_changed(session, s);
        self.streams.insert(gi, st);
        proof {
            assert(self.streams@ =~= pre.streams@.update(gi as int, self.streams@[gi as int]));
            assert(forall|k: int|
                0 <= k < self.streams@.len() ==> (#[trigger] self.streams@[k]).name@
                    == pre.streams@[k].name@);
            if !found {
                assert(self.streams@ =~= pre.streams@);
            }
        }
        Ok(found)
    }

    /// Snapshot one stream. Fails with `NotFound` when it does not exist.
    pub fn stream_info(&self, name: &str) -> (r: Result<StreamInfo, RelayError>)
        ensures
            r is Err <==> !self.spec_stream_exists(name@),
            r matches Ok(info) ==> ({
                let s = self.streams@[find_stream(self.streams@, name@)->Some_0];
                &&& info.id@ == s.name@
                &&& info.create_time == s.create_time
                &&& info.publish_leave_time == s.publish_leave_time
                &&& info.subscribe_leave_time == s.subscribe_leave_time
            }),
    {
        match self.stream_index(name) {
            None => Err(RelayError::NotFound),
            Some(gi) => {
                proof {
                    lemma_find_stream(self.streams@, name@);
                }
                Ok(self.streams[gi].info())
            },
        }
    }

    /// Snapshot every stream.
    pub fn forward_infos(&self) -> (r: Vec<StreamInfo>)
        ensures
            r@.len() == self.streams@.len(),
            forall|k: int|
                0 <= k < self.streams@.len() ==> (#[trigger] r@[k]).id@ == self.streams@[k].name@
                    && r@[k].publish_leave_time == self.streams@[k].publish_leave_time,
    {
        let mut out: Vec<StreamInfo> = Vec::new();
        let n = self.streams.len();
        let mut k: usize = 0;
        while k < n
            invariant
                k <= n,
                n == self.streams@.len(),
                out@.len() == k,
                forall|j: int|
                    0 <= j < k ==> (#[trigger] out@[j]).id@ == self.streams@[j].name@
                        && out@[j].publish_leave_time == self.streams@[j].publish_leave_time,
            decreases n - k,
        {
            out.push(self.streams[k].info());
            k = k + 1;
        }
        out
    }


    /// Snapshot the streams whose names the filter lists; an empty filter
    /// means every stream, as the admission surface's info route does.
    pub fn forward_infos_filtered(&self, names: &Vec<String>) -> (r: Vec<StreamInfo>)
        ensures
            forall|a: int|
                0 <= a < r@.len() ==> info_from_listed(self.streams@, names@, #[trigger] r@[a]),
            forall|k: int|
                0 <= k < self.streams@.len() && (names@.len() == 0 || crate::group::has_name(
                    names@,
                    (#[trigger] self.streams@[k]).name@,
                )) ==> exists|a: int| 0 <= a < r@.len() && stream_info_of(#[trigger] r@[a], self.streams@[k]),
    {
        let mut out: Vec<StreamInfo> = Vec::new();
        let ghost mut srcs: Seq<int> = Seq::empty();
        let n = self.streams.len();
        let empty_filter = names.len() == 0;
        let mut k: usize = 0;
        while k < n
            invariant
                k <= n,
                n == self.streams@.len(),
                empty_filter == (names@.len() == 0),
                srcs.len() == out@.len(),
                forall|a: int|
                    0 <= a < out@.len() ==> {
                        &&& 0 <= #[trigger] srcs[a] < n
                        &&& (names@.len() == 0 || crate::group::has_name(
                            names@,
                            self.streams@[srcs[a]].name@,
                        ))
                        &&& stream_info_of(out@[a], self.streams@[srcs[a]])
                    },
                forall|j: int|
                    0 <= j < k && (names@.len() == 0 || crate::group::has_name(
                        names@,
                        (#[trigger] self.streams@[j]).name@,
                    )) ==> exists|a: int|
                        0 <= a < out@.len() && stream_info_of(#[trigger] out@[a], self.streams@[j]),
            decreases n - k,
        {
            let listed = if empty_filter {
                true
            } else {
                name_listed(names, self.streams[k].name.as_str())
            };
            if listed {
                let ghost preout = out@;
                out.push(self.streams[k].info());
                proof {
                    srcs = srcs.push(k as int);
                    assert(forall|a: int| 0 <= a < preout.len() ==> out@[a] == preout[a]);
                    assert(stream_info_of(out@[out@.len() - 1], self.streams@[k as int]));
                    assert forall|j: int|
                        0 <= j < k + 1 && (names@.len() == 0 || crate::group::has_name(
                            names@,
                            (#[trigger] self.streams@[j]).name@,
                        )) implies exists|a: int|
                        0 <= a < out@.len() && stream_info_of(#[trigger] out@[a], self.streams@[j]) by {
                        if j < k {
                            let a = choose|a: int|
                                0 <= a < preout.len() && stream_info_of(
                                    #[trigger] preout[a],
                                    self.streams@[j],
                                );
                            assert(stream_info_of(out@[a], self.streams@[j]));
                        } else {
                            assert(stream_info_of(out@[out@.len() - 1], self.streams@[j]));
                        }
                    };
                }
            }
            k = k + 1;
        }
        proof {
            assert forall|a: int| 0 <= a < out@.len() implies info_from_listed(
                self.streams@,
                names@,
                #[trigger] out@[a],
            ) by {
                let j = srcs[a];
                assert(0 <= j < self.streams@.len() && (names@.len() == 0
                    || crate::group::has_name(names@, self.streams@[j].name@)) && stream_info_of(
                    out@[a],
                    #[trigger] self.streams@[j],
                ));
            };
        }
        out
    }

    /// One reaper pass at instant `now`: every stream whose publisher has
    /// been gone for more than the configured grace window is removed;
    /// every other stream survives untouched. After the pass no stream in
    /// the registry has exceeded the window.
    #[verifier::spinoff_prover]
    #[verifier::rlimit(60)]
    pub fn reap(&mut self, now: u64)
        requires
            old(self).wf(),
        ensures
            final(self).wf(),
            final(self).config == old(self).config,
            // nothing over the window remains
            forall|k: int|
                0 <= k < final(self).streams@.len() ==> !reap_expired(
                    #[trigger] final(self).streams@[k],
                    now,
                    old(self).config.publish_leave_timeout,
                ),
            // a stream over the window is gone
            forall|k: int|
                0 <= k < old(self).streams@.len() && reap_expired(
                    #[trigger] old(self).streams@[k],
                    now,
                    old(self).config.publish_leave_timeout,
                ) ==> !final(self).spec_stream_exists(old(self).streams@[k].name@),
            // a stream within the window survives, untouched
            forall|k: int|
                0 <= k < old(self).streams@.len() && !reap_expired(
                    #[trigger] old(self).streams@[k],
                    now,
                    old(self).config.publish_leave_timeout,
                ) ==> exists|g: int|
                    0 <= g < final(self).streams@.len() && final(self).streams@[g] == old(
                        self,
                    ).streams@[k],
            // and nothing else appears
            forall|g: int|
                0 <= g < final(self).streams@.len() ==> exists|k: int|
                    0 <= k < old(self).streams@.len() && old(self).streams@[k] == #[trigger] final(self).streams@[g],
    {
        let ghost timeout = self.config.publish_leave_timeout;
        let ghost n0 = self.streams@.len() as int;
        let mut kept: Vec<StreamForward> = Vec::new();
        let ghost mut srcs: Seq<int> = Seq::empty();
        let ghost mut dst: Seq<Option<int>> = Seq::new(n0 as nat, |j: int| None::<int>);
        proof {
            assert(self.streams@ =~= old(self).streams@.take(self.streams@.len() as int));
        }
        loop
            invariant
                timeout == self.config.publish_leave_timeout,
                self.config == old(self).config,
                n0 == old(self).streams@.len(),
                self.streams@.len() <= n0,
                self.streams@ == old(self).streams@.take(self.streams@.len() as int),
                srcs.len() == kept@.len(),
                dst.len() == n0,
                forall|a: int|
                    0 <= a < kept@.len() ==> {
                        &&& self.streams@.len() <= #[trigger] srcs[a] < n0
                        &&& old(self).streams@[srcs[a]] == kept@[a]
                        &&& !reap_expired(kept@[a], now, timeout)
                    },
                forall|a: int, b: int| 0 <= a < b < srcs.len() ==> srcs[a] > srcs[b],
                forall|j: int|
                    self.streams@.len() <= j < n0 && !reap_expired(
                        #[trigger] old(self).streams@[j],
                        now,
                        timeout,
                    ) ==> (dst[j] matches Some(a) && 0 <= a < kept@.len() && srcs[a] == j),
                forall|j: int|
                    self.streams@.len() <= j < n0 && reap_expired(
                        #[trigger] old(self).streams@[j],
                        now,
                        timeout,
                    ) ==> forall|a: int| 0 <= a < srcs.len() ==> srcs[a] != j,
            ensures
                self.streams@.len() == 0,
                self.config == old(self).config,
                srcs.len() == kept@.len(),
                dst.len() == n0,
                forall|a: int|
                    0 <= a < kept@.len() ==> {
                        &&& 0 <= #[trigger] srcs[a] < n0
                        &&& old(self).streams@[srcs[a]] == kept@[a]
                        &&& !reap_expired(kept@[a], now, timeout)
                    },
                forall|a: int, b: int| 0 <= a < b < srcs.len() ==> srcs[a] > srcs[b],
                forall|j: int|
                    0 <= j < n0 && !reap_expired(#[trigger] old(self).streams@[j], now, timeout)
                        ==> (dst[j] matches Some(a) && 0 <= a < kept@.len() && srcs[a] == j),
                forall|j: int|
                    0 <= j < n0 && reap_expired(#[trigger] old(self).streams@[j], now, timeout)
                        ==> forall|a: int| 0 <= a < srcs.len() ==> srcs[a] != j,
            decreases self.streams@.len(),
        {
            let m = self.streams.len();
            if m == 0 {
                break ;
            }
            let ghost prestreams = self.streams@;
            let s = match self.streams.pop() {
                Some(s) => s,
                None => {
                    proof {
                        assert(false);
                    }
                    break ;
                },
            };
            proof {
                assert(prestreams == old(self).streams@.take(m as int));
                assert(prestreams.len() == m);
                assert(prestreams.drop_last() =~= old(self).streams@.take(m - 1));
                assert(prestreams.last() == old(self).streams@.take(m as int)[m - 1]);
                assert(s == old(self).streams@[m - 1]);
                assert(self.streams@ =~= old(self).streams@.take(self.streams@.len() as int));
            }
            let expired_now = s.publish_leave_time > 0 && now > s.publish_leave_time && now
                - s.publish_leave_time > self.config.publish_leave_timeout;
            proof {
                assert(expired_now == reap_expired(old(self).streams@[m - 1], now, timeout));
            }
            if !expired_now {
                let ghost prekept = kept@;
                kept.push(s);
                proof {
                    srcs = srcs.push(m - 1);
                    dst = dst.update(m - 1, Some(prekept.len() as int));
                    assert(forall|a: int| 0 <= a < prekept.len() ==> kept@[a] == prekept[a]);
                    assert(kept@[kept@.len() - 1] == old(self).streams@[m - 1]);
                    assert(srcs[srcs.len() - 1] == m - 1);
                }
            } else {
                proof {
                    dst = dst.update(m - 1, None::<int>);
                }
            }
        }
        let ghost keptv = kept@;
        self.streams = kept;
        proof {
            let tmo = old(self).config.publish_leave_timeout;
            assert(self.streams@ == keptv);
            // nothing over the window remains among the kept streams
            assert forall|k: int| 0 <= k < self.streams@.len() implies !reap_expired(
                #[trigger] self.streams@[k],
                now,
                tmo,
            ) by {
                let sk = srcs[k];
                assert(!reap_expired(keptv[k], now, timeout));
            };
            // each kept stream is one of the old, well-formed streams
            assert forall|i: int| 0 <= i < keptv.len() implies (#[trigger] keptv[i]).wf() by {
                let si = srcs[i];
                assert(0 <= si < n0);
                assert(old(self).streams@[si].wf());
            };
            // names among the kept streams are pairwise distinct
            assert forall|i: int, j: int| 0 <= i < j < keptv.len() implies keptv[i].name@
                != keptv[j].name@ by {
                let si = srcs[i];
                let sj = srcs[j];
                assert(0 <= si < n0 && 0 <= sj < n0);
                assert(sj < si);
                assert(old(self).streams@[sj].name@ != old(self).streams@[si].name@);
            };
            // a stream over the window is gone: no kept stream carries its name
            assert forall|k: int|
                0 <= k < old(self).streams@.len() && reap_expired(
                    #[trigger] old(self).streams@[k],
                    now,
                    tmo,
                ) implies !self.spec_stream_exists(old(self).streams@[k].name@) by {
                let name = old(self).streams@[k].name@;
                lemma_find_stream(self.streams@, name);
                if find_stream(self.streams@, name) is Some {
                    let g = find_stream(self.streams@, name)->Some_0;
                    assert(keptv[g].name@ == name);
                    assert(srcs[g] != k);
                    assert(old(self).streams@[srcs[g]].name@ == name);
                    if srcs[g] < k {
                        assert(old(self).streams@[srcs[g]].name@ != old(self).streams@[k].name@);
                    } else {
                        assert(old(self).streams@[k].name@ != old(self).streams@[srcs[g]].name@);
                    }
                }
            };
            // a stream within the window survives, untouched
            assert forall|k: int|
                0 <= k < old(self).streams@.len() && !reap_expired(
                    #[trigger] old(self).streams@[k],
                    now,
                    tmo,
                ) implies exists|g: int|
                0 <= g < self.streams@.len() && self.streams@[g] == old(self).streams@[k] by {
                let a = dst[k]->Some_0;
                assert(0 <= a < keptv.len() && srcs[a] == k);
                assert(self.streams@[a] == old(self).streams@[k]);
            };
            // and nothing else appears
            assert forall|g: int| 0 <= g < self.streams@.len() implies exists|k: int|
                0 <= k < old(self).streams@.len() && old(self).streams@[k] == #[trigger] self.streams@[
                    g
                ] by {
                assert(old(self).streams@[srcs[g]] == self.streams@[g]);
            };
        }
    }
}




/// A name absent from the registry stays absent through a deletion.
pub proof fn lemma_absent_after_delete(pre: Forwarder, post: Forwarder, n: Seq<char>)
    requires
        find_stream(pre.streams@, n) is None,
        post.streams@ == pre.streams@ || (exists|g: int|
            0 <= g < pre.streams@.len() && post.streams@ == #[trigger] pre.streams@.remove(g)),
    ensures
        find_stream(post.streams@, n) is None,
{
    lemma_find_stream(pre.streams@, n);
    lemma_find_stream(post.streams@, n);
    if post.streams@ != pre.streams@ {
        let g = choose|g: int|
            0 <= g < pre.streams@.len() && post.streams@ == #[trigger] pre.streams@.remove(g);
        if find_stream(post.streams@, n) is Some {
            let i = find_stream(post.streams@, n)->Some_0;
            if i < g {
                assert(post.streams@[i] == pre.streams@[i]);
            } else {
                assert(post.streams@[i] == pre.streams@[i + 1]);
            }
        }
    }
}

/// Whether a snapshot entry stems from some stream that passes the name
/// filter (an empty filter passes everything).
pub open spec fn info_from_listed(
    streams: Seq<StreamForward>,
    names: Seq<String>,
    info: StreamInfo,
) -> bool {
    exists|k: int|
        0 <= k < streams.len() && (names.len() == 0 || crate::group::has_name(
            names,
            streams[k].name@,
        )) && stream_info_of(info, #[trigger] streams[k])
}

/// Whether the snapshot carries the stream's identity and timestamps.
pub open spec fn stream_info_of(info: StreamInfo, s: StreamForward) -> bool {
    &&& info.id@ == s.name@
    &&& info.create_time == s.create_time
    &&& info.publish_leave_time == s.publish_leave_time
    &&& info.subscribe_leave_time == s.subscribe_leave_time
}

/// Whether a list of names holds `n`.
fn name_listed(names: &Vec<String>, n: &str) -> (r: bool)
    ensures
        r == crate::group::has_name(names@, n@),
{
    let ln = names.len();
    let mut i: usize = 0;
    while i < ln
        invariant
            i <= ln,
            ln == names@.len(),
            forall|j: int| 0 <= j < i ==> (#[trigger] names@[j])@ != n@,
        decreases ln - i,
    {
        if str_eq(names[i].as_str(), n) {
            proof {
                assert((names@[i as int])@ == n@);
            }
            return true;
        }
        i = i + 1;
    }
    false
}

/// Pushing a stream whose name no existing stream carries resolves the
/// new name to the new slot.
proof fn lemma_find_stream_push_fresh(ss: Seq<StreamForward>, e: StreamForward)
    requires
        find_stream(ss, e.name@) is None,
    ensures
        find_stream(ss.push(e), e.name@) == Some(ss.len() as int),
    decreases ss.len(),
{
    assert(ss.push(e).len() == ss.len() + 1);
    if ss.len() == 0 {
        assert(ss.push(e)[0] == e);
    } else {
        assert(ss[0].name@ != e.name@);
        assert(ss.push(e)[0] == ss[0]);
        assert(ss.push(e).skip(1) =~= ss.skip(1).push(e));
        lemma_find_stream_push_fresh(ss.skip(1), e);
    }
}

/// `find_stream` only looks at names.
proof fn lemma_find_stream_same_names(a: Seq<StreamForward>, b: Seq<StreamForward>, n: Seq<char>)
    requires
        a.len() == b.len(),
        forall|k: int| 0 <= k < a.len() ==> (#[trigger] a[k]).name@ == b[k].name@,
    ensures
        find_stream(a, n) == find_stream(b, n),
    decreases a.len(),
{
    if a.len() > 0 {
        assert(a[0].name@ == b[0].name@);
        if a[0].name@ != n {
            assert(forall|k: int|
                0 <= k < a.skip(1).len() ==> (#[trigger] a.skip(1)[k]).name@ == b.skip(1)[k].name@);
            lemma_find_stream_same_names(a.skip(1), b.skip(1), n);
        }
    }
}

} // verus!
