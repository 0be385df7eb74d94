//! Per-subscriber, per-kind forwarding machine.
//!
//! For each media kind a subscriber is either unbound or bound to one
//! published track, identified by its simulcast layer id (`rid`). A bound
//! machine copies each incoming packet to the outgoing track, overwriting
//! the sequence number with its own counter, which increments by one per
//! forwarded packet and wraps at 2^16. The counter survives rebinds so the
//! downstream decoder sees a continuous sequence. The reserved layer id
//! `"disabled"` mutes the kind.

use vstd::prelude::*;
use crate::text::str_eq;

verus! {

/// The two media kinds a stream can carry.
#[derive(Clone, Copy, PartialEq, Eq, Structural, Debug)]
pub enum TrackKind {
    Audio,
    Video,
}

/// Descriptor of one published track: its kind, simulcast layer id
/// (empty when the publication is not layered) and RTP source id.
pub struct TrackInfo {
    pub kind: TrackKind,
    pub rid: String,
    pub ssrc: u32,
}

/// The parts of an RTP packet the forwarding engine reads or rewrites.
/// Only the sequence number is replaced; everything else is passed on.
pub struct RtpPacket {
    pub sequence_number: u16,
    pub timestamp: u32,
    pub ssrc: u32,
    pub payload_type: u8,
    pub marker: bool,
    pub payload: Vec<u8>,
}

/// A live binding: the layer id and RTP source of the bound track.
pub struct Binding {
    pub rid: String,
    pub ssrc: u32,
}

/// What a track-list change asks the transport layer to do.
#[derive(Clone, Copy, PartialEq, Eq, Structural, Debug)]
pub enum BindAction {
    /// Nothing changed.
    Keep,
    /// Replace the outgoing track with nothing.
    Unbind,
    /// Install a local track copying `tracks[index]`, subscribe to its
    /// fanout, and request a key frame for `ssrc`.
    Bind { index: usize, ssrc: u32 },
}

/// The reserved layer id that mutes a kind.
pub open spec fn disabled_rid() -> Seq<char> {
    "disabled"@
}

/// Sequence counter increment, wrapping at 2^16.
pub open spec fn wrap_inc(c: u16) -> u16 {
    ((c + 1) % 0x10000) as u16
}

/// Counter value after `n` forwarded packets starting from `c`.
pub open spec fn seq_after(c: u16, n: nat) -> u16 {
    ((c + n) % 0x10000) as u16
}

/// Successive forwarded packets carry consecutive sequence numbers modulo
/// 2^16: the counter after `n + 1` packets is the wrapped increment of the
/// counter after `n`, starting from the machine's counter, and the wrap
/// takes 65535 to 0.
pub proof fn lemma_sequence_progression(c: u16, n: nat)
    ensures
        seq_after(c, 0) == c,
        seq_after(c, n + 1) == wrap_inc(seq_after(c, n)),
        c == 65535 ==> wrap_inc(c) == 0,
{
    assert(seq_after(c, 0) == c) by {
        assert((c + 0) % 0x10000 == c);
    };
    let m = 0x10000 as int;
    let a = c + n;
    vstd::arithmetic::div_mod::lemma_add_mod_noop(a as int, 1int, m);
    assert(1int % m == 1);
    assert(seq_after(c, n + 1) == wrap_inc(seq_after(c, n)));
}

/// Whether a track can satisfy a binding request for `kind` under the
/// layer selection `sel` (`None` means any layer).
pub open spec fn track_matches(t: TrackInfo, kind: TrackKind, sel: Option<Seq<char>>) -> bool {
    t.kind == kind && match sel {
        Some(r) => t.rid@ == r,
        None => true,
    }
}

/// Smallest index of a track matching `kind` under `sel`.
pub open spec fn first_match(tracks: Seq<TrackInfo>, kind: TrackKind, sel: Option<Seq<char>>) -> Option<int>
    decreases tracks.len(),
{
    if tracks.len() == 0 {
        None
    } else if track_matches(tracks[0], kind, sel) {
        Some(0)
    } else {
        match first_match(tracks.skip(1), kind, sel) {
            Some(i) => Some(i + 1),
            None => None,
        }
    }
}

/// `first_match` returns the least matching index, or `None` exactly when
/// nothing matches.
pub proof fn lemma_first_match(tracks: Seq<TrackInfo>, kind: TrackKind, sel: Option<Seq<char>>)
    ensures
        match first_match(tracks, kind, sel) {
            Some(i) => 0 <= i < tracks.len() && track_matches(tracks[i], kind, sel) && forall|j: int|
                0 <= j < i ==> !track_matches(tracks[j], kind, sel),
            None => forall|j: int| 0 <= j < tracks.len() ==> !track_matches(tracks[j], kind, sel),
        },
    decreases tracks.len(),
{
    if tracks.len() > 0 && !track_matches(tracks[0], kind, sel) {
        let rest = tracks.skip(1);
        lemma_first_match(rest, kind, sel);
        assert(forall|j: int| 0 <= j < rest.len() ==> rest[j] == tracks[j + 1]);
        match first_match(rest, kind, sel) {
            Some(i) => {
                assert(first_match(tracks, kind, sel) == Some(i + 1));
                assert(track_matches(tracks[i + 1], kind, sel));
                assert(forall|j: int| 1 <= j < i + 1 ==> !track_matches(
                    #[trigger] tracks[j],
                    kind,
                    sel,
                )) by {
                    assert(forall|j: int| 0 <= j < i ==> !track_matches(#[trigger] rest[j], kind, sel));
                    assert(forall|j: int| 1 <= j < i + 1 ==> tracks[j] == rest[j - 1]);
                };
            },
            None => {
                assert(forall|j: int| 1 <= j < tracks.len() ==> !track_matches(
                    #[trigger] tracks[j],
                    kind,
                    sel,
                )) by {
                    assert(forall|j: int| 1 <= j < tracks.len() ==> tracks[j] == rest[j - 1]);
                };
            },
        }
    }
}

/// The index the machine should bind to, given the current track list:
/// `None` when the kind is muted or nothing suits; otherwise the first
/// track carrying the selected layer, falling back to the first track of
/// the kind when no selection is in force or the selected layer is absent.
pub open spec fn desired_index(
    tracks: Seq<TrackInfo>,
    kind: TrackKind,
    sel: Option<Seq<char>>,
) -> Option<int> {
    if sel == Some(disabled_rid()) {
        None
    } else if sel is Some && first_match(tracks, kind, sel) is Some {
        first_match(tracks, kind, sel)
    } else {
        first_match(tracks, kind, None)
    }
}

/// Forwarding machine for one (subscriber, kind) pair.
pub struct KindForwarder {
    pub kind: TrackKind,
    pub binding: Option<Binding>,
    pub selected_rid: Option<String>,
    pub seq: u16,
}

impl KindForwarder {
    /// The layer selection in force, as a character view.
    pub open spec fn selected_view(self) -> Option<Seq<char>> {
        match self.selected_rid {
            Some(r) => Some(r@),
            None => None,
        }
    }

    /// The layer id bound, as a character view.
    pub open spec fn binding_rid_view(self) -> Option<Seq<char>> {
        match self.binding {
            Some(b) => Some(b.rid@),
            None => None,
        }
    }

    /// A fresh machine: unbound, no selection, counter at zero.
    pub fn new(kind: TrackKind) -> (r: KindForwarder)
        ensures
            r.kind == kind,
            r.binding is None,
            r.selected_view() is None,
            r.seq == 0,
    {
        KindForwarder { kind, binding: None, selected_rid: None, seq: 0 }
    }

    /// Record a layer selection (`None` returns to the default layer).
    /// The binding and the sequence counter are untouched until the next
    /// track-list change.
    pub fn select_rid(&mut self, rid: Option<String>)
        ensures
            final(self).kind == old(self).kind,
            final(self).seq == old(self).seq,
            final(self).binding == old(self).binding,
            final(self).selected_view() == match rid {
                Some(r) => Some(r@),
                None => None::<Seq<char>>,
            },
    {
        self.selected_rid = rid;
    }

    /// Forward one packet. Unbound: nothing is emitted and nothing
    /// changes. Bound: the packet is emitted with its sequence number
    /// replaced by the counter, every other field preserved, and the
    /// counter advances by one, wrapping at 2^16.
    pub fn forward(&mut self, p: RtpPacket) -> (r: Option<RtpPacket>)
        ensures
            final(self).kind == old(self).kind,
            final(self).binding == old(self).binding,
            final(self).selected_rid == old(self).selected_rid,
            old(self).binding is None ==> r is None && final(self).seq == old(self).seq,
            old(self).binding is Some ==> {
                &&& final(self).seq == wrap_inc(old(self).seq)
                &&& r matches Some(q) && q.sequence_number == old(self).seq && q.timestamp
                    == p.timestamp && q.ssrc == p.ssrc && q.payload_type == p.payload_type
                    && q.marker == p.marker && q.payload == p.payload
            },
    {
        if self.binding.is_none() {
            return None;
        }
        let mut q = p;
        q.sequence_number = self.seq;
        self.seq = if self.seq == 65535 {
            0
        } else {
            self.seq + 1
        };
        Some(q)
    }

    /// React to a change of the published track list. The machine binds
    /// to the track `desired_index` picks, unbinds when there is none,
    /// and keeps an existing binding whose layer id still matches. The
    /// sequence counter and the selection are always preserved.
    pub fn on_tracks_change(&mut self, tracks: &Vec<TrackInfo>) -> (r: BindAction)
        ensures
            final(self).kind == old(self).kind,
            final(self).seq == old(self).seq,
            final(self).selected_rid == old(self).selected_rid,
            ({
                let desired = desired_index(tracks@, old(self).kind, old(self).selected_view());
                match desired {
                    None => {
                        &&& final(self).binding is None
                        &&& r == if old(self).binding is Some {
                            BindAction::Unbind
                        } else {
                            BindAction::Keep
                        }
                    },
                    Some(i) => {
                        &&& track_matches(tracks@[i], old(self).kind, if old(self).selected_view()
                            == Some(disabled_rid()) {
                            None
                        } else {
                            old(self).selected_view()
                        }) || tracks@[i].kind == old(self).kind
                        &&& tracks@[i].kind == old(self).kind
                        &&& if old(self).binding_rid_view() == Some(tracks@[i].rid@) {
                            r == BindAction::Keep && final(self).binding == old(self).binding
                        } else {
                            &&& r == (BindAction::Bind { index: i as usize, ssrc: tracks@[i].ssrc })
                            &&& final(self).binding_rid_view() == Some(tracks@[i].rid@)
                            &&& final(self).binding matches Some(b) && b.ssrc == tracks@[i].ssrc
                        }
                    },
                }
            }),
    {
        let ghost sel = self.selected_view();
        let disabled = match &self.selected_rid {
            Some(s) => str_eq(s.as_str(), "disabled"),
            None => false,
        };
        let desired: Option<usize> = if disabled {
            None
        } else {
            let by_sel = match &self.selected_rid {
                Some(s) => Self::find_first(tracks, self.kind, Some(s)),
                None => None,
            };
            proof {
                if self.selected_rid is None {
                    assert(desired_index(tracks@, self.kind, sel) == first_match(
                        tracks@,
                        self.kind,
                        None,
                    ));
                }
            }
            match by_sel {
                Some(i) => Some(i),
                None => Self::find_first(tracks, self.kind, None),
            }
        };
        proof {
            lemma_first_match(tracks@, self.kind, sel);
            lemma_first_match(tracks@, self.kind, None);
        }
        match desired {
            None => {
                let was_bound = self.binding.is_some();
                self.binding = None;
                if was_bound {
                    BindAction::Unbind
                } else {
                    BindAction::Keep
                }
            },
            Some(i) => {
                let same = match &self.binding {
                    Some(b) => str_eq(b.rid.as_str(), tracks[i].rid.as_str()),
                    None => false,
                };
                if same {
                    BindAction::Keep
                } else {
                    let ssrc = tracks[i].ssrc;
                    self.binding = Some(Binding { rid: tracks[i].rid.clone(), ssrc });
                    BindAction::Bind { index: i, ssrc }
                }
            },
        }
    }

    /// Smallest index of a track of `kind` whose layer id equals `sel`
    /// (any layer when `sel` is `None`).
    fn find_first(tracks: &Vec<TrackInfo>, kind: TrackKind, sel: Option<&String>) -> (r: Option<
        usize,
    >)
        ensures
            ({
                let sv = match sel {
                    Some(s) => Some(s@),
                    None => None::<Seq<char>>,
                };
                match r {
                    Some(u) => first_match(tracks@, kind, sv) == Some(u as int),
                    None => first_match(tracks@, kind, sv) is None,
                }
            }),
    {
        let ghost sv: Option<Seq<char>> = match sel {
            Some(s) => Some(s@),
            None => None,
        };
        proof {
            lemma_first_match(tracks@, kind, sv);
        }
        let n = tracks.len();
        let mut i: usize = 0;
        while i < n
            invariant
                i <= n,
                n == tracks@.len(),
                sv == (match sel {
                    Some(s) => Some(s@),
                    None => None::<Seq<char>>,
                }),
                forall|j: int| 0 <= j < i ==> !track_matches(tracks@[j], kind, sv),
            decreases n - i,
        {
            let matches_kind = tracks[i].kind == kind;
            let matches_sel = match sel {
                Some(s) => str_eq(tracks[i].rid.as_str(), s.as_str()),
                None => true,
            };
            if matches_kind && matches_sel {
                proof {
                    lemma_first_match(tracks@, kind, sv);
                    assert(track_matches(tracks@[i as int], kind, sv));
                }
                return Some(i);
            }
            i = i + 1;
        }
        proof {
            lemma_first_match(tracks@, kind, sv);
        }
        None
    }
}


/// RTCP feedback kinds the relay translates upstream.
#[derive(Clone, Copy, PartialEq, Eq, Structural, Debug)]
pub enum FeedbackKind {
    /// Picture-loss indication.
    PictureLossIndication,
    /// Full intra request.
    FullIntraRequest,
}

/// The decision of the outbound-RTCP loop: a translatable packet read
/// while a binding is active is republished on the feedback bus with the
/// bound track's RTP source id; without a binding it is dropped.
pub fn rtcp_feedback(m: &KindForwarder, msg: FeedbackKind) -> (r: Option<(FeedbackKind, u32)>)
    ensures
        r == match m.binding {
            Some(b) => Some((msg, b.ssrc)),
            None => None::<(FeedbackKind, u32)>,
        },
{
    match &m.binding {
        Some(b) => Some((msg, b.ssrc)),
        None => None,
    }
}

} // verus!
