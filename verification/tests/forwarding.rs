use sfu_core::errors::RelayError;
use sfu_core::fabric::Fabric;
use sfu_core::forwarder::{Forwarder, ForwarderConfig};
use sfu_core::rtp::{rtcp_feedback, BindAction, FeedbackKind, KindForwarder, RtpPacket, TrackInfo, TrackKind};
use sfu_core::stream::{
    publish_state_action, subscribe_state_action, MediaSpec, PeerState, StreamForward,
    TransportAction,
};

fn packet(seq: u16) -> RtpPacket {
    RtpPacket {
        sequence_number: seq,
        timestamp: 1000,
        ssrc: 42,
        payload_type: 96,
        marker: false,
        payload: vec![1, 2, 3],
    }
}

fn media_recv() -> MediaSpec {
    MediaSpec { video_send: 0, video_recv: 1, video_simulcast: false, audio_send: 0, audio_recv: 1 }
}

fn media_send() -> MediaSpec {
    MediaSpec { video_send: 1, video_recv: 0, video_simulcast: false, audio_send: 1, audio_recv: 0 }
}

fn audio_track(rid: &str, ssrc: u32) -> TrackInfo {
    TrackInfo { kind: TrackKind::Audio, rid: rid.to_string(), ssrc }
}

fn video_track(rid: &str, ssrc: u32) -> TrackInfo {
    TrackInfo { kind: TrackKind::Video, rid: rid.to_string(), ssrc }
}

#[test]
fn forward_replaces_sequence_numbers_from_zero() {
    let mut m = KindForwarder::new(TrackKind::Audio);
    let tracks = vec![audio_track("", 42)];
    assert!(matches!(m.on_tracks_change(&tracks), BindAction::Bind { index: 0, ssrc: 42 }));
    let out = m.forward(packet(42000)).unwrap();
    assert_eq!(out.sequence_number, 0);
    assert_eq!(out.timestamp, 1000);
    assert_eq!(out.payload, vec![1, 2, 3]);
    assert_eq!(m.forward(packet(42001)).unwrap().sequence_number, 1);
    assert_eq!(m.forward(packet(42002)).unwrap().sequence_number, 2);
}

#[test]
fn sequence_counter_wraps_at_the_sixteen_bit_boundary() {
    let mut m = KindForwarder::new(TrackKind::Audio);
    m.on_tracks_change(&vec![audio_track("", 42)]);
    m.seq = 65535;
    assert_eq!(m.forward(packet(7)).unwrap().sequence_number, 65535);
    assert_eq!(m.forward(packet(8)).unwrap().sequence_number, 0);
    assert_eq!(m.forward(packet(9)).unwrap().sequence_number, 1);
}

#[test]
fn unbound_machine_emits_nothing() {
    let mut m = KindForwarder::new(TrackKind::Audio);
    assert!(m.forward(packet(1)).is_none());
}

#[test]
fn publisher_leaving_unbinds_and_counter_survives_rebinds() {
    let mut m = KindForwarder::new(TrackKind::Video);
    let tracks = vec![video_track("f", 1), video_track("h", 2), video_track("q", 3)];
    // the default binding is the lexicographically smallest layer id
    assert!(matches!(m.on_tracks_change(&tracks), BindAction::Bind { index: 0, ssrc: 1 }));
    m.forward(packet(500)).unwrap();
    m.forward(packet(501)).unwrap();
    assert_eq!(m.seq, 2);
    // an explicit selection rebinds; the counter is preserved
    m.select_rid(Some("q".to_string()));
    assert!(matches!(m.on_tracks_change(&tracks), BindAction::Bind { index: 2, ssrc: 3 }));
    assert_eq!(m.forward(packet(502)).unwrap().sequence_number, 2);
    // the reserved id "disabled" mutes the kind
    m.select_rid(Some("disabled".to_string()));
    assert!(matches!(m.on_tracks_change(&tracks), BindAction::Unbind));
    assert!(m.forward(packet(503)).is_none());
    // the publisher leaves: no tracks, the machine unbinds and stays quiet
    m.select_rid(None);
    m.on_tracks_change(&tracks);
    assert!(matches!(m.on_tracks_change(&Vec::new()), BindAction::Unbind));
    assert!(m.forward(packet(504)).is_none());
}

#[test]
fn create_publish_subscribe_forwards_with_fresh_sequence() {
    let mut s = StreamForward::new("S".to_string(), 50);
    assert!(s.set_publish("session1".to_string(), 10, media_send()).is_ok());
    assert!(s.new_subscribe("session2".to_string(), 20, media_recv(), 60).is_ok());
    s.track_up(audio_track("", 42));
    let out = s.forward_rtp("session2", TrackKind::Audio, packet(42000)).unwrap();
    assert_eq!(out.sequence_number, 0);
    assert_eq!(s.forward_rtp("session2", TrackKind::Audio, packet(42001)).unwrap().sequence_number, 1);
    assert_eq!(s.forward_rtp("session2", TrackKind::Audio, packet(42002)).unwrap().sequence_number, 2);
}

#[test]
fn second_publisher_is_refused_and_does_not_disturb_the_first() {
    let mut s = StreamForward::new("S".to_string(), 50);
    assert!(s.set_publish("session1".to_string(), 10, media_send()).is_ok());
    assert_eq!(
        s.set_publish("session2".to_string(), 11, media_send()),
        Err(RelayError::AlreadyExists)
    );
    assert_eq!(s.publish.as_ref().unwrap().session, "session1");
    assert_eq!(s.publish_leave_time, 0);
}

#[test]
fn publisher_leaving_unbinds_bound_subscribers() {
    let mut s = StreamForward::new("S".to_string(), 50);
    s.set_publish("session1".to_string(), 10, media_send()).unwrap();
    s.new_subscribe("session2".to_string(), 20, media_recv(), 60).unwrap();
    s.track_up(audio_track("", 42));
    assert!(s.forward_rtp("session2", TrackKind::Audio, packet(1)).is_some());
    s.remove_publish(10, "session1", 7000).unwrap();
    assert_eq!(s.publish_leave_time, 7000);
    assert!(s.tracks.is_empty());
    // stale packets are not emitted once unbound
    assert!(s.forward_rtp("session2", TrackKind::Audio, packet(2)).is_none());
}

#[test]
fn more_than_one_send_transceiver_is_malformed() {
    let mut s = StreamForward::new("S".to_string(), 0);
    let bad = MediaSpec { video_send: 2, video_recv: 0, video_simulcast: false, audio_send: 0, audio_recv: 0 };
    assert_eq!(s.set_publish("p".to_string(), 1, bad), Err(RelayError::Malformed));
}

#[test]
fn layer_listing_deduplicates_rids() {
    let mut s = StreamForward::new("S".to_string(), 0);
    let sim = MediaSpec { video_send: 1, video_recv: 0, video_simulcast: true, audio_send: 1, audio_recv: 0 };
    s.set_publish("p".to_string(), 1, sim).unwrap();
    s.track_up(video_track("h", 1));
    s.track_up(video_track("f", 2));
    s.track_up(audio_track("", 3));
    s.track_up(video_track("h", 4));
    let rids = s.publish_svc_rids();
    assert_eq!(rids.len(), 2);
    assert!(rids.contains(&"f".to_string()));
    assert!(rids.contains(&"h".to_string()));
}

#[test]
fn reaper_removes_streams_beyond_grace_and_spares_the_rest() {
    let cfg = ForwarderConfig { publish_leave_timeout: 2000, reforward_close_sub: false };
    let mut f = Forwarder::new(cfg);
    f.stream_create("S".to_string(), 100).unwrap();
    assert_eq!(f.stream_create("S".to_string(), 100), Err(RelayError::AlreadyExists));
    f.publish("S".to_string(), 10, "session1".to_string(), media_send(), 100).unwrap();
    // the publisher disconnects at t=1000
    f.remove_publish("S", 10, "session1", 1000).unwrap();
    assert_eq!(f.stream_info("S").unwrap().publish_leave_time, 1000);
    // a reconnect within the grace window stops the clock; the stream stays
    f.publish("S".to_string(), 12, "session3".to_string(), media_send(), 1500).unwrap();
    assert_eq!(f.stream_info("S").unwrap().publish_leave_time, 0);
    f.reap(4000);
    assert!(f.is_stream_exists("S"));
    // the publisher disconnects again and nobody returns in time
    f.remove_publish("S", 12, "session3", 5000).unwrap();
    f.reap(7500);
    assert!(!f.is_stream_exists("S"));
    assert_eq!(
        f.subscribe("S", 20, "session4".to_string(), media_recv(), 7600),
        Err(RelayError::NotFound)
    );
}

#[test]
fn subscribe_requires_a_publisher() {
    let cfg = ForwarderConfig { publish_leave_timeout: 2000, reforward_close_sub: false };
    let mut f = Forwarder::new(cfg);
    f.stream_create("S".to_string(), 0).unwrap();
    assert_eq!(
        f.subscribe("S", 20, "x".to_string(), media_recv(), 10),
        Err(RelayError::NotFound)
    );
    f.publish("S".to_string(), 10, "p".to_string(), media_send(), 20).unwrap();
    assert!(f.subscribe("S", 20, "x".to_string(), media_recv(), 30).is_ok());
}

#[test]
fn unicast_reaches_only_its_destination_and_broadcast_spares_the_sender() {
    let mut fab = Fabric::new();
    fab.add_peer(1, 8);
    fab.add_peer(2, 8);
    fab.add_peer(3, 8);
    // peer 1 sends a unicast to peer 2: first four wire bytes name it
    let broadcast = fab.handle_peer_message(1, vec![2, 0, 0, 0, 0xaa]);
    assert!(!broadcast);
    assert_eq!(fab.peers[0].mailbox.len(), 0);
    assert_eq!(fab.peers[1].mailbox.len(), 1);
    assert_eq!(fab.peers[2].mailbox.len(), 0);
    assert_eq!(fab.peers[1].mailbox[0], vec![0, 1, 0, 0, 0, 2, 0, 0, 0, 0xaa]);
    // peer 1 broadcasts (destination equals sender): 2 and 3 see it, 1 does not
    let broadcast = fab.handle_peer_message(1, vec![1, 0, 0, 0, 0xbb]);
    assert!(broadcast);
    assert_eq!(fab.peers[0].mailbox.len(), 0);
    assert_eq!(fab.peers[1].mailbox.len(), 2);
    assert_eq!(fab.peers[2].mailbox.len(), 1);
    // a unicast to an absent peer is silently dropped
    fab.handle_peer_message(1, vec![9, 0, 0, 0, 0xcc]);
    assert_eq!(fab.peers[0].mailbox.len(), 0);
    assert_eq!(fab.peers[1].mailbox.len(), 2);
    assert_eq!(fab.peers[2].mailbox.len(), 1);
}

#[test]
fn open_notice_is_broadcast_to_the_others() {
    let mut fab = Fabric::new();
    fab.add_peer(1, 8);
    fab.add_peer(2, 8);
    fab.announce(1, true);
    assert_eq!(fab.peers[0].mailbox.len(), 0);
    assert_eq!(fab.peers[1].mailbox.len(), 1);
    assert_eq!(fab.peers[1].mailbox[0], vec![1, 1, 0, 0, 0, 1, 0, 0, 0]);
}

#[test]
fn full_slot_drops_its_oldest_frame_only() {
    let mut fab = Fabric::new();
    fab.add_peer(1, 2);
    fab.add_peer(2, 8);
    fab.announce(9, true);
    fab.announce(10, true);
    fab.announce(11, true);
    // the slow slot holds the two newest notices; the fast one holds all
    assert_eq!(fab.peers[0].mailbox.len(), 2);
    assert_eq!(fab.peers[1].mailbox.len(), 3);
    assert_eq!(fab.peers[0].mailbox[0][1], 10);
    assert_eq!(fab.peers[0].mailbox[1][1], 11);
}

#[test]
fn transport_state_decisions() {
    assert_eq!(publish_state_action(PeerState::Failed), TransportAction::CloseTransport);
    assert_eq!(publish_state_action(PeerState::Disconnected), TransportAction::CloseTransport);
    assert_eq!(publish_state_action(PeerState::Closed), TransportAction::RemovePeer);
    assert_eq!(publish_state_action(PeerState::Connected), TransportAction::Ignore);
    assert_eq!(subscribe_state_action(PeerState::Connected), TransportAction::NotifyConnected);
    assert_eq!(subscribe_state_action(PeerState::Closed), TransportAction::RemovePeer);
}

#[test]
fn relay_error_texts() {
    assert_eq!(RelayError::NotFound.text(), "not found");
    assert_eq!(RelayError::AlreadyExists.text(), "already exists");
    assert_eq!(RelayError::SendFailed.text(), "send failed");
    assert_eq!(RelayError::Transport.text(), "transport error");
    assert_eq!(RelayError::Malformed.text(), "malformed input");
}

#[test]
fn layer_listing_is_in_ascending_rid_order() {
    let mut s = StreamForward::new("S".to_string(), 0);
    let sim = MediaSpec { video_send: 1, video_recv: 0, video_simulcast: true, audio_send: 0, audio_recv: 0 };
    s.set_publish("p".to_string(), 1, sim).unwrap();
    s.track_up(video_track("q", 1));
    s.track_up(video_track("f", 2));
    s.track_up(video_track("h", 3));
    assert_eq!(s.publish_svc_rids(), vec!["f".to_string(), "h".to_string(), "q".to_string()]);
}

#[test]
fn publisher_state_reports_drive_publish_is_ok() {
    let cfg = ForwarderConfig { publish_leave_timeout: 2000, reforward_close_sub: false };
    let mut f = Forwarder::new(cfg);
    f.publish("S".to_string(), 10, "session1".to_string(), media_send(), 100).unwrap();
    // freshly installed: not yet connected
    assert_eq!(f.publish_is_ok("S").unwrap(), false);
    assert_eq!(f.publish_state_changed("S", "session1", PeerState::Connected).unwrap(), true);
    assert_eq!(f.publish_is_ok("S").unwrap(), true);
    assert_eq!(f.publish_state_changed("S", "unknown", PeerState::Failed).unwrap(), false);
    assert_eq!(f.publish_is_ok("S").unwrap(), true);
    assert!(f.publish_is_ok("missing").is_err());
}

#[test]
fn failed_lazy_publish_leaves_no_residue_stream() {
    let cfg = ForwarderConfig { publish_leave_timeout: 2000, reforward_close_sub: false };
    let mut f = Forwarder::new(cfg);
    let bad = MediaSpec { video_send: 2, video_recv: 0, video_simulcast: false, audio_send: 0, audio_recv: 0 };
    assert_eq!(
        f.publish("S".to_string(), 10, "session1".to_string(), bad, 100),
        Err(RelayError::Malformed)
    );
    assert!(!f.is_stream_exists("S"));
}

#[test]
fn info_snapshots_respect_the_name_filter() {
    let cfg = ForwarderConfig { publish_leave_timeout: 2000, reforward_close_sub: false };
    let mut f = Forwarder::new(cfg);
    f.stream_create("A".to_string(), 1).unwrap();
    f.stream_create("B".to_string(), 2).unwrap();
    let all = f.forward_infos_filtered(&Vec::new());
    assert_eq!(all.len(), 2);
    let some = f.forward_infos_filtered(&vec!["B".to_string(), "C".to_string()]);
    assert_eq!(some.len(), 1);
    assert_eq!(some[0].id, "B");
    assert_eq!(some[0].create_time, 2);
}

#[test]
fn rtcp_feedback_uses_the_bound_source() {
    let mut m = KindForwarder::new(TrackKind::Video);
    assert_eq!(rtcp_feedback(&m, FeedbackKind::PictureLossIndication), None);
    m.on_tracks_change(&vec![video_track("f", 77)]);
    assert_eq!(
        rtcp_feedback(&m, FeedbackKind::FullIntraRequest),
        Some((FeedbackKind::FullIntraRequest, 77))
    );
}
