use sfu_core::group::{GroupError, GroupsManager};
use sfu_core::params::{get_from_params_bool, get_from_params_string, get_from_params_u32,
    get_from_params_u64, parse_u32, parse_u64, Params};
use sfu_core::room::Room;
use sfu_core::api::{decode_json_param, Config, EnvelopeError};

fn manager_with_two_users() -> GroupsManager {
    let mut gm = GroupsManager::new();
    gm.init_user(1, 100);
    gm.init_user(2, 100);
    gm.new_group("g".to_string(), None);
    gm
}

#[test]
fn group_fanout_suppresses_the_sender() {
    let mut gm = manager_with_two_users();
    gm.join_group("g".to_string(), 1).unwrap();
    gm.join_group("g".to_string(), 2).unwrap();
    // the first four bytes carry the sender id: user 1
    let n = gm.send_message_to_group("g".to_string(), vec![1, 0, 0, 0, 7, 7]).unwrap();
    assert_eq!(n, 2);
    assert_eq!(gm.pop_user_frame(1).unwrap(), None);
    assert_eq!(gm.pop_user_frame(2).unwrap(), Some(vec![1, 0, 0, 0, 7, 7]));
    assert_eq!(gm.pop_user_frame(2).unwrap(), None);
}

#[test]
fn send_errors() {
    let mut gm = GroupsManager::new();
    assert_eq!(
        gm.send_message_to_group("nope".to_string(), vec![0, 0, 0, 0]),
        Err(GroupError::GroupNotFound)
    );
    gm.new_group("empty".to_string(), None);
    assert_eq!(
        gm.send_message_to_group("empty".to_string(), vec![0, 0, 0, 0]),
        Err(GroupError::MessageSendFail)
    );
    gm.init_user(5, 100);
    assert_eq!(gm.join_group("nope".to_string(), 5), Err(GroupError::GroupNotFound));
    assert_eq!(gm.join_group("empty".to_string(), 9), Err(GroupError::NotInitiated));
    assert_eq!(gm.pop_user_frame(9), Err(GroupError::NotInitiated));
}

#[test]
fn join_then_leave_restores_membership() {
    let mut gm = manager_with_two_users();
    gm.join_group("g".to_string(), 1).unwrap();
    let before = gm.group_members("g").unwrap();
    gm.join_group("g".to_string(), 2).unwrap();
    gm.leave_group("g".to_string(), 2).unwrap();
    assert_eq!(gm.group_members("g").unwrap(), before);
    // repeated leave is a no-op, not an error
    assert_eq!(gm.leave_group("g".to_string(), 2), Ok(()));
    assert_eq!(gm.group_members("g").unwrap(), before);
    assert_eq!(gm.leave_group("missing".to_string(), 2), Err(GroupError::GroupNotFound));
}

#[test]
fn user_lifecycle_leaves_no_residue() {
    let mut gm = manager_with_two_users();
    gm.join_group("g".to_string(), 1).unwrap();
    gm.send_message_to_group("g".to_string(), vec![9, 0, 0, 0]).unwrap();
    gm.end_user(1);
    assert_eq!(gm.user_count("g").unwrap(), 0);
    gm.init_user(1, 100);
    // fresh mailbox, no memberships
    assert_eq!(gm.pop_user_frame(1).unwrap(), None);
    assert_eq!(gm.user_count("g").unwrap(), 0);
    assert!(gm.group_exists("g"));
}

#[test]
fn remove_group_cancels_every_membership() {
    let mut gm = manager_with_two_users();
    gm.join_group("g".to_string(), 1).unwrap();
    gm.join_group("g".to_string(), 2).unwrap();
    gm.remove_group("g".to_string());
    assert!(!gm.group_exists("g"));
    assert_eq!(gm.groups_count(), 0);
    // user 2 left first, so user 1 observed its close notice
    assert_eq!(gm.pop_user_frame(1).unwrap(), Some(vec![2, 2, 0, 0, 0, 2, 0, 0, 0]));
    assert_eq!(gm.pop_user_frame(1).unwrap(), None);
    gm.new_group("g".to_string(), None);
    assert_eq!(gm.user_count("g").unwrap(), 0);
}

#[test]
fn leaving_broadcasts_a_close_notice_to_the_rest() {
    let mut gm = manager_with_two_users();
    gm.init_user(3, 100);
    gm.join_group("g".to_string(), 1).unwrap();
    gm.join_group("g".to_string(), 2).unwrap();
    gm.join_group("g".to_string(), 3).unwrap();
    gm.leave_group("g".to_string(), 2).unwrap();
    let close = vec![2, 2, 0, 0, 0, 2, 0, 0, 0];
    assert_eq!(gm.pop_user_frame(1).unwrap(), Some(close.clone()));
    assert_eq!(gm.pop_user_frame(3).unwrap(), Some(close));
    // the leaver observes nothing, and a repeated leave notifies nobody
    assert_eq!(gm.pop_user_frame(2).unwrap(), None);
    gm.leave_group("g".to_string(), 2).unwrap();
    assert_eq!(gm.pop_user_frame(1).unwrap(), None);
}

#[test]
fn join_or_create_builds_the_group_lazily() {
    let mut gm = GroupsManager::new();
    gm.init_user(4, 100);
    gm.join_or_create(4, "fresh".to_string()).unwrap();
    assert!(gm.group_exists("fresh"));
    assert_eq!(gm.user_count("fresh").unwrap(), 1);
    assert_eq!(gm.is_group_empty("fresh").unwrap(), false);
}

#[test]
fn bounded_mailbox_drops_the_oldest() {
    let mut gm = GroupsManager::new();
    gm.init_user(1, 2);
    gm.new_group("g".to_string(), None);
    gm.join_group("g".to_string(), 1).unwrap();
    gm.send_message_to_group("g".to_string(), vec![9, 0, 0, 0, 1]).unwrap();
    gm.send_message_to_group("g".to_string(), vec![9, 0, 0, 0, 2]).unwrap();
    gm.send_message_to_group("g".to_string(), vec![9, 0, 0, 0, 3]).unwrap();
    assert_eq!(gm.pop_user_frame(1).unwrap(), Some(vec![9, 0, 0, 0, 2]));
    assert_eq!(gm.pop_user_frame(1).unwrap(), Some(vec![9, 0, 0, 0, 3]));
    assert_eq!(gm.pop_user_frame(1).unwrap(), None);
}

#[test]
fn direct_send_to_user() {
    let mut gm = manager_with_two_users();
    gm.join_group("g".to_string(), 2).unwrap();
    assert_eq!(
        gm.send_message_to_user("g".to_string(), 1, vec![5]),
        Err(GroupError::MessageSendFail)
    );
    assert_eq!(gm.send_message_to_user("g".to_string(), 2, vec![5]), Ok(1));
    assert_eq!(gm.pop_user_frame(2).unwrap(), Some(vec![5]));
}

#[test]
fn group_error_texts() {
    assert_eq!(GroupError::GroupNotFound.text(), "target group not found");
    assert_eq!(GroupError::NotInitiated.text(), "user is not initiated");
    assert_eq!(GroupError::MessageSendFail.text(), "failed to send message to the group");
}

#[test]
fn params_getters() {
    let mut p = Params::new();
    p.push("room_id".to_string(), "123".to_string());
    p.push("big".to_string(), "18446744073709551615".to_string());
    p.push("toobig".to_string(), "4294967296".to_string());
    p.push("junk".to_string(), "12x".to_string());
    p.push("check".to_string(), "on".to_string());
    p.push("name".to_string(), "alice".to_string());

    let mut v32: u32 = 7;
    assert!(get_from_params_u32(&p, "room_id", &mut v32));
    assert_eq!(v32, 123);
    assert!(!get_from_params_u32(&p, "toobig", &mut v32));
    assert_eq!(v32, 123);
    assert!(!get_from_params_u32(&p, "junk", &mut v32));
    assert!(!get_from_params_u32(&p, "absent", &mut v32));

    let mut v64: u64 = 0;
    assert!(get_from_params_u64(&p, "big", &mut v64));
    assert_eq!(v64, u64::MAX);

    let mut s = String::new();
    assert!(get_from_params_string(&p, "name", &mut s));
    assert_eq!(s, "alice");
    assert!(!get_from_params_string(&p, "absent", &mut s));
    assert_eq!(s, "alice");

    let mut b = true;
    assert!(get_from_params_bool(&p, "check", &mut b));
    assert!(b);
    assert!(get_from_params_bool(&p, "absent", &mut b));
    assert!(!b);

    assert_eq!(parse_u32("4294967295"), Some(u32::MAX));
    assert_eq!(parse_u32("4294967296"), None);
    assert_eq!(parse_u32(""), None);
    assert_eq!(parse_u32("+1"), None);
    assert_eq!(parse_u64("18446744073709551616"), None);
}

#[test]
fn envelope_decoding() {
    let mut p = Params::new();
    assert_eq!(decode_json_param(&p), Err(EnvelopeError::MissingJson));
    p.push("json_base64".to_string(), "not base64!!".to_string());
    assert_eq!(decode_json_param(&p), Err(EnvelopeError::BadEncoding));
    let mut q = Params::new();
    q.push("json_base64".to_string(), "eyJhIjoxfQ==".to_string());
    assert_eq!(decode_json_param(&q).unwrap(), b"{\"a\":1}".to_vec());
    assert_eq!(EnvelopeError::MissingJson.text(), "Missing JSON");
}

#[test]
fn room_admission_and_teardown() {
    let cfg = Config {
        ice_servers: Vec::new(),
        publish_leave_timeout: 2000,
        reforward_close_sub: false,
    };
    let mut room = Room::new(
        7,
        "lobby".to_string(),
        false,
        true,
        4,
        "roomkey",
        "masterkey",
        "a small room".to_string(),
        &cfg,
    );
    assert!(room.auth_room_key("roomkey"));
    assert!(!room.auth_room_key("masterkey") || false);
    assert!(room.auth_master_key("masterkey"));
    let info = room.info();
    assert_eq!(info.id, 7);
    assert_eq!(info.name, "lobby");
    assert_eq!(info.capacity, 4);

    let mut id1: i32 = -1;
    let mut tok1: u32 = 0;
    assert!(room.join("alice".to_string(), "", &mut id1, &mut tok1));
    assert_eq!(id1, 0);
    let mut id2: i32 = -1;
    let mut tok2: u32 = 0;
    assert!(room.join("bob".to_string(), "", &mut id2, &mut tok2));
    assert_eq!(id2, 1);

    // a wrong token refuses the deletion; the right one removes the seat
    assert_eq!(room.user_delete(id2, tok2.wrapping_add(1), true).unwrap(), false);
    assert_eq!(room.user_delete(id2, tok2, true).unwrap(), true);
    let mut id3: i32 = -1;
    let mut tok3: u32 = 0;
    assert!(room.join("carol".to_string(), "", &mut id3, &mut tok3));
    assert_eq!(id3, 1);
    assert!(room.all_user_delete().unwrap());
}

#[test]
fn hosted_room_reserves_seat_zero() {
    let cfg = Config {
        ice_servers: Vec::new(),
        publish_leave_timeout: 2000,
        reforward_close_sub: false,
    };
    let mut room = Room::new(
        8,
        "stage".to_string(),
        true,
        false,
        3,
        "rk",
        "mk",
        String::new(),
        &cfg,
    );
    let mut id: i32 = -1;
    let mut tok: u32 = 0;
    // a guest never gets seat zero
    assert!(room.join("guest".to_string(), "", &mut id, &mut tok));
    assert_eq!(id, 1);
    // the wrong master key is refused
    let mut hid: i32 = -1;
    let mut htok: u32 = 0;
    assert!(!room.join("imposter".to_string(), "wrong", &mut hid, &mut htok));
    // the right master key claims seat zero, once
    assert!(room.join("host".to_string(), "mk", &mut hid, &mut htok));
    assert_eq!(hid, 0);
    let mut hid2: i32 = -1;
    let mut htok2: u32 = 0;
    assert!(!room.join("second host".to_string(), "mk", &mut hid2, &mut htok2));
}

#[test]
fn client_stream_records() {
    let mut c = sfu_core::room::Client::new(3, 99, "carol".to_string());
    assert!(c.check_token(99));
    assert!(!c.check_token(98));
    c.add_stream("S".to_string()).unwrap();
    assert!(c.add_stream("S".to_string()).is_err());
    assert_eq!(c.get_streams(), vec!["S".to_string()]);
    c.remove_stream("S").unwrap();
    assert!(c.remove_stream("S").is_err());
    assert!(c.get_streams().is_empty());
}

#[test]
fn upstream_binary_routes_broadcast_and_unicast() {
    let mut gm = manager_with_two_users();
    gm.init_user(3, 100);
    gm.join_group("g".to_string(), 1).unwrap();
    gm.join_group("g".to_string(), 2).unwrap();
    gm.join_group("g".to_string(), 3).unwrap();
    // destination equals sender: broadcast; the sender is suppressed
    let b = gm.upstream_binary("g".to_string(), 1, vec![1, 0, 0, 0, 0xaa]).unwrap();
    assert!(b);
    assert_eq!(gm.pop_user_frame(1).unwrap(), None);
    assert_eq!(gm.pop_user_frame(2).unwrap(), Some(vec![1, 0, 0, 0, 1, 0, 0, 0, 0xaa]));
    assert_eq!(gm.pop_user_frame(3).unwrap(), Some(vec![1, 0, 0, 0, 1, 0, 0, 0, 0xaa]));
    // another destination: unicast to that member only
    let b = gm.upstream_binary("g".to_string(), 1, vec![2, 0, 0, 0, 0xbb]).unwrap();
    assert!(!b);
    assert_eq!(gm.pop_user_frame(2).unwrap(), Some(vec![1, 0, 0, 0, 2, 0, 0, 0, 0xbb]));
    assert_eq!(gm.pop_user_frame(3).unwrap(), None);
    // a unicast to a non-member is dropped silently
    assert_eq!(gm.upstream_binary("g".to_string(), 1, vec![9, 0, 0, 0, 1]), Ok(false));
    assert_eq!(
        gm.upstream_binary("missing".to_string(), 1, vec![1, 0, 0, 0, 1]),
        Err(GroupError::GroupNotFound)
    );
}
