use chat_relay::server::{ChatServer, EncryptedMessage, Outbound, ServerMessage, UserProfile};

fn profile(user_id: &str, username: &str, pref: &str, gender: &str, room: &str) -> UserProfile {
    UserProfile {
        user_id: user_id.to_string(),
        username: username.to_string(),
        preference: pref.to_string(),
        gender: gender.to_string(),
        room_type: room.to_string(),
        group_code: None,
        group_join_method: None,
    }
}

fn group_profile(username: &str, method: Option<&str>, code: Option<&str>) -> UserProfile {
    UserProfile {
        user_id: "u-0000".to_string(),
        username: username.to_string(),
        preference: "male".to_string(),
        gender: "male".to_string(),
        room_type: "group".to_string(),
        group_code: code.map(|c| c.to_string()),
        group_join_method: method.map(|m| m.to_string()),
    }
}

fn count_event(out: &[Outbound], f: impl Fn(&ServerMessage) -> bool) -> usize {
    out.iter().filter(|o| f(&o.msg)).count()
}

#[test]
fn two_compatible_joins_both_get_chat_started() {
    let mut s = ChatServer::new();
    let a = s.connect();
    let b = s.connect();
    let out_a = s.join_chat(a, profile("u-alice", "alice", "male", "male", "1:1"));
    assert_eq!(out_a.len(), 1);
    assert!(matches!(out_a[0].msg, ServerMessage::WaitingForMatch));
    let out_b = s.join_chat(b, profile("u-bob", "bob", "male", "male", "1:1"));
    assert_eq!(out_b.len(), 2);
    assert!(out_b.iter().any(|o| o.to == a && matches!(o.msg, ServerMessage::ChatStarted { group_code: None })));
    assert!(out_b.iter().any(|o| o.to == b && matches!(o.msg, ServerMessage::ChatStarted { group_code: None })));
    assert!(s.waiting.is_empty());
}

#[test]
fn pairing_is_symmetric() {
    let mut s = ChatServer::new();
    let a = s.connect();
    let b = s.connect();
    s.join_chat(a, profile("u-a", "a", "female", "female", "1:1"));
    s.join_chat(b, profile("u-b", "b", "female", "female", "1:1"));
    let ua = s.users.iter().find(|u| u.id == a).unwrap();
    let ub = s.users.iter().find(|u| u.id == b).unwrap();
    assert_eq!(ua.partner_id, Some(b));
    assert_eq!(ub.partner_id, Some(a));
}

#[test]
fn incompatible_preference_waits() {
    let mut s = ChatServer::new();
    let a = s.connect();
    let b = s.connect();
    s.join_chat(a, profile("u-a", "a", "male", "female", "1:1"));
    let out = s.join_chat(b, profile("u-b", "b", "male", "female", "1:1"));
    // the waiter's gender does not satisfy the asker's preference
    assert_eq!(out.len(), 1);
    assert!(matches!(out[0].msg, ServerMessage::WaitingForMatch));
    assert_eq!(s.waiting.len(), 2);
}

#[test]
fn join_without_candidate_waits_in_own_pool() {
    let mut s = ChatServer::new();
    let a = s.connect();
    let out = s.join_chat(a, profile("u-a", "a", "female", "male", "1:1"));
    assert_eq!(out.len(), 1);
    assert_eq!(out[0].to, a);
    assert!(matches!(out[0].msg, ServerMessage::WaitingForMatch));
    assert!(s.waiting.iter().any(|e| e.conn == a && e.preference == "female"));
}

#[test]
fn matched_connections_leave_every_pool() {
    let mut s = ChatServer::new();
    let a = s.connect();
    let b = s.connect();
    s.join_chat(a, profile("u-a", "a", "male", "male", "1:1"));
    s.join_chat(b, profile("u-b", "b", "male", "male", "1:1"));
    assert!(!s.waiting.iter().any(|e| e.conn == a || e.conn == b));
}

#[test]
fn group_create_then_join_by_code() {
    let mut s = ChatServer::new();
    let a = s.connect();
    let b = s.connect();
    let out_a = s.join_chat(a, group_profile("alice", Some("create"), None));
    assert_eq!(out_a.len(), 2);
    let code = match &out_a[0].msg {
        ServerMessage::ChatStarted { group_code: Some(c) } => c.clone(),
        other => panic!("expected chat_started with a code, got {:?}", std::mem::discriminant(other)),
    };
    match &out_a[1].msg {
        ServerMessage::GroupMembersUpdate(names) => assert_eq!(names, &vec!["alice".to_string()]),
        _ => panic!("expected a members update"),
    }
    let out_b = s.join_chat(b, group_profile("bob", Some("join"), Some(&code)));
    // a: update + joined; b: update + chat_started
    assert!(out_b.iter().any(|o| o.to == a
        && matches!(&o.msg, ServerMessage::UserJoinedGroup(n) if n == "bob")));
    assert!(out_b.iter().any(|o| o.to == a
        && matches!(&o.msg, ServerMessage::GroupMembersUpdate(ns) if ns.len() == 2)));
    assert!(out_b.iter().any(|o| o.to == b
        && matches!(&o.msg, ServerMessage::ChatStarted { group_code: Some(c) } if *c == code)));
    let g = &s.groups[0];
    assert_eq!(g.members, vec![a, b]);
    assert_eq!(g.usernames, vec!["alice".to_string(), "bob".to_string()]);
}

#[test]
fn join_unknown_code_creates_nothing() {
    let mut s = ChatServer::new();
    let a = s.connect();
    let out = s.join_chat(a, group_profile("alice", Some("join"), Some("ZZZZZZ")));
    assert_eq!(out.len(), 1);
    assert_eq!(out[0].to, a);
    assert!(matches!(out[0].msg, ServerMessage::GroupNotFound));
    assert!(s.groups.is_empty());
}

#[test]
fn join_random_with_one_group_joins_it() {
    let mut s = ChatServer::new();
    let a = s.connect();
    let b = s.connect();
    s.join_chat(a, group_profile("alice", Some("create"), None));
    let out = s.join_chat(b, group_profile("bob", None, None));
    assert_eq!(s.groups.len(), 1);
    assert_eq!(s.groups[0].members, vec![a, b]);
    assert!(out.iter().any(|o| o.to == b && matches!(o.msg, ServerMessage::ChatStarted { .. })));
}

#[test]
fn group_lists_stay_aligned() {
    let mut s = ChatServer::new();
    let a = s.connect();
    let b = s.connect();
    let c = s.connect();
    s.join_chat(a, group_profile("alice", Some("create"), None));
    let code = s.groups[0].code.clone();
    s.join_chat(b, group_profile("bob", Some("join"), Some(&code)));
    s.join_chat(c, group_profile("carol", Some("join"), Some(&code)));
    assert_eq!(s.groups[0].members.len(), s.groups[0].usernames.len());
    s.disconnect_chat(b);
    assert_eq!(s.groups[0].members.len(), s.groups[0].usernames.len());
    assert_eq!(s.groups[0].members, vec![a, c]);
    assert_eq!(s.groups[0].usernames, vec!["alice".to_string(), "carol".to_string()]);
}

#[test]
fn disconnect_notifies_partner_exactly_once() {
    let mut s = ChatServer::new();
    let a = s.connect();
    let b = s.connect();
    s.join_chat(a, profile("u-a", "a", "male", "male", "1:1"));
    s.join_chat(b, profile("u-b", "b", "male", "male", "1:1"));
    let out = s.disconnect_chat(a);
    assert_eq!(out.len(), 1);
    assert_eq!(out[0].to, b);
    assert!(matches!(out[0].msg, ServerMessage::PartnerDisconnected));
    let ub = s.users.iter().find(|u| u.id == b).unwrap();
    assert_eq!(ub.partner_id, None);
    assert!(!s.users.iter().any(|u| u.id == a));
    assert!(!s.waiting.iter().any(|e| e.conn == a));
}

#[test]
fn last_member_leaving_deletes_group() {
    let mut s = ChatServer::new();
    let a = s.connect();
    s.join_chat(a, group_profile("alice", Some("create"), None));
    assert_eq!(s.groups.len(), 1);
    let out = s.disconnect(a);
    assert!(out.is_empty());
    assert!(s.groups.is_empty());
    assert!(!s.sessions.contains(&a));
}

#[test]
fn group_member_leaving_notifies_rest() {
    let mut s = ChatServer::new();
    let a = s.connect();
    let b = s.connect();
    s.join_chat(a, group_profile("alice", Some("create"), None));
    let code = s.groups[0].code.clone();
    s.join_chat(b, group_profile("bob", Some("join"), Some(&code)));
    let out = s.disconnect_chat(a);
    assert_eq!(out.len(), 2);
    assert!(out.iter().all(|o| o.to == b));
    assert!(matches!(&out[0].msg, ServerMessage::UserLeftGroup(n) if n == "alice"));
    assert!(matches!(&out[1].msg, ServerMessage::GroupMembersUpdate(ns) if ns == &vec!["bob".to_string()]));
}

#[test]
fn one_to_one_message_reaches_exactly_the_partner() {
    let mut s = ChatServer::new();
    let a = s.connect();
    let b = s.connect();
    let c = s.connect();
    s.join_chat(a, profile("u-a", "a", "male", "male", "1:1"));
    s.join_chat(b, profile("u-b", "b", "male", "male", "1:1"));
    s.join_chat(c, profile("u-c", "c", "male", "male", "1:1"));
    let msg = EncryptedMessage { encrypted: "cipher".to_string(), nonce: "n1".to_string() };
    let out = s.send_message(a, msg, false, None);
    assert_eq!(out.len(), 1);
    assert_eq!(out[0].to, b);
    match &out[0].msg {
        ServerMessage::ReceiveMessage { message, sender } => {
            assert_eq!(message.encrypted, "cipher");
            assert_eq!(message.nonce, "n1");
            assert_eq!(sender, "a");
        },
        _ => panic!("expected a relayed message"),
    }
}

#[test]
fn group_message_reaches_every_other_member_once() {
    let mut s = ChatServer::new();
    let a = s.connect();
    let b = s.connect();
    let c = s.connect();
    s.join_chat(a, group_profile("alice", Some("create"), None));
    let code = s.groups[0].code.clone();
    s.join_chat(b, group_profile("bob", Some("join"), Some(&code)));
    s.join_chat(c, group_profile("carol", Some("join"), Some(&code)));
    let msg = EncryptedMessage { encrypted: "x".to_string(), nonce: "n".to_string() };
    let out = s.send_message(b, msg, true, None);
    assert_eq!(out.len(), 2);
    let mut tos: Vec<u64> = out.iter().map(|o| o.to).collect();
    tos.sort();
    assert_eq!(tos, vec![a, c]);
    assert_eq!(count_event(&out, |m| matches!(m, ServerMessage::ReceiveMessage { .. })), 2);
}

#[test]
fn typing_notices_follow_message_addressing() {
    let mut s = ChatServer::new();
    let a = s.connect();
    let b = s.connect();
    s.join_chat(a, profile("u-a", "a", "male", "male", "1:1"));
    s.join_chat(b, profile("u-b", "b", "male", "male", "1:1"));
    let out = s.typing_start(a, false, None);
    assert_eq!(out.len(), 1);
    assert_eq!(out[0].to, b);
    assert!(matches!(out[0].msg, ServerMessage::TypingStarted { username: None }));
    let out2 = s.typing_stop(a, false, None);
    assert_eq!(out2.len(), 1);
    assert!(matches!(out2[0].msg, ServerMessage::TypingStopped { username: None }));
}

#[test]
fn generated_codes_are_six_chars_from_the_alphabet() {
    let s = ChatServer::new();
    for _ in 0..32 {
        let code = s.generate_group_code();
        assert_eq!(code.chars().count(), 6);
        assert!(code.chars().all(|c| c.is_ascii_digit() || c.is_ascii_uppercase()));
    }
}

#[test]
fn display_name_falls_back_to_user_id_prefix() {
    let a = chat_relay::server::display_name(&"".to_string(), &"abcdefgh".to_string());
    assert_eq!(a, "User-abcde");
    let b = chat_relay::server::display_name(&"zoe".to_string(), &"abcdefgh".to_string());
    assert_eq!(b, "zoe");
    let c = chat_relay::server::display_name(&"".to_string(), &"ab".to_string());
    assert_eq!(c, "User-ab");
}

#[test]
fn unknown_target_commands_are_noops() {
    let mut s = ChatServer::new();
    let out = s.disconnect_chat(99);
    assert!(out.is_empty());
    let msg = EncryptedMessage { encrypted: "x".to_string(), nonce: "n".to_string() };
    assert!(s.send_message(99, msg, false, None).is_empty());
    let out2 = s.join_chat(99, profile("u", "n", "male", "male", "1:1"));
    assert!(out2.is_empty());
    assert!(s.users.is_empty());
}

#[test]
fn matchmaking_for_a_gone_connection_is_a_noop() {
    let mut s = ChatServer::new();
    let a = s.connect();
    s.join_chat(a, profile("u-a", "a", "male", "male", "1:1"));
    let out = s.find_match(77);
    assert!(out.is_empty());
    assert_eq!(s.users.len(), 1);
    assert_eq!(s.waiting.len(), 1);
    assert!(s.waiting.iter().any(|e| e.conn == a));
}
