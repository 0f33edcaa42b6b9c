use chat_relay::handler::{
    classify_event, ConnLiveness, EventKind, FrameKind, LoopAction, LoopEvent, CLIENT_TIMEOUT_MS,
    HEARTBEAT_INTERVAL_MS,
};

#[test]
fn silent_connection_times_out_and_shuts_down_once() {
    let mut st = ConnLiveness::start(0);
    // probes keep going while the window has not passed
    let mut now = 0u64;
    let mut shutdowns = 0;
    loop {
        now += HEARTBEAT_INTERVAL_MS;
        match st.step(LoopEvent::Tick, now) {
            LoopAction::SendPing => {},
            LoopAction::Shutdown => {
                shutdowns += 1;
                break;
            },
            _ => panic!("a tick only pings or shuts down"),
        }
    }
    assert_eq!(shutdowns, 1);
    assert!(st.closed);
    assert!(now > CLIENT_TIMEOUT_MS);
}

#[test]
fn inbound_activity_resets_the_window() {
    let mut st = ConnLiveness::start(0);
    assert_eq!(st.step(LoopEvent::Inbound(FrameKind::Pong), 9_000), LoopAction::Ignore);
    // 10s window counted from the pong, not from the start
    assert_eq!(st.step(LoopEvent::Tick, 15_000), LoopAction::SendPing);
    assert_eq!(st.step(LoopEvent::Tick, 20_000), LoopAction::Shutdown);
    assert!(st.closed);
}

#[test]
fn frame_kinds_map_to_actions() {
    let mut st = ConnLiveness::start(0);
    assert_eq!(st.step(LoopEvent::Inbound(FrameKind::Ping), 1), LoopAction::ReplyPong);
    assert_eq!(st.step(LoopEvent::Inbound(FrameKind::Text), 2), LoopAction::ProcessText);
    assert_eq!(st.step(LoopEvent::Notification, 2), LoopAction::ForwardNotification);
    assert_eq!(st.step(LoopEvent::Inbound(FrameKind::Binary), 3), LoopAction::Ignore);
    assert_eq!(st.step(LoopEvent::Inbound(FrameKind::Close), 4), LoopAction::Shutdown);
    assert!(st.closed);
}

#[test]
fn stream_end_and_errors_shut_down() {
    let mut a = ConnLiveness::start(0);
    assert_eq!(a.step(LoopEvent::InboundEnded, 1), LoopAction::Shutdown);
    let mut b = ConnLiveness::start(0);
    assert_eq!(b.step(LoopEvent::InboundFailed, 1), LoopAction::Shutdown);
    let mut c = ConnLiveness::start(0);
    assert_eq!(c.step(LoopEvent::NotificationsClosed, 1), LoopAction::Shutdown);
}

#[test]
fn event_names_classify_into_the_closed_set() {
    assert_eq!(classify_event("join_chat"), EventKind::JoinChat);
    assert_eq!(classify_event("send_message"), EventKind::SendMessage);
    assert_eq!(classify_event("typing_start"), EventKind::TypingStart);
    assert_eq!(classify_event("typing_stop"), EventKind::TypingStop);
    assert_eq!(classify_event("disconnect_chat"), EventKind::DisconnectChat);
    assert_eq!(classify_event("something_else"), EventKind::Unknown);
    assert_eq!(classify_event(""), EventKind::Unknown);
}
