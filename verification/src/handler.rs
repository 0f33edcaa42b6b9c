//! Per-connection decision logic: classifying inbound wire events and the
//! heartbeat liveness state machine.

use vstd::prelude::*;

verus! {

/// Compares two string slices by their character sequences.
pub fn str_eq(a: &str, b: &str) -> (r: bool)
    ensures
        r == (a@ == b@),
{
    let alen = a.unicode_len();
    let blen = b.unicode_len();
    if alen != blen {
        proof {
            assert(a@.len() != b@.len());
        }
        return false;
    }
    let mut i: usize = 0;
    while i < alen
        invariant
            alen == a@.len(),
            alen == b@.len(),
            i <= alen,
            forall|j: int| 0 <= j < i ==> a@[j] == b@[j],
        decreases alen - i,
    {
        if a.get_char(i) != b.get_char(i) {
            return false;
        }
        i += 1;
    }
    proof {
        assert(a@ =~= b@);
    }
    true
}

} // verus!

verus! {

/// How often a liveness probe is sent, in milliseconds.
pub const HEARTBEAT_INTERVAL_MS: u64 = 5000;

/// How long without inbound activity before the peer counts as gone.
pub const CLIENT_TIMEOUT_MS: u64 = 10000;

/// The kind of an inbound transport frame.
pub enum FrameKind {
    Ping,
    Pong,
    Text,
    Binary,
    Close,
    Continuation,
    Nop,
}

/// What the connection loop woke up on.
pub enum LoopEvent {
    Inbound(FrameKind),
    InboundFailed,
    InboundEnded,
    Notification,
    NotificationsClosed,
    Tick,
}

/// What the loop must do next.
#[derive(Debug, PartialEq, Eq, Structural)]
pub enum LoopAction {
    ReplyPong,
    ProcessText,
    ForwardNotification,
    SendPing,
    Ignore,
    Shutdown,
}

/// The liveness state of one connection's handler loop.
pub struct ConnLiveness {
    pub last_activity_ms: u64,
    pub closed: bool,
}

pub open spec fn spec_step_action(last_activity_ms: u64, ev: LoopEvent, now_ms: u64) -> LoopAction {
    match ev {
        LoopEvent::Inbound(FrameKind::Ping) => LoopAction::ReplyPong,
        LoopEvent::Inbound(FrameKind::Text) => LoopAction::ProcessText,
        LoopEvent::Inbound(FrameKind::Close) => LoopAction::Shutdown,
        LoopEvent::Inbound(_) => LoopAction::Ignore,
        LoopEvent::InboundFailed => LoopAction::Shutdown,
        LoopEvent::InboundEnded => LoopAction::Shutdown,
        LoopEvent::Notification => LoopAction::ForwardNotification,
        LoopEvent::NotificationsClosed => LoopAction::Shutdown,
        LoopEvent::Tick => if now_ms - last_activity_ms > CLIENT_TIMEOUT_MS {
            LoopAction::Shutdown
        } else {
            LoopAction::SendPing
        },
    }
}

impl ConnLiveness {
    /// A live handler that saw activity now.
    pub fn start(now_ms: u64) -> (s: ConnLiveness)
        ensures
            s.last_activity_ms == now_ms,
            !s.closed,
    {
        ConnLiveness { last_activity_ms: now_ms, closed: false }
    }

    /// One decision of the handler loop. Inbound activity of any kind resets
    /// the activity clock; a close frame, a failed or ended stream, a closed
    /// notification source, or a silent timeout window each close the loop,
    /// and the loop closes exactly when the action says to shut down.
    pub fn step(&mut self, ev: LoopEvent, now_ms: u64) -> (a: LoopAction)
        requires
            !old(self).closed,
            old(self).last_activity_ms <= now_ms,
        ensures
            a == spec_step_action(old(self).last_activity_ms, ev, now_ms),
            final(self).last_activity_ms == (if ev is Inbound {
                now_ms
            } else {
                old(self).last_activity_ms
            }),
            final(self).closed <==> a == LoopAction::Shutdown,
    {
        match ev {
            LoopEvent::Inbound(kind) => {
                self.last_activity_ms = now_ms;
                match kind {
                    FrameKind::Ping => LoopAction::ReplyPong,
                    FrameKind::Text => LoopAction::ProcessText,
                    FrameKind::Close => {
                        self.closed = true;
                        LoopAction::Shutdown
                    },
                    FrameKind::Pong => LoopAction::Ignore,
                    FrameKind::Binary => LoopAction::Ignore,
                    FrameKind::Continuation => LoopAction::Ignore,
                    FrameKind::Nop => LoopAction::Ignore,
                }
            },
            LoopEvent::InboundFailed => {
                self.closed = true;
                LoopAction::Shutdown
            },
            LoopEvent::InboundEnded => {
                self.closed = true;
                LoopAction::Shutdown
            },
            LoopEvent::Notification => LoopAction::ForwardNotification,
            LoopEvent::NotificationsClosed => {
                self.closed = true;
                LoopAction::Shutdown
            },
            LoopEvent::Tick => {
                if now_ms - self.last_activity_ms > CLIENT_TIMEOUT_MS {
                    self.closed = true;
                    LoopAction::Shutdown
                } else {
                    LoopAction::SendPing
                }
            },
        }
    }
}

/// The recognized inbound wire events; anything else is ignored.
#[derive(Debug, PartialEq, Eq, Structural)]
pub enum EventKind {
    JoinChat,
    SendMessage,
    TypingStart,
    TypingStop,
    DisconnectChat,
    Unknown,
}

pub open spec fn spec_classify(name: Seq<char>) -> EventKind {
    if name == "join_chat"@ {
        EventKind::JoinChat
    } else if name == "send_message"@ {
        EventKind::SendMessage
    } else if name == "typing_start"@ {
        EventKind::TypingStart
    } else if name == "typing_stop"@ {
        EventKind::TypingStop
    } else if name == "disconnect_chat"@ {
        EventKind::DisconnectChat
    } else {
        EventKind::Unknown
    }
}

/// Sorts an inbound event name into the closed command set, with everything
/// unrecognized landing on the explicit unknown branch.
pub fn classify_event(name: &str) -> (k: EventKind)
    ensures
        k == spec_classify(name@),
{
    if str_eq(name, "join_chat") {
        EventKind::JoinChat
    } else if str_eq(name, "send_message") {
        EventKind::SendMessage
    } else if str_eq(name, "typing_start") {
        EventKind::TypingStart
    } else if str_eq(name, "typing_stop") {
        EventKind::TypingStop
    } else if str_eq(name, "disconnect_chat") {
        EventKind::DisconnectChat
    } else {
        EventKind::Unknown
    }
}

} // verus!
