//! The session coordinator: the single owner of all connection, pairing,
//! waiting-pool and group state.
//!
//! Every command is a method that mutates the state and returns the full
//! list of notifications to deliver, so one call is one atomic command.
//! Delivery itself (and dropping notifications whose recipient is gone)
//! is the caller's concern.

use vstd::prelude::*;

verus! {

/// Identifier of one live connection.
pub type ConnId = u64;

/// An opaque end-to-end-encrypted payload: ciphertext plus nonce.
pub struct EncryptedMessage {
    pub encrypted: String,
    pub nonce: String,
}

/// The profile a connection presents when joining.
pub struct UserProfile {
    pub user_id: String,
    pub username: String,
    pub preference: String,
    pub gender: String,
    pub room_type: String,
    pub group_code: Option<String>,
    pub group_join_method: Option<String>,
}

/// One live user session.
pub struct User {
    pub id: ConnId,
    pub user_id: String,
    pub username: String,
    pub gender: String,
    pub preference: String,
    pub room_type: String,
    pub partner_id: Option<ConnId>,
    pub group_id: Option<String>,
}

/// One entry of a waiting pool: a connection queued under a preference.
pub struct WaitEntry {
    pub preference: String,
    pub conn: ConnId,
}

/// A short-code group chat room with parallel member and name lists.
pub struct Group {
    pub code: String,
    pub members: Vec<ConnId>,
    pub usernames: Vec<String>,
}

/// A notification produced by the coordinator for one connection.
pub enum ServerMessage {
    ChatStarted { group_code: Option<String> },
    ReceiveMessage { message: EncryptedMessage, sender: String },
    TypingStarted { username: Option<String> },
    TypingStopped { username: Option<String> },
    PartnerDisconnected,
    GroupMembersUpdate(Vec<String>),
    UserJoinedGroup(String),
    UserLeftGroup(String),
    GroupNotFound,
    WaitingForMatch,
}

/// A notification addressed to one connection.
pub struct Outbound {
    pub to: ConnId,
    pub msg: ServerMessage,
}

/// The coordinator state.
pub struct ChatServer {
    pub next_conn: ConnId,
    pub sessions: Vec<ConnId>,
    pub users: Vec<User>,
    pub waiting: Vec<WaitEntry>,
    pub groups: Vec<Group>,
}

// ---------------------------------------------------------------------------
// Mathematical models
// ---------------------------------------------------------------------------

#[verifier::ext_equal]
pub struct MessageV {
    pub encrypted: Seq<char>,
    pub nonce: Seq<char>,
}

#[verifier::ext_equal]
pub struct ProfileV {
    pub user_id: Seq<char>,
    pub username: Seq<char>,
    pub preference: Seq<char>,
    pub gender: Seq<char>,
    pub room_type: Seq<char>,
    pub group_code: Option<Seq<char>>,
    pub group_join_method: Option<Seq<char>>,
}

#[verifier::ext_equal]
pub struct UserV {
    pub id: ConnId,
    pub user_id: Seq<char>,
    pub username: Seq<char>,
    pub gender: Seq<char>,
    pub preference: Seq<char>,
    pub room_type: Seq<char>,
    pub partner_id: Option<ConnId>,
    pub group_id: Option<Seq<char>>,
}

#[verifier::ext_equal]
pub struct WaitV {
    pub preference: Seq<char>,
    pub conn: ConnId,
}

#[verifier::ext_equal]
pub struct GroupV {
    pub code: Seq<char>,
    pub members: Seq<ConnId>,
    pub usernames: Seq<Seq<char>>,
}

#[verifier::ext_equal]
pub enum MsgV {
    ChatStarted { group_code: Option<Seq<char>> },
    ReceiveMessage { message: MessageV, sender: Seq<char> },
    TypingStarted { username: Option<Seq<char>> },
    TypingStopped { username: Option<Seq<char>> },
    PartnerDisconnected,
    GroupMembersUpdate(Seq<Seq<char>>),
    UserJoinedGroup(Seq<char>),
    UserLeftGroup(Seq<char>),
    GroupNotFound,
    WaitingForMatch,
}

#[verifier::ext_equal]
pub struct OutboundV {
    pub to: ConnId,
    pub msg: MsgV,
}

#[verifier::ext_equal]
pub struct StateV {
    pub next_conn: ConnId,
    pub sessions: Seq<ConnId>,
    pub users: Seq<UserV>,
    pub waiting: Seq<WaitV>,
    pub groups: Seq<GroupV>,
}

pub open spec fn opt_view(o: Option<String>) -> Option<Seq<char>> {
    match o {
        Some(s) => Some(s@),
        None => None,
    }
}

impl View for EncryptedMessage {
    type V = MessageV;

    open spec fn view(&self) -> MessageV {
        MessageV { encrypted: self.encrypted@, nonce: self.nonce@ }
    }
}

impl DeepView for EncryptedMessage {
    type V = MessageV;

    open spec fn deep_view(&self) -> MessageV {
        self.view()
    }
}

impl View for UserProfile {
    type V = ProfileV;

    open spec fn view(&self) -> ProfileV {
        ProfileV {
            user_id: self.user_id@,
            username: self.username@,
            preference: self.preference@,
            gender: self.gender@,
            room_type: self.room_type@,
            group_code: opt_view(self.group_code),
            group_join_method: opt_view(self.group_join_method),
        }
    }
}

impl View for User {
    type V = UserV;

    open spec fn view(&self) -> UserV {
        UserV {
            id: self.id,
            user_id: self.user_id@,
            username: self.username@,
            gender: self.gender@,
            preference: self.preference@,
            room_type: self.room_type@,
            partner_id: self.partner_id,
            group_id: opt_view(self.group_id),
        }
    }
}

impl DeepView for User {
    type V = UserV;

    open spec fn deep_view(&self) -> UserV {
        self.view()
    }
}

impl View for WaitEntry {
    type V = WaitV;

    open spec fn view(&self) -> WaitV {
        WaitV { preference: self.preference@, conn: self.conn }
    }
}

impl DeepView for WaitEntry {
    type V = WaitV;

    open spec fn deep_view(&self) -> WaitV {
        self.view()
    }
}

impl View for Group {
    type V = GroupV;

    open spec fn view(&self) -> GroupV {
        GroupV {
            code: self.code@,
            members: self.members@,
            usernames: self.usernames.deep_view(),
        }
    }
}

impl DeepView for Group {
    type V = GroupV;

    open spec fn deep_view(&self) -> GroupV {
        self.view()
    }
}

impl View for ServerMessage {
    type V = MsgV;

    open spec fn view(&self) -> MsgV {
        match self {
            ServerMessage::ChatStarted { group_code } => MsgV::ChatStarted {
                group_code: opt_view(*group_code),
            },
            ServerMessage::ReceiveMessage { message, sender } => MsgV::ReceiveMessage {
                message: message@,
                sender: sender@,
            },
            ServerMessage::TypingStarted { username } => MsgV::TypingStarted {
                username: opt_view(*username),
            },
            ServerMessage::TypingStopped { username } => MsgV::TypingStopped {
                username: opt_view(*username),
            },
            ServerMessage::PartnerDisconnected => MsgV::PartnerDisconnected,
            ServerMessage::GroupMembersUpdate(names) => MsgV::GroupMembersUpdate(
                names.deep_view(),
            ),
            ServerMessage::UserJoinedGroup(name) => MsgV::UserJoinedGroup(name@),
            ServerMessage::UserLeftGroup(name) => MsgV::UserLeftGroup(name@),
            ServerMessage::GroupNotFound => MsgV::GroupNotFound,
            ServerMessage::WaitingForMatch => MsgV::WaitingForMatch,
        }
    }
}

impl DeepView for ServerMessage {
    type V = MsgV;

    open spec fn deep_view(&self) -> MsgV {
        self.view()
    }
}

impl View for Outbound {
    type V = OutboundV;

    open spec fn view(&self) -> OutboundV {
        OutboundV { to: self.to, msg: self.msg@ }
    }
}

impl DeepView for Outbound {
    type V = OutboundV;

    open spec fn deep_view(&self) -> OutboundV {
        self.view()
    }
}

impl View for ChatServer {
    type V = StateV;

    open spec fn view(&self) -> StateV {
        StateV {
            next_conn: self.next_conn,
            sessions: self.sessions@,
            users: self.users.deep_view(),
            waiting: self.waiting.deep_view(),
            groups: self.groups.deep_view(),
        }
    }
}

// ---------------------------------------------------------------------------
// State queries
// ---------------------------------------------------------------------------

impl StateV {
    pub open spec fn has_user(self, c: ConnId) -> bool {
        exists|i: int| 0 <= i < self.users.len() && self.users[i].id == c
    }

    pub open spec fn user_index(self, c: ConnId) -> int {
        choose|i: int| 0 <= i < self.users.len() && self.users[i].id == c
    }

    pub open spec fn user(self, c: ConnId) -> UserV {
        self.users[self.user_index(c)]
    }

    pub open spec fn is_waiting(self, c: ConnId) -> bool {
        has_conn(self.waiting, c)
    }

    pub open spec fn has_group(self, code: Seq<char>) -> bool {
        exists|i: int| 0 <= i < self.groups.len() && self.groups[i].code == code
    }

    pub open spec fn group_index(self, code: Seq<char>) -> int {
        choose|i: int| 0 <= i < self.groups.len() && self.groups[i].code == code
    }

    pub open spec fn group(self, code: Seq<char>) -> GroupV {
        self.groups[self.group_index(code)]
    }

    /// A live session that is neither paired nor grouped (it may be waiting).
    pub open spec fn unattached(self, c: ConnId) -> bool {
        &&& self.has_user(c)
        &&& self.user(c).partner_id is None
        &&& self.user(c).group_id is None
    }

    /// A live session in none of the three placements.
    pub open spec fn detached(self, c: ConnId) -> bool {
        self.unattached(c) && !self.is_waiting(c)
    }

    /// A candidate is eligible for an asker with preference `pref` when it
    /// waits under that preference and its recorded gender satisfies it.
    pub open spec fn eligible(self, pref: Seq<char>, c: ConnId) -> bool {
        &&& self.is_waiting(c)
        &&& self.has_user(c)
        &&& self.user(c).preference == pref
        &&& gender_ok(pref, self.user(c).gender)
    }

    pub open spec fn any_eligible(self, pref: Seq<char>) -> bool {
        exists|c: ConnId| self.eligible(pref, c)
    }

    // -- well-formedness --

    pub open spec fn wf_sessions(self) -> bool {
        &&& forall|i: int, j: int|
            0 <= i < j < self.sessions.len() ==> self.sessions[i] != self.sessions[j]
        &&& forall|i: int| 0 <= i < self.sessions.len() ==> self.sessions[i] < self.next_conn
    }

    pub open spec fn users_distinct(self) -> bool {
        forall|i: int, j: int|
            0 <= i < j < self.users.len() ==> self.users[i].id != self.users[j].id
    }

    pub open spec fn users_registered(self) -> bool {
        forall|i: int|
            0 <= i < self.users.len() ==> self.sessions.contains(#[trigger] self.users[i].id)
    }

    pub open spec fn users_linked(self) -> bool {
        partners_ok(self.users) && group_refs_ok(self.users, self.groups)
    }

    pub open spec fn wf_users(self) -> bool {
        self.users_distinct() && self.users_registered() && self.users_linked()
    }

    pub open spec fn wf_groups(self) -> bool {
        &&& forall|i: int, j: int|
            0 <= i < j < self.groups.len() ==> self.groups[i].code != self.groups[j].code
        &&& forall|gi: int|
            0 <= gi < self.groups.len() ==> (#[trigger] self.groups[gi]).wf_in(self.users)
    }

    pub open spec fn wf_waiting(self) -> bool {
        &&& forall|i: int, j: int|
            0 <= i < j < self.waiting.len() ==> self.waiting[i].conn != self.waiting[j].conn
        &&& forall|i: int|
            0 <= i < self.waiting.len() ==> (#[trigger] self.waiting[i]).wf_in(self.users)
    }

    /// The part of well-formedness that does not mention the session list.
    pub open spec fn wf_core(self) -> bool {
        self.users_distinct() && self.users_linked() && self.wf_groups() && self.wf_waiting()
    }

    pub open spec fn wf(self) -> bool {
        self.wf_sessions() && self.users_registered() && self.wf_core()
    }
}

impl GroupV {
    /// The member list and name list run in parallel: same length, one name
    /// per member, and every member is a live session placed in this group.
    pub open spec fn wf_in(self, users: Seq<UserV>) -> bool {
        &&& self.members.len() == self.usernames.len()
        &&& self.members.len() > 0
        &&& forall|a: int, b: int|
            0 <= a < b < self.members.len() ==> self.members[a] != self.members[b]
        &&& forall|k: int|
            #![trigger self.members[k]]
            0 <= k < self.members.len() ==> member_entry(
                users,
                self.members[k],
                self.code,
                self.usernames[k],
            )
    }
}

/// Some user in `users` is the session `c`, placed in the group `code`
/// under the display name `name`.
pub open spec fn member_entry(users: Seq<UserV>, c: ConnId, code: Seq<char>, name: Seq<char>) -> bool {
    exists|ui: int|
        0 <= ui < users.len() && (#[trigger] users[ui]).id == c && users[ui].group_id == Some(code)
            && users[ui].username == name
}

/// Some user in `users` is the session `p` and its partner link names `c`.
pub open spec fn mutual_partner(users: Seq<UserV>, p: ConnId, c: ConnId) -> bool {
    exists|j: int|
        0 <= j < users.len() && (#[trigger] users[j]).id == p && users[j].partner_id == Some(c)
}

/// Some group in `groups` carries the code `code` and lists the session `c`.
pub open spec fn group_listing(groups: Seq<GroupV>, code: Seq<char>, c: ConnId) -> bool {
    exists|gi: int|
        0 <= gi < groups.len() && (#[trigger] groups[gi]).code == code && groups[gi].members.contains(c)
}

impl WaitV {
    /// A waiting entry names a live session queued under its own preference
    /// and placed nowhere else.
    pub open spec fn wf_in(self, users: Seq<UserV>) -> bool {
        exists|ui: int|
            0 <= ui < users.len() && (#[trigger] users[ui].id) == self.conn
                && users[ui].preference == self.preference && users[ui].partner_id is None
                && users[ui].group_id is None
    }
}

/// Every partner link is mutual, never reflexive, and excludes a group.
pub open spec fn partners_ok(users: Seq<UserV>) -> bool {
    forall|i: int|
        0 <= i < users.len() ==> match #[trigger] users[i].partner_id {
            Some(p) => p != users[i].id && users[i].group_id is None && mutual_partner(
                users,
                p,
                users[i].id,
            ),
            None => true,
        }
}

/// Every group reference points at a live group that lists the user.
pub open spec fn group_refs_ok(users: Seq<UserV>, groups: Seq<GroupV>) -> bool {
    forall|i: int|
        0 <= i < users.len() ==> match #[trigger] users[i].group_id {
            Some(code) => group_listing(groups, code, users[i].id),
            None => true,
        }
}

/// The asker's preference admits exactly the matching recorded gender;
/// any other preference admits nobody.
pub open spec fn gender_ok(pref: Seq<char>, gender: Seq<char>) -> bool {
    ||| pref == "male"@ && gender == "male"@
    ||| pref == "female"@ && gender == "female"@
}

} // verus!

verus! {

// ---------------------------------------------------------------------------
// Sequence helpers
// ---------------------------------------------------------------------------

/// Whether some entry of `w` names connection `x`.
pub open spec fn has_conn(w: Seq<WaitV>, x: ConnId) -> bool {
    exists|i: int| 0 <= i < w.len() && (#[trigger] w[i]).conn == x
}

/// The waiting entries that remain once every entry of connection `c` is gone.
pub open spec fn entries_without(w: Seq<WaitV>, c: ConnId) -> Seq<WaitV>
    decreases w.len(),
{
    if w.len() == 0 {
        Seq::empty()
    } else if w[0].conn == c {
        entries_without(w.drop_first(), c)
    } else {
        seq![w[0]] + entries_without(w.drop_first(), c)
    }
}

/// The connection ids that remain once every occurrence of `c` is gone.
pub open spec fn conns_without(s: Seq<ConnId>, c: ConnId) -> Seq<ConnId>
    decreases s.len(),
{
    if s.len() == 0 {
        Seq::empty()
    } else if s[0] == c {
        conns_without(s.drop_first(), c)
    } else {
        seq![s[0]] + conns_without(s.drop_first(), c)
    }
}

proof fn lemma_contains_head_tail<A>(s: Seq<A>, x: A)
    requires
        s.len() > 0,
    ensures
        s.contains(x) <==> (s[0] == x || s.drop_first().contains(x)),
{
    if s.contains(x) {
        let i = choose|i: int| 0 <= i < s.len() && s[i] == x;
        if i > 0 {
            assert(s.drop_first()[i - 1] == x);
        }
    }
    if s.drop_first().contains(x) {
        let i = choose|i: int| 0 <= i < s.drop_first().len() && s.drop_first()[i] == x;
        assert(s[i + 1] == x);
    }
}

pub proof fn lemma_entries_without(w: Seq<WaitV>, c: ConnId)
    ensures
        forall|x: WaitV| #[trigger] entries_without(w, c).contains(x) <==> (w.contains(x) && x.conn
            != c),
        forall|x: ConnId|
            #[trigger] has_conn(entries_without(w, c), x) <==> (has_conn(w, x) && x != c),
    decreases w.len(),
{
    let r = entries_without(w, c);
    if w.len() == 0 {
        assert forall|x: WaitV| #[trigger] r.contains(x) <==> (w.contains(x) && x.conn != c) by {
            assert(!r.contains(x));
            assert(!w.contains(x));
        }
    } else {
        lemma_entries_without(w.drop_first(), c);
        let t = entries_without(w.drop_first(), c);
        assert forall|x: WaitV| #[trigger] r.contains(x) <==> (w.contains(x) && x.conn != c) by {
            lemma_contains_head_tail(w, x);
            if w[0].conn == c {
                assert(r == t);
            } else {
                assert(r == seq![w[0]] + t);
                assert(r[0] == w[0]);
                assert(r.drop_first() =~= t);
                lemma_contains_head_tail(r, x);
            }
        }
    }
    assert forall|x: ConnId|
        #[trigger] has_conn(r, x) <==> (has_conn(w, x) && x != c) by {
        if has_conn(r, x) {
            let i = choose|i: int| 0 <= i < r.len() && r[i].conn == x;
            assert(r.contains(r[i]));
            assert(w.contains(r[i]));
            let j = choose|j: int| 0 <= j < w.len() && w[j] == r[i];
        }
        if has_conn(w, x) && x != c {
            let i = choose|i: int| 0 <= i < w.len() && w[i].conn == x;
            assert(w.contains(w[i]));
            assert(r.contains(w[i]));
            let j = choose|j: int| 0 <= j < r.len() && r[j] == w[i];
        }
    }
}

pub proof fn lemma_entries_without_distinct(w: Seq<WaitV>, c: ConnId)
    requires
        forall|i: int, j: int| 0 <= i < j < w.len() ==> w[i].conn != w[j].conn,
    ensures
        forall|i: int, j: int|
            0 <= i < j < entries_without(w, c).len() ==> entries_without(w, c)[i].conn
                != entries_without(w, c)[j].conn,
    decreases w.len(),
{
    if w.len() > 0 {
        assert(forall|i: int|
            0 <= i < w.drop_first().len() ==> #[trigger] w.drop_first()[i] == w[i + 1]);
        lemma_entries_without_distinct(w.drop_first(), c);
        let t = entries_without(w.drop_first(), c);
        if w[0].conn != c {
            let r = entries_without(w, c);
            assert(r == seq![w[0]] + t);
            lemma_entries_without(w.drop_first(), c);
            assert forall|i: int, j: int|
                0 <= i < j < r.len() implies r[i].conn != r[j].conn by {
                if i == 0 {
                    assert(r[j] == t[j - 1]);
                    assert(t.contains(t[j - 1]));
                    assert(w.drop_first().contains(t[j - 1]));
                    let k = choose|k: int|
                        0 <= k < w.drop_first().len() && w.drop_first()[k] == t[j - 1];
                    assert(w[k + 1] == t[j - 1]);
                    assert(w[0].conn != w[k + 1].conn);
                } else {
                    assert(r[i] == t[i - 1] && r[j] == t[j - 1]);
                }
            }
        }
    }
}

pub proof fn lemma_conns_without(s: Seq<ConnId>, c: ConnId)
    ensures
        forall|x: ConnId| #[trigger] conns_without(s, c).contains(x) <==> (s.contains(x) && x
            != c),
    decreases s.len(),
{
    let r = conns_without(s, c);
    if s.len() == 0 {
        assert forall|x: ConnId| #[trigger] r.contains(x) <==> (s.contains(x) && x != c) by {
            assert(!r.contains(x));
            assert(!s.contains(x));
        }
    } else {
        lemma_conns_without(s.drop_first(), c);
        let t = conns_without(s.drop_first(), c);
        assert forall|x: ConnId| #[trigger] r.contains(x) <==> (s.contains(x) && x != c) by {
            lemma_contains_head_tail(s, x);
            if s[0] == c {
                assert(r == t);
            } else {
                assert(r == seq![s[0]] + t);
                assert(r[0] == s[0]);
                assert(r.drop_first() =~= t);
                lemma_contains_head_tail(r, x);
            }
        }
    }
}

pub proof fn lemma_conns_without_distinct(s: Seq<ConnId>, c: ConnId)
    requires
        forall|i: int, j: int| 0 <= i < j < s.len() ==> s[i] != s[j],
    ensures
        forall|i: int, j: int|
            0 <= i < j < conns_without(s, c).len() ==> conns_without(s, c)[i] != conns_without(
                s,
                c,
            )[j],
    decreases s.len(),
{
    if s.len() > 0 {
        assert(forall|i: int|
            0 <= i < s.drop_first().len() ==> #[trigger] s.drop_first()[i] == s[i + 1]);
        lemma_conns_without_distinct(s.drop_first(), c);
        let t = conns_without(s.drop_first(), c);
        if s[0] != c {
            let r = conns_without(s, c);
            assert(r == seq![s[0]] + t);
            lemma_conns_without(s.drop_first(), c);
            assert forall|i: int, j: int| 0 <= i < j < r.len() implies r[i] != r[j] by {
                if i == 0 {
                    assert(r[j] == t[j - 1]);
                    assert(t.contains(t[j - 1]));
                    assert(s.drop_first().contains(t[j - 1]));
                    let k = choose|k: int|
                        0 <= k < s.drop_first().len() && s.drop_first()[k] == t[j - 1];
                    assert(s[0] != s[k + 1]);
                } else {
                    assert(r[i] == t[i - 1] && r[j] == t[j - 1]);
                }
            }
        }
    }
}

} // verus!

verus! {

use crate::handler::str_eq;

// ---------------------------------------------------------------------------
// Outcome vocabulary
// ---------------------------------------------------------------------------

pub open spec fn with_partner(u: UserV, p: Option<ConnId>) -> UserV {
    UserV { partner_id: p, ..u }
}

pub open spec fn with_group(u: UserV, g: Option<Seq<char>>) -> UserV {
    UserV { group_id: g, ..u }
}

pub open spec fn chat_started(to: ConnId, code: Option<Seq<char>>) -> OutboundV {
    OutboundV { to, msg: MsgV::ChatStarted { group_code: code } }
}

pub open spec fn waiting_for_match(to: ConnId) -> OutboundV {
    OutboundV { to, msg: MsgV::WaitingForMatch }
}

pub open spec fn group_not_found(to: ConnId) -> OutboundV {
    OutboundV { to, msg: MsgV::GroupNotFound }
}

pub open spec fn partner_gone(to: ConnId) -> OutboundV {
    OutboundV { to, msg: MsgV::PartnerDisconnected }
}

pub open spec fn members_update(to: ConnId, names: Seq<Seq<char>>) -> OutboundV {
    OutboundV { to, msg: MsgV::GroupMembersUpdate(names) }
}

pub open spec fn user_joined(to: ConnId, name: Seq<char>) -> OutboundV {
    OutboundV { to, msg: MsgV::UserJoinedGroup(name) }
}

pub open spec fn user_left(to: ConnId, name: Seq<char>) -> OutboundV {
    OutboundV { to, msg: MsgV::UserLeftGroup(name) }
}

pub open spec fn receive_msg(to: ConnId, m: MessageV, sender: Seq<char>) -> OutboundV {
    OutboundV { to, msg: MsgV::ReceiveMessage { message: m, sender } }
}

/// Both sides of a fresh pairing point at each other, both leave every
/// waiting pool, and each receives exactly one `chat_started`.
pub open spec fn paired_outcome(
    pre: StateV,
    post: StateV,
    out: Seq<OutboundV>,
    a: ConnId,
    b: ConnId,
) -> bool {
    &&& post.next_conn == pre.next_conn
    &&& post.sessions == pre.sessions
    &&& post.groups == pre.groups
    &&& post.users.len() == pre.users.len()
    &&& forall|i: int|
        0 <= i < pre.users.len() ==> #[trigger] post.users[i] == (if pre.users[i].id == a {
            with_partner(pre.users[i], Some(b))
        } else if pre.users[i].id == b {
            with_partner(pre.users[i], Some(a))
        } else {
            pre.users[i]
        })
    &&& post.waiting == entries_without(entries_without(pre.waiting, a), b)
    &&& out == seq![chat_started(a, None), chat_started(b, None)]
}

// ---------------------------------------------------------------------------
// Ground facts about lookups
// ---------------------------------------------------------------------------

pub proof fn lemma_user_at(s: StateV, i: int)
    requires
        forall|a: int, b: int| 0 <= a < b < s.users.len() ==> s.users[a].id != s.users[b].id,
        0 <= i < s.users.len(),
    ensures
        s.has_user(s.users[i].id),
        s.user_index(s.users[i].id) == i,
        s.user(s.users[i].id) == s.users[i],
{
    assert(s.has_user(s.users[i].id));
    let j = s.user_index(s.users[i].id);
    if j != i {
        assert(s.users[j].id != s.users[i].id);
    }
}

pub proof fn lemma_group_at(s: StateV, i: int)
    requires
        forall|a: int, b: int| 0 <= a < b < s.groups.len() ==> s.groups[a].code != s.groups[b].code,
        0 <= i < s.groups.len(),
    ensures
        s.has_group(s.groups[i].code),
        s.group_index(s.groups[i].code) == i,
        s.group(s.groups[i].code) == s.groups[i],
{
    assert(s.has_group(s.groups[i].code));
    let j = s.group_index(s.groups[i].code);
    if j != i {
        assert(s.groups[j].code != s.groups[i].code);
    }
}

// ---------------------------------------------------------------------------
// Lookups
// ---------------------------------------------------------------------------

impl ChatServer {
    /// The index of the session of connection `conn`, if one is live.
    pub fn find_user(&self, conn: ConnId) -> (r: Option<usize>)
        ensures
            match r {
                Some(i) => i < self.users.len() && self@.users[i as int].id == conn,
                None => !self@.has_user(conn),
            },
    {
        let mut i: usize = 0;
        while i < self.users.len()
            invariant
                i <= self.users.len(),
                forall|j: int| 0 <= j < i ==> self@.users[j].id != conn,
            decreases self.users.len() - i,
        {
            if self.users[i].id == conn {
                return Some(i);
            }
            i += 1;
        }
        None
    }

    /// The index of the group with the given code, if one is live.
    pub fn find_group(&self, code: &str) -> (r: Option<usize>)
        ensures
            match r {
                Some(i) => i < self.groups.len() && self@.groups[i as int].code == code@,
                None => !self@.has_group(code@),
            },
    {
        let mut i: usize = 0;
        while i < self.groups.len()
            invariant
                i <= self.groups.len(),
                forall|j: int| 0 <= j < i ==> self@.groups[j].code != code@,
            decreases self.groups.len() - i,
        {
            if str_eq(self.groups[i].code.as_str(), code) {
                return Some(i);
            }
            i += 1;
        }
        None
    }

    /// Whether `conn` was handed out by `connect` and not yet unregistered.
    pub fn has_session(&self, conn: ConnId) -> (r: bool)
        ensures
            r == self@.sessions.contains(conn),
    {
        let mut i: usize = 0;
        while i < self.sessions.len()
            invariant
                i <= self.sessions.len(),
                forall|j: int| 0 <= j < i ==> self@.sessions[j] != conn,
            decreases self.sessions.len() - i,
        {
            if self.sessions[i] == conn {
                return true;
            }
            i += 1;
        }
        false
    }

    /// Drops every waiting-pool entry of `conn`, keeping everything else.
    fn purge_waiting(&mut self, conn: ConnId)
        ensures
            final(self).next_conn == old(self).next_conn,
            final(self).sessions == old(self).sessions,
            final(self).users == old(self).users,
            final(self).groups == old(self).groups,
            final(self)@.waiting == entries_without(old(self)@.waiting, conn),
    {
        let mut kept: Vec<WaitEntry> = Vec::new();
        proof {
            assert(kept.deep_view() + entries_without(self.waiting.deep_view(), conn)
                =~= entries_without(old(self)@.waiting, conn));
        }
        while self.waiting.len() > 0
            invariant
                self.next_conn == old(self).next_conn,
                self.sessions == old(self).sessions,
                self.users == old(self).users,
                self.groups == old(self).groups,
                kept.deep_view() + entries_without(self.waiting.deep_view(), conn)
                    == entries_without(old(self)@.waiting, conn),
            decreases self.waiting.len(),
        {
            let ghost prev = self.waiting.deep_view();
            let ghost kprev = kept.deep_view();
            let e = self.waiting.remove(0);
            proof {
                assert(self.waiting.deep_view() =~= prev.drop_first());
                assert(e.deep_view() == prev[0]);
            }
            if e.conn != conn {
                kept.push(e);
                proof {
                    assert(kept.deep_view() =~= kprev.push(prev[0]));
                    assert(kprev.push(prev[0]) + entries_without(prev.drop_first(), conn)
                        =~= kprev + (seq![prev[0]] + entries_without(prev.drop_first(), conn)));
                }
            }
        }
        self.waiting = kept;
        proof {
            assert(self.waiting.deep_view() + entries_without(Seq::<WaitV>::empty(), conn)
                =~= self.waiting.deep_view());
            assert(kept.deep_view() + entries_without(Seq::<WaitV>::empty(), conn)
                == entries_without(old(self)@.waiting, conn));
        }
    }
}

} // verus!

verus! {

/// The session-independent part of well-formedness carries over between two
/// states with the same users, waiting pools and groups.
proof fn lemma_wf_core_same(pre: StateV, post: StateV)
    requires
        pre.wf_core(),
        post.users == pre.users,
        post.waiting == pre.waiting,
        post.groups == pre.groups,
    ensures
        post.wf_core(),
{
}

/// Appending a never-used id to the session list preserves well-formedness,
/// and that id names no current session or user.
#[verifier::spinoff_prover]
proof fn lemma_register_preserves_wf(pre: StateV, post: StateV, id: ConnId)
    requires
        pre.wf(),
        id == pre.next_conn,
        pre.next_conn < u64::MAX,
        post == (StateV {
            next_conn: (id + 1) as u64,
            sessions: pre.sessions.push(id),
            ..pre
        }),
    ensures
        post.wf(),
        !pre.sessions.contains(id),
        !pre.has_user(id),
{
    if pre.sessions.contains(id) {
        let i = choose|i: int| 0 <= i < pre.sessions.len() && pre.sessions[i] == id;
        assert(pre.sessions[i] < id);
    }
    if pre.has_user(id) {
        let i = pre.user_index(id);
        assert(pre.sessions.contains(pre.users[i].id));
    }
    assert forall|i: int, j: int|
        0 <= i < j < post.sessions.len() implies post.sessions[i] != post.sessions[j] by {
        assert(post.sessions[i] == pre.sessions[i]);
        assert(pre.sessions[i] < id);
        if j < post.sessions.len() - 1 {
            assert(post.sessions[j] == pre.sessions[j]);
        }
    }
    assert forall|i: int|
        0 <= i < post.sessions.len() implies post.sessions[i] < post.next_conn by {
        if i < post.sessions.len() - 1 {
            assert(post.sessions[i] == pre.sessions[i]);
            assert(pre.sessions[i] < id);
        }
    }
    assert(post.wf_sessions());
    assert forall|i: int|
        0 <= i < post.users.len() implies post.sessions.contains(#[trigger] post.users[i].id) by {
        assert(pre.sessions.contains(pre.users[i].id));
        let j = choose|j: int| 0 <= j < pre.sessions.len() && pre.sessions[j] == pre.users[i].id;
        assert(post.sessions[j] == post.users[i].id);
    }
    assert(post.users_registered());
    lemma_wf_core_same(pre, post);
}

/// Changing only partner links (never a group reference, an id or a name)
/// keeps every group well-placed and every group reference valid.
#[verifier::spinoff_prover]
proof fn lemma_groups_under_partner_change(
    users: Seq<UserV>,
    users2: Seq<UserV>,
    groups: Seq<GroupV>,
)
    requires
        users2.len() == users.len(),
        forall|ui: int|
            0 <= ui < users.len() ==> (#[trigger] users2[ui]).id == users[ui].id
                && users2[ui].group_id == users[ui].group_id && users2[ui].username
                == users[ui].username,
        forall|gi: int| 0 <= gi < groups.len() ==> (#[trigger] groups[gi]).wf_in(users),
        group_refs_ok(users, groups),
    ensures
        forall|gi: int| 0 <= gi < groups.len() ==> (#[trigger] groups[gi]).wf_in(users2),
        group_refs_ok(users2, groups),
{
    assert forall|gi: int|
        0 <= gi < groups.len() implies (#[trigger] groups[gi]).wf_in(users2) by {
        let g = groups[gi];
        assert(g.wf_in(users));
        assert forall|k: int|
            #![trigger g.members[k]]
            0 <= k < g.members.len() implies member_entry(
            users2,
            g.members[k],
            g.code,
            g.usernames[k],
        ) by {
            assert(member_entry(users, g.members[k], g.code, g.usernames[k]));
            let ui = choose|ui: int|
                0 <= ui < users.len() && (#[trigger] users[ui]).id == g.members[k]
                    && users[ui].group_id == Some(g.code) && users[ui].username == g.usernames[k];
            assert(users2[ui].id == g.members[k]);
        }
    }
    assert forall|i: int|
        0 <= i < users2.len() implies match #[trigger] users2[i].group_id {
        Some(code) => group_listing(groups, code, users2[i].id),
        None => true,
    } by {
        assert(users2[i].group_id == users[i].group_id);
        assert(users2[i].id == users[i].id);
    }
}

/// The shape of the user list after a symmetric pairing of `a` and `b`.
#[verifier::spinoff_prover]
proof fn lemma_pair_users_pointwise(pre: StateV, users2: Seq<UserV>, a: ConnId, b: ConnId, i: int, j: int)
    requires
        pre.users_distinct(),
        a != b,
        0 <= i < pre.users.len(),
        0 <= j < pre.users.len(),
        pre.users[i].id == a,
        pre.users[j].id == b,
        users2 == pre.users.update(i, with_partner(pre.users[i], Some(b))).update(
            j,
            with_partner(pre.users[j], Some(a)),
        ),
    ensures
        users2.len() == pre.users.len(),
        forall|k: int|
            0 <= k < pre.users.len() ==> #[trigger] users2[k] == (if pre.users[k].id == a {
                with_partner(pre.users[k], Some(b))
            } else if pre.users[k].id == b {
                with_partner(pre.users[k], Some(a))
            } else {
                pre.users[k]
            }),
{
    assert(i != j);
    assert forall|k: int|
        0 <= k < pre.users.len() implies #[trigger] users2[k] == (if pre.users[k].id == a {
        with_partner(pre.users[k], Some(b))
    } else if pre.users[k].id == b {
        with_partner(pre.users[k], Some(a))
    } else {
        pre.users[k]
    }) by {
        if pre.users[k].id == a && k != i {
            assert(pre.users[k].id != pre.users[i].id);
        }
        if pre.users[k].id == b && k != j {
            assert(pre.users[k].id != pre.users[j].id);
        }
    }
}

/// Pairing two unattached users keeps every partner link mutual.
#[verifier::spinoff_prover]
proof fn lemma_pair_partners_ok(pre: StateV, users2: Seq<UserV>, a: ConnId, b: ConnId, i: int, j: int)
    requires
        pre.users_distinct(),
        partners_ok(pre.users),
        a != b,
        0 <= i < pre.users.len(),
        0 <= j < pre.users.len(),
        pre.users[i].id == a,
        pre.users[j].id == b,
        pre.users[i].partner_id is None,
        pre.users[j].partner_id is None,
        pre.users[i].group_id is None,
        pre.users[j].group_id is None,
        users2.len() == pre.users.len(),
        forall|k: int|
            0 <= k < pre.users.len() ==> #[trigger] users2[k] == (if pre.users[k].id == a {
                with_partner(pre.users[k], Some(b))
            } else if pre.users[k].id == b {
                with_partner(pre.users[k], Some(a))
            } else {
                pre.users[k]
            }),
    ensures
        partners_ok(users2),
{
    assert(i != j);
    assert forall|k: int|
        0 <= k < users2.len() implies match #[trigger] users2[k].partner_id {
        Some(p) => p != users2[k].id && users2[k].group_id is None && mutual_partner(
            users2,
            p,
            users2[k].id,
        ),
        None => true,
    } by {
        if pre.users[k].id == a {
            assert(users2[k] == with_partner(pre.users[k], Some(b)));
            assert(users2[j].id == b);
            assert(users2[j].partner_id == Some(a));
            assert(mutual_partner(users2, b, a));
        } else if pre.users[k].id == b {
            assert(users2[i].id == a);
            assert(users2[i].partner_id == Some(b));
            assert(mutual_partner(users2, a, b));
        } else {
            assert(users2[k] == pre.users[k]);
            match pre.users[k].partner_id {
                Some(p) => {
                    assert(mutual_partner(pre.users, p, pre.users[k].id));
                    let m = choose|m: int|
                        0 <= m < pre.users.len() && (#[trigger] pre.users[m]).id == p
                            && pre.users[m].partner_id == Some(pre.users[k].id);
                    assert(pre.users[m].partner_id is Some);
                    assert(pre.users[m].id != a && pre.users[m].id != b);
                    assert(users2[m] == pre.users[m]);
                    assert(mutual_partner(users2, p, users2[k].id));
                },
                None => {},
            }
        }
    }
}

/// Purged pools stay well-formed when only partner links of the two purged
/// connections changed.
#[verifier::spinoff_prover]
proof fn lemma_pair_waiting_ok(pre: StateV, users2: Seq<UserV>, waiting2: Seq<WaitV>, a: ConnId, b: ConnId)
    requires
        pre.wf_waiting(),
        users2.len() == pre.users.len(),
        forall|k: int|
            0 <= k < pre.users.len() ==> #[trigger] users2[k] == (if pre.users[k].id == a {
                with_partner(pre.users[k], Some(b))
            } else if pre.users[k].id == b {
                with_partner(pre.users[k], Some(a))
            } else {
                pre.users[k]
            }),
        waiting2 == entries_without(entries_without(pre.waiting, a), b),
    ensures
        forall|x: int, y: int| 0 <= x < y < waiting2.len() ==> waiting2[x].conn != waiting2[y].conn,
        forall|k: int| 0 <= k < waiting2.len() ==> (#[trigger] waiting2[k]).wf_in(users2),
{
    lemma_entries_without(pre.waiting, a);
    lemma_entries_without(entries_without(pre.waiting, a), b);
    lemma_entries_without_distinct(pre.waiting, a);
    lemma_entries_without_distinct(entries_without(pre.waiting, a), b);
    assert forall|k: int|
        0 <= k < waiting2.len() implies (#[trigger] waiting2[k]).wf_in(users2) by {
        let e = waiting2[k];
        assert(waiting2.contains(e));
        assert(entries_without(pre.waiting, a).contains(e));
        assert(pre.waiting.contains(e));
        assert(e.conn != a && e.conn != b);
        let kk = choose|kk: int| 0 <= kk < pre.waiting.len() && pre.waiting[kk] == e;
        assert(pre.waiting[kk].wf_in(pre.users));
        let ui = choose|ui: int|
            0 <= ui < pre.users.len() && (#[trigger] pre.users[ui].id) == e.conn
                && pre.users[ui].preference == e.preference && pre.users[ui].partner_id is None
                && pre.users[ui].group_id is None;
        assert(users2[ui] == pre.users[ui]);
    }
}

/// Setting two fresh symmetric partner links and purging both ids from the
/// waiting pools preserves well-formedness and yields the pairing outcome.
#[verifier::spinoff_prover]
proof fn lemma_pair_preserves_wf(
    pre: StateV,
    post: StateV,
    a: ConnId,
    b: ConnId,
    i: int,
    j: int,
)
    requires
        pre.wf(),
        pre.unattached(a),
        pre.unattached(b),
        a != b,
        0 <= i < pre.users.len(),
        0 <= j < pre.users.len(),
        pre.users[i].id == a,
        pre.users[j].id == b,
        post.next_conn == pre.next_conn,
        post.sessions == pre.sessions,
        post.groups == pre.groups,
        post.users == pre.users.update(i, with_partner(pre.users[i], Some(b))).update(
            j,
            with_partner(pre.users[j], Some(a)),
        ),
        post.waiting == entries_without(entries_without(pre.waiting, a), b),
    ensures
        post.wf(),
        post.users.len() == pre.users.len(),
        forall|k: int|
            0 <= k < pre.users.len() ==> #[trigger] post.users[k] == (if pre.users[k].id == a {
                with_partner(pre.users[k], Some(b))
            } else if pre.users[k].id == b {
                with_partner(pre.users[k], Some(a))
            } else {
                pre.users[k]
            }),
{
    assert(i != j);
    assert(pre.user_index(a) == i && pre.user(a) == pre.users[i]) by {
        lemma_user_at(pre, i);
    }
    assert(pre.user_index(b) == j && pre.user(b) == pre.users[j]) by {
        lemma_user_at(pre, j);
    }
    lemma_pair_users_pointwise(pre, post.users, a, b, i, j);
    assert forall|x: int, y: int|
        0 <= x < y < post.users.len() implies post.users[x].id != post.users[y].id by {
        assert(post.users[x].id == pre.users[x].id);
        assert(post.users[y].id == pre.users[y].id);
    }
    assert forall|x: int|
        0 <= x < post.users.len() implies post.sessions.contains(#[trigger] post.users[x].id) by {
        assert(post.users[x].id == pre.users[x].id);
        assert(pre.sessions.contains(pre.users[x].id));
    }
    lemma_pair_partners_ok(pre, post.users, a, b, i, j);
    assert forall|ui: int|
        0 <= ui < pre.users.len() implies (#[trigger] post.users[ui]).id == pre.users[ui].id
            && post.users[ui].group_id == pre.users[ui].group_id && post.users[ui].username
            == pre.users[ui].username by {}
    lemma_groups_under_partner_change(pre.users, post.users, pre.groups);
    lemma_pair_waiting_ok(pre, post.users, post.waiting, a, b);
    assert(post.wf_sessions());
    assert(post.users_registered());
    assert(post.users_distinct());
    assert(post.users_linked());
    assert(post.wf_groups());
    assert(post.wf_waiting());
}

impl ChatServer {
    /// A coordinator with no connections, sessions, waiters or groups.
    pub fn new() -> (s: ChatServer)
        ensures
            s@ == (StateV {
                next_conn: 0,
                sessions: Seq::empty(),
                users: Seq::empty(),
                waiting: Seq::empty(),
                groups: Seq::empty(),
            }),
            s@.wf(),
    {
        let s = ChatServer {
            next_conn: 0,
            sessions: Vec::new(),
            users: Vec::new(),
            waiting: Vec::new(),
            groups: Vec::new(),
        };
        proof {
            assert(s@ =~= StateV {
                next_conn: 0,
                sessions: Seq::empty(),
                users: Seq::empty(),
                waiting: Seq::empty(),
                groups: Seq::empty(),
            });
        }
        s
    }

    /// Registers one fresh connection and binds it to a new id.
    /// The id is fresh: no current session, user, pool or group names it.
    pub fn connect(&mut self) -> (id: ConnId)
        requires
            old(self)@.wf(),
            old(self)@.next_conn < u64::MAX,
        ensures
            final(self)@.wf(),
            id == old(self)@.next_conn,
            !old(self)@.sessions.contains(id),
            !old(self)@.has_user(id),
            final(self)@ == (StateV {
                next_conn: (id + 1) as u64,
                sessions: old(self)@.sessions.push(id),
                ..old(self)@
            }),
    {
        let id = self.next_conn;
        self.sessions.push(id);
        self.next_conn = id + 1;
        proof {
            let pre = old(self)@;
            assert(self@ =~= StateV {
                next_conn: (id + 1) as u64,
                sessions: pre.sessions.push(id),
                ..pre
            });
            lemma_register_preserves_wf(pre, self@, id);
        }
        id
    }

    /// Pairs two live, unplaced sessions: partner links set symmetrically,
    /// both purged from every waiting pool, one `chat_started` to each.
    #[verifier::spinoff_prover]
    pub fn connect_users(&mut self, user1_id: ConnId, user2_id: ConnId) -> (r: Vec<Outbound>)
        requires
            old(self)@.wf(),
            old(self)@.unattached(user1_id),
            old(self)@.unattached(user2_id),
            user1_id != user2_id,
        ensures
            final(self)@.wf(),
            paired_outcome(old(self)@, final(self)@, r.deep_view(), user1_id, user2_id),
    {
        let ghost pre = old(self)@;
        let i = self.find_user(user1_id).unwrap();
        proof {
            lemma_user_at(pre, i as int);
        }
        self.users[i].partner_id = Some(user2_id);
        proof {
            assert(self@.users =~= pre.users.update(i as int, with_partner(pre.users[i as int], Some(user2_id))));
            assert(self@.has_user(user2_id)) by {
                let j = pre.user_index(user2_id);
                assert(self@.users[j].id == user2_id);
            }
        }
        let j = self.find_user(user2_id).unwrap();
        proof {
            assert(j as int != i as int);
            assert(pre.users[j as int].id == user2_id);
            lemma_user_at(pre, j as int);
        }
        self.users[j].partner_id = Some(user1_id);
        let ghost mid = self@;
        proof {
            assert(mid.users =~= pre.users.update(i as int, with_partner(pre.users[i as int], Some(user2_id))).update(j as int, with_partner(pre.users[j as int], Some(user1_id))));
        }
        self.purge_waiting(user1_id);
        self.purge_waiting(user2_id);
        let mut r: Vec<Outbound> = Vec::new();
        r.push(Outbound { to: user1_id, msg: ServerMessage::ChatStarted { group_code: None } });
        r.push(Outbound { to: user2_id, msg: ServerMessage::ChatStarted { group_code: None } });
        proof {
            let post = self@;
            assert(r.deep_view() =~= seq![chat_started(user1_id, None), chat_started(user2_id, None)]);
            assert(post.users == mid.users);
            lemma_pair_preserves_wf(pre, post, user1_id, user2_id, i as int, j as int);
        }
        r
    }
}

} // verus!

verus! {

/// Relies on rand::random_range: a uniform draw from the half-open range
/// of the numbers below `n`; the range is never empty here.
#[verifier::external_body]
fn random_below(n: usize) -> (r: usize)
    requires
        n > 0,
    ensures
        r < n,
{
    rand::random_range(0..n)
}

/// The waiting entry at `e` could be matched by an asker whose preference
/// is `pref`.
pub open spec fn eligible_at(s: StateV, pref: Seq<char>, e: int) -> bool {
    &&& 0 <= e < s.waiting.len()
    &&& s.waiting[e].preference == pref
    &&& s.has_user(s.waiting[e].conn)
    &&& gender_ok(pref, s.user(s.waiting[e].conn).gender)
}

/// The asker found nobody: it joins its own preference's pool and is told
/// to wait.
pub open spec fn enqueued_outcome(
    pre: StateV,
    post: StateV,
    out: Seq<OutboundV>,
    conn: ConnId,
    pref: Seq<char>,
) -> bool {
    &&& post == (StateV { waiting: pre.waiting.push(WaitV { preference: pref, conn }), ..pre })
    &&& out == seq![waiting_for_match(conn)]
}

/// Matchmaking pairs the asker with some eligible waiter, or enqueues it
/// when there is none.
pub open spec fn match_outcome(pre: StateV, post: StateV, out: Seq<OutboundV>, conn: ConnId) -> bool {
    if !pre.has_user(conn) {
        post == pre && out == Seq::<OutboundV>::empty()
    } else {
        let pref = pre.user(conn).preference;
        if pre.any_eligible(pref) {
            exists|c: ConnId| pre.eligible(pref, c) && paired_outcome(pre, post, out, conn, c)
        } else {
            enqueued_outcome(pre, post, out, conn, pref)
        }
    }
}

impl ChatServer {
    /// Matchmaking for a freshly joined 1:1 session: pick an eligible waiter
    /// uniformly at random and pair, or enqueue the asker. With no session
    /// for the asker the command is a no-op.
    pub fn find_match(&mut self, conn: ConnId) -> (r: Vec<Outbound>)
        requires
            old(self)@.wf(),
            old(self)@.has_user(conn) ==> old(self)@.detached(conn),
        ensures
            final(self)@.wf(),
            match_outcome(old(self)@, final(self)@, r.deep_view(), conn),
    {
        let ghost pre = self@;
        let found = self.find_user(conn);
        if found.is_none() {
            let r: Vec<Outbound> = Vec::new();
            proof {
                assert(r.deep_view() =~= Seq::<OutboundV>::empty());
            }
            return r;
        }
        let ui = found.unwrap();
        proof {
            lemma_user_at(pre, ui as int);
        }
        let pref = self.users[ui].preference.clone();
        let mut cands: Vec<ConnId> = Vec::new();
        let mut k: usize = 0;
        while k < self.waiting.len()
            invariant
                *self == *old(self),
                self@ == pre,
                pre.wf(),
                pref@ == pre.user(conn).preference,
                k <= self.waiting.len(),
                self.waiting.len() == pre.waiting.len(),
                forall|x: int| 0 <= x < cands@.len() ==> pre.eligible(pref@, #[trigger] cands@[x]),
                forall|e: int|
                    0 <= e < k && eligible_at(pre, pref@, e) ==> cands@.contains(
                        pre.waiting[e].conn,
                    ),
            decreases self.waiting.len() - k,
        {
            let c = self.waiting[k].conn;
            proof {
                assert(pre.waiting[k as int] == self.waiting@[k as int]@);
            }
            if str_eq(self.waiting[k].preference.as_str(), pref.as_str()) {
                match self.find_user(c) {
                    Some(ci) => {
                        proof {
                            lemma_user_at(pre, ci as int);
                        }
                        let ok = (str_eq(pref.as_str(), "male") && str_eq(
                            self.users[ci].gender.as_str(),
                            "male",
                        )) || (str_eq(pref.as_str(), "female") && str_eq(
                            self.users[ci].gender.as_str(),
                            "female",
                        ));
                        if ok {
                            proof {
                                assert(pre.has_user(c));
                                assert(pre.user(c) == pre.users[ci as int]);
                                assert(pre.is_waiting(c));
                                assert(pre.eligible(pref@, c));
                            }
                            let ghost prev = cands@;
                            cands.push(c);
                            proof {
                                assert(cands@ == prev.push(c));
                                assert(cands@[prev.len() as int] == c);
                                assert forall|x: int|
                                    0 <= x < cands@.len() implies pre.eligible(
                                    pref@,
                                    #[trigger] cands@[x],
                                ) by {
                                    if x < prev.len() {
                                        assert(cands@[x] == prev[x]);
                                    }
                                }
                                assert forall|e: int|
                                    0 <= e < k + 1 && eligible_at(pre, pref@, e) implies cands@
                                    .contains(pre.waiting[e].conn) by {
                                    if e < k {
                                        assert(prev.contains(pre.waiting[e].conn));
                                        let x = choose|x: int|
                                            0 <= x < prev.len() && prev[x] == pre.waiting[e].conn;
                                        assert(cands@[x] == pre.waiting[e].conn);
                                    } else {
                                        assert(cands@[prev.len() as int] == pre.waiting[e].conn);
                                    }
                                }
                            }
                        } else {
                            proof {
                                assert(!gender_ok(pref@, pre.user(c).gender));
                                assert(!eligible_at(pre, pref@, k as int));
                            }
                        }
                    },
                    None => {
                        proof {
                            assert(!eligible_at(pre, pref@, k as int));
                        }
                    },
                }
            } else {
                proof {
                    assert(!eligible_at(pre, pref@, k as int));
                }
            }
            k += 1;
        }
        if cands.len() == 0 {
            proof {
                if pre.any_eligible(pref@) {
                    let c = choose|c: ConnId| pre.eligible(pref@, c);
                    let e = choose|e: int| 0 <= e < pre.waiting.len() && pre.waiting[e].conn == c;
                    assert(pre.waiting[e].wf_in(pre.users));
                    let wu = choose|wu: int|
                        0 <= wu < pre.users.len() && (#[trigger] pre.users[wu].id) == c
                            && pre.users[wu].preference == pre.waiting[e].preference
                            && pre.users[wu].partner_id is None && pre.users[wu].group_id is None;
                    lemma_user_at(pre, wu);
                    assert(pre.user(c) == pre.users[wu]);
                    assert(pre.waiting[e].preference == pref@);
                    assert(eligible_at(pre, pref@, e));
                    assert(cands@.contains(c));
                }
                assert(!pre.any_eligible(pref@));
            }
            let entry = WaitEntry { preference: pref, conn };
            self.waiting.push(entry);
            let mut r: Vec<Outbound> = Vec::new();
            r.push(Outbound { to: conn, msg: ServerMessage::WaitingForMatch });
            proof {
                let post = self@;
                assert(post.waiting =~= pre.waiting.push(WaitV { preference: pref@, conn }));
                assert(post =~= StateV {
                    waiting: pre.waiting.push(WaitV { preference: pref@, conn }),
                    ..pre
                });
                assert(r.deep_view() =~= seq![waiting_for_match(conn)]);
                assert(enqueued_outcome(pre, post, r.deep_view(), conn, pref@));
                // wf: one new entry for a detached user, all else unchanged
                assert forall|x: int, y: int|
                    0 <= x < y < post.waiting.len() implies post.waiting[x].conn
                    != post.waiting[y].conn by {
                    if y == post.waiting.len() - 1 {
                        assert(post.waiting[x] == pre.waiting[x]);
                        assert(has_conn(pre.waiting, pre.waiting[x].conn));
                    } else {
                        assert(post.waiting[x] == pre.waiting[x]);
                        assert(post.waiting[y] == pre.waiting[y]);
                    }
                }
                assert forall|e: int|
                    0 <= e < post.waiting.len() implies (#[trigger] post.waiting[e]).wf_in(
                    post.users,
                ) by {
                    if e < post.waiting.len() - 1 {
                        assert(post.waiting[e] == pre.waiting[e]);
                        assert(pre.waiting[e].wf_in(pre.users));
                    } else {
                        let wu = pre.user_index(conn);
                        assert(pre.users[wu].id == conn);
                    }
                }
                assert(post.wf());
            }
            r
        } else {
            let idx = random_below(cands.len());
            let partner = cands[idx];
            proof {
                assert(pre.eligible(pref@, partner));
                assert(pre.any_eligible(pref@));
                let e = choose|e: int|
                    0 <= e < pre.waiting.len() && pre.waiting[e].conn == partner;
                assert(pre.waiting[e].wf_in(pre.users));
                let wu = choose|wu: int|
                    0 <= wu < pre.users.len() && (#[trigger] pre.users[wu].id) == partner
                        && pre.users[wu].preference == pre.waiting[e].preference
                        && pre.users[wu].partner_id is None && pre.users[wu].group_id is None;
                lemma_user_at(pre, wu);
                assert(pre.unattached(partner));
                assert(conn != partner);
            }
            let r = self.connect_users(conn, partner);
            proof {
                assert(pre.eligible(pref@, partner) && paired_outcome(
                    pre,
                    self@,
                    r.deep_view(),
                    conn,
                    partner,
                ));
            }
            r
        }
    }
}

} // verus!

verus! {

// ---------------------------------------------------------------------------
// The disconnect cascade
// ---------------------------------------------------------------------------

/// The index of connection `c` in a member list.
pub open spec fn idx_in(s: Seq<ConnId>, c: ConnId) -> int {
    choose|k: int| 0 <= k < s.len() && s[k] == c
}

pub proof fn lemma_member_at(s: Seq<ConnId>, k: int)
    requires
        forall|a: int, b: int| 0 <= a < b < s.len() ==> s[a] != s[b],
        0 <= k < s.len(),
    ensures
        s.contains(s[k]),
        idx_in(s, s[k]) == k,
{
    assert(s.contains(s[k]));
    let j = idx_in(s, s[k]);
    if j != k {
        assert(s[j] != s[k]);
    }
}

/// Every partner link naming `p` is cleared; everything else is kept.
pub open spec fn partner_cleared(users1: Seq<UserV>, users2: Seq<UserV>, p: ConnId) -> bool {
    &&& users2.len() == users1.len()
    &&& forall|x: int|
        0 <= x < users1.len() ==> #[trigger] users2[x] == (if users1[x].id == p {
            with_partner(users1[x], None)
        } else {
            users1[x]
        })
}

/// What leaving a group does to the group list and whom it notifies.
pub open spec fn group_departure(
    pre: StateV,
    post: StateV,
    out: Seq<OutboundV>,
    conn: ConnId,
    code: Seq<char>,
    name: Seq<char>,
) -> bool {
    if !pre.has_group(code) || !pre.group(code).members.contains(conn) {
        post.groups == pre.groups && out == Seq::<OutboundV>::empty()
    } else {
        let gi = pre.group_index(code);
        let g = pre.groups[gi];
        let k = idx_in(g.members, conn);
        let m2 = g.members.remove(k);
        let n2 = g.usernames.remove(k);
        if g.members.len() == 1 {
            post.groups == pre.groups.remove(gi) && out == Seq::<OutboundV>::empty()
        } else {
            &&& post.groups == pre.groups.update(
                gi,
                GroupV { code: g.code, members: m2, usernames: n2 },
            )
            &&& out.len() == 2 * m2.len()
            &&& forall|x: int|
                #![trigger m2[x]]
                0 <= x < m2.len() ==> out[2 * x] == user_left(m2[x], name) && out[2 * x + 1]
                    == members_update(m2[x], n2)
        }
    }
}

/// The disconnect cascade: the session is removed; a 1:1 partner is unlinked
/// and told exactly once; a group is left (and dies when emptied) with the
/// remaining members told; the connection leaves every waiting pool.
pub open spec fn cascade_outcome(pre: StateV, post: StateV, out: Seq<OutboundV>, conn: ConnId) -> bool {
    &&& post.next_conn == pre.next_conn
    &&& post.sessions == pre.sessions
    &&& post.waiting == entries_without(pre.waiting, conn)
    &&& if !pre.has_user(conn) {
        post.users == pre.users && post.groups == pre.groups && out == Seq::<OutboundV>::empty()
    } else {
        let u = pre.user(conn);
        let users1 = pre.users.remove(pre.user_index(conn));
        match u.partner_id {
            Some(p) => {
                &&& post.groups == pre.groups
                &&& partner_cleared(users1, post.users, p)
                &&& out == seq![partner_gone(p)]
            },
            None => {
                &&& post.users == users1
                &&& match u.group_id {
                    Some(code) => group_departure(pre, post, out, conn, code, u.username),
                    None => post.groups == pre.groups && out == Seq::<OutboundV>::empty(),
                }
            },
        }
    }
}

/// Removing one user's session keeps all links of the others intact.
#[verifier::spinoff_prover]
proof fn lemma_remove_user(pre: StateV, users1: Seq<UserV>, conn: ConnId, ui: int)
    requires
        pre.wf(),
        0 <= ui < pre.users.len(),
        pre.users[ui].id == conn,
        users1 == pre.users.remove(ui),
    ensures
        forall|x: int, y: int| 0 <= x < y < users1.len() ==> users1[x].id != users1[y].id,
        forall|x: int| 0 <= x < users1.len() ==> pre.sessions.contains(#[trigger] users1[x].id),
        forall|x: int| 0 <= x < users1.len() ==> (#[trigger] users1[x]).id != conn,
        forall|gi: int|
            0 <= gi < pre.groups.len() && !pre.groups[gi].members.contains(conn) ==> (
            #[trigger] pre.groups[gi]).wf_in(users1),
        pre.users[ui].partner_id is None ==> partners_ok(users1),
        group_refs_ok(users1, pre.groups),
        forall|e: int|
            0 <= e < pre.waiting.len() && pre.waiting[e].conn != conn ==> (
            #[trigger] pre.waiting[e]).wf_in(users1),
{
    assert forall|x: int| 0 <= x < users1.len() implies (#[trigger] users1[x]).id != conn by {
        if x < ui {
            assert(users1[x] == pre.users[x]);
        } else {
            assert(users1[x] == pre.users[x + 1]);
        }
    }
    {
        assert forall|gi: int|
            0 <= gi < pre.groups.len() && !pre.groups[gi].members.contains(conn) implies (
        #[trigger] pre.groups[gi]).wf_in(users1) by {
            let g = pre.groups[gi];
            assert(g.wf_in(pre.users));
            assert forall|k: int|
                #![trigger g.members[k]]
                0 <= k < g.members.len() implies member_entry(
                users1,
                g.members[k],
                g.code,
                g.usernames[k],
            ) by {
                assert(member_entry(pre.users, g.members[k], g.code, g.usernames[k]));
                let wu = choose|wu: int|
                    0 <= wu < pre.users.len() && (#[trigger] pre.users[wu]).id == g.members[k]
                        && pre.users[wu].group_id == Some(g.code) && pre.users[wu].username
                        == g.usernames[k];
                assert(wu != ui) by {
                    if wu == ui {
                        assert(pre.groups[gi].members.contains(conn));
                    }
                }
                if wu < ui {
                    assert(users1[wu] == pre.users[wu]);
                } else {
                    assert(users1[wu - 1] == pre.users[wu]);
                }
            }
        }
    }
    if pre.users[ui].partner_id is None {
        assert forall|x: int|
            0 <= x < users1.len() implies match #[trigger] users1[x].partner_id {
            Some(p) => p != users1[x].id && users1[x].group_id is None && mutual_partner(
                users1,
                p,
                users1[x].id,
            ),
            None => true,
        } by {
            let px = if x < ui { x } else { x + 1 };
            assert(users1[x] == pre.users[px]);
            match pre.users[px].partner_id {
                Some(p) => {
                    assert(mutual_partner(pre.users, p, pre.users[px].id));
                    let m = choose|m: int|
                        0 <= m < pre.users.len() && (#[trigger] pre.users[m]).id == p
                            && pre.users[m].partner_id == Some(pre.users[px].id);
                    assert(m != ui);
                    if m < ui {
                        assert(users1[m] == pre.users[m]);
                    } else {
                        assert(users1[m - 1] == pre.users[m]);
                    }
                },
                None => {},
            }
        }
    }
    assert forall|x: int|
        0 <= x < users1.len() implies match #[trigger] users1[x].group_id {
        Some(code) => group_listing(pre.groups, code, users1[x].id),
        None => true,
    } by {
        let px = if x < ui { x } else { x + 1 };
        assert(users1[x] == pre.users[px]);
    }
    assert forall|e: int|
        0 <= e < pre.waiting.len() && pre.waiting[e].conn != conn implies (
    #[trigger] pre.waiting[e]).wf_in(users1) by {
        let ee = pre.waiting[e];
        assert(ee.wf_in(pre.users));
        let wu = choose|wu: int|
            0 <= wu < pre.users.len() && (#[trigger] pre.users[wu].id) == ee.conn
                && pre.users[wu].preference == ee.preference && pre.users[wu].partner_id is None
                && pre.users[wu].group_id is None;
        assert(wu != ui);
        if wu < ui {
            assert(users1[wu] == pre.users[wu]);
        } else {
            assert(users1[wu - 1] == pre.users[wu]);
        }
    }
}

} // verus!

verus! {

/// A session with no group reference is listed in no group.
proof fn lemma_ungrouped_not_member(pre: StateV, conn: ConnId, ui: int)
    requires
        pre.wf(),
        0 <= ui < pre.users.len(),
        pre.users[ui].id == conn,
        pre.users[ui].group_id is None,
    ensures
        forall|gi: int| 0 <= gi < pre.groups.len() ==> !pre.groups[gi].members.contains(conn),
{
    assert forall|gi: int|
        0 <= gi < pre.groups.len() implies !pre.groups[gi].members.contains(conn) by {
        let g = pre.groups[gi];
        if g.members.contains(conn) {
            let k = choose|k: int| 0 <= k < g.members.len() && g.members[k] == conn;
            assert(g.wf_in(pre.users));
            assert(member_entry(pre.users, g.members[k], g.code, g.usernames[k]));
            let wu = choose|wu: int|
                0 <= wu < pre.users.len() && (#[trigger] pre.users[wu]).id == conn
                    && pre.users[wu].group_id == Some(g.code) && pre.users[wu].username
                    == g.usernames[k];
            assert(wu == ui);
        }
    }
}

/// Leaving solo: removing an unplaced session preserves well-formedness.
#[verifier::spinoff_prover]
proof fn lemma_cascade_solo_wf(pre: StateV, post: StateV, conn: ConnId, ui: int)
    requires
        pre.wf(),
        0 <= ui < pre.users.len(),
        pre.users[ui].id == conn,
        pre.users[ui].partner_id is None,
        pre.users[ui].group_id is None,
        post.next_conn == pre.next_conn,
        post.sessions == pre.sessions,
        post.groups == pre.groups,
        post.users == pre.users.remove(ui),
        post.waiting == entries_without(pre.waiting, conn),
    ensures
        post.wf(),
{
    lemma_remove_user(pre, post.users, conn, ui);
    lemma_ungrouped_not_member(pre, conn, ui);
    lemma_entries_without(pre.waiting, conn);
    lemma_entries_without_distinct(pre.waiting, conn);
    assert forall|e: int|
        0 <= e < post.waiting.len() implies (#[trigger] post.waiting[e]).wf_in(post.users) by {
        let ee = post.waiting[e];
        assert(post.waiting.contains(ee));
        assert(pre.waiting.contains(ee) && ee.conn != conn);
        let k = choose|k: int| 0 <= k < pre.waiting.len() && pre.waiting[k] == ee;
        assert(pre.waiting[k].wf_in(post.users));
    }
    assert(post.wf());
}

/// Leaving a pairing: the partner's link is cleared and nobody else moves.
#[verifier::spinoff_prover]
proof fn lemma_cascade_partner_wf(pre: StateV, post: StateV, conn: ConnId, ui: int, p: ConnId)
    requires
        pre.wf(),
        0 <= ui < pre.users.len(),
        pre.users[ui].id == conn,
        pre.users[ui].partner_id == Some(p),
        post.next_conn == pre.next_conn,
        post.sessions == pre.sessions,
        post.groups == pre.groups,
        partner_cleared(pre.users.remove(ui), post.users, p),
        post.waiting == entries_without(pre.waiting, conn),
    ensures
        post.wf(),
{
    let users1 = pre.users.remove(ui);
    assert(pre.users[ui].group_id is None);
    lemma_remove_user(pre, users1, conn, ui);
    lemma_ungrouped_not_member(pre, conn, ui);
    lemma_entries_without(pre.waiting, conn);
    lemma_entries_without_distinct(pre.waiting, conn);
    assert(mutual_partner(pre.users, p, conn));
    let pm = choose|pm: int|
        0 <= pm < pre.users.len() && (#[trigger] pre.users[pm]).id == p && pre.users[pm].partner_id
            == Some(conn);
    assert forall|x: int, y: int|
        0 <= x < y < post.users.len() implies post.users[x].id != post.users[y].id by {
        assert(post.users[x].id == users1[x].id && post.users[y].id == users1[y].id);
    }
    assert forall|x: int|
        0 <= x < post.users.len() implies post.sessions.contains(#[trigger] post.users[x].id) by {
        assert(post.users[x].id == users1[x].id);
        assert(pre.sessions.contains(users1[x].id));
    }
    assert forall|x: int|
        0 <= x < post.users.len() implies match #[trigger] post.users[x].partner_id {
        Some(q) => q != post.users[x].id && post.users[x].group_id is None && mutual_partner(
            post.users,
            q,
            post.users[x].id,
        ),
        None => true,
    } by {
        if users1[x].id != p {
            assert(post.users[x] == users1[x]);
            let px = if x < ui { x } else { x + 1 };
            assert(users1[x] == pre.users[px]);
            match pre.users[px].partner_id {
                Some(q) => {
                    assert(mutual_partner(pre.users, q, pre.users[px].id));
                    let m = choose|m: int|
                        0 <= m < pre.users.len() && (#[trigger] pre.users[m]).id == q
                            && pre.users[m].partner_id == Some(pre.users[px].id);
                    assert(m != ui) by {
                        if m == ui {
                            assert(pre.users[px].id == p);
                        }
                    }
                    assert(q != p) by {
                        if q == p {
                            assert(pre.users[m].id == p && pre.users[pm].id == p);
                            assert(m == pm);
                            assert(pre.users[pm].partner_id == Some(conn));
                            assert(pre.users[px].id == conn);
                            assert(px == ui);
                        }
                    }
                    let m1 = if m < ui { m } else { m - 1 };
                    assert(users1[m1] == pre.users[m]);
                    assert(post.users[m1] == users1[m1]);
                    assert(mutual_partner(post.users, q, post.users[x].id));
                },
                None => {},
            }
        }
    }
    assert forall|x: int|
        0 <= x < post.users.len() implies match #[trigger] post.users[x].group_id {
        Some(code) => group_listing(post.groups, code, post.users[x].id),
        None => true,
    } by {
        assert(post.users[x].group_id == users1[x].group_id);
        assert(post.users[x].id == users1[x].id);
    }
    assert forall|ux: int|
        0 <= ux < users1.len() implies (#[trigger] post.users[ux]).id == users1[ux].id
            && post.users[ux].group_id == users1[ux].group_id && post.users[ux].username
            == users1[ux].username by {}
    lemma_groups_under_partner_change(users1, post.users, pre.groups);
    assert forall|e: int|
        0 <= e < post.waiting.len() implies (#[trigger] post.waiting[e]).wf_in(post.users) by {
        let ee = post.waiting[e];
        assert(post.waiting.contains(ee));
        assert(pre.waiting.contains(ee) && ee.conn != conn);
        let k = choose|k: int| 0 <= k < pre.waiting.len() && pre.waiting[k] == ee;
        assert(pre.waiting[k].wf_in(users1));
        let wu = choose|wu: int|
            0 <= wu < users1.len() && (#[trigger] users1[wu].id) == ee.conn
                && users1[wu].preference == ee.preference && users1[wu].partner_id is None
                && users1[wu].group_id is None;
        assert(post.users[wu] == (if users1[wu].id == p {
            with_partner(users1[wu], None)
        } else {
            users1[wu]
        }));
        assert(post.users[wu].id == ee.conn && post.users[wu].preference == ee.preference
            && post.users[wu].partner_id is None && post.users[wu].group_id is None);
    }
    assert(post.wf());
}

} // verus!

verus! {

/// Leaving a group: the member and its name leave at the same index, an
/// emptied group dies, and every other placement survives.
#[verifier::spinoff_prover]
#[verifier::rlimit(50)]
proof fn lemma_cascade_group_wf(pre: StateV, post: StateV, conn: ConnId, ui: int, code: Seq<char>)
    requires
        pre.wf(),
        0 <= ui < pre.users.len(),
        pre.users[ui].id == conn,
        pre.users[ui].partner_id is None,
        pre.users[ui].group_id == Some(code),
        post.next_conn == pre.next_conn,
        post.sessions == pre.sessions,
        post.users == pre.users.remove(ui),
        post.waiting == entries_without(pre.waiting, conn),
        ({
            let gi = pre.group_index(code);
            let g = pre.groups[gi];
            let k = idx_in(g.members, conn);
            pre.has_group(code) && g.members.contains(conn) ==> (if g.members.len() == 1 {
                post.groups == pre.groups.remove(gi)
            } else {
                post.groups == pre.groups.update(
                    gi,
                    GroupV {
                        code: g.code,
                        members: g.members.remove(k),
                        usernames: g.usernames.remove(k),
                    },
                )
            })
        }),
        !(pre.has_group(code) && pre.group(code).members.contains(conn)) ==> post.groups
            == pre.groups,
    ensures
        post.wf(),
{
    let users1 = pre.users.remove(ui);
    lemma_remove_user(pre, users1, conn, ui);
    lemma_entries_without(pre.waiting, conn);
    lemma_entries_without_distinct(pre.waiting, conn);
    assert forall|e: int|
        0 <= e < post.waiting.len() implies (#[trigger] post.waiting[e]).wf_in(post.users) by {
        let ee = post.waiting[e];
        assert(post.waiting.contains(ee));
        assert(pre.waiting.contains(ee) && ee.conn != conn);
        let k = choose|k: int| 0 <= k < pre.waiting.len() && pre.waiting[k] == ee;
        assert(pre.waiting[k].wf_in(users1));
    }
    let gi = pre.group_index(code);
    if !pre.has_group(code) || !pre.group(code).members.contains(conn) {
        // dangling reference: no group actually lists this session
        assert(post.groups == pre.groups);
        assert forall|g2: int|
            0 <= g2 < pre.groups.len() implies !pre.groups[g2].members.contains(conn) by {
            if pre.groups[g2].members.contains(conn) {
                let k = choose|k: int|
                    0 <= k < pre.groups[g2].members.len() && pre.groups[g2].members[k] == conn;
                assert(pre.groups[g2].wf_in(pre.users));
                assert(member_entry(pre.users, conn, pre.groups[g2].code, pre.groups[g2].usernames[k]));
                let wu = choose|wu: int|
                    0 <= wu < pre.users.len() && (#[trigger] pre.users[wu]).id == conn
                        && pre.users[wu].group_id == Some(pre.groups[g2].code)
                        && pre.users[wu].username == pre.groups[g2].usernames[k];
                assert(wu == ui);
                assert(pre.groups[g2].code == code);
                assert(pre.has_group(code));
                lemma_group_at(pre, g2);
                assert(g2 == gi);
            }
        }
        assert forall|x: int|
            0 <= x < post.users.len() implies match #[trigger] post.users[x].group_id {
            Some(c2) => group_listing(post.groups, c2, post.users[x].id),
            None => true,
        } by {
            let px = if x < ui { x } else { x + 1 };
            assert(post.users[x] == pre.users[px]);
        }
        assert(post.wf());
    } else {
        let g = pre.groups[gi];
        lemma_group_at(pre, gi);
        let k = idx_in(g.members, conn);
        lemma_member_at(g.members, choose|k0: int| 0 <= k0 < g.members.len() && g.members[k0] == conn);
        assert(0 <= k < g.members.len() && g.members[k] == conn);
        let m2 = g.members.remove(k);
        let n2 = g.usernames.remove(k);
        assert forall|x: int|
            0 <= x < m2.len() implies m2[x] != conn && g.members.contains(#[trigger] m2[x]) by {
            if x < k {
                assert(m2[x] == g.members[x]);
                lemma_member_at(g.members, x);
            } else {
                assert(m2[x] == g.members[x + 1]);
                lemma_member_at(g.members, x + 1);
            }
        }
        // other groups never list this session
        assert forall|g2: int|
            0 <= g2 < pre.groups.len() && g2 != gi implies !pre.groups[g2].members.contains(
            conn,
        ) by {
            if pre.groups[g2].members.contains(conn) {
                let kk = choose|kk: int|
                    0 <= kk < pre.groups[g2].members.len() && pre.groups[g2].members[kk] == conn;
                assert(pre.groups[g2].wf_in(pre.users));
                assert(member_entry(pre.users, conn, pre.groups[g2].code, pre.groups[g2].usernames[kk]));
                let wu = choose|wu: int|
                    0 <= wu < pre.users.len() && (#[trigger] pre.users[wu]).id == conn
                        && pre.users[wu].group_id == Some(pre.groups[g2].code)
                        && pre.users[wu].username == pre.groups[g2].usernames[kk];
                assert(wu == ui);
                assert(pre.groups[g2].code == code);
            }
        }
        if g.members.len() == 1 {
            assert(post.groups == pre.groups.remove(gi));
            assert forall|x: int, y: int|
                0 <= x < y < post.groups.len() implies post.groups[x].code
                != post.groups[y].code by {
                let px = if x < gi { x } else { x + 1 };
                let py = if y < gi { y } else { y + 1 };
                assert(post.groups[x] == pre.groups[px] && post.groups[y] == pre.groups[py]);
            }
            assert forall|g2: int|
                0 <= g2 < post.groups.len() implies (#[trigger] post.groups[g2]).wf_in(
                post.users,
            ) by {
                let pg = if g2 < gi { g2 } else { g2 + 1 };
                assert(post.groups[g2] == pre.groups[pg]);
                assert(!pre.groups[pg].members.contains(conn));
            }
            assert forall|x: int|
                0 <= x < post.users.len() implies match #[trigger] post.users[x].group_id {
                Some(c2) => group_listing(post.groups, c2, post.users[x].id),
                None => true,
            } by {
                let px = if x < ui { x } else { x + 1 };
                assert(post.users[x] == pre.users[px]);
                match pre.users[px].group_id {
                    Some(c2) => {
                        assert(group_listing(pre.groups, c2, pre.users[px].id));
                        let lg = choose|lg: int|
                            0 <= lg < pre.groups.len() && (#[trigger] pre.groups[lg]).code == c2
                                && pre.groups[lg].members.contains(pre.users[px].id);
                        assert(lg != gi) by {
                            if lg == gi {
                                let kk = choose|kk: int|
                                    0 <= kk < g.members.len() && g.members[kk] == pre.users[px].id;
                                assert(g.members[kk] == g.members[0]);
                                assert(pre.users[px].id == conn);
                            }
                        }
                        let lg1 = if lg < gi { lg } else { lg - 1 };
                        assert(post.groups[lg1] == pre.groups[lg]);
                    },
                    None => {},
                }
            }
            assert(post.wf());
        } else {
            let newg = GroupV { code: g.code, members: m2, usernames: n2 };
            assert(post.groups == pre.groups.update(gi, newg));
            assert forall|x: int, y: int|
                0 <= x < y < post.groups.len() implies post.groups[x].code
                != post.groups[y].code by {
                assert(post.groups[x].code == pre.groups[x].code);
                assert(post.groups[y].code == pre.groups[y].code);
            }
            assert forall|g2: int|
                0 <= g2 < post.groups.len() implies (#[trigger] post.groups[g2]).wf_in(
                post.users,
            ) by {
                if g2 != gi {
                    assert(post.groups[g2] == pre.groups[g2]);
                    assert(!pre.groups[g2].members.contains(conn));
                } else {
                    assert(post.groups[g2] == newg);
                    assert forall|x: int, y: int|
                        0 <= x < y < m2.len() implies m2[x] != m2[y] by {
                        let px = if x < k { x } else { x + 1 };
                        let py = if y < k { y } else { y + 1 };
                        assert(m2[x] == g.members[px] && m2[y] == g.members[py]);
                    }
                    assert forall|x: int|
                        #![trigger m2[x]]
                        0 <= x < m2.len() implies member_entry(post.users, m2[x], newg.code, n2[x]) by {
                        let px = if x < k { x } else { x + 1 };
                        assert(m2[x] == g.members[px] && n2[x] == g.usernames[px]);
                        assert(member_entry(pre.users, g.members[px], g.code, g.usernames[px]));
                        let wu = choose|wu: int|
                            0 <= wu < pre.users.len() && (#[trigger] pre.users[wu]).id
                                == g.members[px] && pre.users[wu].group_id == Some(g.code)
                                && pre.users[wu].username == g.usernames[px];
                        assert(wu != ui) by {
                            if wu == ui {
                                lemma_member_at(g.members, px);
                            }
                        }
                        let wu1 = if wu < ui { wu } else { wu - 1 };
                        assert(post.users[wu1] == pre.users[wu]);
                    }
                }
            }
            assert forall|x: int|
                0 <= x < post.users.len() implies match #[trigger] post.users[x].group_id {
                Some(c2) => group_listing(post.groups, c2, post.users[x].id),
                None => true,
            } by {
                let px = if x < ui { x } else { x + 1 };
                assert(post.users[x] == pre.users[px]);
                match pre.users[px].group_id {
                    Some(c2) => {
                        assert(group_listing(pre.groups, c2, pre.users[px].id));
                        let lg = choose|lg: int|
                            0 <= lg < pre.groups.len() && (#[trigger] pre.groups[lg]).code == c2
                                && pre.groups[lg].members.contains(pre.users[px].id);
                        if lg == gi {
                            let kk = choose|kk: int|
                                0 <= kk < g.members.len() && g.members[kk] == pre.users[px].id;
                            assert(kk != k) by {
                                if kk == k {
                                    assert(pre.users[px].id == conn);
                                }
                            }
                            let kk1 = if kk < k { kk } else { kk - 1 };
                            assert(m2[kk1] == g.members[kk]);
                            assert(post.groups[gi].members.contains(pre.users[px].id));
                        } else {
                            assert(post.groups[lg] == pre.groups[lg]);
                        }
                    },
                    None => {},
                }
            }
            assert(post.wf());
        }
    }
}

} // verus!

verus! {

/// The index of `conn` in a member list, if present.
fn find_conn(v: &Vec<ConnId>, conn: ConnId) -> (r: Option<usize>)
    ensures
        match r {
            Some(k) => k < v.len() && v@[k as int] == conn,
            None => !v@.contains(conn),
        },
{
    let mut i: usize = 0;
    while i < v.len()
        invariant
            i <= v.len(),
            forall|j: int| 0 <= j < i ==> v@[j] != conn,
        decreases v.len() - i,
    {
        if v[i] == conn {
            return Some(i);
        }
        i += 1;
    }
    proof {
        if v@.contains(conn) {
            let j = choose|j: int| 0 <= j < v@.len() && v@[j] == conn;
        }
    }
    None
}

/// A copy of a display-name list, name for name.
fn clone_names(v: &Vec<String>) -> (r: Vec<String>)
    ensures
        r.deep_view() == v.deep_view(),
{
    let mut r: Vec<String> = Vec::new();
    let mut i: usize = 0;
    while i < v.len()
        invariant
            i <= v.len(),
            r.deep_view() =~= v.deep_view().take(i as int),
        decreases v.len() - i,
    {
        let ghost prev = r.deep_view();
        r.push(v[i].clone());
        proof {
            assert(r.deep_view() =~= prev.push(v@[i as int]@));
            assert(r.deep_view() =~= v.deep_view().take(i as int + 1));
        }
        i += 1;
    }
    proof {
        assert(v.deep_view().take(v.len() as int) =~= v.deep_view());
    }
    r
}

impl ChatServer {
    /// The disconnect cascade, shared by leaving a chat and unregistering.
    /// Idempotent: with no session left for `conn` it does nothing.
    #[verifier::spinoff_prover]
    #[verifier::rlimit(50)]
    pub fn handle_disconnect(&mut self, conn: ConnId) -> (r: Vec<Outbound>)
        requires
            old(self)@.wf(),
        ensures
            final(self)@.wf(),
            cascade_outcome(old(self)@, final(self)@, r.deep_view(), conn),
    {
        let ghost pre = self@;
        let mut r: Vec<Outbound> = Vec::new();
        let found = self.find_user(conn);
        match found {
            None => {
                self.purge_waiting(conn);
                proof {
                    lemma_entries_without(pre.waiting, conn);
                    lemma_entries_without_distinct(pre.waiting, conn);
                    let post = self@;
                    assert forall|e: int|
                        0 <= e < post.waiting.len() implies (#[trigger] post.waiting[e]).wf_in(
                        post.users,
                    ) by {
                        let ee = post.waiting[e];
                        assert(post.waiting.contains(ee));
                        assert(pre.waiting.contains(ee));
                        let kk = choose|kk: int|
                            0 <= kk < pre.waiting.len() && pre.waiting[kk] == ee;
                        assert(pre.waiting[kk].wf_in(pre.users));
                    }
                    assert(r.deep_view() =~= Seq::<OutboundV>::empty());
                    assert(self@.wf());
                }
            },
            Some(ui) => {
                proof {
                    lemma_user_at(pre, ui as int);
                }
                let ghost users1 = pre.users.remove(ui as int);
                let u = self.users.remove(ui);
                proof {
                    assert(self@.users =~= users1);
                }
                match u.partner_id {
                    Some(p) => {
                        proof {
                            assert(mutual_partner(pre.users, p, conn));
                            let pm = choose|pm: int|
                                0 <= pm < pre.users.len() && (#[trigger] pre.users[pm]).id == p
                                    && pre.users[pm].partner_id == Some(conn);
                            assert(p != conn);
                            let pm1: int = if pm < ui as int { pm } else { pm - 1 };
                            assert(users1[pm1] == pre.users[pm]);
                            assert(self@.has_user(p));
                        }
                        let pj = self.find_user(p).unwrap();
                        self.users[pj].partner_id = None;
                        proof {
                            assert(self@.users =~= users1.update(
                                pj as int,
                                with_partner(users1[pj as int], None),
                            ));
                            assert forall|x: int|
                                0 <= x < users1.len() implies #[trigger] self@.users[x] == (
                            if users1[x].id == p {
                                with_partner(users1[x], None)
                            } else {
                                users1[x]
                            }) by {
                                lemma_remove_user(pre, users1, conn, ui as int);
                                if users1[x].id == p && x != pj as int {
                                    assert(users1[x].id != users1[pj as int].id);
                                }
                            }
                            assert(partner_cleared(users1, self@.users, p));
                        }
                        r.push(Outbound { to: p, msg: ServerMessage::PartnerDisconnected });
                        self.purge_waiting(conn);
                        proof {
                            assert(r.deep_view() =~= seq![partner_gone(p)]);
                            lemma_cascade_partner_wf(pre, self@, conn, ui as int, p);
                        }
                    },
                    None => {
                        match u.group_id {
                            Some(code) => {
                                let gf = self.find_group(code.as_str());
                                match gf {
                                    Some(gi) => {
                                        proof {
                                            lemma_group_at(pre, gi as int);
                                        }
                                        let kf = find_conn(&self.groups[gi].members, conn);
                                        match kf {
                                            Some(k) => {
                                                proof {
                                                    lemma_member_at(
                                                        pre.groups[gi as int].members,
                                                        k as int,
                                                    );
                                                }
                                                let ghost g = pre.groups[gi as int];
                                                let ghost m2 = g.members.remove(k as int);
                                                let ghost n2 = g.usernames.remove(k as int);
                                                self.groups[gi].members.remove(k);
                                                self.groups[gi].usernames.remove(k);
                                                proof {
                                                    assert(self.groups@[gi as int].members@ =~= m2);
                                                    assert(self.groups@[gi as int].usernames.deep_view() =~= n2);
                                                    assert(self@.groups[gi as int] =~= (GroupV {
                                                        code: g.code,
                                                        members: m2,
                                                        usernames: n2,
                                                    }));
                                                    assert(self@.groups =~= pre.groups.update(
                                                        gi as int,
                                                        GroupV { code: g.code, members: m2, usernames: n2 },
                                                    ));
                                                    assert(self@ =~= (StateV {
                                                        groups: pre.groups.update(
                                                            gi as int,
                                                            GroupV { code: g.code, members: m2, usernames: n2 },
                                                        ),
                                                        users: users1,
                                                        ..pre
                                                    }));
                                                }
                                                if self.groups[gi].members.len() == 0 {
                                                    self.groups.remove(gi);
                                                    proof {
                                                        assert(g.members.len() == 1);
                                                        assert(self@.groups =~= pre.groups.remove(
                                                            gi as int,
                                                        ));
                                                    }
                                                } else {
                                                    let count = self.groups[gi].members.len();
                                                    let mut x: usize = 0;
                                                    while x < count
                                                        invariant
                                                            self@ == (StateV {
                                                                groups: pre.groups.update(
                                                                    gi as int,
                                                                    GroupV { code: g.code, members: m2, usernames: n2 },
                                                                ),
                                                                users: users1,
                                                                ..pre
                                                            }),
                                                            (gi as int) < self@.groups.len(),
                                                            count == m2.len(),
                                                            n2.len() == m2.len(),
                                                            x <= count,
                                                            self@.groups[gi as int].members == m2,
                                                            self@.groups[gi as int].usernames == n2,
                                                            u.username@ == pre.user(conn).username,
                                                            r.deep_view().len() == 2 * x,
                                                            forall|y: int|
                                                                #![trigger m2[y]]
                                                                0 <= y < x ==> r.deep_view()[2 * y]
                                                                    == user_left(m2[y], u.username@)
                                                                    && r.deep_view()[2 * y + 1]
                                                                    == members_update(m2[y], n2),
                                                        decreases count - x,
                                                    {
                                                        let m = self.groups[gi].members[x];
                                                        let names = clone_names(
                                                            &self.groups[gi].usernames,
                                                        );
                                                        let ghost rprev = r.deep_view();
                                                        r.push(Outbound {
                                                            to: m,
                                                            msg: ServerMessage::UserLeftGroup(
                                                                u.username.clone(),
                                                            ),
                                                        });
                                                        r.push(Outbound {
                                                            to: m,
                                                            msg: ServerMessage::GroupMembersUpdate(
                                                                names,
                                                            ),
                                                        });
                                                        proof {
                                                            assert(r.deep_view() =~= rprev.push(
                                                                user_left(m2[x as int], u.username@),
                                                            ).push(members_update(m2[x as int], n2)));
                                                        }
                                                        x += 1;
                                                    }
                                                }
                                            },
                                            None => {},
                                        }
                                    },
                                    None => {},
                                }
                                self.purge_waiting(conn);
                                proof {
                                    assert(pre.user(conn).group_id == Some(code@));
                                    lemma_cascade_group_wf(pre, self@, conn, ui as int, code@);
                                    assert(group_departure(
                                        pre,
                                        self@,
                                        r.deep_view(),
                                        conn,
                                        code@,
                                        u.username@,
                                    )) by {
                                        if pre.has_group(code@) && pre.group(
                                            code@,
                                        ).members.contains(conn) {
                                            let g = pre.groups[pre.group_index(code@)];
                                            if g.members.len() == 1 {
                                                assert(r.deep_view() =~= Seq::<OutboundV>::empty());
                                            }
                                        } else {
                                            assert(r.deep_view() =~= Seq::<OutboundV>::empty());
                                        }
                                    }
                                }
                            },
                            None => {
                                self.purge_waiting(conn);
                                proof {
                                    assert(r.deep_view() =~= Seq::<OutboundV>::empty());
                                    lemma_cascade_solo_wf(pre, self@, conn, ui as int);
                                }
                            },
                        }
                    },
                }
            },
        }
        r
    }
}

} // verus!

verus! {

// ---------------------------------------------------------------------------
// Groups
// ---------------------------------------------------------------------------

/// Relies on String::push: appends the given character to the string.
pub assume_specification[ String::push ](s: &mut String, c: char)
    ensures
        final(s)@ == old(s)@.push(c),
;

/// A group-code character: a decimal digit or an upper-case letter.
pub open spec fn is_code_char(c: char) -> bool {
    48 <= c as int <= 57 || 65 <= c as int <= 90
}

pub open spec fn is_code(code: Seq<char>) -> bool {
    code.len() == 6 && forall|i: int| 0 <= i < code.len() ==> is_code_char(#[trigger] code[i])
}

fn code_char(d: u64) -> (c: char)
    requires
        d < 36,
    ensures
        is_code_char(c),
{
    if d < 10 {
        (d as u8 + 48) as char
    } else {
        (d as u8 - 10 + 65) as char
    }
}

impl ChatServer {
    /// A six-character code drawn uniformly from digits and upper-case
    /// letters. Uniqueness is the caller's concern.
    pub fn generate_group_code(&self) -> (r: String)
        ensures
            is_code(r@),
    {
        let mut r = String::new();
        let mut i: usize = 0;
        while i < 6
            invariant
                i <= 6,
                r@.len() == i,
                forall|j: int| 0 <= j < i ==> is_code_char(#[trigger] r@[j]),
            decreases 6 - i,
        {
            let d = random_below(36);
            r.push(code_char(d as u64));
            i += 1;
        }
        r
    }
}

/// Placing a detached session into an existing group preserves
/// well-formedness; the session was no member before.
#[verifier::spinoff_prover]
#[verifier::rlimit(50)]
proof fn lemma_join_group_wf(pre: StateV, post: StateV, conn: ConnId, ui: int, gi: int)
    requires
        pre.wf(),
        0 <= ui < pre.users.len(),
        pre.users[ui].id == conn,
        pre.users[ui].partner_id is None,
        pre.users[ui].group_id is None,
        !pre.is_waiting(conn),
        0 <= gi < pre.groups.len(),
        post.next_conn == pre.next_conn,
        post.sessions == pre.sessions,
        post.waiting == pre.waiting,
        post.users == pre.users.update(ui, with_group(pre.users[ui], Some(pre.groups[gi].code))),
        post.groups == pre.groups.update(
            gi,
            GroupV {
                code: pre.groups[gi].code,
                members: pre.groups[gi].members.push(conn),
                usernames: pre.groups[gi].usernames.push(pre.users[ui].username),
            },
        ),
    ensures
        post.wf(),
        !pre.groups[gi].members.contains(conn),
{
    let g = pre.groups[gi];
    lemma_ungrouped_not_member(pre, conn, ui);
    assert forall|x: int|
        0 <= x < post.users.len() implies match #[trigger] post.users[x].partner_id {
        Some(q) => q != post.users[x].id && post.users[x].group_id is None && mutual_partner(
            post.users,
            q,
            post.users[x].id,
        ),
        None => true,
    } by {
        if x != ui {
            assert(post.users[x] == pre.users[x]);
            match pre.users[x].partner_id {
                Some(q) => {
                    assert(mutual_partner(pre.users, q, pre.users[x].id));
                    let m = choose|m: int|
                        0 <= m < pre.users.len() && (#[trigger] pre.users[m]).id == q
                            && pre.users[m].partner_id == Some(pre.users[x].id);
                    assert(m != ui);
                    assert(post.users[m] == pre.users[m]);
                },
                None => {},
            }
        }
    }
    assert forall|x: int|
        0 <= x < post.users.len() implies match #[trigger] post.users[x].group_id {
        Some(c2) => group_listing(post.groups, c2, post.users[x].id),
        None => true,
    } by {
        if x != ui {
            assert(post.users[x] == pre.users[x]);
            match pre.users[x].group_id {
                Some(c2) => {
                    assert(group_listing(pre.groups, c2, pre.users[x].id));
                    let lg = choose|lg: int|
                        0 <= lg < pre.groups.len() && (#[trigger] pre.groups[lg]).code == c2
                            && pre.groups[lg].members.contains(pre.users[x].id);
                    if lg == gi {
                        let kk = choose|kk: int|
                            0 <= kk < g.members.len() && g.members[kk] == pre.users[x].id;
                        assert(post.groups[gi].members[kk] == pre.users[x].id);
                        assert(post.groups[gi].members.contains(pre.users[x].id));
                    } else {
                        assert(post.groups[lg] == pre.groups[lg]);
                    }
                },
                None => {},
            }
        } else {
            assert(post.users[ui].group_id == Some(g.code));
            assert(post.groups[gi].members[g.members.len() as int] == conn);
            assert(post.groups[gi].members.contains(conn));
            assert(group_listing(post.groups, g.code, conn));
        }
    }
    assert forall|g2: int|
        0 <= g2 < post.groups.len() implies (#[trigger] post.groups[g2]).wf_in(post.users) by {
        if g2 != gi {
            let gg = post.groups[g2];
            assert(gg == pre.groups[g2]);
            assert(gg.wf_in(pre.users));
            assert forall|kk: int|
                #![trigger gg.members[kk]]
                0 <= kk < gg.members.len() implies member_entry(
                post.users,
                gg.members[kk],
                gg.code,
                gg.usernames[kk],
            ) by {
                assert(member_entry(pre.users, gg.members[kk], gg.code, gg.usernames[kk]));
                let wu = choose|wu: int|
                    0 <= wu < pre.users.len() && (#[trigger] pre.users[wu]).id == gg.members[kk]
                        && pre.users[wu].group_id == Some(gg.code) && pre.users[wu].username
                        == gg.usernames[kk];
                assert(wu != ui);
                assert(post.users[wu] == pre.users[wu]);
            }
        } else {
            let gg = post.groups[gi];
            assert(g.wf_in(pre.users));
            assert forall|x: int, y: int|
                0 <= x < y < gg.members.len() implies gg.members[x] != gg.members[y] by {
                if y == gg.members.len() - 1 {
                    assert(gg.members[x] == g.members[x]);
                    assert(g.members.contains(g.members[x])) by {
                        lemma_member_at(g.members, x);
                    }
                } else {
                    assert(gg.members[x] == g.members[x] && gg.members[y] == g.members[y]);
                }
            }
            assert forall|kk: int|
                #![trigger gg.members[kk]]
                0 <= kk < gg.members.len() implies member_entry(
                post.users,
                gg.members[kk],
                gg.code,
                gg.usernames[kk],
            ) by {
                if kk < gg.members.len() - 1 {
                    assert(gg.members[kk] == g.members[kk] && gg.usernames[kk] == g.usernames[kk]);
                    assert(member_entry(pre.users, g.members[kk], g.code, g.usernames[kk]));
                    let wu = choose|wu: int|
                        0 <= wu < pre.users.len() && (#[trigger] pre.users[wu]).id == g.members[kk]
                            && pre.users[wu].group_id == Some(g.code) && pre.users[wu].username
                            == g.usernames[kk];
                    assert(wu != ui);
                    assert(post.users[wu] == pre.users[wu]);
                } else {
                    assert(gg.members[kk] == conn && gg.usernames[kk] == pre.users[ui].username);
                    assert(post.users[ui].id == conn && post.users[ui].group_id == Some(gg.code)
                        && post.users[ui].username == pre.users[ui].username);
                }
            }
        }
    }
    assert forall|e: int|
        0 <= e < post.waiting.len() implies (#[trigger] post.waiting[e]).wf_in(post.users) by {
        let ee = post.waiting[e];
        assert(ee == pre.waiting[e]);
        assert(ee.wf_in(pre.users));
        let wu = choose|wu: int|
            0 <= wu < pre.users.len() && (#[trigger] pre.users[wu].id) == ee.conn
                && pre.users[wu].preference == ee.preference && pre.users[wu].partner_id is None
                && pre.users[wu].group_id is None;
        assert(wu != ui) by {
            if wu == ui {
                assert(pre.is_waiting(conn));
            }
        }
        assert(post.users[wu] == pre.users[wu]);
    }
    assert forall|x: int|
        0 <= x < post.users.len() implies post.sessions.contains(#[trigger] post.users[x].id) by {
        assert(post.users[x].id == pre.users[x].id);
    }
    assert(post.wf());
}

/// Creating a fresh single-member group for a detached session preserves
/// well-formedness.
#[verifier::spinoff_prover]
#[verifier::rlimit(50)]
proof fn lemma_create_group_wf(pre: StateV, post: StateV, conn: ConnId, ui: int, code: Seq<char>)
    requires
        pre.wf(),
        0 <= ui < pre.users.len(),
        pre.users[ui].id == conn,
        pre.users[ui].partner_id is None,
        pre.users[ui].group_id is None,
        !pre.is_waiting(conn),
        !pre.has_group(code),
        post.next_conn == pre.next_conn,
        post.sessions == pre.sessions,
        post.waiting == pre.waiting,
        post.users == pre.users.update(ui, with_group(pre.users[ui], Some(code))),
        post.groups == pre.groups.push(
            GroupV {
                code,
                members: seq![conn],
                usernames: seq![pre.users[ui].username],
            },
        ),
    ensures
        post.wf(),
{
    let gi = pre.groups.len() as int;
    lemma_ungrouped_not_member(pre, conn, ui);
    assert forall|x: int, y: int|
        0 <= x < y < post.groups.len() implies post.groups[x].code != post.groups[y].code by {
        if y == gi {
            assert(post.groups[x] == pre.groups[x]);
            assert(pre.has_group(pre.groups[x].code)) by {
                lemma_group_at(pre, x);
            }
        } else {
            assert(post.groups[x] == pre.groups[x] && post.groups[y] == pre.groups[y]);
        }
    }
    assert forall|x: int|
        0 <= x < post.users.len() implies match #[trigger] post.users[x].partner_id {
        Some(q) => q != post.users[x].id && post.users[x].group_id is None && mutual_partner(
            post.users,
            q,
            post.users[x].id,
        ),
        None => true,
    } by {
        if x != ui {
            assert(post.users[x] == pre.users[x]);
            match pre.users[x].partner_id {
                Some(q) => {
                    assert(mutual_partner(pre.users, q, pre.users[x].id));
                    let m = choose|m: int|
                        0 <= m < pre.users.len() && (#[trigger] pre.users[m]).id == q
                            && pre.users[m].partner_id == Some(pre.users[x].id);
                    assert(m != ui);
                    assert(post.users[m] == pre.users[m]);
                },
                None => {},
            }
        }
    }
    assert forall|x: int|
        0 <= x < post.users.len() implies match #[trigger] post.users[x].group_id {
        Some(c2) => group_listing(post.groups, c2, post.users[x].id),
        None => true,
    } by {
        if x != ui {
            assert(post.users[x] == pre.users[x]);
            match pre.users[x].group_id {
                Some(c2) => {
                    assert(group_listing(pre.groups, c2, pre.users[x].id));
                    let lg = choose|lg: int|
                        0 <= lg < pre.groups.len() && (#[trigger] pre.groups[lg]).code == c2
                            && pre.groups[lg].members.contains(pre.users[x].id);
                    assert(post.groups[lg] == pre.groups[lg]);
                },
                None => {},
            }
        } else {
            assert(post.groups[gi].members[0] == conn);
            assert(post.groups[gi].members.contains(conn));
        }
    }
    assert forall|g2: int|
        0 <= g2 < post.groups.len() implies (#[trigger] post.groups[g2]).wf_in(post.users) by {
        if g2 != gi {
            let gg = post.groups[g2];
            assert(gg == pre.groups[g2]);
            assert(gg.wf_in(pre.users));
            assert forall|kk: int|
                #![trigger gg.members[kk]]
                0 <= kk < gg.members.len() implies member_entry(
                post.users,
                gg.members[kk],
                gg.code,
                gg.usernames[kk],
            ) by {
                assert(member_entry(pre.users, gg.members[kk], gg.code, gg.usernames[kk]));
                let wu = choose|wu: int|
                    0 <= wu < pre.users.len() && (#[trigger] pre.users[wu]).id == gg.members[kk]
                        && pre.users[wu].group_id == Some(gg.code) && pre.users[wu].username
                        == gg.usernames[kk];
                assert(wu != ui);
                assert(post.users[wu] == pre.users[wu]);
            }
        } else {
            let gg = post.groups[gi];
            assert(gg.members[0] == conn && gg.usernames[0] == pre.users[ui].username);
            assert(post.users[ui].id == conn && post.users[ui].group_id == Some(code)
                && post.users[ui].username == pre.users[ui].username);
            assert forall|kk: int|
                #![trigger gg.members[kk]]
                0 <= kk < gg.members.len() implies member_entry(
                post.users,
                gg.members[kk],
                gg.code,
                gg.usernames[kk],
            ) by {
                assert(kk == 0);
            }
        }
    }
    assert forall|e: int|
        0 <= e < post.waiting.len() implies (#[trigger] post.waiting[e]).wf_in(post.users) by {
        let ee = post.waiting[e];
        assert(ee == pre.waiting[e]);
        assert(ee.wf_in(pre.users));
        let wu = choose|wu: int|
            0 <= wu < pre.users.len() && (#[trigger] pre.users[wu].id) == ee.conn
                && pre.users[wu].preference == ee.preference && pre.users[wu].partner_id is None
                && pre.users[wu].group_id is None;
        assert(wu != ui) by {
            if wu == ui {
                assert(pre.is_waiting(conn));
            }
        }
        assert(post.users[wu] == pre.users[wu]);
    }
    assert forall|x: int|
        0 <= x < post.users.len() implies post.sessions.contains(#[trigger] post.users[x].id) by {
        assert(post.users[x].id == pre.users[x].id);
    }
    assert(post.wf());
}

} // verus!

verus! {

/// A fresh group was created under `code`: the caller is its sole member
/// and is told the code and the one-name roster.
pub open spec fn created_outcome(
    pre: StateV,
    post: StateV,
    out: Seq<OutboundV>,
    conn: ConnId,
    code: Seq<char>,
) -> bool {
    &&& is_code(code)
    &&& !pre.has_group(code)
    &&& post == (StateV {
        users: pre.users.update(pre.user_index(conn), with_group(pre.user(conn), Some(code))),
        groups: pre.groups.push(
            GroupV { code, members: seq![conn], usernames: seq![pre.user(conn).username] },
        ),
        ..pre
    })
    &&& out == seq![
        chat_started(conn, Some(code)),
        members_update(conn, seq![pre.user(conn).username]),
    ]
}

/// Creation draws codes at random, so it creates a group under some fresh
/// code. Only where a draw can collide at all — some group is live — may
/// every bounded draw collide, and then it gives up silently; with no live
/// group, creation is owed.
pub open spec fn create_group_outcome(pre: StateV, post: StateV, out: Seq<OutboundV>, conn: ConnId) -> bool {
    ||| exists|code: Seq<char>| created_outcome(pre, post, out, conn, code)
    ||| pre.groups.len() > 0 && post == pre && out == Seq::<OutboundV>::empty()
}

/// Joining by code: an unknown code only answers `group_not_found`; a known
/// one appends the caller to both lists, updates every member's roster,
/// tells the old members who joined, and the caller that the chat started.
pub open spec fn join_code_outcome(
    pre: StateV,
    post: StateV,
    out: Seq<OutboundV>,
    conn: ConnId,
    code: Seq<char>,
) -> bool {
    if !pre.has_group(code) {
        post == pre && out == seq![group_not_found(conn)]
    } else {
        let gi = pre.group_index(code);
        let g = pre.groups[gi];
        let name = pre.user(conn).username;
        let ns = g.usernames.push(name);
        &&& post == (StateV {
            users: pre.users.update(
                pre.user_index(conn),
                with_group(pre.user(conn), Some(g.code)),
            ),
            groups: pre.groups.update(
                gi,
                GroupV { code: g.code, members: g.members.push(conn), usernames: ns },
            ),
            ..pre
        })
        &&& out.len() == 2 * g.members.len() + 2
        &&& forall|j: int|
            #![trigger g.members[j]]
            0 <= j < g.members.len() ==> out[2 * j] == members_update(g.members[j], ns) && out[2
                * j + 1] == user_joined(g.members[j], name)
        &&& out[2 * (g.members.len() as int)] == members_update(conn, ns)
        &&& out[2 * (g.members.len() as int) + 1] == chat_started(conn, Some(g.code))
    }
}

/// Joining at random: with no group live, fall back to creating one;
/// otherwise join some existing group by its code.
pub open spec fn join_random_outcome(pre: StateV, post: StateV, out: Seq<OutboundV>, conn: ConnId) -> bool {
    if pre.groups.len() == 0 {
        create_group_outcome(pre, post, out, conn)
    } else {
        exists|gi: int|
            0 <= gi < pre.groups.len() && join_code_outcome(
                pre,
                post,
                out,
                conn,
                (#[trigger] pre.groups[gi]).code,
            )
    }
}

impl ChatServer {
    /// Creates a new group under the given code, with the caller as sole
    /// member. The code must not collide with a live group.
    pub fn create_group_with_code(&mut self, conn: ConnId, code: String) -> (r: Vec<Outbound>)
        requires
            old(self)@.wf(),
            old(self)@.detached(conn),
            is_code(code@),
            !old(self)@.has_group(code@),
        ensures
            final(self)@.wf(),
            created_outcome(old(self)@, final(self)@, r.deep_view(), conn, code@),
    {
        let ghost pre = self@;
        let ui = self.find_user(conn).unwrap();
        proof {
            lemma_user_at(pre, ui as int);
        }
        let name = self.users[ui].username.clone();
        self.users[ui].group_id = Some(code.clone());
        let mut members: Vec<ConnId> = Vec::new();
        members.push(conn);
        let mut usernames: Vec<String> = Vec::new();
        usernames.push(name.clone());
        self.groups.push(Group { code: code.clone(), members, usernames });
        let mut r: Vec<Outbound> = Vec::new();
        r.push(Outbound {
            to: conn,
            msg: ServerMessage::ChatStarted { group_code: Some(code.clone()) },
        });
        let mut roster: Vec<String> = Vec::new();
        roster.push(name);
        r.push(Outbound { to: conn, msg: ServerMessage::GroupMembersUpdate(roster) });
        proof {
            let post = self@;
            assert(post.users.len() == pre.users.len());
            assert forall|x: int| 0 <= x < post.users.len() implies post.users[x]
                == pre.users.update(
                ui as int,
                with_group(pre.users[ui as int], Some(code@)),
            )[x] by {
                if x == ui as int {
                    assert(post.users[x].group_id == Some(code@));
                    assert(post.users[x].id == pre.users[x].id);
                    assert(post.users[x].username == pre.users[x].username);
                    assert(post.users[x].user_id == pre.users[x].user_id);
                    assert(post.users[x].gender == pre.users[x].gender);
                    assert(post.users[x].preference == pre.users[x].preference);
                    assert(post.users[x].room_type == pre.users[x].room_type);
                    assert(post.users[x].partner_id == pre.users[x].partner_id);
                    assert(post.users[x] =~= with_group(pre.users[ui as int], Some(code@)));
                } else {
                    assert(post.users[x] == pre.users[x]);
                }
            }
            assert(post.users =~= pre.users.update(
                ui as int,
                with_group(pre.users[ui as int], Some(code@)),
            ));
            assert(post.groups =~~= pre.groups.push(
                GroupV {
                    code: code@,
                    members: seq![conn],
                    usernames: seq![pre.user(conn).username],
                },
            ));
            assert(post =~= (StateV {
                users: pre.users.update(
                    pre.user_index(conn),
                    with_group(pre.user(conn), Some(code@)),
                ),
                groups: pre.groups.push(
                    GroupV {
                        code: code@,
                        members: seq![conn],
                        usernames: seq![pre.user(conn).username],
                    },
                ),
                ..pre
            }));
            assert(r.deep_view() =~~= seq![
                chat_started(conn, Some(code@)),
                members_update(conn, seq![pre.user(conn).username]),
            ]);
            assert(created_outcome(pre, post, r.deep_view(), conn, code@));
            lemma_create_group_wf(pre, post, conn, ui as int, code@);
        }
        r
    }

    /// Creates a new group with the caller as sole member, drawing random
    /// codes until one collides with no live group. The draws are bounded;
    /// if every one collided (vanishingly unlikely), nothing happens.
    pub fn create_new_group(&mut self, conn: ConnId) -> (r: Vec<Outbound>)
        requires
            old(self)@.wf(),
            old(self)@.detached(conn),
        ensures
            final(self)@.wf(),
            create_group_outcome(old(self)@, final(self)@, r.deep_view(), conn),
    {
        let mut tries: usize = 0;
        while tries < 16
            invariant
                *self == *old(self),
                old(self)@.wf(),
                old(self)@.detached(conn),
                tries > 0 ==> old(self)@.groups.len() > 0,
            decreases 16 - tries,
        {
            let code = self.generate_group_code();
            match self.find_group(code.as_str()) {
                None => {
                    return self.create_group_with_code(conn, code);
                },
                Some(_) => {
                    proof {
                        assert(self@.groups.len() > 0);
                    }
                },
            }
            tries += 1;
        }
        let r: Vec<Outbound> = Vec::new();
        proof {
            assert(r.deep_view() =~= Seq::<OutboundV>::empty());
        }
        r
    }

    /// Joins the group with the given code, or answers `group_not_found`.
    #[verifier::spinoff_prover]
    #[verifier::rlimit(50)]
    pub fn join_group_by_code(&mut self, conn: ConnId, group_code: &str) -> (r: Vec<Outbound>)
        requires
            old(self)@.wf(),
            old(self)@.detached(conn),
        ensures
            final(self)@.wf(),
            join_code_outcome(old(self)@, final(self)@, r.deep_view(), conn, group_code@),
    {
        let ghost pre = self@;
        let gf = self.find_group(group_code);
        match gf {
            None => {
                let mut r: Vec<Outbound> = Vec::new();
                r.push(Outbound { to: conn, msg: ServerMessage::GroupNotFound });
                proof {
                    assert(r.deep_view() =~= seq![group_not_found(conn)]);
                }
                r
            },
            Some(gi) => {
                proof {
                    lemma_group_at(pre, gi as int);
                }
                let ghost g = pre.groups[gi as int];
                let ui = self.find_user(conn).unwrap();
                proof {
                    lemma_user_at(pre, ui as int);
                }
                let name = self.users[ui].username.clone();
                self.users[ui].group_id = Some(self.groups[gi].code.clone());
                self.groups[gi].members.push(conn);
                self.groups[gi].usernames.push(name.clone());
                let ghost ns = g.usernames.push(pre.user(conn).username);
                proof {
                    assert(self.groups@[gi as int].usernames.deep_view() =~= ns);
                    assert(self@.groups[gi as int] =~= (GroupV {
                        code: g.code,
                        members: g.members.push(conn),
                        usernames: ns,
                    }));
                    assert(self@.groups =~= pre.groups.update(
                        gi as int,
                        GroupV { code: g.code, members: g.members.push(conn), usernames: ns },
                    ));
                    assert(self@.users =~= pre.users.update(
                        ui as int,
                        with_group(pre.users[ui as int], Some(g.code)),
                    ));
                    assert(self@ =~= (StateV {
                        users: pre.users.update(
                            pre.user_index(conn),
                            with_group(pre.user(conn), Some(g.code)),
                        ),
                        groups: pre.groups.update(
                            gi as int,
                            GroupV { code: g.code, members: g.members.push(conn), usernames: ns },
                        ),
                        ..pre
                    }));
                    lemma_join_group_wf(pre, self@, conn, ui as int, gi as int);
                }
                let mut r: Vec<Outbound> = Vec::new();
                let count = self.groups[gi].members.len();
                let ghost ms = g.members.push(conn);
                let ghost mid = self@;
                let mut x: usize = 0;
                while x < count
                    invariant
                        self@ == mid,
                        mid.wf(),
                        0 <= (gi as int) < mid.groups.len(),
                        g == pre.groups[gi as int],
                        ms == g.members.push(conn),
                        ns == g.usernames.push(pre.user(conn).username),
                        pre.has_user(conn),
                        count == ms.len(),
                        ms.len() == g.members.len() + 1,
                        ns.len() == ms.len(),
                        ms[ms.len() - 1] == conn,
                        forall|y: int, z: int| 0 <= y < z < ms.len() ==> ms[y] != ms[z],
                        mid.groups[gi as int].members == ms,
                        mid.groups[gi as int].usernames == ns,
                        name@ == pre.user(conn).username,
                        x <= count,
                        r.deep_view().len() == (if (x as int) <= g.members.len() {
                            2 * (x as int)
                        } else {
                            2 * (g.members.len() as int) + 1
                        }),
                        forall|y: int|
                            #![trigger g.members[y]]
                            0 <= y < x && y < g.members.len() ==> r.deep_view()[2 * y]
                                == members_update(g.members[y], ns) && r.deep_view()[2 * y + 1]
                                == user_joined(g.members[y], name@),
                        x == count ==> r.deep_view()[2 * (g.members.len() as int)]
                            == members_update(conn, ns),
                    decreases count - x,
                {
                    let m = self.groups[gi].members[x];
                    let roster = clone_names(&self.groups[gi].usernames);
                    let ghost rprev = r.deep_view();
                    r.push(Outbound { to: m, msg: ServerMessage::GroupMembersUpdate(roster) });
                    proof {
                        assert(m == ms[x as int]);
                        assert(roster.deep_view() == ns);
                        assert(r.deep_view() =~= rprev.push(members_update(ms[x as int], ns)));
                        if (x as int) < g.members.len() {
                            assert(ms[x as int] == g.members[x as int]);
                        }
                    }
                    if m != conn {
                        proof {
                            assert(x as int != ms.len() - 1);
                            assert((x as int) < g.members.len());
                        }
                        let ghost rprev2 = r.deep_view();
                        r.push(Outbound {
                            to: m,
                            msg: ServerMessage::UserJoinedGroup(name.clone()),
                        });
                        proof {
                            assert(r.deep_view() =~= rprev2.push(
                                user_joined(g.members[x as int], name@),
                            ));
                            assert(rprev2[2 * (x as int)] == members_update(ms[x as int], ns));
                            assert(r.deep_view()[2 * (x as int)] == members_update(
                                g.members[x as int],
                                ns,
                            ));
                            assert(r.deep_view()[2 * (x as int) + 1] == user_joined(
                                g.members[x as int],
                                name@,
                            ));
                        }
                    } else {
                        proof {
                            if x as int != ms.len() - 1 {
                                assert(ms[x as int] != ms[ms.len() - 1]);
                            }
                            assert(x as int == g.members.len());
                        }
                    }
                    proof {
                        assert forall|y: int|
                            #![trigger g.members[y]]
                            0 <= y < x + 1 && y < g.members.len() implies r.deep_view()[2 * y]
                            == members_update(g.members[y], ns) && r.deep_view()[2 * y + 1]
                            == user_joined(g.members[y], name@) by {
                            assert(2 * y + 1 < r.deep_view().len());
                            if y < x {
                                assert(ms[y] == g.members[y]);
                                assert(2 * y + 1 < rprev.len());
                                assert(rprev[2 * y] == members_update(g.members[y], ns));
                                assert(rprev[2 * y + 1] == user_joined(g.members[y], name@));
                                assert(r.deep_view()[2 * y] == rprev[2 * y]);
                                assert(r.deep_view()[2 * y + 1] == rprev[2 * y + 1]);
                            } else {
                                assert(y == x as int);
                                assert(ms[y] == g.members[y]);
                            }
                        }
                    }
                    x += 1;
                }
                r.push(Outbound {
                    to: conn,
                    msg: ServerMessage::ChatStarted { group_code: Some(group_code.to_owned()) },
                });
                proof {
                    let ghost out = r.deep_view();
                    assert(out.last() == chat_started(conn, Some(g.code)));
                    assert forall|j: int|
                        #![trigger g.members[j]]
                        0 <= j < g.members.len() implies out[2 * j] == members_update(
                        g.members[j],
                        ns,
                    ) && out[2 * j + 1] == user_joined(g.members[j], pre.user(conn).username) by {
                        assert(ms[j] == g.members[j]);
                    }
                    assert(out[2 * (g.members.len() as int)] == members_update(conn, ns));
                    assert(out[2 * (g.members.len() as int) + 1] == chat_started(
                        conn,
                        Some(g.code),
                    ));
                    assert(join_code_outcome(pre, self@, r.deep_view(), conn, group_code@));
                }
                r
            },
        }
    }

    /// Joins some live group picked uniformly at random, or creates a fresh
    /// one when none exists.
    pub fn join_random_group(&mut self, conn: ConnId) -> (r: Vec<Outbound>)
        requires
            old(self)@.wf(),
            old(self)@.detached(conn),
        ensures
            final(self)@.wf(),
            join_random_outcome(old(self)@, final(self)@, r.deep_view(), conn),
    {
        let ghost pre = self@;
        if self.groups.len() == 0 {
            self.create_new_group(conn)
        } else {
            let idx = random_below(self.groups.len());
            let code = self.groups[idx].code.clone();
            proof {
                lemma_group_at(pre, idx as int);
            }
            let r = self.join_group_by_code(conn, code.as_str());
            proof {
                assert(join_code_outcome(pre, self@, r.deep_view(), conn, pre.groups[idx as int].code));
            }
            r
        }
    }
}

} // verus!

verus! {

// ---------------------------------------------------------------------------
// Relaying
// ---------------------------------------------------------------------------

pub proof fn lemma_conns_without_push(s: Seq<ConnId>, v: ConnId, c: ConnId)
    ensures
        conns_without(s.push(v), c) == conns_without(s, c) + (if v == c {
            Seq::<ConnId>::empty()
        } else {
            seq![v]
        }),
    decreases s.len(),
{
    let sp = s.push(v);
    if s.len() == 0 {
        assert(sp.len() == 1 && sp[0] == v);
        assert(sp.drop_first() =~= Seq::<ConnId>::empty());
        assert(conns_without(sp.drop_first(), c) == Seq::<ConnId>::empty());
        assert(conns_without(s, c) == Seq::<ConnId>::empty());
        if v == c {
            assert(conns_without(sp, c) =~= conns_without(s, c) + Seq::<ConnId>::empty());
        } else {
            assert(sp.drop_first() =~= Seq::<ConnId>::empty());
            assert(conns_without(sp, c) =~= conns_without(s, c) + seq![v]);
        }
    } else {
        assert(sp[0] == s[0]);
        assert(sp.drop_first() =~= s.drop_first().push(v));
        lemma_conns_without_push(s.drop_first(), v, c);
        if v == c {
            assert(conns_without(s.drop_first().push(v), c) =~= conns_without(s.drop_first(), c));
            if s[0] == c {
                assert(conns_without(sp, c) =~= conns_without(s, c) + Seq::<ConnId>::empty());
            } else {
                assert(conns_without(sp, c) =~= conns_without(s, c) + Seq::<ConnId>::empty());
            }
        } else {
            if s[0] == c {
                assert(conns_without(sp, c) =~= conns_without(s, c) + seq![v]);
            } else {
                assert(conns_without(sp, c) =~= (seq![s[0]] + conns_without(
                    s.drop_first().push(v),
                    c,
                )));
                assert(conns_without(sp, c) =~= conns_without(s, c) + seq![v]);
            }
        }
    }
}

impl EncryptedMessage {
    /// A copy carrying the same ciphertext and nonce.
    pub fn duplicate(&self) -> (r: EncryptedMessage)
        ensures
            r@ == self@,
    {
        EncryptedMessage { encrypted: self.encrypted.clone(), nonce: self.nonce.clone() }
    }
}

/// The group a relay command addresses: an explicit override wins over the
/// sender's own group.
pub open spec fn group_target(s: StateV, conn: ConnId, over: Option<Seq<char>>) -> Option<
    Seq<char>,
> {
    if over is Some {
        over
    } else {
        s.user(conn).group_id
    }
}

/// A message is relayed to exactly the current partner (1:1), or to every
/// other member of the addressed group once each, in member order.
pub open spec fn send_outcome(
    s: StateV,
    out: Seq<OutboundV>,
    conn: ConnId,
    m: MessageV,
    is_group: bool,
    over: Option<Seq<char>>,
) -> bool {
    if !s.has_user(conn) {
        out == Seq::<OutboundV>::empty()
    } else {
        let sender = s.user(conn).username;
        if is_group {
            match group_target(s, conn, over) {
                Some(code) => if !s.has_group(code) {
                    out == Seq::<OutboundV>::empty()
                } else {
                    let others = conns_without(s.group(code).members, conn);
                    out.len() == others.len() && forall|j: int|
                        0 <= j < others.len() ==> out[j] == receive_msg(
                            #[trigger] others[j],
                            m,
                            sender,
                        )
                },
                None => out == Seq::<OutboundV>::empty(),
            }
        } else {
            match s.user(conn).partner_id {
                Some(p) => out == seq![receive_msg(p, m, sender)],
                None => out == Seq::<OutboundV>::empty(),
            }
        }
    }
}

impl ChatServer {
    /// Resolves the member list the command addresses, if any.
    fn resolve_group(&self, conn: ConnId, ui: usize, group_code: &Option<String>) -> (r: Option<
        usize,
    >)
        requires
            self@.wf(),
            ui < self.users.len(),
            self@.users[ui as int].id == conn,
        ensures
            match r {
                Some(gi) => gi < self.groups.len() && group_target(
                    self@,
                    conn,
                    opt_view(*group_code),
                ) == Some(self@.groups[gi as int].code) && self@.has_group(
                    self@.groups[gi as int].code,
                ),
                None => match group_target(self@, conn, opt_view(*group_code)) {
                    Some(code) => !self@.has_group(code),
                    None => true,
                },
            },
    {
        proof {
            lemma_user_at(self@, ui as int);
        }
        let target: Option<&String> = match group_code {
            Some(c) => Some(c),
            None => {
                match &self.users[ui].group_id {
                    Some(g) => Some(g),
                    None => None,
                }
            },
        };
        match target {
            None => None,
            Some(code) => {
                let gf = self.find_group(code.as_str());
                match gf {
                    Some(gi) => {
                        proof {
                            lemma_group_at(self@, gi as int);
                        }
                        Some(gi)
                    },
                    None => None,
                }
            },
        }
    }

    /// Relays an opaque payload to the current partner or to every other
    /// member of the addressed group; silently does nothing otherwise.
    pub fn send_message(
        &self,
        conn: ConnId,
        message: EncryptedMessage,
        is_group_chat: bool,
        group_code: Option<String>,
    ) -> (r: Vec<Outbound>)
        requires
            self@.wf(),
        ensures
            send_outcome(
                self@,
                r.deep_view(),
                conn,
                message@,
                is_group_chat,
                opt_view(group_code),
            ),
    {
        let mut r: Vec<Outbound> = Vec::new();
        let uf = self.find_user(conn);
        match uf {
            None => {
                proof {
                    assert(r.deep_view() =~= Seq::<OutboundV>::empty());
                }
                r
            },
            Some(ui) => {
                proof {
                    lemma_user_at(self@, ui as int);
                }
                if is_group_chat {
                    let gf = self.resolve_group(conn, ui, &group_code);
                    match gf {
                        None => {
                            proof {
                                assert(r.deep_view() =~= Seq::<OutboundV>::empty());
                            }
                            r
                        },
                        Some(gi) => {
                            let ghost g = self@.groups[gi as int];
                            let ghost sender = self@.user(conn).username;
                            let mut k: usize = 0;
                            let count = self.groups[gi].members.len();
                            while k < count
                                invariant
                                    self@.wf(),
                                    (ui as int) < self@.users.len(),
                                    self@.users[ui as int].id == conn,
                                    self@.user(conn) == self@.users[ui as int],
                                    (gi as int) < self@.groups.len(),
                                    g == self@.groups[gi as int],
                                    sender == self@.user(conn).username,
                                    count == g.members.len(),
                                    k <= count,
                                    r.deep_view().len() == conns_without(
                                        g.members.take(k as int),
                                        conn,
                                    ).len(),
                                    forall|j: int|
                                        0 <= j < r.deep_view().len() ==> r.deep_view()[j]
                                            == receive_msg(
                                            #[trigger] conns_without(
                                                g.members.take(k as int),
                                                conn,
                                            )[j],
                                            message@,
                                            sender,
                                        ),
                                decreases count - k,
                            {
                                let m = self.groups[gi].members[k];
                                proof {
                                    lemma_conns_without_push(g.members.take(k as int), m, conn);
                                    assert(g.members.take(k as int).push(m) =~= g.members.take(
                                        k as int + 1,
                                    ));
                                }
                                if m != conn {
                                    let name = self.users[ui].username.clone();
                                    let ghost rprev = r.deep_view();
                                    r.push(Outbound {
                                        to: m,
                                        msg: ServerMessage::ReceiveMessage {
                                            message: message.duplicate(),
                                            sender: name,
                                        },
                                    });
                                    proof {
                                        assert(r.deep_view() =~= rprev.push(
                                            receive_msg(m, message@, sender),
                                        ));
                                        assert(conns_without(g.members.take(k as int + 1), conn)
                                            =~= conns_without(g.members.take(k as int), conn)
                                            + seq![m]);
                                    }
                                } else {
                                    proof {
                                        assert(conns_without(g.members.take(k as int + 1), conn)
                                            =~= conns_without(g.members.take(k as int), conn));
                                    }
                                }
                                k += 1;
                            }
                            proof {
                                assert(g.members.take(count as int) =~= g.members);
                                assert(send_outcome(
                                    self@,
                                    r.deep_view(),
                                    conn,
                                    message@,
                                    is_group_chat,
                                    opt_view(group_code),
                                ));
                            }
                            r
                        },
                    }
                } else {
                    match self.users[ui].partner_id {
                        Some(p) => {
                            let name = self.users[ui].username.clone();
                            r.push(Outbound {
                                to: p,
                                msg: ServerMessage::ReceiveMessage { message, sender: name },
                            });
                            proof {
                                assert(r.deep_view() =~= seq![
                                    receive_msg(p, message@, self@.user(conn).username),
                                ]);
                            }
                            r
                        },
                        None => {
                            proof {
                                assert(r.deep_view() =~= Seq::<OutboundV>::empty());
                            }
                            r
                        },
                    }
                }
            },
        }
    }
}

} // verus!

verus! {

pub open spec fn typing_msg(to: ConnId, start: bool, username: Option<Seq<char>>) -> OutboundV {
    OutboundV {
        to,
        msg: if start {
            MsgV::TypingStarted { username }
        } else {
            MsgV::TypingStopped { username }
        },
    }
}

/// A presence notice goes where a message would: to the partner without a
/// name, or to every other group member with the sender's name.
pub open spec fn typing_outcome(
    s: StateV,
    out: Seq<OutboundV>,
    conn: ConnId,
    is_group: bool,
    over: Option<Seq<char>>,
    start: bool,
) -> bool {
    if !s.has_user(conn) {
        out == Seq::<OutboundV>::empty()
    } else {
        let sender = s.user(conn).username;
        if is_group {
            match group_target(s, conn, over) {
                Some(code) => if !s.has_group(code) {
                    out == Seq::<OutboundV>::empty()
                } else {
                    let others = conns_without(s.group(code).members, conn);
                    out.len() == others.len() && forall|j: int|
                        0 <= j < others.len() ==> out[j] == typing_msg(
                            #[trigger] others[j],
                            start,
                            Some(sender),
                        )
                },
                None => out == Seq::<OutboundV>::empty(),
            }
        } else {
            match s.user(conn).partner_id {
                Some(p) => out == seq![typing_msg(p, start, None)],
                None => out == Seq::<OutboundV>::empty(),
            }
        }
    }
}

impl ChatServer {
    fn relay_typing(
        &self,
        conn: ConnId,
        is_group_chat: bool,
        group_code: Option<String>,
        start: bool,
    ) -> (r: Vec<Outbound>)
        requires
            self@.wf(),
        ensures
            typing_outcome(self@, r.deep_view(), conn, is_group_chat, opt_view(group_code), start),
    {
        let mut r: Vec<Outbound> = Vec::new();
        let uf = self.find_user(conn);
        match uf {
            None => {
                proof {
                    assert(r.deep_view() =~= Seq::<OutboundV>::empty());
                }
                r
            },
            Some(ui) => {
                proof {
                    lemma_user_at(self@, ui as int);
                }
                if is_group_chat {
                    let gf = self.resolve_group(conn, ui, &group_code);
                    match gf {
                        None => {
                            proof {
                                assert(r.deep_view() =~= Seq::<OutboundV>::empty());
                            }
                            r
                        },
                        Some(gi) => {
                            let ghost g = self@.groups[gi as int];
                            let ghost sender = self@.user(conn).username;
                            let mut k: usize = 0;
                            let count = self.groups[gi].members.len();
                            while k < count
                                invariant
                                    self@.wf(),
                                    (ui as int) < self@.users.len(),
                                    self@.users[ui as int].id == conn,
                                    self@.user(conn) == self@.users[ui as int],
                                    (gi as int) < self@.groups.len(),
                                    g == self@.groups[gi as int],
                                    sender == self@.user(conn).username,
                                    count == g.members.len(),
                                    k <= count,
                                    r.deep_view().len() == conns_without(
                                        g.members.take(k as int),
                                        conn,
                                    ).len(),
                                    forall|j: int|
                                        0 <= j < r.deep_view().len() ==> r.deep_view()[j]
                                            == typing_msg(
                                            #[trigger] conns_without(
                                                g.members.take(k as int),
                                                conn,
                                            )[j],
                                            start,
                                            Some(sender),
                                        ),
                                decreases count - k,
                            {
                                let m = self.groups[gi].members[k];
                                proof {
                                    lemma_conns_without_push(g.members.take(k as int), m, conn);
                                    assert(g.members.take(k as int).push(m) =~= g.members.take(
                                        k as int + 1,
                                    ));
                                }
                                if m != conn {
                                    let name = self.users[ui].username.clone();
                                    let ghost rprev = r.deep_view();
                                    let msg = if start {
                                        ServerMessage::TypingStarted { username: Some(name) }
                                    } else {
                                        ServerMessage::TypingStopped { username: Some(name) }
                                    };
                                    r.push(Outbound { to: m, msg });
                                    proof {
                                        assert(r.deep_view() =~= rprev.push(
                                            typing_msg(m, start, Some(sender)),
                                        ));
                                        assert(conns_without(g.members.take(k as int + 1), conn)
                                            =~= conns_without(g.members.take(k as int), conn)
                                            + seq![m]);
                                    }
                                } else {
                                    proof {
                                        assert(conns_without(g.members.take(k as int + 1), conn)
                                            =~= conns_without(g.members.take(k as int), conn));
                                    }
                                }
                                k += 1;
                            }
                            proof {
                                assert(g.members.take(count as int) =~= g.members);
                            }
                            r
                        },
                    }
                } else {
                    match self.users[ui].partner_id {
                        Some(p) => {
                            let msg = if start {
                                ServerMessage::TypingStarted { username: None }
                            } else {
                                ServerMessage::TypingStopped { username: None }
                            };
                            r.push(Outbound { to: p, msg });
                            proof {
                                assert(r.deep_view() =~= seq![typing_msg(p, start, None)]);
                            }
                            r
                        },
                        None => {
                            proof {
                                assert(r.deep_view() =~= Seq::<OutboundV>::empty());
                            }
                            r
                        },
                    }
                }
            },
        }
    }

    /// A presence start notice, addressed like a message.
    pub fn typing_start(
        &self,
        conn: ConnId,
        is_group_chat: bool,
        group_code: Option<String>,
    ) -> (r: Vec<Outbound>)
        requires
            self@.wf(),
        ensures
            typing_outcome(self@, r.deep_view(), conn, is_group_chat, opt_view(group_code), true),
    {
        self.relay_typing(conn, is_group_chat, group_code, true)
    }

    /// A presence stop notice, addressed like a message.
    pub fn typing_stop(
        &self,
        conn: ConnId,
        is_group_chat: bool,
        group_code: Option<String>,
    ) -> (r: Vec<Outbound>)
        requires
            self@.wf(),
        ensures
            typing_outcome(self@, r.deep_view(), conn, is_group_chat, opt_view(group_code), false),
    {
        self.relay_typing(conn, is_group_chat, group_code, false)
    }
}

} // verus!

verus! {

// ---------------------------------------------------------------------------
// Joining and leaving
// ---------------------------------------------------------------------------

/// The display name a session gets: the given one, or a generated fallback
/// from the external user id when none was given.
pub open spec fn spec_display_name(username: Seq<char>, user_id: Seq<char>) -> Seq<char> {
    if username.len() > 0 {
        username
    } else {
        "User-"@ + user_id.take(if user_id.len() < 5 {
            user_id.len() as int
        } else {
            5
        })
    }
}

/// The chosen display name, never empty-handed: a missing name falls back
/// to a prefix of the external user id.
pub fn display_name(username: &String, user_id: &String) -> (r: String)
    ensures
        r@ == spec_display_name(username@, user_id@),
{
    if !username.as_str().is_empty() {
        username.clone()
    } else {
        let n = user_id.as_str().unicode_len();
        let k: usize = if n < 5 {
            n
        } else {
            5
        };
        let prefix = user_id.as_str().substring_char(0, k);
        let mut r = String::from_str("User-");
        r.append(prefix);
        proof {
            assert(prefix@ =~= user_id@.take(k as int));
        }
        r
    }
}

/// The session a joining profile creates.
pub open spec fn new_user_v(conn: ConnId, p: ProfileV) -> UserV {
    UserV {
        id: conn,
        user_id: p.user_id,
        username: spec_display_name(p.username, p.user_id),
        gender: p.gender,
        preference: p.preference,
        room_type: p.room_type,
        partner_id: None,
        group_id: None,
    }
}

pub open spec fn mid_state(pre: StateV, conn: ConnId, p: ProfileV) -> StateV {
    StateV { users: pre.users.push(new_user_v(conn, p)), ..pre }
}

/// Joining creates the session and dispatches: group room types go to the
/// group logic by join method (create, join by code, or random), every
/// other room type goes to matchmaking. A connection that is not
/// registered, or already has a session, is left untouched.
pub open spec fn join_outcome(
    pre: StateV,
    post: StateV,
    out: Seq<OutboundV>,
    conn: ConnId,
    p: ProfileV,
) -> bool {
    if pre.has_user(conn) || !pre.sessions.contains(conn) {
        post == pre && out == Seq::<OutboundV>::empty()
    } else {
        let mid = mid_state(pre, conn, p);
        if p.room_type == "group"@ {
            if p.group_join_method == Some("create"@) {
                create_group_outcome(mid, post, out, conn)
            } else if p.group_join_method == Some("join"@) && p.group_code is Some {
                join_code_outcome(mid, post, out, conn, p.group_code.unwrap())
            } else {
                join_random_outcome(mid, post, out, conn)
            }
        } else {
            match_outcome(mid, post, out, conn)
        }
    }
}

/// Adding a fresh, unplaced session for a registered connection preserves
/// well-formedness and leaves the newcomer detached.
#[verifier::spinoff_prover]
proof fn lemma_add_user_wf(pre: StateV, post: StateV, u: UserV)
    requires
        pre.wf(),
        !pre.has_user(u.id),
        pre.sessions.contains(u.id),
        u.partner_id is None,
        u.group_id is None,
        post == (StateV { users: pre.users.push(u), ..pre }),
    ensures
        post.wf(),
        post.detached(u.id),
        post.user(u.id) == u,
{
    let ui = pre.users.len() as int;
    assert(post.users[ui] == u);
    assert forall|x: int, y: int|
        0 <= x < y < post.users.len() implies post.users[x].id != post.users[y].id by {
        if y == ui {
            assert(post.users[x] == pre.users[x]);
            assert(pre.has_user(pre.users[x].id)) by {
                lemma_user_at(pre, x);
            }
        } else {
            assert(post.users[x] == pre.users[x] && post.users[y] == pre.users[y]);
        }
    }
    lemma_user_at(post, ui);
    assert forall|x: int|
        0 <= x < post.users.len() implies post.sessions.contains(#[trigger] post.users[x].id) by {
        if x < ui {
            assert(post.users[x] == pre.users[x]);
        }
    }
    assert forall|x: int|
        0 <= x < post.users.len() implies match #[trigger] post.users[x].partner_id {
        Some(q) => q != post.users[x].id && post.users[x].group_id is None && mutual_partner(
            post.users,
            q,
            post.users[x].id,
        ),
        None => true,
    } by {
        if x < ui {
            assert(post.users[x] == pre.users[x]);
            match pre.users[x].partner_id {
                Some(q) => {
                    assert(mutual_partner(pre.users, q, pre.users[x].id));
                    let m = choose|m: int|
                        0 <= m < pre.users.len() && (#[trigger] pre.users[m]).id == q
                            && pre.users[m].partner_id == Some(pre.users[x].id);
                    assert(post.users[m] == pre.users[m]);
                },
                None => {},
            }
        }
    }
    assert forall|x: int|
        0 <= x < post.users.len() implies match #[trigger] post.users[x].group_id {
        Some(c2) => group_listing(post.groups, c2, post.users[x].id),
        None => true,
    } by {
        if x < ui {
            assert(post.users[x] == pre.users[x]);
        }
    }
    assert forall|g2: int|
        0 <= g2 < post.groups.len() implies (#[trigger] post.groups[g2]).wf_in(post.users) by {
        let gg = post.groups[g2];
        assert(gg == pre.groups[g2]);
        assert(gg.wf_in(pre.users));
        assert forall|kk: int|
            #![trigger gg.members[kk]]
            0 <= kk < gg.members.len() implies member_entry(
            post.users,
            gg.members[kk],
            gg.code,
            gg.usernames[kk],
        ) by {
            assert(member_entry(pre.users, gg.members[kk], gg.code, gg.usernames[kk]));
            let wu = choose|wu: int|
                0 <= wu < pre.users.len() && (#[trigger] pre.users[wu]).id == gg.members[kk]
                    && pre.users[wu].group_id == Some(gg.code) && pre.users[wu].username
                    == gg.usernames[kk];
            assert(post.users[wu] == pre.users[wu]);
        }
    }
    assert forall|e: int|
        0 <= e < post.waiting.len() implies (#[trigger] post.waiting[e]).wf_in(post.users) by {
        let ee = post.waiting[e];
        assert(ee == pre.waiting[e]);
        assert(ee.wf_in(pre.users));
        let wu = choose|wu: int|
            0 <= wu < pre.users.len() && (#[trigger] pre.users[wu].id) == ee.conn
                && pre.users[wu].preference == ee.preference && pre.users[wu].partner_id is None
                && pre.users[wu].group_id is None;
        assert(post.users[wu] == pre.users[wu]);
    }
    assert(!post.is_waiting(u.id)) by {
        if post.is_waiting(u.id) {
            let e = choose|e: int| 0 <= e < post.waiting.len() && post.waiting[e].conn == u.id;
            assert(pre.waiting[e].wf_in(pre.users));
            let wu = choose|wu: int|
                0 <= wu < pre.users.len() && (#[trigger] pre.users[wu].id) == u.id
                    && pre.users[wu].preference == pre.waiting[e].preference
                    && pre.users[wu].partner_id is None && pre.users[wu].group_id is None;
            assert(pre.has_user(u.id));
        }
    }
    assert(post.wf());
}

impl ChatServer {
    /// Creates the session for a joining profile and dispatches it to the
    /// group logic or to matchmaking. Unregistered or doubly joining
    /// connections are dropped silently.
    pub fn join_chat(&mut self, conn: ConnId, profile: UserProfile) -> (r: Vec<Outbound>)
        requires
            old(self)@.wf(),
        ensures
            final(self)@.wf(),
            join_outcome(old(self)@, final(self)@, r.deep_view(), conn, profile@),
    {
        let ghost pre = self@;
        let ghost pv = profile@;
        if self.find_user(conn).is_some() || !self.has_session(conn) {
            let r: Vec<Outbound> = Vec::new();
            proof {
                assert(r.deep_view() =~= Seq::<OutboundV>::empty());
            }
            return r;
        }
        let UserProfile { user_id, username, preference, gender, room_type, group_code, group_join_method } =
            profile;
        let is_group = str_eq(room_type.as_str(), "group");
        let method_create = match &group_join_method {
            Some(m) => str_eq(m.as_str(), "create"),
            None => false,
        };
        let method_join = match &group_join_method {
            Some(m) => str_eq(m.as_str(), "join") && group_code.is_some(),
            None => false,
        };
        let name = display_name(&username, &user_id);
        let user = User {
            id: conn,
            user_id,
            username: name,
            gender,
            preference,
            room_type,
            partner_id: None,
            group_id: None,
        };
        self.users.push(user);
        proof {
            assert(self@ =~= mid_state(pre, conn, pv));
            lemma_add_user_wf(pre, self@, new_user_v(conn, pv));
        }
        if is_group {
            if method_create {
                self.create_new_group(conn)
            } else if method_join {
                let code = match group_code {
                    Some(c) => c,
                    None => String::new(),
                };
                self.join_group_by_code(conn, code.as_str())
            } else {
                proof {
                    assert(!(pv.group_join_method == Some("create"@)));
                    assert(!(pv.group_join_method == Some("join"@) && pv.group_code is Some));
                }
                self.join_random_group(conn)
            }
        } else {
            self.find_match(conn)
        }
    }

    /// Leaves the current chat (pairing, group or pool) and keeps the
    /// connection registered.
    pub fn disconnect_chat(&mut self, conn: ConnId) -> (r: Vec<Outbound>)
        requires
            old(self)@.wf(),
        ensures
            final(self)@.wf(),
            cascade_outcome(old(self)@, final(self)@, r.deep_view(), conn),
    {
        self.handle_disconnect(conn)
    }

    /// Unregisters the connection: the cascade runs and the session binding
    /// goes away. A no-op for an unknown id.
    pub fn disconnect(&mut self, conn: ConnId) -> (r: Vec<Outbound>)
        requires
            old(self)@.wf(),
        ensures
            final(self)@.wf(),
            final(self)@.sessions == conns_without(old(self)@.sessions, conn),
            cascade_outcome(
                StateV { sessions: conns_without(old(self)@.sessions, conn), ..old(self)@ },
                final(self)@,
                r.deep_view(),
                conn,
            ),
    {
        let ghost pre = self@;
        let r = self.handle_disconnect(conn);
        let ghost mid = self@;
        let mut kept: Vec<ConnId> = Vec::new();
        proof {
            assert(kept@ + conns_without(self.sessions@, conn) =~= conns_without(
                pre.sessions,
                conn,
            ));
        }
        while self.sessions.len() > 0
            invariant
                self.next_conn == mid.next_conn,
                self@.users == mid.users,
                self@.waiting == mid.waiting,
                self@.groups == mid.groups,
                kept@ + conns_without(self.sessions@, conn) == conns_without(pre.sessions, conn),
                forall|j: int| 0 <= j < kept@.len() ==> kept@[j] != conn,
            decreases self.sessions.len(),
        {
            let ghost prev = self.sessions@;
            let ghost kprev = kept@;
            let e = self.sessions.remove(0);
            proof {
                assert(self.sessions@ =~= prev.drop_first());
            }
            if e != conn {
                kept.push(e);
                proof {
                    assert(kept@ =~= kprev.push(prev[0]));
                    assert(kprev.push(prev[0]) + conns_without(prev.drop_first(), conn)
                        =~= kprev + (seq![prev[0]] + conns_without(prev.drop_first(), conn)));
                }
            }
        }
        self.sessions = kept;
        proof {
            assert(conns_without(Seq::<ConnId>::empty(), conn) =~= Seq::<ConnId>::empty());
            assert(kept@ + Seq::<ConnId>::empty() =~= kept@);
            assert(self@.sessions == conns_without(pre.sessions, conn));
            let post = self@;
            let preq = StateV { sessions: conns_without(pre.sessions, conn), ..pre };
            assert(cascade_outcome(preq, post, r.deep_view(), conn));
            // well-formedness: the session list shrank, everything else held
            lemma_conns_without(pre.sessions, conn);
            lemma_conns_without_distinct(pre.sessions, conn);
            assert forall|i: int|
                0 <= i < post.sessions.len() implies post.sessions[i] < post.next_conn by {
                assert(post.sessions.contains(post.sessions[i]));
                assert(pre.sessions.contains(post.sessions[i]));
                let j = choose|j: int|
                    0 <= j < pre.sessions.len() && pre.sessions[j] == post.sessions[i];
            }
            assert(post.wf_sessions());
            assert forall|i: int|
                0 <= i < post.users.len() implies post.sessions.contains(
                #[trigger] post.users[i].id,
            ) by {
                assert(mid.users[i].id != conn) by {
                    if mid.users[i].id == conn {
                        lemma_user_at(mid, i);
                    }
                }
                assert(mid.sessions.contains(mid.users[i].id));
            }
            lemma_wf_core_same(mid, post);
            assert(post.wf());
        }
        r
    }
}

} // verus!

verus! {

// ---------------------------------------------------------------------------
// Laws
// ---------------------------------------------------------------------------

/// In every well-formed state, every live group's member-id list and
/// display-name list have equal length.
pub proof fn lemma_group_lists_aligned(s: StateV, gi: int)
    requires
        s.wf(),
        0 <= gi < s.groups.len(),
    ensures
        s.groups[gi].members.len() == s.groups[gi].usernames.len(),
{
    assert(s.groups[gi].wf_in(s.users));
}

/// Immediately after matchmaking pairs two connections, each one's partner
/// link names the other.
pub proof fn lemma_pairing_symmetric(
    pre: StateV,
    post: StateV,
    out: Seq<OutboundV>,
    a: ConnId,
    b: ConnId,
)
    requires
        pre.wf(),
        pre.has_user(a),
        pre.has_user(b),
        a != b,
        paired_outcome(pre, post, out, a, b),
    ensures
        post.has_user(a),
        post.has_user(b),
        post.user(a).partner_id == Some(b),
        post.user(b).partner_id == Some(a),
{
    let i = pre.user_index(a);
    let j = pre.user_index(b);
    assert(post.users[i] == with_partner(pre.users[i], Some(b)));
    assert(post.users[j] == with_partner(pre.users[j], Some(a)));
    assert forall|x: int, y: int|
        0 <= x < y < post.users.len() implies post.users[x].id != post.users[y].id by {
        assert(post.users[x].id == pre.users[x].id);
        assert(post.users[y].id == pre.users[y].id);
    }
    lemma_user_at(post, i);
    lemma_user_at(post, j);
}

/// When a connection partnered with `p` disconnects, `p`'s partner link is
/// cleared and `p` is sent exactly one `partner_disconnected`.
pub proof fn lemma_disconnect_notifies_partner(
    pre: StateV,
    post: StateV,
    out: Seq<OutboundV>,
    conn: ConnId,
    p: ConnId,
)
    requires
        pre.wf(),
        pre.has_user(conn),
        pre.user(conn).partner_id == Some(p),
        cascade_outcome(pre, post, out, conn),
    ensures
        post.has_user(p),
        post.user(p).partner_id is None,
        out == seq![partner_gone(p)],
        out.len() == 1,
{
    let ui = pre.user_index(conn);
    let users1 = pre.users.remove(ui);
    lemma_remove_user(pre, users1, conn, ui);
    assert(mutual_partner(pre.users, p, conn));
    let pm = choose|pm: int|
        0 <= pm < pre.users.len() && (#[trigger] pre.users[pm]).id == p && pre.users[pm].partner_id
            == Some(conn);
    assert(pm != ui);
    let pm1: int = if pm < ui {
        pm
    } else {
        pm - 1
    };
    assert(users1[pm1] == pre.users[pm]);
    assert(post.users[pm1] == with_partner(users1[pm1], None));
    assert forall|x: int, y: int|
        0 <= x < y < post.users.len() implies post.users[x].id != post.users[y].id by {
        assert(post.users[x].id == users1[x].id);
        assert(post.users[y].id == users1[y].id);
    }
    lemma_user_at(post, pm1);
}

/// A waiting connection is always a live session placed nowhere: never
/// matched, never grouped.
pub proof fn lemma_waiting_unplaced(s: StateV, c: ConnId)
    requires
        s.wf(),
        s.is_waiting(c),
    ensures
        s.has_user(c),
        s.user(c).partner_id is None,
        s.user(c).group_id is None,
{
    let e = choose|e: int| 0 <= e < s.waiting.len() && s.waiting[e].conn == c;
    assert(s.waiting[e].wf_in(s.users));
    let wu = choose|wu: int|
        0 <= wu < s.users.len() && (#[trigger] s.users[wu].id) == c && s.users[wu].preference
            == s.waiting[e].preference && s.users[wu].partner_id is None
            && s.users[wu].group_id is None;
    lemma_user_at(s, wu);
}

/// A connection id is in no waiting pool once it was matched or its
/// disconnect cascade ran.
pub proof fn lemma_no_waiting_after(
    pre: StateV,
    post: StateV,
    out: Seq<OutboundV>,
    a: ConnId,
    b: ConnId,
    paired: bool,
)
    requires
        paired ==> paired_outcome(pre, post, out, a, b),
        !paired ==> cascade_outcome(pre, post, out, a),
    ensures
        !post.is_waiting(a),
        paired ==> !post.is_waiting(b),
{
    if paired {
        lemma_entries_without(pre.waiting, a);
        lemma_entries_without(entries_without(pre.waiting, a), b);
    } else {
        lemma_entries_without(pre.waiting, a);
    }
}

/// A 1:1 message reaches exactly the current partner; a group message
/// reaches every other current member of the addressed group exactly once.
pub proof fn lemma_message_recipients(
    s: StateV,
    out: Seq<OutboundV>,
    conn: ConnId,
    m: MessageV,
    is_group: bool,
    over: Option<Seq<char>>,
)
    requires
        s.wf(),
        s.has_user(conn),
        send_outcome(s, out, conn, m, is_group, over),
    ensures
        !is_group && s.user(conn).partner_id is Some ==> out.len() == 1 && out[0] == receive_msg(
            s.user(conn).partner_id.unwrap(),
            m,
            s.user(conn).username,
        ),
        !is_group && s.user(conn).partner_id is None ==> out.len() == 0,
        is_group ==> match group_target(s, conn, over) {
            Some(code) => s.has_group(code) ==> {
                let g = s.group(code);
                &&& forall|x: int, y: int| 0 <= x < y < out.len() ==> out[x].to != out[y].to
                &&& forall|c: ConnId|
                    #[trigger] g.members.contains(c) && c != conn ==> exists|j: int|
                        0 <= j < out.len() && out[j] == receive_msg(c, m, s.user(conn).username)
                &&& forall|j: int|
                    0 <= j < out.len() ==> g.members.contains((#[trigger] out[j]).to) && out[j].to
                        != conn
            },
            None => true,
        },
{
    if is_group {
        match group_target(s, conn, over) {
            Some(code) => {
                if s.has_group(code) {
                    let gi = s.group_index(code);
                    let g = s.groups[gi];
                    assert(g == s.group(code));
                    assert(g.wf_in(s.users));
                    let others = conns_without(g.members, conn);
                    lemma_conns_without(g.members, conn);
                    lemma_conns_without_distinct(g.members, conn);
                    assert forall|x: int, y: int|
                        0 <= x < y < out.len() implies out[x].to != out[y].to by {
                        assert(out[x].to == others[x] && out[y].to == others[y]);
                    }
                    assert forall|c: ConnId|
                        #[trigger] g.members.contains(c) && c != conn implies exists|j: int|
                        0 <= j < out.len() && out[j] == receive_msg(
                            c,
                            m,
                            s.user(conn).username,
                        ) by {
                        assert(others.contains(c));
                        let j = choose|j: int| 0 <= j < others.len() && others[j] == c;
                        assert(out[j] == receive_msg(c, m, s.user(conn).username));
                    }
                    assert forall|j: int|
                        0 <= j < out.len() implies g.members.contains((#[trigger] out[j]).to)
                            && out[j].to != conn by {
                        assert(out[j].to == others[j]);
                        assert(others.contains(others[j]));
                    }
                }
            },
            None => {},
        }
    }
}

} // verus!

verus! {

/// Two compatible 1:1 joins from a clean room: the first asker waits, the
/// second is paired with it, the links are mutual, each side receives
/// exactly one `chat_started`, and no waiting-pool entry remains.
#[verifier::spinoff_prover]
#[verifier::rlimit(50)]
pub proof fn lemma_compatible_joins_pair(
    s0: StateV,
    s1: StateV,
    s2: StateV,
    out1: Seq<OutboundV>,
    out2: Seq<OutboundV>,
    a: ConnId,
    b: ConnId,
    pa: ProfileV,
    pb: ProfileV,
)
    requires
        s0.wf(),
        s0.waiting.len() == 0,
        !s0.has_user(a),
        s0.sessions.contains(a),
        !s0.has_user(b),
        s0.sessions.contains(b),
        a != b,
        pa.room_type != "group"@,
        pb.room_type != "group"@,
        pb.preference == pa.preference,
        gender_ok(pa.preference, pa.gender),
        gender_ok(pb.preference, pb.gender),
        join_outcome(s0, s1, out1, a, pa),
        join_outcome(s1, s2, out2, b, pb),
    ensures
        out1 == seq![waiting_for_match(a)],
        out2 == seq![chat_started(b, None), chat_started(a, None)],
        s2.has_user(a),
        s2.has_user(b),
        s2.user(a).partner_id == Some(b),
        s2.user(b).partner_id == Some(a),
        s2.waiting.len() == 0,
{
    let ua = new_user_v(a, pa);
    let ub = new_user_v(b, pb);
    let mid0 = mid_state(s0, a, pa);
    let ia = s0.users.len() as int;

    // first join: a fresh registered session, non-group room
    assert(match_outcome(mid0, s1, out1, a));
    assert forall|x: int, y: int|
        0 <= x < y < mid0.users.len() implies mid0.users[x].id != mid0.users[y].id by {
        if y == ia {
            assert(mid0.users[x] == s0.users[x]);
            lemma_user_at(s0, x);
        } else {
            assert(mid0.users[x] == s0.users[x] && mid0.users[y] == s0.users[y]);
        }
    }
    assert(mid0.users[ia] == ua);
    lemma_user_at(mid0, ia);
    assert(mid0.user(a) == ua);
    // nobody waits, so nobody is eligible: the asker is enqueued
    assert(!mid0.any_eligible(ua.preference)) by {
        if mid0.any_eligible(ua.preference) {
            let c = choose|c: ConnId| mid0.eligible(ua.preference, c);
            let e = choose|e: int| 0 <= e < mid0.waiting.len() && mid0.waiting[e].conn == c;
        }
    }
    assert(enqueued_outcome(mid0, s1, out1, a, ua.preference));
    assert(out1 == seq![waiting_for_match(a)]);
    assert(s1.users == s0.users.push(ua));
    assert(s1.waiting == Seq::<WaitV>::empty().push(WaitV { preference: pa.preference, conn: a }));
    let ea = WaitV { preference: pa.preference, conn: a };
    assert(s1.waiting[0] == ea && s1.waiting.len() == 1);

    // second join: b is still fresh and registered
    assert(!s1.has_user(b)) by {
        if s1.has_user(b) {
            let i = choose|i: int| 0 <= i < s1.users.len() && s1.users[i].id == b;
            if i < ia {
                assert(s0.users[i].id == b);
                lemma_user_at(s0, i);
            } else {
                assert(s1.users[i] == ua);
            }
        }
    }
    assert(s1.sessions.contains(b));
    let mid1 = mid_state(s1, b, pb);
    let ib = s1.users.len() as int;
    assert(match_outcome(mid1, s2, out2, b));
    assert forall|x: int, y: int|
        0 <= x < y < mid1.users.len() implies mid1.users[x].id != mid1.users[y].id by {
        if y == ib {
            assert(mid1.users[y] == ub);
            if x == ia {
                assert(mid1.users[x] == ua);
            } else {
                assert(mid1.users[x] == s0.users[x]);
                lemma_user_at(s0, x);
                assert(!s1.has_user(b));
                assert(s1.users[x] == s0.users[x]);
            }
        } else if y == ia {
            assert(mid1.users[x] == s0.users[x] && mid1.users[y] == ua);
            lemma_user_at(s0, x);
        } else {
            assert(mid1.users[x] == s0.users[x] && mid1.users[y] == s0.users[y]);
        }
    }
    assert(mid1.users[ib] == ub);
    lemma_user_at(mid1, ib);
    assert(mid1.user(b) == ub);
    assert(mid1.users[ia] == ua);
    lemma_user_at(mid1, ia);
    assert(mid1.user(a) == ua);
    // a is the one eligible waiter for b's preference
    assert(mid1.waiting == s1.waiting);
    assert(mid1.is_waiting(a)) by {
        assert(mid1.waiting[0].conn == a);
    }
    assert(mid1.eligible(ub.preference, a));
    assert(mid1.any_eligible(ub.preference));
    let c = choose|c: ConnId| mid1.eligible(ub.preference, c) && paired_outcome(
        mid1,
        s2,
        out2,
        b,
        c,
    );
    assert(c == a) by {
        assert(mid1.is_waiting(c));
        let e = choose|e: int| 0 <= e < mid1.waiting.len() && mid1.waiting[e].conn == c;
        assert(e == 0);
    }
    assert(paired_outcome(mid1, s2, out2, b, a));
    assert(out2 == seq![chat_started(b, None), chat_started(a, None)]);

    // the pairing is mutual and drains the pool
    assert(s2.users[ia] == with_partner(ua, Some(b)));
    assert(s2.users[ib] == with_partner(ub, Some(a)));
    assert forall|x: int, y: int|
        0 <= x < y < s2.users.len() implies s2.users[x].id != s2.users[y].id by {
        assert(s2.users[x].id == mid1.users[x].id);
        assert(s2.users[y].id == mid1.users[y].id);
    }
    lemma_user_at(s2, ia);
    lemma_user_at(s2, ib);
    assert(s2.waiting == entries_without(entries_without(mid1.waiting, b), a));
    assert(entries_without(mid1.waiting, b) =~= seq![ea] + entries_without(
        Seq::<WaitV>::empty(),
        b,
    )) by {
        assert(mid1.waiting[0] == ea && ea.conn != b);
        assert(mid1.waiting.drop_first() =~= Seq::<WaitV>::empty());
    }
    assert(entries_without(mid1.waiting, b) =~= seq![ea]);
    assert(entries_without(entries_without(mid1.waiting, b), a) =~= Seq::<WaitV>::empty()) by {
        let w = entries_without(mid1.waiting, b);
        assert(w[0] == ea && ea.conn == a);
        assert(w.drop_first() =~= Seq::<WaitV>::empty());
        assert(entries_without(w.drop_first(), a) =~= Seq::<WaitV>::empty());
    }
}

} // verus!

verus! {

/// With no live group, no code draw can collide, so group creation is owed:
/// the silent give-up branch is impossible.
pub proof fn lemma_create_owed_when_no_groups(
    pre: StateV,
    post: StateV,
    out: Seq<OutboundV>,
    conn: ConnId,
)
    requires
        pre.groups.len() == 0,
        create_group_outcome(pre, post, out, conn),
    ensures
        exists|code: Seq<char>| created_outcome(pre, post, out, conn, code),
{
}

/// Group creation followed by a join by its code, from a clean room: the
/// creator gets `chat_started` with some code and the one-name roster; the
/// joiner lands behind it in both parallel lists; the creator is told who
/// joined and both get the two-name roster; the joiner gets `chat_started`
/// with the same code.
#[verifier::spinoff_prover]
#[verifier::rlimit(80)]
pub proof fn lemma_create_then_join_by_code(
    s0: StateV,
    s1: StateV,
    s2: StateV,
    out1: Seq<OutboundV>,
    out2: Seq<OutboundV>,
    a: ConnId,
    b: ConnId,
    pa: ProfileV,
    pb: ProfileV,
)
    requires
        s0.wf(),
        s0.groups.len() == 0,
        !s0.has_user(a),
        s0.sessions.contains(a),
        !s0.has_user(b),
        s0.sessions.contains(b),
        a != b,
        pa.room_type == "group"@,
        pa.group_join_method == Some("create"@),
        pb.room_type == "group"@,
        pb.group_join_method == Some("join"@),
        join_outcome(s0, s1, out1, a, pa),
        pb.group_code is Some,
        (exists|x: Seq<char>| created_outcome(mid_state(s0, a, pa), s1, out1, a, x) && pb.group_code
            == Some(x)),
        join_outcome(s1, s2, out2, b, pb),
    ensures
        ({
            let na = spec_display_name(pa.username, pa.user_id);
            let nb = spec_display_name(pb.username, pb.user_id);
            let x = pb.group_code.unwrap();
            &&& out1 == seq![chat_started(a, Some(x)), members_update(a, seq![na])]
            &&& out2 == seq![
                members_update(a, seq![na, nb]),
                user_joined(a, nb),
                members_update(b, seq![na, nb]),
                chat_started(b, Some(x)),
            ]
            &&& s2.groups.len() == 1
            &&& s2.groups[0].code == x
            &&& s2.groups[0].members == seq![a, b]
            &&& s2.groups[0].usernames == seq![na, nb]
            &&& s2.has_user(a) && s2.user(a).group_id == Some(x)
            &&& s2.has_user(b) && s2.user(b).group_id == Some(x)
        }),
{
    let na = spec_display_name(pa.username, pa.user_id);
    let nb = spec_display_name(pb.username, pb.user_id);
    let ua = new_user_v(a, pa);
    let ub = new_user_v(b, pb);
    let mid0 = mid_state(s0, a, pa);
    let ia = s0.users.len() as int;
    let x = choose|x: Seq<char>|
        created_outcome(mid0, s1, out1, a, x) && pb.group_code == Some(x);
    assert(pb.group_code.unwrap() == x);

    // the creator's half
    assert forall|p: int, q: int|
        0 <= p < q < mid0.users.len() implies mid0.users[p].id != mid0.users[q].id by {
        if q == ia {
            assert(mid0.users[p] == s0.users[p]);
            lemma_user_at(s0, p);
        } else {
            assert(mid0.users[p] == s0.users[p] && mid0.users[q] == s0.users[q]);
        }
    }
    assert(mid0.users[ia] == ua);
    lemma_user_at(mid0, ia);
    assert(mid0.user(a) == ua && mid0.user_index(a) == ia);
    assert(ua.username == na);
    assert(out1 == seq![chat_started(a, Some(x)), members_update(a, seq![na])]);
    let ga = GroupV { code: x, members: seq![a], usernames: seq![na] };
    assert(s1.groups == mid0.groups.push(ga));
    assert(s1.groups.len() == 1 && s1.groups[0] == ga);
    assert(s1.users == mid0.users.update(ia, with_group(ua, Some(x))));
    assert(s1.waiting == s0.waiting && s1.sessions == s0.sessions);

    // the joiner is still fresh and registered
    assert forall|p: int, q: int|
        0 <= p < q < s1.users.len() implies s1.users[p].id != s1.users[q].id by {
        assert(s1.users[p].id == mid0.users[p].id);
        assert(s1.users[q].id == mid0.users[q].id);
    }
    assert(!s1.has_user(b)) by {
        if s1.has_user(b) {
            let i = choose|i: int| 0 <= i < s1.users.len() && s1.users[i].id == b;
            assert(s1.users[i].id == mid0.users[i].id);
            if i == ia {
                assert(mid0.users[i] == ua);
            } else {
                assert(mid0.users[i] == s0.users[i]);
                lemma_user_at(s0, i);
            }
        }
    }
    let mid1 = mid_state(s1, b, pb);
    let ib = s1.users.len() as int;
    reveal_strlit("join");
    reveal_strlit("create");
    assert("join"@.len() != "create"@.len());
    assert(join_code_outcome(mid1, s2, out2, b, x));

    // the group and the joiner, pinned in the middle state
    assert forall|p: int, q: int|
        0 <= p < q < mid1.users.len() implies mid1.users[p].id != mid1.users[q].id by {
        if q == ib {
            assert(mid1.users[q] == ub);
            assert(mid1.users[p] == s1.users[p]);
            lemma_user_at(s1, p);
        } else {
            assert(mid1.users[p] == s1.users[p] && mid1.users[q] == s1.users[q]);
        }
    }
    assert(mid1.users[ib] == ub);
    lemma_user_at(mid1, ib);
    assert(mid1.user(b) == ub && mid1.user_index(b) == ib);
    assert(ub.username == nb);
    assert(mid1.groups == s1.groups);
    assert(mid1.has_group(x)) by {
        assert(mid1.groups[0].code == x);
    }
    let gi = mid1.group_index(x);
    assert(gi == 0);
    assert(mid1.groups[0] == ga);
    let ns = ga.usernames.push(nb);
    assert(ns =~= seq![na, nb]);

    // the joiner's half: four messages, in order
    assert(out2.len() == 4);
    assert(ga.members[0] == a);
    assert(out2[0] == members_update(a, ns) && out2[1] == user_joined(a, nb));
    assert(out2[2] == members_update(b, ns));
    assert(out2[3] == chat_started(b, Some(x)));
    assert(out2 =~= seq![
        members_update(a, seq![na, nb]),
        user_joined(a, nb),
        members_update(b, seq![na, nb]),
        chat_started(b, Some(x)),
    ]);

    // the final placement
    assert(s2.groups == mid1.groups.update(
        0,
        GroupV { code: x, members: ga.members.push(b), usernames: ns },
    ));
    assert(s2.groups.len() == 1);
    assert(s2.groups[0].members =~= seq![a, b]);
    assert(s2.groups[0].usernames =~= seq![na, nb]);
    assert(s2.users == mid1.users.update(ib, with_group(ub, Some(x))));
    assert forall|p: int, q: int|
        0 <= p < q < s2.users.len() implies s2.users[p].id != s2.users[q].id by {
        assert(s2.users[p].id == mid1.users[p].id);
        assert(s2.users[q].id == mid1.users[q].id);
    }
    assert(s2.users[ia] == with_group(ua, Some(x)));
    assert(s2.users[ib] == with_group(ub, Some(x)));
    lemma_user_at(s2, ia);
    lemma_user_at(s2, ib);
}

} // verus!
