//! The server state shared by all connection tasks: the session registry,
//! the lobbies sessions are paired into, and the telemetry address of each
//! session. Every operation is a step from one state to the next that also
//! says which messages must go out; performing the sends is left to the
//! transport loops.
use vstd::prelude::*;
use crate::ident::{fresh_id, ID_TEXT_LEN};
use crate::message::{
    new_player, players_view, AcceptEvent, ClientEvent, ClientId, LeaveEvent, LobbyId,
    Player, PlayerView, PosUpdateEvent, PosUpdateView, ServerEvent, ServerEventView, StartEvent,
    copy_players,
};

verus! {

/// How many sessions a lobby holds when its game starts.
pub const LOBBY_CAPACITY: usize = 2;

/// An address on the telemetry channel.
#[derive(Clone, Copy, Debug, PartialEq, Eq, Structural)]
pub enum PeerAddr {
    V4 { ip: u32, port: u16 },
    V6 { ip: u128, port: u16, flowinfo: u32, scope_id: u32 },
}

/// A group of sessions that play one game together, oldest member first.
#[derive(Debug)]
pub struct Lobby {
    pub id: LobbyId,
    pub players: Vec<Player>,
}

pub struct LobbyView {
    pub id: Seq<char>,
    pub players: Seq<PlayerView>,
}

impl View for Lobby {
    type V = LobbyView;

    open spec fn view(&self) -> LobbyView {
        LobbyView { id: self.id@, players: players_view(self.players@) }
    }
}

/// The telemetry address last announced for a session.
#[derive(Debug)]
pub struct Binding {
    pub client_id: ClientId,
    pub addr: PeerAddr,
}

/// A message to put on one session's control channel.
#[derive(Debug, PartialEq)]
pub struct Delivery {
    pub to: ClientId,
    pub event: ServerEvent,
}

pub struct DeliveryView {
    pub to: Seq<char>,
    pub event: ServerEventView,
}

impl View for Delivery {
    type V = DeliveryView;

    open spec fn view(&self) -> DeliveryView {
        DeliveryView { to: self.to@, event: self.event@ }
    }
}

/// A position report to send to one telemetry address.
#[derive(Debug, PartialEq)]
pub struct Datagram {
    pub to: PeerAddr,
    pub update: PosUpdateEvent,
}

pub struct DatagramView {
    pub to: PeerAddr,
    pub update: PosUpdateView,
}

impl View for Datagram {
    type V = DatagramView;

    open spec fn view(&self) -> DatagramView {
        DatagramView { to: self.to, update: self.update@ }
    }
}

/// Why a control-channel request changed nothing.
#[derive(Clone, Copy, Debug, PartialEq, Eq, Structural)]
pub enum ServerError {
    /// The session is not registered.
    UnknownSession,
    /// The session already belongs to a lobby.
    AlreadyInLobby,
    /// The id drawn for a new lobby is already in use.
    LobbyIdTaken,
    /// The message is not one the control channel acts on.
    UnexpectedEvent,
}

/// What a successful join asks the transport to send: `immediate` right
/// away, and `after_grace` once the start delay has passed (with no lock on
/// the server state held meanwhile).
#[derive(Debug)]
pub struct JoinPlan {
    pub lobby_id: LobbyId,
    pub immediate: Vec<Delivery>,
    pub after_grace: Vec<Delivery>,
}

/// The state shared by all connection tasks.
#[derive(Debug)]
pub struct Server {
    /// Lobbies in the order they were created.
    pub lobbies: Vec<Lobby>,
    /// Sessions whose control channel is open.
    pub tcp_clients: Vec<ClientId>,
    /// Every session id registered since the server started, so that no id
    /// is ever handed out twice.
    pub issued: Vec<ClientId>,
    /// Announced telemetry addresses.
    pub udp_client_addrs: Vec<Binding>,
}

pub struct ServerView {
    pub lobbies: Seq<LobbyView>,
    pub clients: Seq<Seq<char>>,
    pub issued: Seq<Seq<char>>,
    pub bindings: Seq<(Seq<char>, PeerAddr)>,
}

pub open spec fn lobbies_view(ls: Seq<Lobby>) -> Seq<LobbyView> {
    ls.map_values(|l: Lobby| l@)
}

pub open spec fn ids_view(ids: Seq<String>) -> Seq<Seq<char>> {
    ids.map_values(|s: String| s@)
}

pub open spec fn bindings_view(bs: Seq<Binding>) -> Seq<(Seq<char>, PeerAddr)> {
    bs.map_values(|b: Binding| (b.client_id@, b.addr))
}

pub open spec fn deliveries_view(ds: Seq<Delivery>) -> Seq<DeliveryView> {
    ds.map_values(|d: Delivery| d@)
}

pub open spec fn datagrams_view(ds: Seq<Datagram>) -> Seq<DatagramView> {
    ds.map_values(|d: Datagram| d@)
}

impl View for Server {
    type V = ServerView;

    open spec fn view(&self) -> ServerView {
        ServerView {
            lobbies: lobbies_view(self.lobbies@),
            clients: ids_view(self.tcp_clients@),
            issued: ids_view(self.issued@),
            bindings: bindings_view(self.udp_client_addrs@),
        }
    }
}

/// The lobby can take one more member.
pub open spec fn has_room(l: LobbyView) -> bool {
    l.players.len() < LOBBY_CAPACITY
}

/// Slot `k` of lobby `i` holds session `id`.
pub open spec fn member_slot(ls: Seq<LobbyView>, i: int, k: int, id: Seq<char>) -> bool {
    0 <= i < ls.len() && 0 <= k < ls[i].players.len() && ls[i].players[k].id == id
}

/// The session belongs to one of the lobbies.
pub open spec fn in_some_lobby(ls: Seq<LobbyView>, id: Seq<char>) -> bool {
    exists|i: int, k: int| member_slot(ls, i, k, id)
}

/// One of the lobbies carries this id.
pub open spec fn holds_lobby_id(ls: Seq<LobbyView>, id: Seq<char>) -> bool {
    exists|i: int| 0 <= i < ls.len() && ls[i].id == id
}

/// Index of the oldest lobby with room, or the number of lobbies if all are
/// full.
pub open spec fn first_open(ls: Seq<LobbyView>) -> int
    decreases ls.len(),
{
    if ls.len() == 0 {
        0
    } else if has_room(ls[0]) {
        0
    } else {
        1 + first_open(ls.drop_first())
    }
}

/// No lobby id has the length of a drawn id, so a drawn id cannot clash
/// with one.
pub open spec fn no_drawn_length_id(ls: Seq<LobbyView>) -> bool {
    forall|j: int| 0 <= j < ls.len() ==> ls[j].id.len() != ID_TEXT_LEN
}

/// The lobbies after session `id` is assigned: it joins the oldest lobby with
/// room, or else a new lobby `fresh` is opened with it as the only member.
pub open spec fn assigned(ls: Seq<LobbyView>, id: Seq<char>, fresh: Seq<char>) -> Seq<LobbyView> {
    let i = first_open(ls);
    if i < ls.len() {
        ls.update(i, LobbyView { id: ls[i].id, players: ls[i].players.push(new_player(id)) })
    } else {
        ls.push(LobbyView { id: fresh, players: seq![new_player(id)] })
    }
}

/// The lobbies after the member in slot `k` of lobby `i` is taken out; the
/// lobby keeps its id and place even if that leaves it empty.
pub open spec fn departed(ls: Seq<LobbyView>, i: int, k: int) -> Seq<LobbyView> {
    ls.update(i, LobbyView { id: ls[i].id, players: ls[i].players.remove(k) })
}

/// The lobbies once the member in slot `k` of lobby `i` has left for good: a
/// lobby left empty is deleted.
pub open spec fn vacated(ls: Seq<LobbyView>, i: int, k: int) -> Seq<LobbyView> {
    if ls[i].players.len() == 1 {
        ls.remove(i)
    } else {
        departed(ls, i, k)
    }
}

/// The telemetry address most recently announced for `id`, if any.
pub open spec fn bound_addr(bs: Seq<(Seq<char>, PeerAddr)>, id: Seq<char>) -> Option<PeerAddr>
    decreases bs.len(),
{
    if bs.len() == 0 {
        None
    } else if bs.last().0 == id {
        Some(bs.last().1)
    } else {
        bound_addr(bs.drop_last(), id)
    }
}

/// The control message for `to` telling that `id` left.
pub open spec fn leave_notice(to: Seq<char>, id: Seq<char>) -> DeliveryView {
    DeliveryView { to, event: ServerEventView::Leave { client_id: id } }
}

/// The start message for member `p` of lobby `l`.
pub open spec fn start_notice(l: LobbyView, p: PlayerView) -> DeliveryView {
    DeliveryView {
        to: p.id,
        event: ServerEventView::Start { lobby_id: l.id, client_id: p.id, players: l.players },
    }
}

/// The position reports that relaying `u` from `sender` to the members `ps`
/// produces: one for each other member with a known telemetry address, in
/// member order.
pub open spec fn relay_targets(
    ps: Seq<PlayerView>,
    sender: Seq<char>,
    bs: Seq<(Seq<char>, PeerAddr)>,
    u: PosUpdateView,
) -> Seq<DatagramView>
    decreases ps.len(),
{
    if ps.len() == 0 {
        seq![]
    } else {
        let rest = relay_targets(ps.drop_last(), sender, bs, u);
        let p = ps.last();
        if p.id != sender && bound_addr(bs, p.id) is Some {
            rest.push(DatagramView { to: bound_addr(bs, p.id)->Some_0, update: u })
        } else {
            rest
        }
    }
}


/// The oldest lobby with room is at `first_open`, and every lobby before it
/// is full.
pub proof fn lemma_first_open(ls: Seq<LobbyView>)
    ensures
        0 <= first_open(ls) <= ls.len(),
        forall|j: int| 0 <= j < first_open(ls) ==> !has_room(#[trigger] ls[j]),
        first_open(ls) < ls.len() ==> has_room(ls[first_open(ls)]),
    decreases ls.len(),
{
    if ls.len() > 0 && !has_room(ls[0]) {
        lemma_first_open(ls.drop_first());
        assert forall|j: int| 0 <= j < first_open(ls) implies !has_room(#[trigger] ls[j]) by {
            if j > 0 {
                assert(ls[j] == ls.drop_first()[j - 1]);
            }
        }
    }
}

/// An index with room and only full lobbies before it is `first_open`.
proof fn lemma_first_open_at(ls: Seq<LobbyView>, i: int)
    requires
        0 <= i <= ls.len(),
        forall|j: int| 0 <= j < i ==> !has_room(#[trigger] ls[j]),
        i < ls.len() ==> has_room(ls[i]),
    ensures
        first_open(ls) == i,
{
    lemma_first_open(ls);
    if first_open(ls) < i {
        assert(has_room(ls[first_open(ls)]));
    }
}

/// Assigning an unplaced registered session keeps the invariant.
proof fn lemma_assigned_wf(v: ServerView, id: Seq<char>, fresh: Seq<char>)
    requires
        v.wf(),
        v.registered(id),
        !in_some_lobby(v.lobbies, id),
        first_open(v.lobbies) == v.lobbies.len() ==> !holds_lobby_id(v.lobbies, fresh),
    ensures
        (ServerView { lobbies: assigned(v.lobbies, id, fresh), ..v }).wf(),
{
    lemma_first_open(v.lobbies);
    let ls = v.lobbies;
    let i = first_open(ls);
    let w = ServerView { lobbies: assigned(ls, id, fresh), ..v };
    let nl = w.lobbies;
    assert forall|a: int, k: int| 0 <= a < nl.len() && 0 <= k < nl[a].players.len() implies
        (a < ls.len() && k < ls[a].players.len() && nl[a].players[k] == ls[a].players[k]) || (
        a == i && k == nl[a].players.len() - 1 && nl[a].players[k] == new_player(id)) by {
        if a == i {
            if i < ls.len() {
                assert(nl[a].players == ls[i].players.push(new_player(id)));
            }
        }
    }
    assert forall|a: int, b: int| 0 <= a < b < nl.len() implies nl[a].id != nl[b].id by {
        if b == ls.len() {
            assert(ls[a].id == nl[a].id);
        }
    }
    assert forall|a: int, k: int, b: int, m: int|
        member_slot(nl, a, k, nl[a].players[k].id) && member_slot(nl, b, m, nl[a].players[k].id)
        implies a == b && k == m by {
        let x = nl[a].players[k].id;
        let old_a = a < ls.len() && k < ls[a].players.len() && nl[a].players[k] == ls[a].players[k];
        let old_b = b < ls.len() && m < ls[b].players.len() && nl[b].players[m] == ls[b].players[m];
        if old_a && old_b {
            assert(member_slot(ls, a, k, ls[a].players[k].id));
            assert(member_slot(ls, b, m, ls[a].players[k].id));
        } else if old_a {
            assert(member_slot(ls, a, k, id));
        } else if old_b {
            assert(member_slot(ls, b, m, id));
        }
    }
}


/// Removing the member in slot `k` of lobby `i` keeps the invariant and
/// leaves the session in no lobby.
proof fn lemma_vacated_wf(v: ServerView, i: int, k: int)
    requires
        v.wf(),
        member_slot(v.lobbies, i, k, v.lobbies[i].players[k].id),
    ensures
        (ServerView { lobbies: vacated(v.lobbies, i, k), ..v }).wf(),
        !in_some_lobby(vacated(v.lobbies, i, k), v.lobbies[i].players[k].id),
{
    let ls = v.lobbies;
    let id = ls[i].players[k].id;
    let nl = vacated(ls, i, k);
    assert forall|a: int, b: int| 0 <= a < b < nl.len() implies nl[a].id != nl[b].id by {
        if ls[i].players.len() == 1 {
            let oa = if a >= i { a + 1 } else { a };
            let ob = if b >= i { b + 1 } else { b };
            assert(nl[a].id == ls[oa].id && nl[b].id == ls[ob].id);
        } else {
            assert(nl[a].id == ls[a].id && nl[b].id == ls[b].id);
        }
    }
    assert forall|a: int| 0 <= a < nl.len() implies 1 <= #[trigger] nl[a].players.len() <= LOBBY_CAPACITY by {
        if ls[i].players.len() == 1 {
            if a >= i {
                assert(nl[a] == ls[a + 1]);
            } else {
                assert(nl[a] == ls[a]);
            }
        } else if a == i {
            assert(nl[a].players == ls[i].players.remove(k));
        } else {
            assert(nl[a] == ls[a]);
        }
    }
    assert forall|a: int, m: int, b: int, n: int|
        member_slot(nl, a, m, nl[a].players[m].id) && member_slot(nl, b, n, nl[a].players[m].id)
        implies a == b && m == n by {
        let x = nl[a].players[m].id;
        let oa = if ls[i].players.len() == 1 && a >= i { a + 1 } else { a };
        let om = if ls[i].players.len() != 1 && a == i && m >= k { m + 1 } else { m };
        let ob = if ls[i].players.len() == 1 && b >= i { b + 1 } else { b };
        let on = if ls[i].players.len() != 1 && b == i && n >= k { n + 1 } else { n };
        assert(member_slot(ls, oa, om, ls[oa].players[om].id));
        assert(member_slot(ls, ob, on, ls[oa].players[om].id));
    }
    assert forall|a: int, m: int| !member_slot(nl, a, m, id) by {
        if member_slot(nl, a, m, id) {
            let oa = if ls[i].players.len() == 1 && a >= i { a + 1 } else { a };
            let om = if ls[i].players.len() != 1 && a == i && m >= k { m + 1 } else { m };
            assert(member_slot(ls, oa, om, id));
            assert(member_slot(ls, i, k, id));
        }
    }
}


/// Rewriting the last binding of `k` changes what `k` is bound to and
/// nothing else.
proof fn lemma_rebind(bs: Seq<(Seq<char>, PeerAddr)>, j: int, k: Seq<char>, a: PeerAddr, x: Seq<char>)
    requires
        0 <= j < bs.len(),
        bs[j].0 == k,
        forall|m: int| j < m < bs.len() ==> bs[m].0 != k,
    ensures
        bound_addr(bs.update(j, (k, a)), x) == if x == k {
            Some(a)
        } else {
            bound_addr(bs, x)
        },
    decreases bs.len(),
{
    let nb = bs.update(j, (k, a));
    if j < bs.len() - 1 {
        assert(nb.drop_last() =~= bs.drop_last().update(j, (k, a)));
        lemma_rebind(bs.drop_last(), j, k, a, x);
    } else {
        assert(nb.drop_last() =~= bs.drop_last());
    }
}

/// What a join request from `id` does, taking the server from `before` to
/// `after`: on success the session is assigned as `assigned` says and gets an
/// `Accept`, followed by a `Wait` if its lobby is still short of capacity;
/// when the join fills the lobby, every member gets a `Start` listing all
/// members after the grace delay. On an error nothing changes.
pub open spec fn joined(before: ServerView, after: ServerView, id: Seq<char>, r: Result<JoinPlan, ServerError>) -> bool {
    &&& match r {
        Ok(plan) => {
            let i = first_open(before.lobbies);
            let l = after.lobbies[i];
            let accept = DeliveryView {
                to: id,
                event: ServerEventView::Accept { lobby_id: plan.lobby_id@, client_id: id },
            };
            &&& after.lobbies == assigned(before.lobbies, id, plan.lobby_id@)
            &&& l.id == plan.lobby_id@
            &&& i < before.lobbies.len() ==> plan.lobby_id@ == before.lobbies[i].id
            &&& i == before.lobbies.len() ==> !holds_lobby_id(before.lobbies, plan.lobby_id@)
            &&& deliveries_view(plan.immediate@) == if l.players.len() < LOBBY_CAPACITY {
                seq![accept, DeliveryView { to: id, event: ServerEventView::Wait }]
            } else {
                seq![accept]
            }
            &&& deliveries_view(plan.after_grace@) == if l.players.len() == LOBBY_CAPACITY {
                l.players.map_values(|p: PlayerView| start_notice(l, p))
            } else {
                Seq::<DeliveryView>::empty()
            }
        },
        Err(e) => after == before,
    }
    &&& (r matches Err(ServerError::UnknownSession)) <==> !before.registered(id)
    &&& (r matches Err(ServerError::AlreadyInLobby)) <==> before.registered(id)
        && in_some_lobby(before.lobbies, id)
    &&& (r matches Err(ServerError::LobbyIdTaken)) ==> before.registered(id)
        && !in_some_lobby(before.lobbies, id)
        && first_open(before.lobbies) == before.lobbies.len() && !no_drawn_length_id(before.lobbies)
    &&& r is Err ==> (r matches Err(ServerError::UnknownSession))
        || (r matches Err(ServerError::AlreadyInLobby))
        || (r matches Err(ServerError::LobbyIdTaken))
    &&& before.registered(id) && !in_some_lobby(before.lobbies, id) && (first_open(before.lobbies)
        < before.lobbies.len() || no_drawn_length_id(before.lobbies)) ==> r is Ok
}


/// Taking the member in slot `k` of lobby `i` out keeps the state valid,
/// leaves the session in no lobby, and leaves every other lobby as it was.
proof fn lemma_departed_valid(v: ServerView, i: int, k: int)
    requires
        v.wf(),
        member_slot(v.lobbies, i, k, v.lobbies[i].players[k].id),
    ensures
        (ServerView { lobbies: departed(v.lobbies, i, k), ..v }).valid(),
        !in_some_lobby(departed(v.lobbies, i, k), v.lobbies[i].players[k].id),
{
    let ls = v.lobbies;
    let id = ls[i].players[k].id;
    let nl = departed(ls, i, k);
    assert(nl[i].players == ls[i].players.remove(k));
    assert forall|a: int| 0 <= a < nl.len() implies #[trigger] nl[a].players.len() <= LOBBY_CAPACITY by {
        if a != i {
            assert(nl[a] == ls[a]);
        }
    }
    assert forall|a: int, b: int| 0 <= a < b < nl.len() implies nl[a].id != nl[b].id by {
        assert(nl[a].id == ls[a].id && nl[b].id == ls[b].id);
    }
    assert forall|a: int, m: int, b: int, n: int|
        member_slot(nl, a, m, nl[a].players[m].id) && member_slot(nl, b, n, nl[a].players[m].id)
        implies a == b && m == n by {
        let om = if a == i && m >= k { m + 1 } else { m };
        let on = if b == i && n >= k { n + 1 } else { n };
        assert(member_slot(ls, a, om, ls[a].players[om].id));
        assert(member_slot(ls, b, on, ls[a].players[om].id));
    }
    assert forall|a: int, m: int| !member_slot(nl, a, m, id) by {
        if member_slot(nl, a, m, id) {
            let om = if a == i && m >= k { m + 1 } else { m };
            assert(member_slot(ls, a, om, id));
            assert(member_slot(ls, i, k, id));
        }
    }
}

impl ServerView {
    pub open spec fn registered(self, id: Seq<char>) -> bool {
        self.clients.contains(id)
    }

    /// The id has been registered at some time since the server started.
    pub open spec fn was_issued(self, id: Seq<char>) -> bool {
        self.issued.contains(id)
    }

    /// The invariant every operation keeps: the state is `valid` and no
    /// lobby is empty.
    pub open spec fn wf(self) -> bool {
        &&& self.valid()
        &&& forall|i: int| 0 <= i < self.lobbies.len() ==> 0 < #[trigger] self.lobbies[i].players.len()
    }

    /// Sessions are registered once and under an id issued by this server,
    /// each session has at most one telemetry address, lobby ids are distinct,
    /// no lobby holds more than two members, every member is a registered
    /// session still in its starting state, and no session holds two slots.
    /// A lobby may be empty for the moment between its last member's removal
    /// and its deletion.
    pub open spec fn valid(self) -> bool {
        &&& self.clients.no_duplicates()
        &&& forall|x: Seq<char>| #[trigger] self.clients.contains(x) ==> self.issued.contains(x)
        &&& forall|a: int, b: int|
            0 <= a < b < self.bindings.len() ==> self.bindings[a].0 != self.bindings[b].0
        &&& forall|i: int, j: int|
            0 <= i < j < self.lobbies.len() ==> self.lobbies[i].id != self.lobbies[j].id
        &&& forall|i: int|
            0 <= i < self.lobbies.len() ==> #[trigger] self.lobbies[i].players.len() <= LOBBY_CAPACITY
        &&& forall|i: int, k: int|
            0 <= i < self.lobbies.len() && 0 <= k < self.lobbies[i].players.len()
                ==> self.clients.contains(#[trigger] self.lobbies[i].players[k].id)
        &&& forall|i: int, k: int|
            0 <= i < self.lobbies.len() && 0 <= k < self.lobbies[i].players.len()
                ==> #[trigger] self.lobbies[i].players[k] == new_player(self.lobbies[i].players[k].id)
        &&& forall|i: int, k: int, j: int, m: int|
            member_slot(self.lobbies, i, k, self.lobbies[i].players[k].id) && member_slot(
                self.lobbies,
                j,
                m,
                self.lobbies[i].players[k].id,
            ) ==> i == j && k == m
    }
}

impl Server {
    pub open spec fn wf(&self) -> bool {
        self@.wf()
    }

    pub open spec fn valid(&self) -> bool {
        self@.valid()
    }

    /// A server with no sessions, lobbies or telemetry addresses.
    pub fn new() -> (r: Server)
        ensures
            r@.lobbies.len() == 0,
            r@.clients.len() == 0,
            r@.issued.len() == 0,
            r@.bindings.len() == 0,
            r.wf(),
    {
        Server {
            lobbies: Vec::new(),
            tcp_clients: Vec::new(),
            issued: Vec::new(),
            udp_client_addrs: Vec::new(),
        }
    }

    /// Whether the session is registered.
    pub fn is_registered(&self, client_id: &ClientId) -> (r: bool)
        ensures
            r == self@.registered(client_id@),
    {
        let mut i: usize = 0;
        while i < self.tcp_clients.len()
            invariant
                i <= self.tcp_clients@.len(),
                forall|j: int| 0 <= j < i ==> self@.clients[j] != client_id@,
            decreases self.tcp_clients@.len() - i,
        {
            if self.tcp_clients[i] == *client_id {
                assert(self@.clients[i as int] == client_id@);
                return true;
            }
            i = i + 1;
        }
        false
    }

    /// Whether the id has been registered at some time since the server
    /// started.
    pub fn was_issued(&self, client_id: &ClientId) -> (r: bool)
        ensures
            r == self@.was_issued(client_id@),
    {
        let mut i: usize = 0;
        while i < self.issued.len()
            invariant
                i <= self.issued@.len(),
                forall|j: int| 0 <= j < i ==> self@.issued[j] != client_id@,
            decreases self.issued@.len() - i,
        {
            if self.issued[i] == *client_id {
                assert(self@.issued[i as int] == client_id@);
                return true;
            }
            i = i + 1;
        }
        false
    }

    /// Enters a session with an open control channel into the registry;
    /// returns false, changing nothing, if the id has been registered before,
    /// now or earlier, so that no two sessions of the process share an id.
    pub fn register(&mut self, client_id: ClientId) -> (r: bool)
        requires
            old(self).wf(),
        ensures
            final(self).wf(),
            r == !old(self)@.was_issued(client_id@),
            final(self)@.lobbies == old(self)@.lobbies,
            final(self)@.bindings == old(self)@.bindings,
            final(self)@.clients == if r {
                old(self)@.clients.push(client_id@)
            } else {
                old(self)@.clients
            },
            final(self)@.issued == if r {
                old(self)@.issued.push(client_id@)
            } else {
                old(self)@.issued
            },
    {
        if self.was_issued(&client_id) {
            return false;
        }
        let kept = client_id.clone();
        self.tcp_clients.push(client_id);
        self.issued.push(kept);
        proof {
            let oc = old(self)@.clients;
            let oi = old(self)@.issued;
            let x0 = kept@;
            assert(self@.lobbies == old(self)@.lobbies);
            assert(self@.bindings == old(self)@.bindings);
            assert(self@.clients =~= oc.push(x0));
            assert(self@.issued =~= oi.push(x0));
            assert(!oc.contains(x0));
            assert forall|x: Seq<char>| #[trigger] self@.clients.contains(x) implies self@.issued.contains(x) by {
                let j = choose|j: int| 0 <= j < self@.clients.len() && self@.clients[j] == x;
                if j == oc.len() {
                    assert(self@.issued[oi.len() as int] == x);
                } else {
                    assert(oc[j] == x);
                    assert(oc.contains(x));
                    let m = choose|m: int| 0 <= m < oi.len() && oi[m] == x;
                    assert(self@.issued[m] == x);
                }
            }
            assert forall|x: Seq<char>| oc.contains(x) implies self@.clients.contains(x) by {
                let j = choose|j: int| 0 <= j < oc.len() && oc[j] == x;
                assert(self@.clients[j] == x);
            }
            assert forall|a: int, b: int|
                0 <= a < self@.clients.len() && 0 <= b < self@.clients.len() && a != b implies self@.clients[a]
                != self@.clients[b] by {
                if a == oc.len() {
                    assert(oc.contains(self@.clients[b]));
                } else if b == oc.len() {
                    assert(oc.contains(self@.clients[a]));
                }
            }
        }
        true
    }

    /// Registers a session under a freshly drawn id, and returns that id.
    /// The draw can only clash with an id issued before that has the drawn
    /// ids' length; on such a clash it returns `None` and changes nothing.
    pub fn connect(&mut self) -> (r: Option<ClientId>)
        requires
            old(self).wf(),
        ensures
            final(self).wf(),
            final(self)@.lobbies == old(self)@.lobbies,
            final(self)@.bindings == old(self)@.bindings,
            match r {
                Some(id) => {
                    &&& id@.len() == ID_TEXT_LEN
                    &&& !old(self)@.was_issued(id@)
                    &&& final(self)@.clients == old(self)@.clients.push(id@)
                    &&& final(self)@.issued == old(self)@.issued.push(id@)
                },
                None => {
                    &&& final(self)@ == old(self)@
                    &&& exists|x: Seq<char>| old(self)@.was_issued(x) && x.len() == ID_TEXT_LEN
                },
            },
            (forall|x: Seq<char>| old(self)@.was_issued(x) ==> x.len() != ID_TEXT_LEN) ==> r is Some,
    {
        let id = fresh_id();
        let kept = id.clone();
        if self.register(id) {
            Some(kept)
        } else {
            proof {
                assert(old(self)@.was_issued(kept@) && kept@.len() == ID_TEXT_LEN);
            }
            None
        }
    }

    /// Queues `event` for the session, or does nothing if the session is not
    /// registered.
    pub fn send(&self, client_id: &ClientId, event: ServerEvent, out: &mut Vec<Delivery>)
        ensures
            deliveries_view(final(out)@) == if self@.registered(client_id@) {
                deliveries_view(old(out)@).push(DeliveryView { to: client_id@, event: event@ })
            } else {
                deliveries_view(old(out)@)
            },
    {
        if self.is_registered(client_id) {
            out.push(Delivery { to: client_id.clone(), event });
            proof {
                assert(deliveries_view(out@) =~= deliveries_view(old(out)@).push(
                    DeliveryView { to: client_id@, event: event@ },
                ));
            }
        }
    }

    /// The index of the oldest lobby with room, if any lobby has room.
    pub fn first_open_lobby(&self) -> (r: Option<usize>)
        ensures
            match r {
                Some(i) => i == first_open(self@.lobbies) && i < self@.lobbies.len(),
                None => first_open(self@.lobbies) == self@.lobbies.len(),
            },
    {
        let mut i: usize = 0;
        while i < self.lobbies.len()
            invariant
                i <= self.lobbies@.len(),
                forall|j: int| 0 <= j < i ==> !has_room(#[trigger] self@.lobbies[j]),
            decreases self.lobbies@.len() - i,
        {
            if self.lobbies[i].players.len() < LOBBY_CAPACITY {
                proof {
                    lemma_first_open_at(self@.lobbies, i as int);
                }
                return Some(i);
            }
            i = i + 1;
        }
        proof {
            lemma_first_open_at(self@.lobbies, i as int);
        }
        None
    }

    /// Whether the lobby with this id has reached capacity.
    pub fn is_full(&self, lobby_id: &LobbyId) -> (r: bool)
        requires
            self.wf(),
        ensures
            r == exists|i: int|
                0 <= i < self@.lobbies.len() && self@.lobbies[i].id == lobby_id@
                    && self@.lobbies[i].players.len() >= LOBBY_CAPACITY,
    {
        match self.lobby_position(lobby_id) {
            Some(i) => self.lobbies[i].players.len() >= LOBBY_CAPACITY,
            None => false,
        }
    }

    /// Assigns the session to a lobby, opening one named `fresh` when every
    /// lobby is full, and returns the lobby's id. Nothing changes on an error:
    /// the session is unknown, already placed, or `fresh` is in use when it
    /// is needed.
    pub fn assign_with_fresh_id(&mut self, client_id: &ClientId, fresh: LobbyId) -> (r: Result<LobbyId, ServerError>)
        requires
            old(self).wf(),
        ensures
            final(self).wf(),
            final(self)@.clients == old(self)@.clients,
            final(self)@.issued == old(self)@.issued,
            final(self)@.bindings == old(self)@.bindings,
            match r {
                Ok(lid) => {
                    &&& final(self)@.lobbies == assigned(old(self)@.lobbies, client_id@, lid@)
                    &&& lid@ == if first_open(old(self)@.lobbies) < old(self)@.lobbies.len() {
                        old(self)@.lobbies[first_open(old(self)@.lobbies)].id
                    } else {
                        fresh@
                    }
                },
                Err(e) => final(self)@ == old(self)@,
            },
            r == Err::<LobbyId, ServerError>(ServerError::UnknownSession) <==> !old(self)@.registered(client_id@),
            r == Err::<LobbyId, ServerError>(ServerError::AlreadyInLobby) <==> old(self)@.registered(client_id@)
                && in_some_lobby(old(self)@.lobbies, client_id@),
            r == Err::<LobbyId, ServerError>(ServerError::LobbyIdTaken) <==> old(self)@.registered(client_id@)
                && !in_some_lobby(old(self)@.lobbies, client_id@)
                && first_open(old(self)@.lobbies) == old(self)@.lobbies.len()
                && holds_lobby_id(old(self)@.lobbies, fresh@),
            r is Err ==> r matches Err(ServerError::UnknownSession)
                || r matches Err(ServerError::AlreadyInLobby)
                || r matches Err(ServerError::LobbyIdTaken),
    {
        if !self.is_registered(client_id) {
            return Err(ServerError::UnknownSession);
        }
        if self.find_member(client_id).is_some() {
            return Err(ServerError::AlreadyInLobby);
        }
        let open = self.first_open_lobby();
        if open.is_none() && self.lobby_position(&fresh).is_some() {
            return Err(ServerError::LobbyIdTaken);
        }
        proof {
            lemma_assigned_wf(old(self)@, client_id@, fresh@);
        }
        match open {
            Some(i) => {
                let mut lobby = self.lobbies.remove(i);
                lobby.players.push(Player::joining(client_id));
                let lid = lobby.id.clone();
                self.lobbies.insert(i, lobby);
                proof {
                    assert(players_view(lobby.players@) =~= old(self)@.lobbies[i as int].players.push(new_player(client_id@)));
                    assert(self@.lobbies =~= assigned(old(self)@.lobbies, client_id@, lid@));
                    assert(self@.lobbies =~= assigned(old(self)@.lobbies, client_id@, fresh@));
                }
                Ok(lid)
            },
            None => {
                let mut players: Vec<Player> = Vec::new();
                players.push(Player::joining(client_id));
                let lid = fresh.clone();
                self.lobbies.push(Lobby { id: fresh, players });
                proof {
                    assert(players_view(players@) =~= seq![new_player(client_id@)]);
                    assert(self@.lobbies =~= assigned(old(self)@.lobbies, client_id@, lid@));
                }
                Ok(lid)
            },
        }
    }

    /// Assigns the session to the oldest lobby with room, or to a new lobby
    /// under a freshly drawn id, and returns the lobby's id. Nothing changes on
    /// an error: the session is unknown or already placed, or the drawn id is
    /// in use.
    pub fn assign_to_lobby(&mut self, client_id: &ClientId) -> (r: Result<LobbyId, ServerError>)
        requires
            old(self).wf(),
        ensures
            final(self).wf(),
            final(self)@.clients == old(self)@.clients,
            final(self)@.issued == old(self)@.issued,
            final(self)@.bindings == old(self)@.bindings,
            match r {
                Ok(lid) => {
                    &&& final(self)@.lobbies == assigned(old(self)@.lobbies, client_id@, lid@)
                    &&& first_open(old(self)@.lobbies) < old(self)@.lobbies.len() ==> lid@
                        == old(self)@.lobbies[first_open(old(self)@.lobbies)].id
                    &&& first_open(old(self)@.lobbies) == old(self)@.lobbies.len()
                        ==> !holds_lobby_id(old(self)@.lobbies, lid@)
                },
                Err(e) => final(self)@ == old(self)@,
            },
            r == Err::<LobbyId, ServerError>(ServerError::UnknownSession) <==> !old(self)@.registered(client_id@),
            r == Err::<LobbyId, ServerError>(ServerError::AlreadyInLobby) <==> old(self)@.registered(client_id@)
                && in_some_lobby(old(self)@.lobbies, client_id@),
            r == Err::<LobbyId, ServerError>(ServerError::LobbyIdTaken) ==> old(self)@.registered(client_id@)
                && !in_some_lobby(old(self)@.lobbies, client_id@)
                && first_open(old(self)@.lobbies) == old(self)@.lobbies.len()
                && !no_drawn_length_id(old(self)@.lobbies),
            r is Err ==> r == Err::<LobbyId, ServerError>(ServerError::UnknownSession)
                || r == Err::<LobbyId, ServerError>(ServerError::AlreadyInLobby)
                || r == Err::<LobbyId, ServerError>(ServerError::LobbyIdTaken),
            old(self)@.registered(client_id@) && !in_some_lobby(old(self)@.lobbies, client_id@)
                && (first_open(old(self)@.lobbies) < old(self)@.lobbies.len()
                || no_drawn_length_id(old(self)@.lobbies)) ==> r is Ok,
    {
        let fresh = if self.first_open_lobby().is_some() {
            String::new()
        } else {
            fresh_id()
        };
        let ghost drawn = fresh@;
        let r = self.assign_with_fresh_id(client_id, fresh);
        proof {
            if r == Err::<LobbyId, ServerError>(ServerError::LobbyIdTaken) {
                let j = choose|j: int| 0 <= j < old(self)@.lobbies.len() && old(self)@.lobbies[j].id == drawn;
                assert(old(self)@.lobbies[j].id.len() == ID_TEXT_LEN);
            }
        }
        r
    }

    /// Handles a session's request to join a game. The session gets an
    /// `Accept` right away; then, if its lobby is still short of capacity, a
    /// `Wait`, and otherwise, after the grace delay, every member of the lobby
    /// gets a `Start` listing all members.
    pub fn join(&mut self, client_id: &ClientId) -> (r: Result<JoinPlan, ServerError>)
        requires
            old(self).wf(),
        ensures
            final(self).wf(),
            final(self)@.clients == old(self)@.clients,
            final(self)@.issued == old(self)@.issued,
            final(self)@.bindings == old(self)@.bindings,
            joined(old(self)@, final(self)@, client_id@, r),
    {
        let idx = match self.first_open_lobby() {
            Some(i) => i,
            None => self.lobbies.len(),
        };
        let lobby_id = match self.assign_to_lobby(client_id) {
            Ok(lid) => lid,
            Err(e) => {
                return Err(e);
            },
        };
        proof {
            lemma_first_open(old(self)@.lobbies);
            assert(self@.lobbies[idx as int].id == lobby_id@);
            assert(self@.lobbies[idx as int].players.last() == new_player(client_id@));
            assert(member_slot(self@.lobbies, idx as int, self@.lobbies[idx as int].players.len() - 1, client_id@));
        }
        let mut immediate: Vec<Delivery> = Vec::new();
        let accept = ServerEvent::Accept(AcceptEvent { lobby_id: lobby_id.clone(), client_id: client_id.clone() });
        self.send(client_id, accept, &mut immediate);
        let mut after_grace: Vec<Delivery> = Vec::new();
        if self.is_full(&lobby_id) {
            let players = copy_players(&self.lobbies[idx].players);
            let ghost l = self@.lobbies[idx as int];
            let mut k: usize = 0;
            while k < players.len()
                invariant
                    self.wf(),
                    idx < self@.lobbies.len(),
                    l == self@.lobbies[idx as int],
                    l.id == lobby_id@,
                    players_view(players@) == l.players,
                    k <= players@.len(),
                    deliveries_view(after_grace@) == l.players.subrange(0, k as int).map_values(
                        |p: PlayerView| start_notice(l, p),
                    ),
                decreases players@.len() - k,
            {
                let roster = copy_players(&players);
                let to = &players[k].id;
                let start = ServerEvent::Start(StartEvent { lobby_id: lobby_id.clone(), client_id: to.clone(), players: roster });
                proof {
                    assert(l.players[k as int].id == to@);
                    assert(member_slot(self@.lobbies, idx as int, k as int, to@));
                }
                self.send(to, start, &mut after_grace);
                proof {
                    assert(l.players.subrange(0, k + 1) =~= l.players.subrange(0, k as int).push(l.players[k as int]));
                    assert(deliveries_view(after_grace@) =~= l.players.subrange(0, k + 1).map_values(
                        |p: PlayerView| start_notice(l, p),
                    ));
                }
                k = k + 1;
            }
            proof {
                assert(l.players.subrange(0, k as int) =~= l.players);
            }
        } else {
            self.send(client_id, ServerEvent::Wait, &mut immediate);
        }
        proof {
            let l = self@.lobbies[idx as int];
            let accept = DeliveryView {
                to: client_id@,
                event: ServerEventView::Accept { lobby_id: lobby_id@, client_id: client_id@ },
            };
            assert(idx == first_open(old(self)@.lobbies));
            if l.players.len() < LOBBY_CAPACITY {
                assert(deliveries_view(immediate@) =~= seq![
                    accept,
                    DeliveryView { to: client_id@, event: ServerEventView::Wait },
                ]);
                assert(deliveries_view(after_grace@) =~= Seq::<DeliveryView>::empty());
            } else {
                assert(deliveries_view(immediate@) =~= seq![accept]);
            }
        }
        Ok(JoinPlan { lobby_id, immediate, after_grace })
    }

    /// Sends `event` to every registered member of the lobby with this id;
    /// does nothing if there is no such lobby.
    pub fn broadcast(&self, lobby_id: &LobbyId, event: &ServerEvent, out: &mut Vec<Delivery>)
        requires
            self.wf(),
        ensures
            !holds_lobby_id(self@.lobbies, lobby_id@) ==> final(out)@ == old(out)@,
            forall|i: int|
                0 <= i < self@.lobbies.len() && self@.lobbies[i].id == lobby_id@
                    ==> deliveries_view(final(out)@) == deliveries_view(old(out)@)
                    + self@.lobbies[i].players.map_values(
                    |p: PlayerView| DeliveryView { to: p.id, event: event@ },
                ),
    {
        let i = match self.lobby_position(lobby_id) {
            Some(i) => i,
            None => {
                return;
            },
        };
        let players = &self.lobbies[i].players;
        let ghost ps = self@.lobbies[i as int].players;
        let ghost start = deliveries_view(out@);
        let mut k: usize = 0;
        while k < players.len()
            invariant
                self.wf(),
                i < self@.lobbies.len(),
                players == &self.lobbies@[i as int].players,
                ps == self@.lobbies[i as int].players,
                k <= players@.len(),
                deliveries_view(out@) == start + ps.subrange(0, k as int).map_values(
                    |p: PlayerView| DeliveryView { to: p.id, event: event@ },
                ),
            decreases players@.len() - k,
        {
            proof {
                assert(ps[k as int].id == players@[k as int].id@);
                assert(self@.lobbies[i as int].players[k as int].id == ps[k as int].id);
            }
            self.send(&players[k].id, event.duplicate(), out);
            proof {
                assert(ps.subrange(0, k + 1) =~= ps.subrange(0, k as int).push(ps[k as int]));
                assert(deliveries_view(out@) =~= start + ps.subrange(0, k + 1).map_values(
                    |p: PlayerView| DeliveryView { to: p.id, event: event@ },
                ));
            }
            k = k + 1;
        }
        proof {
            assert(ps.subrange(0, k as int) =~= ps);
            assert forall|j: int| 0 <= j < self@.lobbies.len() && self@.lobbies[j].id == lobby_id@ implies j == i by {
                if j != i {
                    if j < i {
                        assert(self@.lobbies[j].id != self@.lobbies[i as int].id);
                    } else {
                        assert(self@.lobbies[i as int].id != self@.lobbies[j].id);
                    }
                }
            }
        }
    }

    /// Takes the session out of its lobby and returns the lobby's id; `None`,
    /// changing nothing, if the session is in no lobby. The lobby keeps its id
    /// and the order of its other members, even if it is left empty: deleting
    /// an empty lobby is up to the caller.
    pub fn remove_from_lobby(&mut self, client_id: &ClientId) -> (r: Option<LobbyId>)
        requires
            old(self).wf(),
        ensures
            final(self).valid(),
            final(self)@.clients == old(self)@.clients,
            final(self)@.issued == old(self)@.issued,
            final(self)@.bindings == old(self)@.bindings,
            !in_some_lobby(final(self)@.lobbies, client_id@),
            r is Some <==> in_some_lobby(old(self)@.lobbies, client_id@),
            r is None ==> final(self)@ == old(self)@,
            forall|i: int|
                0 <= i < final(self)@.lobbies.len() && !(#[trigger] final(self)@.lobbies[i].players.len() > 0)
                    ==> in_some_lobby(old(self)@.lobbies, client_id@) && old(self)@.lobbies[i].players.len() == 1
                    && old(self)@.lobbies[i].players[0].id == client_id@,
            forall|i: int, k: int|
                #[trigger] member_slot(old(self)@.lobbies, i, k, client_id@) ==> r is Some && r->Some_0@
                    == old(self)@.lobbies[i].id && final(self)@.lobbies == departed(
                    old(self)@.lobbies,
                    i,
                    k,
                ),
    {
        let (i, k) = match self.find_member(client_id) {
            Some(slot) => slot,
            None => {
                return None;
            },
        };
        proof {
            lemma_departed_valid(old(self)@, i as int, k as int);
        }
        let mut lobby = self.lobbies.remove(i);
        let lid = lobby.id.clone();
        lobby.players.remove(k);
        self.lobbies.insert(i, lobby);
        proof {
            assert(players_view(lobby.players@) =~= old(self)@.lobbies[i as int].players.remove(k as int));
            assert(self@.lobbies =~= departed(old(self)@.lobbies, i as int, k as int));
            assert forall|a: int, m: int| member_slot(old(self)@.lobbies, a, m, client_id@) implies a == i && m == k by {
                assert(member_slot(old(self)@.lobbies, i as int, k as int, old(self)@.lobbies[i as int].players[k as int].id));
            }
            assert forall|a: int| 0 <= a < self@.lobbies.len() && !(#[trigger] self@.lobbies[a].players.len() > 0)
                implies old(self)@.lobbies[a].players.len() == 1 && old(self)@.lobbies[a].players[0].id == client_id@ by {
                if a != i {
                    assert(self@.lobbies[a] == old(self)@.lobbies[a]);
                }
            }
        }
        Some(lid)
    }

    /// Takes the session out of the registry. It must be in no lobby.
    fn unregister(&mut self, client_id: &ClientId)
        requires
            old(self).wf(),
            !in_some_lobby(old(self)@.lobbies, client_id@),
        ensures
            final(self).wf(),
            final(self)@.lobbies == old(self)@.lobbies,
            final(self)@.bindings == old(self)@.bindings,
            final(self)@.issued == old(self)@.issued,
            forall|x: Seq<char>| #[trigger] final(self)@.registered(x) <==> old(self)@.registered(x) && x != client_id@,
    {
        let mut j: usize = 0;
        while j < self.tcp_clients.len()
            invariant
                j <= self.tcp_clients@.len(),
                self@ == old(self)@,
                old(self).wf(),
                !in_some_lobby(old(self)@.lobbies, client_id@),
                forall|a: int| 0 <= a < j ==> self@.clients[a] != client_id@,
            decreases self.tcp_clients@.len() - j,
        {
            if self.tcp_clients[j] == *client_id {
                self.tcp_clients.remove(j);
                proof {
                    let oc = old(self)@.clients;
                    let nc = self@.clients;
                    assert(nc =~= oc.remove(j as int));
                    assert(self@.lobbies == old(self)@.lobbies);
                    assert(self@.bindings == old(self)@.bindings);
                    assert(self@.issued == old(self)@.issued);
                    assert(oc.no_duplicates());
                    assert(oc[j as int] == client_id@);
                    assert forall|x: Seq<char>| oc.contains(x) && x != client_id@ implies nc.contains(x) by {
                        let a = choose|a: int| 0 <= a < oc.len() && oc[a] == x;
                        if a < j {
                            assert(nc[a] == x);
                        } else {
                            assert(a != j);
                            assert(nc[a - 1] == x);
                        }
                    }
                    assert forall|x: Seq<char>| nc.contains(x) implies oc.contains(x) && x != client_id@ by {
                        let a = choose|a: int| 0 <= a < nc.len() && nc[a] == x;
                        if a < j {
                            assert(oc[a] == x);
                            assert(a != j);
                        } else {
                            assert(oc[a + 1] == x);
                            assert(a + 1 != j);
                        }
                    }
                    assert forall|x: Seq<char>| #[trigger] nc.contains(x) implies self@.issued.contains(x) by {
                        assert(oc.contains(x));
                    }
                    assert forall|a: int, b: int|
                        0 <= a < nc.len() && 0 <= b < nc.len() && a != b implies nc[a] != nc[b] by {
                        let oa = if a < j { a } else { a + 1 };
                        let ob = if b < j { b } else { b + 1 };
                        assert(nc[a] == oc[oa] && nc[b] == oc[ob]);
                        assert(oa != ob);
                    }
                    assert forall|a: int, m: int|
                        0 <= a < self@.lobbies.len() && 0 <= m < self@.lobbies[a].players.len()
                        implies nc.contains(#[trigger] self@.lobbies[a].players[m].id) by {
                        assert(!member_slot(old(self)@.lobbies, a, m, client_id@));
                        assert(oc.contains(self@.lobbies[a].players[m].id));
                    }
                }
                return;
            }
            j = j + 1;
        }
        proof {
            assert forall|x: Seq<char>| self@.registered(x) implies x != client_id@ by {
                let a = choose|a: int| 0 <= a < self@.clients.len() && self@.clients[a] == x;
            }
        }
    }

    /// Tears down a session whose control channel has closed: it leaves the
    /// registry and its lobby, and the members who remain are each told that
    /// it left. A lobby it leaves empty is deleted without any message.
    /// The session's telemetry address is kept.
    pub fn disconnect(&mut self, client_id: &ClientId) -> (out: Vec<Delivery>)
        requires
            old(self).wf(),
        ensures
            final(self).wf(),
            final(self)@.bindings == old(self)@.bindings,
            final(self)@.issued == old(self)@.issued,
            forall|x: Seq<char>| #[trigger] final(self)@.registered(x) <==> old(self)@.registered(x) && x != client_id@,
            !in_some_lobby(old(self)@.lobbies, client_id@) ==> final(self)@.lobbies == old(self)@.lobbies
                && out@.len() == 0,
            forall|i: int, k: int|
                #[trigger] member_slot(old(self)@.lobbies, i, k, client_id@) ==> {
                    &&& final(self)@.lobbies == vacated(old(self)@.lobbies, i, k)
                    &&& deliveries_view(out@) == old(self)@.lobbies[i].players.remove(k).map_values(
                        |p: PlayerView| leave_notice(p.id, client_id@),
                    )
                },
            forall|i: int, k: int|
                #[trigger] member_slot(old(self)@.lobbies, i, k, client_id@) && old(self)@.lobbies[i].players.len() == 1
                    ==> final(self)@.lobbies == old(self)@.lobbies.remove(i) && out@.len() == 0,
            forall|i: int, k: int|
                #[trigger] member_slot(old(self)@.lobbies, i, k, client_id@) && old(self)@.lobbies[i].players.len() == 2
                    ==> out@.len() == 1 && out@[0]@ == leave_notice(
                    old(self)@.lobbies[i].players[1 - k].id,
                    client_id@,
                ),
    {
        let removed = self.remove_from_lobby(client_id);
        let ghost mid = self@.lobbies;
        let ghost mut found: Option<int> = None;
        if let Some(lid) = &removed {
            match self.lobby_position(lid) {
                Some(j) => {
                    proof {
                        found = Some(j as int);
                    }
                    if self.lobbies[j].players.len() == 0 {
                        self.lobbies.remove(j);
                        proof {
                            assert(self@.lobbies =~= mid.remove(j as int));
                        }
                    }
                },
                None => {},
            }
        }
        proof {
            let ol = old(self)@.lobbies;
            if in_some_lobby(ol, client_id@) {
                let (i, k) = choose|i: int, k: int| member_slot(ol, i, k, client_id@);
                assert(member_slot(ol, i, k, client_id@));
                lemma_vacated_wf(old(self)@, i, k);
                lemma_departed_valid(old(self)@, i, k);
                assert(mid == departed(ol, i, k));
                assert(mid[i].id == removed->Some_0@);
                assert(found is Some);
                let j = found->Some_0;
                if j != i {
                    if j < i {
                        assert(mid[j].id != mid[i].id);
                    } else {
                        assert(mid[i].id != mid[j].id);
                    }
                }
                if ol[i].players.len() == 1 {
                    assert(self@.lobbies =~= ol.remove(i));
                } else {
                    assert(mid[i].players.len() > 0);
                }
                assert(self@.lobbies =~= vacated(ol, i, k));
            }
        }
        self.unregister(client_id);
        let mut out: Vec<Delivery> = Vec::new();
        if let Some(lid) = removed {
            let leave = ServerEvent::Leave(LeaveEvent { client_id: client_id.clone() });
            self.broadcast(&lid, &leave, &mut out);
            proof {
                let ol = old(self)@.lobbies;
                assert(in_some_lobby(ol, client_id@));
                let (i, k) = choose|i: int, k: int| member_slot(ol, i, k, client_id@);
                assert(member_slot(ol, i, k, client_id@));
                assert(lid@ == ol[i].id);
                assert(self@.lobbies == vacated(ol, i, k));
                if ol[i].players.len() == 1 {
                    assert forall|a: int| 0 <= a < self@.lobbies.len() implies self@.lobbies[a].id != lid@ by {
                        let oa = if a >= i { a + 1 } else { a };
                        assert(self@.lobbies[a] == ol[oa]);
                        assert(oa != i);
                    }
                    assert(out@ =~= Seq::<Delivery>::empty());
                } else {
                    assert(self@.lobbies[i].id == lid@);
                    assert(deliveries_view(out@) =~= ol[i].players.remove(k).map_values(
                        |p: PlayerView| leave_notice(p.id, client_id@),
                    ));
                }
            }
        }
        proof {
            assert forall|i: int, k: int|
                member_slot(old(self)@.lobbies, i, k, client_id@) && old(self)@.lobbies[i].players.len() == 2
                implies out@.len() == 1 && out@[0]@ == leave_notice(old(self)@.lobbies[i].players[1 - k].id, client_id@) by {
                let rest = old(self)@.lobbies[i].players.remove(k);
                assert(rest[0] == old(self)@.lobbies[i].players[1 - k]);
                assert(deliveries_view(out@)[0] == out@[0]@);
            }
        }
        out
    }

    /// The telemetry address last announced for the session, if any.
    pub fn telemetry_addr(&self, client_id: &ClientId) -> (r: Option<PeerAddr>)
        ensures
            r == bound_addr(self@.bindings, client_id@),
    {
        let bs = &self.udp_client_addrs;
        let mut j: usize = bs.len();
        proof {
            assert(self@.bindings.subrange(0, j as int) =~= self@.bindings);
        }
        while j > 0
            invariant
                j <= bs@.len(),
                bs == &self.udp_client_addrs,
                bound_addr(self@.bindings, client_id@) == bound_addr(self@.bindings.subrange(0, j as int), client_id@),
            decreases j,
        {
            let ghost prefix = self@.bindings.subrange(0, j as int);
            proof {
                assert(prefix.drop_last() =~= self@.bindings.subrange(0, j - 1));
            }
            if bs[j - 1].client_id == *client_id {
                return Some(bs[j - 1].addr);
            }
            j = j - 1;
        }
        None
    }

    /// Records that the session's telemetry arrives from `addr`, replacing
    /// any address announced before.
    pub fn bind_telemetry(&mut self, client_id: ClientId, addr: PeerAddr)
        requires
            old(self).wf(),
        ensures
            final(self).wf(),
            final(self)@.lobbies == old(self)@.lobbies,
            final(self)@.clients == old(self)@.clients,
            final(self)@.issued == old(self)@.issued,
            forall|x: Seq<char>|
                #[trigger] bound_addr(final(self)@.bindings, x) == if x == client_id@ {
                    Some(addr)
                } else {
                    bound_addr(old(self)@.bindings, x)
                },
    {
        let mut j: usize = self.udp_client_addrs.len();
        while j > 0
            invariant
                j <= self@.bindings.len(),
                self@ == old(self)@,
                old(self).wf(),
                forall|m: int| j <= m < self@.bindings.len() ==> self@.bindings[m].0 != client_id@,
            decreases j,
        {
            if self.udp_client_addrs[j - 1].client_id == client_id {
                let ghost k = client_id@;
                self.udp_client_addrs.remove(j - 1);
                self.udp_client_addrs.insert(j - 1, Binding { client_id, addr });
                proof {
                    assert(self@.bindings =~= old(self)@.bindings.update(j - 1, (k, addr)));
                    assert forall|a: int, b: int| 0 <= a < b < self@.bindings.len() implies self@.bindings[a].0
                        != self@.bindings[b].0 by {
                        assert(self@.bindings[a].0 == old(self)@.bindings[a].0);
                        assert(self@.bindings[b].0 == old(self)@.bindings[b].0);
                    }
                    assert(self@.lobbies == old(self)@.lobbies);
                    assert(self@.clients == old(self)@.clients);
                    assert forall|x: Seq<char>| #[trigger] bound_addr(self@.bindings, x) == if x == k {
                        Some(addr)
                    } else {
                        bound_addr(old(self)@.bindings, x)
                    } by {
                        lemma_rebind(old(self)@.bindings, j - 1, k, addr, x);
                    }
                }
                return;
            }
            j = j - 1;
        }
        let ghost k = client_id@;
        self.udp_client_addrs.push(Binding { client_id, addr });
        proof {
            assert(self@.bindings =~= old(self)@.bindings.push((k, addr)));
            assert(self@.bindings.drop_last() =~= old(self)@.bindings);
            assert(self@.lobbies == old(self)@.lobbies);
            assert(self@.clients == old(self)@.clients);
        }
    }

    /// Queues the position report for every member of the lobby with this id
    /// other than `client_id` whose telemetry address is known.
    pub fn broadcast_udp(&self, lobby_id: &LobbyId, client_id: &ClientId, update: &PosUpdateEvent, out: &mut Vec<Datagram>)
        requires
            self.wf(),
        ensures
            !holds_lobby_id(self@.lobbies, lobby_id@) ==> final(out)@ == old(out)@,
            forall|i: int|
                0 <= i < self@.lobbies.len() && #[trigger] self@.lobbies[i].id == lobby_id@
                    ==> datagrams_view(final(out)@) == datagrams_view(old(out)@) + relay_targets(
                    self@.lobbies[i].players,
                    client_id@,
                    self@.bindings,
                    update@,
                ),
    {
        let i = match self.lobby_position(lobby_id) {
            Some(i) => i,
            None => {
                return;
            },
        };
        let players = &self.lobbies[i].players;
        let ghost ps = self@.lobbies[i as int].players;
        let ghost start = datagrams_view(out@);
        let mut k: usize = 0;
        while k < players.len()
            invariant
                self.wf(),
                i < self@.lobbies.len(),
                players == &self.lobbies@[i as int].players,
                ps == self@.lobbies[i as int].players,
                k <= players@.len(),
                datagrams_view(out@) == start + relay_targets(
                    ps.subrange(0, k as int),
                    client_id@,
                    self@.bindings,
                    update@,
                ),
            decreases players@.len() - k,
        {
            let ghost before = datagrams_view(out@);
            proof {
                assert(ps.subrange(0, k + 1).drop_last() =~= ps.subrange(0, k as int));
                assert(ps[k as int].id == players@[k as int].id@);
            }
            if players[k].id != *client_id {
                match self.telemetry_addr(&players[k].id) {
                    Some(addr) => {
                        out.push(Datagram { to: addr, update: update.duplicate() });
                        proof {
                            assert(datagrams_view(out@) =~= before.push(DatagramView { to: addr, update: update@ }));
                        }
                    },
                    None => {},
                }
            }
            proof {
                assert(datagrams_view(out@) =~= start + relay_targets(
                    ps.subrange(0, k + 1),
                    client_id@,
                    self@.bindings,
                    update@,
                ));
            }
            k = k + 1;
        }
        proof {
            assert(ps.subrange(0, k as int) =~= ps);
            assert forall|j: int| 0 <= j < self@.lobbies.len() && self@.lobbies[j].id == lobby_id@ implies j == i by {
                if j != i {
                    if j < i {
                        assert(self@.lobbies[j].id != self@.lobbies[i as int].id);
                    } else {
                        assert(self@.lobbies[i as int].id != self@.lobbies[j].id);
                    }
                }
            }
        }
    }

    /// The datagrams that relay a position report to the sender's lobby:
    /// one for each other member whose telemetry address is known, none at
    /// all if the sender is in no lobby.
    pub fn relay_position(&self, update: &PosUpdateEvent) -> (out: Vec<Datagram>)
        requires
            self.wf(),
        ensures
            !in_some_lobby(self@.lobbies, update.client_id@) ==> out@.len() == 0,
            forall|i: int, k: int|
                #[trigger] member_slot(self@.lobbies, i, k, update.client_id@) ==> datagrams_view(out@)
                    == relay_targets(self@.lobbies[i].players, update.client_id@, self@.bindings, update@),
    {
        let mut out: Vec<Datagram> = Vec::new();
        match self.find_member(&update.client_id) {
            Some((i, k)) => {
                self.broadcast_udp(&self.lobbies[i].id, &update.client_id, update, &mut out);
                proof {
                    assert(self@.lobbies[i as int].id == self.lobbies@[i as int].id@);
                    assert(datagrams_view(out@) =~= relay_targets(
                        self@.lobbies[i as int].players,
                        update.client_id@,
                        self@.bindings,
                        update@,
                    ));
                    assert forall|a: int, m: int| member_slot(self@.lobbies, a, m, update.client_id@) implies a == i by {
                        assert(member_slot(self@.lobbies, i as int, k as int, self@.lobbies[i as int].players[k as int].id));
                    }
                }
            },
            None => {},
        }
        out
    }

    /// Acts on a message read from the session's control channel: a `Join`
    /// is handled as `join` does; any other message changes nothing and is
    /// refused as unexpected.
    pub fn handle_control(&mut self, client_id: &ClientId, event: ClientEvent) -> (r: Result<JoinPlan, ServerError>)
        requires
            old(self).wf(),
        ensures
            final(self).wf(),
            event is Join ==> joined(old(self)@, final(self)@, client_id@, r),
            !(event is Join) ==> (r matches Err(ServerError::UnexpectedEvent)) && final(self)@ == old(self)@,
    {
        match event {
            ClientEvent::Join => self.join(client_id),
            _ => Err(ServerError::UnexpectedEvent),
        }
    }

    /// The index of the lobby with this id.
    pub fn lobby_position(&self, lobby_id: &LobbyId) -> (r: Option<usize>)
        ensures
            match r {
                Some(i) => i < self@.lobbies.len() && self@.lobbies[i as int].id == lobby_id@,
                None => !holds_lobby_id(self@.lobbies, lobby_id@),
            },
    {
        let mut i: usize = 0;
        while i < self.lobbies.len()
            invariant
                i <= self.lobbies@.len(),
                forall|j: int| 0 <= j < i ==> self@.lobbies[j].id != lobby_id@,
            decreases self.lobbies@.len() - i,
        {
            if self.lobbies[i].id == *lobby_id {
                return Some(i);
            }
            i = i + 1;
        }
        None
    }

    /// The lobby and slot that hold the session, if any.
    pub fn find_member(&self, client_id: &ClientId) -> (r: Option<(usize, usize)>)
        ensures
            match r {
                Some((i, k)) => member_slot(self@.lobbies, i as int, k as int, client_id@),
                None => !in_some_lobby(self@.lobbies, client_id@),
            },
    {
        let mut i: usize = 0;
        while i < self.lobbies.len()
            invariant
                i <= self.lobbies@.len(),
                forall|a: int, k: int| 0 <= a < i ==> !member_slot(self@.lobbies, a, k, client_id@),
            decreases self.lobbies@.len() - i,
        {
            let players = &self.lobbies[i].players;
            let mut k: usize = 0;
            while k < players.len()
                invariant
                    i < self.lobbies@.len(),
                    players == &self.lobbies@[i as int].players,
                    k <= players@.len(),
                    forall|a: int, m: int| 0 <= a < i ==> !member_slot(self@.lobbies, a, m, client_id@),
                    forall|m: int| 0 <= m < k ==> !member_slot(self@.lobbies, i as int, m, client_id@),
                decreases players@.len() - k,
            {
                if players[k].id == *client_id {
                    return Some((i, k));
                }
                k = k + 1;
            }
            i = i + 1;
        }
        None
    }
}

} // verus!
