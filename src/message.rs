//! The messages exchanged with game clients, and their mathematical views.
//!
//! Coordinates travel on the wire as 32-bit floats; the library never does
//! arithmetic on them, so it carries each one as its IEEE-754 bit pattern.
use vstd::prelude::*;

verus! {

pub type LobbyId = String;

pub type ClientId = String;

/// Turns a message into the text line that goes on the wire.
pub trait IntoResponse {
    fn into_response(self) -> String;
}

/// A point in the game world, each coordinate as the bits of an `f32`.
#[derive(Clone, Copy, Debug, PartialEq, Eq, Structural)]
pub struct Position {
    pub x_bits: u32,
    pub y_bits: u32,
}

/// The bits of the `f32` value zero.
pub const ZERO_BITS: u32 = 0;

/// The position every player starts at.
pub open spec fn origin() -> Position {
    Position { x_bits: ZERO_BITS, y_bits: ZERO_BITS }
}

/// A lobby member as reported to clients.
#[derive(Clone, Debug, PartialEq)]
pub struct Player {
    pub id: ClientId,
    /// Number of times the player has been 'it'
    pub it_count: usize,
    pub position: Position,
}

pub struct PlayerView {
    pub id: Seq<char>,
    pub it_count: usize,
    pub position: Position,
}

impl View for Player {
    type V = PlayerView;

    open spec fn view(&self) -> PlayerView {
        PlayerView { id: self.id@, it_count: self.it_count, position: self.position }
    }
}

/// The state a session has when it joins a lobby.
pub open spec fn new_player(id: Seq<char>) -> PlayerView {
    PlayerView { id, it_count: 0, position: origin() }
}

pub open spec fn players_view(ps: Seq<Player>) -> Seq<PlayerView> {
    ps.map_values(|p: Player| p@)
}

impl Player {
    /// A member that has just joined: never 'it' yet, at the origin.
    pub fn joining(id: &ClientId) -> (r: Player)
        ensures
            r@ == new_player(id@),
    {
        Player { id: id.clone(), it_count: 0, position: Position { x_bits: ZERO_BITS, y_bits: ZERO_BITS } }
    }

    /// An equal copy of this member.
    pub fn duplicate(&self) -> (r: Player)
        ensures
            r@ == self@,
    {
        Player { id: self.id.clone(), it_count: self.it_count, position: self.position }
    }
}

/// An equal copy of a member list.
pub fn copy_players(ps: &Vec<Player>) -> (r: Vec<Player>)
    ensures
        players_view(r@) == players_view(ps@),
{
    let mut r: Vec<Player> = Vec::new();
    let mut i: usize = 0;
    while i < ps.len()
        invariant
            i <= ps@.len(),
            r@.len() == i,
            forall|j: int| 0 <= j < i ==> #[trigger] r@[j]@ == ps@[j]@,
        decreases ps@.len() - i,
    {
        let p = ps[i].duplicate();
        r.push(p);
        i = i + 1;
    }
    proof {
        assert(players_view(r@) =~= players_view(ps@));
    }
    r
}

/// Messages a client sends: on the control channel `Join`, on the telemetry
/// channel `UdpUpgrade` and `PosUpdate`.
#[derive(Clone, Debug, PartialEq)]
pub enum ClientEvent {
    Join,
    UdpUpgrade(UdpUpgradeEvent),
    PosUpdate(PosUpdateEvent),
}

/// Announces that the sending telemetry address belongs to a session.
#[derive(Clone, Debug, PartialEq)]
pub struct UdpUpgradeEvent {
    pub client_id: ClientId,
}

/// Where a session's player is now.
#[derive(Clone, Debug, PartialEq)]
pub struct PosUpdateEvent {
    pub client_id: ClientId,
    pub x_bits: u32,
    pub y_bits: u32,
}

pub struct PosUpdateView {
    pub client_id: Seq<char>,
    pub x_bits: u32,
    pub y_bits: u32,
}

impl View for PosUpdateEvent {
    type V = PosUpdateView;

    open spec fn view(&self) -> PosUpdateView {
        PosUpdateView { client_id: self.client_id@, x_bits: self.x_bits, y_bits: self.y_bits }
    }
}

impl PosUpdateEvent {
    /// An equal copy of this report.
    pub fn duplicate(&self) -> (r: PosUpdateEvent)
        ensures
            r@ == self@,
    {
        PosUpdateEvent { client_id: self.client_id.clone(), x_bits: self.x_bits, y_bits: self.y_bits }
    }
}

/// Messages the server sends to a client.
#[derive(Clone, Debug, PartialEq)]
pub enum ServerEvent {
    Start(StartEvent),
    Wait,
    Accept(AcceptEvent),
    Leave(LeaveEvent),
    PosUpdate(PosUpdateEvent),
}

/// The join request was taken: the session is now in this lobby.
#[derive(Clone, Debug, PartialEq)]
pub struct AcceptEvent {
    pub lobby_id: LobbyId,
    pub client_id: ClientId,
}

/// The lobby is full and the game begins; `client_id` is the recipient.
#[derive(Clone, Debug, PartialEq)]
pub struct StartEvent {
    pub lobby_id: LobbyId,
    pub client_id: ClientId,
    pub players: Vec<Player>,
}

/// A member has left the recipient's lobby.
#[derive(Clone, Debug, PartialEq)]
pub struct LeaveEvent {
    pub client_id: ClientId,
}

/// Tells a freshly connected client its session id.
#[derive(Clone, Debug, PartialEq)]
pub struct ClientInitEvent {
    pub client_id: ClientId,
}

impl ServerEvent {
    /// An equal copy of this message.
    pub fn duplicate(&self) -> (r: ServerEvent)
        ensures
            r@ == self@,
    {
        match self {
            ServerEvent::Start(e) => ServerEvent::Start(
                StartEvent {
                    lobby_id: e.lobby_id.clone(),
                    client_id: e.client_id.clone(),
                    players: copy_players(&e.players),
                },
            ),
            ServerEvent::Wait => ServerEvent::Wait,
            ServerEvent::Accept(e) => ServerEvent::Accept(
                AcceptEvent { lobby_id: e.lobby_id.clone(), client_id: e.client_id.clone() },
            ),
            ServerEvent::Leave(e) => ServerEvent::Leave(LeaveEvent { client_id: e.client_id.clone() }),
            ServerEvent::PosUpdate(e) => ServerEvent::PosUpdate(e.duplicate()),
        }
    }
}

pub enum ServerEventView {
    Start { lobby_id: Seq<char>, client_id: Seq<char>, players: Seq<PlayerView> },
    Wait,
    Accept { lobby_id: Seq<char>, client_id: Seq<char> },
    Leave { client_id: Seq<char> },
    PosUpdate(PosUpdateView),
}

impl View for ServerEvent {
    type V = ServerEventView;

    open spec fn view(&self) -> ServerEventView {
        match self {
            ServerEvent::Start(e) => ServerEventView::Start {
                lobby_id: e.lobby_id@,
                client_id: e.client_id@,
                players: players_view(e.players@),
            },
            ServerEvent::Wait => ServerEventView::Wait,
            ServerEvent::Accept(e) => ServerEventView::Accept {
                lobby_id: e.lobby_id@,
                client_id: e.client_id@,
            },
            ServerEvent::Leave(e) => ServerEventView::Leave { client_id: e.client_id@ },
            ServerEvent::PosUpdate(e) => ServerEventView::PosUpdate(e@),
        }
    }
}

} // verus!
