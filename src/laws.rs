//! Properties of the matchmaker, the telemetry relay and the framing, stated
//! over the same spec functions that the operations' contracts use.
use vstd::prelude::*;
use crate::frame::{framed, unframed};
use crate::message::{new_player, PlayerView, PosUpdateView};
use crate::server::{
    assigned, bound_addr, member_slot, first_open, has_room, in_some_lobby, holds_lobby_id, lemma_first_open,
    relay_targets, DatagramView, LobbyView, PeerAddr, ServerView, LOBBY_CAPACITY,
};

verus! {

/// The lobbies after the sessions `ids` join one after another on a server
/// with no lobbies, nobody leaving; the `n`-th join names a lobby it opens
/// `fresh[n]`.
pub open spec fn joined_in_turn(ids: Seq<Seq<char>>, fresh: Seq<Seq<char>>) -> Seq<LobbyView>
    decreases ids.len(),
{
    if ids.len() == 0 {
        seq![]
    } else {
        let n = ids.len() - 1;
        assigned(joined_in_turn(ids.subrange(0, n), fresh), ids[n], fresh[n])
    }
}

/// When `N` sessions join and nobody leaves, there are `ceil(N / 2)` lobbies,
/// each with at most two members: every lobby is full except, when `N` is
/// odd, the newest, which holds one. Every session that joined is a member
/// of one of them.
pub proof fn law_joins_pair_up(ids: Seq<Seq<char>>, fresh: Seq<Seq<char>>)
    ensures
        joined_in_turn(ids, fresh).len() == (ids.len() + 1) / 2,
        forall|i: int|
            0 <= i < joined_in_turn(ids, fresh).len() ==> #[trigger] joined_in_turn(ids, fresh)[i].players.len()
                == if i == joined_in_turn(ids, fresh).len() - 1 && ids.len() % 2 == 1 {
                1int
            } else {
                2int
            },
        forall|i: int|
            0 <= i < joined_in_turn(ids, fresh).len() ==> #[trigger] joined_in_turn(ids, fresh)[i].players.len()
                <= LOBBY_CAPACITY,
        forall|n: int| 0 <= n < ids.len() ==> in_some_lobby(joined_in_turn(ids, fresh), #[trigger] ids[n]),
    decreases ids.len(),
{
    if ids.len() > 0 {
        let n = ids.len() - 1;
        let prev = ids.subrange(0, n);
        law_joins_pair_up(prev, fresh);
        let ls = joined_in_turn(prev, fresh);
        lemma_first_open(ls);
        let nl = joined_in_turn(ids, fresh);
        let f = first_open(ls);
        assert forall|m: int| 0 <= m < ids.len() implies in_some_lobby(nl, #[trigger] ids[m]) by {
            if m == n {
                if f < ls.len() {
                    assert(member_slot(nl, f, ls[f].players.len() as int, ids[m]));
                } else {
                    assert(member_slot(nl, f, 0, ids[m]));
                }
            } else {
                assert(prev[m] == ids[m]);
                assert(in_some_lobby(ls, prev[m]));
                let (a, k) = choose|a: int, k: int| member_slot(ls, a, k, prev[m]);
                assert(member_slot(nl, a, k, ids[m]));
            }
        }
        if n % 2 == 0 {
            if first_open(ls) < ls.len() {
                assert(ls[first_open(ls)].players.len() == 2);
            }
        } else {
            assert(has_room(ls[ls.len() - 1]));
            assert(first_open(ls) == ls.len() - 1);
        }
    }
}

/// A join never adds to a full lobby, so a lobby that has started stays as
/// it is, and is not started again, for as long as nobody leaves it.
pub proof fn law_full_lobby_untouched(ls: Seq<LobbyView>, id: Seq<char>, fresh: Seq<char>, i: int)
    requires
        0 <= i < ls.len(),
        !has_room(ls[i]),
    ensures
        first_open(ls) != i,
        assigned(ls, id, fresh)[i] == ls[i],
{
    lemma_first_open(ls);
}

/// The lobby a join fills up is one that held a single member before, and
/// the roster its start message lists is the two members, each never 'it'
/// and at the origin, the joining session last.
pub proof fn law_start_roster(v: ServerView, id: Seq<char>, fresh: Seq<char>)
    requires
        v.wf(),
        v.registered(id),
        !in_some_lobby(v.lobbies, id),
        first_open(v.lobbies) == v.lobbies.len() ==> !holds_lobby_id(v.lobbies, fresh),
    ensures
        ({
            let i = first_open(v.lobbies);
            let l = assigned(v.lobbies, id, fresh)[i];
            l.players.len() == LOBBY_CAPACITY ==> {
                &&& i < v.lobbies.len()
                &&& v.lobbies[i].players.len() == 1
                &&& l.players == seq![new_player(v.lobbies[i].players[0].id), new_player(id)]
            }
        }),
{
    lemma_first_open(v.lobbies);
    let i = first_open(v.lobbies);
    if i < v.lobbies.len() {
        let l = assigned(v.lobbies, id, fresh)[i];
        if l.players.len() == LOBBY_CAPACITY {
            assert(v.lobbies[i].players[0] == new_player(v.lobbies[i].players[0].id));
            assert(l.players =~= seq![new_player(v.lobbies[i].players[0].id), new_player(id)]);
        }
    }
}

/// A position report from a sender none of whose lobby peers has a known
/// telemetry address produces no datagram.
pub proof fn law_unbound_peers_get_nothing(
    ps: Seq<PlayerView>,
    sender: Seq<char>,
    bs: Seq<(Seq<char>, PeerAddr)>,
    u: PosUpdateView,
)
    requires
        forall|k: int| 0 <= k < ps.len() && ps[k].id != sender ==> bound_addr(bs, #[trigger] ps[k].id) is None,
    ensures
        relay_targets(ps, sender, bs, u).len() == 0,
    decreases ps.len(),
{
    if ps.len() > 0 {
        assert(ps.last() == ps[ps.len() - 1]);
        law_unbound_peers_get_nothing(ps.drop_last(), sender, bs, u);
    }
}

/// In a lobby of two, a report from one member goes to the other member's
/// telemetry address, once, and never back to the sender, whichever slot
/// each holds.
pub proof fn law_pair_relay(
    a: PlayerView,
    b: PlayerView,
    bs: Seq<(Seq<char>, PeerAddr)>,
    u: PosUpdateView,
    addr: PeerAddr,
)
    requires
        a.id != b.id,
        bound_addr(bs, b.id) == Some(addr),
    ensures
        relay_targets(seq![a, b], a.id, bs, u) == seq![DatagramView { to: addr, update: u }],
        relay_targets(seq![b, a], a.id, bs, u) == seq![DatagramView { to: addr, update: u }],
{
    let none = Seq::<PlayerView>::empty();
    let one = seq![DatagramView { to: addr, update: u }];
    assert(relay_targets(none, a.id, bs, u) == Seq::<DatagramView>::empty());
    assert(seq![a].drop_last() =~= none);
    assert(seq![b].drop_last() =~= none);
    assert(seq![a].last() == a);
    assert(seq![b].last() == b);
    assert(relay_targets(seq![a], a.id, bs, u) == Seq::<DatagramView>::empty());
    assert(relay_targets(seq![b], a.id, bs, u) =~= one);
    assert(seq![a, b].drop_last() =~= seq![a]);
    assert(seq![a, b].last() == b);
    assert(seq![b, a].drop_last() =~= seq![b]);
    assert(seq![b, a].last() == a);
    assert(relay_targets(seq![a, b], a.id, bs, u) =~= one);
}

/// Reading back a framed payload yields the payload.
pub proof fn law_frame_round_trip(payload: Seq<u8>)
    ensures
        unframed(framed(payload)) == payload,
{
    assert(framed(payload).drop_last() =~= payload);
}

} // verus!
