//! The command dispatcher: what each client command does to the registry,
//! and which frames go out to whom. The socket loop performs the sends; here
//! every command is a function from state and command to new state and a
//! list of outbound frames.

use vstd::prelude::*;

use crate::grid::{
    ai_move_transition, move_transition, place_random_transition, place_transition, Entity, Grid,
};
use crate::protocol::{
    spec_rooms_reply, encode_game_over, encode_join_success, encode_opcode, encode_rooms_reply,
    encode_start_game, Protocol, Request,
};
use crate::room::{find_role, spec_default_board, PlayerType, Room, TurnResult};
use crate::state::{lookup, spec_available_rooms, ServerState};

verus! {

/// One outbound frame: which user's stream it goes to, and its bytes.
pub struct Effect {
    pub to: u128,
    pub bytes: Vec<u8>,
}

/// The effect `e` carries `bytes` to the stream of `to`.
pub open spec fn effect_is(e: Effect, to: u128, bytes: Seq<u8>) -> bool {
    e.to == to && e.bytes@ == bytes
}

pub open spec fn join_fail_frame() -> Seq<u8> {
    seq![Protocol::JoinFail.spec_opcode()]
}

/// The JOIN_SUCCESS acknowledgement alone, as JOIN_ROOM answers it. Only the
/// solo-game path appends the 16 room-id bytes (`join_success_frame`).
pub open spec fn join_ack_frame() -> Seq<u8> {
    seq![Protocol::JoinSuccess.spec_opcode()]
}

pub open spec fn your_turn_frame() -> Seq<u8> {
    seq![Protocol::YourTurn.spec_opcode()]
}

pub open spec fn wait_turn_frame() -> Seq<u8> {
    seq![Protocol::WaitTurn.spec_opcode()]
}

/// JOIN_SUCCESS followed by the 16 room-id bytes, as START_ROOM_BOT answers.
pub open spec fn join_success_frame(room_id: u128) -> Seq<u8> {
    seq![Protocol::JoinSuccess.spec_opcode()] + vstd::bytes::spec_u128_to_le_bytes(room_id)
}

pub open spec fn start_game_frame(name: Seq<u8>) -> Seq<u8> {
    seq![Protocol::StartGame.spec_opcode()] + vstd::bytes::spec_u32_to_le_bytes(name.len() as u32)
        + name
}

pub open spec fn game_over_frame(grid_bytes: Seq<u8>) -> Seq<u8> {
    seq![Protocol::GameOver.spec_opcode()] + grid_bytes
}

/// The display name of the server-side opponent in a solo game.
pub open spec fn spec_bot_name() -> Seq<u8> {
    seq![66u8, 79u8, 84u8]
}

/// The name announced for a participant whose user record is gone.
pub open spec fn spec_fallback_name() -> Seq<u8> {
    seq![71u8, 117u8, 101u8, 115u8, 116u8]
}

/// The name a match-start announcement uses for user `id`.
pub open spec fn spec_name_of(s: ServerState, id: u128) -> Seq<u8> {
    match lookup(s.users@, id) {
        Some(u) => u.username@,
        None => spec_fallback_name(),
    }
}

/// The room the user `id` sits in, by the user table of `s`.
pub open spec fn spec_user_room(s: ServerState, id: u128) -> Option<u128> {
    match lookup(s.users@, id) {
        Some(u) => u.room,
        None => None,
    }
}

/// A lobby listing has at most one entry per room.
pub proof fn lemma_available_rooms_len(rooms: Seq<(u128, Room)>)
    ensures
        spec_available_rooms(rooms).len() <= rooms.len(),
    decreases rooms.len(),
{
    if rooms.len() > 0 {
        lemma_available_rooms_len(rooms.drop_last());
    }
}

/// REQUEST_ROOMS: answer the asking user with the lobby listing — the rooms
/// that still have space, with their participant counts. The state does not
/// change.
pub fn handle_request_rooms(state: &ServerState, uid: u128) -> (r: Vec<Effect>)
    requires
        state.wf(),
        state.rooms@.len() <= u32::MAX,
    ensures
        r@.len() == 1,
        effect_is(r@[0], uid, spec_rooms_reply(spec_available_rooms(state.rooms@))),
{
    let rooms = state.available_rooms();
    proof {
        lemma_available_rooms_len(state.rooms@);
    }
    let bytes = encode_rooms_reply(&rooms);
    let mut r: Vec<Effect> = Vec::new();
    r.push(Effect { to: uid, bytes });
    r
}

/// The lobby listing is a function of the room table alone: two REQUEST_ROOMS
/// with no change in between — no join, no room opened or closed — return
/// the same list.
pub proof fn lemma_lobby_listing_stable(s1: ServerState, s2: ServerState)
    requires
        s1.rooms@ == s2.rooms@,
    ensures
        spec_available_rooms(s1.rooms@) == spec_available_rooms(s2.rooms@),
{
}

/// REQUEST_TILES: answer with the wire form of the named room's board; with
/// nothing when there is no such room. The state does not change.
pub fn handle_request_tiles(state: &ServerState, uid: u128, room_id: u128) -> (r: Vec<Effect>)
    requires
        state.wf(),
    ensures
        match state.spec_room(room_id) {
            Some(room) => r@.len() == 1 && effect_is(r@[0], uid, room.spec_grid().spec_bytes()),
            None => r@.len() == 0,
        },
{
    match state.get_room(&room_id) {
        Some(room) => {
            let bytes = room.get_grid();
            let mut r: Vec<Effect> = Vec::new();
            r.push(Effect { to: uid, bytes });
            r
        },
        None => Vec::new(),
    }
}

/// Put `uid` into the room `room_id` with the role it asked for, and point
/// its user record at the room — provided the room exists, has space, the
/// role is free and the user is not already in it; otherwise nothing
/// changes. The caller decides what goes out on the wire.
pub fn add_user_to_room(state: &mut ServerState, uid: u128, room_id: u128, role: PlayerType) -> (inserted: bool)
    requires
        old(state).wf(),
    ensures
        final(state).wf(),
        inserted == match old(state).spec_room(room_id) {
            Some(room) => room.players@.len() < room.max_players && room.spec_role_available(role)
                && !(exists|i: int|
                0 <= i < room.players@.len() && (#[trigger] room.players@[i]).0 == uid),
            None => false,
        },
        forall|k: u128| k != room_id ==> final(state).spec_room(k) == old(state).spec_room(k),
        forall|k: u128| k != uid ==> final(state).spec_user(k) == old(state).spec_user(k),
        match old(state).spec_room(room_id) {
            Some(room) => {
                if room.players@.len() < room.max_players && room.spec_role_available(role) && !(
                exists|i: int|
                    0 <= i < room.players@.len() && (#[trigger] room.players@[i]).0 == uid) {
                    &&& final(state).spec_room(room_id) matches Some(r2) && r2.players@
                        == room.players@.push((uid, role)) && r2.max_players == room.max_players
                        && r2.spec_grid() == room.spec_grid()
                    &&& match old(state).spec_user(uid) {
                        Some(u) => final(state).spec_user(uid) matches Some(u2) && u2.room
                            == Some(room_id) && u2.username == u.username,
                        None => final(state).spec_user(uid) is None,
                    }
                } else {
                    &&& final(state).spec_room(room_id) == old(state).spec_room(room_id)
                    &&& final(state).spec_user(uid) == old(state).spec_user(uid)
                }
            },
            None => {
                &&& final(state).spec_room(room_id) is None
                &&& final(state).spec_user(uid) == old(state).spec_user(uid)
            },
        },
{
    match state.take_room(&room_id) {
        Some(mut room) => {
            if room.is_available() && room.role_available(&role) && !room.contains_player(&uid) {
                room.add_player(&uid, &role);
                state.put_room(room_id, room);
                state.set_user_room(&uid, room_id);
                true
            } else {
                state.put_room(room_id, room);
                false
            }
        },
        None => false,
    }
}

/// End a game: a GAME_OVER frame with the final board to the acting side,
/// the same to the opponent when it is still registered, and the room gone.
pub fn end_room(
    state: &mut ServerState,
    room_id: &u128,
    actor: u128,
    other: Option<u128>,
    grid_bytes: Vec<u8>,
) -> (r: Vec<Effect>)
    requires
        old(state).wf(),
    ensures
        final(state).wf(),
        final(state).users@ == old(state).users@,
        final(state).spec_room(*room_id) is None,
        forall|k: u128| k != room_id ==> final(state).spec_room(k) == old(state).spec_room(k),
        ({
            let go = game_over_frame(grid_bytes@);
            match other {
                Some(o) => if old(state).spec_user(o) is Some {
                    r@.len() == 2 && effect_is(r@[0], actor, go) && effect_is(r@[1], o, go)
                } else {
                    r@.len() == 1 && effect_is(r@[0], actor, go)
                },
                None => r@.len() == 1 && effect_is(r@[0], actor, go),
            }
        }),
{
    let mut r: Vec<Effect> = Vec::new();
    let frame = encode_game_over(&grid_bytes);
    let frame2 = encode_game_over(&grid_bytes);
    r.push(Effect { to: actor, bytes: frame });
    match other {
        Some(o) => {
            if state.has_user(&o) {
                r.push(Effect { to: o, bytes: frame2 });
            }
        },
        None => {},
    }
    state.remove_room(room_id);
    r
}

/// A client went away: when it sat in a live room, the opponent gets a
/// GAME_OVER with the final board and the room is torn down; the user record
/// goes either way.
pub fn disconnect(state: &mut ServerState, uid: u128) -> (r: Vec<Effect>)
    requires
        old(state).wf(),
    ensures
        final(state).wf(),
        final(state).spec_user(uid) is None,
        forall|k: u128| k != uid ==> final(state).spec_user(k) == old(state).spec_user(k),
        match spec_user_room(*old(state), uid) {
            Some(rid) => {
                &&& final(state).spec_room(rid) is None
                &&& forall|k: u128|
                    k != rid ==> final(state).spec_room(k) == old(state).spec_room(k)
                &&& match old(state).spec_room(rid) {
                    Some(room) => {
                        let go = game_over_frame(room.spec_grid().spec_bytes());
                        let other = if room.players@.len() == 2 {
                            Some(
                                if room.players@[0].0 == uid {
                                    room.players@[1].0
                                } else {
                                    room.players@[0].0
                                },
                            )
                        } else {
                            None::<u128>
                        };
                        match other {
                            Some(o) => if old(state).spec_user(o) is Some {
                                r@.len() == 2 && effect_is(r@[0], uid, go) && effect_is(
                                    r@[1],
                                    o,
                                    go,
                                )
                            } else {
                                r@.len() == 1 && effect_is(r@[0], uid, go)
                            },
                            None => r@.len() == 1 && effect_is(r@[0], uid, go),
                        }
                    },
                    None => r@.len() == 0,
                }
            },
            None => r@.len() == 0 && final(state).rooms@ == old(state).rooms@,
        },
{
    let r: Vec<Effect> = match state.get_user_room(&uid) {
        Some(rid) => {
            match state.take_room(&rid) {
                Some(room) => {
                    let bytes = room.get_grid();
                    let other = room.get_other_player(&uid);
                    end_room(state, &rid, uid, other, bytes)
                },
                None => Vec::new(),
            }
        },
        None => Vec::new(),
    };
    let _ = state.remove_user(&uid);
    r
}

/// The name to announce for `id`, with the fallback for a vanished user.
fn name_or_fallback(state: &ServerState, id: &u128) -> (r: Vec<u8>)
    requires
        state.wf(),
    ensures
        r@ == spec_name_of(*state, *id),
        r@.len() <= u32::MAX,
{
    match state.get_user_name(id) {
        Some(n) => n,
        None => {
            let mut n: Vec<u8> = Vec::new();
            n.push(71);
            n.push(117);
            n.push(101);
            n.push(115);
            n.push(116);
            proof {
                assert(n@ =~= spec_fallback_name());
            }
            n
        },
    }
}

/// What the match-start step does when the room `room_id` holds two
/// participants in state `s`: the Wall side gets START_GAME with its
/// opponent's name and YOUR_TURN, the Mouse side START_GAME and WAIT_TURN
/// (each only while its user record is still there), and a fresh empty
/// 2-participant room keeps the lobby joinable.
pub open spec fn match_start_outcome(
    s: ServerState,
    s2: ServerState,
    room_id: u128,
    eff: Seq<Effect>,
) -> bool {
    match lookup(s.rooms@, room_id) {
        Some(room) => {
            if room.players@.len() == 2 {
                let wall = if room.players@[0].1 == PlayerType::Wall {
                    room.players@[0].0
                } else {
                    room.players@[1].0
                };
                let mouse = if room.players@[0].1 == PlayerType::Wall {
                    room.players@[1].0
                } else {
                    room.players@[0].0
                };
                &&& eff.len() == (if lookup(s.users@, wall) is Some {
                    2int
                } else {
                    0int
                }) + (if lookup(s.users@, mouse) is Some {
                    2int
                } else {
                    0int
                })
                &&& (lookup(s.users@, wall) is Some ==> effect_is(
                    eff[0],
                    wall,
                    start_game_frame(spec_name_of(s, mouse)),
                ) && effect_is(eff[1], wall, your_turn_frame()))
                &&& (lookup(s.users@, mouse) is Some ==> effect_is(
                    eff[eff.len() - 2],
                    mouse,
                    start_game_frame(spec_name_of(s, wall)),
                ) && effect_is(eff[eff.len() - 1], mouse, wait_turn_frame()))
                &&& lookup(s2.rooms@, room_id) == lookup(s.rooms@, room_id)
                &&& exists|rid2: u128|
                    #![trigger lookup(s2.rooms@, rid2)]
                    {
                        &&& lookup(s2.rooms@, rid2) is Some
                        &&& forall|k: u128|
                            k != rid2 ==> #[trigger] lookup(s2.rooms@, k) == lookup(s.rooms@, k)
                        &&& lookup(s.rooms@, rid2) is None ==> (lookup(s2.rooms@, rid2) matches Some(
                            r2,
                        ) && r2.players@.len() == 0 && r2.max_players == 2 && r2.wf())
                    }
            } else {
                eff.len() == 0 && s2.rooms@ == s.rooms@
            }
        },
        None => eff.len() == 0 && s2.rooms@ == s.rooms@,
    }
}

/// The match-start step of a join; see `match_start_outcome`.
pub fn check_start_room(state: &mut ServerState, room_id: &u128) -> (r: Vec<Effect>)
    requires
        old(state).wf(),
    ensures
        final(state).wf(),
        final(state).users@ == old(state).users@,
        match_start_outcome(*old(state), *final(state), *room_id, r@),
{
    let pair: Option<((u128, PlayerType), (u128, PlayerType))> = match state.get_room(room_id) {
        Some(room) => {
            if room.players.len() == 2 {
                Some((room.players[0], room.players[1]))
            } else {
                None
            }
        },
        None => None,
    };
    match pair {
        Some((p0, p1)) => {
            let (wall, mouse) = if p0.1 == PlayerType::Wall {
                (p0.0, p1.0)
            } else {
                (p1.0, p0.0)
            };
            let mouse_name = name_or_fallback(state, &mouse);
            let wall_name = name_or_fallback(state, &wall);
            let mut r: Vec<Effect> = Vec::new();
            if state.has_user(&wall) {
                r.push(Effect { to: wall, bytes: encode_start_game(&mouse_name) });
                r.push(Effect { to: wall, bytes: encode_opcode(Protocol::YourTurn) });
            }
            if state.has_user(&mouse) {
                r.push(Effect { to: mouse, bytes: encode_start_game(&wall_name) });
                r.push(Effect { to: mouse, bytes: encode_opcode(Protocol::WaitTurn) });
            }
            let rid2 = state.add_room(2);
            proof {
                assert(state.spec_room(rid2) is Some);
                assert(lookup(state.rooms@, rid2) is Some);
                assert forall|k: u128| k != rid2 implies #[trigger] lookup(state.rooms@, k)
                    == lookup(old(state).rooms@, k) by {
                    assert(state.spec_room(k) == old(state).spec_room(k));
                }
                if lookup(old(state).rooms@, rid2) is None {
                    assert(state.spec_room(rid2) matches Some(r2) && r2.players@.len() == 0
                        && r2.max_players == 2 && r2.wf());
                }
            }
            r
        },
        None => Vec::new(),
    }
}

/// What JOIN_ROOM does. A room holding exactly one participant of the very
/// role asked for turns the joiner away with JOIN_FAIL and changes nothing.
/// Otherwise the joiner's name is recorded, it enters the room where the
/// room exists with space, a free role and no duplicate id, JOIN_SUCCESS
/// goes back, and a room thereby filled starts its match.
pub open spec fn join_outcome(
    s: ServerState,
    s2: ServerState,
    uid: u128,
    room_id: u128,
    role: PlayerType,
    name: Seq<u8>,
    eff: Seq<Effect>,
) -> bool {
    let clash = match lookup(s.rooms@, room_id) {
        Some(room) => room.players@.len() == 1 && room.players@[0].1 == role,
        None => false,
    };
    if clash {
        &&& s2.users@ == s.users@
        &&& s2.rooms@ == s.rooms@
        &&& eff.len() == 1 && effect_is(eff[0], uid, join_fail_frame())
    } else {
        &&& eff.len() >= 1 && effect_is(eff[0], uid, join_ack_frame())
        &&& (match lookup(s.users@, uid) {
            Some(u) => lookup(s2.users@, uid) matches Some(u2) && u2.username@ == name,
            None => lookup(s2.users@, uid) is None,
        })
        &&& forall|k: u128| k != uid ==> lookup(s2.users@, k) == lookup(s.users@, k)
        &&& match lookup(s.rooms@, room_id) {
            Some(room) => {
                if room.players@.len() < room.max_players && room.spec_role_available(role) && !(
                exists|i: int|
                    0 <= i < room.players@.len() && (#[trigger] room.players@[i]).0 == uid) {
                    &&& lookup(s2.rooms@, room_id) matches Some(r2) && r2.players@
                        == room.players@.push((uid, role))
                    &&& (match lookup(s.users@, uid) {
                        Some(u) => lookup(s2.users@, uid) matches Some(u2) && u2.room == Some(
                            room_id,
                        ),
                        None => true,
                    })
                } else {
                    lookup(s2.rooms@, room_id) == lookup(s.rooms@, room_id)
                }
            },
            None => lookup(s2.rooms@, room_id) is None,
        }
    }
}

/// JOIN_ROOM; see `join_outcome`. The frames after JOIN_SUCCESS are the
/// match-start announcements when the join filled the room.
pub fn handle_join(
    state: &mut ServerState,
    uid: u128,
    room_id: u128,
    role: PlayerType,
    name: Vec<u8>,
) -> (r: Vec<Effect>)
    requires
        old(state).wf(),
        name@.len() <= u32::MAX,
    ensures
        final(state).wf(),
        join_outcome(*old(state), *final(state), uid, room_id, role, name@, r@),
{
    let clash = match state.get_room(&room_id) {
        Some(room) => room.players.len() == 1 && room.players[0].1 == role,
        None => false,
    };
    if clash {
        let mut r: Vec<Effect> = Vec::new();
        r.push(Effect { to: uid, bytes: encode_opcode(Protocol::JoinFail) });
        return r;
    }
    state.set_user_name(&uid, name);
    let ghost s_n = *state;
    let inserted = add_user_to_room(state, uid, room_id, role);
    let ghost s_a = *state;
    let mut r: Vec<Effect> = Vec::new();
    r.push(Effect { to: uid, bytes: encode_opcode(Protocol::JoinSuccess) });
    if inserted {
        let mut more = check_start_room(state, &room_id);
        r.append(&mut more);
    }
    proof {
        assert forall|k: u128| k != uid implies lookup(state.users@, k) == lookup(
            old(state).users@,
            k,
        ) by {
            assert(lookup(state.users@, k) == lookup(s_a.users@, k));
            assert(s_a.spec_user(k) == s_n.spec_user(k));
            assert(s_n.spec_user(k) == old(state).spec_user(k));
        }
        assert(join_outcome(*old(state), *state, uid, room_id, role, name@, r@));
    }
    r
}

/// What START_ROOM_BOT does: the user gets its name recorded, a fresh solo
/// room opens with it as the sole participant, JOIN_SUCCESS with the room id
/// and START_GAME against "BOT" go back, and YOUR_TURN hands the human the
/// move. A human playing the Wall starts on the untouched default board —
/// the AI moves only in response; a human playing the Mouse starts on the
/// default board after exactly one AI move, the opening Wall on a random
/// Empty neighbor of the Mouse.
pub open spec fn bot_outcome(
    s: ServerState,
    s2: ServerState,
    uid: u128,
    role: PlayerType,
    name: Seq<u8>,
    eff: Seq<Effect>,
) -> bool {
    &&& eff.len() == 3
    &&& effect_is(eff[1], uid, start_game_frame(spec_bot_name()))
    &&& effect_is(eff[2], uid, your_turn_frame())
    &&& forall|k: u128| k != uid ==> lookup(s2.users@, k) == lookup(s.users@, k)
    &&& exists|rid: u128|
        #![trigger lookup(s2.rooms@, rid)]
        {
            &&& effect_is(eff[0], uid, join_success_frame(rid))
            &&& forall|k: u128| k != rid ==> #[trigger] lookup(s2.rooms@, k) == lookup(s.rooms@, k)
            &&& lookup(s2.rooms@, rid) matches Some(room) && room.wf() && room.max_players == 1
                && room.players@ == seq![(uid, role)] && (match role {
                PlayerType::Wall => spec_default_board(room.spec_grid()),
                PlayerType::Mouse => exists|g0: Grid|
                    #![auto]
                    spec_default_board(g0) && place_random_transition(
                        g0,
                        room.spec_grid(),
                        Entity::Wall,
                        TurnResult::Good,
                    ),
            })
            &&& (match lookup(s.users@, uid) {
                Some(u) => lookup(s2.users@, uid) matches Some(u2) && u2.username@ == name
                    && u2.room == Some(rid),
                None => lookup(s2.users@, uid) is None,
            })
        }
}

/// START_ROOM_BOT; see `bot_outcome`.
pub fn handle_new_bot_game(
    state: &mut ServerState,
    uid: u128,
    role: PlayerType,
    name: Vec<u8>,
) -> (r: Vec<Effect>)
    requires
        old(state).wf(),
        name@.len() <= u32::MAX,
    ensures
        final(state).wf(),
        bot_outcome(*old(state), *final(state), uid, role, name@, r@),
{
    state.set_user_name(&uid, name);
    let ghost s_n = *state;
    let rid = state.new_room(1);
    let ghost s_r = *state;
    let inserted = add_user_to_room(state, uid, rid, role);
    let ghost s_a = *state;
    proof {
        assert(inserted);
        assert(s_a.spec_room(rid) matches Some(r1) && r1.players@ == Seq::<(
            u128,
            PlayerType,
        )>::empty().push((uid, role)));
        assert(Seq::<(u128, PlayerType)>::empty().push((uid, role)) =~= seq![(uid, role)]);
    }
    if role == PlayerType::Mouse {
        match state.take_room(&rid) {
            Some(mut room) => {
                let ghost g0 = room.spec_grid();
                proof {
                    assert(room.players@ == seq![(uid, role)]);
                    crate::grid::lemma_five_walls_leave_an_escape(g0);
                }
                let _ = room.ai_turn();
                proof {
                    assert(place_random_transition(
                        g0,
                        room.spec_grid(),
                        Entity::Wall,
                        TurnResult::Good,
                    ));
                }
                state.put_room(rid, room);
            },
            None => {},
        }
    }
    let ghost s_b = *state;
    let mut r: Vec<Effect> = Vec::new();
    r.push(Effect { to: uid, bytes: encode_join_success(rid) });
    let mut bot: Vec<u8> = Vec::new();
    bot.push(66);
    bot.push(79);
    bot.push(84);
    proof {
        assert(bot@ =~= spec_bot_name());
    }
    r.push(Effect { to: uid, bytes: encode_start_game(&bot) });
    r.push(Effect { to: uid, bytes: encode_opcode(Protocol::YourTurn) });
    proof {
        assert forall|k: u128| k != uid implies lookup(state.users@, k) == lookup(
            old(state).users@,
            k,
        ) by {
            assert(state.spec_user(k) == s_a.spec_user(k));
            assert(s_a.spec_user(k) == s_n.spec_user(k));
            assert(s_n.spec_user(k) == old(state).spec_user(k));
        }
        assert forall|k: u128| k != rid implies #[trigger] lookup(state.rooms@, k) == lookup(
            old(state).rooms@,
            k,
        ) by {
            assert(state.spec_room(k) == s_b.spec_room(k));
            assert(s_b.spec_room(k) == s_a.spec_room(k));
            assert(s_a.spec_room(k) == s_r.spec_room(k));
            assert(s_r.spec_room(k) == old(state).spec_room(k));
        }
        assert(lookup(state.rooms@, rid) matches Some(room) && room.wf() && room.max_players == 1
            && room.players@ == seq![(uid, role)]);
        assert(lookup(state.users@, uid) == s_a.spec_user(uid));
        assert(bot_outcome(*old(state), *state, uid, role, name@, r@));
    }
    r
}

/// One participant's own move: by its role, a Mouse move or a Wall
/// placement to `(row, col)`; a non-participant changes nothing and is Bad.
pub open spec fn turn_step(
    g: Grid,
    g2: Grid,
    role: Option<PlayerType>,
    row: u32,
    col: u32,
    tr: TurnResult,
) -> bool {
    match role {
        Some(PlayerType::Mouse) => move_transition(g, g2, row as int, col as int, tr),
        Some(PlayerType::Wall) => place_transition(g, g2, row as int, col as int, Entity::Wall, tr),
        None => tr == TurnResult::Bad && g2 == g,
    }
}

/// The AI's reply move: a random Wall when the sole human plays the Mouse, a
/// Mouse step toward the border when it plays the Wall.
pub open spec fn ai_step(g: Grid, g2: Grid, first_role: PlayerType, ai: TurnResult) -> bool {
    match first_role {
        PlayerType::Mouse => place_random_transition(g, g2, Entity::Wall, ai),
        PlayerType::Wall => ai_move_transition(g, g2, ai),
    }
}

/// What one solo turn does, in the room `room` the user sat in: its own move
/// per its role, then — when that move was Good — the AI's reply. A game
/// ending on either move sends GAME_OVER with the final board and closes the
/// room; an illegal move changes nothing and stays silent; otherwise
/// YOUR_TURN hands the human the next move.
pub open spec fn solo_turn_outcome(
    room: Room,
    rid: u128,
    s2: ServerState,
    uid: u128,
    row: u32,
    col: u32,
    eff: Seq<Effect>,
) -> bool {
    exists|mid: Grid, tr: TurnResult|
        #![trigger turn_step(room.spec_grid(), mid, find_role(room.players@, uid), row, col, tr)]
        {
            &&& turn_step(room.spec_grid(), mid, find_role(room.players@, uid), row, col, tr)
            &&& match tr {
                TurnResult::Good => exists|fin: Grid, ai: TurnResult|
                    #![trigger ai_step(mid, fin, room.players@[0].1, ai)]
                    {
                        &&& room.players@.len() >= 1
                        &&& ai_step(mid, fin, room.players@[0].1, ai)
                        &&& if ai == TurnResult::GameOver {
                            &&& eff.len() == 1 && effect_is(
                                eff[0],
                                uid,
                                game_over_frame(fin.spec_bytes()),
                            )
                            &&& lookup(s2.rooms@, rid) is None
                        } else {
                            &&& eff.len() == 1 && effect_is(eff[0], uid, your_turn_frame())
                            &&& lookup(s2.rooms@, rid) matches Some(r2) && r2.players@
                                == room.players@ && r2.max_players == room.max_players
                                && r2.spec_grid() == fin
                        }
                    },
                TurnResult::Bad => {
                    &&& eff.len() == 0
                    &&& lookup(s2.rooms@, rid) matches Some(r2) && r2.players@ == room.players@
                        && r2.max_players == room.max_players && r2.spec_grid().same_as(
                        room.spec_grid(),
                    )
                },
                TurnResult::GameOver => {
                    &&& eff.len() == 1 && effect_is(eff[0], uid, game_over_frame(mid.spec_bytes()))
                    &&& lookup(s2.rooms@, rid) is None
                },
            }
        }
}

/// What one versus turn does: the actor's move per its role. A Good move
/// puts the actor on WAIT_TURN and hands YOUR_TURN to its registered
/// opponent; an illegal one changes nothing and stays silent; a game-ending
/// one sends both sides GAME_OVER with the final board and closes the room.
pub open spec fn multi_turn_outcome(
    room: Room,
    rid: u128,
    s: ServerState,
    s2: ServerState,
    uid: u128,
    row: u32,
    col: u32,
    eff: Seq<Effect>,
) -> bool {
    exists|fin: Grid, tr: TurnResult|
        #![trigger turn_step(room.spec_grid(), fin, find_role(room.players@, uid), row, col, tr)]
        {
            &&& turn_step(room.spec_grid(), fin, find_role(room.players@, uid), row, col, tr)
            &&& ({
                let other = if room.players@.len() == 2 {
                    Some(
                        if room.players@[0].0 == uid {
                            room.players@[1].0
                        } else {
                            room.players@[0].0
                        },
                    )
                } else {
                    None::<u128>
                };
                match tr {
                    TurnResult::Good => {
                        &&& lookup(s2.rooms@, rid) matches Some(r2) && r2.players@
                            == room.players@ && r2.max_players == room.max_players
                            && r2.spec_grid() == fin
                        &&& match other {
                            Some(o) => if lookup(s.users@, o) is Some {
                                eff.len() == 2 && effect_is(eff[0], uid, wait_turn_frame())
                                    && effect_is(eff[1], o, your_turn_frame())
                            } else {
                                eff.len() == 1 && effect_is(eff[0], uid, wait_turn_frame())
                            },
                            None => eff.len() == 1 && effect_is(eff[0], uid, wait_turn_frame()),
                        }
                    },
                    TurnResult::Bad => {
                        &&& eff.len() == 0
                        &&& lookup(s2.rooms@, rid) matches Some(r2) && r2.players@
                            == room.players@ && r2.max_players == room.max_players
                            && r2.spec_grid().same_as(room.spec_grid())
                    },
                    TurnResult::GameOver => {
                        let go = game_over_frame(fin.spec_bytes());
                        &&& lookup(s2.rooms@, rid) is None
                        &&& match other {
                            Some(o) => if lookup(s.users@, o) is Some {
                                eff.len() == 2 && effect_is(eff[0], uid, go) && effect_is(
                                    eff[1],
                                    o,
                                    go,
                                )
                            } else {
                                eff.len() == 1 && effect_is(eff[0], uid, go)
                            },
                            None => eff.len() == 1 && effect_is(eff[0], uid, go),
                        }
                    },
                }
            })
        }
}

/// What TURN does: nothing visible when the user sits in no live room or the
/// coordinates fall outside the board; otherwise the solo or versus turn.
pub open spec fn turn_outcome(
    s: ServerState,
    s2: ServerState,
    uid: u128,
    row: u32,
    col: u32,
    eff: Seq<Effect>,
) -> bool {
    match spec_user_room(s, uid) {
        None => eff.len() == 0 && s2.rooms@ == s.rooms@,
        Some(rid) => match lookup(s.rooms@, rid) {
            None => eff.len() == 0 && s2.rooms@ == s.rooms@,
            Some(room) => {
                &&& (forall|k: u128|
                    k != rid ==> #[trigger] lookup(s2.rooms@, k) == lookup(s.rooms@, k))
                &&& if !(row < room.spec_grid().spec_height() && col
                    < room.spec_grid().spec_width()) {
                    &&& eff.len() == 0
                    &&& lookup(s2.rooms@, rid) matches Some(r2) && r2.players@ == room.players@
                        && r2.max_players == room.max_players && r2.spec_grid()
                        == room.spec_grid()
                } else if room.max_players == 1 {
                    solo_turn_outcome(room, rid, s2, uid, row, col, eff)
                } else {
                    multi_turn_outcome(room, rid, s, s2, uid, row, col, eff)
                }
            },
        },
    }
}

/// TURN; see `turn_outcome`. The user table never changes on a turn.
pub fn handle_turn(state: &mut ServerState, uid: u128, row: u32, col: u32) -> (r: Vec<Effect>)
    requires
        old(state).wf(),
    ensures
        final(state).wf(),
        final(state).users@ == old(state).users@,
        turn_outcome(*old(state), *final(state), uid, row, col, r@),
{
    let rid = match state.get_user_room(&uid) {
        Some(rid) => rid,
        None => {
            return Vec::new();
        },
    };
    let mut room = match state.take_room(&rid) {
        Some(room) => room,
        None => {
            return Vec::new();
        },
    };
    let ghost s_t = *state;
    let ghost room0 = room;
    let h = room.grid.height();
    let w = room.grid.width();
    if !((row as usize) < h && (col as usize) < w) {
        state.put_room(rid, room);
        proof {
            assert forall|k: u128| k != rid implies #[trigger] lookup(state.rooms@, k) == lookup(
                old(state).rooms@,
                k,
            ) by {
                assert(state.spec_room(k) == s_t.spec_room(k));
                assert(s_t.spec_room(k) == old(state).spec_room(k));
            }
        }
        return Vec::new();
    }
    let y = row as usize;
    let x = col as usize;
    if room.max_players == 1 {
        let tr = room.process_turn(&uid, &y, &x);
        let ghost gmid = room.spec_grid();
        proof {
            assert(turn_step(room0.spec_grid(), gmid, find_role(room0.players@, uid), row, col, tr));
        }
        match tr {
            TurnResult::Good => {
                proof {
                    if room.players@.len() == 0 {
                        assert(find_role(room0.players@, uid) is None);
                    }
                }
                let ai = room.ai_turn();
                let ghost gfin0 = room.spec_grid();
                proof {
                    assert(ai_step(gmid, gfin0, room0.players@[0].1, ai));
                }
                if ai == TurnResult::GameOver {
                    let bytes = room.get_grid();
                    let mut r: Vec<Effect> = Vec::new();
                    r.push(Effect { to: uid, bytes: encode_game_over(&bytes) });
                    proof {
                    assert forall|k: u128| k != rid implies #[trigger] lookup(state.rooms@, k)
                        == lookup(old(state).rooms@, k) by {
                        assert(state.spec_room(k) == s_t.spec_room(k));
                        assert(s_t.spec_room(k) == old(state).spec_room(k));
                    }
                        assert(solo_turn_outcome(room0, rid, *state, uid, row, col, r@));
                    }
                    r
                } else {
                    let ghost gfin = room.spec_grid();
                    state.put_room(rid, room);
                    let mut r: Vec<Effect> = Vec::new();
                    r.push(Effect { to: uid, bytes: encode_opcode(Protocol::YourTurn) });
                    proof {
                    assert forall|k: u128| k != rid implies #[trigger] lookup(state.rooms@, k)
                        == lookup(old(state).rooms@, k) by {
                        assert(state.spec_room(k) == s_t.spec_room(k));
                        assert(s_t.spec_room(k) == old(state).spec_room(k));
                    }
                        assert(solo_turn_outcome(room0, rid, *state, uid, row, col, r@));
                    }
                    r
                }
            },
            TurnResult::Bad => {
                state.put_room(rid, room);
                proof {
                    assert forall|k: u128| k != rid implies #[trigger] lookup(state.rooms@, k)
                        == lookup(old(state).rooms@, k) by {
                        assert(state.spec_room(k) == s_t.spec_room(k));
                        assert(s_t.spec_room(k) == old(state).spec_room(k));
                    }
                    assert(solo_turn_outcome(room0, rid, *state, uid, row, col, Seq::empty()));
                }
                Vec::new()
            },
            TurnResult::GameOver => {
                let bytes = room.get_grid();
                let mut r: Vec<Effect> = Vec::new();
                r.push(Effect { to: uid, bytes: encode_game_over(&bytes) });
                proof {
                    assert forall|k: u128| k != rid implies #[trigger] lookup(state.rooms@, k)
                        == lookup(old(state).rooms@, k) by {
                        assert(state.spec_room(k) == s_t.spec_room(k));
                        assert(s_t.spec_room(k) == old(state).spec_room(k));
                    }
                    assert(solo_turn_outcome(room0, rid, *state, uid, row, col, r@));
                }
                r
            },
        }
    } else {
        let tr = room.process_turn(&uid, &y, &x);
        let ghost gmid2 = room.spec_grid();
        proof {
            assert(turn_step(room0.spec_grid(), gmid2, find_role(room0.players@, uid), row, col, tr));
        }
        let other = room.get_other_player(&uid);
        let bytes = room.get_grid();
        match tr {
            TurnResult::Good => {
                let ghost gfin = room.spec_grid();
                state.put_room(rid, room);
                let mut r: Vec<Effect> = Vec::new();
                r.push(Effect { to: uid, bytes: encode_opcode(Protocol::WaitTurn) });
                match other {
                    Some(o) => {
                        if state.has_user(&o) {
                            r.push(Effect { to: o, bytes: encode_opcode(Protocol::YourTurn) });
                        }
                    },
                    None => {},
                }
                proof {
                    assert forall|k: u128| k != rid implies #[trigger] lookup(state.rooms@, k)
                        == lookup(old(state).rooms@, k) by {
                        assert(state.spec_room(k) == s_t.spec_room(k));
                        assert(s_t.spec_room(k) == old(state).spec_room(k));
                    }
                    assert(multi_turn_outcome(
                        room0,
                        rid,
                        *old(state),
                        *state,
                        uid,
                        row,
                        col,
                        r@,
                    ));
                }
                r
            },
            TurnResult::Bad => {
                state.put_room(rid, room);
                proof {
                    assert forall|k: u128| k != rid implies #[trigger] lookup(state.rooms@, k)
                        == lookup(old(state).rooms@, k) by {
                        assert(state.spec_room(k) == s_t.spec_room(k));
                        assert(s_t.spec_room(k) == old(state).spec_room(k));
                    }
                    assert(multi_turn_outcome(
                        room0,
                        rid,
                        *old(state),
                        *state,
                        uid,
                        row,
                        col,
                        Seq::empty(),
                    ));
                }
                Vec::new()
            },
            TurnResult::GameOver => {
                let ghost gfin = room.spec_grid();
                let mut r: Vec<Effect> = Vec::new();
                r.push(Effect { to: uid, bytes: encode_game_over(&bytes) });
                match other {
                    Some(o) => {
                        if state.has_user(&o) {
                            r.push(Effect { to: o, bytes: encode_game_over(&bytes) });
                        }
                    },
                    None => {},
                }
                proof {
                    assert forall|k: u128| k != rid implies #[trigger] lookup(state.rooms@, k)
                        == lookup(old(state).rooms@, k) by {
                        assert(state.spec_room(k) == s_t.spec_room(k));
                        assert(s_t.spec_room(k) == old(state).spec_room(k));
                    }
                    assert(multi_turn_outcome(
                        room0,
                        rid,
                        *old(state),
                        *state,
                        uid,
                        row,
                        col,
                        r@,
                    ));
                }
                r
            },
        }
    }
}

/// Dispatch one parsed command; the heart of the per-connection loop.
pub fn handle_command(state: &mut ServerState, uid: u128, req: &Request) -> (r: Vec<Effect>)
    requires
        old(state).wf(),
        old(state).rooms@.len() <= u32::MAX,
        match req {
            Request::StartRoomBot { name, .. } => name@.len() <= u32::MAX,
            Request::JoinRoom { name, .. } => name@.len() <= u32::MAX,
            _ => true,
        },
    ensures
        final(state).wf(),
        match *req {
            Request::RequestRooms => {
                &&& final(state).users@ == old(state).users@
                &&& final(state).rooms@ == old(state).rooms@
                &&& r@.len() == 1 && effect_is(
                    r@[0],
                    uid,
                    spec_rooms_reply(spec_available_rooms(old(state).rooms@)),
                )
            },
            Request::StartRoomBot { role, ref name } => bot_outcome(
                *old(state),
                *final(state),
                uid,
                role,
                name@,
                r@,
            ),
            Request::JoinRoom { room_id, role, ref name } => join_outcome(
                *old(state),
                *final(state),
                uid,
                room_id,
                role,
                name@,
                r@,
            ),
            Request::RequestTiles { room_id } => {
                &&& final(state).users@ == old(state).users@
                &&& final(state).rooms@ == old(state).rooms@
                &&& match old(state).spec_room(room_id) {
                    Some(room) => r@.len() == 1 && effect_is(
                        r@[0],
                        uid,
                        room.spec_grid().spec_bytes(),
                    ),
                    None => r@.len() == 0,
                }
            },
            Request::Turn { row, col } => {
                &&& final(state).users@ == old(state).users@
                &&& turn_outcome(*old(state), *final(state), uid, row, col, r@)
            },
        },
{
    match req {
        Request::RequestRooms => handle_request_rooms(state, uid),
        Request::StartRoomBot { role, name } => {
            let n = name.clone();
            proof {
                assert(n@ =~= name@);
            }
            handle_new_bot_game(state, uid, *role, n)
        },
        Request::JoinRoom { room_id, role, name } => {
            let n = name.clone();
            proof {
                assert(n@ =~= name@);
            }
            handle_join(state, uid, *room_id, *role, n)
        },
        Request::RequestTiles { room_id } => handle_request_tiles(state, uid, *room_id),
        Request::Turn { row, col } => handle_turn(state, uid, *row, *col),
    }
}

} // verus!
