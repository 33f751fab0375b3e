//! Server behavior through the command dispatcher: lobby listing, solo and
//! versus games, role collisions, game over, and disconnects.

use trap_the_mouse::controller::{
    disconnect, handle_command, handle_request_rooms, Effect,
};
use trap_the_mouse::grid::decode_tiles;
use trap_the_mouse::protocol::{parse_rooms_reply, Request};
use trap_the_mouse::room::PlayerType;
use trap_the_mouse::state::ServerState;

/// The solo-game reply: JOIN_SUCCESS followed by the 16 room-id bytes.
fn room_id_of_bot_join(e: &Effect) -> u128 {
    assert_eq!(e.bytes[0], 3, "JOIN_SUCCESS opcode");
    assert_eq!(e.bytes.len(), 17);
    let mut idb = [0u8; 16];
    idb.copy_from_slice(&e.bytes[1..17]);
    u128::from_le_bytes(idb)
}

fn start_game_frame(name: &[u8]) -> Vec<u8> {
    let mut f = vec![6u8];
    f.extend((name.len() as u32).to_le_bytes());
    f.extend(name);
    f
}

/// Lobby listing: a freshly seeded server reports its two empty rooms.
#[test]
fn lobby_lists_two_fresh_rooms() {
    let mut state = ServerState::new();
    let uid = state.add_user();
    state.add_room(2);
    state.add_room(2);
    let effects = handle_request_rooms(&state, uid);
    assert_eq!(effects.len(), 1);
    assert_eq!(effects[0].to, uid);
    let rooms = parse_rooms_reply(&effects[0].bytes).expect("well-formed reply");
    assert_eq!(rooms.len(), 2);
    assert_ne!(rooms[0].0, rooms[1].0);
    assert_eq!(rooms[0].1, 0);
    assert_eq!(rooms[1].1, 0);
}

/// Two lobby requests with nothing in between return the same bytes.
#[test]
fn lobby_listing_is_stable() {
    let mut state = ServerState::new();
    let uid = state.add_user();
    state.add_room(2);
    state.add_room(2);
    let first = handle_request_rooms(&state, uid);
    let second = handle_request_rooms(&state, uid);
    assert_eq!(first[0].bytes, second[0].bytes);
}

/// Solo game as the Wall: JOIN_SUCCESS, START_GAME against BOT, YOUR_TURN;
/// a wall turn on an empty cell comes back with YOUR_TURN after the AI moved.
#[test]
fn solo_game_as_wall() {
    let mut state = ServerState::new();
    let uid = state.add_user();
    let effects = handle_command(
        &mut state,
        uid,
        &Request::StartRoomBot { role: PlayerType::Wall, name: b"A".to_vec() },
    );
    assert_eq!(effects.len(), 3);
    assert!(effects.iter().all(|e| e.to == uid));
    let rid = room_id_of_bot_join(&effects[0]);
    assert_eq!(effects[1].bytes, start_game_frame(b"BOT"));
    assert_eq!(effects[2].bytes, vec![9u8]); // YOUR_TURN

    // fetch the board and pick an empty cell for the wall
    let tiles = handle_command(&mut state, uid, &Request::RequestTiles { room_id: rid });
    assert_eq!(tiles.len(), 1);
    let frame = decode_tiles(&tiles[0].bytes).unwrap();
    // the human plays the Wall, so the AI has not moved: the board is still
    // the fresh one — the center Mouse and the five setup Walls
    assert_eq!(frame.triples.len(), 6);
    let mut cells = vec![vec![0u8; 11]; 11];
    for &(y, x, c) in frame.triples.iter() {
        cells[y as usize][x as usize] = c;
    }
    assert_eq!(cells[5][5], 1);
    let mut target = None;
    'outer: for i in 1..10usize {
        for j in 1..10usize {
            // an interior empty cell away from the mouse's row
            if cells[i][j] == 0 && (i as i32 - 5).abs() > 2 {
                target = Some((i, j));
                break 'outer;
            }
        }
    }
    let (ty, tx) = target.unwrap();
    let turn = handle_command(
        &mut state,
        uid,
        &Request::Turn { row: ty as u32, col: tx as u32 },
    );
    // the wall went down, the AI mouse moved one step (it cannot reach the
    // border from the center in one step), and the human is on turn again
    assert_eq!(turn.len(), 1);
    assert_eq!(turn[0].to, uid);
    assert_eq!(turn[0].bytes, vec![9u8]);
}

/// Solo game as the Mouse: the AI Wall makes its opening move — exactly one
/// extra wall is on the board before the human hears YOUR_TURN.
#[test]
fn solo_game_as_mouse_gets_ai_opening_wall() {
    let mut state = ServerState::new();
    let uid = state.add_user();
    let effects = handle_command(
        &mut state,
        uid,
        &Request::StartRoomBot { role: PlayerType::Mouse, name: b"M".to_vec() },
    );
    assert_eq!(effects.len(), 3);
    let rid = room_id_of_bot_join(&effects[0]);
    assert_eq!(effects[1].bytes, start_game_frame(b"BOT"));
    assert_eq!(effects[2].bytes, vec![9u8]); // YOUR_TURN

    let tiles = handle_command(&mut state, uid, &Request::RequestTiles { room_id: rid });
    let frame = decode_tiles(&tiles[0].bytes).unwrap();
    // the center Mouse, the five setup Walls, and the AI's one opening Wall
    assert_eq!(frame.triples.len(), 7);
    let mut cells = vec![vec![0u8; 11]; 11];
    for &(y, x, c) in frame.triples.iter() {
        cells[y as usize][x as usize] = c;
    }
    assert_eq!(cells[5][5], 1, "the Mouse has not moved");
}

/// Versus match start: the second join announces the match; the Wall side
/// hears YOUR_TURN, the Mouse side WAIT_TURN; a vacancy room appears.
#[test]
fn versus_match_start() {
    let mut state = ServerState::new();
    let u1 = state.add_user();
    let u2 = state.add_user();
    let rid = state.add_room(2);

    let first = handle_command(
        &mut state,
        u1,
        &Request::JoinRoom { room_id: rid, role: PlayerType::Wall, name: b"W".to_vec() },
    );
    assert_eq!(first.len(), 1);
    assert_eq!(first[0].to, u1);
    // JOIN_ROOM acknowledges with the opcode alone: no room id follows
    assert_eq!(first[0].bytes, vec![3u8]);

    let second = handle_command(
        &mut state,
        u2,
        &Request::JoinRoom { room_id: rid, role: PlayerType::Mouse, name: b"M".to_vec() },
    );
    assert_eq!(second.len(), 5);
    assert_eq!(second[0].to, u2);
    assert_eq!(second[0].bytes, vec![3u8]);
    // Wall side: START_GAME with the mouse's name, then YOUR_TURN
    assert_eq!(second[1].to, u1);
    assert_eq!(second[1].bytes, start_game_frame(b"M"));
    assert_eq!(second[2].to, u1);
    assert_eq!(second[2].bytes, vec![9u8]);
    // Mouse side: START_GAME with the wall's name, then WAIT_TURN
    assert_eq!(second[3].to, u2);
    assert_eq!(second[3].bytes, start_game_frame(b"W"));
    assert_eq!(second[4].to, u2);
    assert_eq!(second[4].bytes, vec![8u8]);

    // the lobby still offers a vacancy
    let lobby = handle_request_rooms(&state, u1);
    let rooms = parse_rooms_reply(&lobby[0].bytes).unwrap();
    assert_eq!(rooms.len(), 1);
    assert_ne!(rooms[0].0, rid);
    assert_eq!(rooms[0].1, 0);
}

/// Role collision: the second joiner asking for the taken role is refused
/// and the room still holds one participant.
#[test]
fn role_collision_gets_join_fail() {
    let mut state = ServerState::new();
    let u1 = state.add_user();
    let u2 = state.add_user();
    let rid = state.add_room(2);

    let _ = handle_command(
        &mut state,
        u1,
        &Request::JoinRoom { room_id: rid, role: PlayerType::Wall, name: b"W".to_vec() },
    );
    let refused = handle_command(
        &mut state,
        u2,
        &Request::JoinRoom { room_id: rid, role: PlayerType::Wall, name: b"X".to_vec() },
    );
    assert_eq!(refused.len(), 1);
    assert_eq!(refused[0].to, u2);
    assert_eq!(refused[0].bytes, vec![4u8]); // JOIN_FAIL

    let lobby = handle_request_rooms(&state, u1);
    let rooms = parse_rooms_reply(&lobby[0].bytes).unwrap();
    let entry = rooms.iter().find(|&&(id, _)| id == rid).expect("room still open");
    assert_eq!(entry.1, 1);
}

fn decode_cells(bytes: &Vec<u8>) -> Vec<Vec<u8>> {
    let frame = decode_tiles(bytes).unwrap();
    let mut cells = vec![vec![0u8; frame.width as usize]; frame.height as usize];
    for &(y, x, c) in frame.triples.iter() {
        cells[y as usize][x as usize] = c;
    }
    cells
}

fn mouse_of(cells: &[Vec<u8>]) -> (usize, usize) {
    for (i, row) in cells.iter().enumerate() {
        for (j, &c) in row.iter().enumerate() {
            if c == 1 {
                return (i, j);
            }
        }
    }
    panic!("no mouse cell");
}

fn neighbors(i: usize, j: usize) -> Vec<(usize, usize)> {
    let offs: [(i32, i32); 6] = if j % 2 == 0 {
        [(-1, 0), (1, 0), (0, -1), (0, 1), (-1, -1), (-1, 1)]
    } else {
        [(-1, 0), (1, 0), (0, -1), (0, 1), (1, -1), (1, 1)]
    };
    let mut r = Vec::new();
    for (di, dj) in offs {
        let ni = i as i32 + di;
        let nj = j as i32 + dj;
        if ni >= 0 && nj >= 0 && ni < 11 && nj < 11 {
            r.push((ni as usize, nj as usize));
        }
    }
    r
}

/// Set up a versus game and return (state, wall id, mouse id, room id).
fn started_versus() -> (ServerState, u128, u128, u128) {
    let mut state = ServerState::new();
    let u1 = state.add_user();
    let u2 = state.add_user();
    let rid = state.add_room(2);
    let _ = handle_command(
        &mut state,
        u1,
        &Request::JoinRoom { room_id: rid, role: PlayerType::Wall, name: b"W".to_vec() },
    );
    let _ = handle_command(
        &mut state,
        u2,
        &Request::JoinRoom { room_id: rid, role: PlayerType::Mouse, name: b"M".to_vec() },
    );
    (state, u1, u2, rid)
}

/// Mouse escape: moving the mouse along a shortest path, the border step
/// sends both sides GAME_OVER with the final board, and the room vanishes.
#[test]
fn mouse_escape_ends_the_match_for_both() {
    let (mut state, u1, u2, rid) = started_versus();
    loop {
        let tiles = handle_command(&mut state, u2, &Request::RequestTiles { room_id: rid });
        let cells = decode_cells(&tiles[0].bytes);
        let (mi, mj) = mouse_of(&cells);
        // shortest-path step toward an empty border cell
        let mut dist = vec![vec![i32::MAX; 11]; 11];
        let mut queue = std::collections::VecDeque::new();
        for i in 0..11usize {
            for j in 0..11usize {
                if (i == 0 || i == 10 || j == 0 || j == 10) && cells[i][j] == 0 {
                    dist[i][j] = 0;
                    queue.push_back((i, j));
                }
            }
        }
        while let Some((i, j)) = queue.pop_front() {
            for (ni, nj) in neighbors(i, j) {
                if cells[ni][nj] == 0 && dist[ni][nj] == i32::MAX {
                    dist[ni][nj] = dist[i][j] + 1;
                    queue.push_back((ni, nj));
                }
            }
        }
        let (bi, bj) = neighbors(mi, mj)
            .into_iter()
            .filter(|&(i, j)| cells[i][j] == 0)
            .min_by_key(|&(i, j)| dist[i][j])
            .expect("an interior mouse always has an empty neighbor");
        let on_border = bi == 0 || bi == 10 || bj == 0 || bj == 10;
        let effects = handle_command(
            &mut state,
            u2,
            &Request::Turn { row: bi as u32, col: bj as u32 },
        );
        if on_border {
            // both sides hear GAME_OVER with the final board
            assert_eq!(effects.len(), 2);
            assert_eq!(effects[0].to, u2);
            assert_eq!(effects[1].to, u1);
            for e in &effects {
                assert_eq!(e.bytes[0], 10u8);
                let cells = decode_cells(&e.bytes[1..].to_vec());
                assert_eq!(mouse_of(&cells), (bi, bj));
            }
            break;
        } else {
            assert_eq!(effects.len(), 2);
            assert_eq!(effects[0].to, u2);
            assert_eq!(effects[0].bytes, vec![8u8]); // WAIT_TURN to the actor
            assert_eq!(effects[1].to, u1);
            assert_eq!(effects[1].bytes, vec![9u8]); // YOUR_TURN to the opponent
        }
    }
    // the room is gone from the lobby and from direct lookups
    let tiles = handle_command(&mut state, u2, &Request::RequestTiles { room_id: rid });
    assert_eq!(tiles.len(), 0);
    let lobby = handle_request_rooms(&state, u1);
    let rooms = parse_rooms_reply(&lobby[0].bytes).unwrap();
    assert!(rooms.iter().all(|&(id, _)| id != rid));
}

/// An illegal wall placement stays silent and changes nothing.
#[test]
fn bad_turn_is_silent() {
    let (mut state, u1, u2, rid) = started_versus();
    let tiles_before = handle_command(&mut state, u2, &Request::RequestTiles { room_id: rid });
    // the wall player aims at the mouse cell: occupied, so Bad
    let effects = handle_command(&mut state, u1, &Request::Turn { row: 5, col: 5 });
    assert_eq!(effects.len(), 0);
    // coordinates beyond the board are equally silent
    let oob = handle_command(&mut state, u1, &Request::Turn { row: 100, col: 3 });
    assert_eq!(oob.len(), 0);
    let tiles_after = handle_command(&mut state, u2, &Request::RequestTiles { room_id: rid });
    assert_eq!(tiles_before[0].bytes, tiles_after[0].bytes);
}

/// Disconnect mid-game: the remaining side hears GAME_OVER; both the user
/// and the room records disappear.
#[test]
fn disconnect_mid_game_notifies_opponent() {
    let (mut state, u1, u2, rid) = started_versus();
    let effects = disconnect(&mut state, u1);
    assert_eq!(effects.len(), 2);
    assert_eq!(effects[0].to, u1); // best-effort farewell to the leaver
    assert_eq!(effects[1].to, u2);
    assert_eq!(effects[1].bytes[0], 10u8);
    assert!(decode_tiles(&effects[1].bytes[1..].to_vec()).is_some());
    // user and room are gone
    assert_eq!(state.get_user_room(&u1), None);
    assert!(!state.has_user(&u1));
    let tiles = handle_command(&mut state, u2, &Request::RequestTiles { room_id: rid });
    assert_eq!(tiles.len(), 0);
}

/// A disconnect outside any game only drops the user.
#[test]
fn disconnect_without_room_is_quiet() {
    let mut state = ServerState::new();
    let u1 = state.add_user();
    let effects = disconnect(&mut state, u1);
    assert_eq!(effects.len(), 0);
    assert!(!state.has_user(&u1));
}

/// Fresh identifiers differ between registrations.
#[test]
fn fresh_users_get_distinct_ids() {
    let mut state = ServerState::new();
    let u1 = state.add_user();
    let u2 = state.add_user();
    assert_ne!(u1, u2);
    assert!(state.has_user(&u1));
    assert!(state.has_user(&u2));
}

/// Registered names come back; the default is "guest".
#[test]
fn names_are_recorded() {
    let mut state = ServerState::new();
    let uid = state.add_user();
    assert_eq!(state.get_user_name(&uid), Some(b"guest".to_vec()));
    state.set_user_name(&uid, b"mouse fan".to_vec());
    assert_eq!(state.get_user_name(&uid), Some(b"mouse fan".to_vec()));
    assert_eq!(state.get_user_name(&(uid ^ 1)), None);
}
