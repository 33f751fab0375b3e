//! The wire protocol: frame building on the client side, request parsing on
//! the server side, and the update classifier.

use trap_the_mouse::protocol::{
    encode_join_room, encode_request_rooms, encode_request_tiles, encode_rooms_reply,
    encode_start_room_bot, encode_turn, parse_request, parse_rooms_reply, request_shape,
    update_of, ClientErr, Request, ServerErr, Update,
};
use trap_the_mouse::room::PlayerType;

#[test]
fn client_frames_have_the_documented_shape() {
    assert_eq!(encode_request_rooms(), vec![0u8]);

    let f = encode_start_room_bot(PlayerType::Wall, &b"A".to_vec()).unwrap();
    assert_eq!(f, vec![1u8, 1, 1, 0, 0, 0, b'A']);

    let f = encode_join_room(7, PlayerType::Mouse, &b"Mo".to_vec()).unwrap();
    let mut expected = vec![2u8];
    expected.extend(7u128.to_le_bytes());
    expected.push(0); // Mouse role code
    expected.extend(2u32.to_le_bytes());
    expected.extend(b"Mo");
    assert_eq!(f, expected);

    let f = encode_request_tiles(9);
    let mut expected = vec![5u8];
    expected.extend(9u128.to_le_bytes());
    assert_eq!(f, expected);

    assert_eq!(encode_turn(5, 6), vec![7u8, 5, 0, 0, 0, 6, 0, 0, 0]);
}

#[test]
fn empty_usernames_are_rejected_client_side() {
    assert_eq!(
        encode_start_room_bot(PlayerType::Wall, &Vec::new()),
        Err(ClientErr::InvalidUsername)
    );
    assert_eq!(
        encode_join_room(1, PlayerType::Wall, &Vec::new()),
        Err(ClientErr::InvalidUsername)
    );
}

#[test]
fn request_parsing_mirrors_the_client_frames() {
    // START_ROOM_BOT: role byte, length-prefixed name
    let frame = encode_start_room_bot(PlayerType::Wall, &b"A".to_vec()).unwrap();
    let payload = frame[1..].to_vec();
    match parse_request(frame[0], &payload) {
        Ok(Request::StartRoomBot { role, name }) => {
            assert_eq!(role, PlayerType::Wall);
            assert_eq!(name, b"A".to_vec());
        }
        _ => panic!("expected a bot-game request"),
    }

    // JOIN_ROOM: 16 id bytes, role byte, length-prefixed name
    let frame = encode_join_room(77, PlayerType::Mouse, &b"Mo".to_vec()).unwrap();
    let payload = frame[1..].to_vec();
    match parse_request(frame[0], &payload) {
        Ok(Request::JoinRoom { room_id, role, name }) => {
            assert_eq!(room_id, 77);
            assert_eq!(role, PlayerType::Mouse);
            assert_eq!(name, b"Mo".to_vec());
        }
        _ => panic!("expected a join request"),
    }

    // TURN: two little-endian u32 coordinates
    match parse_request(7, &vec![5, 0, 0, 0, 6, 0, 0, 0]) {
        Ok(Request::Turn { row, col }) => {
            assert_eq!((row, col), (5, 6));
        }
        _ => panic!("expected a turn request"),
    }

    // REQUEST_ROOMS has no payload
    assert!(matches!(parse_request(0, &Vec::new()), Ok(Request::RequestRooms)));
}

#[test]
fn bad_frames_are_refused() {
    // unknown opcodes end the connection with the unknown-command error
    match parse_request(9, &Vec::new()) {
        Err(e) => assert_eq!(e, ServerErr::UnknownCommand),
        Ok(_) => panic!("a reply opcode is no request"),
    }
    assert!(parse_request(42, &Vec::new()).is_err());
    // length prefix disagreeing with the payload
    assert!(parse_request(1, &vec![1, 5, 0, 0, 0, b'A']).is_err());
    // a name that is not valid UTF-8
    assert!(parse_request(1, &vec![1, 1, 0, 0, 0, 0xFF]).is_err());
    // the same name bytes pass when they are valid UTF-8
    assert!(parse_request(1, &vec![1, 1, 0, 0, 0, b'A']).is_ok());
    // trailing garbage on a fixed-size payload
    assert!(parse_request(7, &vec![0; 9]).is_err());
}

#[test]
fn rooms_reply_round_trips() {
    let rooms = vec![(1u128, 0u8), (u128::MAX, 1u8), (42u128, 2u8)];
    let bytes = encode_rooms_reply(&rooms);
    assert_eq!(parse_rooms_reply(&bytes), Some(rooms));
    assert_eq!(parse_rooms_reply(&encode_rooms_reply(&Vec::new())), Some(Vec::new()));
    // a truncated reply is refused
    let mut bytes = encode_rooms_reply(&vec![(1u128, 0u8)]);
    bytes.pop();
    assert_eq!(parse_rooms_reply(&bytes), None);
}

#[test]
fn pushed_opcodes_classify_as_updates() {
    assert_eq!(update_of(6), Update::StartGame);
    assert_eq!(update_of(9), Update::YourTurn);
    assert_eq!(update_of(8), Update::WaitTurn);
    assert_eq!(update_of(10), Update::GameOver);
    assert_eq!(update_of(0), Update::Nothing);
    assert_eq!(update_of(200), Update::Nothing);
}

#[test]
fn request_shapes_match_the_table() {
    assert_eq!(request_shape(0), Some((0, false)));
    assert_eq!(request_shape(1), Some((1, true)));
    assert_eq!(request_shape(2), Some((17, true)));
    assert_eq!(request_shape(5), Some((16, false)));
    assert_eq!(request_shape(7), Some((8, false)));
    assert_eq!(request_shape(3), None);
    assert_eq!(request_shape(99), None);
}
