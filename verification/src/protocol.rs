//! The wire protocol: opcode bytes, request payload parsing on the server
//! side, and frame building on both sides. All integers are little-endian;
//! byte strings carry a u32 length prefix; room and user identifiers cross
//! the wire as 16 raw little-endian bytes.

use vstd::bytes::{
    spec_u128_from_le_bytes, spec_u128_to_le_bytes, spec_u32_from_le_bytes, spec_u32_to_le_bytes,
    u128_from_le_bytes, u128_to_le_bytes, u32_from_le_bytes, u32_to_le_bytes,
};
use vstd::prelude::*;

use crate::room::PlayerType;

verus! {

/// The opcodes, in wire order: each variant's code is its position.
#[derive(PartialEq, Eq, Structural, Clone, Copy, Debug)]
pub enum Protocol {
    RequestRooms,
    StartRoomBot,
    JoinRoom,
    JoinSuccess,
    JoinFail,
    RequestTiles,
    StartGame,
    Turn,
    WaitTurn,
    YourTurn,
    GameOver,
}

impl Protocol {
    /// The opcode byte of this frame kind.
    pub open spec fn spec_opcode(self) -> u8 {
        match self {
            Protocol::RequestRooms => 0,
            Protocol::StartRoomBot => 1,
            Protocol::JoinRoom => 2,
            Protocol::JoinSuccess => 3,
            Protocol::JoinFail => 4,
            Protocol::RequestTiles => 5,
            Protocol::StartGame => 6,
            Protocol::Turn => 7,
            Protocol::WaitTurn => 8,
            Protocol::YourTurn => 9,
            Protocol::GameOver => 10,
        }
    }

    pub fn opcode(self) -> (r: u8)
        ensures
            r == self.spec_opcode(),
    {
        match self {
            Protocol::RequestRooms => 0,
            Protocol::StartRoomBot => 1,
            Protocol::JoinRoom => 2,
            Protocol::JoinSuccess => 3,
            Protocol::JoinFail => 4,
            Protocol::RequestTiles => 5,
            Protocol::StartGame => 6,
            Protocol::Turn => 7,
            Protocol::WaitTurn => 8,
            Protocol::YourTurn => 9,
            Protocol::GameOver => 10,
        }
    }
}

/// The asynchronous notifications a client can find on its stream.
#[derive(PartialEq, Eq, Structural, Clone, Copy, Debug)]
pub enum Update {
    Nothing,
    StartGame,
    YourTurn,
    WaitTurn,
    GameOver,
}

/// The client-side error kinds.
#[derive(PartialEq, Eq, Structural, Clone, Copy, Debug)]
pub enum ClientErr {
    InvalidUsername,
    JoinFail,
    IO,
}

/// The server-side error kinds. Either ends the connection it arose on.
#[derive(PartialEq, Eq, Structural, Clone, Copy, Debug)]
pub enum ServerErr {
    UnknownCommand,
    IO,
}

/// The role a wire role code stands for: 0 is Mouse, anything else Wall.
pub open spec fn spec_role_of_byte(b: u8) -> PlayerType {
    if b == 0 {
        PlayerType::Mouse
    } else {
        PlayerType::Wall
    }
}

/// The wire code of a role.
pub open spec fn spec_role_code(t: PlayerType) -> u8 {
    match t {
        PlayerType::Mouse => 0,
        PlayerType::Wall => 1,
    }
}

pub fn role_of_byte(b: u8) -> (r: PlayerType)
    ensures
        r == spec_role_of_byte(b),
{
    if b == 0 {
        PlayerType::Mouse
    } else {
        PlayerType::Wall
    }
}

pub fn role_code(t: PlayerType) -> (r: u8)
    ensures
        r == spec_role_code(t),
{
    match t {
        PlayerType::Mouse => 0,
        PlayerType::Wall => 1,
    }
}

/// Relies on core::str::from_utf8, which succeeds exactly on valid UTF-8
/// (vstd's `valid_utf8` is its byte-level statement of that grammar).
#[verifier::external_body]
fn is_utf8(b: &[u8]) -> (r: bool)
    ensures
        r == vstd::utf8::valid_utf8(b@),
{
    core::str::from_utf8(b).is_ok()
}

/// One parsed client command.
pub enum Request {
    RequestRooms,
    StartRoomBot { role: PlayerType, name: Vec<u8> },
    JoinRoom { room_id: u128, role: PlayerType, name: Vec<u8> },
    RequestTiles { room_id: u128 },
    Turn { row: u32, col: u32 },
}

/// The payload shape of a request opcode: how many fixed bytes it carries,
/// and whether a length-prefixed name follows them. Nothing for an opcode
/// that is not a request.
pub open spec fn spec_request_shape(op: u8) -> Option<(usize, bool)> {
    if op == Protocol::RequestRooms.spec_opcode() {
        Some((0usize, false))
    } else if op == Protocol::StartRoomBot.spec_opcode() {
        Some((1usize, true))
    } else if op == Protocol::JoinRoom.spec_opcode() {
        Some((17usize, true))
    } else if op == Protocol::RequestTiles.spec_opcode() {
        Some((16usize, false))
    } else if op == Protocol::Turn.spec_opcode() {
        Some((8usize, false))
    } else {
        None
    }
}

/// The payload shape of a request opcode; see `spec_request_shape`.
pub fn request_shape(op: u8) -> (r: Option<(usize, bool)>)
    ensures
        r == spec_request_shape(op),
{
    if op == 0 {
        Some((0, false))
    } else if op == 1 {
        Some((1, true))
    } else if op == 2 {
        Some((17, true))
    } else if op == 5 {
        Some((16, false))
    } else if op == 7 {
        Some((8, false))
    } else {
        None
    }
}

/// Whether `b` is a well-formed payload for the request opcode `op`: the
/// right size for its shape, the length prefix consistent, the name valid
/// UTF-8.
pub open spec fn spec_request_ok(op: u8, b: Seq<u8>) -> bool {
    if op == Protocol::RequestRooms.spec_opcode() {
        b.len() == 0
    } else if op == Protocol::StartRoomBot.spec_opcode() {
        &&& b.len() >= 5
        &&& b.len() == 5 + spec_u32_from_le_bytes(b.subrange(1, 5))
        &&& vstd::utf8::valid_utf8(b.subrange(5, b.len() as int))
    } else if op == Protocol::JoinRoom.spec_opcode() {
        &&& b.len() >= 21
        &&& b.len() == 21 + spec_u32_from_le_bytes(b.subrange(17, 21))
        &&& vstd::utf8::valid_utf8(b.subrange(21, b.len() as int))
    } else if op == Protocol::RequestTiles.spec_opcode() {
        b.len() == 16
    } else if op == Protocol::Turn.spec_opcode() {
        b.len() == 8
    } else {
        false
    }
}

/// Which command a well-formed `(op, b)` pair parses to.
pub open spec fn request_matches(op: u8, b: Seq<u8>, req: Request) -> bool {
    match req {
        Request::RequestRooms => op == Protocol::RequestRooms.spec_opcode(),
        Request::StartRoomBot { role, name } => {
            &&& op == Protocol::StartRoomBot.spec_opcode()
            &&& role == spec_role_of_byte(b[0])
            &&& name@ == b.subrange(5, b.len() as int)
        },
        Request::JoinRoom { room_id, role, name } => {
            &&& op == Protocol::JoinRoom.spec_opcode()
            &&& room_id == spec_u128_from_le_bytes(b.subrange(0, 16))
            &&& role == spec_role_of_byte(b[16])
            &&& name@ == b.subrange(21, b.len() as int)
        },
        Request::RequestTiles { room_id } => {
            &&& op == Protocol::RequestTiles.spec_opcode()
            &&& room_id == spec_u128_from_le_bytes(b.subrange(0, 16))
        },
        Request::Turn { row, col } => {
            &&& op == Protocol::Turn.spec_opcode()
            &&& row == spec_u32_from_le_bytes(b.subrange(0, 4))
            &&& col == spec_u32_from_le_bytes(b.subrange(4, 8))
        },
    }
}

/// Copy the `len` bytes at `off`.
fn bytes_at(b: &Vec<u8>, off: usize, len: usize) -> (r: Vec<u8>)
    requires
        off + len <= b.len(),
    ensures
        r@ == b@.subrange(off as int, off as int + len as int),
{
    let mut r: Vec<u8> = Vec::new();
    let mut i: usize = 0;
    while i < len
        invariant
            i <= len,
            off + len <= b.len(),
            r@.len() == i,
            forall|m: int| 0 <= m < i ==> #[trigger] r@[m] == b@[off + m],
        decreases len - i,
    {
        r.push(b[off + i]);
        i += 1;
    }
    proof {
        assert(r@ =~= b@.subrange(off as int, off as int + len as int));
    }
    r
}

/// Read the four little-endian bytes at `off` as a u32.
fn u32_at(b: &Vec<u8>, off: usize) -> (r: u32)
    requires
        off + 4 <= b.len(),
    ensures
        r == spec_u32_from_le_bytes(b@.subrange(off as int, off as int + 4)),
{
    let chunk = bytes_at(b, off, 4);
    u32_from_le_bytes(chunk.as_slice())
}

/// Read the sixteen little-endian bytes at `off` as a u128.
fn u128_at(b: &Vec<u8>, off: usize) -> (r: u128)
    requires
        off + 16 <= b.len(),
    ensures
        r == spec_u128_from_le_bytes(b@.subrange(off as int, off as int + 16)),
{
    let chunk = bytes_at(b, off, 16);
    u128_from_le_bytes(chunk.as_slice())
}

/// Parse one request from its opcode byte and complete payload. Unknown
/// opcodes and malformed payloads — a length prefix that disagrees with the
/// payload size, or a name that is not valid UTF-8 — fail, which ends the
/// connection they arrived on.
pub fn parse_request(op: u8, payload: &Vec<u8>) -> (r: Result<Request, ServerErr>)
    ensures
        r is Ok <==> spec_request_ok(op, payload@),
        r matches Ok(req) ==> request_matches(op, payload@, req),
        r matches Err(e) ==> e == ServerErr::UnknownCommand,
{
    if op == 0 {
        if payload.len() == 0 {
            Ok(Request::RequestRooms)
        } else {
            Err(ServerErr::UnknownCommand)
        }
    } else if op == 1 {
        if payload.len() < 5 {
            return Err(ServerErr::UnknownCommand);
        }
        let n = u32_at(payload, 1);
        if (payload.len() as u64) != 5 + (n as u64) {
            return Err(ServerErr::UnknownCommand);
        }
        let name = bytes_at(payload, 5, payload.len() - 5);
        if !is_utf8(name.as_slice()) {
            return Err(ServerErr::UnknownCommand);
        }
        let role = role_of_byte(payload[0]);
        Ok(Request::StartRoomBot { role, name })
    } else if op == 2 {
        if payload.len() < 21 {
            return Err(ServerErr::UnknownCommand);
        }
        let n = u32_at(payload, 17);
        if (payload.len() as u64) != 21 + (n as u64) {
            return Err(ServerErr::UnknownCommand);
        }
        let name = bytes_at(payload, 21, payload.len() - 21);
        if !is_utf8(name.as_slice()) {
            return Err(ServerErr::UnknownCommand);
        }
        let room_id = u128_at(payload, 0);
        let role = role_of_byte(payload[16]);
        Ok(Request::JoinRoom { room_id, role, name })
    } else if op == 5 {
        if payload.len() != 16 {
            return Err(ServerErr::UnknownCommand);
        }
        let room_id = u128_at(payload, 0);
        Ok(Request::RequestTiles { room_id })
    } else if op == 7 {
        if payload.len() != 8 {
            return Err(ServerErr::UnknownCommand);
        }
        let row = u32_at(payload, 0);
        let col = u32_at(payload, 4);
        Ok(Request::Turn { row, col })
    } else {
        Err(ServerErr::UnknownCommand)
    }
}

/// A frame that is an opcode alone (JoinFail, YourTurn, WaitTurn).
pub fn encode_opcode(p: Protocol) -> (r: Vec<u8>)
    ensures
        r@ == seq![p.spec_opcode()],
{
    let mut r: Vec<u8> = Vec::new();
    r.push(p.opcode());
    proof {
        assert(r@ =~= seq![p.spec_opcode()]);
    }
    r
}

/// The JOIN_SUCCESS frame: opcode, then the 16 identifier bytes.
pub fn encode_join_success(room_id: u128) -> (r: Vec<u8>)
    ensures
        r@ == seq![Protocol::JoinSuccess.spec_opcode()] + spec_u128_to_le_bytes(room_id),
{
    let mut r = encode_opcode(Protocol::JoinSuccess);
    let mut idb = u128_to_le_bytes(room_id);
    r.append(&mut idb);
    r
}

/// The START_GAME frame: opcode, then the length-prefixed opponent name.
pub fn encode_start_game(name: &Vec<u8>) -> (r: Vec<u8>)
    requires
        name@.len() <= u32::MAX,
    ensures
        r@ == seq![Protocol::StartGame.spec_opcode()] + spec_u32_to_le_bytes(name@.len() as u32)
            + name@,
{
    let mut r = encode_opcode(Protocol::StartGame);
    let mut lenb = u32_to_le_bytes(name.len() as u32);
    r.append(&mut lenb);
    let mut nm = name.clone();
    proof {
        assert(nm@ =~= name@);
    }
    r.append(&mut nm);
    r
}

/// The GAME_OVER frame: opcode, then the final board in wire form.
pub fn encode_game_over(grid_bytes: &Vec<u8>) -> (r: Vec<u8>)
    ensures
        r@ == seq![Protocol::GameOver.spec_opcode()] + grid_bytes@,
{
    let mut r = encode_opcode(Protocol::GameOver);
    let mut g = grid_bytes.clone();
    proof {
        assert(g@ =~= grid_bytes@);
    }
    r.append(&mut g);
    r
}

/// The lobby entries flattened to bytes: 16 identifier bytes and one count
/// byte per room.
pub open spec fn rooms_entry_bytes(rs: Seq<(u128, u8)>) -> Seq<u8>
    decreases rs.len(),
{
    if rs.len() == 0 {
        Seq::empty()
    } else {
        rooms_entry_bytes(rs.drop_last()) + spec_u128_to_le_bytes(rs.last().0) + seq![
            rs.last().1,
        ]
    }
}

/// The reply to REQUEST_ROOMS: the entry count, then the entries. It carries
/// no opcode of its own.
pub open spec fn spec_rooms_reply(rs: Seq<(u128, u8)>) -> Seq<u8> {
    spec_u32_to_le_bytes(rs.len() as u32) + rooms_entry_bytes(rs)
}

/// Each lobby entry occupies the seventeen bytes at its own offset.
pub proof fn lemma_rooms_entry_bytes_index(rs: Seq<(u128, u8)>, k: int)
    requires
        0 <= k < rs.len(),
    ensures
        rooms_entry_bytes(rs).len() == 17 * rs.len(),
        rooms_entry_bytes(rs).subrange(17 * k, 17 * k + 16) == spec_u128_to_le_bytes(rs[k].0),
        rooms_entry_bytes(rs)[17 * k + 16] == rs[k].1,
    decreases rs.len(),
{
    vstd::bytes::lemma_auto_spec_u128_to_from_le_bytes();
    lemma_rooms_entry_bytes_len(rs.drop_last());
    if k < rs.len() - 1 {
        lemma_rooms_entry_bytes_index(rs.drop_last(), k);
        assert(rooms_entry_bytes(rs).subrange(17 * k, 17 * k + 16) =~= rooms_entry_bytes(
            rs.drop_last(),
        ).subrange(17 * k, 17 * k + 16));
    } else {
        assert(rooms_entry_bytes(rs).subrange(17 * k, 17 * k + 16) =~= spec_u128_to_le_bytes(
            rs[k].0,
        ));
    }
}

/// Flattened lobby entries take seventeen bytes each.
pub proof fn lemma_rooms_entry_bytes_len(rs: Seq<(u128, u8)>)
    ensures
        rooms_entry_bytes(rs).len() == 17 * rs.len(),
    decreases rs.len(),
{
    vstd::bytes::lemma_auto_spec_u128_to_from_le_bytes();
    if rs.len() > 0 {
        lemma_rooms_entry_bytes_len(rs.drop_last());
    }
}

/// Build the REQUEST_ROOMS reply from the lobby listing.
pub fn encode_rooms_reply(rooms: &Vec<(u128, u8)>) -> (r: Vec<u8>)
    requires
        rooms@.len() <= u32::MAX,
    ensures
        r@ == spec_rooms_reply(rooms@),
{
    let mut r = u32_to_le_bytes(rooms.len() as u32);
    let mut i: usize = 0;
    while i < rooms.len()
        invariant
            i <= rooms@.len(),
            r@ == spec_u32_to_le_bytes(rooms@.len() as u32) + rooms_entry_bytes(
                rooms@.take(i as int),
            ),
        decreases rooms@.len() - i,
    {
        let mut idb = u128_to_le_bytes(rooms[i].0);
        r.append(&mut idb);
        r.push(rooms[i].1);
        proof {
            assert(rooms@.take(i as int + 1).drop_last() =~= rooms@.take(i as int));
            assert(rooms@.take(i as int + 1).last() == rooms@[i as int]);
            assert(r@ =~= spec_u32_to_le_bytes(rooms@.len() as u32) + rooms_entry_bytes(
                rooms@.take(i as int + 1),
            ));
        }
        i += 1;
    }
    proof {
        assert(rooms@.take(rooms@.len() as int) =~= rooms@);
    }
    r
}

/// What parsing a REQUEST_ROOMS reply yields: the lobby entries, or nothing
/// when the byte count cannot hold the announced count.
pub open spec fn spec_parse_rooms_reply(b: Seq<u8>) -> Option<Seq<(u128, u8)>> {
    if b.len() < 4 {
        None
    } else {
        let n = spec_u32_from_le_bytes(b.subrange(0, 4)) as int;
        if b.len() != 4 + 17 * n {
            None
        } else {
            Some(
                Seq::new(
                    n as nat,
                    |k: int|
                        (
                            spec_u128_from_le_bytes(b.subrange(4 + 17 * k, 4 + 17 * k + 16)),
                            b[4 + 17 * k + 16],
                        ),
                ),
            )
        }
    }
}

/// Parse a REQUEST_ROOMS reply, as the client lobby does.
pub fn parse_rooms_reply(bytes: &Vec<u8>) -> (r: Option<Vec<(u128, u8)>>)
    ensures
        r is Some <==> spec_parse_rooms_reply(bytes@) is Some,
        r matches Some(v) ==> spec_parse_rooms_reply(bytes@) == Some(v@),
{
    let blen = bytes.len();
    if blen < 4 {
        return None;
    }
    let n = u32_at(bytes, 0);
    if ((blen as u64) - 4) != 17 * (n as u64) {
        return None;
    }
    let n_us = n as usize;
    let mut v: Vec<(u128, u8)> = Vec::new();
    let mut k: usize = 0;
    while k < n_us
        invariant
            k <= n_us,
            4 + 17 * (n_us as int) == blen,
            blen == bytes@.len(),
            v@.len() == k,
            forall|m: int|
                0 <= m < k ==> #[trigger] v@[m] == (
                    spec_u128_from_le_bytes(bytes@.subrange(4 + 17 * m, 4 + 17 * m + 16)),
                    bytes@[4 + 17 * m + 16],
                ),
        decreases n_us - k,
    {
        let off = 4 + 17 * k;
        let id = u128_at(bytes, off);
        let count = bytes[off + 16];
        v.push((id, count));
        k += 1;
    }
    proof {
        let n_int = n as int;
        assert(v@ =~= Seq::new(
            n_int as nat,
            |k: int|
                (
                    spec_u128_from_le_bytes(bytes@.subrange(4 + 17 * k, 4 + 17 * k + 16)),
                    bytes@[4 + 17 * k + 16],
                ),
        ));
    }
    Some(v)
}

/// A lobby listing round-trips: parsing the encoded reply gives back the
/// same identifiers and counts.
pub proof fn lemma_rooms_reply_round_trip(rs: Seq<(u128, u8)>)
    requires
        rs.len() <= u32::MAX,
    ensures
        spec_parse_rooms_reply(spec_rooms_reply(rs)) == Some(rs),
{
    vstd::bytes::lemma_auto_spec_u32_to_from_le_bytes();
    vstd::bytes::lemma_auto_spec_u128_to_from_le_bytes();
    lemma_rooms_entry_bytes_len(rs);
    let b = spec_rooms_reply(rs);
    assert(b.subrange(0, 4) =~= spec_u32_to_le_bytes(rs.len() as u32));
    assert(b.len() == 4 + 17 * rs.len());
    let parsed = spec_parse_rooms_reply(b);
    assert forall|k: int| 0 <= k < rs.len() implies parsed->Some_0[k] == rs[k] by {
        lemma_rooms_entry_bytes_index(rs, k);
        assert(b.subrange(4 + 17 * k, 4 + 17 * k + 16) =~= rooms_entry_bytes(rs).subrange(
            17 * k,
            17 * k + 16,
        ));
        assert(b[4 + 17 * k + 16] == rooms_entry_bytes(rs)[17 * k + 16]);
    }
    assert(parsed->Some_0 =~= rs);
}

/// The update a pushed opcode byte announces; anything else is quiet.
pub open spec fn spec_update_of(op: u8) -> Update {
    if op == Protocol::StartGame.spec_opcode() {
        Update::StartGame
    } else if op == Protocol::YourTurn.spec_opcode() {
        Update::YourTurn
    } else if op == Protocol::WaitTurn.spec_opcode() {
        Update::WaitTurn
    } else if op == Protocol::GameOver.spec_opcode() {
        Update::GameOver
    } else {
        Update::Nothing
    }
}

/// Classify a pushed opcode byte, as the client's update poll does.
pub fn update_of(op: u8) -> (r: Update)
    ensures
        r == spec_update_of(op),
{
    if op == 6 {
        Update::StartGame
    } else if op == 9 {
        Update::YourTurn
    } else if op == 8 {
        Update::WaitTurn
    } else if op == 10 {
        Update::GameOver
    } else {
        Update::Nothing
    }
}

/// The client frame asking for the lobby listing.
pub fn encode_request_rooms() -> (r: Vec<u8>)
    ensures
        r@ == seq![Protocol::RequestRooms.spec_opcode()],
{
    encode_opcode(Protocol::RequestRooms)
}

/// The client frame starting a solo game: opcode, role code, length-prefixed
/// username. An empty username is rejected before anything is sent.
pub fn encode_start_room_bot(role: PlayerType, name: &Vec<u8>) -> (r: Result<Vec<u8>, ClientErr>)
    requires
        name@.len() <= u32::MAX,
    ensures
        r is Ok <==> name@.len() > 0,
        r matches Ok(f) ==> f@ == seq![Protocol::StartRoomBot.spec_opcode(), spec_role_code(role)]
            + spec_u32_to_le_bytes(name@.len() as u32) + name@,
        r matches Err(e) ==> e == ClientErr::InvalidUsername,
{
    if name.len() == 0 {
        return Err(ClientErr::InvalidUsername);
    }
    let mut f = encode_opcode(Protocol::StartRoomBot);
    f.push(role_code(role));
    let mut lenb = u32_to_le_bytes(name.len() as u32);
    f.append(&mut lenb);
    let mut nm = name.clone();
    proof {
        assert(nm@ =~= name@);
    }
    f.append(&mut nm);
    proof {
        assert(f@ =~= seq![Protocol::StartRoomBot.spec_opcode(), spec_role_code(role)]
            + spec_u32_to_le_bytes(name@.len() as u32) + name@);
    }
    Ok(f)
}

/// The client frame joining a room: opcode, the 16 identifier bytes, role
/// code, length-prefixed username. An empty username is rejected before
/// anything is sent.
pub fn encode_join_room(room_id: u128, role: PlayerType, name: &Vec<u8>) -> (r: Result<
    Vec<u8>,
    ClientErr,
>)
    requires
        name@.len() <= u32::MAX,
    ensures
        r is Ok <==> name@.len() > 0,
        r matches Ok(f) ==> f@ == seq![Protocol::JoinRoom.spec_opcode()] + spec_u128_to_le_bytes(
            room_id,
        ) + seq![spec_role_code(role)] + spec_u32_to_le_bytes(name@.len() as u32) + name@,
        r matches Err(e) ==> e == ClientErr::InvalidUsername,
{
    if name.len() == 0 {
        return Err(ClientErr::InvalidUsername);
    }
    let mut f = encode_opcode(Protocol::JoinRoom);
    let mut idb = u128_to_le_bytes(room_id);
    f.append(&mut idb);
    f.push(role_code(role));
    let mut lenb = u32_to_le_bytes(name.len() as u32);
    f.append(&mut lenb);
    let mut nm = name.clone();
    proof {
        assert(nm@ =~= name@);
    }
    f.append(&mut nm);
    proof {
        assert(f@ =~= seq![Protocol::JoinRoom.spec_opcode()] + spec_u128_to_le_bytes(room_id)
            + seq![spec_role_code(role)] + spec_u32_to_le_bytes(name@.len() as u32) + name@);
    }
    Ok(f)
}

/// The client frame asking for a board redraw.
pub fn encode_request_tiles(room_id: u128) -> (r: Vec<u8>)
    ensures
        r@ == seq![Protocol::RequestTiles.spec_opcode()] + spec_u128_to_le_bytes(room_id),
{
    let mut f = encode_opcode(Protocol::RequestTiles);
    let mut idb = u128_to_le_bytes(room_id);
    f.append(&mut idb);
    f
}

/// The client frame playing one turn at `(row, col)`.
pub fn encode_turn(row: u32, col: u32) -> (r: Vec<u8>)
    ensures
        r@ == seq![Protocol::Turn.spec_opcode()] + spec_u32_to_le_bytes(row)
            + spec_u32_to_le_bytes(col),
{
    let mut f = encode_opcode(Protocol::Turn);
    let mut rb = u32_to_le_bytes(row);
    f.append(&mut rb);
    let mut cb = u32_to_le_bytes(col);
    f.append(&mut cb);
    f
}

} // verus!
