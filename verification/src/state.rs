//! The shared server registry: connected users and active rooms, both keyed
//! by opaque 128-bit identifiers. The two tables are association lists with
//! unique keys, kept in insertion order.

use vstd::prelude::*;

use crate::room::{spec_default_board, Room};

verus! {

/// The value the first pair with key `id` carries, if any.
pub open spec fn lookup<T>(s: Seq<(u128, T)>, id: u128) -> Option<T>
    decreases s.len(),
{
    if s.len() == 0 {
        None
    } else if s[0].0 == id {
        Some(s[0].1)
    } else {
        lookup(s.drop_first(), id)
    }
}

/// No two pairs share a key.
pub open spec fn unique_keys<T>(s: Seq<(u128, T)>) -> bool {
    forall|i: int, j: int|
        0 <= i < j < s.len() ==> (#[trigger] s[i]).0 != (#[trigger] s[j]).0
}

/// With unique keys, looking up the key of the `i`-th pair finds that pair.
pub proof fn lemma_lookup_at<T>(s: Seq<(u128, T)>, i: int)
    requires
        unique_keys(s),
        0 <= i < s.len(),
    ensures
        lookup(s, s[i].0) == Some(s[i].1),
    decreases s.len(),
{
    if i > 0 {
        assert(s[0].0 != s[i].0);
        assert(unique_keys(s.drop_first())) by {
            assert forall|a: int, b: int|
                0 <= a < b < s.drop_first().len() implies (#[trigger] s.drop_first()[a]).0
                != (#[trigger] s.drop_first()[b]).0 by {
                assert(s.drop_first()[a] == s[a + 1]);
                assert(s.drop_first()[b] == s[b + 1]);
            }
        }
        assert(s.drop_first()[i - 1] == s[i]);
        lemma_lookup_at(s.drop_first(), i - 1);
    }
}

/// A key carried by no pair looks up to nothing.
pub proof fn lemma_lookup_absent<T>(s: Seq<(u128, T)>, id: u128)
    requires
        forall|i: int| 0 <= i < s.len() ==> (#[trigger] s[i]).0 != id,
    ensures
        lookup(s, id) == None::<T>,
    decreases s.len(),
{
    if s.len() > 0 {
        assert(forall|i: int|
            0 <= i < s.drop_first().len() ==> (#[trigger] s.drop_first()[i]).0 != id);
        lemma_lookup_absent(s.drop_first(), id);
    }
}

/// Appending a pair leaves every present key at its old value and binds the
/// new key when it was absent.
pub proof fn lemma_lookup_push<T>(s: Seq<(u128, T)>, id: u128, v: T, k: u128)
    ensures
        lookup(s.push((id, v)), k) == if lookup(s, k) is Some {
            lookup(s, k)
        } else if k == id {
            Some(v)
        } else {
            None::<T>
        },
    decreases s.len(),
{
    if s.len() == 0 {
        assert(s.push((id, v)).drop_first() =~= s);
    } else {
        assert(s.push((id, v)).drop_first() =~= s.drop_first().push((id, v)));
        lemma_lookup_push(s.drop_first(), id, v, k);
    }
}

/// Replacing the value of the `i`-th pair rebinds only its key.
pub proof fn lemma_lookup_update<T>(s: Seq<(u128, T)>, i: int, v: T, k: u128)
    requires
        unique_keys(s),
        0 <= i < s.len(),
    ensures
        lookup(s.update(i, (s[i].0, v)), k) == if k == s[i].0 {
            Some(v)
        } else {
            lookup(s, k)
        },
        unique_keys(s.update(i, (s[i].0, v))),
    decreases s.len(),
{
    let s2 = s.update(i, (s[i].0, v));
    assert forall|a: int, b: int|
        0 <= a < b < s2.len() implies (#[trigger] s2[a]).0 != (#[trigger] s2[b]).0 by {
        assert(s[a].0 != s[b].0);
    }
    if i == 0 {
        assert(s2[0] == (s[0].0, v));
        if k != s[0].0 {
            assert(s2.drop_first() =~= s.drop_first());
        }
    } else {
        assert(s2[0] == s[0]);
        if k == s[i].0 {
            assert(s[0].0 != s[i].0);
        }
        assert(unique_keys(s.drop_first())) by {
            assert forall|a: int, b: int|
                0 <= a < b < s.drop_first().len() implies (#[trigger] s.drop_first()[a]).0
                != (#[trigger] s.drop_first()[b]).0 by {
                assert(s.drop_first()[a] == s[a + 1]);
                assert(s.drop_first()[b] == s[b + 1]);
            }
        }
        assert(s2.drop_first() =~= s.drop_first().update(i - 1, (s.drop_first()[i - 1].0, v)));
        lemma_lookup_update(s.drop_first(), i - 1, v, k);
    }
}

/// Removing the `i`-th pair unbinds only its key.
pub proof fn lemma_lookup_remove<T>(s: Seq<(u128, T)>, i: int, k: u128)
    requires
        unique_keys(s),
        0 <= i < s.len(),
    ensures
        lookup(s.remove(i), k) == if k == s[i].0 {
            None::<T>
        } else {
            lookup(s, k)
        },
        unique_keys(s.remove(i)),
    decreases s.len(),
{
    let s2 = s.remove(i);
    assert forall|a: int, b: int|
        0 <= a < b < s2.len() implies (#[trigger] s2[a]).0 != (#[trigger] s2[b]).0 by {
        let a0 = if a < i {
            a
        } else {
            a + 1
        };
        let b0 = if b < i {
            b
        } else {
            b + 1
        };
        assert(s2[a] == s[a0]);
        assert(s2[b] == s[b0]);
    }
    assert(unique_keys(s.drop_first())) by {
        assert forall|a: int, b: int|
            0 <= a < b < s.drop_first().len() implies (#[trigger] s.drop_first()[a]).0
            != (#[trigger] s.drop_first()[b]).0 by {
            assert(s.drop_first()[a] == s[a + 1]);
            assert(s.drop_first()[b] == s[b + 1]);
        }
    }
    if i == 0 {
        assert(s2 =~= s.drop_first());
        if k == s[0].0 {
            assert forall|m: int| 0 <= m < s2.len() implies (#[trigger] s2[m]).0 != k by {
                assert(s2[m] == s[m + 1]);
            }
            lemma_lookup_absent(s2, k);
        }
    } else {
        assert(s2[0] == s[0]);
        if k == s[i].0 {
            assert(s[0].0 != s[i].0);
        }
        assert(s2.drop_first() =~= s.drop_first().remove(i - 1));
        lemma_lookup_remove(s.drop_first(), i - 1, k);
    }
}

/// The position of the first pair with key `id`.
pub fn find_index<T>(v: &Vec<(u128, T)>, id: &u128) -> (r: Option<usize>)
    ensures
        match r {
            Some(i) => i < v@.len() && v@[i as int].0 == id,
            None => forall|i: int| 0 <= i < v@.len() ==> (#[trigger] v@[i]).0 != id,
        },
{
    let mut i: usize = 0;
    while i < v.len()
        invariant
            i <= v@.len(),
            forall|m: int| 0 <= m < i ==> (#[trigger] v@[m]).0 != id,
        decreases v@.len() - i,
    {
        if v[i].0 == *id {
            return Some(i);
        }
        i += 1;
    }
    None
}

/// The lobby listing a room table yields: id and participant count of every
/// room with space left, in table order.
pub open spec fn spec_available_rooms(rooms: Seq<(u128, Room)>) -> Seq<(u128, u8)>
    decreases rooms.len(),
{
    if rooms.len() == 0 {
        Seq::empty()
    } else {
        let init = spec_available_rooms(rooms.drop_last());
        let e = rooms.last();
        if e.1.players@.len() < e.1.max_players {
            init.push((e.0, e.1.players@.len() as u8))
        } else {
            init
        }
    }
}

/// One connected user: display name (UTF-8 bytes) and, while playing, the
/// room it sits in. The outbound stream handle lives with the socket code,
/// keyed by the same identifier.
pub struct User {
    pub username: Vec<u8>,
    pub room: Option<u128>,
}

/// The display name a user carries before it announces one.
pub open spec fn spec_guest_name() -> Seq<u8> {
    seq![103u8, 117u8, 101u8, 115u8, 116u8]
}

/// The registry of connected users and active rooms.
pub struct ServerState {
    pub users: Vec<(u128, User)>,
    pub rooms: Vec<(u128, Room)>,
}

impl ServerState {
    /// Well-formed registry: both tables keyed uniquely, every room sound,
    /// and every display name short enough for its wire length prefix.
    pub open spec fn wf(self) -> bool {
        &&& unique_keys(self.users@)
        &&& unique_keys(self.rooms@)
        &&& forall|i: int| 0 <= i < self.rooms@.len() ==> (#[trigger] self.rooms@[i]).1.wf()
        &&& forall|i: int|
            0 <= i < self.users@.len() ==> (#[trigger] self.users@[i]).1.username@.len()
                <= u32::MAX
    }

    pub open spec fn spec_user(self, id: u128) -> Option<User> {
        lookup(self.users@, id)
    }

    pub open spec fn spec_room(self, id: u128) -> Option<Room> {
        lookup(self.rooms@, id)
    }

    /// An empty registry.
    pub fn new() -> (r: ServerState)
        ensures
            r.wf(),
            r.users@.len() == 0,
            r.rooms@.len() == 0,
    {
        ServerState { users: Vec::new(), rooms: Vec::new() }
    }

    /// Register a connection under a fresh identifier, with the guest name
    /// and no room.
    pub fn add_user(&mut self) -> (id: u128)
        requires
            old(self).wf(),
        ensures
            final(self).wf(),
            final(self).rooms@ == old(self).rooms@,
            final(self).spec_user(id) matches Some(u) && u.username@ == spec_guest_name()
                && u.room is None,
            forall|k: u128| k != id ==> final(self).spec_user(k) == old(self).spec_user(k),
    {
        let id = crate::random::fresh_id();
        let mut name: Vec<u8> = Vec::new();
        name.push(103);
        name.push(117);
        name.push(101);
        name.push(115);
        name.push(116);
        proof {
            assert(name@ =~= spec_guest_name());
        }
        self.put_user(id, User { username: name, room: None });
        id
    }

    /// Bind `id` to `user`, replacing any pair that carried it.
    fn put_user(&mut self, id: u128, user: User)
        requires
            old(self).wf(),
            user.username@.len() <= u32::MAX,
        ensures
            final(self).wf(),
            final(self).rooms@ == old(self).rooms@,
            final(self).spec_user(id) == Some(user),
            forall|k: u128| k != id ==> final(self).spec_user(k) == old(self).spec_user(k),
    {
        match find_index(&self.users, &id) {
            Some(i) => {
                let _ = self.users.remove(i);
                self.users.insert(i, (id, user));
                proof {
                    assert(self.users@ =~= old(self).users@.update(i as int, (id, user)));
                    lemma_lookup_update(old(self).users@, i as int, user, id);
                    assert forall|k: u128| k != id implies lookup(self.users@, k) == lookup(
                        old(self).users@,
                        k,
                    ) by {
                        lemma_lookup_update(old(self).users@, i as int, user, k);
                    }
                }
            },
            None => {
                proof {
                    lemma_lookup_absent(self.users@, id);
                    lemma_lookup_push(self.users@, id, user, id);
                    assert forall|k: u128| k != id implies lookup(
                        self.users@.push((id, user)),
                        k,
                    ) == lookup(self.users@, k) by {
                        lemma_lookup_push(self.users@, id, user, k);
                    }
                    assert(unique_keys(self.users@.push((id, user))));
                }
                self.users.push((id, user));
            },
        }
    }

    /// Drop the user `id`, handing its record back.
    pub fn remove_user(&mut self, id: &u128) -> (r: Option<User>)
        requires
            old(self).wf(),
        ensures
            final(self).wf(),
            final(self).rooms@ == old(self).rooms@,
            r == old(self).spec_user(*id),
            final(self).spec_user(*id) is None,
            forall|k: u128| k != id ==> final(self).spec_user(k) == old(self).spec_user(k),
    {
        match find_index(&self.users, id) {
            Some(i) => {
                proof {
                    lemma_lookup_at(self.users@, i as int);
                    assert forall|k: u128| true implies lookup(self.users@.remove(i as int), k)
                        == (if k == *id {
                        None::<User>
                    } else {
                        lookup(self.users@, k)
                    }) by {
                        lemma_lookup_remove(self.users@, i as int, k);
                    }
                }
                let (_, u) = self.users.remove(i);
                Some(u)
            },
            None => {
                proof {
                    lemma_lookup_absent(self.users@, *id);
                }
                None
            },
        }
    }

    /// Give the user `id` the display name `name`.
    pub fn set_user_name(&mut self, id: &u128, name: Vec<u8>)
        requires
            old(self).wf(),
            name@.len() <= u32::MAX,
        ensures
            final(self).wf(),
            final(self).rooms@ == old(self).rooms@,
            match old(self).spec_user(*id) {
                Some(u) => final(self).spec_user(*id) matches Some(u2) && u2.username == name
                    && u2.room == u.room,
                None => final(self).users@ == old(self).users@,
            },
            forall|k: u128| k != id ==> final(self).spec_user(k) == old(self).spec_user(k),
    {
        match find_index(&self.users, id) {
            Some(i) => {
                proof {
                    lemma_lookup_at(self.users@, i as int);
                }
                let room = self.users[i].1.room;
                let _ = self.users.remove(i);
                self.users.insert(i, (*id, User { username: name, room }));
                proof {
                    let u2 = final(self).users@[i as int].1;
                    assert(self.users@ =~= old(self).users@.update(i as int, (*id, u2)));
                    lemma_lookup_update(old(self).users@, i as int, u2, *id);
                    assert forall|k: u128| k != id implies lookup(self.users@, k) == lookup(
                        old(self).users@,
                        k,
                    ) by {
                        lemma_lookup_update(old(self).users@, i as int, u2, k);
                    }
                }
            },
            None => {
                proof {
                    lemma_lookup_absent(self.users@, *id);
                }
            },
        }
    }

    /// Record that the user `id` now sits in room `room_id`.
    pub fn set_user_room(&mut self, id: &u128, room_id: u128)
        requires
            old(self).wf(),
        ensures
            final(self).wf(),
            final(self).rooms@ == old(self).rooms@,
            match old(self).spec_user(*id) {
                Some(u) => final(self).spec_user(*id) matches Some(u2) && u2.username
                    == u.username && u2.room == Some(room_id),
                None => final(self).users@ == old(self).users@,
            },
            forall|k: u128| k != id ==> final(self).spec_user(k) == old(self).spec_user(k),
    {
        match find_index(&self.users, id) {
            Some(i) => {
                proof {
                    lemma_lookup_at(self.users@, i as int);
                }
                let entry = self.users.remove(i);
                let (_, u) = entry;
                self.users.insert(i, (*id, User { username: u.username, room: Some(room_id) }));
                proof {
                    let u2 = final(self).users@[i as int].1;
                    assert(self.users@ =~= old(self).users@.update(i as int, (*id, u2)));
                    lemma_lookup_update(old(self).users@, i as int, u2, *id);
                    assert forall|k: u128| k != id implies lookup(self.users@, k) == lookup(
                        old(self).users@,
                        k,
                    ) by {
                        lemma_lookup_update(old(self).users@, i as int, u2, k);
                    }
                }
            },
            None => {
                proof {
                    lemma_lookup_absent(self.users@, *id);
                }
            },
        }
    }

    /// A copy of the display name of user `id`.
    pub fn get_user_name(&self, id: &u128) -> (r: Option<Vec<u8>>)
        requires
            self.wf(),
        ensures
            match self.spec_user(*id) {
                Some(u) => r matches Some(n) && n@ == u.username@ && n@.len() <= u32::MAX,
                None => r is None,
            },
    {
        match find_index(&self.users, id) {
            Some(i) => {
                proof {
                    lemma_lookup_at(self.users@, i as int);
                }
                let n = self.users[i].1.username.clone();
                proof {
                    assert(n@ =~= self.users@[i as int].1.username@);
                }
                Some(n)
            },
            None => {
                proof {
                    lemma_lookup_absent(self.users@, *id);
                }
                None
            },
        }
    }

    /// Open a fresh room for `max_players` and hand back its identifier. In
    /// the negligible case that the drawn identifier is already taken, the
    /// registry keeps the room it has.
    pub fn add_room(&mut self, max_players: u8) -> (id: u128)
        requires
            old(self).wf(),
        ensures
            final(self).wf(),
            final(self).users@ == old(self).users@,
            final(self).spec_room(id) is Some,
            forall|k: u128| k != id ==> final(self).spec_room(k) == old(self).spec_room(k),
            old(self).spec_room(id) is None ==> (final(self).spec_room(id) matches Some(r)
                && r.wf() && r.players@.len() == 0 && r.max_players == max_players
                && spec_default_board(r.spec_grid())),
            old(self).spec_room(id) is Some ==> final(self).rooms@ == old(self).rooms@,
    {
        let id = crate::random::fresh_id();
        let room = Room::new(max_players);
        match find_index(&self.rooms, &id) {
            Some(i) => {
                proof {
                    lemma_lookup_at(self.rooms@, i as int);
                }
            },
            None => {
                proof {
                    lemma_lookup_absent(self.rooms@, id);
                    lemma_lookup_push(self.rooms@, id, room, id);
                    assert forall|k: u128| k != id implies lookup(
                        self.rooms@.push((id, room)),
                        k,
                    ) == lookup(self.rooms@, k) by {
                        lemma_lookup_push(self.rooms@, id, room, k);
                    }
                    assert(unique_keys(self.rooms@.push((id, room))));
                }
                self.rooms.push((id, room));
            },
        }
        id
    }

    /// Borrow the room `id`, if it is there.
    pub fn get_room<'a>(&'a self, id: &u128) -> (r: Option<&'a Room>)
        requires
            self.wf(),
        ensures
            match r {
                Some(room) => self.spec_room(*id) == Some(*room) && room.wf(),
                None => self.spec_room(*id) is None,
            },
    {
        match find_index(&self.rooms, id) {
            Some(i) => {
                proof {
                    lemma_lookup_at(self.rooms@, i as int);
                }
                Some(&self.rooms[i].1)
            },
            None => {
                proof {
                    lemma_lookup_absent(self.rooms@, *id);
                }
                None
            },
        }
    }

    /// Whether the user `id` is registered.
    pub fn has_user(&self, id: &u128) -> (r: bool)
        requires
            self.wf(),
        ensures
            r == (self.spec_user(*id) is Some),
    {
        match find_index(&self.users, id) {
            Some(i) => {
                proof {
                    lemma_lookup_at(self.users@, i as int);
                }
                true
            },
            None => {
                proof {
                    lemma_lookup_absent(self.users@, *id);
                }
                false
            },
        }
    }

    /// Open a fresh room for `max_players` under a fresh identifier, and
    /// hand the identifier back. In the negligible case that the drawn
    /// identifier is already taken, the fresh room replaces what held it —
    /// as a solo game's room creation always starts from a clean board.
    pub fn new_room(&mut self, max_players: u8) -> (id: u128)
        requires
            old(self).wf(),
        ensures
            final(self).wf(),
            final(self).users@ == old(self).users@,
            final(self).spec_room(id) matches Some(r) && r.wf() && r.players@.len() == 0
                && r.max_players == max_players && spec_default_board(r.spec_grid()),
            forall|k: u128| k != id ==> final(self).spec_room(k) == old(self).spec_room(k),
    {
        let id = crate::random::fresh_id();
        let room = Room::new(max_players);
        self.put_room(id, room);
        id
    }

    /// Take the room `id` out of the registry, to work on it or to end it;
    /// `put_room` hangs a room back in.
    pub fn take_room(&mut self, id: &u128) -> (r: Option<Room>)
        requires
            old(self).wf(),
        ensures
            final(self).wf(),
            final(self).users@ == old(self).users@,
            r == old(self).spec_room(*id),
            r matches Some(room) ==> room.wf(),
            r is None ==> final(self).rooms@ == old(self).rooms@,
            final(self).spec_room(*id) is None,
            forall|k: u128| k != id ==> final(self).spec_room(k) == old(self).spec_room(k),
    {
        match find_index(&self.rooms, id) {
            Some(i) => {
                proof {
                    lemma_lookup_at(self.rooms@, i as int);
                    assert forall|k: u128| true implies lookup(self.rooms@.remove(i as int), k)
                        == (if k == *id {
                        None::<Room>
                    } else {
                        lookup(self.rooms@, k)
                    }) by {
                        lemma_lookup_remove(self.rooms@, i as int, k);
                    }
                }
                let (_, room) = self.rooms.remove(i);
                Some(room)
            },
            None => {
                proof {
                    lemma_lookup_absent(self.rooms@, *id);
                }
                None
            },
        }
    }

    /// Hang the room back in the registry under `id`.
    pub fn put_room(&mut self, id: u128, room: Room)
        requires
            old(self).wf(),
            room.wf(),
        ensures
            final(self).wf(),
            final(self).users@ == old(self).users@,
            final(self).spec_room(id) == Some(room),
            forall|k: u128| k != id ==> final(self).spec_room(k) == old(self).spec_room(k),
    {
        match find_index(&self.rooms, &id) {
            Some(i) => {
                let _ = self.rooms.remove(i);
                self.rooms.insert(i, (id, room));
                proof {
                    assert(self.rooms@ =~= old(self).rooms@.update(i as int, (id, room)));
                    lemma_lookup_update(old(self).rooms@, i as int, room, id);
                    assert forall|k: u128| k != id implies lookup(self.rooms@, k) == lookup(
                        old(self).rooms@,
                        k,
                    ) by {
                        lemma_lookup_update(old(self).rooms@, i as int, room, k);
                    }
                }
            },
            None => {
                proof {
                    lemma_lookup_absent(self.rooms@, id);
                    lemma_lookup_push(self.rooms@, id, room, id);
                    assert forall|k: u128| k != id implies lookup(
                        self.rooms@.push((id, room)),
                        k,
                    ) == lookup(self.rooms@, k) by {
                        lemma_lookup_push(self.rooms@, id, room, k);
                    }
                    assert(unique_keys(self.rooms@.push((id, room))));
                }
                self.rooms.push((id, room));
            },
        }
    }

    /// Drop the room `id` from the registry, if it is there.
    pub fn remove_room(&mut self, id: &u128)
        requires
            old(self).wf(),
        ensures
            final(self).wf(),
            final(self).users@ == old(self).users@,
            final(self).spec_room(*id) is None,
            forall|k: u128| k != id ==> final(self).spec_room(k) == old(self).spec_room(k),
    {
        let _ = self.take_room(id);
    }

    /// The lobby listing: id and participant count of every room that still
    /// has space, in registry order.
    pub fn available_rooms(&self) -> (r: Vec<(u128, u8)>)
        requires
            self.wf(),
        ensures
            r@ == spec_available_rooms(self.rooms@),
    {
        let mut r: Vec<(u128, u8)> = Vec::new();
        let mut i: usize = 0;
        while i < self.rooms.len()
            invariant
                i <= self.rooms@.len(),
                self.wf(),
                r@ == spec_available_rooms(self.rooms@.take(i as int)),
            decreases self.rooms@.len() - i,
        {
            let room = &self.rooms[i].1;
            proof {
                assert(self.rooms@.take(i as int + 1).drop_last() =~= self.rooms@.take(i as int));
                assert(self.rooms@.take(i as int + 1).last() == self.rooms@[i as int]);
            }
            if room.is_available() {
                r.push((self.rooms[i].0, room.get_player_count()));
            }
            i += 1;
        }
        proof {
            assert(self.rooms@.take(self.rooms@.len() as int) =~= self.rooms@);
        }
        r
    }

    /// The room the user `id` currently sits in, if any.
    pub fn get_user_room(&self, id: &u128) -> (r: Option<u128>)
        requires
            self.wf(),
        ensures
            r == match self.spec_user(*id) {
                Some(u) => u.room,
                None => None::<u128>,
            },
    {
        match find_index(&self.users, id) {
            Some(i) => {
                proof {
                    lemma_lookup_at(self.users@, i as int);
                }
                self.users[i].1.room
            },
            None => {
                proof {
                    lemma_lookup_absent(self.users@, *id);
                }
                None
            },
        }
    }
}

} // verus!
