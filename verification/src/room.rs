//! Rooms: the unit of admission. A room authenticates callers by 32-bit
//! key digests, hands out user ids and tokens, and owns one forwarder and
//! one groups manager. User ids are allocated lowest-free-first; id zero
//! is reserved for the host when the room needs one.

use vstd::prelude::*;
use crate::api::{Config, RoomInfoJson};
use crate::errors::RelayError;
use crate::forwarder::{Forwarder, ForwarderConfig};
use crate::group::{clone_string, GroupsManager, DEFAULT_MAILBOX_CAPACITY};
use crate::text::str_eq;
use crate::unique::{fnv32_of, generate_unique_u32, hash_from_string};

verus! {

/// One admitted user: its id, its bearer token and the streams it created.
pub struct Client {
    pub name: String,
    pub id: i32,
    pub token: u32,
    pub streams: Vec<String>,
}

impl Client {
    /// A fresh client with no streams.
    pub fn new(id: i32, token: u32, name: String) -> (r: Client)
        ensures
            r.id == id,
            r.token == token,
            r.name == name,
            r.streams@.len() == 0,
    {
        Client { name, id, token, streams: Vec::new() }
    }

    /// Whether the presented token is the client's.
    pub fn check_token(&self, token: u32) -> (r: bool)
        ensures
            r == (self.token == token),
    {
        self.token == token
    }

    /// Position of this stream in the client's record.
    fn stream_position(&self, stream: &str) -> (r: Option<usize>)
        ensures
            match r {
                Some(i) => i < self.streams@.len() && (self.streams@[i as int])@ == stream@,
                None => !(exists|i: int|
                    0 <= i < self.streams@.len() && (#[trigger] self.streams@[i])@ == stream@),
            },
    {
        let n = self.streams.len();
        let mut i: usize = 0;
        while i < n
            invariant
                i <= n,
                n == self.streams@.len(),
                forall|j: int| 0 <= j < i ==> (#[trigger] self.streams@[j])@ != stream@,
            decreases n - i,
        {
            if str_eq(self.streams[i].as_str(), stream) {
                return Some(i);
            }
            i = i + 1;
        }
        None
    }

    /// Record a stream the client created. Fails with `AlreadyExists`
    /// when it is already recorded.
    pub fn add_stream(&mut self, stream: String) -> (r: Result<(), RelayError>)
        ensures
            r is Ok <==> !(exists|i: int|
                0 <= i < old(self).streams@.len() && (#[trigger] old(self).streams@[i])@
                    == stream@),
            r is Ok ==> final(self).streams@ == old(self).streams@.push(stream),
            r is Err ==> final(self).streams == old(self).streams,
            final(self).id == old(self).id,
            final(self).token == old(self).token,
            final(self).name == old(self).name,
    {
        match self.stream_position(stream.as_str()) {
            Some(i) => {
                proof {
                    assert((self.streams@[i as int])@ == stream@);
                }
                Err(RelayError::AlreadyExists)
            },
            None => {
                self.streams.push(stream);
                Ok(())
            },
        }
    }

    /// Forget a recorded stream. Fails with `NotFound` when the client
    /// never recorded it.
    pub fn remove_stream(&mut self, stream: &str) -> (r: Result<(), RelayError>)
        ensures
            r is Ok <==> exists|i: int|
                0 <= i < old(self).streams@.len() && (#[trigger] old(self).streams@[i])@
                    == stream@,
            r is Ok ==> exists|i: int|
                0 <= i < old(self).streams@.len() && (#[trigger] old(self).streams@[i])@ == stream@
                    && final(self).streams@ == old(self).streams@.remove(i),
            r is Err ==> final(self).streams == old(self).streams,
            final(self).id == old(self).id,
            final(self).token == old(self).token,
            final(self).name == old(self).name,
    {
        match self.stream_position(stream) {
            Some(i) => {
                let ghost pre = self.streams@;
                self.streams.remove(i);
                proof {
                    assert((pre[i as int])@ == stream@);
                }
                Ok(())
            },
            None => Err(RelayError::NotFound),
        }
    }

    /// The streams the client created, in creation order.
    pub fn get_streams(&self) -> (r: Vec<String>)
        ensures
            r@.len() == self.streams@.len(),
            forall|i: int| 0 <= i < r@.len() ==> (#[trigger] r@[i])@ == self.streams@[i]@,
    {
        let mut out: Vec<String> = Vec::new();
        let n = self.streams.len();
        let mut i: usize = 0;
        while i < n
            invariant
                i <= n,
                n == self.streams@.len(),
                out@.len() == i,
                forall|j: int| 0 <= j < i ==> (#[trigger] out@[j])@ == self.streams@[j]@,
            decreases n - i,
        {
            out.push(clone_string(&self.streams[i]));
            i = i + 1;
        }
        out
    }
}

/// One room: admission keys, clients, and the two fan-out planes.
pub struct Room {
    pub id: i32,
    pub name: String,
    pub needs_host: bool,
    pub is_public: bool,
    pub capacity: u32,
    pub clients: Vec<Client>,
    pub room_key_hash: u32,
    pub master_key_hash: u32,
    pub description: String,
    pub forwarder: Forwarder,
    pub group_manager: GroupsManager,
}

impl Room {
    /// A sound forwarding plane, a sound group plane, and pairwise
    /// distinct client ids.
    pub open spec fn wf(self) -> bool {
        &&& self.forwarder.wf()
        &&& self.group_manager.wf()
        &&& forall|i: int, j: int|
            0 <= i < j < self.clients.len() ==> self.clients[i].id != self.clients[j].id
    }

    /// Whether a client with this id is admitted.
    pub open spec fn spec_has_client(self, id: i32) -> bool {
        exists|i: int| 0 <= i < self.clients.len() && (#[trigger] self.clients[i]).id == id
    }

    /// A fresh room: keys digested, no clients, empty planes.
    pub fn new(
        id: i32,
        name: String,
        needs_host: bool,
        is_public: bool,
        capacity: u32,
        room_key: &str,
        master_key: &str,
        description: String,
        config: &Config,
    ) -> (r: Room)
        ensures
            r.wf(),
            r.id == id,
            r.name == name,
            r.needs_host == needs_host,
            r.is_public == is_public,
            r.capacity == capacity,
            r.clients@.len() == 0,
            r.room_key_hash == fnv32_of(room_key@),
            r.master_key_hash == fnv32_of(master_key@),
            r.description == description,
            r.forwarder.config.publish_leave_timeout == config.publish_leave_timeout,
    {
        Room {
            id,
            name,
            needs_host,
            is_public,
            capacity,
            clients: Vec::new(),
            room_key_hash: hash_from_string(room_key),
            master_key_hash: hash_from_string(master_key),
            description,
            forwarder: Forwarder::new(
                ForwarderConfig {
                    publish_leave_timeout: config.publish_leave_timeout,
                    reforward_close_sub: config.reforward_close_sub,
                },
            ),
            group_manager: GroupsManager::new(),
        }
    }

    /// Whether the presented key digests to the room key's digest.
    pub fn auth_room_key(&self, key: &str) -> (r: bool)
        ensures
            r == (fnv32_of(key@) == self.room_key_hash),
    {
        hash_from_string(key) == self.room_key_hash
    }

    /// Whether the presented key digests to the master key's digest.
    pub fn auth_master_key(&self, key: &str) -> (r: bool)
        ensures
            r == (fnv32_of(key@) == self.master_key_hash),
    {
        hash_from_string(key) == self.master_key_hash
    }

    /// The public summary of the room.
    pub fn info(&self) -> (r: RoomInfoJson)
        ensures
            r.id == self.id,
            r.name@ == self.name@,
            r.capacity == self.capacity,
            r.description@ == self.description@,
    {
        RoomInfoJson {
            id: self.id,
            name: clone_string(&self.name),
            capacity: self.capacity,
            description: clone_string(&self.description),
        }
    }

    /// Index of the client with this id.
    fn client_index(&self, id: i32) -> (r: Option<usize>)
        ensures
            match r {
                Some(i) => i < self.clients@.len() && self.clients@[i as int].id == id,
                None => !self.spec_has_client(id),
            },
    {
        let n = self.clients.len();
        let mut i: usize = 0;
        while i < n
            invariant
                i <= n,
                n == self.clients@.len(),
                forall|j: int| 0 <= j < i ==> (#[trigger] self.clients@[j]).id != id,
            decreases n - i,
        {
            if self.clients[i].id == id {
                return Some(i);
            }
            i = i + 1;
        }
        None
    }

    /// Smallest id in `lo..capacity` that no client holds: `None` exactly
    /// when every id of the range is taken.
    fn free_id(&self, lo: i32) -> (r: Option<i32>)
        requires
            0 <= lo,
            self.capacity <= 0x7fff_ffff,
        ensures
            match r {
                Some(v) => lo <= v < self.capacity && !self.spec_has_client(v) && forall|w: i32|
                    lo <= w < v ==> self.spec_has_client(w),
                None => forall|w: i32| lo <= w < self.capacity ==> self.spec_has_client(w),
            },
    {
        let cap = self.capacity as i32;
        if lo >= cap {
            return None;
        }
        let mut i: i32 = lo;
        while i < cap
            invariant
                lo <= i <= cap,
                cap == self.capacity,
                forall|w: i32| lo <= w < i ==> self.spec_has_client(w),
            decreases cap - i,
        {
            match self.client_index(i) {
                None => {
                    return Some(i);
                },
                Some(ci) => {
                    proof {
                        assert(self.clients@[ci as int].id == i);
                        assert(self.spec_has_client(i));
                    }
                },
            }
            i = i + 1;
        }
        None
    }

    /// Admit a user. A non-empty master key claims the host seat (id
    /// zero) of a room that needs a host; otherwise the lowest free id is
    /// assigned (starting at one while a host seat is reserved). Returns
    /// false, changing nothing, when the key is wrong, the seat is taken
    /// or the room is full; on success the caller's id and token are
    /// written, the client is recorded and its mailbox is created.
    pub fn join(
        &mut self,
        user_name: String,
        master_key: &str,
        user_id: &mut i32,
        user_token: &mut u32,
    ) -> (r: bool)
        requires
            old(self).wf(),
            old(self).capacity <= 0x7fff_ffff,
        ensures
            final(self).wf(),
            // success is owed exactly when a seat is available under the
            // allocation policy
            r <==> (if old(self).needs_host {
                if master_key@.len() > 0 {
                    fnv32_of(master_key@) == old(self).master_key_hash && !old(
                        self,
                    ).spec_has_client(0) && old(self).capacity > 0
                } else {
                    exists|v: i32| 1 <= v < old(self).capacity && !old(self).spec_has_client(v)
                }
            } else {
                exists|v: i32| 0 <= v < old(self).capacity && !old(self).spec_has_client(v)
            }),
            // the host gets seat zero; everyone else the lowest free id
            r ==> (if old(self).needs_host && master_key@.len() > 0 {
                *final(user_id) == 0
            } else {
                ({
                    let lo: int = if old(self).needs_host {
                        1
                    } else {
                        0
                    };
                    lo <= *final(user_id) && (forall|w: i32|
                        lo <= w < *final(user_id) ==> old(self).spec_has_client(w))
                })
            }),
            !r ==> final(self).clients == old(self).clients,
            !r ==> *final(user_id) == *old(user_id) && *final(user_token) == *old(user_token),
            !r ==> final(self).group_manager == old(self).group_manager,
            r ==> {
                &&& 0 <= *final(user_id) < old(self).capacity
                &&& !old(self).spec_has_client(*final(user_id))
                &&& final(self).clients@.len() == old(self).clients@.len() + 1
                &&& final(self).clients@.last().id == *final(user_id)
                &&& final(self).clients@.last().token == *final(user_token)
                &&& final(self).clients@.last().name == user_name
                &&& forall|k: int|
                    0 <= k < old(self).clients@.len() ==> #[trigger] final(self).clients@[k] == old(
                        self,
                    ).clients@[k]
                &&& final(self).group_manager.spec_user_exists(*final(user_id) as u32)
            },
            final(self).forwarder == old(self).forwarder,
    {
        let id: i32;
        if self.needs_host {
            if !master_key.is_empty() {
                let authed = self.auth_master_key(master_key);
                let seat_taken = match self.client_index(0) {
                    Some(ci) => {
                        proof {
                            assert(self.clients@[ci as int].id == 0);
                            assert(self.spec_has_client(0));
                        }
                        true
                    },
                    None => false,
                };
                if !authed || seat_taken {
                    return false;
                }
                if self.capacity == 0 {
                    return false;
                }
                id = 0;
            } else {
                match self.free_id(1) {
                    Some(v) => {
                        id = v;
                        proof {
                            assert(1 <= id < self.capacity && !self.spec_has_client(id));
                        }
                    },
                    None => {
                        return false;
                    },
                }
            }
        } else {
            match self.free_id(0) {
                Some(v) => {
                    id = v;
                    proof {
                        assert(0 <= id < self.capacity && !self.spec_has_client(id));
                    }
                },
                None => {
                    return false;
                },
            }
        }
        let token = generate_unique_u32();
        *user_id = id;
        *user_token = token;
        let ghost pre = *self;
        self.clients.push(Client::new(id, token, user_name));
        proof {
            assert(forall|k: int|
                0 <= k < pre.clients@.len() ==> #[trigger] self.clients@[k] == pre.clients@[k]);
            assert forall|i: int, j: int|
                0 <= i < j < self.clients.len() implies self.clients[i].id != self.clients[j].id by {
                if j == self.clients.len() - 1 {
                    assert(!pre.spec_has_client(id));
                    assert(pre.clients[i].id != id) by {
                        if pre.clients[i].id == id {
                            assert(pre.spec_has_client(id));
                        }
                    };
                }
            };
        }
        self.group_manager.init_user(id as u32, DEFAULT_MAILBOX_CAPACITY);
        true
    }

    /// Remove a user: its group memberships and mailbox end, its streams
    /// are deleted, and its seat frees. With `check_token` set, a wrong
    /// token refuses the deletion (after the group teardown, as the
    /// admission flow does). Succeeds with `true` exactly when the seat
    /// was occupied and the token, where checked, matched.
    pub fn user_delete(&mut self, user_id: i32, user_token: u32, check_token: bool) -> (r: Result<
        bool,
        RelayError,
    >)
        requires
            old(self).wf(),
            0 <= user_id,
        ensures
            final(self).wf(),
            r is Ok,
            // the group plane tears the user down in every outcome
            crate::group::end_effect(
                old(self).group_manager,
                final(self).group_manager,
                user_id as u32,
            ),
            r == Ok::<bool, RelayError>(true) <==> (exists|i: int|
                0 <= i < old(self).clients@.len() && (#[trigger] old(self).clients@[i]).id
                    == user_id && (!check_token || old(self).clients@[i].token == user_token)),
            r == Ok::<bool, RelayError>(false) ==> final(self).clients == old(self).clients
                && final(self).forwarder == old(self).forwarder,
            r == Ok::<bool, RelayError>(true) ==> ({
                &&& !final(self).spec_has_client(user_id)
                &&& exists|i: int|
                    0 <= i < old(self).clients@.len() && (#[trigger] old(self).clients@[i]).id
                        == user_id && final(self).clients@ == old(self).clients@.remove(i) && (
                    forall|j: int|
                        0 <= j < old(self).clients@[i].streams@.len() ==> !final(self).forwarder.spec_stream_exists((old(self).clients@[i].streams@[j])@))
            }),
    {
        self.group_manager.end_user(user_id as u32);
        let ci = match self.client_index(user_id) {
            None => {
                proof {
                    assert forall|i: int|
                        0 <= i < old(self).clients@.len() implies (#[trigger] old(self).clients@[
                        i
                    ]).id != user_id by {
                        assert(self.clients@[i].id != user_id);
                    };
                }
                return Ok(false);
            },
            Some(ci) => ci,
        };
        if check_token && !self.clients[ci].check_token(user_token) {
            proof {
                // ids are unique, so the one seat with this id fails the
                // token check and no witness exists
                assert forall|i: int|
                    0 <= i < old(self).clients@.len() && (#[trigger] old(self).clients@[i]).id
                        == user_id implies !(!check_token || old(self).clients@[i].token
                    == user_token) by {
                    if i < ci as int {
                        assert(old(self).clients@[i].id != old(self).clients@[ci as int].id);
                    } else if i > ci as int {
                        assert(old(self).clients@[ci as int].id != old(self).clients@[i].id);
                    }
                };
            }
            return Ok(false);
        }
        // delete every stream the client created
        let ghost mid = *self;
        let streams = self.clients[ci].get_streams();
        let n = streams.len();
        let mut k: usize = 0;
        while k < n
            invariant
                self.wf(),
                k <= n,
                n == streams@.len(),
                self.clients == mid.clients,
                self.group_manager == mid.group_manager,
                forall|j: int|
                    0 <= j < k ==> !self.forwarder.spec_stream_exists(
                        (#[trigger] streams@[j])@,
                    ),
            decreases n - k,
        {
            let ghost pref = self.forwarder;
            let dr = self.forwarder.stream_delete(streams[k].as_str());
            proof {
                if dr is Ok {
                    let g = crate::forwarder::find_stream(pref.streams@, streams@[k as int]@)
                        ->Some_0;
                    crate::forwarder::lemma_find_stream(pref.streams@, streams@[k as int]@);
                    assert(0 <= g < pref.streams@.len() && self.forwarder.streams@
                        == pref.streams@.remove(g));
                } else {
                    assert(self.forwarder.streams@ == pref.streams@);
                }
                assert forall|j: int|
                    0 <= j < k + 1 implies !self.forwarder.spec_stream_exists(
                    (#[trigger] streams@[j])@,
                ) by {
                    if j < k {
                        crate::forwarder::lemma_absent_after_delete(
                            pref,
                            self.forwarder,
                            (streams@[j])@,
                        );
                    } else {
                        crate::forwarder::lemma_find_stream(
                            self.forwarder.streams@,
                            streams@[k as int]@,
                        );
                    }
                };
            }
            k = k + 1;
        }
        let ghost pre = *self;
        // the client record was untouched by the stream teardown
        match self.client_index(user_id) {
            Some(ci2) => {
                self.clients.remove(ci2);
                proof {
                    let oi = ci2 as int;
                    assert(forall|j: int|
                        0 <= j < self.clients@.len() ==> self.clients@[j] == if j < oi {
                            pre.clients@[j]
                        } else {
                            pre.clients@[j + 1]
                        });
                    assert forall|j: int| 0 <= j < self.clients@.len() implies (
                    #[trigger] self.clients@[j]).id != user_id by {
                        if j < oi {
                            assert(pre.clients@[j].id != pre.clients@[oi].id);
                        } else {
                            assert(pre.clients@[oi].id != pre.clients@[j + 1].id);
                        }
                    };
                    // the seat removed is the one found at entry
                    assert(oi == ci as int) by {
                        if oi < ci as int {
                            assert(pre.clients@[oi].id != pre.clients@[ci as int].id);
                        } else if oi > ci as int {
                            assert(pre.clients@[ci as int].id != pre.clients@[oi].id);
                        }
                    };
                    assert(self.clients@ =~= old(self).clients@.remove(ci as int));
                    assert(old(self).clients@[ci as int].id == user_id);
                    // the deleted streams are the found client's record
                    assert(forall|j: int|
                        0 <= j < old(self).clients@[ci as int].streams@.len()
                            ==> (#[trigger] streams@[j])@ == (old(self).clients@[
                            ci as int
                        ].streams@[j])@);
                    assert forall|j: int|
                        0 <= j < old(self).clients@[ci as int].streams@.len() implies !self.forwarder.spec_stream_exists(
                        (#[trigger] old(self).clients@[ci as int].streams@[j])@,
                    ) by {
                        assert((streams@[j])@ == (old(self).clients@[ci as int].streams@[j])@);
                        assert(!self.forwarder.spec_stream_exists((streams@[j])@));
                    };
                    assert(0 <= ci as int && (ci as int) < old(self).clients@.len() && old(
                        self,
                    ).clients@[ci as int].id == user_id && self.clients@ == old(self).clients@.remove(ci as int) && (
                    forall|j: int|
                        0 <= j < old(self).clients@[ci as int].streams@.len() ==> !self.forwarder.spec_stream_exists(
                            (old(self).clients@[ci as int].streams@[j])@,
                        )));
                }
                Ok(true)
            },
            None => {
                proof {
                    assert(self.clients@[ci as int].id == user_id);
                    assert(false);
                }
                Ok(false)
            },
        }
    }

    /// Remove every user of the room.
    pub fn all_user_delete(&mut self) -> (r: Result<bool, RelayError>)
        requires
            old(self).wf(),
        ensures
            final(self).wf(),
            r == Ok::<bool, RelayError>(true) ==> final(self).clients@.len() == 0,
    {
        loop
            invariant
                self.wf(),
            ensures
                self.wf(),
                self.clients@.len() == 0,
            decreases self.clients@.len(),
        {
            let n = self.clients.len();
            if n == 0 {
                break ;
            }
            let id = self.clients[n - 1].id;
            if id < 0 {
                // ids this room assigns are nonnegative; an alien entry is
                // dropped directly
                let ghost pre = self.clients@;
                self.clients.remove(n - 1);
                proof {
                    assert(forall|j: int| 0 <= j < self.clients@.len() ==> self.clients@[j] == pre[j]);
                }
                continue ;
            }
            let _ = self.user_delete(id, 0, false);
            if self.clients.len() >= n {
                // the client was refused removal; stop rather than spin
                return Ok(false);
            }
        }
        Ok(true)
    }
}

} // verus!
