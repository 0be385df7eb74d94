//! Room-wide groups manager: the non-media fan-out plane.
//!
//! Users get a bounded per-user mailbox (`init_user`); named groups get a
//! fanout bus (`new_group`). A user who joins a group gains a forwarding
//! task that republishes every group frame into the user's mailbox, except
//! frames whose leading four bytes carry the user's own id (self-message
//! suppression). Membership and the per-user list of joined groups are kept
//! in lock step: a user is a member of a group exactly when the group's
//! name is recorded in the user's entry, which is what makes `end_user`
//! able to cancel every forwarding task the user owns.

use vstd::prelude::*;
use crate::fabric::deliver_spec;
use crate::frame::group_frame_from;
use crate::text::str_eq;

verus! {

/// Default capacity of a group's fanout bus.
pub const DEFAULT_GROUP_CAPACITY: usize = 100;

/// Default capacity of a user's mailbox.
pub const DEFAULT_MAILBOX_CAPACITY: usize = 100;

/// Why a group operation was refused.
#[derive(Clone, Copy, PartialEq, Eq, Structural, Debug)]
pub enum GroupError {
    /// The named group does not exist.
    GroupNotFound,
    /// The message could not be delivered to the group.
    MessageSendFail,
    /// The user's mailbox was never created.
    NotInitiated,
}

impl GroupError {
    /// A human-readable description of the error.
    pub fn text(&self) -> (r: String)
        ensures
            self is GroupNotFound ==> r@ == "target group not found"@,
            self is NotInitiated ==> r@ == "user is not initiated"@,
            self is MessageSendFail ==> r@ == "failed to send message to the group"@,
    {
        match self {
            GroupError::GroupNotFound => "target group not found".to_owned(),
            GroupError::NotInitiated => "user is not initiated".to_owned(),
            GroupError::MessageSendFail => "failed to send message to the group".to_owned(),
        }
    }
}

/// One named group: its members and the capacity of its fanout bus.
pub struct GroupState {
    pub name: String,
    pub members: Vec<u32>,
    pub capacity: usize,
}

/// One initiated user: the groups joined and the bounded mailbox that the
/// per-group forwarding tasks fill.
pub struct UserEntry {
    pub id: u32,
    pub groups: Vec<String>,
    pub mailbox: Vec<Vec<u8>>,
    pub capacity: usize,
}

/// Whether a list of names contains `n`.
pub open spec fn has_name(names: Seq<String>, n: Seq<char>) -> bool {
    exists|i: int| 0 <= i < names.len() && (#[trigger] names[i])@ == n
}

/// Smallest index of the group called `name`.
pub open spec fn find_group(gs: Seq<GroupState>, name: Seq<char>) -> Option<int>
    decreases gs.len(),
{
    if gs.len() == 0 {
        None
    } else if gs[0].name@ == name {
        Some(0)
    } else {
        match find_group(gs.skip(1), name) {
            Some(i) => Some(i + 1),
            None => None,
        }
    }
}

/// Smallest index of the user entry for `uid`.
pub open spec fn find_user(us: Seq<UserEntry>, uid: u32) -> Option<int>
    decreases us.len(),
{
    if us.len() == 0 {
        None
    } else if us[0].id == uid {
        Some(0)
    } else {
        match find_user(us.skip(1), uid) {
            Some(i) => Some(i + 1),
            None => None,
        }
    }
}

/// `find_group` returns the least index with the name, or `None` exactly
/// when no group carries it.
pub proof fn lemma_find_group(gs: Seq<GroupState>, name: Seq<char>)
    ensures
        match find_group(gs, name) {
            Some(i) => 0 <= i < gs.len() && gs[i].name@ == name && forall|j: int|
                0 <= j < i ==> (#[trigger] gs[j]).name@ != name,
            None => forall|j: int| 0 <= j < gs.len() ==> (#[trigger] gs[j]).name@ != name,
        },
    decreases gs.len(),
{
    if gs.len() > 0 && gs[0].name@ != name {
        let rest = gs.skip(1);
        lemma_find_group(rest, name);
        assert(forall|j: int| 0 <= j < rest.len() ==> rest[j] == gs[j + 1]);
        match find_group(rest, name) {
            Some(i) => {
                assert(forall|j: int| 1 <= j < i + 1 ==> (#[trigger] gs[j]).name@ != name) by {
                    assert(forall|j: int| 1 <= j < i + 1 ==> gs[j] == rest[j - 1]);
                };
            },
            None => {
                assert(forall|j: int| 1 <= j < gs.len() ==> (#[trigger] gs[j]).name@ != name) by {
                    assert(forall|j: int| 1 <= j < gs.len() ==> gs[j] == rest[j - 1]);
                };
            },
        }
    }
}

/// `find_user` returns the least index with the id, or `None` exactly
/// when no entry carries it.
pub proof fn lemma_find_user(us: Seq<UserEntry>, uid: u32)
    ensures
        match find_user(us, uid) {
            Some(i) => 0 <= i < us.len() && us[i].id == uid && forall|j: int|
                0 <= j < i ==> (#[trigger] us[j]).id != uid,
            None => forall|j: int| 0 <= j < us.len() ==> (#[trigger] us[j]).id != uid,
        },
    decreases us.len(),
{
    if us.len() > 0 && us[0].id != uid {
        let rest = us.skip(1);
        lemma_find_user(rest, uid);
        assert(forall|j: int| 0 <= j < rest.len() ==> rest[j] == us[j + 1]);
        match find_user(rest, uid) {
            Some(i) => {
                assert(forall|j: int| 1 <= j < i + 1 ==> (#[trigger] us[j]).id != uid) by {
                    assert(forall|j: int| 1 <= j < i + 1 ==> us[j] == rest[j - 1]);
                };
            },
            None => {
                assert(forall|j: int| 1 <= j < us.len() ==> (#[trigger] us[j]).id != uid) by {
                    assert(forall|j: int| 1 <= j < us.len() ==> us[j] == rest[j - 1]);
                };
            },
        }
    }
}

/// The groups manager of one room.
pub struct GroupsManager {
    pub groups: Vec<GroupState>,
    pub users: Vec<UserEntry>,
}

impl GroupsManager {
    /// Structural invariant: names and ids are unique, member lists and
    /// joined-group lists hold no duplicates, capacities are positive,
    /// mailboxes stay within capacity, and membership and the per-user
    /// group record mirror each other exactly.
    pub open spec fn wf(self) -> bool {
        &&& forall|i: int, j: int|
            0 <= i < j < self.groups.len() ==> self.groups[i].name@ != self.groups[j].name@
        &&& forall|i: int, j: int|
            0 <= i < j < self.users.len() ==> self.users[i].id != self.users[j].id
        &&& forall|g: int|
            0 <= g < self.groups.len() ==> (#[trigger] self.groups[g]).capacity >= 1
        &&& forall|g: int, i: int, j: int|
            0 <= g < self.groups.len() && 0 <= i < j < self.groups[g].members.len()
                ==> self.groups[g].members[i] != self.groups[g].members[j]
        &&& forall|u: int|
            0 <= u < self.users.len() ==> (#[trigger] self.users[u]).capacity >= 1
                && self.users[u].mailbox.len() <= self.users[u].capacity
        &&& forall|u: int, i: int, j: int|
            0 <= u < self.users.len() && 0 <= i < j < self.users[u].groups.len()
                ==> self.users[u].groups[i]@ != self.users[u].groups[j]@
        &&& forall|g: int, m: int|
            0 <= g < self.groups.len() && 0 <= m < (#[trigger] self.groups[g]).members.len() ==> ({
                let uid = #[trigger] self.groups[g].members[m];
                match find_user(self.users@, uid) {
                    Some(u) => has_name(self.users[u].groups@, self.groups[g].name@),
                    None => false,
                }
            })
        &&& forall|u: int, i: int|
            0 <= u < self.users.len() && 0 <= i < (#[trigger] self.users[u]).groups.len() ==> ({
                let n = (#[trigger] self.users[u].groups[i])@;
                match find_group(self.groups@, n) {
                    Some(g) => self.groups[g].members@.contains(self.users[u].id),
                    None => false,
                }
            })
    }

    /// Whether a group of this name exists.
    pub open spec fn spec_group_exists(self, name: Seq<char>) -> bool {
        find_group(self.groups@, name) is Some
    }

    /// Whether a mailbox exists for this user.
    pub open spec fn spec_user_exists(self, uid: u32) -> bool {
        find_user(self.users@, uid) is Some
    }

    /// Whether `uid` is a member of the group called `name`.
    pub open spec fn spec_is_member(self, name: Seq<char>, uid: u32) -> bool {
        match find_group(self.groups@, name) {
            Some(g) => self.groups@[g].members@.contains(uid),
            None => false,
        }
    }

    /// The member list of the group called `name`.
    pub open spec fn spec_members(self, name: Seq<char>) -> Option<Seq<u32>> {
        match find_group(self.groups@, name) {
            Some(g) => Some(self.groups@[g].members@),
            None => None,
        }
    }

    /// The groups recorded for `uid`, as name views.
    pub open spec fn spec_user_groups(self, uid: u32) -> Option<Seq<String>> {
        match find_user(self.users@, uid) {
            Some(u) => Some(self.users@[u].groups@),
            None => None,
        }
    }

    /// The frames in `uid`'s mailbox, oldest first.
    pub open spec fn spec_user_inbox(self, uid: u32) -> Option<Seq<Seq<u8>>> {
        match find_user(self.users@, uid) {
            Some(u) => Some(self.users@[u].mailbox.deep_view()),
            None => None,
        }
    }

    /// A manager with no groups and no users.
    pub fn new() -> (r: GroupsManager)
        ensures
            r.wf(),
            r.groups@.len() == 0,
            r.users@.len() == 0,
    {
        GroupsManager { groups: Vec::new(), users: Vec::new() }
    }

    /// Index of the group called `name`, if any.
    fn group_index(&self, name: &str) -> (r: Option<usize>)
        ensures
            match r {
                Some(i) => find_group(self.groups@, name@) == Some(i as int),
                None => find_group(self.groups@, name@) is None,
            },
    {
        proof {
            lemma_find_group(self.groups@, name@);
        }
        let n = self.groups.len();
        let mut i: usize = 0;
        while i < n
            invariant
                i <= n,
                n == self.groups.len(),
                forall|j: int| 0 <= j < i ==> (#[trigger] self.groups@[j]).name@ != name@,
            decreases n - i,
        {
            if str_eq(self.groups[i].name.as_str(), name) {
                proof {
                    lemma_find_group(self.groups@, name@);
                }
                return Some(i);
            }
            i = i + 1;
        }
        proof {
            lemma_find_group(self.groups@, name@);
        }
        None
    }

    /// Index of the user entry for `uid`, if any.
    fn user_index(&self, uid: u32) -> (r: Option<usize>)
        ensures
            match r {
                Some(i) => find_user(self.users@, uid) == Some(i as int),
                None => find_user(self.users@, uid) is None,
            },
    {
        proof {
            lemma_find_user(self.users@, uid);
        }
        let n = self.users.len();
        let mut i: usize = 0;
        while i < n
            invariant
                i <= n,
                n == self.users.len(),
                forall|j: int| 0 <= j < i ==> (#[trigger] self.users@[j]).id != uid,
            decreases n - i,
        {
            if self.users[i].id == uid {
                proof {
                    lemma_find_user(self.users@, uid);
                }
                return Some(i);
            }
            i = i + 1;
        }
        proof {
            lemma_find_user(self.users@, uid);
        }
        None
    }

    /// Whether a group of this name exists.
    pub fn group_exists(&self, name: &str) -> (r: bool)
        ensures
            r == self.spec_group_exists(name@),
    {
        self.group_index(name).is_some()
    }

    /// Number of groups.
    pub fn groups_count(&self) -> (r: usize)
        ensures
            r == self.groups@.len(),
    {
        self.groups.len()
    }

    /// Create the user's mailbox with the given capacity, if it does not
    /// exist yet; an existing entry is left untouched.
    pub fn init_user(&mut self, uid: u32, capacity: usize)
        requires
            old(self).wf(),
            capacity >= 1,
        ensures
            final(self).wf(),
            final(self).groups == old(self).groups,
            final(self).spec_user_exists(uid),
            old(self).spec_user_exists(uid) ==> final(self).users == old(self).users,
            !old(self).spec_user_exists(uid) ==> {
                &&& final(self).users@ == old(self).users@.push(
                    final(self).users@.last(),
                )
                &&& final(self).users@.last().id == uid
                &&& final(self).users@.last().groups@.len() == 0
                &&& final(self).users@.last().mailbox@.len() == 0
                &&& final(self).users@.last().capacity == capacity
            },
            init_effect(*old(self), *final(self), uid, capacity),
    {
        match self.user_index(uid) {
            Some(_) => {},
            None => {
                proof {
                    lemma_find_user(self.users@, uid);
                }
                let entry = UserEntry { id: uid, groups: Vec::new(), mailbox: Vec::new(), capacity };
                self.users.push(entry);
                proof {
                    let post = self.users@;
                    let n = post.len() - 1;
                    assert(forall|j: int| 0 <= j < n ==> post[j] == old(self).users@[j]);
                    lemma_find_user_extended(old(self).users@, post.last(), uid);
                    assert(self.wf()) by {
                        lemma_wf_after_user_push(*old(self), *self, uid);
                    };
                }
            },
        }
    }

    /// Create a group with this name and capacity. An existing group of
    /// the same name is left untouched.
    pub fn new_group(&mut self, name: String, capacity: Option<usize>)
        requires
            old(self).wf(),
            match capacity {
                Some(c) => c >= 1,
                None => true,
            },
    ensures
            final(self).wf(),
            final(self).users == old(self).users,
            final(self).spec_group_exists(name@),
            old(self).spec_group_exists(name@) ==> final(self).groups == old(self).groups,
            !old(self).spec_group_exists(name@) ==> {
                &&& final(self).groups@ == old(self).groups@.push(final(self).groups@.last())
                &&& final(self).groups@.last().name@ == name@
                &&& final(self).groups@.last().members@.len() == 0
                &&& final(self).groups@.last().capacity == match capacity {
                    Some(c) => c,
                    None => DEFAULT_GROUP_CAPACITY as usize,
                }
            },
    {
        match self.group_index(name.as_str()) {
            Some(_) => {},
            None => {
                proof {
                    lemma_find_group(self.groups@, name@);
                }
                let cap = match capacity {
                    Some(c) => c,
                    None => DEFAULT_GROUP_CAPACITY,
                };
                let g = GroupState { name, members: Vec::new(), capacity: cap };
                self.groups.push(g);
                proof {
                    let post = self.groups@;
                    let n = post.len() - 1;
                    assert(forall|j: int| 0 <= j < n ==> post[j] == old(self).groups@[j]);
                    lemma_find_group_extended(old(self).groups@, post.last());
                    assert(self.wf()) by {
                        lemma_wf_after_group_push(*old(self), *self);
                    };
                }
            },
        }
    }
}

/// Pushing a fresh entry leaves every earlier `find_user` answer intact
/// and resolves the new id to the new slot.
proof fn lemma_find_user_extended(us: Seq<UserEntry>, e: UserEntry, uid: u32)
    requires
        find_user(us, e.id) is None,
    ensures
        find_user(us.push(e), e.id) == Some(us.len() as int),
        forall|v: u32| v != e.id ==> #[trigger] find_user(us.push(e), v) == find_user(us, v),
    decreases us.len(),
{
    lemma_find_user(us, e.id);
    assert forall|v: u32| v != e.id implies #[trigger] find_user(us.push(e), v) == find_user(
        us,
        v,
    ) by {
        lemma_find_user_push(us, e, v);
    };
    lemma_find_user_push_new(us, e);
}

proof fn lemma_find_user_push(us: Seq<UserEntry>, e: UserEntry, v: u32)
    requires
        v != e.id,
    ensures
        find_user(us.push(e), v) == find_user(us, v),
    decreases us.len(),
{
    assert(us.push(e).len() == us.len() + 1);
    if us.len() == 0 {
        assert(us.push(e)[0] == e);
        assert(us.push(e).skip(1) =~= Seq::<UserEntry>::empty());
        assert(find_user(us.push(e).skip(1), v) is None);
        assert(find_user(us.push(e), v) is None);
    } else {
        assert(us.push(e)[0] == us[0]);
        if us[0].id == v {
            assert(find_user(us, v) == Some(0int));
            assert(find_user(us.push(e), v) == Some(0int));
        } else {
            assert(us.push(e).skip(1) =~= us.skip(1).push(e));
            lemma_find_user_push(us.skip(1), e, v);
            assert(find_user(us.push(e).skip(1), v) == find_user(us.skip(1), v));
        }
    }
}

proof fn lemma_find_user_push_new(us: Seq<UserEntry>, e: UserEntry)
    requires
        find_user(us, e.id) is None,
    ensures
        find_user(us.push(e), e.id) == Some(us.len() as int),
    decreases us.len(),
{
    if us.len() == 0 {
        assert(us.push(e)[0] == e);
    } else {
        assert(us[0].id != e.id);
        assert(us.push(e)[0] == us[0]);
        assert(us.push(e).skip(1) =~= us.skip(1).push(e));
        lemma_find_user_push_new(us.skip(1), e);
    }
}

proof fn lemma_find_group_push(gs: Seq<GroupState>, e: GroupState, n: Seq<char>)
    requires
        n != e.name@,
    ensures
        find_group(gs.push(e), n) == find_group(gs, n),
    decreases gs.len(),
{
    assert(gs.push(e).len() == gs.len() + 1);
    if gs.len() == 0 {
        assert(gs.push(e)[0] == e);
        assert(gs.push(e).skip(1) =~= Seq::<GroupState>::empty());
        assert(find_group(gs.push(e).skip(1), n) is None);
        assert(find_group(gs.push(e), n) is None);
    } else {
        assert(gs.push(e)[0] == gs[0]);
        if gs[0].name@ == n {
            assert(find_group(gs, n) == Some(0int));
            assert(find_group(gs.push(e), n) == Some(0int));
        } else {
            assert(gs.push(e).skip(1) =~= gs.skip(1).push(e));
            lemma_find_group_push(gs.skip(1), e, n);
            assert(find_group(gs.push(e).skip(1), n) == find_group(gs.skip(1), n));
        }
    }
}

/// Pushing a fresh group resolves its name to the new slot and leaves
/// every other name's answer intact.
proof fn lemma_find_group_extended(gs: Seq<GroupState>, e: GroupState)
    requires
        find_group(gs, e.name@) is None,
    ensures
        find_group(gs.push(e), e.name@) == Some(gs.len() as int),
        forall|n: Seq<char>| n != e.name@ ==> #[trigger] find_group(gs.push(e), n) == find_group(
            gs,
            n,
        ),
    decreases gs.len(),
{
    lemma_find_group(gs, e.name@);
    assert forall|n: Seq<char>| n != e.name@ implies #[trigger] find_group(gs.push(e), n)
        == find_group(gs, n) by {
        lemma_find_group_push(gs, e, n);
    };
    lemma_find_group_push_new(gs, e);
}

proof fn lemma_find_group_push_new(gs: Seq<GroupState>, e: GroupState)
    requires
        find_group(gs, e.name@) is None,
    ensures
        find_group(gs.push(e), e.name@) == Some(gs.len() as int),
    decreases gs.len(),
{
    if gs.len() == 0 {
        assert(gs.push(e)[0] == e);
    } else {
        assert(gs[0].name@ != e.name@);
        assert(gs.push(e)[0] == gs[0]);
        assert(gs.push(e).skip(1) =~= gs.skip(1).push(e));
        lemma_find_group_push_new(gs.skip(1), e);
    }
}

/// Pushing a fresh, empty user entry preserves the manager invariant.
proof fn lemma_wf_after_user_push(pre: GroupsManager, post: GroupsManager, uid: u32)
    requires
        pre.wf(),
        find_user(pre.users@, uid) is None,
        post.groups == pre.groups,
        post.users@ == pre.users@.push(post.users@.last()),
        post.users@.last().id == uid,
        post.users@.last().groups@.len() == 0,
        post.users@.last().mailbox@.len() == 0,
        post.users@.last().capacity >= 1,
    ensures
        post.wf(),
{
    let e = post.users@.last();
    let n = pre.users@.len() as int;
    assert(forall|j: int| 0 <= j < n ==> post.users@[j] == pre.users@[j]);
    lemma_find_user(pre.users@, uid);
    lemma_find_user_extended(pre.users@, e, uid);
    assert forall|g: int, m: int|
        0 <= g < post.groups.len() && 0 <= m < (#[trigger] post.groups[g]).members.len() implies ({
        let v = #[trigger] post.groups[g].members[m];
        match find_user(post.users@, v) {
            Some(u) => has_name(post.users@[u].groups@, post.groups[g].name@),
            None => false,
        }
    }) by {
        assert(post.groups@ == pre.groups@);
        let v = pre.groups[g].members[m];
        assert(post.groups[g].members[m] == v);
        assert(match find_user(pre.users@, v) {
            Some(u) => has_name(pre.users@[u].groups@, pre.groups[g].name@),
            None => false,
        });
        assert(find_user(pre.users@, v) is Some);
        assert(v != uid);
        lemma_find_user_push(pre.users@, e, v);
        assert(post.users@ == pre.users@.push(e));
        assert(find_user(post.users@, v) == find_user(pre.users@, v));
        lemma_find_user(pre.users@, v);
        let u = find_user(pre.users@, v)->Some_0;
        assert(0 <= u < pre.users@.len());
        assert(post.users@[u] == pre.users@[u]);
    };
}

/// Pushing a fresh, empty group preserves the manager invariant.
proof fn lemma_wf_after_group_push(pre: GroupsManager, post: GroupsManager)
    requires
        pre.wf(),
        find_group(pre.groups@, post.groups@.last().name@) is None,
        post.users == pre.users,
        post.groups@ == pre.groups@.push(post.groups@.last()),
        post.groups@.last().members@.len() == 0,
        post.groups@.last().capacity >= 1,
    ensures
        post.wf(),
{
    let e = post.groups@.last();
    let n = pre.groups@.len() as int;
    assert(forall|j: int| 0 <= j < n ==> post.groups@[j] == pre.groups@[j]);
    lemma_find_group(pre.groups@, e.name@);
    lemma_find_group_extended(pre.groups@, e);
    assert forall|u: int, i: int|
        0 <= u < post.users.len() && 0 <= i < (#[trigger] post.users[u]).groups.len() implies ({
        let nm = (#[trigger] post.users[u].groups[i])@;
        match find_group(post.groups@, nm) {
            Some(g) => post.groups@[g].members@.contains(post.users[u].id),
            None => false,
        }
    }) by {
        assert(post.users@ == pre.users@);
        let nm = pre.users[u].groups[i]@;
        assert(post.users[u].groups[i]@ == nm);
        assert(match find_group(pre.groups@, nm) {
            Some(g) => pre.groups@[g].members@.contains(pre.users[u].id),
            None => false,
        });
        assert(find_group(pre.groups@, nm) is Some);
        assert(nm != e.name@);
        assert(post.groups@ == pre.groups@.push(e));
        lemma_find_group_push(pre.groups@, e, nm);
        assert(find_group(post.groups@, nm) == find_group(pre.groups@, nm));
        lemma_find_group(pre.groups@, nm);
        let g = find_group(pre.groups@, nm)->Some_0;
        assert(0 <= g < pre.groups@.len());
        assert(post.groups@[g] == pre.groups@[g]);
    };
}

/// `find_user` only looks at ids: sequences with pointwise equal ids
/// resolve every id alike.
proof fn lemma_find_user_same_ids(a: Seq<UserEntry>, b: Seq<UserEntry>, v: u32)
    requires
        a.len() == b.len(),
        forall|k: int| 0 <= k < a.len() ==> (#[trigger] a[k]).id == b[k].id,
    ensures
        find_user(a, v) == find_user(b, v),
    decreases a.len(),
{
    if a.len() > 0 {
        assert(a[0].id == b[0].id);
        if a[0].id != v {
            assert(forall|k: int|
                0 <= k < a.skip(1).len() ==> (#[trigger] a.skip(1)[k]).id == b.skip(1)[k].id);
            lemma_find_user_same_ids(a.skip(1), b.skip(1), v);
        }
    }
}

/// `find_group` only looks at names: sequences with pointwise equal names
/// resolve every name alike.
proof fn lemma_find_group_same_names(a: Seq<GroupState>, b: Seq<GroupState>, n: Seq<char>)
    requires
        a.len() == b.len(),
        forall|k: int| 0 <= k < a.len() ==> (#[trigger] a[k]).name@ == b[k].name@,
    ensures
        find_group(a, n) == find_group(b, n),
    decreases a.len(),
{
    if a.len() > 0 {
        assert(a[0].name@ == b[0].name@);
        if a[0].name@ != n {
            assert(forall|k: int|
                0 <= k < a.skip(1).len() ==> (#[trigger] a.skip(1)[k]).name@ == b.skip(1)[k].name@);
            lemma_find_group_same_names(a.skip(1), b.skip(1), n);
        }
    }
}

/// First index of `x` in a list of ids.
fn position_u32(v: &Vec<u32>, x: u32) -> (r: Option<usize>)
    ensures
        match r {
            Some(i) => i < v@.len() && v@[i as int] == x && forall|j: int|
                0 <= j < i ==> v@[j] != x,
            None => !v@.contains(x),
        },
{
    let n = v.len();
    let mut i: usize = 0;
    while i < n
        invariant
            i <= n,
            n == v@.len(),
            forall|j: int| 0 <= j < i ==> v@[j] != x,
        decreases n - i,
    {
        if v[i] == x {
            return Some(i);
        }
        i = i + 1;
    }
    None
}

/// First index of the name `n` in a list of names.
fn position_name(v: &Vec<String>, n: &str) -> (r: Option<usize>)
    ensures
        match r {
            Some(i) => i < v@.len() && (v@[i as int])@ == n@ && forall|j: int|
                0 <= j < i ==> (#[trigger] v@[j])@ != n@,
            None => !has_name(v@, n@),
        },
{
    let ln = v.len();
    let mut i: usize = 0;
    while i < ln
        invariant
            i <= ln,
            ln == v@.len(),
            forall|j: int| 0 <= j < i ==> (#[trigger] v@[j])@ != n@,
        decreases ln - i,
    {
        if str_eq(v[i].as_str(), n) {
            return Some(i);
        }
        i = i + 1;
    }
    None
}

/// What a successful `join_group` does: the member list of the group gains
/// `uid` unless it already held it, the user's record gains the group's
/// name unless it already held it, and nothing else changes.
pub open spec fn join_effect(pre: GroupsManager, post: GroupsManager, name: Seq<char>, uid: u32) -> bool {
    &&& (match find_group(pre.groups@, name) {
        Some(g) => {
            &&& post.groups@.len() == pre.groups@.len()
            &&& forall|k: int|
                0 <= k < pre.groups@.len() && k != g ==> post.groups@[k] == pre.groups@[k]
            &&& post.groups@[g].name@ == pre.groups@[g].name@
            &&& post.groups@[g].capacity == pre.groups@[g].capacity
            &&& post.groups@[g].members@ == if pre.groups@[g].members@.contains(uid) {
                pre.groups@[g].members@
            } else {
                pre.groups@[g].members@.push(uid)
            }
        },
        None => false,
    })
    &&& (match find_user(pre.users@, uid) {
        Some(u) => {
            &&& post.users@.len() == pre.users@.len()
            &&& forall|k: int|
                0 <= k < pre.users@.len() && k != u ==> post.users@[k] == pre.users@[k]
            &&& post.users@[u].id == pre.users@[u].id
            &&& post.users@[u].capacity == pre.users@[u].capacity
            &&& post.users@[u].mailbox == pre.users@[u].mailbox
            &&& if has_name(pre.users@[u].groups@, name) {
                post.users@[u].groups == pre.users@[u].groups
            } else {
                post.users@[u].groups@ == pre.users@[u].groups@.push(
                    post.users@[u].groups@.last(),
                ) && (post.users@[u].groups@.last())@ == name
            }
        },
        None => false,
    })
}

/// What a successful `leave_group` does: `uid` is swap-removed from the
/// member list if present, the group's name is removed from the user's
/// record if present, and nothing else changes. Leaving a group one is not
/// a member of changes nothing.
pub open spec fn leave_effect(pre: GroupsManager, post: GroupsManager, name: Seq<char>, uid: u32) -> bool {
    &&& (match find_group(pre.groups@, name) {
        Some(g) => {
            &&& post.groups@.len() == pre.groups@.len()
            &&& forall|k: int|
                0 <= k < pre.groups@.len() && k != g ==> post.groups@[k] == pre.groups@[k]
            &&& post.groups@[g].name@ == pre.groups@[g].name@
            &&& post.groups@[g].capacity == pre.groups@[g].capacity
            &&& if pre.groups@[g].members@.contains(uid) {
                exists|p: int|
                    0 <= p < pre.groups@[g].members@.len() && pre.groups@[g].members@[p] == uid
                        && post.groups@[g].members@ == pre.groups@[g].members@.update(
                        p,
                        pre.groups@[g].members@.last(),
                    ).drop_last()
            } else {
                post.groups@[g].members == pre.groups@[g].members
            }
        },
        None => false,
    })
    &&& if pre.spec_is_member(name, uid) {
        match find_user(pre.users@, uid) {
            Some(u) => {
                &&& post.users@.len() == pre.users@.len()
                &&& (forall|k: int|
                    0 <= k < pre.users@.len() ==> {
                        &&& (#[trigger] post.users@[k]).id == pre.users@[k].id
                        &&& post.users@[k].capacity == pre.users@[k].capacity
                        &&& (k != u ==> post.users@[k].groups == pre.users@[k].groups)
                        // the remaining members' forwarding tasks observe a
                        // nine-byte close notice for the leaver
                        &&& post.users@[k].mailbox.deep_view() == if post.groups@[find_group(
                            pre.groups@,
                            name,
                        )->Some_0].members@.contains(pre.users@[k].id) {
                            deliver_spec(
                                pre.users@[k].mailbox.deep_view(),
                                pre.users@[k].capacity as int,
                                crate::frame::spec_header(crate::frame::FrameType::Close, uid, uid),
                            )
                        } else {
                            pre.users@[k].mailbox.deep_view()
                        }
                    })
                &&& exists|q: int|
                    0 <= q < pre.users@[u].groups@.len() && (pre.users@[u].groups@[q])@ == name
                        && post.users@[u].groups@ == pre.users@[u].groups@.remove(q)
            },
            None => false,
        }
    } else {
        post.users@ == pre.users@
    }
}

impl GroupsManager {
    /// Join `user` to the group called `name`. Fails with `GroupNotFound`
    /// when no such group exists and with `NotInitiated` when the user has
    /// no mailbox; joining a group one is already a member of is a no-op.
    pub fn join_group(&mut self, name: String, user: u32) -> (r: Result<(), GroupError>)
        requires
            old(self).wf(),
        ensures
            final(self).wf(),
            r == Err::<(), GroupError>(GroupError::GroupNotFound) <==> !old(self).spec_group_exists(
                name@,
            ),
            r == Err::<(), GroupError>(GroupError::NotInitiated) <==> (old(self).spec_group_exists(
                name@,
            ) && !old(self).spec_user_exists(user)),
            r is Err ==> final(self).groups == old(self).groups && final(self).users == old(self).users,
            r is Ok <==> old(self).spec_group_exists(name@) && old(self).spec_user_exists(user),
            r is Ok ==> join_effect(*old(self), *final(self), name@, user),
            r is Ok ==> final(self).spec_is_member(name@, user),
    {
        let gi = match self.group_index(name.as_str()) {
            None => {
                return Err(GroupError::GroupNotFound);
            },
            Some(gi) => gi,
        };
        let ui = match self.user_index(user) {
            None => {
                return Err(GroupError::NotInitiated);
            },
            Some(ui) => ui,
        };
        proof {
            lemma_find_group(self.groups@, name@);
            lemma_find_user(self.users@, user);
        }
        let is_member = position_u32(&self.groups[gi].members, user).is_some();
        if !is_member {
            let ghost pre = *self;
            let mut g = self.groups.remove(gi);
            g.members.push(user);
            self.groups.insert(gi, g);
            let mut u = self.users.remove(ui);
            u.groups.push(name);
            self.users.insert(ui, u);
            proof {
                assert(self.groups@ =~= pre.groups@.update(gi as int, self.groups@[gi as int]));
                assert(self.users@ =~= pre.users@.update(ui as int, self.users@[ui as int]));
                lemma_join_updates(pre, *self, name@, user, gi as int, ui as int);
            }
        } else {
            proof {
                assert(self.groups@[gi as int].members@.contains(user));
                assert(self.spec_is_member(name@, user));
                assert(has_name(self.users@[ui as int].groups@, name@)) by {
                    let m = choose|m: int|
                        0 <= m < self.groups@[gi as int].members@.len()
                            && self.groups@[gi as int].members@[m] == user;
                    assert(self.groups[gi as int].members[m] == user);
                    lemma_find_user(self.users@, user);
                };
                assert(join_effect(*old(self), *self, name@, user));
            }
        }
        Ok(())
    }

    /// Remove `user` from the group called `name`. Fails with
    /// `GroupNotFound` when no such group exists; leaving a group one is
    /// not a member of is a no-op, not an error.
    pub fn leave_group(&mut self, name: String, user: u32) -> (r: Result<(), GroupError>)
        requires
            old(self).wf(),
        ensures
            final(self).wf(),
            r == Err::<(), GroupError>(GroupError::GroupNotFound) <==> !old(self).spec_group_exists(
                name@,
            ),
            r is Err ==> final(self).groups == old(self).groups && final(self).users == old(self).users,
            r is Ok <==> old(self).spec_group_exists(name@),
            r is Ok ==> leave_effect(*old(self), *final(self), name@, user),
            r is Ok ==> !final(self).spec_is_member(name@, user),
            (old(self).spec_group_exists(name@) && !old(self).spec_is_member(name@, user)) ==> (
            final(self).groups == old(self).groups && final(self).users == old(self).users),
    {
        let gi = match self.group_index(name.as_str()) {
            None => {
                return Err(GroupError::GroupNotFound);
            },
            Some(gi) => gi,
        };
        proof {
            lemma_find_group(self.groups@, name@);
        }
        let pos = position_u32(&self.groups[gi].members, user);
        match pos {
            None => {
                proof {
                    assert(!old(self).spec_is_member(name@, user));
                    assert(leave_effect(*old(self), *self, name@, user));
                }
                Ok(())
            },
            Some(p) => {
                let ghost pre = *self;
                proof {
                    assert(pre.groups@[gi as int].members@.contains(user)) by {
                        assert(pre.groups@[gi as int].members@[p as int] == user);
                    };
                    // membership implies the user entry exists
                    assert(find_user(pre.users@, user) is Some) by {
                        assert(pre.groups@[gi as int].members@[p as int] == user);
                    };
                    lemma_find_user(pre.users@, user);
                }
                let mut g = self.groups.remove(gi);
                g.members.swap_remove(p);
                self.groups.insert(gi, g);
                let ui = match self.user_index(user) {
                    Some(ui) => ui,
                    None => {
                        proof {
                            assert(forall|k: int|
                                0 <= k < self.users@.len() ==> (#[trigger] self.users@[k]).id
                                    == pre.users@[k].id);
                            lemma_find_user_same_ids(self.users@, pre.users@, user);
                            assert(false);
                        }
                        return Err(GroupError::GroupNotFound);
                    },
                };
                proof {
                    assert(find_user(pre.users@, user) == Some(ui as int)) by {
                        assert(forall|k: int|
                            0 <= k < self.users@.len() ==> (#[trigger] self.users@[k]).id
                                == pre.users@[k].id);
                        lemma_find_user_same_ids(self.users@, pre.users@, user);
                    };
                }
                let mut u = self.users.remove(ui);
                let q = match position_name(&u.groups, name.as_str()) {
                    Some(q) => q,
                    None => {
                        proof {
                            assert(has_name(pre.users@[ui as int].groups@, name@)) by {
                                assert(pre.groups@[gi as int].members@[p as int] == user);
                            };
                            assert(false);
                        }
                        self.users.insert(ui, u);
                        return Err(GroupError::GroupNotFound);
                    },
                };
                u.groups.remove(q);
                self.users.insert(ui, u);
                proof {
                    assert(self.groups@ =~= pre.groups@.update(gi as int, self.groups@[gi as int]));
                    assert(self.users@ =~= pre.users@.update(ui as int, self.users@[ui as int]));
                    lemma_leave_updates(
                        pre,
                        *self,
                        name@,
                        user,
                        gi as int,
                        ui as int,
                        p as int,
                        q as int,
                    );
                }
                // broadcast the close notice for the leaver: every
                // remaining member's forwarding task republishes it
                let ghost mid = *self;
                let ghost gidx = gi as int;
                let members = clone_ids(&self.groups[gi].members);
                let fclose = crate::frame::notice_frame(user, false);
                let ghost fview = crate::frame::spec_header(
                    crate::frame::FrameType::Close,
                    user,
                    user,
                );
                let n = self.users.len();
                let mut uu: usize = 0;
                while uu < n
                    invariant
                        self.wf(),
                        uu <= n,
                        n == self.users@.len(),
                        n == mid.users@.len(),
                        self.groups == mid.groups,
                        0 <= gidx < mid.groups@.len(),
                        members@ == mid.groups@[gidx].members@,
                        fclose@ == fview,
                        fview.len() >= 4,
                        forall|k: int| uu <= k < n ==> #[trigger] self.users@[k] == mid.users@[k],
                        forall|k: int|
                            0 <= k < uu ==> {
                                &&& (#[trigger] self.users@[k]).id == mid.users@[k].id
                                &&& self.users@[k].groups == mid.users@[k].groups
                                &&& self.users@[k].capacity == mid.users@[k].capacity
                                &&& self.users@[k].mailbox.deep_view() == if members@.contains(
                                    mid.users@[k].id,
                                ) {
                                    deliver_spec(
                                        mid.users@[k].mailbox.deep_view(),
                                        mid.users@[k].capacity as int,
                                        fview,
                                    )
                                } else {
                                    mid.users@[k].mailbox.deep_view()
                                }
                            },
                    decreases n - uu,
                {
                    let uid2 = self.users[uu].id;
                    let is_member = position_u32(&members, uid2).is_some();
                    proof {
                        if !is_member {
                            assert(!members@.contains(uid2));
                        }
                    }
                    if is_member {
                        let ghost prestate = *self;
                        let copy = crate::fabric::clone_frame(&fclose);
                        proof {
                            assert((#[trigger] self.users@[uu as int]).capacity >= 1);
                        }
                        let mut entry = self.users.remove(uu);
                        entry.deliver(copy);
                        self.users.insert(uu, entry);
                        proof {
                            assert(self.users@ =~= prestate.users@.update(
                                uu as int,
                                self.users@[uu as int],
                            ));
                            lemma_wf_mailboxes_only(prestate, *self);
                        }
                    }
                    uu = uu + 1;
                }
                proof {
                    lemma_find_group(pre.groups@, name@);
                    assert(find_group(pre.groups@, name@) == Some(gi as int));
                    // the leaver is not among the remaining members, so its
                    // own mailbox is untouched, and the record shrink is
                    // carried over from the membership phase
                    assert(leave_effect(*old(self), *self, name@, user)) by {
                        assert(pre.groups@[gi as int].members@.contains(user)) by {
                            assert(pre.groups@[gi as int].members@[p as int] == user);
                        };
                        assert(pre.spec_is_member(name@, user));
                        let q0 = choose|q0: int|
                            0 <= q0 < pre.users@[ui as int].groups@.len() && (pre.users@[
                                ui as int
                            ].groups@[q0])@ == name@ && mid.users@[ui as int].groups@ == pre.users@[
                                ui as int
                            ].groups@.remove(q0);
                        assert(self.users@[ui as int].groups@ == pre.users@[
                            ui as int
                        ].groups@.remove(q0));
                    };
                }
                Ok(())
            },
        }
    }
}

/// Pushing `uid` onto the member list and the name onto the user's record
/// preserves the invariant and realizes `join_effect`.
proof fn lemma_join_updates(
    pre: GroupsManager,
    post: GroupsManager,
    name: Seq<char>,
    uid: u32,
    g: int,
    u: int,
)
    requires
        pre.wf(),
        find_group(pre.groups@, name) == Some(g),
        find_user(pre.users@, uid) == Some(u),
        !pre.groups@[g].members@.contains(uid),
        post.groups@ == pre.groups@.update(g, post.groups@[g]),
        post.groups@[g].name == pre.groups@[g].name,
        post.groups@[g].capacity == pre.groups@[g].capacity,
        post.groups@[g].members@ == pre.groups@[g].members@.push(uid),
        post.users@ == pre.users@.update(u, post.users@[u]),
        post.users@[u].id == pre.users@[u].id,
        post.users@[u].capacity == pre.users@[u].capacity,
        post.users@[u].mailbox == pre.users@[u].mailbox,
        post.users@[u].groups@ == pre.users@[u].groups@.push(post.users@[u].groups@.last()),
        (post.users@[u].groups@.last())@ == name,
    ensures
        post.wf(),
        join_effect(pre, post, name, uid),
        post.spec_is_member(name, uid),
{
    lemma_find_group(pre.groups@, name);
    lemma_find_user(pre.users@, uid);
    assert(forall|k: int| 0 <= k < pre.groups@.len() && k != g ==> post.groups@[k] == pre.groups@[k]);
    assert(forall|k: int| 0 <= k < pre.users@.len() && k != u ==> post.users@[k] == pre.users@[k]);
    assert(forall|k: int|
        0 <= k < pre.groups@.len() ==> (#[trigger] post.groups@[k]).name@ == pre.groups@[k].name@);
    assert(forall|k: int|
        0 <= k < pre.users@.len() ==> (#[trigger] post.users@[k]).id == pre.users@[k].id);
    lemma_find_group_same_names(post.groups@, pre.groups@, name);
    lemma_find_user_same_ids(post.users@, pre.users@, uid);
    // the user's record did not hold the name before (mirror invariant)
    assert(!has_name(pre.users@[u].groups@, name)) by {
        if has_name(pre.users@[u].groups@, name) {
            let q = choose|q: int|
                0 <= q < pre.users@[u].groups@.len() && (#[trigger] pre.users@[u].groups@[q])@
                    == name;
            assert(pre.users[u].groups[q]@ == name);
            assert(match find_group(pre.groups@, name) {
                Some(gg) => pre.groups@[gg].members@.contains(pre.users@[u].id),
                None => false,
            });
        }
    };
    assert(join_effect(pre, post, name, uid));
    // invariant, clause by clause
    let pm = post.groups@[g].members@;
    assert(pm.last() == uid);
    assert forall|i: int, j: int| 0 <= i < j < pm.len() implies pm[i] != pm[j] by {
        if j == pm.len() - 1 {
            assert(pm[i] == pre.groups@[g].members@[i]);
            if pm[i] == uid {
                assert(pre.groups@[g].members@.contains(uid)) by {
                    assert(pre.groups@[g].members@[i] == uid);
                };
            }
        }
    };
    let pg = post.users@[u].groups@;
    assert forall|i: int, j: int| 0 <= i < j < pg.len() implies pg[i]@ != pg[j]@ by {
        if j == pg.len() - 1 {
            assert(pg[i] == pre.users@[u].groups@[i]);
            if pg[i]@ == name {
                assert(has_name(pre.users@[u].groups@, name)) by {
                    assert((pre.users@[u].groups@[i])@ == name);
                };
            }
        }
    };
    // membership implies a user entry recording the name
    assert forall|g2: int, m: int|
        0 <= g2 < post.groups.len() && 0 <= m < (#[trigger] post.groups[g2]).members.len() implies ({
        let v = #[trigger] post.groups[g2].members[m];
        match find_user(post.users@, v) {
            Some(uu) => has_name(post.users@[uu].groups@, post.groups[g2].name@),
            None => false,
        }
    }) by {
        let v = post.groups[g2].members[m];
        lemma_find_user_same_ids(post.users@, pre.users@, v);
        if g2 == g && m == pm.len() - 1 {
            assert(v == uid);
            assert(find_user(post.users@, uid) == Some(u));
            assert(has_name(post.users@[u].groups@, post.groups[g2].name@)) by {
                assert((post.users@[u].groups@[pg.len() - 1])@ == name);
            };
        } else {
            assert(pre.groups@[g2].members@[m] == v) by {
                if g2 == g {
                    assert(pm[m] == pre.groups@[g2].members@[m]);
                }
            };
            assert(pre.groups[g2].members[m] == v);
            assert(match find_user(pre.users@, v) {
                Some(uu) => has_name(pre.users@[uu].groups@, pre.groups@[g2].name@),
                None => false,
            });
            let uu = find_user(pre.users@, v)->Some_0;
            lemma_find_user(pre.users@, v);
            if uu == u {
                assert(has_name(post.users@[u].groups@, pre.groups@[g2].name@)) by {
                    let q = choose|q: int|
                        0 <= q < pre.users@[u].groups@.len() && (#[trigger] pre.users@[u].groups@[q])@
                            == pre.groups@[g2].name@;
                    assert((post.users@[u].groups@[q])@ == pre.groups@[g2].name@);
                };
            } else {
                assert(post.users@[uu] == pre.users@[uu]);
            }
        }
    };
    // a recorded name implies membership
    assert forall|u2: int, i: int|
        0 <= u2 < post.users.len() && 0 <= i < (#[trigger] post.users[u2]).groups.len() implies ({
        let n2 = (#[trigger] post.users[u2].groups[i])@;
        match find_group(post.groups@, n2) {
            Some(gg) => post.groups@[gg].members@.contains(post.users[u2].id),
            None => false,
        }
    }) by {
        let n2 = (post.users[u2].groups[i])@;
        lemma_find_group_same_names(post.groups@, pre.groups@, n2);
        if u2 == u && i == pg.len() - 1 {
            assert(n2 == name);
            assert(find_group(post.groups@, name) == Some(g));
            assert(post.groups@[g].members@.contains(uid)) by {
                assert(post.groups@[g].members@[pm.len() - 1] == uid);
            };
        } else {
            assert(pre.users@[u2].groups@[i] == post.users@[u2].groups@[i]) by {
                if u2 == u {
                    assert(pg[i] == pre.users@[u].groups@[i]);
                }
            };
            assert(pre.users[u2].groups[i] == post.users[u2].groups[i]);
            assert(match find_group(pre.groups@, n2) {
                Some(gg) => pre.groups@[gg].members@.contains(pre.users@[u2].id),
                None => false,
            });
            let gg = find_group(pre.groups@, n2)->Some_0;
            lemma_find_group(pre.groups@, n2);
            assert(post.users@[u2].id == pre.users@[u2].id);
            if gg == g {
                let m = choose|m: int|
                    0 <= m < pre.groups@[g].members@.len() && pre.groups@[g].members@[m]
                        == pre.users@[u2].id;
                assert(post.groups@[g].members@[m] == pre.users@[u2].id);
            } else {
                assert(post.groups@[gg] == pre.groups@[gg]);
            }
        }
    };
    assert(post.spec_is_member(name, uid)) by {
        assert(find_group(post.groups@, name) == Some(g));
        assert(post.groups@[g].members@[pm.len() - 1] == uid);
    };
}

/// Swap-removing `uid` from the member list and removing the name from the
/// user's record preserves the invariant and realizes `leave_effect`.
proof fn lemma_leave_updates(
    pre: GroupsManager,
    post: GroupsManager,
    name: Seq<char>,
    uid: u32,
    g: int,
    u: int,
    p: int,
    q: int,
)
    requires
        pre.wf(),
        find_group(pre.groups@, name) == Some(g),
        find_user(pre.users@, uid) == Some(u),
        0 <= p < pre.groups@[g].members@.len(),
        pre.groups@[g].members@[p] == uid,
        forall|j: int| 0 <= j < p ==> pre.groups@[g].members@[j] != uid,
        0 <= q < pre.users@[u].groups@.len(),
        (pre.users@[u].groups@[q])@ == name,
        post.groups@ == pre.groups@.update(g, post.groups@[g]),
        post.groups@[g].name == pre.groups@[g].name,
        post.groups@[g].capacity == pre.groups@[g].capacity,
        post.groups@[g].members@ == pre.groups@[g].members@.update(
            p,
            pre.groups@[g].members@.last(),
        ).drop_last(),
        post.users@ == pre.users@.update(u, post.users@[u]),
        post.users@[u].id == pre.users@[u].id,
        post.users@[u].capacity == pre.users@[u].capacity,
        post.users@[u].mailbox == pre.users@[u].mailbox,
        post.users@[u].groups@ == pre.users@[u].groups@.remove(q),
    ensures
        post.wf(),
        !post.spec_is_member(name, uid),
    {
    lemma_find_group(pre.groups@, name);
    lemma_find_user(pre.users@, uid);
    let om = pre.groups@[g].members@;
    let nm = post.groups@[g].members@;
    let og = pre.users@[u].groups@;
    let ng = post.users@[u].groups@;
    assert(forall|k: int| 0 <= k < pre.groups@.len() && k != g ==> post.groups@[k] == pre.groups@[k]);
    assert(forall|k: int| 0 <= k < pre.users@.len() && k != u ==> post.users@[k] == pre.users@[k]);
    assert(forall|k: int| 0 <= k < pre.groups@.len() ==> (#[trigger] post.groups@[k]).name@ == pre.groups@[k].name@);
    assert(forall|k: int| 0 <= k < pre.users@.len() ==> (#[trigger] post.users@[k]).id == pre.users@[k].id);
    lemma_find_group_same_names(post.groups@, pre.groups@, name);
    lemma_find_user_same_ids(post.users@, pre.users@, uid);
    // shape of the new member list
    assert(nm.len() == om.len() - 1);
    assert(forall|k: int| 0 <= k < nm.len() && k != p ==> nm[k] == om[k]);
    assert(p < nm.len() ==> nm[p] == om.last());
    // uid occurs only at p in the old list
    assert(forall|k: int| 0 <= k < om.len() && k != p ==> om[k] != uid);
    // the new list does not hold uid
    assert forall|k: int| 0 <= k < nm.len() implies nm[k] != uid by {
        if k == p {
            assert(om.last() != uid || p == om.len() - 1);
        }
    };
    assert(!nm.contains(uid));
    // every other old member survives
    assert forall|v: u32| v != uid && om.contains(v) implies nm.contains(v) by {
        let k = choose|k: int| 0 <= k < om.len() && om[k] == v;
        if k == om.len() - 1 {
            assert(p < om.len() - 1) by {
                if p == om.len() - 1 {
                    assert(om[p] == uid);
                }
            };
            assert(nm[p] == v);
        } else if k == p {
            assert(false);
        } else {
            assert(nm[k] == v);
        }
    };
    // and no new members appear
    assert forall|v: u32| nm.contains(v) implies om.contains(v) by {
        let k = choose|k: int| 0 <= k < nm.len() && nm[k] == v;
        if k == p {
            assert(om[om.len() - 1] == v);
        } else {
            assert(om[k] == v);
        }
    };
    // new member list is duplicate free
    assert forall|i: int, j: int| 0 <= i < j < nm.len() implies nm[i] != nm[j] by {
        let a = if i == p { om.len() - 1 } else { i };
        let b = if j == p { om.len() - 1 } else { j };
        assert(nm[i] == om[a] && nm[j] == om[b]);
        assert(a != b);
    };
    // shape of the new record list
    assert(ng.len() == og.len() - 1);
    assert(forall|k: int| 0 <= k < q ==> ng[k] == og[k]);
    assert(forall|k: int| q <= k < ng.len() ==> ng[k] == og[k + 1]);
    // the name occurs only at q in the old record
    assert forall|k: int| 0 <= k < og.len() && k != q implies (og[k])@ != name by {
        if k < q {
            assert((og[k])@ != (og[q])@);
        } else {
            assert((og[q])@ != (og[k])@);
        }
    };
    assert forall|k: int| 0 <= k < ng.len() implies (#[trigger] ng[k])@ != name by {
        if k < q {
            assert(ng[k] == og[k]);
        } else {
            assert(ng[k] == og[k + 1]);
        }
    };
    // record list stays duplicate free
    assert forall|i: int, j: int| 0 <= i < j < ng.len() implies ng[i]@ != ng[j]@ by {
        let a = if i < q { i } else { i + 1 };
        let b = if j < q { j } else { j + 1 };
        assert(ng[i] == og[a] && ng[j] == og[b]);
        assert(a < b);
    };
    // membership implies a user entry recording the name
    assert forall|g2: int, m: int|
        0 <= g2 < post.groups.len() && 0 <= m < (#[trigger] post.groups[g2]).members.len() implies ({
        let v = #[trigger] post.groups[g2].members[m];
        match find_user(post.users@, v) {
            Some(uu) => has_name(post.users@[uu].groups@, post.groups[g2].name@),
            None => false,
        }
    }) by {
        let v = post.groups[g2].members[m];
        assert(pre.groups@[g2].members@.contains(v)) by {
            if g2 == g {
                assert(nm.contains(v)) by {
                    assert(nm[m] == v);
                };
            } else {
                assert(pre.groups@[g2].members@[m] == v);
            }
        };
        let m0 = choose|m0: int|
            0 <= m0 < pre.groups@[g2].members@.len() && pre.groups@[g2].members@[m0] == v;
        assert(pre.groups[g2].members[m0] == v);
        assert(match find_user(pre.users@, v) {
            Some(uu) => has_name(pre.users@[uu].groups@, pre.groups@[g2].name@),
            None => false,
        });
        lemma_find_user_same_ids(post.users@, pre.users@, v);
        let uu = find_user(pre.users@, v)->Some_0;
        lemma_find_user(pre.users@, v);
        if uu == u {
            // v is uid; uid is no longer a member of g, so g2 differs from
            // g and its name survives in the shortened record
            assert(v == uid);
            assert(g2 != g) by {
                if g2 == g {
                    assert(nm.contains(uid)) by {
                        assert(nm[m] == v);
                    };
                }
            };
            let n2 = pre.groups@[g2].name@;
            assert(n2 != name) by {
                lemma_find_group(pre.groups@, n2);
                if n2 == name {
                    assert(find_group(pre.groups@, name) == Some(g));
                    lemma_find_group(pre.groups@, name);
                    assert(pre.groups@[g].name@ == name);
                    if g2 < g {
                        assert(pre.groups@[g2].name@ != pre.groups@[g].name@);
                    } else {
                        assert(pre.groups@[g].name@ != pre.groups@[g2].name@);
                    }
                }
            };
            let q2 = choose|q2: int|
                0 <= q2 < og.len() && (#[trigger] og[q2])@ == n2;
            assert(q2 != q);
            if q2 < q {
                assert((ng[q2])@ == n2);
            } else {
                assert((ng[q2 - 1])@ == n2);
            }
            assert(has_name(ng, n2));
        } else {
            assert(post.users@[uu] == pre.users@[uu]);
        }
    };
    // a recorded name implies membership
    assert forall|u2: int, i: int|
        0 <= u2 < post.users.len() && 0 <= i < (#[trigger] post.users[u2]).groups.len() implies ({
        let n2 = (#[trigger] post.users[u2].groups[i])@;
        match find_group(post.groups@, n2) {
            Some(gg) => post.groups@[gg].members@.contains(post.users[u2].id),
            None => false,
        }
    }) by {
        let n2 = (post.users[u2].groups[i])@;
        lemma_find_group_same_names(post.groups@, pre.groups@, n2);
        let i0: int = if u2 == u {
            if i < q { i } else { i + 1 }
        } else {
            i
        };
        assert(pre.users@[u2].groups@[i0]@ == n2) by {
            if u2 == u {
                if i < q {
                    assert(ng[i] == og[i]);
                } else {
                    assert(ng[i] == og[i + 1]);
                }
            }
        };
        assert(pre.users[u2].groups[i0]@ == n2);
        assert(match find_group(pre.groups@, n2) {
            Some(gg) => pre.groups@[gg].members@.contains(pre.users@[u2].id),
            None => false,
        });
        let gg = find_group(pre.groups@, n2)->Some_0;
        lemma_find_group(pre.groups@, n2);
        assert(post.users@[u2].id == pre.users@[u2].id);
        if gg == g {
            // the member is not uid: uid's only record of this group was
            // removed, and ids are unique
            assert(pre.users@[u2].id != uid || u2 == u) by {
                if pre.users@[u2].id == uid && u2 != u {
                    lemma_find_user(pre.users@, uid);
                    if u2 < u {
                        assert(pre.users@[u2].id != pre.users@[u].id);
                    } else {
                        assert(pre.users@[u].id != pre.users@[u2].id);
                    }
                }
            };
            if u2 == u {
                assert(n2 != name);
                assert(pre.groups@[g].name@ == name);
                assert(false);
            } else {
                assert(nm.contains(pre.users@[u2].id));
            }
        } else {
            assert(post.groups@[gg] == pre.groups@[gg]);
        }
    };
    assert(post.wf());
    assert(!post.spec_is_member(name, uid)) by {
        assert(find_group(post.groups@, name) == Some(g));
    };
}

/// Copy a list of member ids.
fn clone_ids(v: &Vec<u32>) -> (r: Vec<u32>)
    ensures
        r@ == v@,
{
    let r = v.clone();
    assert(r@ =~= v@);
    r
}

impl UserEntry {
    /// Admit one frame into the mailbox, dropping the oldest when full.
    fn deliver(&mut self, f: Vec<u8>)
        requires
            old(self).capacity >= 1,
            old(self).mailbox.len() <= old(self).capacity,
        ensures
            final(self).id == old(self).id,
            final(self).groups == old(self).groups,
            final(self).capacity == old(self).capacity,
            final(self).mailbox.len() <= final(self).capacity,
            final(self).mailbox.deep_view() == deliver_spec(
                old(self).mailbox.deep_view(),
                old(self).capacity as int,
                f@,
            ),
    {
        if self.mailbox.len() >= self.capacity {
            let ghost pre = self.mailbox.deep_view();
            self.mailbox.remove(0);
            assert(self.mailbox.deep_view() =~= pre.skip(1));
        }
        let ghost mid = self.mailbox.deep_view();
        assert(f.deep_view() =~= f@);
        self.mailbox.push(f);
        assert(self.mailbox.deep_view() =~= mid.push(f@));
    }
}

impl GroupsManager {
    /// Publish a frame on a group's fanout bus. Every member's forwarding
    /// task republishes it into that member's mailbox, except the member
    /// whose id the frame's first four bytes carry (self-message
    /// suppression). Fails with `GroupNotFound` when no such group exists
    /// and with `MessageSendFail` when the group has no members (the bus
    /// has no receivers).
    pub fn send_message_to_group(&mut self, group: String, data: Vec<u8>) -> (r: Result<
        usize,
        GroupError,
    >)
        requires
            old(self).wf(),
            data@.len() >= 4,
        ensures
            final(self).wf(),
            final(self).groups == old(self).groups,
            r == Err::<usize, GroupError>(GroupError::GroupNotFound) <==> !old(self).spec_group_exists(group@),
            r is Ok <==> (match find_group(old(self).groups@, group@) {
                Some(g) => old(self).groups@[g].members@.len() > 0,
                None => false,
            }),
            r is Err ==> final(self).users == old(self).users,
            ({
                match find_group(old(self).groups@, group@) {
                    Some(g) => {
                        &&& (r == Err::<usize, GroupError>(GroupError::MessageSendFail) <==> old(self).groups@[g].members@.len() == 0)
                        &&& (r is Ok ==> r == Ok::<usize, GroupError>(
                            old(self).groups@[g].members@.len() as usize,
                        ))
                        &&& (r is Ok ==> {
                            &&& final(self).users@.len() == old(self).users@.len()
                            &&& forall|u: int|
                                0 <= u < old(self).users@.len() ==> {
                                    &&& (#[trigger] final(self).users@[u]).id == old(self).users@[u].id
                                    &&& final(self).users@[u].groups == old(self).users@[u].groups
                                    &&& final(self).users@[u].capacity == old(self).users@[u].capacity
                                    &&& final(self).users@[u].mailbox.deep_view() == if old(self).groups@[g].members@.contains(old(self).users@[u].id)
                                        && group_frame_from(data@) != old(self).users@[u].id {
                                        deliver_spec(
                                            old(self).users@[u].mailbox.deep_view(),
                                            old(self).users@[u].capacity as int,
                                            data@,
                                        )
                                    } else {
                                        old(self).users@[u].mailbox.deep_view()
                                    }
                                }
                        })
                    },
                    None => r == Err::<usize, GroupError>(GroupError::GroupNotFound),
                }
            }),
    {
        let gi = match self.group_index(group.as_str()) {
            None => {
                return Err(GroupError::GroupNotFound);
            },
            Some(gi) => gi,
        };
        proof {
            lemma_find_group(self.groups@, group@);
        }
        if self.groups[gi].members.len() == 0 {
            return Err(GroupError::MessageSendFail);
        }
        let members = clone_ids(&self.groups[gi].members);
        let count = members.len();
        let from = crate::frame::read_group_frame_from(&data);
        let n = self.users.len();
        let mut u: usize = 0;
        while u < n
            invariant
                self.wf(),
                u <= n,
                n == self.users.len(),
                n == old(self).users.len(),
                self.groups == old(self).groups,
                members@ == old(self).groups@[find_group(old(self).groups@, group@)->Some_0].members@,
                from == group_frame_from(data@),
                data@.len() >= 4,
                forall|k: int| u <= k < n ==> #[trigger] self.users@[k] == old(self).users@[k],
                forall|k: int|
                    0 <= k < u ==> {
                        &&& (#[trigger] self.users@[k]).id == old(self).users@[k].id
                        &&& self.users@[k].groups == old(self).users@[k].groups
                        &&& self.users@[k].capacity == old(self).users@[k].capacity
                        &&& self.users@[k].mailbox.deep_view() == if members@.contains(old(self).users@[k].id) && group_frame_from(data@) != old(self).users@[k].id {
                            deliver_spec(
                                old(self).users@[k].mailbox.deep_view(),
                                old(self).users@[k].capacity as int,
                                data@,
                            )
                        } else {
                            old(self).users@[k].mailbox.deep_view()
                        }
                    },
            decreases n - u,
        {
            let uid = self.users[u].id;
            let is_member = position_u32(&members, uid).is_some();
            proof {
                if !is_member {
                    assert(!members@.contains(uid));
                }
            }
            if is_member && from != uid {
                let ghost prestate = *self;
                let copy = crate::fabric::clone_frame(&data);
                proof {
                    assert((#[trigger] self.users@[u as int]).capacity >= 1);
                }
                let mut entry = self.users.remove(u);
                entry.deliver(copy);
                self.users.insert(u, entry);
                proof {
                    assert(self.users@ =~= prestate.users@.update(u as int, self.users@[u as int]));
                    lemma_wf_mailboxes_only(prestate, *self);
                }
            }
            u = u + 1;
        }
        Ok(count)
    }

    /// Deliver a frame straight into one member's mailbox on a group.
    /// Fails with `GroupNotFound` when no such group exists and with
    /// `MessageSendFail` when the user is not a member of it.
    pub fn send_message_to_user(&mut self, group: String, user: u32, data: Vec<u8>) -> (r: Result<
        usize,
        GroupError,
    >)
        requires
            old(self).wf(),
        ensures
            final(self).wf(),
            final(self).groups == old(self).groups,
            r == Err::<usize, GroupError>(GroupError::GroupNotFound) <==> !old(self).spec_group_exists(group@),
            r is Ok <==> old(self).spec_is_member(group@, user),
            old(self).spec_group_exists(group@) ==> (r == Err::<usize, GroupError>(
                GroupError::MessageSendFail,
            ) <==> !old(self).spec_is_member(group@, user)),
            r is Err ==> final(self).users == old(self).users,
            r is Ok ==> ({
                &&& find_user(old(self).users@, user) matches Some(u) && {
                    &&& final(self).users@.len() == old(self).users@.len()
                    &&& forall|k: int|
                        0 <= k < old(self).users@.len() && k != u ==> final(self).users@[k] == old(self).users@[k]
                    &&& final(self).users@[u].id == old(self).users@[u].id
                    &&& final(self).users@[u].groups == old(self).users@[u].groups
                    &&& final(self).users@[u].capacity == old(self).users@[u].capacity
                    &&& final(self).users@[u].mailbox.deep_view() == deliver_spec(
                        old(self).users@[u].mailbox.deep_view(),
                        old(self).users@[u].capacity as int,
                        data@,
                    )
                }
                &&& r == Ok::<usize, GroupError>(1)
            }),
    {
        let gi = match self.group_index(group.as_str()) {
            None => {
                return Err(GroupError::GroupNotFound);
            },
            Some(gi) => gi,
        };
        proof {
            lemma_find_group(self.groups@, group@);
        }
        let is_member = position_u32(&self.groups[gi].members, user).is_some();
        if !is_member {
            proof {
                assert(!old(self).spec_is_member(group@, user));
            }
            return Err(GroupError::MessageSendFail);
        }
        proof {
            assert(self.groups@[gi as int].members@.contains(user));
            let m = choose|m: int|
                0 <= m < self.groups@[gi as int].members@.len()
                    && self.groups@[gi as int].members@[m] == user;
            assert(self.groups[gi as int].members[m] == user);
            lemma_find_user(self.users@, user);
        }
        let ui = match self.user_index(user) {
            Some(ui) => ui,
            None => {
                proof {
                    assert(false);
                }
                return Err(GroupError::MessageSendFail);
            },
        };
        let ghost prestate = *self;
        proof {
            assert((#[trigger] self.users@[ui as int]).capacity >= 1);
        }
        let mut entry = self.users.remove(ui);
        entry.deliver(data);
        self.users.insert(ui, entry);
        proof {
            assert(self.users@ =~= prestate.users@.update(ui as int, self.users@[ui as int]));
            lemma_wf_mailboxes_only(prestate, *self);
        }
        Ok(1)
    }

    /// Take the oldest frame out of the user's mailbox, if any. Fails
    /// with `NotInitiated` when the user has no mailbox.
    pub fn pop_user_frame(&mut self, user: u32) -> (r: Result<Option<Vec<u8>>, GroupError>)
        requires
            old(self).wf(),
        ensures
            final(self).wf(),
            final(self).groups == old(self).groups,
            r == Err::<Option<Vec<u8>>, GroupError>(GroupError::NotInitiated) <==> !old(self).spec_user_exists(user),
            r is Ok <==> old(self).spec_user_exists(user),
            r is Err ==> final(self).users == old(self).users,
            r == Ok::<Option<Vec<u8>>, GroupError>(None) ==> final(self).users == old(self).users
                && old(self).spec_user_inbox(user) == Some(Seq::<Seq<u8>>::empty()),
            ({
                match r {
                    Ok(Some(f)) => {
                        &&& find_user(old(self).users@, user) matches Some(u) && {
                            &&& old(self).users@[u].mailbox.deep_view().len() > 0
                            &&& f@ == old(self).users@[u].mailbox.deep_view()[0]
                            &&& final(self).users@.len() == old(self).users@.len()
                            &&& (forall|k: int|
                                0 <= k < old(self).users@.len() && k != u ==> (final(self).users@[k] == old(self).users@[k]))
                            &&& final(self).users@[u].id == old(self).users@[u].id
                            &&& final(self).users@[u].groups == old(self).users@[u].groups
                            &&& final(self).users@[u].capacity == old(self).users@[u].capacity
                            &&& final(self).users@[u].mailbox.deep_view() == old(self).users@[u].mailbox.deep_view().skip(1)
                        }
                    },
                    _ => true,
                }
            }),
    {
        let ui = match self.user_index(user) {
            None => {
                return Err(GroupError::NotInitiated);
            },
            Some(ui) => ui,
        };
        proof {
            lemma_find_user(self.users@, user);
        }
        if self.users[ui].mailbox.len() == 0 {
            proof {
                assert(self.users@[ui as int].mailbox.deep_view() =~= Seq::<Seq<u8>>::empty());
            }
            return Ok(None);
        }
        let ghost prestate = *self;
        proof {
            assert((#[trigger] self.users@[ui as int]).capacity >= 1);
        }
        let mut entry = self.users.remove(ui);
        let ghost premb = entry.mailbox.deep_view();
        let f = entry.mailbox.remove(0);
        assert(entry.mailbox.deep_view() =~= premb.skip(1));
        self.users.insert(ui, entry);
        proof {
            assert(self.users@ =~= prestate.users@.update(ui as int, self.users@[ui as int]));
            lemma_wf_mailboxes_only(prestate, *self);
        }
        Ok(Some(f))
    }

    /// Join the group, creating it with the default capacity first when it
    /// does not exist; afterwards the group exists either way. Fails only
    /// with `NotInitiated`, when the user has no mailbox — never with
    /// `GroupNotFound`.
    pub fn join_or_create(&mut self, user: u32, group: String) -> (r: Result<(), GroupError>)
        requires
            old(self).wf(),
        ensures
            final(self).wf(),
            r is Ok <==> old(self).spec_user_exists(user),
            r is Err ==> r == Err::<(), GroupError>(GroupError::NotInitiated),
            final(self).spec_group_exists(group@),
            r is Ok ==> final(self).spec_is_member(group@, user),
            (old(self).spec_group_exists(group@) && r is Ok) ==> join_effect(
                *old(self),
                *final(self),
                group@,
                user,
            ),
            !old(self).spec_group_exists(group@) ==> (match find_group(
                final(self).groups@,
                group@,
            ) {
                Some(g) => final(self).groups@[g].capacity == DEFAULT_GROUP_CAPACITY as usize,
                None => false,
            }),
    {
        let exists_already = self.group_exists(group.as_str());
        if exists_already {
            let r = self.join_group(group, user);
            proof {
                if r is Ok {
                    let g = find_group(old(self).groups@, group@)->Some_0;
                    lemma_find_group(old(self).groups@, group@);
                    assert(forall|k: int|
                        0 <= k < self.groups@.len() ==> (#[trigger] self.groups@[k]).name@ == old(
                            self,
                        ).groups@[k].name@);
                    lemma_find_group_same_names(self.groups@, old(self).groups@, group@);
                } else {
                    assert(self.spec_group_exists(group@));
                }
            }
            match r {
                Ok(()) => Ok(()),
                Err(e) => Err(e),
            }
        } else {
            let name_copy = clone_string(&group);
            self.new_group(name_copy, None);
            let ghost mid = *self;
            proof {
                assert(mid.spec_group_exists(group@));
            }
            let r = self.join_group(group, user);
            proof {
                lemma_find_group(mid.groups@, group@);
                let g = find_group(mid.groups@, group@)->Some_0;
                if r is Ok {
                    assert(join_effect(mid, *self, group@, user));
                    assert(forall|k: int|
                        0 <= k < self.groups@.len() ==> (#[trigger] self.groups@[k]).name@
                            == mid.groups@[k].name@);
                    lemma_find_group_same_names(self.groups@, mid.groups@, group@);
                    assert(self.groups@[g].capacity == mid.groups@[g].capacity);
                } else {
                    assert(self.groups == mid.groups);
                    lemma_find_group_same_names(self.groups@, mid.groups@, group@);
                }
            }
            match r {
                Ok(()) => Ok(()),
                Err(e) => Err(e),
            }
        }
    }

    /// Whether the group has no members. Fails with `GroupNotFound` when
    /// no such group exists.
    pub fn is_group_empty(&self, name: &str) -> (r: Result<bool, GroupError>)
        requires
            self.wf(),
        ensures
            r is Err <==> !self.spec_group_exists(name@),
            r matches Ok(b) ==> b == (self.spec_members(name@) == Some(Seq::<u32>::empty())),
    {
        match self.group_index(name) {
            None => Err(GroupError::GroupNotFound),
            Some(gi) => {
                proof {
                    lemma_find_group(self.groups@, name@);
                }
                let b = self.groups[gi].members.len() == 0;
                proof {
                    if b {
                        assert(self.groups@[gi as int].members@ =~= Seq::<u32>::empty());
                    }
                }
                Ok(b)
            },
        }
    }

    /// The member ids of the group, in join order. Fails with
    /// `GroupNotFound` when no such group exists.
    pub fn group_members(&self, name: &str) -> (r: Result<Vec<u32>, GroupError>)
        ensures
            r is Err <==> !self.spec_group_exists(name@),
            r matches Ok(v) ==> Some(v@) == self.spec_members(name@),
    {
        match self.group_index(name) {
            None => Err(GroupError::GroupNotFound),
            Some(gi) => {
                proof {
                    lemma_find_group(self.groups@, name@);
                }
                Ok(clone_ids(&self.groups[gi].members))
            },
        }
    }

    /// Number of members of the group. Fails with `GroupNotFound` when no
    /// such group exists.
    pub fn user_count(&self, name: &str) -> (r: Result<usize, GroupError>)
        ensures
            r is Err <==> !self.spec_group_exists(name@),
            r matches Ok(c) ==> Some(c as int) == match self.spec_members(name@) {
                Some(m) => Some(m.len() as int),
                None => None::<int>,
            },
    {
        match self.group_index(name) {
            None => Err(GroupError::GroupNotFound),
            Some(gi) => {
                proof {
                    lemma_find_group(self.groups@, name@);
                }
                Ok(self.groups[gi].members.len())
            },
        }
    }
}

/// Copy a string.
pub fn clone_string(s: &String) -> (r: String)
    ensures
        r@ == s@,
{
    s.clone()
}


/// Changing only mailboxes (within capacity) preserves the invariant.
proof fn lemma_wf_mailboxes_only(pre: GroupsManager, post: GroupsManager)
    requires
        pre.wf(),
        post.groups == pre.groups,
        post.users@.len() == pre.users@.len(),
        forall|k: int|
            0 <= k < pre.users@.len() ==> {
                &&& (#[trigger] post.users@[k]).id == pre.users@[k].id
                &&& post.users@[k].groups == pre.users@[k].groups
                &&& post.users@[k].capacity == pre.users@[k].capacity
                &&& post.users@[k].mailbox.len() <= post.users@[k].capacity
            },
    ensures
        post.wf(),
{
    assert forall|g: int, m: int|
        0 <= g < post.groups.len() && 0 <= m < (#[trigger] post.groups[g]).members.len() implies ({
        let v = #[trigger] post.groups[g].members[m];
        match find_user(post.users@, v) {
            Some(u) => has_name(post.users@[u].groups@, post.groups[g].name@),
            None => false,
        }
    }) by {
        let v = post.groups[g].members[m];
        assert(pre.groups[g].members[m] == v);
        assert(match find_user(pre.users@, v) {
            Some(u) => has_name(pre.users@[u].groups@, pre.groups[g].name@),
            None => false,
        });
        assert(forall|k: int|
            0 <= k < post.users@.len() ==> (#[trigger] post.users@[k]).id == pre.users@[k].id);
        lemma_find_user_same_ids(post.users@, pre.users@, v);
        lemma_find_user(pre.users@, v);
        let u = find_user(pre.users@, v)->Some_0;
        assert(post.users@[u].groups == pre.users@[u].groups);
    };
    assert forall|u2: int, i: int|
        0 <= u2 < post.users.len() && 0 <= i < (#[trigger] post.users[u2]).groups.len() implies ({
        let n2 = (#[trigger] post.users[u2].groups[i])@;
        match find_group(post.groups@, n2) {
            Some(gg) => post.groups@[gg].members@.contains(post.users[u2].id),
            None => false,
        }
    }) by {
        assert(post.users@[u2].groups == pre.users@[u2].groups);
        assert(pre.users[u2].groups[i] == post.users[u2].groups[i]);
        let n2 = (post.users[u2].groups[i])@;
        assert(match find_group(pre.groups@, n2) {
            Some(gg) => pre.groups@[gg].members@.contains(pre.users@[u2].id),
            None => false,
        });
        assert(post.users@[u2].id == pre.users@[u2].id);
    };
}


/// Removing one occurrence of the name `x` from a record leaves every
/// other name's presence unchanged.
proof fn lemma_has_name_remove_other(s: Seq<String>, q: int, x: Seq<char>)
    requires
        0 <= q < s.len(),
        (s[q])@ == x,
    ensures
        forall|n2: Seq<char>| n2 != x ==> #[trigger] has_name(s.remove(q), n2) == has_name(s, n2),
{
    let t = s.remove(q);
    assert forall|n2: Seq<char>| n2 != x implies #[trigger] has_name(t, n2) == has_name(s, n2) by {
        if has_name(t, n2) {
            let i = choose|i: int| 0 <= i < t.len() && (#[trigger] t[i])@ == n2;
            if i < q {
                assert((s[i])@ == n2);
            } else {
                assert((s[i + 1])@ == n2);
            }
            assert(has_name(s, n2));
        }
        if has_name(s, n2) {
            let i = choose|i: int| 0 <= i < s.len() && (#[trigger] s[i])@ == n2;
            assert(i != q);
            if i < q {
                assert((t[i])@ == n2);
            } else {
                assert((t[i - 1])@ == n2);
            }
            assert(has_name(t, n2));
        }
    };
}

/// Swap-removing the (unique) occurrence of an element keeps every other
/// element and removes that one.
proof fn lemma_swap_remove_set(s: Seq<u32>, p: int)
    requires
        0 <= p < s.len(),
        forall|i: int, j: int| 0 <= i < j < s.len() ==> s[i] != s[j],
    ensures
        ({
            let t = s.update(p, s.last()).drop_last();
            &&& !t.contains(s[p])
            &&& forall|v: u32| v != s[p] ==> (t.contains(v) == s.contains(v))
        }),
{
    let t = s.update(p, s.last()).drop_last();
    assert(t.len() == s.len() - 1);
    assert(forall|k: int| 0 <= k < t.len() && k != p ==> t[k] == s[k]);
    assert(p < t.len() ==> t[p] == s.last());
    assert forall|k: int| 0 <= k < t.len() implies t[k] != s[p] by {
        if k == p {
            if p < s.len() - 1 {
                assert(s[p] != s[s.len() - 1]);
            }
        } else {
            if k < p {
                assert(s[k] != s[p]);
            } else {
                assert(s[p] != s[k]);
            }
        }
    };
    assert forall|v: u32| v != s[p] && s.contains(v) implies t.contains(v) by {
        let k = choose|k: int| 0 <= k < s.len() && s[k] == v;
        if k == s.len() - 1 {
            assert(p < s.len() - 1) by {
                if p == s.len() - 1 {
                    assert(s[p] == v);
                }
            };
            assert(t[p] == v);
        } else if k == p {
            assert(false);
        } else {
            assert(t[k] == v);
        }
    };
    assert forall|v: u32| t.contains(v) implies s.contains(v) by {
        let k = choose|k: int| 0 <= k < t.len() && t[k] == v;
        if k == p {
            assert(s[s.len() - 1] == v);
        } else {
            assert(s[k] == v);
        }
    };
}

/// How removing an entry shifts `find_user`'s answers for other ids.
proof fn lemma_find_user_remove(us: Seq<UserEntry>, i: int, v: u32)
    requires
        0 <= i < us.len(),
        v != us[i].id,
    ensures
        match find_user(us, v) {
            Some(u0) => find_user(us.remove(i), v) == Some(
                if u0 < i {
                    u0
                } else {
                    u0 - 1
                },
            ),
            None => find_user(us.remove(i), v) is None,
        },
    decreases us.len(),
{
    reveal_with_fuel(find_user, 3);
    let t = us.remove(i);
    assert(t.len() == us.len() - 1);
    if i == 0 {
        assert(t =~= us.skip(1));
        assert(us[0].id != v);
        match find_user(us.skip(1), v) {
            Some(i1) => {
                assert(find_user(us, v) == Some(i1 + 1));
                assert(find_user(t, v) == Some(i1));
            },
            None => {
                assert(find_user(us, v) is None);
                assert(find_user(t, v) is None);
            },
        }
    } else {
        assert(t[0] == us[0]);
        if us[0].id != v {
            assert(t.skip(1) =~= us.skip(1).remove(i - 1));
            assert(us.skip(1)[i - 1] == us[i]);
            lemma_find_user_remove(us.skip(1), i - 1, v);
            match find_user(us.skip(1), v) {
                Some(i1) => {
                    assert(find_user(us, v) == Some(i1 + 1));
                    assert(find_user(t.skip(1), v) == Some(
                        if i1 < i - 1 {
                            i1
                        } else {
                            i1 - 1
                        },
                    ));
                    assert(find_user(t, v) == Some(
                        (if i1 < i - 1 {
                            i1
                        } else {
                            i1 - 1
                        }) + 1,
                    ));
                },
                None => {
                    assert(find_user(us, v) is None);
                    assert(find_user(t.skip(1), v) is None);
                    assert(find_user(t, v) is None);
                },
            }
        } else {
            assert(find_user(us, v) == Some(0int));
            assert(find_user(t, v) == Some(0int));
        }
    }
    lemma_find_user(us, v);
    match find_user(us, v) {
        Some(u0) => {
            assert(0 <= u0);
            assert(find_user(t, v) == Some(
                if u0 < i {
                    u0
                } else {
                    u0 - 1
                },
            ));
        },
        None => {
            assert(find_user(t, v) is None);
        },
    }
}

/// How removing a group shifts `find_group`'s answers for other names.
proof fn lemma_find_group_remove(gs: Seq<GroupState>, i: int, n: Seq<char>)
    requires
        0 <= i < gs.len(),
        n != gs[i].name@,
    ensures
        match find_group(gs, n) {
            Some(g0) => find_group(gs.remove(i), n) == Some(
                if g0 < i {
                    g0
                } else {
                    g0 - 1
                },
            ),
            None => find_group(gs.remove(i), n) is None,
        },
    decreases gs.len(),
{
    reveal_with_fuel(find_group, 3);
    let t = gs.remove(i);
    assert(t.len() == gs.len() - 1);
    if i == 0 {
        assert(t =~= gs.skip(1));
        assert(gs[0].name@ != n);
        match find_group(gs.skip(1), n) {
            Some(i1) => {
                assert(find_group(gs, n) == Some(i1 + 1));
                assert(find_group(t, n) == Some(i1));
            },
            None => {
                assert(find_group(gs, n) is None);
                assert(find_group(t, n) is None);
            },
        }
    } else {
        assert(t[0] == gs[0]);
        if gs[0].name@ != n {
            assert(t.skip(1) =~= gs.skip(1).remove(i - 1));
            assert(gs.skip(1)[i - 1] == gs[i]);
            lemma_find_group_remove(gs.skip(1), i - 1, n);
            match find_group(gs.skip(1), n) {
                Some(i1) => {
                    assert(find_group(gs, n) == Some(i1 + 1));
                    assert(find_group(t.skip(1), n) == Some(
                        if i1 < i - 1 {
                            i1
                        } else {
                            i1 - 1
                        },
                    ));
                    assert(find_group(t, n) == Some(
                        (if i1 < i - 1 {
                            i1
                        } else {
                            i1 - 1
                        }) + 1,
                    ));
                },
                None => {
                    assert(find_group(gs, n) is None);
                    assert(find_group(t.skip(1), n) is None);
                    assert(find_group(t, n) is None);
                },
            }
        } else {
            assert(find_group(gs, n) == Some(0int));
            assert(find_group(t, n) == Some(0int));
        }
    }
    lemma_find_group(gs, n);
    match find_group(gs, n) {
        Some(g0) => {
            assert(0 <= g0);
            assert(find_group(t, n) == Some(
                if g0 < i {
                    g0
                } else {
                    g0 - 1
                },
            ));
        },
        None => {
            assert(find_group(t, n) is None);
        },
    }
}

/// What `init_user` does: nothing when the mailbox exists, otherwise a
/// fresh empty entry is appended.
pub open spec fn init_effect(pre: GroupsManager, post: GroupsManager, uid: u32, cap: usize) -> bool {
    &&& post.groups == pre.groups
    &&& if find_user(pre.users@, uid) is Some {
        post.users == pre.users
    } else {
        &&& post.users@ == pre.users@.push(post.users@.last())
        &&& post.users@.last().id == uid
        &&& post.users@.last().groups@.len() == 0
        &&& post.users@.last().mailbox@.len() == 0
        &&& post.users@.last().capacity == cap
    }
}

/// What `end_user` does: the user's entry is gone, the user is a member
/// of no group, every other member and every other user survives
/// untouched, and a user who never had an entry changes nothing.
pub open spec fn end_effect(pre: GroupsManager, post: GroupsManager, uid: u32) -> bool {
    &&& find_user(post.users@, uid) is None
    &&& post.groups@.len() == pre.groups@.len()
    &&& forall|g: int|
        0 <= g < pre.groups@.len() ==> {
            &&& (#[trigger] post.groups@[g]).name@ == pre.groups@[g].name@
            &&& post.groups@[g].capacity == pre.groups@[g].capacity
            &&& !post.groups@[g].members@.contains(uid)
            &&& forall|v: u32|
                v != uid ==> (post.groups@[g].members@.contains(v) == pre.groups@[
                    g
                ].members@.contains(v))
        }
    &&& match find_user(pre.users@, uid) {
        Some(i) => {
            &&& post.users@.len() == pre.users@.len() - 1
            &&& forall|k: int|
                0 <= k < post.users@.len() ==> ({
                    let k0 = if k < i {
                        k
                    } else {
                        k + 1
                    };
                    &&& (#[trigger] post.users@[k]).id == pre.users@[k0].id
                    &&& post.users@[k].groups == pre.users@[k0].groups
                    &&& post.users@[k].capacity == pre.users@[k0].capacity
                })
        },
        None => post.users == pre.users && post.groups == pre.groups,
    }
}

impl GroupsManager {
    /// Tear a user down: leave every group the user's entry records,
    /// cancelling the forwarding tasks, then drop the entry and its
    /// mailbox. A user who was never initiated is a no-op.
    pub fn end_user(&mut self, user: u32)
        requires
            old(self).wf(),
        ensures
            final(self).wf(),
            !final(self).spec_user_exists(user),
            end_effect(*old(self), *final(self), user),
    {
        let ui = match self.user_index(user) {
            None => {
                proof {
                    assert forall|g: int|
                        0 <= g < self.groups@.len() implies !(#[trigger] self.groups@[
                        g
                    ]).members@.contains(user) by {
                        if self.groups@[g].members@.contains(user) {
                            let m = choose|m: int|
                                0 <= m < self.groups@[g].members@.len() && self.groups@[
                                    g
                                ].members@[m] == user;
                            assert(self.groups[g].members[m] == user);
                            lemma_find_user(self.users@, user);
                        }
                    };
                }
                return ;
            },
            Some(ui) => ui,
        };
        proof {
            lemma_find_user(self.users@, user);
        }
        loop
            invariant
                self.wf(),
                find_user(self.users@, user) == Some(ui as int),
                ui < self.users@.len(),
                self.users@.len() == old(self).users@.len(),
                self.users@[ui as int].id == user,
                self.users@[ui as int].capacity == old(self).users@[ui as int].capacity,
                forall|k: int|
                    0 <= k < self.users@.len() ==> {
                        &&& (#[trigger] self.users@[k]).id == old(self).users@[k].id
                        &&& self.users@[k].capacity == old(self).users@[k].capacity
                        &&& (k != ui ==> self.users@[k].groups == old(self).users@[k].groups)
                    },
                self.groups@.len() == old(self).groups@.len(),
                forall|g: int|
                    0 <= g < self.groups@.len() ==> {
                        &&& (#[trigger] self.groups@[g]).name@ == old(self).groups@[g].name@
                        &&& self.groups@[g].capacity == old(self).groups@[g].capacity
                        &&& forall|v: u32|
                            v != user ==> (self.groups@[g].members@.contains(v) == old(
                                self,
                            ).groups@[g].members@.contains(v))
                    },
            ensures
                self.wf(),
                find_user(self.users@, user) == Some(ui as int),
                ui < self.users@.len(),
                self.users@.len() == old(self).users@.len(),
                self.users@[ui as int].id == user,
                self.users@[ui as int].groups@.len() == 0,
                forall|k: int|
                    0 <= k < self.users@.len() ==> {
                        &&& (#[trigger] self.users@[k]).id == old(self).users@[k].id
                        &&& self.users@[k].capacity == old(self).users@[k].capacity
                        &&& (k != ui ==> self.users@[k].groups == old(self).users@[k].groups)
                    },
                self.groups@.len() == old(self).groups@.len(),
                forall|g: int|
                    0 <= g < self.groups@.len() ==> {
                        &&& (#[trigger] self.groups@[g]).name@ == old(self).groups@[g].name@
                        &&& self.groups@[g].capacity == old(self).groups@[g].capacity
                        &&& forall|v: u32|
                            v != user ==> (self.groups@[g].members@.contains(v) == old(
                                self,
                            ).groups@[g].members@.contains(v))
                    },
            decreases self.users@[ui as int].groups.len(),
        {
            let len = self.users[ui].groups.len();
            if len == 0 {
                break ;
            }
            let name = clone_string(&self.users[ui].groups[len - 1]);
            let ghost pre = *self;
            proof {
                // the recorded name resolves to a group the user is in
                assert(pre.users[ui as int].groups[len - 1]@ == name@);
                assert(match find_group(pre.groups@, name@) {
                    Some(gg) => pre.groups@[gg].members@.contains(pre.users@[ui as int].id),
                    None => false,
                });
                lemma_find_group(pre.groups@, name@);
            }
            let r = self.leave_group(name, user);
            proof {
                assert(r is Ok);
                assert(leave_effect(pre, *self, name@, user));
                let g = find_group(pre.groups@, name@)->Some_0;
                assert(pre.spec_is_member(name@, user));
                // the member list of g loses exactly the user
                assert(pre.groups@[g].members@.contains(user));
                let p = choose|p: int|
                    0 <= p < pre.groups@[g].members@.len() && pre.groups@[g].members@[p] == user
                        && self.groups@[g].members@ == pre.groups@[g].members@.update(
                        p,
                        pre.groups@[g].members@.last(),
                    ).drop_last();
                lemma_swap_remove_set(pre.groups@[g].members@, p);
                // the record loses one name, so the loop measure decreases
                assert(find_user(pre.users@, user) == Some(ui as int));
                let q0 = choose|q0: int|
                    0 <= q0 < pre.users@[ui as int].groups@.len() && (pre.users@[
                        ui as int
                    ].groups@[q0])@ == name@ && self.users@[ui as int].groups@ == pre.users@[
                        ui as int
                    ].groups@.remove(q0);
                assert(self.users@[ui as int].groups@.len() == pre.users@[ui as int].groups@.len()
                    - 1);
                // membership of other users in other groups is untouched
                assert(forall|g2: int|
                    0 <= g2 < self.groups@.len() && g2 != g ==> self.groups@[g2] == pre.groups@[
                        g2
                    ]);
                assert(forall|k: int|
                    0 <= k < self.users@.len() ==> {
                        &&& (#[trigger] self.users@[k]).id == pre.users@[k].id
                        &&& self.users@[k].capacity == pre.users@[k].capacity
                        &&& (k != ui ==> self.users@[k].groups == pre.users@[k].groups)
                    });
                lemma_find_user_same_ids(self.users@, pre.users@, user);
            }
        }
        // the record is now empty, so the user is in no group
        proof {
            assert forall|g: int|
                0 <= g < self.groups@.len() implies !(#[trigger] self.groups@[
                g
            ]).members@.contains(user) by {
                if self.groups@[g].members@.contains(user) {
                    let m = choose|m: int|
                        0 <= m < self.groups@[g].members@.len() && self.groups@[g].members@[m]
                            == user;
                    assert(self.groups[g].members[m] == user);
                    assert(match find_user(self.users@, self.groups@[g].members@[m]) {
                        Some(u) => has_name(self.users@[u].groups@, self.groups@[g].name@),
                        None => false,
                    });
                    assert(find_user(self.users@, user) == Some(ui as int));
                    assert(has_name(self.users@[ui as int].groups@, self.groups@[g].name@));
                    assert(self.users@[ui as int].groups@.len() == 0);
                    assert(false);
                }
            };
        }
        let ghost pre2 = *self;
        self.users.remove(ui);
        proof {
            // the invariant survives dropping an entry with an empty record
            assert(self.users@ == pre2.users@.remove(ui as int));
            assert forall|k: int| 0 <= k < self.users@.len() implies (#[trigger] self.users@[k]).id
                != user by {
                if k < ui {
                    assert(self.users@[k] == pre2.users@[k]);
                    assert(pre2.users@[k].id != pre2.users@[ui as int].id);
                } else {
                    assert(self.users@[k] == pre2.users@[k + 1]);
                    assert(pre2.users@[ui as int].id != pre2.users@[k + 1].id);
                }
            };
            lemma_find_user(self.users@, user);
            assert(find_user(self.users@, user) is None);
            assert forall|g: int, m: int|
                0 <= g < self.groups.len() && 0 <= m < (#[trigger] self.groups[g]).members.len() implies ({
                let v = #[trigger] self.groups[g].members[m];
                match find_user(self.users@, v) {
                    Some(u) => has_name(self.users@[u].groups@, self.groups[g].name@),
                    None => false,
                }
            }) by {
                let v = self.groups[g].members[m];
                assert(pre2.groups[g].members[m] == v);
                assert(match find_user(pre2.users@, v) {
                    Some(u) => has_name(pre2.users@[u].groups@, pre2.groups[g].name@),
                    None => false,
                });
                assert(v != user) by {
                    if v == user {
                        assert(pre2.groups@[g].members@.contains(user)) by {
                            assert(pre2.groups@[g].members@[m] == user);
                        };
                    }
                };
                lemma_find_user_remove(pre2.users@, ui as int, v);
                lemma_find_user(pre2.users@, v);
                let u0 = find_user(pre2.users@, v)->Some_0;
                if u0 < ui {
                    assert(self.users@[u0] == pre2.users@[u0]);
                } else {
                    assert(u0 != ui);
                    assert(self.users@[u0 - 1] == pre2.users@[u0]);
                }
            };
            assert forall|u2: int, i: int|
                0 <= u2 < self.users.len() && 0 <= i < (#[trigger] self.users[u2]).groups.len() implies ({
                let n2 = (#[trigger] self.users[u2].groups[i])@;
                match find_group(self.groups@, n2) {
                    Some(gg) => self.groups@[gg].members@.contains(self.users[u2].id),
                    None => false,
                }
            }) by {
                let k0: int = if u2 < ui {
                    u2
                } else {
                    u2 + 1
                };
                assert(self.users@[u2] == pre2.users@[k0]);
                assert(pre2.users[k0].groups[i] == self.users[u2].groups[i]);
                let n2 = (self.users[u2].groups[i])@;
                assert(match find_group(pre2.groups@, n2) {
                    Some(gg) => pre2.groups@[gg].members@.contains(pre2.users@[k0].id),
                    None => false,
                });
            };
            assert(self.wf());
            assert(find_user(old(self).users@, user) == Some(ui as int));
            // each surviving entry keeps its id, record and capacity,
            // shifted past the removed seat
            assert forall|k: int| 0 <= k < self.users@.len() implies ({
                let k0 = if k < ui as int {
                    k
                } else {
                    k + 1
                };
                &&& (#[trigger] self.users@[k]).id == old(self).users@[k0].id
                &&& self.users@[k].groups == old(self).users@[k0].groups
                &&& self.users@[k].capacity == old(self).users@[k0].capacity
            }) by {
                if k < ui as int {
                    assert(self.users@[k] == pre2.users@[k]);
                } else {
                    assert(self.users@[k] == pre2.users@[k + 1]);
                }
            };
            assert(end_effect(*old(self), *self, user));
        }
    }

    /// Remove a group: every member leaves it (their forwarding tasks are
    /// cancelled and their records forget the name), then the group is
    /// dropped. Removing an absent group is a no-op.
    pub fn remove_group(&mut self, group: String)
        requires
            old(self).wf(),
        ensures
            final(self).wf(),
            !final(self).spec_group_exists(group@),
            !old(self).spec_group_exists(group@) ==> final(self).groups == old(self).groups
                && final(self).users == old(self).users,
            old(self).spec_group_exists(group@) ==> ({
                let g = find_group(old(self).groups@, group@)->Some_0;
                // the other groups survive in order, with their members
                &&& final(self).groups@ == old(self).groups@.remove(g)
                &&& final(self).users@.len() == old(self).users@.len()
                &&& forall|k: int|
                    0 <= k < old(self).users@.len() ==> {
                        &&& (#[trigger] final(self).users@[k]).id == old(self).users@[k].id
                        &&& final(self).users@[k].capacity == old(self).users@[k].capacity
                        &&& !has_name(final(self).users@[k].groups@, group@)
                    }
                // memberships in every other group survive
                &&& forall|k: int, n2: Seq<char>|
                    0 <= k < old(self).users@.len() && n2 != group@ ==> #[trigger] has_name(
                        final(self).users@[k].groups@,
                        n2,
                    ) == has_name(old(self).users@[k].groups@, n2)
            }),
    {
        let gi = match self.group_index(group.as_str()) {
            None => {
                return ;
            },
            Some(gi) => gi,
        };
        proof {
            lemma_find_group(self.groups@, group@);
        }
        loop
            invariant
                self.wf(),
                find_group(self.groups@, group@) == Some(gi as int),
                gi < self.groups@.len(),
                self.groups@.len() == old(self).groups@.len(),
                self.groups@[gi as int].name@ == group@,
                forall|k: int|
                    0 <= k < self.groups@.len() && k != gi ==> #[trigger] self.groups@[k] == old(
                        self,
                    ).groups@[k],
                self.users@.len() == old(self).users@.len(),
                forall|k: int|
                    0 <= k < self.users@.len() ==> {
                        &&& (#[trigger] self.users@[k]).id == old(self).users@[k].id
                        &&& self.users@[k].capacity == old(self).users@[k].capacity
                    },
                forall|k: int, n2: Seq<char>|
                    0 <= k < self.users@.len() && n2 != group@ ==> #[trigger] has_name(
                        self.users@[k].groups@,
                        n2,
                    ) == has_name(old(self).users@[k].groups@, n2),
            ensures
                self.wf(),
                find_group(self.groups@, group@) == Some(gi as int),
                gi < self.groups@.len(),
                self.groups@.len() == old(self).groups@.len(),
                self.groups@[gi as int].name@ == group@,
                self.groups@[gi as int].members@.len() == 0,
                forall|k: int|
                    0 <= k < self.groups@.len() && k != gi ==> #[trigger] self.groups@[k] == old(
                        self,
                    ).groups@[k],
                self.users@.len() == old(self).users@.len(),
                forall|k: int|
                    0 <= k < self.users@.len() ==> {
                        &&& (#[trigger] self.users@[k]).id == old(self).users@[k].id
                        &&& self.users@[k].capacity == old(self).users@[k].capacity
                    },
                forall|k: int, n2: Seq<char>|
                    0 <= k < self.users@.len() && n2 != group@ ==> #[trigger] has_name(
                        self.users@[k].groups@,
                        n2,
                    ) == has_name(old(self).users@[k].groups@, n2),
            decreases self.groups@[gi as int].members.len(),
        {
            let len = self.groups[gi].members.len();
            if len == 0 {
                break ;
            }
            let uid = self.groups[gi].members[len - 1];
            let name = clone_string(&self.groups[gi].name);
            let ghost pre = *self;
            let r = self.leave_group(name, uid);
            proof {
                assert(pre.groups@[gi as int].members@.contains(uid)) by {
                    assert(pre.groups@[gi as int].members@[len - 1] == uid);
                };
                assert(r is Ok);
                assert(leave_effect(pre, *self, group@, uid));
                let p = choose|p: int|
                    0 <= p < pre.groups@[gi as int].members@.len() && pre.groups@[gi as int].members@[p]
                        == uid && self.groups@[gi as int].members@ == pre.groups@[gi as int].members@.update(
                        p,
                        pre.groups@[gi as int].members@.last(),
                    ).drop_last();
                assert(self.groups@[gi as int].members@.len() == pre.groups@[gi as int].members@.len() - 1);
                assert(forall|k: int|
                    0 <= k < self.groups@.len() ==> (#[trigger] self.groups@[k]).name@
                        == pre.groups@[k].name@);
                lemma_find_group_same_names(self.groups@, pre.groups@, group@);
                // the leaver's record forgets this group's name only
                assert(pre.spec_is_member(group@, uid));
                lemma_find_user(pre.users@, uid);
                let u = find_user(pre.users@, uid)->Some_0;
                let q0 = choose|q0: int|
                    0 <= q0 < pre.users@[u].groups@.len() && (pre.users@[u].groups@[q0])@ == group@
                        && self.users@[u].groups@ == pre.users@[u].groups@.remove(q0);
                lemma_has_name_remove_other(pre.users@[u].groups@, q0, group@);
                assert forall|k: int, n2: Seq<char>|
                    0 <= k < self.users@.len() && n2 != group@ implies #[trigger] has_name(
                    self.users@[k].groups@,
                    n2,
                ) == has_name(pre.users@[k].groups@, n2) by {
                    if k == u {
                        assert(has_name(pre.users@[u].groups@.remove(q0), n2) == has_name(
                            pre.users@[u].groups@,
                            n2,
                        ));
                    } else {
                        assert(self.users@[k].groups == pre.users@[k].groups);
                    }
                };
            }
        }
        // no member is left, so no record holds the name
        proof {
            assert forall|k: int| 0 <= k < self.users@.len() implies !has_name(
                (#[trigger] self.users@[k]).groups@,
                group@,
            ) by {
                if has_name(self.users@[k].groups@, group@) {
                    let q = choose|q: int|
                        0 <= q < self.users@[k].groups@.len() && (#[trigger] self.users@[
                            k
                        ].groups@[q])@ == group@;
                    assert(self.users[k].groups[q]@ == group@);
                    assert(match find_group(self.groups@, group@) {
                        Some(gg) => self.groups@[gg].members@.contains(self.users@[k].id),
                        None => false,
                    });
                    assert(self.groups@[gi as int].members@.contains(self.users@[k].id));
                }
            };
        }
        let ghost pre2 = *self;
        self.groups.remove(gi);
        proof {
            assert(self.groups@ == pre2.groups@.remove(gi as int));
            assert forall|k: int| 0 <= k < self.groups@.len() implies (#[trigger] self.groups@[
                k
            ]).name@ != group@ by {
                if k < gi {
                    assert(self.groups@[k] == pre2.groups@[k]);
                    assert(pre2.groups@[k].name@ != pre2.groups@[gi as int].name@);
                } else {
                    assert(self.groups@[k] == pre2.groups@[k + 1]);
                    assert(pre2.groups@[gi as int].name@ != pre2.groups@[k + 1].name@);
                }
            };
            lemma_find_group(self.groups@, group@);
            assert forall|g: int, m: int|
                0 <= g < self.groups.len() && 0 <= m < (#[trigger] self.groups[g]).members.len() implies ({
                let v = #[trigger] self.groups[g].members[m];
                match find_user(self.users@, v) {
                    Some(u) => has_name(self.users@[u].groups@, self.groups[g].name@),
                    None => false,
                }
            }) by {
                let k0: int = if g < gi {
                    g
                } else {
                    g + 1
                };
                assert(self.groups@[g] == pre2.groups@[k0]);
                assert(pre2.groups[k0].members[m] == self.groups[g].members[m]);
                assert(match find_user(pre2.users@, self.groups[g].members[m]) {
                    Some(u) => has_name(pre2.users@[u].groups@, pre2.groups[k0].name@),
                    None => false,
                });
            };
            assert forall|u2: int, i: int|
                0 <= u2 < self.users.len() && 0 <= i < (#[trigger] self.users[u2]).groups.len() implies ({
                let n2 = (#[trigger] self.users[u2].groups[i])@;
                match find_group(self.groups@, n2) {
                    Some(gg) => self.groups@[gg].members@.contains(self.users[u2].id),
                    None => false,
                }
            }) by {
                let n2 = (self.users[u2].groups[i])@;
                assert(pre2.users[u2].groups[i] == self.users[u2].groups[i]);
                assert(match find_group(pre2.groups@, n2) {
                    Some(gg) => pre2.groups@[gg].members@.contains(pre2.users@[u2].id),
                    None => false,
                });
                assert(n2 != group@) by {
                    assert(!has_name(pre2.users@[u2].groups@, group@));
                    if n2 == group@ {
                        assert(has_name(pre2.users@[u2].groups@, group@)) by {
                            assert((pre2.users@[u2].groups@[i])@ == group@);
                        };
                    }
                };
                lemma_find_group_remove(pre2.groups@, gi as int, n2);
                lemma_find_group(pre2.groups@, n2);
                let g0 = find_group(pre2.groups@, n2)->Some_0;
                if g0 < gi {
                    assert(self.groups@[g0] == pre2.groups@[g0]);
                } else {
                    assert(g0 != gi);
                    assert(self.groups@[g0 - 1] == pre2.groups@[g0]);
                }
            };
            assert(self.wf());
            assert(self.groups@ =~= old(self).groups@.remove(gi as int));
        }
    }
}

/// Joining a group and then leaving it returns the group's member list
/// and the user's record of joined groups to their prior state.
pub proof fn lemma_join_then_leave(
    g0: GroupsManager,
    g1: GroupsManager,
    g2: GroupsManager,
    name: Seq<char>,
    uid: u32,
)
    requires
        g0.wf(),
        g1.wf(),
        !g0.spec_is_member(name, uid),
        join_effect(g0, g1, name, uid),
        leave_effect(g1, g2, name, uid),
    ensures
        g2.spec_members(name) == g0.spec_members(name),
        g2.spec_user_groups(uid) == g0.spec_user_groups(uid),
{
    let g = find_group(g0.groups@, name)->Some_0;
    lemma_find_group(g0.groups@, name);
    assert(forall|k: int|
        0 <= k < g0.groups@.len() ==> (#[trigger] g1.groups@[k]).name@ == g0.groups@[k].name@);
    lemma_find_group_same_names(g1.groups@, g0.groups@, name);
    assert(find_group(g1.groups@, name) == Some(g));
    let m0 = g0.groups@[g].members@;
    let m1 = g1.groups@[g].members@;
    assert(m1 == m0.push(uid));
    assert(g1.spec_is_member(name, uid)) by {
        assert(m1[m0.len() as int] == uid);
    };
    let p = choose|p: int|
        0 <= p < m1.len() && m1[p] == uid && g2.groups@[g].members@ == m1.update(
            p,
            m1.last(),
        ).drop_last();
    assert(p == m0.len()) by {
        if p < m0.len() {
            assert(m1[p] == m0[p]);
            assert(m0.contains(uid)) by {
                assert(m0[p] == uid);
            };
        }
    };
    assert(g2.groups@[g].members@ =~= m0);
    assert(forall|k: int|
        0 <= k < g1.groups@.len() ==> (#[trigger] g2.groups@[k]).name@ == g1.groups@[k].name@);
    lemma_find_group_same_names(g2.groups@, g1.groups@, name);
    assert(g2.spec_members(name) == Some(m0));
    // the user's record
    let u = find_user(g0.users@, uid)->Some_0;
    lemma_find_user(g0.users@, uid);
    assert(forall|k: int|
        0 <= k < g0.users@.len() ==> (#[trigger] g1.users@[k]).id == g0.users@[k].id);
    lemma_find_user_same_ids(g1.users@, g0.users@, uid);
    let r0 = g0.users@[u].groups@;
    let r1 = g1.users@[u].groups@;
    assert(!has_name(r0, name)) by {
        if has_name(r0, name) {
            let q = choose|q: int| 0 <= q < r0.len() && (#[trigger] r0[q])@ == name;
            assert(g0.users[u].groups[q]@ == name);
            assert(match find_group(g0.groups@, name) {
                Some(gg) => g0.groups@[gg].members@.contains(g0.users@[u].id),
                None => false,
            });
        }
    };
    assert(r1 == r0.push(r1.last()) && (r1.last())@ == name);
    let q = choose|q: int|
        0 <= q < r1.len() && (r1[q])@ == name && g2.users@[u].groups@ == r1.remove(q);
    assert(q == r0.len()) by {
        if q < r0.len() {
            assert(r1[q] == r0[q]);
            assert(has_name(r0, name)) by {
                assert((r0[q])@ == name);
            };
        }
    };
    assert(g2.users@[u].groups@ =~= r0);
    assert(forall|k: int|
        0 <= k < g1.users@.len() ==> (#[trigger] g2.users@[k]).id == g1.users@[k].id);
    lemma_find_user_same_ids(g2.users@, g1.users@, uid);
    assert(g2.spec_user_groups(uid) == Some(r0));
}

/// Initiating a user, ending the user and initiating again leaves no
/// residual forwarding task: the fresh entry records no group, its
/// mailbox is empty, and no group holds the user as a member.
pub proof fn lemma_user_lifecycle(
    g0: GroupsManager,
    g1: GroupsManager,
    g2: GroupsManager,
    g3: GroupsManager,
    uid: u32,
    cap1: usize,
    cap2: usize,
)
    requires
        g0.wf(),
        init_effect(g0, g1, uid, cap1),
        end_effect(g1, g2, uid),
        init_effect(g2, g3, uid, cap2),
    ensures
        ({
            let u = find_user(g3.users@, uid);
            &&& u is Some
            &&& g3.users@[u->Some_0].groups@.len() == 0
            &&& g3.users@[u->Some_0].mailbox@.len() == 0
        }),
        forall|g: int| 0 <= g < g3.groups@.len() ==> !(#[trigger] g3.groups@[g]).members@.contains(
            uid,
        ),
{
    assert(find_user(g2.users@, uid) is None);
    let e3 = g3.users@.last();
    assert(g3.users@ == g2.users@.push(e3));
    lemma_find_user_push_new(g2.users@, e3);
    assert(find_user(g3.users@, uid) == Some(g2.users@.len() as int));
    assert(g3.users@[g2.users@.len() as int] == e3);
    assert(g3.groups == g2.groups);
    assert(g2.groups@.len() == g1.groups@.len());
    assert(g1.groups == g0.groups);
    assert forall|g: int| 0 <= g < g3.groups@.len() implies !(#[trigger] g3.groups@[
        g
    ]).members@.contains(uid) by {
        assert(!g2.groups@[g].members@.contains(uid));
    };
}


impl GroupsManager {
    /// One binary message arrived on a user's socket: stamp it with the
    /// sender's id (four little-endian bytes) and route it. A destination
    /// equal to the sender means broadcast on the group's bus — every
    /// other member's mailbox receives it; anything else is a unicast
    /// into the destination member's mailbox, silently dropped when that
    /// member is not in the group. Returns whether it was a broadcast.
    pub fn upstream_binary(&mut self, group: String, user: u32, payload: Vec<u8>) -> (r: Result<
        bool,
        GroupError,
    >)
        requires
            old(self).wf(),
            payload@.len() >= 4,
            payload@.len() + 4 <= usize::MAX,
        ensures
            final(self).wf(),
            final(self).groups == old(self).groups,
            r == Err::<bool, GroupError>(GroupError::GroupNotFound) <==> !old(
                self,
            ).spec_group_exists(group@),
            r is Ok <==> (old(self).spec_group_exists(group@) && ({
                let to = crate::frame::u32_from_le(payload@.subrange(0, 4));
                to != user || (match find_group(old(self).groups@, group@) {
                    Some(g) => old(self).groups@[g].members@.len() > 0,
                    None => false,
                })
            })),
            ({
                let f = crate::frame::u32_le(user) + payload@;
                let to = crate::frame::u32_from_le(payload@.subrange(0, 4));
                &&& group_frame_from(f) == user
                &&& (r matches Ok(b) ==> b == (to == user))
                &&& (r == Ok::<bool, GroupError>(false) ==> (if old(self).spec_is_member(
                    group@,
                    to,
                ) {
                    match find_user(old(self).users@, to) {
                        Some(u) => {
                            &&& final(self).users@.len() == old(self).users@.len()
                            &&& (forall|k: int|
                                0 <= k < old(self).users@.len() && k != u ==> #[trigger] final(self).users@[k] == old(self).users@[k])
                            &&& final(self).users@[u].id == old(self).users@[u].id
                            &&& final(self).users@[u].groups == old(self).users@[u].groups
                            &&& final(self).users@[u].capacity == old(self).users@[u].capacity
                            &&& final(self).users@[u].mailbox.deep_view() == deliver_spec(
                                old(self).users@[u].mailbox.deep_view(),
                                old(self).users@[u].capacity as int,
                                f,
                            )
                        },
                        None => false,
                    }
                } else {
                    final(self).users == old(self).users
                }))
                &&& (r == Ok::<bool, GroupError>(true) ==> ({
                    match find_group(old(self).groups@, group@) {
                        Some(g) => {
                            &&& final(self).users@.len() == old(self).users@.len()
                            &&& forall|u: int|
                                0 <= u < old(self).users@.len() ==> {
                                    &&& (#[trigger] final(self).users@[u]).id == old(
                                        self,
                                    ).users@[u].id
                                    &&& final(self).users@[u].mailbox.deep_view() == if old(
                                        self,
                                    ).groups@[g].members@.contains(old(self).users@[u].id) && user
                                        != old(self).users@[u].id {
                                        deliver_spec(
                                            old(self).users@[u].mailbox.deep_view(),
                                            old(self).users@[u].capacity as int,
                                            f,
                                        )
                                    } else {
                                        old(self).users@[u].mailbox.deep_view()
                                    }
                                }
                        },
                        None => false,
                    }
                }))
            }),
    {
        let mut frame: Vec<u8> = Vec::new();
        crate::frame::push_u32_le(&mut frame, user);
        let m = payload.len();
        let mut k: usize = 0;
        while k < m
            invariant
                *self == *old(self),
                old(self).wf(),
                k <= m,
                m == payload@.len(),
                frame@ == crate::frame::u32_le(user) + payload@.subrange(0, k as int),
            decreases m - k,
        {
            frame.push(payload[k]);
            k = k + 1;
            assert(frame@ =~= crate::frame::u32_le(user) + payload@.subrange(0, k as int));
        }
        assert(payload@.subrange(0, m as int) =~= payload@);
        let ghost fview = crate::frame::u32_le(user) + payload@;
        proof {
            assert(fview.subrange(0, 4) =~= crate::frame::u32_le(user));
            crate::frame::lemma_u32_le_round_trip(user);
        }
        let to = crate::frame::read_u32_le(&payload, 0);
        if to == user {
            match self.send_message_to_group(group, frame) {
                Ok(_) => Ok(true),
                Err(e) => Err(e),
            }
        } else {
            // destination named explicitly: a miss is silently dropped
            match self.group_index(group.as_str()) {
                None => Err(GroupError::GroupNotFound),
                Some(_) => {
                    let _ = self.send_message_to_user(group, to, frame);
                    Ok(false)
                },
            }
        }
    }
}

} // verus!
