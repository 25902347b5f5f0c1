//! The keyring facility's state: a table of kernel objects (keyrings and
//! leaf keys), the well-known special slots, and the per-user persistent
//! keyring. Every graph operation of the library works on one such value.

use vstd::prelude::*;

use crate::error::KeyError;
use crate::id::{
    special_desc, special_desc_spec, special_slot_spec, KeyRingIdentifier, NUM_SPECIAL_SLOTS,
};

verus! {

/// Permission bits an object grants the caller.
#[derive(Debug, Copy, Clone, PartialEq, Eq, Structural)]
pub struct Permissions {
    /// May the caller view the object's metadata?
    pub view: bool,
    /// May the caller read the object's payload or link list?
    pub read: bool,
    /// May the caller write the object (update, link into, clear)?
    pub write: bool,
    /// May a search descend into or match the object?
    pub search: bool,
    /// May the object be linked into another keyring?
    pub link: bool,
}

impl Permissions {
    /// The permissions a freshly created object grants its creator.
    pub open spec fn all_spec() -> Permissions {
        Permissions { view: true, read: true, write: true, search: true, link: true }
    }

    /// Grant everything.
    pub fn all() -> (r: Permissions)
        ensures
            r == Permissions::all_spec(),
    {
        Permissions { view: true, read: true, write: true, search: true, link: true }
    }
}

/// One object of the keyring facility: a keyring (holding ordered links to
/// children) or a leaf key (holding a payload).
///
/// An object whose `live` flag is cleared has been invalidated: its serial is
/// never reused, but no lookup reports it any more.
pub struct KernelObject {
    /// The positive serial naming this object.
    pub id: i32,
    /// Is the object still visible, or has it been invalidated?
    pub live: bool,
    /// A keyring (`true`) or a leaf key (`false`).
    pub keyring: bool,
    /// The description the object was created under.
    pub description: Vec<u8>,
    /// The secret payload; empty for keyrings.
    pub payload: Vec<u8>,
    /// The serials this keyring links to, in link order; empty for keys.
    pub links: Vec<i32>,
    /// What the object grants the caller.
    pub perms: Permissions,
    /// Owner user id.
    pub uid: u32,
    /// Owner group id.
    pub gid: u32,
}

/// The whole facility state as seen by a single caller.
pub struct KernelState {
    /// Every object ever created, in creation order; invalidated ones stay
    /// as tombstones so serials are never reused.
    pub objects: Vec<KernelObject>,
    /// The next serial to hand out.
    pub next_id: i32,
    /// The special keyring slots, by slot index; `None` until first created.
    pub specials: Vec<Option<i32>>,
    /// The caller's persistent keyring, once created.
    pub persistent: Option<i32>,
    /// The calling user id.
    pub uid: u32,
    /// The calling group id.
    pub gid: u32,
}

/// The special identifier occupying a given slot index.
pub open spec fn slot_ident(k: int) -> KeyRingIdentifier {
    if k == 0 {
        KeyRingIdentifier::Thread
    } else if k == 1 {
        KeyRingIdentifier::Process
    } else if k == 2 {
        KeyRingIdentifier::Session
    } else if k == 3 {
        KeyRingIdentifier::User
    } else if k == 4 {
        KeyRingIdentifier::UserSession
    } else if k == 5 {
        KeyRingIdentifier::Group
    } else if k == 6 {
        KeyRingIdentifier::ReqKeyAuthKey
    } else {
        KeyRingIdentifier::Requestor
    }
}

impl KernelState {
    /// No two table entries carry the same serial.
    pub open spec fn ids_unique(self) -> bool {
        forall|i: int, j: int|
            0 <= i < j < self.objects@.len() ==> self.objects@[i].id != self.objects@[j].id
    }

    /// Some table entry (live or tombstoned) carries this serial.
    pub open spec fn has_index(self, id: i32) -> bool {
        exists|i: int| 0 <= i < self.objects@.len() && self.objects@[i].id == id
    }

    /// The table position of the entry carrying this serial.
    pub open spec fn index_of(self, id: i32) -> int {
        choose|i: int| 0 <= i < self.objects@.len() && self.objects@[i].id == id
    }

    /// The table entry carrying this serial.
    pub open spec fn obj(self, id: i32) -> KernelObject {
        self.objects@[self.index_of(id)]
    }

    /// Does this serial name a visible object?
    pub open spec fn is_live(self, id: i32) -> bool {
        self.has_index(id) && self.obj(id).live
    }

    /// Does this serial name a visible keyring?
    pub open spec fn is_live_ring(self, id: i32) -> bool {
        self.is_live(id) && self.obj(id).keyring
    }

    /// Does this serial name a visible leaf key?
    pub open spec fn is_live_key(self, id: i32) -> bool {
        self.is_live(id) && !self.obj(id).keyring
    }

    /// A keyring's link list is sound: every linked serial has a table entry
    /// (live or tombstoned), no serial appears twice, and no two visible key
    /// children share a description (the kernel displaces the old one
    /// whenever such a pair would arise).
    pub open spec fn links_ok(self, o: KernelObject) -> bool {
        &&& forall|x: i32| #[trigger] o.links@.contains(x) ==> self.has_index(x)
        &&& o.links@.no_duplicates()
        &&& forall|x: i32, y: i32|
            #![trigger o.links@.contains(x), o.links@.contains(y)]
            o.links@.contains(x) && o.links@.contains(y) && x != y && self.is_live_key(x)
                && self.is_live_key(y) ==> self.obj(x).description@ != self.obj(y).description@
    }

    /// What the special slot at index `k` points at, when filled: an existing
    /// keyring entry created under the slot's well-known description.
    pub open spec fn slot_ok(self, k: int) -> bool {
        self.specials@[k] matches Some(id) ==> {
            &&& self.has_index(id)
            &&& self.obj(id).keyring
            &&& self.obj(id).description@ == special_desc_spec(slot_ident(k))
        }
    }

    /// The filled special slots and the persistent keyring all name pairwise
    /// distinct objects.
    pub open spec fn roots_distinct(self) -> bool {
        &&& forall|k1: int, k2: int|
            0 <= k1 < k2 < self.specials@.len() && self.specials@[k1] is Some
                && self.specials@[k2] is Some ==> self.specials@[k1] != self.specials@[k2]
        &&& forall|k: int|
            0 <= k < self.specials@.len() && self.specials@[k] is Some && self.persistent is Some
                ==> self.specials@[k] != self.persistent
    }

    /// Well-formedness of the whole state; every operation of the library
    /// preserves it.
    pub open spec fn wf(self) -> bool {
        &&& self.ids_unique()
        &&& 1 <= self.next_id
        &&& forall|i: int|
            0 <= i < self.objects@.len() ==> 1 <= #[trigger] self.objects@[i].id < self.next_id
        &&& self.specials@.len() == NUM_SPECIAL_SLOTS
        &&& forall|k: int| 0 <= k < self.specials@.len() ==> self.slot_ok(k)
        &&& (self.persistent matches Some(p) ==> self.has_index(p) && self.obj(p).keyring)
        &&& self.roots_distinct()
        &&& forall|i: int| 0 <= i < self.objects@.len() ==> self.links_ok(#[trigger] self.objects@[i])
    }

    /// A fresh, empty facility state for a caller with the given identity.
    pub fn new(uid: u32, gid: u32) -> (r: KernelState)
        ensures
            r.wf(),
            r.next_id == 1,
            r.objects@.len() == 0,
            r.specials@ == Seq::new(NUM_SPECIAL_SLOTS as nat, |k: int| None::<i32>),
            r.persistent is None,
            r.uid == uid,
            r.gid == gid,
            forall|x: i32| !r.has_index(x),
    {
        let mut specials: Vec<Option<i32>> = Vec::new();
        let mut k: usize = 0;
        while k < NUM_SPECIAL_SLOTS
            invariant
                k <= NUM_SPECIAL_SLOTS,
                specials@.len() == k,
                forall|j: int| 0 <= j < k ==> specials@[j] is None,
            decreases NUM_SPECIAL_SLOTS - k,
        {
            specials.push(None);
            k += 1;
        }
        let r = KernelState { objects: Vec::new(), next_id: 1, specials, persistent: None, uid, gid };
        proof {
            assert(r.specials@ =~= Seq::new(NUM_SPECIAL_SLOTS as nat, |j: int| None::<i32>));
        }
        r
    }

    /// The entry at a valid table position is exactly what `obj` reports for
    /// its serial.
    pub proof fn lemma_obj_at(self, i: int)
        requires
            self.ids_unique(),
            0 <= i < self.objects@.len(),
        ensures
            self.has_index(self.objects@[i].id),
            self.index_of(self.objects@[i].id) == i,
            self.obj(self.objects@[i].id) == self.objects@[i],
    {
        let id = self.objects@[i].id;
        assert(self.has_index(id));
        let j = self.index_of(id);
        assert(0 <= j < self.objects@.len() && self.objects@[j].id == id);
        if i != j {
            assert(false);
        }
    }

    /// Replacing one table entry by another that keeps its serial leaves
    /// lookup of every serial where it was.
    pub proof fn lemma_update_frame(pre: KernelState, post: KernelState, i: int, o2: KernelObject)
        requires
            pre.ids_unique(),
            0 <= i < pre.objects@.len(),
            post.objects@ == pre.objects@.update(i, o2),
            o2.id == pre.objects@[i].id,
        ensures
            post.ids_unique(),
            forall|x: i32| post.has_index(x) == pre.has_index(x),
            forall|x: i32| pre.has_index(x) ==> post.index_of(x) == pre.index_of(x),
            forall|x: i32| pre.has_index(x) && x != o2.id ==> post.obj(x) == pre.obj(x),
            post.has_index(o2.id),
            post.index_of(o2.id) == i,
            post.obj(o2.id) == o2,
    {
        assert(post.objects@.len() == pre.objects@.len());
        assert forall|x: i32| post.has_index(x) == pre.has_index(x) by {
            if pre.has_index(x) {
                let j = pre.index_of(x);
                assert(post.objects@[j].id == x);
            }
            if post.has_index(x) {
                let j = post.index_of(x);
                assert(pre.objects@[j].id == x);
            }
        }
        assert forall|x: i32| pre.has_index(x) implies post.index_of(x) == pre.index_of(x) by {
            let j = pre.index_of(x);
            assert(post.objects@[j].id == x);
            assert(post.has_index(x));
            let j2 = post.index_of(x);
            assert(pre.objects@[j2].id == x);
            if j != j2 {
                assert(false);
            }
        }
        pre.lemma_obj_at(i);
        assert(pre.index_of(o2.id) == i);
    }

    /// Replacing one table entry by another that keeps its serial, kind and
    /// description, and does not revive it, preserves well-formedness as soon
    /// as the new entry's own link list is sound.
    pub proof fn lemma_update_wf(pre: KernelState, post: KernelState, i: int, o2: KernelObject)
        requires
            pre.wf(),
            0 <= i < pre.objects@.len(),
            post.objects@ == pre.objects@.update(i, o2),
            o2.id == pre.objects@[i].id,
            o2.keyring == pre.objects@[i].keyring,
            o2.description@ == pre.objects@[i].description@,
            o2.live ==> pre.objects@[i].live,
            post.next_id == pre.next_id,
            post.specials@ == pre.specials@,
            post.persistent == pre.persistent,
            post.links_ok(o2),
        ensures
            post.wf(),
            forall|x: i32| post.has_index(x) == pre.has_index(x),
            forall|x: i32| pre.has_index(x) && x != o2.id ==> post.obj(x) == pre.obj(x),
            forall|x: i32|
                x != o2.id ==> post.is_live(x) == pre.is_live(x) && post.is_live_key(x)
                    == pre.is_live_key(x) && post.is_live_ring(x) == pre.is_live_ring(x),
            post.has_index(o2.id),
            post.obj(o2.id) == o2,
            post.index_of(o2.id) == i,
    {
        Self::lemma_update_frame(pre, post, i, o2);
        pre.lemma_obj_at(i);
        assert(pre.obj(o2.id) == pre.objects@[i]);
        assert forall|x: i32|
            post.is_live_key(x) implies pre.is_live_key(x) && post.obj(x).description@ == pre.obj(
            x,
        ).description@ by {
            if x == o2.id {
                assert(pre.obj(x) == pre.objects@[i]);
            }
        }
        assert forall|k: int| 0 <= k < post.specials@.len() implies post.slot_ok(k) by {
            assert(pre.slot_ok(k));
            if post.specials@[k] is Some {
                let id = post.specials@[k]->Some_0;
                if id == o2.id {
                    assert(pre.obj(id) == pre.objects@[i]);
                }
            }
        }
        assert forall|j: int|
            0 <= j < post.objects@.len() implies post.links_ok(#[trigger] post.objects@[j]) by {
            if j == i {
                assert(post.links_ok(o2));
            } else {
                let o = pre.objects@[j];
                assert(pre.links_ok(o));
                assert(post.objects@[j] == o);
                assert forall|x: i32, y: i32|
                    o.links@.contains(x) && o.links@.contains(y) && x != y && post.is_live_key(x)
                        && post.is_live_key(y) implies post.obj(x).description@ != post.obj(
                    y,
                ).description@ by {
                    assert(pre.is_live_key(x) && pre.is_live_key(y));
                }
            }
        }
    }

    /// Appending a table entry under a fresh serial preserves
    /// well-formedness when the entry has no links of its own.
    pub proof fn lemma_push_wf(pre: KernelState, post: KernelState, o2: KernelObject)
        requires
            pre.wf(),
            post.objects@ == pre.objects@.push(o2),
            o2.id == pre.next_id,
            pre.next_id < i32::MAX,
            post.next_id == pre.next_id + 1,
            o2.links@.len() == 0,
            post.specials@ == pre.specials@,
            post.persistent == pre.persistent,
        ensures
            post.wf(),
            !pre.has_index(o2.id),
            forall|x: i32| x != o2.id ==> post.has_index(x) == pre.has_index(x),
            forall|x: i32| pre.has_index(x) ==> post.obj(x) == pre.obj(x),
            forall|x: i32|
                x != o2.id ==> post.is_live(x) == pre.is_live(x) && post.is_live_key(x)
                    == pre.is_live_key(x) && post.is_live_ring(x) == pre.is_live_ring(x),
            post.has_index(o2.id),
            post.obj(o2.id) == o2,
            post.index_of(o2.id) == pre.objects@.len(),
    {
        let n = pre.objects@.len() as int;
        assert(forall|i: int| 0 <= i < n ==> pre.objects@[i].id < o2.id);
        if pre.has_index(o2.id) {
            let j = pre.index_of(o2.id);
            assert(false);
        }
        assert(post.ids_unique());
        assert forall|x: i32| pre.has_index(x) implies post.has_index(x) && post.index_of(x)
            == pre.index_of(x) && post.obj(x) == pre.obj(x) by {
            let j = pre.index_of(x);
            assert(post.objects@[j].id == x);
            let j2 = post.index_of(x);
            assert(post.objects@[j2].id == x);
            if j != j2 {
                assert(false);
            }
        }
        assert forall|x: i32| x != o2.id && post.has_index(x) implies pre.has_index(x) by {
            let j = post.index_of(x);
            assert(j < n);
            assert(pre.objects@[j].id == x);
        }
        assert(post.objects@[n].id == o2.id);
        assert(post.has_index(o2.id));
        let jn = post.index_of(o2.id);
        if jn != n {
            assert(pre.objects@[jn].id == o2.id);
            assert(false);
        }
        assert forall|k: int| 0 <= k < post.specials@.len() implies post.slot_ok(k) by {
            assert(pre.slot_ok(k));
        }
        assert forall|j: int|
            0 <= j < post.objects@.len() implies post.links_ok(#[trigger] post.objects@[j]) by {
            if j < n {
                let o = pre.objects@[j];
                assert(pre.links_ok(o));
                assert(post.objects@[j] == o);
                assert forall|x: i32| #[trigger] o.links@.contains(x) implies post.has_index(
                    x,
                ) by {
                    assert(pre.has_index(x));
                }
                assert forall|x: i32, y: i32|
                    o.links@.contains(x) && o.links@.contains(y) && x != y && post.is_live_key(x)
                        && post.is_live_key(y) implies post.obj(x).description@ != post.obj(
                    y,
                ).description@ by {
                    assert(pre.has_index(x) && pre.has_index(y));
                    assert(x != o2.id && y != o2.id);
                    assert(pre.is_live_key(x) && pre.is_live_key(y));
                }
            }
        }
    }

    /// Allocate a fresh object under the next serial and append it to the
    /// table, fully visible and granting its creator everything.
    pub fn create_object(&mut self, keyring: bool, description: Vec<u8>, payload: Vec<u8>) -> (id:
        i32)
        requires
            old(self).wf(),
            old(self).next_id < i32::MAX,
        ensures
            final(self).wf(),
            id == old(self).next_id,
            !old(self).has_index(id),
            final(self).next_id == old(self).next_id + 1,
            final(self).specials@ == old(self).specials@,
            final(self).persistent == old(self).persistent,
            final(self).uid == old(self).uid,
            final(self).gid == old(self).gid,
            final(self).objects@.len() == old(self).objects@.len() + 1,
            final(self).is_live(id),
            final(self).obj(id).id == id,
            final(self).obj(id).live,
            final(self).obj(id).keyring == keyring,
            final(self).obj(id).description@ == description@,
            final(self).obj(id).payload@ == payload@,
            final(self).obj(id).links@ == Seq::<i32>::empty(),
            final(self).obj(id).perms == Permissions::all_spec(),
            final(self).obj(id).uid == old(self).uid,
            final(self).obj(id).gid == old(self).gid,
            forall|x: i32| x != id ==> final(self).has_index(x) == old(self).has_index(x),
            forall|x: i32| old(self).has_index(x) ==> final(self).obj(x) == old(self).obj(x),
            forall|x: i32|
                x != id ==> final(self).is_live(x) == old(self).is_live(x)
                    && final(self).is_live_key(x) == old(self).is_live_key(x)
                    && final(self).is_live_ring(x) == old(self).is_live_ring(x),
    {
        let id = self.next_id;
        self.next_id = id + 1;
        let o = KernelObject {
            id,
            live: true,
            keyring,
            description,
            payload,
            links: Vec::new(),
            perms: Permissions::all(),
            uid: self.uid,
            gid: self.gid,
        };
        proof {
            assert(o.links@.len() == 0);
        }
        let ghost pre = *old(self);
        self.objects.push(o);
        proof {
            Self::lemma_push_wf(pre, *self, self.objects@.last());
        }
        id
    }

    /// Find the table position of a visible object by serial.
    pub fn lookup(&self, id: i32) -> (r: Option<usize>)
        requires
            self.ids_unique(),
        ensures
            match r {
                Some(i) => {
                    &&& i < self.objects@.len()
                    &&& self.objects@[i as int].id == id
                    &&& self.objects@[i as int].live
                    &&& self.is_live(id)
                    &&& self.obj(id) == self.objects@[i as int]
                    &&& self.index_of(id) == i as int
                },
                None => !self.is_live(id),
            },
    {
        let n = self.objects.len();
        let mut i: usize = 0;
        while i < n
            invariant
                n == self.objects@.len(),
                i <= n,
                self.ids_unique(),
                forall|j: int|
                    0 <= j < i ==> !(self.objects@[j].id == id && #[trigger] self.objects@[j].live),
            decreases n - i,
        {
            if self.objects[i].id == id && self.objects[i].live {
                proof {
                    self.lemma_obj_at(i as int);
                }
                return Some(i);
            }
            i += 1;
        }
        proof {
            if self.is_live(id) {
                let j = self.index_of(id);
                assert(0 <= j < self.objects@.len() && self.objects@[j].id == id);
                assert(self.objects@[j].live);
                assert(false);
            }
        }
        None
    }
    /// Can a listing introspect this serial: it names a visible object that
    /// grants view permission.
    pub open spec fn introspectable(self, x: i32) -> bool {
        self.is_live(x) && self.obj(x).perms.view
    }

    /// The introspectable serials of a link window, in link order: what a
    /// listing of that window classifies, the rest silently dropped.
    pub open spec fn introspectable_links(self, l: Seq<i32>) -> Seq<i32> {
        l.filter(|x: i32| self.introspectable(x))
    }

    /// A search hit: a visible leaf key under the wanted description that
    /// grants the caller search permission.
    pub open spec fn key_matches(self, id: i32, desc: Seq<u8>) -> bool {
        self.is_live_key(id) && self.obj(id).description@ == desc && self.obj(id).perms.search
    }

    /// A keyring a search may descend into: visible and granting search.
    pub open spec fn ring_searchable(self, id: i32) -> bool {
        self.is_live_ring(id) && self.obj(id).perms.search
    }

    /// The visited list a traversal carries: distinct serials, each with a
    /// table entry.
    pub open spec fn visited_wf(self, visited: Seq<i32>) -> bool {
        &&& visited.no_duplicates()
        &&& forall|k: int| 0 <= k < visited.len() ==> self.has_index(#[trigger] visited[k])
    }

    /// A traversal can visit no more distinct serials than the table holds.
    pub proof fn lemma_visited_bound(self, visited: Seq<i32>)
        requires
            self.ids_unique(),
            self.visited_wf(visited),
        ensures
            visited.len() <= self.objects@.len(),
    {
        broadcast use vstd::seq_lib::group_seq_properties;
        broadcast use vstd::set_lib::group_set_lib_default;
        broadcast use vstd::set::group_set_axioms;

        let ids = self.objects@.map_values(|o: KernelObject| o.id);
        assert forall|x: i32| visited.to_set().contains(x) implies ids.to_set().contains(x) by {
            let k = choose|k: int| 0 <= k < visited.len() && visited[k] == x;
            assert(self.has_index(visited[k]));
            let j = self.index_of(x);
            assert(ids[j] == x);
            assert(ids.contains(x));
        }
        visited.unique_seq_to_set();
        assert(visited.to_set() <= ids.to_set());
        vstd::set_lib::lemma_len_subset(visited.to_set(), ids.to_set());
        ids.lemma_cardinality_of_set();
    }

    /// What a breadth-first search of the link graph returns: the queue is
    /// processed front to back; a hit ends the search; a searchable keyring
    /// not yet visited has its children appended in link order.
    pub open spec fn bfs_spec(self, queue: Seq<i32>, visited: Seq<i32>, desc: Seq<u8>) -> Option<
        i32,
    >
        decreases self.objects@.len() - visited.len(), queue.len(),
        when self.ids_unique() && self.visited_wf(visited)
        via Self::bfs_spec_decreases
    {
        if queue.len() == 0 {
            None
        } else {
            let h = queue[0];
            if self.key_matches(h, desc) {
                Some(h)
            } else if self.ring_searchable(h) && !visited.contains(h) {
                self.bfs_spec(queue.drop_first() + self.obj(h).links@, visited.push(h), desc)
            } else {
                self.bfs_spec(queue.drop_first(), visited, desc)
            }
        }
    }

    #[via_fn]
    proof fn bfs_spec_decreases(self, queue: Seq<i32>, visited: Seq<i32>, desc: Seq<u8>) {
        if queue.len() > 0 {
            let h = queue[0];
            if !self.key_matches(h, desc) && self.ring_searchable(h) && !visited.contains(h) {
                self.lemma_visited_bound(visited.push(h));
            }
        }
    }

    /// Whatever a breadth-first search returns is a genuine hit.
    pub proof fn lemma_bfs_sound(self, queue: Seq<i32>, visited: Seq<i32>, desc: Seq<u8>)
        requires
            self.ids_unique(),
            self.visited_wf(visited),
        ensures
            self.bfs_spec(queue, visited, desc) matches Some(k) ==> self.key_matches(k, desc),
        decreases self.objects@.len() - visited.len(), queue.len(),
    {
        if queue.len() > 0 {
            let h = queue[0];
            if self.key_matches(h, desc) {
            } else if self.ring_searchable(h) && !visited.contains(h) {
                self.lemma_visited_bound(visited.push(h));
                self.lemma_bfs_sound(
                    queue.drop_first() + self.obj(h).links@,
                    visited.push(h),
                    desc,
                );
            } else {
                self.lemma_bfs_sound(queue.drop_first(), visited, desc);
            }
        }
    }

    /// When no visible key under the description grants search anywhere in
    /// the table, a breadth-first search finds nothing.
    pub proof fn lemma_bfs_none(self, queue: Seq<i32>, visited: Seq<i32>, desc: Seq<u8>)
        requires
            self.ids_unique(),
            self.visited_wf(visited),
            forall|x: i32| !self.key_matches(x, desc),
        ensures
            self.bfs_spec(queue, visited, desc) is None,
        decreases self.objects@.len() - visited.len(), queue.len(),
    {
        if queue.len() > 0 {
            let h = queue[0];
            if self.ring_searchable(h) && !visited.contains(h) {
                self.lemma_visited_bound(visited.push(h));
                self.lemma_bfs_none(queue.drop_first() + self.obj(h).links@, visited.push(h), desc);
            } else {
                self.lemma_bfs_none(queue.drop_first(), visited, desc);
            }
        }
    }

    /// The first hit already sitting in the queue wins: nothing before it
    /// matches, and whatever a keyring before it enqueues lands behind it.
    pub proof fn lemma_bfs_first_hit(
        self,
        queue: Seq<i32>,
        visited: Seq<i32>,
        desc: Seq<u8>,
        i: int,
    )
        requires
            self.ids_unique(),
            self.visited_wf(visited),
            0 <= i < queue.len(),
            self.key_matches(queue[i], desc),
            forall|j: int| 0 <= j < i ==> !self.key_matches(#[trigger] queue[j], desc),
        ensures
            self.bfs_spec(queue, visited, desc) == Some(queue[i]),
        decreases self.objects@.len() - visited.len(), queue.len(),
    {
        let h = queue[0];
        if i == 0 {
        } else {
            assert(!self.key_matches(h, desc));
            if self.ring_searchable(h) && !visited.contains(h) {
                self.lemma_visited_bound(visited.push(h));
                let q2 = queue.drop_first() + self.obj(h).links@;
                assert(q2[i - 1] == queue[i]);
                assert forall|j: int| 0 <= j < i - 1 implies !self.key_matches(
                    #[trigger] q2[j],
                    desc,
                ) by {
                    assert(q2[j] == queue[j + 1]);
                }
                self.lemma_bfs_first_hit(q2, visited.push(h), desc, i - 1);
            } else {
                let q2 = queue.drop_first();
                assert(q2[i - 1] == queue[i]);
                assert forall|j: int| 0 <= j < i - 1 implies !self.key_matches(
                    #[trigger] q2[j],
                    desc,
                ) by {
                    assert(q2[j] == queue[j + 1]);
                }
                self.lemma_bfs_first_hit(q2, visited, desc, i - 1);
            }
        }
    }

    /// Run the breadth-first search of the link graph from a root serial.
    ///
    /// Children of a searchable keyring are taken in link order; the first
    /// hit in traversal order is returned.
    pub fn search_ring(&self, root: i32, desc: &Vec<u8>) -> (r: Option<i32>)
        requires
            self.wf(),
        ensures
            r == self.bfs_spec(seq![root], Seq::<i32>::empty(), desc@),
    {
        let ghost target = self.bfs_spec(seq![root], Seq::<i32>::empty(), desc@);
        let mut queue: Vec<i32> = Vec::new();
        queue.push(root);
        let mut head: usize = 0;
        let mut visited: Vec<i32> = Vec::new();
        proof {
            assert(queue@.skip(0) =~= seq![root]);
            assert(visited@ =~= Seq::<i32>::empty());
        }
        while head < queue.len()
            invariant
                self.wf(),
                head <= queue@.len(),
                self.visited_wf(visited@),
                target == self.bfs_spec(seq![root], Seq::<i32>::empty(), desc@),
                self.bfs_spec(queue@.skip(head as int), visited@, desc@) == target,
            decreases self.objects@.len() - visited@.len(), queue@.len() - head,
        {
            let ghost q0 = queue@.skip(head as int);
            let h = queue[head];
            head = head + 1;
            proof {
                assert(q0[0] == h);
                assert(q0.drop_first() =~= queue@.skip(head as int));
            }
            match self.lookup(h) {
                Some(idx) => {
                    let o = &self.objects[idx];
                    if !o.keyring && o.description == *desc && o.perms.search {
                        proof {
                            assert(self.obj(h).description@ =~= desc@);
                            assert(self.key_matches(h, desc@));
                            assert(q0.len() > 0 && q0[0] == h);
                            assert(self.bfs_spec(q0, visited@, desc@) == Some(h));
                        }
                        return Some(h);
                    }
                    proof {
                        assert(!self.key_matches(h, desc@));
                    }
                    if o.keyring && o.perms.search && !contains_id(&visited, h) {
                        let ghost pre_queue = queue@;
                        let n = o.links.len();
                        let mut t: usize = 0;
                        while t < n
                            invariant
                                self.wf(),
                                self.is_live(h),
                                n == self.obj(h).links@.len(),
                                t <= n,
                                self.index_of(h) == idx as int,
                                idx < self.objects@.len(),
                                queue@ == pre_queue + self.obj(h).links@.take(t as int),
                            decreases n - t,
                        {
                            queue.push(self.objects[idx].links[t]);
                            proof {
                                assert(queue@ =~= pre_queue + self.obj(h).links@.take(
                                    t as int + 1,
                                ));
                            }
                            t += 1;
                        }
                        visited.push(h);
                        proof {
                            assert(self.obj(h).links@.take(n as int) =~= self.obj(h).links@);
                            assert(queue@.skip(head as int) =~= q0.drop_first()
                                + self.obj(h).links@);
                            assert(self.visited_wf(visited@));
                            self.lemma_visited_bound(visited@);
                        }
                    }
                },
                None => {
                    proof {
                        assert(!self.key_matches(h, desc@));
                        assert(!self.ring_searchable(h));
                    }
                },
            }
        }
        proof {
            assert(queue@.skip(head as int) =~= Seq::<i32>::empty());
        }
        None
    }
}

impl KernelState {
    /// Is `target` reachable from the front of the queue through visible
    /// keyrings, following every link regardless of permission?
    pub open spec fn reach_spec(self, queue: Seq<i32>, visited: Seq<i32>, target: i32) -> bool
        decreases self.objects@.len() - visited.len(), queue.len(),
        when self.ids_unique() && self.visited_wf(visited)
        via Self::reach_spec_decreases
    {
        if queue.len() == 0 {
            false
        } else {
            let h = queue[0];
            if h == target {
                true
            } else if self.is_live_ring(h) && !visited.contains(h) {
                self.reach_spec(queue.drop_first() + self.obj(h).links@, visited.push(h), target)
            } else {
                self.reach_spec(queue.drop_first(), visited, target)
            }
        }
    }

    #[via_fn]
    proof fn reach_spec_decreases(self, queue: Seq<i32>, visited: Seq<i32>, target: i32) {
        if queue.len() > 0 {
            let h = queue[0];
            if h != target && self.is_live_ring(h) && !visited.contains(h) {
                self.lemma_visited_bound(visited.push(h));
            }
        }
    }

    /// Decide whether `target` can be reached from `from` along keyring
    /// links. The kernel makes this check before every link of a keyring to
    /// keep the graph acyclic.
    pub fn reaches(&self, from: i32, target: i32) -> (r: bool)
        requires
            self.wf(),
        ensures
            r == self.reach_spec(seq![from], Seq::<i32>::empty(), target),
    {
        let ghost goal = self.reach_spec(seq![from], Seq::<i32>::empty(), target);
        let mut queue: Vec<i32> = Vec::new();
        queue.push(from);
        let mut head: usize = 0;
        let mut visited: Vec<i32> = Vec::new();
        proof {
            assert(queue@.skip(0) =~= seq![from]);
            assert(visited@ =~= Seq::<i32>::empty());
        }
        while head < queue.len()
            invariant
                self.wf(),
                head <= queue@.len(),
                self.visited_wf(visited@),
                goal == self.reach_spec(seq![from], Seq::<i32>::empty(), target),
                self.reach_spec(queue@.skip(head as int), visited@, target) == goal,
            decreases self.objects@.len() - visited@.len(), queue@.len() - head,
        {
            let ghost q0 = queue@.skip(head as int);
            let h = queue[head];
            head = head + 1;
            proof {
                assert(q0[0] == h);
                assert(q0.drop_first() =~= queue@.skip(head as int));
            }
            if h == target {
                return true;
            }
            match self.lookup(h) {
                Some(idx) => {
                    let keyring = self.objects[idx].keyring;
                    if keyring && !contains_id(&visited, h) {
                        let ghost pre_queue = queue@;
                        let n = self.objects[idx].links.len();
                        let mut t: usize = 0;
                        while t < n
                            invariant
                                self.wf(),
                                self.is_live(h),
                                n == self.obj(h).links@.len(),
                                t <= n,
                                self.index_of(h) == idx as int,
                                idx < self.objects@.len(),
                                queue@ == pre_queue + self.obj(h).links@.take(t as int),
                            decreases n - t,
                        {
                            queue.push(self.objects[idx].links[t]);
                            proof {
                                assert(queue@ =~= pre_queue + self.obj(h).links@.take(
                                    t as int + 1,
                                ));
                            }
                            t += 1;
                        }
                        visited.push(h);
                        proof {
                            assert(self.obj(h).links@.take(n as int) =~= self.obj(h).links@);
                            assert(queue@.skip(head as int) =~= q0.drop_first()
                                + self.obj(h).links@);
                            assert(self.visited_wf(visited@));
                            self.lemma_visited_bound(visited@);
                        }
                    }
                },
                None => {
                    proof {
                        assert(!self.is_live_ring(h));
                    }
                },
            }
        }
        proof {
            assert(queue@.skip(head as int) =~= Seq::<i32>::empty());
        }
        false
    }

    /// Does the keyring at this serial head a chain of more than `fuel`
    /// nested visible keyrings?
    pub open spec fn depth_exceeds(self, id: i32, fuel: nat) -> bool
        decreases fuel,
    {
        if !self.is_live_ring(id) {
            false
        } else if fuel == 0 {
            true
        } else {
            exists|j: int|
                0 <= j < self.obj(id).links@.len() && self.depth_exceeds(
                    #[trigger] self.obj(id).links@[j],
                    (fuel - 1) as nat,
                )
        }
    }

    /// Decide whether linking the keyring at `id` one level down would break
    /// the kernel's nesting bound of `fuel` further levels.
    pub fn depth_check(&self, id: i32, fuel: usize) -> (r: bool)
        requires
            self.wf(),
        ensures
            r == self.depth_exceeds(id, fuel as nat),
        decreases fuel,
    {
        match self.lookup(id) {
            None => {
                proof {
                    assert(!self.is_live_ring(id));
                }
                false
            },
            Some(idx) => {
                if !self.objects[idx].keyring {
                    false
                } else if fuel == 0 {
                    true
                } else {
                    let n = self.objects[idx].links.len();
                    let mut j: usize = 0;
                    while j < n
                        invariant
                            self.wf(),
                            self.is_live_ring(id),
                            fuel >= 1,
                            n == self.obj(id).links@.len(),
                            j <= n,
                            self.index_of(id) == idx as int,
                            idx < self.objects@.len(),
                            forall|t: int|
                                0 <= t < j ==> !self.depth_exceeds(
                                    #[trigger] self.obj(id).links@[t],
                                    (fuel - 1) as nat,
                                ),
                        decreases n - j,
                    {
                        if self.depth_check(self.objects[idx].links[j], fuel - 1) {
                            proof {
                                assert(self.depth_exceeds(id, fuel as nat));
                            }
                            return true;
                        }
                        j += 1;
                    }
                    proof {
                        assert(!self.depth_exceeds(id, fuel as nat));
                    }
                    false
                }
            },
        }
    }

    /// Would a new link to `child` displace this visible object out of a
    /// keyring: same kind and same description as `child`.
    pub open spec fn displaces(self, child: i32, x: i32) -> bool {
        self.is_live(x) && self.obj(x).keyring == self.obj(child).keyring && self.obj(
            x,
        ).description@ == self.obj(child).description@
    }

    /// The links kept when an object of the given kind and description is
    /// linked in: every visible child it displaces is taken out, in order.
    pub open spec fn kept_links_by(self, keyring: bool, desc: Seq<u8>, l: Seq<i32>) -> Seq<i32> {
        l.filter(
            |x: i32|
                !(self.is_live(x) && self.obj(x).keyring == keyring && self.obj(x).description@
                    == desc),
        )
    }

    /// Two states that agree on the fate of every listed serial keep the same
    /// links under displacement filtering.
    pub proof fn lemma_kept_links_by_same(
        s1: KernelState,
        s2: KernelState,
        keyring: bool,
        desc: Seq<u8>,
        l: Seq<i32>,
    )
        requires
            forall|k: int|
                0 <= k < l.len() ==> ((s1.is_live(#[trigger] l[k]) && s1.obj(l[k]).keyring
                    == keyring && s1.obj(l[k]).description@ == desc) <==> (s2.is_live(l[k])
                    && s2.obj(l[k]).keyring == keyring && s2.obj(l[k]).description@ == desc)),
        ensures
            s1.kept_links_by(keyring, desc, l) == s2.kept_links_by(keyring, desc, l),
        decreases l.len(),
    {
        reveal_with_fuel(Seq::<i32>::filter, 2);
        if l.len() > 0 {
            let prefix = l.drop_last();
            assert forall|k: int|
                0 <= k < prefix.len() implies ((s1.is_live(#[trigger] prefix[k]) && s1.obj(
                prefix[k],
            ).keyring == keyring && s1.obj(prefix[k]).description@ == desc) <==> (s2.is_live(
                prefix[k],
            ) && s2.obj(prefix[k]).keyring == keyring && s2.obj(prefix[k]).description@
                == desc)) by {
                assert(prefix[k] == l[k]);
            }
            Self::lemma_kept_links_by_same(s1, s2, keyring, desc, prefix);
            assert(l[l.len() - 1] == l.last());
        }
    }

    /// The link list of the keyring at table position `i`, with every child a
    /// new link to `child` would displace taken out.
    pub fn displaced_links(&self, i: usize, child: i32) -> (r: Vec<i32>)
        requires
            self.wf(),
            i < self.objects@.len(),
            self.is_live(child),
        ensures
            r@.no_duplicates(),
            forall|x: i32| #[trigger]
                r@.contains(x) <==> (self.objects@[i as int].links@.contains(x) && !self.displaces(
                    child,
                    x,
                )),
            !r@.contains(child),
            r@ == self.kept_links_by(
                self.obj(child).keyring,
                self.obj(child).description@,
                self.objects@[i as int].links@,
            ),
    {
        let cidx = match self.lookup(child) {
            Some(c) => c,
            None => {
                proof {
                    assert(false);
                }
                0
            },
        };
        let n = self.objects[i].links.len();
        let mut r: Vec<i32> = Vec::new();
        let mut j: usize = 0;
        proof {
            assert(self.links_ok(self.objects@[i as int]));
            reveal_with_fuel(Seq::<i32>::filter, 1);
            assert(self.objects@[i as int].links@.take(0) =~= Seq::<i32>::empty());
            assert(self.kept_links_by(
                self.obj(child).keyring,
                self.obj(child).description@,
                Seq::<i32>::empty(),
            ) =~= Seq::<i32>::empty());
        }
        while j < n
            invariant
                self.wf(),
                i < self.objects@.len(),
                cidx < self.objects@.len(),
                self.is_live(child),
                self.index_of(child) == cidx as int,
                n == self.objects@[i as int].links@.len(),
                j <= n,
                r@.no_duplicates(),
                forall|x: i32| #[trigger]
                    r@.contains(x) ==> self.objects@[i as int].links@.take(j as int).contains(x)
                        && !self.displaces(child, x),
                forall|t: int|
                    0 <= t < j && !self.displaces(child, self.objects@[i as int].links@[t])
                        ==> r@.contains(#[trigger] self.objects@[i as int].links@[t]),
                r@ == self.kept_links_by(
                    self.obj(child).keyring,
                    self.obj(child).description@,
                    self.objects@[i as int].links@.take(j as int),
                ),
            decreases n - j,
        {
            let ghost links = self.objects@[i as int].links@;
            let ghost ck = self.obj(child).keyring;
            let ghost cd = self.obj(child).description@;
            let x = self.objects[i].links[j];
            let mut keep = true;
            match self.lookup(x) {
                Some(xi) => {
                    if self.objects[xi].keyring == self.objects[cidx].keyring
                        && self.objects[xi].description == self.objects[cidx].description {
                        proof {
                            assert(self.objects@[xi as int].description@ =~= self.objects@[
                                cidx as int].description@);
                            assert(self.displaces(child, x));
                        }
                        keep = false;
                    } else {
                        proof {
                            assert(!self.displaces(child, x));
                        }
                    }
                },
                None => {
                    proof {
                        assert(!self.displaces(child, x));
                    }
                },
            }
            if keep {
                let ghost r0 = r@;
                proof {
                    assert(self.links_ok(self.objects@[i as int]));
                    if links.take(j as int).contains(x) {
                        let t = choose|t: int| 0 <= t < j && links[t] == x;
                        assert(links[t] == links[j as int]);
                        assert(false);
                    }
                    assert(!r0.contains(x));
                }
                r.push(x);
                proof {
                    reveal_with_fuel(Seq::<i32>::filter, 2);
                    assert(links.take(j as int + 1) =~= links.take(j as int).push(x));
                    assert(links.take(j as int).push(x).drop_last() =~= links.take(j as int));
                    assert(links.take(j as int).push(x).last() == x);
                    assert(!(self.is_live(x) && self.obj(x).keyring == ck && self.obj(
                        x,
                    ).description@ == cd));
                    assert(self.kept_links_by(ck, cd, links.take(j as int + 1))
                        == self.kept_links_by(ck, cd, links.take(j as int)).push(x));
                    assert forall|y: i32| #[trigger] r@.contains(y) implies (links.take(
                        j as int + 1,
                    ).contains(y) && !self.displaces(child, y)) by {
                        let k = choose|k: int| 0 <= k < r@.len() && r@[k] == y;
                        if k < r0.len() {
                            assert(r0[k] == y);
                            assert(r0.contains(y));
                            assert(links.take(j as int).contains(y));
                            let t = choose|t: int| 0 <= t < j && links[t] == y;
                            assert(links.take(j as int + 1)[t] == y);
                        } else {
                            assert(y == x);
                            assert(links.take(j as int + 1)[j as int] == x);
                        }
                    }
                    assert forall|t: int|
                        0 <= t < j + 1 && !self.displaces(child, links[t]) implies r@.contains(
                        #[trigger] links[t],
                    ) by {
                        if t < j {
                            assert(r0.contains(links[t]));
                            let k = choose|k: int| 0 <= k < r0.len() && r0[k] == links[t];
                            assert(r@[k] == links[t]);
                        } else {
                            assert(r@[r0.len() as int] == x);
                        }
                    }
                }
            } else {
                proof {
                    reveal_with_fuel(Seq::<i32>::filter, 2);
                    assert(links.take(j as int + 1) =~= links.take(j as int).push(x));
                    assert(links.take(j as int).push(x).drop_last() =~= links.take(j as int));
                    assert(links.take(j as int).push(x).last() == x);
                    assert(self.is_live(x) && self.obj(x).keyring == ck && self.obj(
                        x,
                    ).description@ == cd);
                    assert(self.kept_links_by(ck, cd, links.take(j as int + 1))
                        == self.kept_links_by(ck, cd, links.take(j as int)));
                    assert forall|y: i32| #[trigger] r@.contains(y) implies links.take(
                        j as int + 1,
                    ).contains(y) && !self.displaces(child, y) by {
                        assert(links.take(j as int).contains(y));
                        let t = choose|t: int| 0 <= t < j && links[t] == y;
                        assert(links.take(j as int + 1)[t] == y);
                    }
                }
            }
            j += 1;
        }
        proof {
            let links = self.objects@[i as int].links@;
            assert(links.take(n as int) =~= links);
            assert forall|x: i32| #[trigger]
                r@.contains(x) <==> (links.contains(x) && !self.displaces(child, x)) by {
                if links.contains(x) && !self.displaces(child, x) {
                    let t = choose|t: int| 0 <= t < links.len() && links[t] == x;
                    assert(r@.contains(links[t]));
                }
            }
            assert(self.displaces(child, child));
        }
        r
    }
}

/// The kernel's bound on keyring nesting: a chain of links may pass through
/// at most this many keyrings.
pub const MAX_NESTING_DEPTH: usize = 6;

impl KernelState {
    /// Replacing one table entry by another that keeps its serial, kind,
    /// description and link list, and does not revive it, keeps the entry's
    /// link list sound.
    pub proof fn lemma_update_links_ok_same(
        pre: KernelState,
        post: KernelState,
        i: int,
        o2: KernelObject,
    )
        requires
            pre.wf(),
            0 <= i < pre.objects@.len(),
            post.objects@ == pre.objects@.update(i, o2),
            o2.id == pre.objects@[i].id,
            o2.keyring == pre.objects@[i].keyring,
            o2.description@ == pre.objects@[i].description@,
            o2.live ==> pre.objects@[i].live,
            o2.links@ == pre.objects@[i].links@,
        ensures
            post.links_ok(o2),
    {
        Self::lemma_update_frame(pre, post, i, o2);
        pre.lemma_obj_at(i);
        let o1 = pre.objects@[i];
        assert(pre.links_ok(o1));
        assert forall|x: i32| #[trigger] o2.links@.contains(x) implies post.has_index(x) by {
            assert(o1.links@.contains(x));
        }
        assert forall|x: i32, y: i32|
            o2.links@.contains(x) && o2.links@.contains(y) && x != y && post.is_live_key(x)
                && post.is_live_key(y) implies post.obj(x).description@ != post.obj(
            y,
        ).description@ by {
            assert(o1.links@.contains(x) && o1.links@.contains(y));
            assert(pre.is_live_key(x) && pre.is_live_key(y));
            assert(pre.obj(x).description@ == post.obj(x).description@);
            assert(pre.obj(y).description@ == post.obj(y).description@);
        }
    }

    /// What stands in the way of linking `child` into the keyring `ring`,
    /// checked in kernel order: the destination must be a visible keyring,
    /// the child visible, the caller must hold link permission on the child
    /// and write permission on the destination, and a keyring child must
    /// neither close a cycle nor nest too deep.
    pub open spec fn link_check(self, ring: i32, child: i32) -> Option<KeyError> {
        if !self.is_live(ring) {
            Some(KeyError::KeyDoesNotExist)
        } else if !self.obj(ring).keyring {
            Some(KeyError::Other(20))
        } else if !self.is_live(child) {
            Some(KeyError::KeyDoesNotExist)
        } else if !(self.obj(child).perms.link && self.obj(ring).perms.write) {
            Some(KeyError::PermissionDenied)
        } else if self.obj(child).keyring && self.reach_spec(
            seq![child],
            Seq::<i32>::empty(),
            ring,
        ) {
            Some(KeyError::AccessCycle)
        } else if self.obj(child).keyring && self.depth_exceeds(
            child,
            (MAX_NESTING_DEPTH - 1) as nat,
        ) {
            Some(KeyError::NestingTooDeep)
        } else {
            None
        }
    }

    /// Link `child` into the keyring `ring`: the child lands at the end of
    /// the link list, and any visible child of the same kind and description
    /// is displaced out of this keyring (only out of this one).
    pub fn link_into(&mut self, ring: i32, child: i32) -> (r: Result<(), KeyError>)
        requires
            old(self).wf(),
        ensures
            final(self).wf(),
            final(self).next_id == old(self).next_id,
            final(self).specials@ == old(self).specials@,
            final(self).persistent == old(self).persistent,
            final(self).uid == old(self).uid,
            final(self).gid == old(self).gid,
            final(self).objects@.len() == old(self).objects@.len(),
            forall|x: i32| final(self).has_index(x) == old(self).has_index(x),
            forall|x: i32|
                final(self).is_live(x) == old(self).is_live(x) && final(self).is_live_key(x)
                    == old(self).is_live_key(x) && final(self).is_live_ring(x) == old(
                    self,
                ).is_live_ring(x),
            forall|x: i32|
                x != ring && old(self).has_index(x) ==> final(self).obj(x) == old(self).obj(x),
            old(self).has_index(ring) ==> ({
                let o1 = old(self).obj(ring);
                let o2 = final(self).obj(ring);
                o2.id == o1.id && o2.live == o1.live && o2.keyring == o1.keyring
                    && o2.description@ == o1.description@ && o2.payload@ == o1.payload@
                    && o2.perms == o1.perms && o2.uid == o1.uid && o2.gid == o1.gid
            }),
            match old(self).link_check(ring, child) {
                Some(e) => r == Err::<(), KeyError>(e) && *final(self) == *old(self),
                None => r == Ok::<(), KeyError>(()) && ({
                    let l1 = old(self).obj(ring).links@;
                    let l2 = final(self).obj(ring).links@;
                    &&& l2.len() >= 1
                    &&& l2.last() == child
                    &&& l2 == old(self).kept_links_by(
                        old(self).obj(child).keyring,
                        old(self).obj(child).description@,
                        l1,
                    ).push(child)
                    &&& forall|x: i32| #[trigger]
                        l2.contains(x) <==> (x == child || (l1.contains(x) && !old(self).displaces(
                            child,
                            x,
                        )))
                }),
            },
    {
        let ridx = match self.lookup(ring) {
            None => {
                return Err(KeyError::KeyDoesNotExist);
            },
            Some(i) => i,
        };
        if !self.objects[ridx].keyring {
            return Err(KeyError::Other(20));
        }
        let cidx = match self.lookup(child) {
            None => {
                return Err(KeyError::KeyDoesNotExist);
            },
            Some(i) => i,
        };
        if !(self.objects[cidx].perms.link && self.objects[ridx].perms.write) {
            return Err(KeyError::PermissionDenied);
        }
        if self.objects[cidx].keyring {
            if self.reaches(child, ring) {
                return Err(KeyError::AccessCycle);
            }
            if self.depth_check(child, MAX_NESTING_DEPTH - 1) {
                return Err(KeyError::NestingTooDeep);
            }
        }
        proof {
            assert(old(self).link_check(ring, child) is None);
            assert(child != ring);
        }
        let mut nl = self.displaced_links(ridx, child);
        let ghost displ = nl@;
        nl.push(child);
        let ghost pre = *self;
        let ghost o1 = pre.objects@[ridx as int];
        self.objects[ridx].links = nl;
        proof {
            let o2 = self.objects@[ridx as int];
            assert(self.objects@ == pre.objects@.update(ridx as int, o2));
            Self::lemma_update_frame(pre, *self, ridx as int, o2);
            pre.lemma_obj_at(ridx as int);
            // the new link list is sound
            assert(o2.links@ == displ.push(child));
            assert(!displ.contains(child));
            assert forall|p: int, q: int|
                0 <= p < o2.links@.len() && 0 <= q < o2.links@.len() && p != q implies o2.links@[p]
                != o2.links@[q] by {
                if p < displ.len() && q < displ.len() {
                } else if p < displ.len() {
                    assert(displ.contains(displ[p]));
                } else if q < displ.len() {
                    assert(displ.contains(displ[q]));
                }
            }
            assert(o2.links@.no_duplicates());
            assert forall|x: i32| #[trigger] o2.links@.contains(x) implies self.has_index(x) by {
                let k = choose|k: int| 0 <= k < o2.links@.len() && o2.links@[k] == x;
                if k < displ.len() {
                    assert(displ[k] == x);
                    assert(displ.contains(x));
                    assert(o1.links@.contains(x));
                    assert(pre.links_ok(o1));
                } else {
                    assert(x == child);
                }
            }
            assert forall|x: i32, y: i32|
                o2.links@.contains(x) && o2.links@.contains(y) && x != y && self.is_live_key(x)
                    && self.is_live_key(y) implies self.obj(x).description@ != self.obj(
                y,
            ).description@ by {
                let kx = choose|k: int| 0 <= k < o2.links@.len() && o2.links@[k] == x;
                let ky = choose|k: int| 0 <= k < o2.links@.len() && o2.links@[k] == y;
                assert(x != ring || !self.is_live_key(x));
                assert(y != ring || !self.is_live_key(y));
                if kx < displ.len() && ky < displ.len() {
                    assert(displ.contains(x) && displ.contains(y));
                    assert(o1.links@.contains(x) && o1.links@.contains(y));
                    assert(pre.is_live_key(x) && pre.is_live_key(y));
                    assert(pre.links_ok(o1));
                } else if kx < displ.len() {
                    assert(y == child);
                    assert(displ.contains(x));
                    assert(!pre.displaces(child, x));
                    assert(pre.is_live_key(x) && pre.is_live_key(child));
                    assert(pre.obj(x).keyring == pre.obj(child).keyring);
                } else if ky < displ.len() {
                    assert(x == child);
                    assert(displ.contains(y));
                    assert(!pre.displaces(child, y));
                    assert(pre.is_live_key(y) && pre.is_live_key(child));
                    assert(pre.obj(y).keyring == pre.obj(child).keyring);
                }
            }
            assert(self.links_ok(o2));
            Self::lemma_update_wf(pre, *self, ridx as int, o2);
            assert forall|x: i32|
                final(self).is_live(x) == old(self).is_live(x) && final(self).is_live_key(x) == old(
                    self,
                ).is_live_key(x) && final(self).is_live_ring(x) == old(self).is_live_ring(x) by {
                if x == ring {
                    assert(self.obj(ring) == o2);
                    assert(pre.obj(ring) == o1);
                }
            }
            assert(o2.links@.last() == child);
            assert forall|x: i32| #[trigger]
                o2.links@.contains(x) <==> (x == child || (o1.links@.contains(x)
                    && !pre.displaces(child, x))) by {
                if o2.links@.contains(x) {
                    let k = choose|k: int| 0 <= k < o2.links@.len() && o2.links@[k] == x;
                    if k < displ.len() {
                        assert(displ[k] == x);
                        assert(displ.contains(x));
                    }
                }
                if x == child {
                    assert(o2.links@[displ.len() as int] == child);
                } else if o1.links@.contains(x) && !pre.displaces(child, x) {
                    assert(displ.contains(x));
                    let k = choose|k: int| 0 <= k < displ.len() && displ[k] == x;
                    assert(o2.links@[k] == x);
                }
            }
        }
        Ok(())
    }

    /// What stands in the way of unlinking `child` from the keyring `ring`:
    /// the destination must be a visible keyring the caller may write, and
    /// the link must actually exist.
    pub open spec fn unlink_check(self, ring: i32, child: i32) -> Option<KeyError> {
        if !self.is_live(ring) {
            Some(KeyError::KeyDoesNotExist)
        } else if !self.obj(ring).keyring {
            Some(KeyError::Other(20))
        } else if !self.obj(ring).perms.write {
            Some(KeyError::PermissionDenied)
        } else if !self.obj(ring).links@.contains(child) {
            Some(KeyError::KeyDoesNotExist)
        } else {
            None
        }
    }

    /// Remove the link to `child` from the keyring `ring`. Only the link
    /// goes away; the child object itself is untouched.
    pub fn unlink_from(&mut self, ring: i32, child: i32) -> (r: Result<(), KeyError>)
        requires
            old(self).wf(),
        ensures
            final(self).wf(),
            final(self).next_id == old(self).next_id,
            final(self).specials@ == old(self).specials@,
            final(self).persistent == old(self).persistent,
            final(self).uid == old(self).uid,
            final(self).gid == old(self).gid,
            final(self).objects@.len() == old(self).objects@.len(),
            forall|x: i32| final(self).has_index(x) == old(self).has_index(x),
            forall|x: i32|
                final(self).is_live(x) == old(self).is_live(x) && final(self).is_live_key(x)
                    == old(self).is_live_key(x) && final(self).is_live_ring(x) == old(
                    self,
                ).is_live_ring(x),
            forall|x: i32|
                x != ring && old(self).has_index(x) ==> final(self).obj(x) == old(self).obj(x),
            old(self).has_index(ring) ==> ({
                let o1 = old(self).obj(ring);
                let o2 = final(self).obj(ring);
                o2.id == o1.id && o2.live == o1.live && o2.keyring == o1.keyring
                    && o2.description@ == o1.description@ && o2.payload@ == o1.payload@
                    && o2.perms == o1.perms && o2.uid == o1.uid && o2.gid == o1.gid
            }),
            match old(self).unlink_check(ring, child) {
                Some(e) => r == Err::<(), KeyError>(e) && *final(self) == *old(self),
                None => r == Ok::<(), KeyError>(()) && ({
                    let l1 = old(self).obj(ring).links@;
                    let l2 = final(self).obj(ring).links@;
                    &&& l2 == links_without(l1, child)
                    &&& forall|x: i32| #[trigger] l2.contains(x) <==> (l1.contains(x) && x != child)
                }),
            },
    {
        let ridx = match self.lookup(ring) {
            None => {
                return Err(KeyError::KeyDoesNotExist);
            },
            Some(i) => i,
        };
        if !self.objects[ridx].keyring {
            return Err(KeyError::Other(20));
        }
        if !self.objects[ridx].perms.write {
            return Err(KeyError::PermissionDenied);
        }
        if !contains_id(&self.objects[ridx].links, child) {
            return Err(KeyError::KeyDoesNotExist);
        }
        proof {
            assert(old(self).unlink_check(ring, child) is None);
            assert(self.links_ok(self.objects@[ridx as int]));
        }
        let nl = without_value(&self.objects[ridx].links, child);
        let ghost pre = *self;
        let ghost o1 = pre.objects@[ridx as int];
        self.objects[ridx].links = nl;
        proof {
            let o2 = self.objects@[ridx as int];
            assert(self.objects@ == pre.objects@.update(ridx as int, o2));
            Self::lemma_update_frame(pre, *self, ridx as int, o2);
            pre.lemma_obj_at(ridx as int);
            assert forall|x: i32| #[trigger] o2.links@.contains(x) implies self.has_index(x) by {
                assert(o1.links@.contains(x));
                assert(pre.links_ok(o1));
            }
            assert forall|x: i32, y: i32|
                o2.links@.contains(x) && o2.links@.contains(y) && x != y && self.is_live_key(x)
                    && self.is_live_key(y) implies self.obj(x).description@ != self.obj(
                y,
            ).description@ by {
                assert(x != ring || !self.is_live_key(x));
                assert(y != ring || !self.is_live_key(y));
                assert(o1.links@.contains(x) && o1.links@.contains(y));
                assert(pre.is_live_key(x) && pre.is_live_key(y));
                assert(pre.links_ok(o1));
            }
            assert(self.links_ok(o2));
            Self::lemma_update_wf(pre, *self, ridx as int, o2);
            assert forall|x: i32|
                final(self).is_live(x) == old(self).is_live(x) && final(self).is_live_key(x) == old(
                    self,
                ).is_live_key(x) && final(self).is_live_ring(x) == old(self).is_live_ring(x) by {
                if x == ring {
                    assert(self.obj(ring) == o2);
                    assert(pre.obj(ring) == o1);
                }
            }
        }
        Ok(())
    }
}

/// A link list with every occurrence of one serial taken out, in order.
pub open spec fn links_without(l: Seq<i32>, bad: i32) -> Seq<i32> {
    l.filter(|x: i32| x != bad)
}

/// This vector with every occurrence of one value taken out.
pub fn without_value(v: &Vec<i32>, bad: i32) -> (r: Vec<i32>)
    requires
        v@.no_duplicates(),
    ensures
        r@.no_duplicates(),
        forall|x: i32| #[trigger] r@.contains(x) <==> (v@.contains(x) && x != bad),
        r@ == links_without(v@, bad),
{
    let n = v.len();
    let mut r: Vec<i32> = Vec::new();
    let mut j: usize = 0;
    proof {
        reveal_with_fuel(Seq::<i32>::filter, 1);
        assert(v@.take(0) =~= Seq::<i32>::empty());
        assert(links_without(Seq::<i32>::empty(), bad) =~= Seq::<i32>::empty());
    }
    while j < n
        invariant
            n == v@.len(),
            j <= n,
            v@.no_duplicates(),
            r@.no_duplicates(),
            forall|x: i32| #[trigger]
                r@.contains(x) ==> v@.take(j as int).contains(x) && x != bad,
            forall|t: int| 0 <= t < j && v@[t] != bad ==> r@.contains(#[trigger] v@[t]),
            r@ == links_without(v@.take(j as int), bad),
        decreases n - j,
    {
        let x = v[j];
        if x != bad {
            let ghost r0 = r@;
            proof {
                if v@.take(j as int).contains(x) {
                    let t = choose|t: int| 0 <= t < j && v@[t] == x;
                    assert(v@[t] == v@[j as int]);
                    assert(false);
                }
                assert(!r0.contains(x));
            }
            r.push(x);
            proof {
                reveal_with_fuel(Seq::<i32>::filter, 2);
                assert(v@.take(j as int + 1) =~= v@.take(j as int).push(x));
                assert(v@.take(j as int).push(x).drop_last() =~= v@.take(j as int));
                assert(v@.take(j as int).push(x).last() == x);
                assert(links_without(v@.take(j as int + 1), bad) == links_without(
                    v@.take(j as int),
                    bad,
                ).push(x));
                assert forall|y: i32| #[trigger] r@.contains(y) implies v@.take(
                    j as int + 1,
                ).contains(y) && y != bad by {
                    let k = choose|k: int| 0 <= k < r@.len() && r@[k] == y;
                    if k < r0.len() {
                        assert(r0[k] == y);
                        assert(r0.contains(y));
                        let t = choose|t: int| 0 <= t < j && v@[t] == y;
                        assert(v@.take(j as int + 1)[t] == y);
                    } else {
                        assert(y == x);
                        assert(v@.take(j as int + 1)[j as int] == x);
                    }
                }
                assert forall|t: int| 0 <= t < j + 1 && v@[t] != bad implies r@.contains(
                    #[trigger] v@[t],
                ) by {
                    if t < j {
                        assert(r0.contains(v@[t]));
                        let k = choose|k: int| 0 <= k < r0.len() && r0[k] == v@[t];
                        assert(r@[k] == v@[t]);
                    } else {
                        assert(r@[r0.len() as int] == x);
                    }
                }
            }
        } else {
            proof {
                reveal_with_fuel(Seq::<i32>::filter, 2);
                assert(v@.take(j as int + 1) =~= v@.take(j as int).push(x));
                assert(v@.take(j as int).push(x).drop_last() =~= v@.take(j as int));
                assert(v@.take(j as int).push(x).last() == x);
                assert(links_without(v@.take(j as int + 1), bad) == links_without(
                    v@.take(j as int),
                    bad,
                ));
                assert forall|y: i32| #[trigger] r@.contains(y) implies v@.take(
                    j as int + 1,
                ).contains(y) && y != bad by {
                    let t = choose|t: int| 0 <= t < j && v@[t] == y;
                    assert(v@.take(j as int + 1)[t] == y);
                }
            }
        }
        j += 1;
    }
    proof {
        assert(v@.take(n as int) =~= v@);
        assert forall|x: i32| #[trigger]
            r@.contains(x) <==> (v@.contains(x) && x != bad) by {
            if v@.contains(x) && x != bad {
                let t = choose|t: int| 0 <= t < v@.len() && v@[t] == x;
                assert(r@.contains(v@[t]));
            }
        }
    }
    r
}

impl KernelState {
    /// The special slot a symbolic identifier resolves through.
    pub open spec fn slot_of(self, s: KeyRingIdentifier) -> Option<i32> {
        self.specials@[special_slot_spec(s)]
    }

    /// Is this special slot filled with a visible keyring?
    pub open spec fn slot_live(self, s: KeyRingIdentifier) -> bool {
        self.slot_of(s) is Some && self.is_live(self.slot_of(s)->Some_0)
    }

    /// Resolve a special identifier to a concrete serial.
    ///
    /// A filled slot answers at once. An empty (or invalidated) slot fails
    /// with `KeyDoesNotExist` unless `create` is set, in which case a fresh
    /// keyring is created under the slot's well-known description — or
    /// `QuotaExceeded` when the serial space is spent.
    pub fn resolve_special(&mut self, s: KeyRingIdentifier, create: bool) -> (r: Result<
        i32,
        KeyError,
    >)
        requires
            old(self).wf(),
        ensures
            final(self).wf(),
            final(self).uid == old(self).uid,
            final(self).gid == old(self).gid,
            final(self).persistent == old(self).persistent,
            forall|x: i32|
                old(self).has_index(x) ==> final(self).has_index(x) && final(self).obj(x) == old(
                    self,
                ).obj(x),
            forall|t: KeyRingIdentifier|
                t != s ==> final(self).slot_of(t) == old(self).slot_of(t),
            if old(self).slot_live(s) {
                r == Ok::<i32, KeyError>(old(self).slot_of(s)->Some_0) && *final(self) == *old(
                    self,
                )
            } else if !create {
                r == Err::<i32, KeyError>(KeyError::KeyDoesNotExist) && *final(self) == *old(self)
            } else if old(self).next_id == i32::MAX {
                r == Err::<i32, KeyError>(KeyError::QuotaExceeded) && *final(self) == *old(self)
            } else {
                let id = old(self).next_id;
                &&& r == Ok::<i32, KeyError>(id)
                &&& !old(self).has_index(id)
                &&& final(self).slot_of(s) == Some(id)
                &&& final(self).is_live_ring(id)
                &&& final(self).obj(id).description@ == special_desc_spec(s)
                &&& final(self).obj(id).perms == Permissions::all_spec()
                &&& final(self).obj(id).links@ == Seq::<i32>::empty()
                &&& final(self).obj(id).uid == old(self).uid
                &&& final(self).obj(id).gid == old(self).gid
                &&& final(self).next_id == old(self).next_id + 1
                &&& forall|x: i32| x != id ==> final(self).has_index(x) == old(self).has_index(x)
                &&& forall|x: i32|
                    x != id ==> final(self).is_live(x) == old(self).is_live(x)
                        && final(self).is_live_key(x) == old(self).is_live_key(x)
                        && final(self).is_live_ring(x) == old(self).is_live_ring(x)
            },
            r is Ok ==> final(self).slot_live(s) && final(self).slot_of(s) == Some(r->Ok_0)
                && final(self).is_live_ring(r->Ok_0) && r->Ok_0 >= 1,
    {
        let kidx = s.slot();
        let slot = self.specials[kidx];
        match slot {
            Some(id) => {
                match self.lookup(id) {
                    Some(_) => {
                        proof {
                            assert(old(self).slot_live(s));
                            assert(self.slot_ok(special_slot_spec(s)));
                            assert(self.obj(id).keyring);
                            assert(self.is_live_ring(id));
                            let t = self.index_of(id);
                            assert(self.objects@[t].id == id);
                            assert(id >= 1);
                        }
                        return Ok(id);
                    },
                    None => {},
                }
            },
            None => {},
        }
        proof {
            assert(!old(self).slot_live(s));
        }
        if !create {
            return Err(KeyError::KeyDoesNotExist);
        }
        if self.next_id == i32::MAX {
            return Err(KeyError::QuotaExceeded);
        }
        let desc = special_desc(s);
        let ghost pre = *self;
        let id = self.create_object(true, desc, Vec::new());
        let ghost s1 = *self;
        self.specials[kidx] = Some(id);
        proof {
            assert(self.objects@ == s1.objects@);
            assert(self.specials@ == s1.specials@.update(kidx as int, Some(id)));
            assert(slot_ident(special_slot_spec(s)) == s);
            assert forall|j: int|
                0 <= j < s1.specials@.len() && s1.specials@[j] is Some
                implies (s1.specials@[j])->Some_0 < id by {
                let idj = s1.specials@[j]->Some_0;
                assert(pre.slot_ok(j));
                assert(pre.has_index(idj));
                let t = pre.index_of(idj);
                assert(pre.objects@[t].id == idj);
            }
            assert forall|k2: int| 0 <= k2 < self.specials@.len() implies self.slot_ok(k2) by {
                if k2 == kidx as int {
                    assert(self.has_index(id));
                    assert(self.obj(id) == s1.obj(id));
                } else {
                    assert(s1.slot_ok(k2));
                    assert(self.specials@[k2] == s1.specials@[k2]);
                    if self.specials@[k2] is Some {
                        let idj = self.specials@[k2]->Some_0;
                        assert(self.obj(idj) == s1.obj(idj));
                    }
                }
            }
            assert(self.persistent matches Some(p) ==> p < id && self.has_index(p) && self.obj(
                p,
            ).keyring) by {
                if self.persistent is Some {
                    let p = self.persistent->Some_0;
                    assert(pre.has_index(p));
                    let t = pre.index_of(p);
                    assert(pre.objects@[t].id == p);
                    assert(self.obj(p) == s1.obj(p));
                }
            }
            assert(self.roots_distinct());
            assert(self.wf());
            assert(final(self).slot_of(s) == Some(id));
            assert(self.is_live_ring(id));
        }
        Ok(id)
    }

    /// Replace the payload of the visible object at this serial.
    pub fn update_payload(&mut self, id: i32, payload: Vec<u8>)
        requires
            old(self).wf(),
            old(self).is_live(id),
        ensures
            final(self).wf(),
            final(self).next_id == old(self).next_id,
            final(self).specials@ == old(self).specials@,
            final(self).persistent == old(self).persistent,
            final(self).uid == old(self).uid,
            final(self).gid == old(self).gid,
            forall|x: i32| final(self).has_index(x) == old(self).has_index(x),
            forall|x: i32|
                x != id && old(self).has_index(x) ==> final(self).obj(x) == old(self).obj(x),
            forall|x: i32|
                final(self).is_live(x) == old(self).is_live(x) && final(self).is_live_key(x) == old(
                    self,
                ).is_live_key(x) && final(self).is_live_ring(x) == old(self).is_live_ring(x),
            ({
                let o1 = old(self).obj(id);
                let o2 = final(self).obj(id);
                o2.id == o1.id && o2.live == o1.live && o2.keyring == o1.keyring && o2.description@
                    == o1.description@ && o2.payload@ == payload@ && o2.links@ == o1.links@
                    && o2.perms == o1.perms && o2.uid == o1.uid && o2.gid == o1.gid
            }),
    {
        let idx = match self.lookup(id) {
            Some(i) => i,
            None => {
                proof {
                    assert(false);
                }
                0
            },
        };
        let ghost pre = *self;
        let ghost o1 = pre.objects@[idx as int];
        self.objects[idx].payload = payload;
        proof {
            let o2 = self.objects@[idx as int];
            Self::lemma_update_links_ok_same(pre, *self, idx as int, o2);
            Self::lemma_update_wf(pre, *self, idx as int, o2);
            assert forall|x: i32|
                final(self).is_live(x) == old(self).is_live(x) && final(self).is_live_key(x) == old(
                    self,
                ).is_live_key(x) && final(self).is_live_ring(x) == old(self).is_live_ring(x) by {
                if x == id {
                    assert(self.obj(id) == o2);
                    assert(pre.obj(id) == o1);
                }
            }
        }
    }

    /// Replace what the visible object at this serial grants the caller.
    pub fn set_perms_of(&mut self, id: i32, perms: Permissions)
        requires
            old(self).wf(),
            old(self).is_live(id),
        ensures
            final(self).wf(),
            final(self).next_id == old(self).next_id,
            final(self).specials@ == old(self).specials@,
            final(self).persistent == old(self).persistent,
            final(self).uid == old(self).uid,
            final(self).gid == old(self).gid,
            forall|x: i32| final(self).has_index(x) == old(self).has_index(x),
            forall|x: i32|
                x != id && old(self).has_index(x) ==> final(self).obj(x) == old(self).obj(x),
            forall|x: i32|
                final(self).is_live(x) == old(self).is_live(x) && final(self).is_live_key(x) == old(
                    self,
                ).is_live_key(x) && final(self).is_live_ring(x) == old(self).is_live_ring(x),
            ({
                let o1 = old(self).obj(id);
                let o2 = final(self).obj(id);
                o2.id == o1.id && o2.live == o1.live && o2.keyring == o1.keyring && o2.description@
                    == o1.description@ && o2.payload@ == o1.payload@ && o2.links@ == o1.links@
                    && o2.perms == perms && o2.uid == o1.uid && o2.gid == o1.gid
            }),
    {
        let idx = match self.lookup(id) {
            Some(i) => i,
            None => {
                proof {
                    assert(false);
                }
                0
            },
        };
        let ghost pre = *self;
        let ghost o1 = pre.objects@[idx as int];
        self.objects[idx].perms = perms;
        proof {
            let o2 = self.objects@[idx as int];
            Self::lemma_update_links_ok_same(pre, *self, idx as int, o2);
            Self::lemma_update_wf(pre, *self, idx as int, o2);
            assert forall|x: i32|
                final(self).is_live(x) == old(self).is_live(x) && final(self).is_live_key(x) == old(
                    self,
                ).is_live_key(x) && final(self).is_live_ring(x) == old(self).is_live_ring(x) by {
                if x == id {
                    assert(self.obj(id) == o2);
                    assert(pre.obj(id) == o1);
                }
            }
        }
    }

    /// Invalidate the object at this serial: it keeps its tombstone in the
    /// table but disappears from every lookup and traversal. Links pointing
    /// at it stay behind and are skipped by decoding and search.
    pub fn invalidate_object(&mut self, id: i32)
        requires
            old(self).wf(),
            old(self).is_live(id),
        ensures
            final(self).wf(),
            final(self).next_id == old(self).next_id,
            final(self).specials@ == old(self).specials@,
            final(self).persistent == old(self).persistent,
            final(self).uid == old(self).uid,
            final(self).gid == old(self).gid,
            forall|x: i32| final(self).has_index(x) == old(self).has_index(x),
            forall|x: i32|
                x != id && old(self).has_index(x) ==> final(self).obj(x) == old(self).obj(x),
            forall|x: i32|
                x != id ==> final(self).is_live(x) == old(self).is_live(x)
                    && final(self).is_live_key(x) == old(self).is_live_key(x)
                    && final(self).is_live_ring(x) == old(self).is_live_ring(x),
            !final(self).is_live(id),
            ({
                let o1 = old(self).obj(id);
                let o2 = final(self).obj(id);
                o2.id == o1.id && !o2.live && o2.keyring == o1.keyring && o2.description@
                    == o1.description@ && o2.payload@ == o1.payload@ && o2.links@ == o1.links@
                    && o2.perms == o1.perms
            }),
    {
        let idx = match self.lookup(id) {
            Some(i) => i,
            None => {
                proof {
                    assert(false);
                }
                0
            },
        };
        let ghost pre = *self;
        let ghost o1 = pre.objects@[idx as int];
        self.objects[idx].live = false;
        proof {
            let o2 = self.objects@[idx as int];
            Self::lemma_update_links_ok_same(pre, *self, idx as int, o2);
            Self::lemma_update_wf(pre, *self, idx as int, o2);
            assert(self.obj(id) == o2);
        }
    }

    /// What stands in the way of clearing the keyring `ring`: it must be a
    /// visible keyring the caller may write.
    pub open spec fn clear_check(self, ring: i32) -> Option<KeyError> {
        if !self.is_live(ring) {
            Some(KeyError::KeyDoesNotExist)
        } else if !self.obj(ring).keyring {
            Some(KeyError::Other(20))
        } else if !self.obj(ring).perms.write {
            Some(KeyError::PermissionDenied)
        } else {
            None
        }
    }

    /// Unlink every direct child of the keyring `ring` in one step.
    pub fn clear_ring(&mut self, ring: i32) -> (r: Result<(), KeyError>)
        requires
            old(self).wf(),
        ensures
            final(self).wf(),
            final(self).next_id == old(self).next_id,
            final(self).specials@ == old(self).specials@,
            final(self).persistent == old(self).persistent,
            final(self).uid == old(self).uid,
            final(self).gid == old(self).gid,
            forall|x: i32| final(self).has_index(x) == old(self).has_index(x),
            forall|x: i32|
                x != ring && old(self).has_index(x) ==> final(self).obj(x) == old(self).obj(x),
            forall|x: i32|
                final(self).is_live(x) == old(self).is_live(x) && final(self).is_live_key(x) == old(
                    self,
                ).is_live_key(x) && final(self).is_live_ring(x) == old(self).is_live_ring(x),
            match old(self).clear_check(ring) {
                Some(e) => r == Err::<(), KeyError>(e) && *final(self) == *old(self),
                None => r == Ok::<(), KeyError>(()) && final(self).obj(ring).links@
                    == Seq::<i32>::empty() && ({
                    let o1 = old(self).obj(ring);
                    let o2 = final(self).obj(ring);
                    o2.id == o1.id && o2.live == o1.live && o2.keyring == o1.keyring
                        && o2.description@ == o1.description@ && o2.payload@ == o1.payload@
                        && o2.perms == o1.perms && o2.uid == o1.uid && o2.gid == o1.gid
                }),
            },
    {
        let ridx = match self.lookup(ring) {
            None => {
                return Err(KeyError::KeyDoesNotExist);
            },
            Some(i) => i,
        };
        if !self.objects[ridx].keyring {
            return Err(KeyError::Other(20));
        }
        if !self.objects[ridx].perms.write {
            return Err(KeyError::PermissionDenied);
        }
        let ghost pre = *self;
        let ghost o1 = pre.objects@[ridx as int];
        self.objects[ridx].links = Vec::new();
        proof {
            let o2 = self.objects@[ridx as int];
            Self::lemma_update_frame(pre, *self, ridx as int, o2);
            pre.lemma_obj_at(ridx as int);
            assert(o2.links@ =~= Seq::<i32>::empty());
            assert(self.links_ok(o2));
            Self::lemma_update_wf(pre, *self, ridx as int, o2);
            assert forall|x: i32|
                final(self).is_live(x) == old(self).is_live(x) && final(self).is_live_key(x) == old(
                    self,
                ).is_live_key(x) && final(self).is_live_ring(x) == old(self).is_live_ring(x) by {
                if x == ring {
                    assert(self.obj(ring) == o2);
                    assert(pre.obj(ring) == o1);
                }
            }
        }
        Ok(())
    }
}

impl KernelState {
    /// Does the keyring hold a visible leaf-key child under this
    /// description?
    pub open spec fn has_matching_key_child(self, ring: i32, desc: Seq<u8>) -> bool {
        exists|x: i32| #[trigger]
            self.obj(ring).links@.contains(x) && self.is_live_key(x) && self.obj(x).description@
                == desc
    }

    /// The visible leaf-key child under this description (unique in a
    /// well-formed state).
    pub open spec fn matching_key_child(self, ring: i32, desc: Seq<u8>) -> i32 {
        choose|x: i32| #[trigger]
            self.obj(ring).links@.contains(x) && self.is_live_key(x) && self.obj(x).description@
                == desc
    }

    /// Find the visible leaf-key child of `ring` carrying this description.
    pub fn find_key_child(&self, ring: i32, desc: &Vec<u8>) -> (r: Option<i32>)
        requires
            self.wf(),
            self.is_live_ring(ring),
        ensures
            match r {
                Some(x) => self.obj(ring).links@.contains(x) && self.is_live_key(x) && self.obj(
                    x,
                ).description@ == desc@ && x == self.matching_key_child(ring, desc@),
                None => !self.has_matching_key_child(ring, desc@),
            },
    {
        let ridx = match self.lookup(ring) {
            Some(i) => i,
            None => {
                proof {
                    assert(false);
                }
                0
            },
        };
        let n = self.objects[ridx].links.len();
        let mut j: usize = 0;
        while j < n
            invariant
                self.wf(),
                self.is_live_ring(ring),
                ridx < self.objects@.len(),
                self.index_of(ring) == ridx as int,
                n == self.obj(ring).links@.len(),
                j <= n,
                forall|t: int|
                    0 <= t < j ==> !(self.is_live_key(#[trigger] self.obj(ring).links@[t])
                        && self.obj(self.obj(ring).links@[t]).description@ == desc@),
            decreases n - j,
        {
            let x = self.objects[ridx].links[j];
            match self.lookup(x) {
                Some(xi) => {
                    if !self.objects[xi].keyring && self.objects[xi].description == *desc {
                        proof {
                            assert(self.objects@[xi as int].description@ =~= desc@);
                            assert(self.obj(ring).links@.contains(x));
                            let c = self.matching_key_child(ring, desc@);
                            if c != x {
                                assert(self.links_ok(self.objects@[ridx as int]));
                                assert(self.obj(ring).links@.contains(c));
                                assert(false);
                            }
                        }
                        return Some(x);
                    }
                },
                None => {},
            }
            j += 1;
        }
        proof {
            if self.has_matching_key_child(ring, desc@) {
                let x = choose|x: i32| #[trigger]
                    self.obj(ring).links@.contains(x) && self.is_live_key(x) && self.obj(
                        x,
                    ).description@ == desc@;
                let t = choose|t: int|
                    0 <= t < self.obj(ring).links@.len() && self.obj(ring).links@[t] == x;
                assert(false);
            }
        }
        None
    }

    /// What stands in the way of creating a key under the keyring `ring`:
    /// the destination must be a visible keyring the caller may write, and a
    /// serial must be left to hand out.
    pub open spec fn create_check(self, ring: i32) -> Option<KeyError> {
        if !self.is_live(ring) {
            Some(KeyError::KeyDoesNotExist)
        } else if !self.obj(ring).keyring {
            Some(KeyError::Other(20))
        } else if !self.obj(ring).perms.write {
            Some(KeyError::PermissionDenied)
        } else if self.next_id == i32::MAX {
            Some(KeyError::QuotaExceeded)
        } else {
            None
        }
    }

    /// Create a fresh leaf key under this description and payload and link
    /// it into the keyring `ring`, displacing any visible key child of the
    /// same description.
    pub fn create_and_link(&mut self, ring: i32, description: Vec<u8>, payload: Vec<u8>) -> (r:
        Result<i32, KeyError>)
        requires
            old(self).wf(),
        ensures
            final(self).wf(),
            final(self).specials@ == old(self).specials@,
            final(self).persistent == old(self).persistent,
            final(self).uid == old(self).uid,
            final(self).gid == old(self).gid,
            forall|x: i32| old(self).has_index(x) ==> final(self).has_index(x),
            match old(self).create_check(ring) {
                Some(e) => r == Err::<i32, KeyError>(e) && *final(self) == *old(self),
                None => ({
                    let id = old(self).next_id;
                    let l1 = old(self).obj(ring).links@;
                    let l2 = final(self).obj(ring).links@;
                    &&& r == Ok::<i32, KeyError>(id)
                    &&& !old(self).has_index(id)
                    &&& final(self).is_live_key(id)
                    &&& final(self).obj(id).description@ == description@
                    &&& final(self).obj(id).payload@ == payload@
                    &&& final(self).obj(id).perms == Permissions::all_spec()
                    &&& final(self).next_id == old(self).next_id + 1
                    &&& forall|x: i32|
                        x != ring && x != id && old(self).has_index(x) ==> final(self).obj(x)
                            == old(self).obj(x)
                    &&& forall|x: i32|
                        x != id ==> final(self).is_live(x) == old(self).is_live(x)
                            && final(self).is_live_key(x) == old(self).is_live_key(x)
                            && final(self).is_live_ring(x) == old(self).is_live_ring(x)
                    &&& l2.len() >= 1
                    &&& l2.last() == id
                    &&& l2 == old(self).kept_links_by(false, description@, l1).push(id)
                    &&& forall|x: i32| #[trigger]
                        l2.contains(x) <==> (x == id || (l1.contains(x) && !(old(self).is_live(x)
                            && !old(self).obj(x).keyring && old(self).obj(x).description@
                            == description@)))
                    &&& ({
                        let o1 = old(self).obj(ring);
                        let o2 = final(self).obj(ring);
                        o2.id == o1.id && o2.live == o1.live && o2.keyring == o1.keyring
                            && o2.description@ == o1.description@ && o2.payload@ == o1.payload@
                            && o2.perms == o1.perms && o2.uid == o1.uid && o2.gid == o1.gid
                    })
                }),
            },
    {
        let ridx = match self.lookup(ring) {
            None => {
                return Err(KeyError::KeyDoesNotExist);
            },
            Some(i) => i,
        };
        if !self.objects[ridx].keyring {
            return Err(KeyError::Other(20));
        }
        if !self.objects[ridx].perms.write {
            return Err(KeyError::PermissionDenied);
        }
        if self.next_id == i32::MAX {
            return Err(KeyError::QuotaExceeded);
        }
        proof {
            assert(old(self).create_check(ring) is None);
        }
        let ghost desc_view = description@;
        let id = self.create_object(false, description, payload);
        let ghost s1 = *self;
        proof {
            assert(s1.is_live(ring));
            assert(s1.obj(ring) == old(self).obj(ring));
            assert(s1.link_check(ring, id) is None);
        }
        let lr = self.link_into(ring, id);
        proof {
            assert(lr is Ok);
            let l1 = old(self).obj(ring).links@;
            assert(old(self).links_ok(old(self).obj(ring))) by {
                old(self).lemma_obj_at(old(self).index_of(ring));
            }
            assert forall|k: int|
                0 <= k < l1.len() implies ((s1.is_live(#[trigger] l1[k]) && s1.obj(
                l1[k],
            ).keyring == false && s1.obj(l1[k]).description@ == desc_view) <==> (old(
                self,
            ).is_live(l1[k]) && old(self).obj(l1[k]).keyring == false && old(self).obj(
                l1[k],
            ).description@ == desc_view)) by {
                assert(l1.contains(l1[k]));
                assert(old(self).has_index(l1[k]));
                assert(l1[k] != id);
                assert(s1.obj(l1[k]) == old(self).obj(l1[k]));
                assert(s1.is_live(l1[k]) == old(self).is_live(l1[k]));
            }
            KernelState::lemma_kept_links_by_same(s1, *old(self), false, desc_view, l1);
            assert(s1.obj(id).keyring == false && s1.obj(id).description@ == desc_view);
            assert(s1.obj(ring).links@ == l1);
            assert forall|x: i32| #[trigger]
                final(self).obj(ring).links@.contains(x) <==> (x == id || (old(self).obj(
                    ring,
                ).links@.contains(x) && !(old(self).is_live(x) && !old(self).obj(x).keyring && old(
                    self,
                ).obj(x).description@ == desc_view))) by {
                let l1 = old(self).obj(ring).links@;
                if l1.contains(x) {
                    assert(old(self).links_ok(old(self).obj(ring))) by {
                        let t = old(self).index_of(ring);
                        old(self).lemma_obj_at(t);
                    }
                    assert(old(self).has_index(x));
                    assert(x != id);
                    assert(s1.is_live(x) == old(self).is_live(x));
                    if old(self).has_index(x) {
                        assert(s1.obj(x) == old(self).obj(x));
                    }
                    assert(s1.displaces(id, x) == (old(self).is_live(x) && !old(self).obj(
                        x,
                    ).keyring && old(self).obj(x).description@ == desc_view));
                }
            }
        }
        match lr {
            Ok(_) => Ok(id),
            Err(_) => {
                proof {
                    assert(false);
                }
                Err(KeyError::KeyDoesNotExist)
            },
        }
    }

    /// Make sure the caller's persistent keyring exists, creating it afresh
    /// when absent or invalidated.
    pub fn ensure_persistent(&mut self) -> (r: Result<i32, KeyError>)
        requires
            old(self).wf(),
        ensures
            final(self).wf(),
            final(self).specials@ == old(self).specials@,
            final(self).uid == old(self).uid,
            final(self).gid == old(self).gid,
            forall|x: i32|
                old(self).has_index(x) ==> final(self).has_index(x) && final(self).obj(x) == old(
                    self,
                ).obj(x),
            if old(self).persistent is Some && old(self).is_live(old(self).persistent->Some_0) {
                r == Ok::<i32, KeyError>(old(self).persistent->Some_0) && *final(self) == *old(
                    self,
                )
            } else if old(self).next_id == i32::MAX {
                r == Err::<i32, KeyError>(KeyError::QuotaExceeded) && *final(self) == *old(self)
            } else {
                let id = old(self).next_id;
                &&& r == Ok::<i32, KeyError>(id)
                &&& !old(self).has_index(id)
                &&& final(self).persistent == Some(id)
                &&& final(self).is_live_ring(id)
                &&& final(self).obj(id).perms == Permissions::all_spec()
                &&& final(self).obj(id).links@ == Seq::<i32>::empty()
                &&& final(self).next_id == old(self).next_id + 1
                &&& forall|x: i32| x != id ==> final(self).has_index(x) == old(self).has_index(x)
                &&& forall|x: i32|
                    x != id ==> final(self).is_live(x) == old(self).is_live(x)
                        && final(self).is_live_key(x) == old(self).is_live_key(x)
                        && final(self).is_live_ring(x) == old(self).is_live_ring(x)
            },
            r is Ok ==> final(self).persistent == Some(r->Ok_0) && final(self).is_live_ring(
                r->Ok_0,
            ) && r->Ok_0 >= 1,
    {
        match self.persistent {
            Some(p) => {
                match self.lookup(p) {
                    Some(_) => {
                        proof {
                            let t = self.index_of(p);
                            assert(self.objects@[t].id == p);
                            assert(p >= 1);
                            assert(self.obj(p).keyring);
                        }
                        return Ok(p);
                    },
                    None => {},
                }
            },
            None => {},
        }
        if self.next_id == i32::MAX {
            return Err(KeyError::QuotaExceeded);
        }
        // the persistent keyring's well-known description
        let mut desc: Vec<u8> = Vec::new();
        desc.push(0x5f);
        desc.push(0x70);
        desc.push(0x65);
        desc.push(0x72);
        let ghost pre = *self;
        let id = self.create_object(true, desc, Vec::new());
        let ghost s1 = *self;
        self.persistent = Some(id);
        proof {
            assert(self.objects@ == s1.objects@);
            assert(self.specials@ == s1.specials@);
            assert forall|j: int|
                0 <= j < self.specials@.len() && self.specials@[j] is Some
                implies (self.specials@[j])->Some_0 < id by {
                let idj = (self.specials@[j])->Some_0;
                assert(pre.slot_ok(j));
                assert(pre.has_index(idj));
                let t = pre.index_of(idj);
                assert(pre.objects@[t].id == idj);
            }
            assert forall|k2: int| 0 <= k2 < self.specials@.len() implies self.slot_ok(k2) by {
                assert(s1.slot_ok(k2));
                if self.specials@[k2] is Some {
                    let idj = (self.specials@[k2])->Some_0;
                    assert(self.obj(idj) == s1.obj(idj));
                }
            }
            assert(self.roots_distinct());
            assert(self.wf());
        }
        Ok(id)
    }
}

/// Does this vector hold the given serial?
pub fn contains_id(v: &Vec<i32>, x: i32) -> (r: bool)
    ensures
        r == v@.contains(x),
{
    let n = v.len();
    let mut i: usize = 0;
    while i < n
        invariant
            n == v@.len(),
            i <= n,
            forall|j: int| 0 <= j < i ==> v@[j] != x,
        decreases n - i,
    {
        if v[i] == x {
            return true;
        }
        i += 1;
    }
    false
}

} // verus!
