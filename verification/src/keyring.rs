//! The keyring handle and its graph operations: resolution, creation,
//! search, linking, unlinking, enumeration and clearing.

use vstd::prelude::*;

use crate::codec::{decode_links, encode_links, lemma_links_roundtrip};
use crate::error::{classify_errno, classify_errno_spec, KeyError};
use crate::id::{special_desc_spec, special_slot_spec, KeyRingIdentifier, KeySerialId};
use crate::key::{copy_bytes, Key, Metadata};
use crate::links::{serials_of, LinkNode, Links};
use crate::state::KernelState;

verus! {

/// Is a description fit for the kernel: it must survive null-termination, so
/// it may not carry an embedded terminator byte.
pub open spec fn desc_encodable(d: Seq<u8>) -> bool {
    !d.contains(0u8)
}

/// Does this byte vector carry an embedded terminator?
pub fn has_nul(d: &Vec<u8>) -> (r: bool)
    ensures
        r == !desc_encodable(d@),
{
    let n = d.len();
    let mut i: usize = 0;
    while i < n
        invariant
            n == d@.len(),
            i <= n,
            forall|j: int| 0 <= j < i ==> d@[j] != 0u8,
        decreases n - i,
    {
        if d[i] == 0 {
            return true;
        }
        i += 1;
    }
    false
}

/// A handle on one keyring: a lightweight copyable capability naming the
/// kernel object by serial; the kernel state owns the object itself.
#[derive(Debug, Copy, Clone, PartialEq, Eq, Structural)]
pub struct KeyRing {
    /// The serial this handle names.
    pub id: KeySerialId,
}

/// What stands in the way of a search from `ring` under `desc`.
pub open spec fn search_check(s: KernelState, ring: i32, desc: Seq<u8>) -> Option<KeyError> {
    if !desc_encodable(desc) {
        Some(KeyError::InvalidDescription)
    } else if !s.is_live(ring) {
        Some(KeyError::KeyDoesNotExist)
    } else if !s.obj(ring).keyring {
        Some(KeyError::Other(20))
    } else if !s.obj(ring).perms.search {
        Some(KeyError::PermissionDenied)
    } else {
        None
    }
}

/// What stands in the way of creating or updating a key under `ring`.
pub open spec fn add_check(s: KernelState, ring: i32, desc: Seq<u8>) -> Option<KeyError> {
    if !desc_encodable(desc) {
        Some(KeyError::InvalidDescription)
    } else if !s.is_live(ring) {
        Some(KeyError::KeyDoesNotExist)
    } else if !s.obj(ring).keyring {
        Some(KeyError::Other(20))
    } else if !s.obj(ring).perms.write {
        Some(KeyError::PermissionDenied)
    } else if s.has_matching_key_child(ring, desc) {
        if s.obj(s.matching_key_child(ring, desc)).perms.write {
            None
        } else {
            Some(KeyError::PermissionDenied)
        }
    } else if s.next_id == i32::MAX {
        Some(KeyError::QuotaExceeded)
    } else {
        None
    }
}

/// What stands in the way of listing the links of `ring`: read or search
/// permission both suffice.
pub open spec fn list_check(s: KernelState, ring: i32) -> Option<KeyError> {
    if !s.is_live(ring) {
        Some(KeyError::KeyDoesNotExist)
    } else if !s.obj(ring).keyring {
        Some(KeyError::Other(20))
    } else if !(s.obj(ring).perms.read || s.obj(ring).perms.search) {
        Some(KeyError::PermissionDenied)
    } else {
        None
    }
}

/// Is an object inside the listing a budget of `max` entries yields for
/// `ring`: the object must stand among the first `max` links and be
/// introspectable (visible, granting view permission).
pub open spec fn listed(s: KernelState, ring: i32, max: int, x: i32) -> bool {
    let l = s.obj(ring).links@;
    let cnt = if max < l.len() {
        max
    } else {
        l.len() as int
    };
    &&& l.take(cnt).contains(x)
    &&& s.is_live(x)
    &&& s.obj(x).perms.view
}

/// What stands in the way of a lookup-or-instantiate request before any
/// search runs.
pub open spec fn request_check(
    s: KernelState,
    ring: i32,
    desc: Seq<u8>,
    callout: Option<Seq<u8>>,
) -> Option<KeyError> {
    if !desc_encodable(desc) || (callout matches Some(c) && !desc_encodable(c)) {
        Some(KeyError::InvalidDescription)
    } else if !s.is_live(ring) {
        Some(KeyError::KeyDoesNotExist)
    } else if !s.obj(ring).keyring {
        Some(KeyError::Other(20))
    } else if !s.obj(ring).perms.write {
        Some(KeyError::PermissionDenied)
    } else {
        None
    }
}

impl KeyRing {
    /// Wrap an already-resolved serial.
    pub fn from_id(id: KeySerialId) -> (r: Self)
        ensures
            r.id == id,
    {
        KeyRing { id }
    }

    /// The serial this handle names.
    pub fn get_id(&self) -> (r: KeySerialId)
        ensures
            r == self.id,
    {
        self.id
    }

    /// Obtain a keyring from its special identifier.
    ///
    /// With `create` set, an empty (or invalidated) slot is filled with a
    /// fresh keyring; without it, such a slot fails with `KeyDoesNotExist`.
    /// A serial from a successful resolution is always positive.
    pub fn from_special_id(state: &mut KernelState, id: KeyRingIdentifier, create: bool) -> (r:
        Result<Self, KeyError>)
        requires
            old(state).wf(),
        ensures
            final(state).wf(),
            final(state).uid == old(state).uid,
            final(state).gid == old(state).gid,
            final(state).persistent == old(state).persistent,
            forall|x: i32|
                old(state).has_index(x) ==> final(state).has_index(x) && final(state).obj(x) == old(
                    state,
                ).obj(x),
            if old(state).slot_live(id) {
                r == Ok::<Self, KeyError>(
                    KeyRing { id: KeySerialId(old(state).slot_of(id)->Some_0) },
                ) && *final(state) == *old(state)
            } else if !create {
                r == Err::<Self, KeyError>(KeyError::KeyDoesNotExist) && *final(state) == *old(
                    state,
                )
            } else if old(state).next_id == i32::MAX {
                r == Err::<Self, KeyError>(KeyError::QuotaExceeded) && *final(state) == *old(state)
            } else {
                let created = old(state).next_id;
                &&& r == Ok::<Self, KeyError>(KeyRing { id: KeySerialId(created) })
                &&& final(state).slot_of(id) == Some(created)
                &&& final(state).obj(created).description@ == special_desc_spec(id)
                &&& final(state).obj(created).perms == crate::state::Permissions::all_spec()
                &&& final(state).obj(created).uid == old(state).uid
                &&& final(state).obj(created).gid == old(state).gid
                &&& final(state).next_id == old(state).next_id + 1
                &&& forall|x: i32|
                    x != created ==> final(state).has_index(x) == old(state).has_index(x)
                &&& forall|x: i32|
                    x != created ==> final(state).is_live(x) == old(state).is_live(x)
                        && final(state).is_live_key(x) == old(state).is_live_key(x)
                        && final(state).is_live_ring(x) == old(state).is_live_ring(x)
            },
            r is Ok ==> ({
                let rid = r->Ok_0.id.0;
                &&& rid >= 1
                &&& final(state).slot_live(id)
                &&& final(state).slot_of(id) == Some(rid)
                &&& final(state).is_live_ring(rid)
            }),
    {
        match state.resolve_special(id, create) {
            Ok(raw) => Ok(KeyRing { id: KeySerialId(raw) }),
            Err(e) => Err(e),
        }
    }

    /// Obtain the caller's persistent keyring and link it into the keyring
    /// the special identifier names, creating both on demand.
    ///
    /// Repeated calls hand back the same serial as long as the persistent
    /// keyring stays alive, and that serial never collides with any special
    /// slot's. The caller must hold write permission on the link target.
    pub fn get_persistent(state: &mut KernelState, link_with: KeyRingIdentifier) -> (r: Result<
        Self,
        KeyError,
    >)
        requires
            old(state).wf(),
        ensures
            final(state).wf(),
            final(state).uid == old(state).uid,
            final(state).gid == old(state).gid,
            forall|x: i32| old(state).has_index(x) ==> final(state).has_index(x),
            // untouched objects and already-live roots are preserved
            forall|x: i32|
                old(state).has_index(x) ==> final(state).is_live(x) == old(state).is_live(x)
                    && final(state).is_live_key(x) == old(state).is_live_key(x)
                    && final(state).is_live_ring(x) == old(state).is_live_ring(x),
            forall|t: KeyRingIdentifier|
                old(state).slot_live(t) ==> final(state).slot_of(t) == old(state).slot_of(t),
            (old(state).persistent is Some && old(state).is_live(old(state).persistent->Some_0))
                ==> final(state).persistent == old(state).persistent,
            old(state).slot_live(link_with) ==> ({
                let t = old(state).slot_of(link_with)->Some_0;
                &&& forall|x: i32|
                    x != t && old(state).has_index(x) ==> final(state).obj(x) == old(state).obj(x)
                &&& ({
                    let o1 = old(state).obj(t);
                    let o2 = final(state).obj(t);
                    o2.id == o1.id && o2.live == o1.live && o2.keyring == o1.keyring
                        && o2.description@ == o1.description@ && o2.payload@ == o1.payload@
                        && o2.perms == o1.perms && o2.uid == o1.uid && o2.gid == o1.gid
                })
            }),
            !old(state).slot_live(link_with) ==> forall|x: i32|
                old(state).has_index(x) ==> final(state).obj(x) == old(state).obj(x),
            r is Ok ==> ({
                let p = r->Ok_0.id.0;
                &&& p >= 1
                &&& final(state).persistent == Some(p)
                &&& final(state).is_live_ring(p)
                &&& (old(state).persistent is Some && old(state).is_live(
                    old(state).persistent->Some_0,
                ) ==> p == old(state).persistent->Some_0)
                &&& final(state).slot_live(link_with)
                &&& final(state).obj(final(state).slot_of(link_with)->Some_0).links@.contains(p)
            }),
            // a freshly created persistent keyring leaves the call with no
            // links of its own, so a repeated call is owed success: nothing
            // then stands in the way of linking it again
            (r is Ok && !(old(state).persistent is Some && old(state).is_live(
                old(state).persistent->Some_0,
            ))) ==> final(state).obj(r->Ok_0.id.0).links@ == Seq::<i32>::empty(),
            (r is Ok && final(state).obj(r->Ok_0.id.0).links@.len() == 0)
                ==> final(state).link_check(
                    final(state).slot_of(link_with)->Some_0,
                    r->Ok_0.id.0,
                ) is None,
            // the gateway's permission classification passes through: a fresh
            // persistent keyring cannot be linked into a target the caller
            // may not write
            ({
                let fresh_p = !(old(state).persistent is Some && old(state).is_live(
                    old(state).persistent->Some_0,
                ));
                (fresh_p && old(state).slot_live(link_with) && !old(state).obj(
                    old(state).slot_of(link_with)->Some_0,
                ).perms.write && old(state).next_id < i32::MAX) ==> r == Err::<Self, KeyError>(
                    KeyError::PermissionDenied,
                )
            }),
            (old(state).slot_live(link_with) && old(state).persistent is Some && old(
                state,
            ).is_live(old(state).persistent->Some_0)) ==> final(state).next_id == old(
                state,
            ).next_id && ({
                let t = old(state).slot_of(link_with)->Some_0;
                let p = old(state).persistent->Some_0;
                match old(state).link_check(t, p) {
                    Some(e) => r == Err::<Self, KeyError>(e),
                    None => r == Ok::<Self, KeyError>(KeyRing { id: KeySerialId(p) }),
                }
            }),
            // success is owed whenever the persistent keyring is created
            // afresh and serial space remains: a fresh keyring cannot close a
            // cycle nor nest too deep
            ({
                let fresh_p = !(old(state).persistent is Some && old(state).is_live(
                    old(state).persistent->Some_0,
                ));
                let t_ok = old(state).slot_live(link_with) && old(state).obj(
                    old(state).slot_of(link_with)->Some_0,
                ).perms.write;
                &&& (fresh_p && !old(state).slot_live(link_with) && old(state).next_id + 1
                    < i32::MAX ==> r is Ok)
                &&& (fresh_p && t_ok && old(state).next_id < i32::MAX ==> r is Ok)
            }),
    {
        let target = match state.resolve_special(link_with, true) {
            Ok(t) => t,
            Err(e) => {
                return Err(e);
            },
        };
        let p = match state.ensure_persistent() {
            Ok(p) => p,
            Err(e) => {
                return Err(e);
            },
        };
        let ghost s2 = *state;
        proof {
            let fresh_p = !(old(state).persistent is Some && old(state).is_live(
                old(state).persistent->Some_0,
            ));
            if fresh_p && (!old(state).slot_live(link_with) && old(state).next_id + 1 < i32::MAX
                || old(state).slot_live(link_with) && old(state).obj(
                old(state).slot_of(link_with)->Some_0,
            ).perms.write && old(state).next_id < i32::MAX) {
                // the persistent keyring is brand new: it has no links, so it
                // can neither reach the target nor head a deep chain
                assert(s2.is_live_ring(target));
                assert(s2.obj(target).perms.write);
                assert(s2.is_live_ring(p) && s2.obj(p).perms.link);
                assert(s2.obj(p).links@ == Seq::<i32>::empty());
                assert(p != target);
                assert(s2.visited_wf(Seq::<i32>::empty()));
                assert(s2.visited_wf(seq![p]));
                assert(seq![p].drop_first() + s2.obj(p).links@ =~= Seq::<i32>::empty());
                assert(Seq::<i32>::empty().push(p) =~= seq![p]);
                assert(!s2.reach_spec(Seq::<i32>::empty(), seq![p], target));
                assert(!s2.reach_spec(seq![p], Seq::<i32>::empty(), target));
                assert(!s2.depth_exceeds(p, (crate::state::MAX_NESTING_DEPTH - 1) as nat));
                assert(s2.link_check(target, p) is None);
            }
        }
        proof {
            let fresh_p = !(old(state).persistent is Some && old(state).is_live(
                old(state).persistent->Some_0,
            ));
            if fresh_p && old(state).slot_live(link_with) && !old(state).obj(
                old(state).slot_of(link_with)->Some_0,
            ).perms.write && old(state).next_id < i32::MAX {
                assert(s2.is_live_ring(target));
                assert(s2.obj(target) == old(state).obj(target));
                assert(!s2.obj(target).perms.write);
                assert(s2.is_live(p));
                assert(s2.link_check(target, p) == Some(KeyError::PermissionDenied));
            }
        }
        match state.link_into(target, p) {
            Ok(_) => {
                proof {
                    let f = *state;
                    assert(f.slot_of(link_with) == s2.slot_of(link_with));
                    assert(f.persistent == Some(p));
                    assert(f.roots_distinct());
                    assert(p != target);
                    assert(f.obj(p) == s2.obj(p));
                    assert(s2.link_check(target, p) is None);
                    assert(s2.obj(p).perms.link);
                    if f.obj(p).links@.len() == 0 {
                        assert(f.is_live_ring(target));
                        assert(f.obj(target).perms.write);
                        assert(f.is_live_ring(p) && f.obj(p).perms.link);
                        assert(f.visited_wf(Seq::<i32>::empty()));
                        assert(f.visited_wf(seq![p]));
                        assert(seq![p].drop_first() + f.obj(p).links@ =~= Seq::<i32>::empty());
                        assert(Seq::<i32>::empty().push(p) =~= seq![p]);
                        assert(!f.reach_spec(Seq::<i32>::empty(), seq![p], target));
                        assert(!f.reach_spec(seq![p], Seq::<i32>::empty(), target));
                        assert(!f.depth_exceeds(p, (crate::state::MAX_NESTING_DEPTH - 1) as nat));
                        assert(f.link_check(target, p) is None);
                    }
                }
                Ok(KeyRing { id: KeySerialId(p) })
            },
            Err(e) => Err(e),
        }
    }

    /// Obtain information describing this keyring; demands view permission.
    pub fn metadata(&self, state: &KernelState) -> (r: Result<Metadata, KeyError>)
        requires
            state.wf(),
        ensures
            r is Ok <==> (state.is_live(self.id.0) && state.obj(self.id.0).perms.view),
            r is Ok ==> ({
                let m = r->Ok_0;
                let o = state.obj(self.id.0);
                &&& m.object_type == (if o.keyring {
                    crate::key::KeyType::KeyRing
                } else {
                    crate::key::KeyType::User
                })
                &&& m.uid == o.uid
                &&& m.gid == o.gid
                &&& m.perms == o.perms
                &&& m.description@ == o.description@
            }),
            r is Err ==> r->Err_0 == (if !state.is_live(self.id.0) {
                KeyError::KeyDoesNotExist
            } else {
                KeyError::PermissionDenied
            }),
    {
        Metadata::from_id(state, self.id)
    }

    /// Create or update a leaf key under this keyring.
    ///
    /// A visible key child already carrying the description is updated in
    /// place and keeps its serial; otherwise a fresh key is created, linked
    /// at the end of the link list, and any same-description key child is
    /// displaced.
    pub fn add_key(&self, state: &mut KernelState, description: &Vec<u8>, secret: &Vec<u8>) -> (r:
        Result<Key, KeyError>)
        requires
            old(state).wf(),
        ensures
            final(state).wf(),
            final(state).specials@ == old(state).specials@,
            final(state).persistent == old(state).persistent,
            final(state).uid == old(state).uid,
            final(state).gid == old(state).gid,
            forall|x: i32| old(state).has_index(x) ==> final(state).has_index(x),
            match add_check(*old(state), self.id.0, description@) {
                Some(e) => r == Err::<Key, KeyError>(e) && *final(state) == *old(state),
                None => r is Ok && ({
                    let k = r->Ok_0.id.0;
                    let ring = self.id.0;
                    &&& final(state).is_live_key(k)
                    &&& final(state).obj(k).description@ == description@
                    &&& final(state).obj(k).payload@ == secret@
                    &&& final(state).obj(ring).links@.contains(k)
                    &&& if old(state).has_matching_key_child(ring, description@) {
                        &&& k == old(state).matching_key_child(ring, description@)
                        &&& final(state).obj(ring).links@ == old(state).obj(ring).links@
                        &&& forall|x: i32|
                            final(state).is_live(x) == old(state).is_live(x) && final(state).is_live_key(x) == old(state).is_live_key(x)
                    } else {
                        &&& k == old(state).next_id
                        &&& !old(state).has_index(k)
                        &&& final(state).obj(k).perms
                            == crate::state::Permissions::all_spec()
                        &&& forall|x: i32| #[trigger]
                            final(state).obj(ring).links@.contains(x) <==> (x == k || old(
                                state,
                            ).obj(ring).links@.contains(x))
                        &&& forall|x: i32|
                            x != k ==> final(state).is_live(x) == old(state).is_live(x) && final(state).is_live_key(x) == old(state).is_live_key(x)
                    }
                    &&& forall|x: i32|
                        x != ring && x != k && old(state).has_index(x) ==> final(state).obj(x)
                            == old(state).obj(x)
                    &&& final(state).obj(ring).keyring && final(state).obj(ring).live
                    &&& final(state).obj(ring).perms == old(state).obj(ring).perms
                }),
            },
    {
        if has_nul(description) {
            return Err(KeyError::InvalidDescription);
        }
        let ring = self.id.0;
        let ridx = match state.lookup(ring) {
            None => {
                return Err(KeyError::KeyDoesNotExist);
            },
            Some(i) => i,
        };
        if !state.objects[ridx].keyring {
            return Err(KeyError::Other(20));
        }
        if !state.objects[ridx].perms.write {
            return Err(KeyError::PermissionDenied);
        }
        match state.find_key_child(ring, description) {
            Some(c) => {
                let cidx = match state.lookup(c) {
                    Some(i) => i,
                    None => {
                        proof {
                            assert(false);
                        }
                        0
                    },
                };
                if !state.objects[cidx].perms.write {
                    return Err(KeyError::PermissionDenied);
                }
                proof {
                    assert(add_check(*old(state), ring, description@) is None);
                }
                state.update_payload(c, copy_bytes(secret));
                proof {
                    assert(final(state).obj(ring).links@ == old(state).obj(ring).links@);
                }
                Ok(Key { id: KeySerialId(c) })
            },
            None => {
                if state.next_id == i32::MAX {
                    return Err(KeyError::QuotaExceeded);
                }
                proof {
                    assert(add_check(*old(state), ring, description@) is None);
                }
                match state.create_and_link(ring, copy_bytes(description), copy_bytes(secret)) {
                    Ok(k) => {
                        proof {
                            assert forall|x: i32| #[trigger]
                                final(state).obj(ring).links@.contains(x) <==> (x == k || old(
                                    state,
                                ).obj(ring).links@.contains(x)) by {
                                if old(state).obj(ring).links@.contains(x) {
                                    assert(!(old(state).is_live(x) && !old(state).obj(x).keyring
                                        && old(state).obj(x).description@ == description@)) by {
                                        if old(state).is_live(x) && !old(state).obj(x).keyring
                                            && old(state).obj(x).description@ == description@ {
                                            assert(old(state).has_matching_key_child(
                                                ring,
                                                description@,
                                            ));
                                        }
                                    }
                                }
                            }
                        }
                        Ok(Key { id: KeySerialId(k) })
                    },
                    Err(e) => {
                        proof {
                            assert(false);
                        }
                        Err(e)
                    },
                }
            },
        }
    }

    /// Search the keyring tree rooted here for a leaf key under the given
    /// description, breadth-first and recursively.
    ///
    /// Only keyrings granting search permission are descended into, only a
    /// key granting search permission is a hit, and the first hit in
    /// traversal order is returned. No reachable hit means
    /// `KeyDoesNotExist`. The description must be encodable.
    pub fn search(&self, state: &KernelState, description: &Vec<u8>) -> (r: Result<Key, KeyError>)
        requires
            state.wf(),
        ensures
            match search_check(*state, self.id.0, description@) {
                Some(e) => r == Err::<Key, KeyError>(e),
                None => match state.bfs_spec(
                    seq![self.id.0],
                    Seq::<i32>::empty(),
                    description@,
                ) {
                    Some(k) => r == Ok::<Key, KeyError>(Key { id: KeySerialId(k) }),
                    None => r == Err::<Key, KeyError>(KeyError::KeyDoesNotExist),
                },
            },
    {
        if has_nul(description) {
            return Err(KeyError::InvalidDescription);
        }
        let ring = self.id.0;
        let ridx = match state.lookup(ring) {
            None => {
                return Err(KeyError::KeyDoesNotExist);
            },
            Some(i) => i,
        };
        if !state.objects[ridx].keyring {
            return Err(KeyError::Other(20));
        }
        if !state.objects[ridx].perms.search {
            return Err(KeyError::PermissionDenied);
        }
        match state.search_ring(ring, description) {
            Some(k) => Ok(Key { id: KeySerialId(k) }),
            None => Err(KeyError::KeyDoesNotExist),
        }
    }

    /// Look a key up by description under this keyring, optionally
    /// instantiating it when absent.
    ///
    /// A key that is found or created is attached to this keyring (the
    /// kernel links it in, displacing a same-description key child) and
    /// returned; attaching a found key demands link permission on it. On a
    /// miss without callout data the request fails with `KeyDoesNotExist`.
    /// With callout data, `instantiation` stands for what the user-space
    /// instantiation helper produced for this request: its payload becomes
    /// the fresh key's payload, or its errno becomes the reported failure.
    pub fn request_key(
        &self,
        state: &mut KernelState,
        description: &Vec<u8>,
        callout: Option<&Vec<u8>>,
        instantiation: Result<Vec<u8>, i32>,
    ) -> (r: Result<Key, KeyError>)
        requires
            old(state).wf(),
        ensures
            final(state).wf(),
            final(state).specials@ == old(state).specials@,
            final(state).persistent == old(state).persistent,
            final(state).uid == old(state).uid,
            final(state).gid == old(state).gid,
            forall|x: i32| old(state).has_index(x) ==> final(state).has_index(x),
            forall|x: i32|
                x != self.id.0 && x != old(state).next_id && old(state).has_index(x)
                    ==> final(state).obj(x) == old(state).obj(x),
            forall|x: i32|
                x != old(state).next_id ==> final(state).is_live(x) == old(state).is_live(x)
                    && final(state).is_live_key(x) == old(state).is_live_key(x)
                    && final(state).is_live_ring(x) == old(state).is_live_ring(x),
            old(state).has_index(self.id.0) ==> ({
                let o1 = old(state).obj(self.id.0);
                let o2 = final(state).obj(self.id.0);
                o2.id == o1.id && o2.live == o1.live && o2.keyring == o1.keyring
                    && o2.description@ == o1.description@ && o2.payload@ == o1.payload@
                    && o2.perms == o1.perms && o2.uid == o1.uid && o2.gid == o1.gid
            }),
            match request_check(
                *old(state),
                self.id.0,
                description@,
                match callout {
                    Some(c) => Some(c@),
                    None => None,
                },
            ) {
                Some(e) => r == Err::<Key, KeyError>(e) && *final(state) == *old(state),
                None => {
                    let found = old(state).bfs_spec(
                        seq![self.id.0],
                        Seq::<i32>::empty(),
                        description@,
                    );
                    if found is Some {
                        let k = found->Some_0;
                        if old(state).obj(k).perms.link {
                            r == Ok::<Key, KeyError>(Key { id: KeySerialId(k) }) && ({
                                let l1 = old(state).obj(self.id.0).links@;
                                let l2 = final(state).obj(self.id.0).links@;
                                &&& l2 == old(state).kept_links_by(false, description@, l1).push(k)
                                &&& l2.last() == k
                                &&& l2.contains(k)
                            })
                        } else {
                            r == Err::<Key, KeyError>(KeyError::PermissionDenied) && *final(state)
                                == *old(state)
                        }
                    } else if callout is None {
                        r == Err::<Key, KeyError>(KeyError::KeyDoesNotExist) && *final(state)
                            == *old(state)
                    } else if instantiation is Err {
                        r == Err::<Key, KeyError>(classify_errno_spec(instantiation->Err_0))
                            && *final(state) == *old(state)
                    } else {
                        match old(state).create_check(self.id.0) {
                            Some(e) => r == Err::<Key, KeyError>(e) && *final(state) == *old(
                                state,
                            ),
                            None => r is Ok && ({
                                let k = r->Ok_0.id.0;
                                let l1 = old(state).obj(self.id.0).links@;
                                let l2 = final(state).obj(self.id.0).links@;
                                &&& k == old(state).next_id
                                &&& final(state).is_live_key(k)
                                &&& final(state).obj(k).description@ == description@
                                &&& final(state).obj(k).payload@ == instantiation->Ok_0@
                                &&& l2 == old(state).kept_links_by(false, description@, l1).push(k)
                                &&& l2.contains(k)
                            }),
                        }
                    }
                },
            },
    {
        if has_nul(description) {
            return Err(KeyError::InvalidDescription);
        }
        match callout {
            Some(c) => {
                if has_nul(c) {
                    return Err(KeyError::InvalidDescription);
                }
            },
            None => {},
        }
        let ring = self.id.0;
        let ridx = match state.lookup(ring) {
            None => {
                return Err(KeyError::KeyDoesNotExist);
            },
            Some(i) => i,
        };
        if !state.objects[ridx].keyring {
            return Err(KeyError::Other(20));
        }
        if !state.objects[ridx].perms.write {
            return Err(KeyError::PermissionDenied);
        }
        match state.search_ring(ring, description) {
            Some(k) => {
                proof {
                    state.lemma_bfs_sound(seq![ring], Seq::<i32>::empty(), description@);
                    assert(state.key_matches(k, description@));
                    assert(state.obj(k).description@ == description@);
                    if state.obj(k).perms.link {
                        assert(state.link_check(ring, k) is None);
                    } else {
                        assert(state.link_check(ring, k) == Some(KeyError::PermissionDenied));
                    }
                }
                // the found key is attached to this keyring
                match state.link_into(ring, k) {
                    Ok(_) => Ok(Key { id: KeySerialId(k) }),
                    Err(e) => Err(e),
                }
            },
            None => {
                match callout {
                    None => Err(KeyError::KeyDoesNotExist),
                    Some(_) => {
                        match instantiation {
                            Err(errno) => Err(classify_errno(errno)),
                            Ok(data) => {
                                match state.create_and_link(ring, copy_bytes(description), data) {
                                    Ok(k) => Ok(Key { id: KeySerialId(k) }),
                                    Err(e) => Err(e),
                                }
                            },
                        }
                    },
                }
            },
        }
    }

    /// List the links of this keyring: at most `max` entries are read from
    /// the listing buffer, decoded, and classified; entries that cannot be
    /// introspected are dropped, never failing the listing. Truncation to
    /// `max` entries is silent; `max` of zero deterministically yields an
    /// empty collection and never an error.
    pub fn get_links(&self, state: &KernelState, max: usize) -> (r: Result<Links, KeyError>)
        requires
            state.wf(),
        ensures
            max == 0 ==> r is Ok && r->Ok_0.nodes@.len() == 0,
            max > 0 ==> match list_check(*state, self.id.0) {
                Some(e) => r == Err::<Links, KeyError>(e),
                None => r is Ok && ({
                    let ls = r->Ok_0;
                    let l1 = state.obj(self.id.0).links@;
                    let cnt = if (max as int) < l1.len() {
                        max as int
                    } else {
                        l1.len() as int
                    };
                    &&& forall|x: i32| #[trigger]
                        ls.contains_serial(x) <==> listed(*state, self.id.0, max as int, x)
                    &&& serials_of(ls.nodes@) == state.introspectable_links(l1.take(cnt))
                    &&& forall|i: int|
                        0 <= i < ls.nodes@.len() ==> state.is_live(#[trigger] ls.nodes@[i].serial())
                            && ls.nodes@[i].is_ring() == state.obj(ls.nodes@[i].serial()).keyring
                }),
            },
    {
        if max == 0 {
            return Ok(Links::new());
        }
        let ring = self.id.0;
        let ridx = match state.lookup(ring) {
            None => {
                return Err(KeyError::KeyDoesNotExist);
            },
            Some(i) => i,
        };
        if !state.objects[ridx].keyring {
            return Err(KeyError::Other(20));
        }
        if !(state.objects[ridx].perms.read || state.objects[ridx].perms.search) {
            return Err(KeyError::PermissionDenied);
        }
        // the kernel fills a buffer of at most `max` fixed-width entries
        let buf = encode_links(&state.objects[ridx].links, max);
        let ids = decode_links(&buf);
        let ghost l1 = state.obj(ring).links@;
        let ghost cnt: int = if max < l1.len() {
            max as int
        } else {
            l1.len() as int
        };
        proof {
            lemma_links_roundtrip(l1, buf@, ids@, max as int);
            assert(ids@ == l1.take(cnt));
            assert(ids@.take(0) =~= Seq::<i32>::empty());
            assert(state.introspectable_links(Seq::<i32>::empty()) =~= Seq::<i32>::empty());
            assert(serials_of(Seq::<LinkNode>::empty()) =~= Seq::<i32>::empty());
        }
        let n = ids.len();
        let mut nodes: Vec<LinkNode> = Vec::new();
        let mut j: usize = 0;
        while j < n
            invariant
                state.wf(),
                n == ids@.len(),
                j <= n,
                ids@ == l1.take(cnt),
                cnt <= l1.len(),
                forall|i: int|
                    0 <= i < nodes@.len() ==> state.is_live(#[trigger] nodes@[i].serial())
                        && state.obj(nodes@[i].serial()).perms.view && nodes@[i].is_ring()
                        == state.obj(nodes@[i].serial()).keyring,
                forall|x: i32|
                    (exists|i: int| 0 <= i < nodes@.len() && nodes@[i].serial() == x) ==> (
                    ids@.take(j as int).contains(x) && state.is_live(x) && state.obj(
                        x,
                    ).perms.view),
                forall|t: int|
                    0 <= t < j && state.is_live(#[trigger] ids@[t]) && state.obj(
                        ids@[t],
                    ).perms.view ==> exists|i: int|
                        0 <= i < nodes@.len() && nodes@[i].serial() == ids@[t],
                serials_of(nodes@) == state.introspectable_links(ids@.take(j as int)),
            decreases n - j,
        {
            let x = ids[j];
            let ghost nodes0 = nodes@;
            match LinkNode::from_id(state, KeySerialId(x)) {
                Ok(node) => {
                    nodes.push(node);
                    proof {
                        assert(nodes@ == nodes0.push(node));
                        assert(state.introspectable(x));
                        let a = ids@.take(j as int);
                        reveal_with_fuel(Seq::<i32>::filter, 2);
                        assert(ids@.take(j as int + 1) =~= a.push(x));
                        assert(a.push(x).drop_last() =~= a);
                        assert(a.push(x).last() == x);
                        assert(state.introspectable_links(a.push(x))
                            == state.introspectable_links(a).push(x));
                        assert(serials_of(nodes@) =~= serials_of(nodes0).push(node.serial()));
                        assert(node.serial() == x);
                        assert forall|y: i32|
                            (exists|i: int| 0 <= i < nodes@.len() && nodes@[i].serial() == y)
                                implies (ids@.take(j as int + 1).contains(y) && state.is_live(y)
                                && state.obj(y).perms.view) by {
                            let i = choose|i: int|
                                0 <= i < nodes@.len() && nodes@[i].serial() == y;
                            if i < nodes0.len() {
                                assert(nodes0[i].serial() == y);
                                assert(ids@.take(j as int).contains(y));
                                let t = choose|t: int| 0 <= t < j && ids@[t] == y;
                                assert(ids@.take(j as int + 1)[t] == y);
                            } else {
                                assert(y == x);
                                assert(ids@.take(j as int + 1)[j as int] == x);
                            }
                        }
                        assert forall|t: int|
                            0 <= t < j + 1 && state.is_live(#[trigger] ids@[t]) && state.obj(
                                ids@[t],
                            ).perms.view implies exists|i: int|
                            0 <= i < nodes@.len() && nodes@[i].serial() == ids@[t] by {
                            if t < j {
                                let i = choose|i: int|
                                    0 <= i < nodes0.len() && nodes0[i].serial() == ids@[t];
                                assert(nodes@[i].serial() == ids@[t]);
                            } else {
                                assert(nodes@[nodes0.len() as int].serial() == x);
                            }
                        }
                    }
                },
                Err(_) => {
                    proof {
                        assert(!state.introspectable(x));
                        let a = ids@.take(j as int);
                        reveal_with_fuel(Seq::<i32>::filter, 2);
                        assert(ids@.take(j as int + 1) =~= a.push(x));
                        assert(a.push(x).drop_last() =~= a);
                        assert(a.push(x).last() == x);
                        assert(state.introspectable_links(a.push(x))
                            == state.introspectable_links(a));
                        assert forall|y: i32|
                            (exists|i: int| 0 <= i < nodes@.len() && nodes@[i].serial() == y)
                                implies (ids@.take(j as int + 1).contains(y) && state.is_live(y)
                                && state.obj(y).perms.view) by {
                            assert(ids@.take(j as int).contains(y));
                            let t = choose|t: int| 0 <= t < j && ids@[t] == y;
                            assert(ids@.take(j as int + 1)[t] == y);
                        }
                    }
                },
            }
            j += 1;
        }
        let ls = Links { nodes };
        proof {
            assert(ids@.take(n as int) =~= ids@);
            assert forall|x: i32| #[trigger]
                ls.contains_serial(x) <==> (l1.take(cnt).contains(x) && state.is_live(x)
                    && state.obj(x).perms.view) by {
                if ls.contains_serial(x) {
                    let i = choose|i: int| 0 <= i < ls.nodes@.len() && ls.nodes@[i].serial() == x;
                    assert(exists|i2: int|
                        0 <= i2 < ls.nodes@.len() && ls.nodes@[i2].serial() == x);
                    assert(ids@.take(n as int).contains(x));
                }
                if l1.take(cnt).contains(x) && state.is_live(x) && state.obj(x).perms.view {
                    let t = choose|t: int| 0 <= t < ids@.len() && ids@[t] == x;
                    assert(state.is_live(ids@[t]) && state.obj(ids@[t]).perms.view);
                    let i = choose|i: int|
                        0 <= i < ls.nodes@.len() && ls.nodes@[i].serial() == ids@[t];
                    assert(ls.contains_serial(x));
                }
            }
        }
        Ok(ls)
    }

    /// Create a link from this keyring to a key. A visible key child of the
    /// same description is displaced; the kernel refuses cycles and
    /// over-deep nesting before linking.
    pub fn link_key(&self, state: &mut KernelState, key: Key) -> (r: Result<(), KeyError>)
        requires
            old(state).wf(),
        ensures
            final(state).wf(),
            final(state).specials@ == old(state).specials@,
            final(state).persistent == old(state).persistent,
            forall|x: i32| final(state).has_index(x) == old(state).has_index(x),
            forall|x: i32|
                x != self.id.0 && old(state).has_index(x) ==> final(state).obj(x) == old(
                    state,
                ).obj(x),
            final(state).next_id == old(state).next_id,
            final(state).uid == old(state).uid,
            final(state).gid == old(state).gid,
            forall|x: i32|
                final(state).is_live(x) == old(state).is_live(x) && final(state).is_live_key(x)
                    == old(state).is_live_key(x) && final(state).is_live_ring(x) == old(
                    state,
                ).is_live_ring(x),
            old(state).has_index(self.id.0) ==> ({
                let o1 = old(state).obj(self.id.0);
                let o2 = final(state).obj(self.id.0);
                o2.id == o1.id && o2.live == o1.live && o2.keyring == o1.keyring
                    && o2.description@ == o1.description@ && o2.payload@ == o1.payload@
                    && o2.perms == o1.perms && o2.uid == o1.uid && o2.gid == o1.gid
            }),
            match old(state).link_check(self.id.0, key.id.0) {
                Some(e) => r == Err::<(), KeyError>(e) && *final(state) == *old(state),
                None => r == Ok::<(), KeyError>(()) && ({
                    let l1 = old(state).obj(self.id.0).links@;
                    let l2 = final(state).obj(self.id.0).links@;
                    &&& l2.len() >= 1 && l2.last() == key.id.0
                    &&& l2 == old(state).kept_links_by(
                        old(state).obj(key.id.0).keyring,
                        old(state).obj(key.id.0).description@,
                        l1,
                    ).push(key.id.0)
                    &&& forall|x: i32| #[trigger]
                        l2.contains(x) <==> (x == key.id.0 || (l1.contains(x) && !old(
                            state,
                        ).displaces(key.id.0, x)))
                }),
            },
    {
        state.link_into(self.id.0, key.id.0)
    }

    /// Unlink a key from this keyring; absence of the link is an error. The
    /// key object itself is untouched.
    pub fn unlink_key(&self, state: &mut KernelState, key: Key) -> (r: Result<(), KeyError>)
        requires
            old(state).wf(),
        ensures
            final(state).wf(),
            final(state).specials@ == old(state).specials@,
            final(state).persistent == old(state).persistent,
            forall|x: i32| final(state).has_index(x) == old(state).has_index(x),
            forall|x: i32|
                x != self.id.0 && old(state).has_index(x) ==> final(state).obj(x) == old(
                    state,
                ).obj(x),
            final(state).next_id == old(state).next_id,
            final(state).uid == old(state).uid,
            final(state).gid == old(state).gid,
            forall|x: i32|
                final(state).is_live(x) == old(state).is_live(x) && final(state).is_live_key(x)
                    == old(state).is_live_key(x) && final(state).is_live_ring(x) == old(
                    state,
                ).is_live_ring(x),
            old(state).has_index(self.id.0) ==> ({
                let o1 = old(state).obj(self.id.0);
                let o2 = final(state).obj(self.id.0);
                o2.id == o1.id && o2.live == o1.live && o2.keyring == o1.keyring
                    && o2.description@ == o1.description@ && o2.payload@ == o1.payload@
                    && o2.perms == o1.perms && o2.uid == o1.uid && o2.gid == o1.gid
            }),
            match old(state).unlink_check(self.id.0, key.id.0) {
                Some(e) => r == Err::<(), KeyError>(e) && *final(state) == *old(state),
                None => r == Ok::<(), KeyError>(()) && ({
                    let l1 = old(state).obj(self.id.0).links@;
                    let l2 = final(state).obj(self.id.0).links@;
                    &&& l2 == crate::state::links_without(l1, key.id.0)
                    &&& forall|x: i32| #[trigger]
                        l2.contains(x) <==> (l1.contains(x) && x != key.id.0)
                }),
            },
    {
        state.unlink_from(self.id.0, key.id.0)
    }

    /// Link another keyring to this keyring; the kernel refuses links that
    /// would close a cycle or nest keyrings too deep.
    pub fn link_keyring(&self, state: &mut KernelState, keyring: KeyRing) -> (r: Result<
        (),
        KeyError,
    >)
        requires
            old(state).wf(),
        ensures
            final(state).wf(),
            final(state).specials@ == old(state).specials@,
            final(state).persistent == old(state).persistent,
            forall|x: i32| final(state).has_index(x) == old(state).has_index(x),
            forall|x: i32|
                x != self.id.0 && old(state).has_index(x) ==> final(state).obj(x) == old(
                    state,
                ).obj(x),
            final(state).next_id == old(state).next_id,
            final(state).uid == old(state).uid,
            final(state).gid == old(state).gid,
            forall|x: i32|
                final(state).is_live(x) == old(state).is_live(x) && final(state).is_live_key(x)
                    == old(state).is_live_key(x) && final(state).is_live_ring(x) == old(
                    state,
                ).is_live_ring(x),
            old(state).has_index(self.id.0) ==> ({
                let o1 = old(state).obj(self.id.0);
                let o2 = final(state).obj(self.id.0);
                o2.id == o1.id && o2.live == o1.live && o2.keyring == o1.keyring
                    && o2.description@ == o1.description@ && o2.payload@ == o1.payload@
                    && o2.perms == o1.perms && o2.uid == o1.uid && o2.gid == o1.gid
            }),
            match old(state).link_check(self.id.0, keyring.id.0) {
                Some(e) => r == Err::<(), KeyError>(e) && *final(state) == *old(state),
                None => r == Ok::<(), KeyError>(()) && ({
                    let l1 = old(state).obj(self.id.0).links@;
                    let l2 = final(state).obj(self.id.0).links@;
                    &&& l2.len() >= 1 && l2.last() == keyring.id.0
                    &&& l2 == old(state).kept_links_by(
                        old(state).obj(keyring.id.0).keyring,
                        old(state).obj(keyring.id.0).description@,
                        l1,
                    ).push(keyring.id.0)
                    &&& forall|x: i32| #[trigger]
                        l2.contains(x) <==> (x == keyring.id.0 || (l1.contains(x) && !old(
                            state,
                        ).displaces(keyring.id.0, x)))
                }),
            },
    {
        state.link_into(self.id.0, keyring.id.0)
    }

    /// Unlink another keyring from this keyring.
    pub fn unlink_keyring(&self, state: &mut KernelState, keyring: KeyRing) -> (r: Result<
        (),
        KeyError,
    >)
        requires
            old(state).wf(),
        ensures
            final(state).wf(),
            final(state).specials@ == old(state).specials@,
            final(state).persistent == old(state).persistent,
            forall|x: i32| final(state).has_index(x) == old(state).has_index(x),
            forall|x: i32|
                x != self.id.0 && old(state).has_index(x) ==> final(state).obj(x) == old(
                    state,
                ).obj(x),
            final(state).next_id == old(state).next_id,
            final(state).uid == old(state).uid,
            final(state).gid == old(state).gid,
            forall|x: i32|
                final(state).is_live(x) == old(state).is_live(x) && final(state).is_live_key(x)
                    == old(state).is_live_key(x) && final(state).is_live_ring(x) == old(
                    state,
                ).is_live_ring(x),
            old(state).has_index(self.id.0) ==> ({
                let o1 = old(state).obj(self.id.0);
                let o2 = final(state).obj(self.id.0);
                o2.id == o1.id && o2.live == o1.live && o2.keyring == o1.keyring
                    && o2.description@ == o1.description@ && o2.payload@ == o1.payload@
                    && o2.perms == o1.perms && o2.uid == o1.uid && o2.gid == o1.gid
            }),
            match old(state).unlink_check(self.id.0, keyring.id.0) {
                Some(e) => r == Err::<(), KeyError>(e) && *final(state) == *old(state),
                None => r == Ok::<(), KeyError>(()) && ({
                    let l1 = old(state).obj(self.id.0).links@;
                    let l2 = final(state).obj(self.id.0).links@;
                    &&& l2 == crate::state::links_without(l1, keyring.id.0)
                    &&& forall|x: i32| #[trigger]
                        l2.contains(x) <==> (l1.contains(x) && x != keyring.id.0)
                }),
            },
    {
        state.unlink_from(self.id.0, keyring.id.0)
    }

    /// Link a special keyring into this keyring by its identifier, creating
    /// the special keyring first when it does not yet exist — the documented
    /// asymmetry against `unlink_keyring_id`, which never creates.
    pub fn link_keyring_id(&self, state: &mut KernelState, keyringid: KeyRingIdentifier) -> (r:
        Result<(), KeyError>)
        requires
            old(state).wf(),
        ensures
            final(state).wf(),
            final(state).persistent == old(state).persistent,
            final(state).uid == old(state).uid,
            final(state).gid == old(state).gid,
            forall|x: i32| old(state).has_index(x) ==> final(state).has_index(x),
            // other slots and untouched objects are preserved
            forall|t: KeyRingIdentifier|
                t != keyringid ==> final(state).slot_of(t) == old(state).slot_of(t),
            old(state).slot_live(keyringid) ==> final(state).slot_of(keyringid) == old(
                state,
            ).slot_of(keyringid),
            forall|x: i32|
                x != self.id.0 && old(state).has_index(x) ==> final(state).obj(x) == old(
                    state,
                ).obj(x),
            forall|x: i32|
                old(state).has_index(x) ==> final(state).is_live(x) == old(state).is_live(x)
                    && final(state).is_live_key(x) == old(state).is_live_key(x)
                    && final(state).is_live_ring(x) == old(state).is_live_ring(x),
            old(state).has_index(self.id.0) ==> ({
                let o1 = old(state).obj(self.id.0);
                let o2 = final(state).obj(self.id.0);
                o2.id == o1.id && o2.live == o1.live && o2.keyring == o1.keyring
                    && o2.description@ == o1.description@ && o2.payload@ == o1.payload@
                    && o2.perms == o1.perms && o2.uid == o1.uid && o2.gid == o1.gid
            }),
            // even a failing link leaves the freshly created special keyring behind
            (!old(state).slot_live(keyringid) && old(state).next_id < i32::MAX)
                ==> final(state).slot_live(keyringid),
            old(state).slot_live(keyringid) ==> final(state).slot_live(keyringid) && ({
                let t = old(state).slot_of(keyringid)->Some_0;
                match old(state).link_check(self.id.0, t) {
                    Some(e) => r == Err::<(), KeyError>(e) && *final(state) == *old(state),
                    None => r == Ok::<(), KeyError>(()) && ({
                        let l1 = old(state).obj(self.id.0).links@;
                        let l2 = final(state).obj(self.id.0).links@;
                        &&& l2 == old(state).kept_links_by(
                            true,
                            special_desc_spec(keyringid),
                            l1,
                        ).push(t)
                        &&& l2.last() == t
                        &&& l2.contains(t)
                    }),
                }
            }),
            // a keyring created afresh by this call can always be linked into
            // a visible keyring the caller may write: it closes no cycle and
            // heads no chain
            (!old(state).slot_live(keyringid) && old(state).next_id < i32::MAX && old(
                state,
            ).is_live_ring(self.id.0) && old(state).obj(self.id.0).perms.write) ==> ({
                let t = old(state).next_id;
                let l1 = old(state).obj(self.id.0).links@;
                let l2 = final(state).obj(self.id.0).links@;
                &&& r == Ok::<(), KeyError>(())
                &&& final(state).slot_of(keyringid) == Some(t)
                &&& l2 == old(state).kept_links_by(true, special_desc_spec(keyringid), l1).push(t)
                &&& l2.last() == t
            }),
            r is Ok ==> final(state).slot_live(keyringid) && final(state).obj(
                self.id.0,
            ).links@.contains(final(state).slot_of(keyringid)->Some_0),
    {
        let ghost ring = self.id.0;
        let t = match state.resolve_special(keyringid, true) {
            Ok(t) => t,
            Err(e) => {
                return Err(e);
            },
        };
        let ghost s1 = *state;
        proof {
            assert(crate::state::slot_ident(special_slot_spec(keyringid)) == keyringid);
            if old(state).slot_live(keyringid) {
                // the slot answered with its existing keyring: its kind and
                // description are pinned by well-formedness
                assert(old(state).slot_ok(special_slot_spec(keyringid)));
                assert(old(state).obj(t).keyring);
                assert(old(state).obj(t).description@ == special_desc_spec(keyringid));
            } else if old(state).next_id < i32::MAX && old(state).is_live_ring(ring) && old(
                state,
            ).obj(ring).perms.write {
                // the slot was filled afresh: the new keyring has no links;
                // a visible ring's serial is always older than the fresh one
                let i = old(state).index_of(ring);
                assert(old(state).objects@[i].id == ring);
                assert(ring != old(state).next_id);
                assert(s1.is_live_ring(ring));
                assert(s1.obj(ring) == old(state).obj(ring));
                assert(s1.is_live_ring(t) && s1.obj(t).perms.link);
                assert(s1.obj(t).links@ == Seq::<i32>::empty());
                assert(t != ring);
                assert(s1.visited_wf(Seq::<i32>::empty()));
                assert(s1.visited_wf(seq![t]));
                assert(seq![t].drop_first() + s1.obj(t).links@ =~= Seq::<i32>::empty());
                assert(Seq::<i32>::empty().push(t) =~= seq![t]);
                assert(!s1.reach_spec(Seq::<i32>::empty(), seq![t], ring));
                assert(!s1.reach_spec(seq![t], Seq::<i32>::empty(), ring));
                assert(!s1.depth_exceeds(t, (crate::state::MAX_NESTING_DEPTH - 1) as nat));
                assert(s1.link_check(ring, t) is None);
            }
        }
        match state.link_into(self.id.0, t) {
            Ok(_) => {
                proof {
                    if !old(state).slot_live(keyringid) && old(state).next_id < i32::MAX && old(
                        state,
                    ).is_live_ring(ring) && old(state).obj(ring).perms.write {
                        // translate the displacement filter back to the state
                        // before the slot was created
                        let l1 = old(state).obj(ring).links@;
                        assert(old(state).links_ok(old(state).obj(ring))) by {
                            old(state).lemma_obj_at(old(state).index_of(ring));
                        }
                        assert forall|k: int|
                            0 <= k < l1.len() implies ((s1.is_live(#[trigger] l1[k]) && s1.obj(
                            l1[k],
                        ).keyring == true && s1.obj(l1[k]).description@ == special_desc_spec(
                            keyringid,
                        )) <==> (old(state).is_live(l1[k]) && old(state).obj(l1[k]).keyring == true
                            && old(state).obj(l1[k]).description@ == special_desc_spec(
                            keyringid,
                        ))) by {
                            assert(l1.contains(l1[k]));
                            assert(old(state).has_index(l1[k]));
                            assert(l1[k] != t);
                            assert(s1.obj(l1[k]) == old(state).obj(l1[k]));
                            assert(s1.is_live(l1[k]) == old(state).is_live(l1[k]));
                        }
                        KernelState::lemma_kept_links_by_same(
                            s1,
                            *old(state),
                            true,
                            special_desc_spec(keyringid),
                            l1,
                        );
                        assert(s1.obj(t).keyring == true && s1.obj(t).description@
                            == special_desc_spec(keyringid));
                        assert(s1.obj(ring).links@ == l1);
                    }
                }
                Ok(())
            },
            Err(e) => Err(e),
        }
    }

    /// Unlink a special keyring from this keyring by its identifier. A
    /// special keyring that was never created is reported as
    /// `KeyDoesNotExist` and stays uncreated.
    pub fn unlink_keyring_id(&self, state: &mut KernelState, keyringid: KeyRingIdentifier) -> (r:
        Result<(), KeyError>)
        requires
            old(state).wf(),
        ensures
            final(state).wf(),
            final(state).specials@ == old(state).specials@,
            final(state).persistent == old(state).persistent,
            forall|x: i32| final(state).has_index(x) == old(state).has_index(x),
            !old(state).slot_live(keyringid) ==> r == Err::<(), KeyError>(KeyError::KeyDoesNotExist)
                && *final(state) == *old(state),
            old(state).slot_live(keyringid) ==> ({
                let t = old(state).slot_of(keyringid)->Some_0;
                match old(state).unlink_check(self.id.0, t) {
                    Some(e) => r == Err::<(), KeyError>(e) && *final(state) == *old(state),
                    None => r == Ok::<(), KeyError>(()) && ({
                        let l1 = old(state).obj(self.id.0).links@;
                        let l2 = final(state).obj(self.id.0).links@;
                        forall|x: i32| #[trigger] l2.contains(x) <==> (l1.contains(x) && x != t)
                    }),
                }
            }),
    {
        let t = match state.resolve_special(keyringid, false) {
            Ok(t) => t,
            Err(e) => {
                return Err(e);
            },
        };
        match state.unlink_from(self.id.0, t) {
            Ok(_) => Ok(()),
            Err(e) => Err(e),
        }
    }

    /// Unlink every direct child of this keyring in one step; demands write
    /// permission.
    pub fn clear(&self, state: &mut KernelState) -> (r: Result<(), KeyError>)
        requires
            old(state).wf(),
        ensures
            final(state).wf(),
            final(state).specials@ == old(state).specials@,
            final(state).persistent == old(state).persistent,
            forall|x: i32| final(state).has_index(x) == old(state).has_index(x),
            forall|x: i32|
                x != self.id.0 && old(state).has_index(x) ==> final(state).obj(x) == old(
                    state,
                ).obj(x),
            final(state).next_id == old(state).next_id,
            final(state).uid == old(state).uid,
            final(state).gid == old(state).gid,
            forall|x: i32|
                final(state).is_live(x) == old(state).is_live(x) && final(state).is_live_key(x)
                    == old(state).is_live_key(x) && final(state).is_live_ring(x) == old(
                    state,
                ).is_live_ring(x),
            old(state).has_index(self.id.0) ==> ({
                let o1 = old(state).obj(self.id.0);
                let o2 = final(state).obj(self.id.0);
                o2.id == o1.id && o2.live == o1.live && o2.keyring == o1.keyring
                    && o2.description@ == o1.description@ && o2.payload@ == o1.payload@
                    && o2.perms == o1.perms && o2.uid == o1.uid && o2.gid == o1.gid
            }),
            match old(state).clear_check(self.id.0) {
                Some(e) => r == Err::<(), KeyError>(e) && *final(state) == *old(state),
                None => r == Ok::<(), KeyError>(()) && final(state).obj(self.id.0).links@
                    == Seq::<i32>::empty(),
            },
    {
        state.clear_ring(self.id.0)
    }
}

} // verus!
