//! Leaf key handles and object metadata.

use vstd::prelude::*;

use crate::error::KeyError;
use crate::id::KeySerialId;
use crate::state::{KernelState, Permissions};

verus! {

/// The kind of object a serial names.
#[derive(Debug, Copy, Clone, PartialEq, Eq, Structural)]
pub enum KeyType {
    /// A keyring: a named collection of links.
    KeyRing,
    /// A generic user-defined leaf key.
    User,
}

/// A handle on one leaf secret object.
///
/// A plain copyable capability value: the kernel state owns the object and
/// its lifecycle, the handle never releases anything.
#[derive(Debug, Copy, Clone, PartialEq, Eq, Structural)]
pub struct Key {
    /// The serial this handle names.
    pub id: KeySerialId,
}

/// Copy a byte vector element by element.
pub fn copy_bytes(v: &Vec<u8>) -> (r: Vec<u8>)
    ensures
        r@ == v@,
{
    let n = v.len();
    let mut r: Vec<u8> = Vec::new();
    let mut i: usize = 0;
    while i < n
        invariant
            n == v@.len(),
            i <= n,
            r@ == v@.take(i as int),
        decreases n - i,
    {
        r.push(v[i]);
        proof {
            assert(r@ =~= v@.take(i as int + 1));
        }
        i += 1;
    }
    proof {
        assert(v@.take(n as int) =~= v@);
    }
    r
}

impl Key {
    /// Wrap an already-resolved serial.
    pub fn from_id(id: KeySerialId) -> (r: Self)
        ensures
            r.id == id,
    {
        Key { id }
    }

    /// The serial this handle names.
    pub fn get_id(&self) -> (r: KeySerialId)
        ensures
            r == self.id,
    {
        self.id
    }

    /// Replace what the object grants the caller.
    pub fn set_perms(&self, state: &mut KernelState, perms: Permissions) -> (r: Result<
        (),
        KeyError,
    >)
        requires
            old(state).wf(),
        ensures
            final(state).wf(),
            !old(state).is_live(self.id.0) ==> r == Err::<(), KeyError>(KeyError::KeyDoesNotExist)
                && *final(state) == *old(state),
            old(state).is_live(self.id.0) ==> ({
                &&& r == Ok::<(), KeyError>(())
                &&& final(state).obj(self.id.0).perms == perms
                &&& final(state).obj(self.id.0).description@ == old(state).obj(
                    self.id.0,
                ).description@
                &&& final(state).obj(self.id.0).payload@ == old(state).obj(self.id.0).payload@
                &&& final(state).obj(self.id.0).links@ == old(state).obj(self.id.0).links@
                &&& forall|x: i32|
                    x != self.id.0 && old(state).has_index(x) ==> final(state).obj(x) == old(
                        state,
                    ).obj(x)
                &&& forall|x: i32| final(state).has_index(x) == old(state).has_index(x)
                &&& forall|x: i32|
                    final(state).is_live(x) == old(state).is_live(x) && final(state).is_live_key(x)
                        == old(state).is_live_key(x) && final(state).is_live_ring(x) == old(
                        state,
                    ).is_live_ring(x)
                &&& final(state).specials@ == old(state).specials@
                &&& final(state).persistent == old(state).persistent
                &&& final(state).next_id == old(state).next_id
            }),
    {
        match state.lookup(self.id.0) {
            None => Err(KeyError::KeyDoesNotExist),
            Some(_) => {
                state.set_perms_of(self.id.0, perms);
                Ok(())
            },
        }
    }

    /// Invalidate the object: it disappears from every lookup, search and
    /// listing at once; links to it remain behind and are skipped.
    pub fn invalidate(&self, state: &mut KernelState) -> (r: Result<(), KeyError>)
        requires
            old(state).wf(),
        ensures
            final(state).wf(),
            !old(state).is_live(self.id.0) ==> r == Err::<(), KeyError>(KeyError::KeyDoesNotExist)
                && *final(state) == *old(state),
            old(state).is_live(self.id.0) ==> ({
                &&& r == Ok::<(), KeyError>(())
                &&& !final(state).is_live(self.id.0)
                &&& forall|x: i32|
                    x != self.id.0 && old(state).has_index(x) ==> final(state).obj(x) == old(
                        state,
                    ).obj(x)
                &&& forall|x: i32| final(state).has_index(x) == old(state).has_index(x)
                &&& forall|x: i32|
                    x != self.id.0 ==> final(state).is_live(x) == old(state).is_live(x) && final(state).is_live_key(x) == old(state).is_live_key(x) && final(state).is_live_ring(x)
                        == old(state).is_live_ring(x)
                &&& final(state).specials@ == old(state).specials@
                &&& final(state).persistent == old(state).persistent
                &&& final(state).next_id == old(state).next_id
            }),
    {
        match state.lookup(self.id.0) {
            None => Err(KeyError::KeyDoesNotExist),
            Some(_) => {
                state.invalidate_object(self.id.0);
                Ok(())
            },
        }
    }

    /// Read the object's payload; demands read permission.
    pub fn read_to_vec(&self, state: &KernelState) -> (r: Result<Vec<u8>, KeyError>)
        requires
            state.wf(),
        ensures
            !state.is_live(self.id.0) ==> r == Err::<Vec<u8>, KeyError>(KeyError::KeyDoesNotExist),
            state.is_live(self.id.0) && !state.obj(self.id.0).perms.read ==> r == Err::<
                Vec<u8>,
                KeyError,
            >(KeyError::PermissionDenied),
            state.is_live(self.id.0) && state.obj(self.id.0).perms.read ==> r is Ok && r->Ok_0@
                == state.obj(self.id.0).payload@,
    {
        match state.lookup(self.id.0) {
            None => Err(KeyError::KeyDoesNotExist),
            Some(i) => {
                if !state.objects[i].perms.read {
                    Err(KeyError::PermissionDenied)
                } else {
                    Ok(copy_bytes(&state.objects[i].payload))
                }
            },
        }
    }
}

/// What a metadata lookup reports of one object.
#[derive(Debug, Clone)]
pub struct Metadata {
    /// Keyring or leaf key.
    pub object_type: KeyType,
    /// Owner user id.
    pub uid: u32,
    /// Owner group id.
    pub gid: u32,
    /// What the object grants the caller.
    pub perms: Permissions,
    /// The description the object was created under.
    pub description: Vec<u8>,
}

impl Metadata {
    /// Look an object's attributes up by serial; demands view permission.
    pub fn from_id(state: &KernelState, id: KeySerialId) -> (r: Result<Metadata, KeyError>)
        requires
            state.wf(),
        ensures
            r is Ok <==> (state.is_live(id.0) && state.obj(id.0).perms.view),
            r is Ok ==> ({
                let m = r->Ok_0;
                let o = state.obj(id.0);
                &&& m.object_type == (if o.keyring {
                    KeyType::KeyRing
                } else {
                    KeyType::User
                })
                &&& m.uid == o.uid
                &&& m.gid == o.gid
                &&& m.perms == o.perms
                &&& m.description@ == o.description@
            }),
            r is Err ==> r->Err_0 == (if !state.is_live(id.0) {
                KeyError::KeyDoesNotExist
            } else {
                KeyError::PermissionDenied
            }),
    {
        match state.lookup(id.0) {
            None => Err(KeyError::KeyDoesNotExist),
            Some(i) => {
                let o = &state.objects[i];
                if !o.perms.view {
                    Err(KeyError::PermissionDenied)
                } else {
                    Ok(
                        Metadata {
                            object_type: if o.keyring {
                                KeyType::KeyRing
                            } else {
                                KeyType::User
                            },
                            uid: o.uid,
                            gid: o.gid,
                            perms: o.perms,
                            description: copy_bytes(&o.description),
                        },
                    )
                }
            },
        }
    }

    /// Keyring or leaf key.
    pub fn get_type(&self) -> (r: KeyType)
        ensures
            r == self.object_type,
    {
        self.object_type
    }

    /// Owner user id.
    pub fn get_uid(&self) -> (r: u32)
        ensures
            r == self.uid,
    {
        self.uid
    }

    /// Owner group id.
    pub fn get_gid(&self) -> (r: u32)
        ensures
            r == self.gid,
    {
        self.gid
    }

    /// What the object grants the caller.
    pub fn get_perms(&self) -> (r: Permissions)
        ensures
            r == self.perms,
    {
        self.perms
    }

    /// The description the object was created under.
    pub fn get_description(&self) -> (r: Vec<u8>)
        ensures
            r@ == self.description@,
    {
        copy_bytes(&self.description)
    }
}

} // verus!
