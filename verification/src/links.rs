//! Typed link-graph nodes and the ordered collection a listing yields.

use vstd::prelude::*;

use crate::error::KeyError;
use crate::id::KeySerialId;
use crate::key::Key;
use crate::keyring::KeyRing;
use crate::state::KernelState;

verus! {

/// One decoded entry of a link listing: the serial was classified as a
/// keyring or as a leaf key.
#[derive(Debug, Copy, Clone, PartialEq, Eq, Structural)]
pub enum LinkNode {
    /// The entry denotes a leaf key.
    Key(Key),
    /// The entry denotes a keyring.
    KeyRing(KeyRing),
}

impl LinkNode {
    /// The serial behind the node.
    pub open spec fn serial(self) -> i32 {
        match self {
            LinkNode::Key(k) => k.id.0,
            LinkNode::KeyRing(r) => r.id.0,
        }
    }

    /// Does the node denote a keyring?
    pub open spec fn is_ring(self) -> bool {
        self is KeyRing
    }

    /// The serial behind the node.
    pub fn get_id(&self) -> (r: KeySerialId)
        ensures
            r.0 == self.serial(),
    {
        match self {
            LinkNode::Key(k) => k.id,
            LinkNode::KeyRing(r) => r.id,
        }
    }

    /// Classify a raw serial from a listing buffer by metadata lookup.
    ///
    /// An entry that cannot be introspected (gone, or no view permission) is
    /// reported as an error here and dropped by the listing, never surfacing
    /// as a collection-level failure.
    pub fn from_id(state: &KernelState, id: KeySerialId) -> (r: Result<LinkNode, KeyError>)
        requires
            state.wf(),
        ensures
            r is Ok <==> (state.is_live(id.0) && state.obj(id.0).perms.view),
            r is Ok ==> r->Ok_0.serial() == id.0 && r->Ok_0.is_ring() == state.obj(id.0).keyring,
            r is Err ==> r->Err_0 == (if !state.is_live(id.0) {
                KeyError::KeyDoesNotExist
            } else {
                KeyError::PermissionDenied
            }),
    {
        match state.lookup(id.0) {
            None => Err(KeyError::KeyDoesNotExist),
            Some(i) => {
                if !state.objects[i].perms.view {
                    Err(KeyError::PermissionDenied)
                } else if state.objects[i].keyring {
                    Ok(LinkNode::KeyRing(KeyRing::from_id(id)))
                } else {
                    Ok(LinkNode::Key(Key::from_id(id)))
                }
            },
        }
    }

    /// The node as a key handle, if it denotes a leaf key.
    pub fn as_key(&self) -> (r: Option<Key>)
        ensures
            match r {
                Some(k) => !self.is_ring() && k.id.0 == self.serial(),
                None => self.is_ring(),
            },
    {
        match self {
            LinkNode::Key(k) => Some(*k),
            LinkNode::KeyRing(_) => None,
        }
    }

    /// The node as a keyring handle, if it denotes a keyring.
    pub fn as_keyring(&self) -> (r: Option<KeyRing>)
        ensures
            match r {
                Some(k) => self.is_ring() && k.id.0 == self.serial(),
                None => !self.is_ring(),
            },
    {
        match self {
            LinkNode::Key(_) => None,
            LinkNode::KeyRing(r) => Some(*r),
        }
    }
}

/// An ordered collection of classified link-graph nodes, in the order the
/// kernel reported the links.
#[derive(Debug, Clone)]
pub struct Links {
    /// The classified entries, in link order.
    pub nodes: Vec<LinkNode>,
}

/// The serials behind a sequence of nodes, in the same order.
pub open spec fn serials_of(nodes: Seq<LinkNode>) -> Seq<i32> {
    nodes.map_values(|n: LinkNode| n.serial())
}

impl Links {
    /// Does some entry carry this serial?
    pub open spec fn contains_serial(self, x: i32) -> bool {
        exists|i: int| 0 <= i < self.nodes@.len() && self.nodes@[i].serial() == x
    }

    /// An empty collection.
    pub fn new() -> (r: Links)
        ensures
            r.nodes@.len() == 0,
    {
        Links { nodes: Vec::new() }
    }

    /// How many entries the listing holds.
    pub fn len(&self) -> (r: usize)
        ensures
            r == self.nodes@.len(),
    {
        self.nodes.len()
    }

    /// The entry at a position.
    pub fn node_at(&self, i: usize) -> (r: LinkNode)
        requires
            i < self.nodes@.len(),
        ensures
            r == self.nodes@[i as int],
    {
        self.nodes[i]
    }

    /// Is an entry with this serial in the listing?
    pub fn contains_id(&self, id: KeySerialId) -> (r: bool)
        ensures
            r == self.contains_serial(id.0),
    {
        let n = self.nodes.len();
        let mut i: usize = 0;
        while i < n
            invariant
                n == self.nodes@.len(),
                i <= n,
                forall|j: int| 0 <= j < i ==> self.nodes@[j].serial() != id.0,
            decreases n - i,
        {
            let node = self.nodes[i];
            if node.get_id().as_raw_id() == id.as_raw_id() {
                return true;
            }
            i += 1;
        }
        false
    }

    /// The full node for this serial, when the listing holds one.
    pub fn get(&self, id: KeySerialId) -> (r: Option<LinkNode>)
        ensures
            match r {
                Some(n) => n.serial() == id.0 && self.nodes@.contains(n),
                None => !self.contains_serial(id.0),
            },
    {
        let n = self.nodes.len();
        let mut i: usize = 0;
        while i < n
            invariant
                n == self.nodes@.len(),
                i <= n,
                forall|j: int| 0 <= j < i ==> self.nodes@[j].serial() != id.0,
            decreases n - i,
        {
            let node = self.nodes[i];
            if node.get_id().as_raw_id() == id.as_raw_id() {
                proof {
                    assert(self.nodes@.contains(self.nodes@[i as int]));
                }
                return Some(node);
            }
            i += 1;
        }
        None
    }
}

} // verus!
