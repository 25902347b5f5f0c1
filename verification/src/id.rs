//! Serial identifiers and the well-known special keyring slots.

use vstd::prelude::*;

use crate::error::KeyError;

verus! {

/// How many special keyring slots exist.
pub const NUM_SPECIAL_SLOTS: usize = 8;

/// A serial number naming one concrete kernel object (a key or a keyring).
///
/// A serial obtained from a successful resolution is always positive; zero
/// and negative raw values never name a concrete object.
#[derive(Debug, Copy, Clone, PartialEq, Eq, Structural)]
pub struct KeySerialId(pub i32);

impl KeySerialId {
    /// Wrap a raw serial number that is already known to be valid.
    pub fn new(raw: i32) -> (r: Self)
        ensures
            r.0 == raw,
    {
        KeySerialId(raw)
    }

    /// The raw serial number.
    pub fn as_raw_id(&self) -> (r: i32)
        ensures
            r == self.0,
    {
        self.0
    }

    /// Reinterpret a raw word returned by the kernel as a serial number.
    ///
    /// Range validation: only values that fit a positive signed 32-bit serial
    /// are accepted; anything else fails with `InvalidIdentifier`.
    pub fn try_from_raw(raw: i64) -> (r: Result<Self, KeyError>)
        ensures
            1 <= raw <= i32::MAX ==> r == Ok::<Self, KeyError>(KeySerialId(raw as i32)),
            !(1 <= raw <= i32::MAX) ==> r == Err::<Self, KeyError>(KeyError::InvalidIdentifier),
    {
        if 1 <= raw && raw <= i32::MAX as i64 {
            Ok(KeySerialId(raw as i32))
        } else {
            Err(KeyError::InvalidIdentifier)
        }
    }
}

/// A well-known symbolic keyring slot, resolved to a concrete serial on
/// demand.
#[derive(Debug, Copy, Clone, PartialEq, Eq, Structural)]
pub enum KeyRingIdentifier {
    /// The thread-specific keyring.
    Thread,
    /// The process-specific keyring.
    Process,
    /// The session keyring.
    Session,
    /// The user-specific keyring of the calling user.
    User,
    /// The user-session keyring of the calling user.
    UserSession,
    /// The group-specific keyring.
    Group,
    /// The authorization key for an in-progress instantiation request.
    ReqKeyAuthKey,
    /// The keyring of the requesting process.
    Requestor,
}

/// The slot index a special identifier occupies in the kernel state.
pub open spec fn special_slot_spec(s: KeyRingIdentifier) -> int {
    match s {
        KeyRingIdentifier::Thread => 0,
        KeyRingIdentifier::Process => 1,
        KeyRingIdentifier::Session => 2,
        KeyRingIdentifier::User => 3,
        KeyRingIdentifier::UserSession => 4,
        KeyRingIdentifier::Group => 5,
        KeyRingIdentifier::ReqKeyAuthKey => 6,
        KeyRingIdentifier::Requestor => 7,
    }
}

/// The raw negative sentinel value that names a special slot on the kernel
/// boundary.
pub open spec fn special_raw_spec(s: KeyRingIdentifier) -> int {
    -1 - special_slot_spec(s)
}

impl KeyRingIdentifier {
    /// The slot index of this special identifier.
    pub fn slot(&self) -> (r: usize)
        ensures
            r == special_slot_spec(*self),
            r < NUM_SPECIAL_SLOTS,
    {
        match self {
            KeyRingIdentifier::Thread => 0,
            KeyRingIdentifier::Process => 1,
            KeyRingIdentifier::Session => 2,
            KeyRingIdentifier::User => 3,
            KeyRingIdentifier::UserSession => 4,
            KeyRingIdentifier::Group => 5,
            KeyRingIdentifier::ReqKeyAuthKey => 6,
            KeyRingIdentifier::Requestor => 7,
        }
    }

    /// The raw negative sentinel that names this slot on the kernel boundary.
    pub fn as_raw_id(&self) -> (r: i32)
        ensures
            r == special_raw_spec(*self),
    {
        match self {
            KeyRingIdentifier::Thread => -1,
            KeyRingIdentifier::Process => -2,
            KeyRingIdentifier::Session => -3,
            KeyRingIdentifier::User => -4,
            KeyRingIdentifier::UserSession => -5,
            KeyRingIdentifier::Group => -6,
            KeyRingIdentifier::ReqKeyAuthKey => -7,
            KeyRingIdentifier::Requestor => -8,
        }
    }
}

/// The kernel-style description each special keyring is created with.
pub open spec fn special_desc_spec(s: KeyRingIdentifier) -> Seq<u8> {
    match s {
        KeyRingIdentifier::Thread => seq![0x5fu8, 0x74u8, 0x69u8, 0x64u8],  // "_tid"
        KeyRingIdentifier::Process => seq![0x5fu8, 0x70u8, 0x69u8, 0x64u8],  // "_pid"
        KeyRingIdentifier::Session => seq![0x5fu8, 0x73u8, 0x65u8, 0x73u8],  // "_ses"
        KeyRingIdentifier::User => seq![0x5fu8, 0x75u8, 0x69u8, 0x64u8],  // "_uid"
        KeyRingIdentifier::UserSession => seq![0x5fu8, 0x75u8, 0x73u8, 0x65u8, 0x73u8],  // "_uses"
        KeyRingIdentifier::Group => seq![0x5fu8, 0x67u8, 0x69u8, 0x64u8],  // "_gid"
        KeyRingIdentifier::ReqKeyAuthKey => seq![0x5fu8, 0x72u8, 0x61u8, 0x75u8],  // "_rau"
        KeyRingIdentifier::Requestor => seq![0x5fu8, 0x72u8, 0x65u8, 0x71u8],  // "_req"
    }
}

/// Build the description bytes a special keyring is created with.
pub fn special_desc(s: KeyRingIdentifier) -> (r: Vec<u8>)
    ensures
        r@ == special_desc_spec(s),
{
    let mut v: Vec<u8> = Vec::new();
    v.push(0x5f);
    match s {
        KeyRingIdentifier::Thread => {
            v.push(0x74);
            v.push(0x69);
            v.push(0x64);
        }
        KeyRingIdentifier::Process => {
            v.push(0x70);
            v.push(0x69);
            v.push(0x64);
        }
        KeyRingIdentifier::Session => {
            v.push(0x73);
            v.push(0x65);
            v.push(0x73);
        }
        KeyRingIdentifier::User => {
            v.push(0x75);
            v.push(0x69);
            v.push(0x64);
        }
        KeyRingIdentifier::UserSession => {
            v.push(0x75);
            v.push(0x73);
            v.push(0x65);
            v.push(0x73);
        }
        KeyRingIdentifier::Group => {
            v.push(0x67);
            v.push(0x69);
            v.push(0x64);
        }
        KeyRingIdentifier::ReqKeyAuthKey => {
            v.push(0x72);
            v.push(0x61);
            v.push(0x75);
        }
        KeyRingIdentifier::Requestor => {
            v.push(0x72);
            v.push(0x65);
            v.push(0x71);
        }
    }
    proof {
        assert(v@ =~= special_desc_spec(s));
    }
    v
}

} // verus!
