use keyrings::error::KeyError;
use keyrings::id::{KeyRingIdentifier, KeySerialId};
use keyrings::key::KeyType;
use keyrings::keyring::KeyRing;
use keyrings::state::{KernelState, Permissions};

fn fresh_state() -> KernelState {
    KernelState::new(1000, 1000)
}

/// A state whose session keyring already exists, as it would on a live
/// system.
fn state_with_session() -> KernelState {
    let mut st = fresh_state();
    KeyRing::from_special_id(&mut st, KeyRingIdentifier::Session, true).unwrap();
    st
}

#[test]
fn test_from_special_id() {
    let mut st = fresh_state();

    // A keyring that normally doesn't exist by default is created when asked.
    let ring = KeyRing::from_special_id(&mut st, KeyRingIdentifier::Thread, true).unwrap();
    assert!(ring.get_id().as_raw_id() > 0);

    // A keyring that already exists is returned without creation.
    KeyRing::from_special_id(&mut st, KeyRingIdentifier::User, true).unwrap();
    let ring = KeyRing::from_special_id(&mut st, KeyRingIdentifier::User, false).unwrap();
    assert!(ring.get_id().as_raw_id() > 0);
}

#[test]
fn test_get_persistent() {
    let mut st = fresh_state();

    KeyRing::from_special_id(&mut st, KeyRingIdentifier::User, true).unwrap();
    let user_ring = KeyRing::from_special_id(&mut st, KeyRingIdentifier::User, false).unwrap();
    assert!(user_ring.get_id().as_raw_id() > 0);

    let user_perm_ring = KeyRing::get_persistent(&mut st, KeyRingIdentifier::User).unwrap();
    assert_ne!(user_ring, user_perm_ring);
}

#[test]
fn test_metadata() {
    let mut st = fresh_state();

    let ring = KeyRing::from_special_id(&mut st, KeyRingIdentifier::Thread, true).unwrap();
    assert!(ring.get_id().as_raw_id() > 0);

    let info = ring.metadata(&st).unwrap();
    assert_eq!(info.get_type(), KeyType::KeyRing);
    assert_eq!(info.get_uid(), 1000);
    assert_eq!(info.get_gid(), 1000);
    assert_eq!(info.get_description(), b"_tid".to_vec());
}

#[test]
fn test_search_existing_key() {
    let mut st = state_with_session();
    let ring = KeyRing::from_special_id(&mut st, KeyRingIdentifier::Session, false).unwrap();
    let key = ring
        .add_key(&mut st, &b"test_search".to_vec(), &b"data".to_vec())
        .unwrap();

    // Make sure we hold search permission on the key.
    let perms = Permissions {
        view: true,
        read: true,
        write: true,
        search: true,
        link: true,
    };
    key.set_perms(&mut st, perms).unwrap();

    // Search must succeed and report the same serial.
    let result = ring.search(&st, &b"test_search".to_vec()).unwrap();
    assert_eq!(key.get_id(), result.get_id());

    // A lookup request must find the same serial as well.
    let result = ring
        .request_key(&mut st, &b"test_search".to_vec(), None, Err(0))
        .unwrap();
    assert_eq!(key.get_id(), result.get_id());

    key.invalidate(&mut st).unwrap();
}

#[test]
fn test_request_non_existing_key() {
    let mut st = state_with_session();
    let ring = KeyRing::from_special_id(&mut st, KeyRingIdentifier::Session, false).unwrap();

    let result = ring.request_key(&mut st, &b"test_request_no_exist".to_vec(), None, Err(0));

    assert!(result.is_err());
    assert_eq!(result.unwrap_err(), KeyError::KeyDoesNotExist);
}

#[test]
fn test_request_non_existing_key_callout() {
    let callout = b"Test Data from Callout".to_vec();

    let mut st = state_with_session();
    let ring = KeyRing::from_special_id(&mut st, KeyRingIdentifier::Session, false).unwrap();

    // The instantiation helper hands the callout data back as the payload.
    let key = ring
        .request_key(
            &mut st,
            &b"test_callout".to_vec(),
            Some(&callout),
            Ok(callout.clone()),
        )
        .unwrap();

    let payload = key.read_to_vec(&st).unwrap();
    assert_eq!(callout, payload);

    key.invalidate(&mut st).unwrap();
}

#[test]
fn test_search_non_existing_key() {
    let mut st = state_with_session();
    let ring = KeyRing::from_special_id(&mut st, KeyRingIdentifier::Session, false).unwrap();

    let result = ring.search(&st, &b"test_search_no_exist".to_vec());

    assert!(result.is_err());
    assert_eq!(result.unwrap_err(), KeyError::KeyDoesNotExist);
}

#[test]
fn test_link_unlink_keyrings() {
    let mut st = state_with_session();
    let sess = KeyRing::from_special_id(&mut st, KeyRingIdentifier::Session, false).unwrap();
    assert!(sess.get_id().as_raw_id() > 0);
    let thread = KeyRing::from_special_id(&mut st, KeyRingIdentifier::Thread, true).unwrap();
    assert!(thread.get_id().as_raw_id() > 0);

    let items = sess.get_links(&st, 200).unwrap();
    assert!(!items.contains_id(thread.get_id()));

    sess.link_keyring(&mut st, thread).unwrap();

    let items = sess.get_links(&st, 200).unwrap();
    assert!(items.contains_id(thread.get_id()));

    sess.unlink_keyring(&mut st, thread).unwrap();

    let items = sess.get_links(&st, 200).unwrap();
    assert!(!items.contains_id(thread.get_id()));
}

#[test]
fn test_link_unlink_keyrings_with_id() {
    let mut st = state_with_session();
    let sess = KeyRing::from_special_id(&mut st, KeyRingIdentifier::Session, false).unwrap();
    assert!(sess.get_id().as_raw_id() > 0);
    let thread = KeyRing::from_special_id(&mut st, KeyRingIdentifier::Thread, true).unwrap();
    assert!(thread.get_id().as_raw_id() > 0);

    let items = sess.get_links(&st, 200).unwrap();
    assert!(!items.contains_id(thread.get_id()));

    sess.link_keyring_id(&mut st, KeyRingIdentifier::Thread).unwrap();

    let items = sess.get_links(&st, 200).unwrap();
    assert!(items.contains_id(thread.get_id()));

    sess.unlink_keyring_id(&mut st, KeyRingIdentifier::Thread)
        .unwrap();

    let items = sess.get_links(&st, 200).unwrap();
    assert!(!items.contains_id(thread.get_id()));
}

#[test]
fn test_linking_nonexistent_keyrings() {
    let mut st = state_with_session();
    let sess = KeyRing::from_special_id(&mut st, KeyRingIdentifier::Session, false).unwrap();
    assert!(sess.get_id().as_raw_id() > 0);

    // The target keyring doesn't exist yet.
    let thread = KeyRing::from_special_id(&mut st, KeyRingIdentifier::Thread, false);
    assert!(matches!(thread, Err(KeyError::KeyDoesNotExist)));

    // Unlinking a non-existent special keyring fails and does not create it.
    let result = sess.unlink_keyring_id(&mut st, KeyRingIdentifier::Thread);
    assert!(matches!(result, Err(KeyError::KeyDoesNotExist)));

    // Linking a non-existent special keyring creates it.
    sess.link_keyring_id(&mut st, KeyRingIdentifier::Thread).unwrap();

    let sess = KeyRing::from_special_id(&mut st, KeyRingIdentifier::Thread, false).unwrap();
    assert!(sess.get_id().as_raw_id() > 0);
}

#[test]
fn test_get_linked_items() {
    let mut st = state_with_session();
    let ring = KeyRing::from_special_id(&mut st, KeyRingIdentifier::Session, false).unwrap();
    assert!(ring.get_id().as_raw_id() > 0);

    let key = ring
        .add_key(&mut st, &b"test_read_key".to_vec(), &b"test".to_vec())
        .unwrap();

    let items = ring.get_links(&st, 200).unwrap();

    assert!(items.len() > 0);
    assert!(items.contains_id(key.get_id()));

    // Use the alternate reference to the key.
    let key_ref = items.get(key.get_id()).unwrap().as_key().unwrap();

    key_ref.invalidate(&mut st).unwrap();

    // The invalidated key no longer appears in a listing.
    let items = ring.get_links(&st, 200).unwrap();
    assert!(!items.contains_id(key.get_id()));
}

#[test]
fn special_ids_resolve_with_create() {
    let specials = [
        KeyRingIdentifier::Thread,
        KeyRingIdentifier::Process,
        KeyRingIdentifier::Session,
        KeyRingIdentifier::User,
        KeyRingIdentifier::UserSession,
        KeyRingIdentifier::Group,
        KeyRingIdentifier::ReqKeyAuthKey,
        KeyRingIdentifier::Requestor,
    ];
    for s in specials {
        // A never-created slot without create fails...
        let mut st = fresh_state();
        let r = KeyRing::from_special_id(&mut st, s, false);
        assert!(matches!(r, Err(KeyError::KeyDoesNotExist)));
        // ...and with create always yields a positive serial.
        let ring = KeyRing::from_special_id(&mut st, s, true).unwrap();
        assert!(ring.get_id().as_raw_id() > 0);
    }
}

#[test]
fn persistent_is_idempotent() {
    let mut st = fresh_state();
    KeyRing::from_special_id(&mut st, KeyRingIdentifier::User, true).unwrap();

    let first = KeyRing::get_persistent(&mut st, KeyRingIdentifier::User).unwrap();
    let second = KeyRing::get_persistent(&mut st, KeyRingIdentifier::User).unwrap();
    assert_eq!(first.get_id(), second.get_id());

    let user = KeyRing::from_special_id(&mut st, KeyRingIdentifier::User, false).unwrap();
    assert_ne!(first.get_id(), user.get_id());
    assert_ne!(second.get_id(), user.get_id());
}

#[test]
fn persistent_creates_target_and_itself() {
    // On a completely fresh state both the target slot and the persistent
    // keyring are created; the persistent keyring ends up linked.
    let mut st = fresh_state();
    let p = KeyRing::get_persistent(&mut st, KeyRingIdentifier::Session).unwrap();
    let session = KeyRing::from_special_id(&mut st, KeyRingIdentifier::Session, false).unwrap();
    let items = session.get_links(&st, 200).unwrap();
    assert!(items.contains_id(p.get_id()));
}

#[test]
fn operations_on_a_leaf_key_target_are_refused() {
    let mut st = state_with_session();
    let ring = KeyRing::from_special_id(&mut st, KeyRingIdentifier::Session, false).unwrap();
    let key = ring
        .add_key(&mut st, &b"leaf".to_vec(), &b"x".to_vec())
        .unwrap();

    // A leaf key is no keyring: searching under it is refused with the raw
    // kernel errno for "not a directory".
    let as_ring = KeyRing::from_id(key.get_id());
    assert_eq!(
        as_ring.search(&st, &b"leaf".to_vec()).unwrap_err(),
        KeyError::Other(20)
    );
}

#[test]
fn add_updates_in_place() {
    let mut st = state_with_session();
    let ring = KeyRing::from_special_id(&mut st, KeyRingIdentifier::Session, false).unwrap();

    let first = ring
        .add_key(&mut st, &b"slot".to_vec(), &b"one".to_vec())
        .unwrap();
    let second = ring
        .add_key(&mut st, &b"slot".to_vec(), &b"two".to_vec())
        .unwrap();

    // Same description, supported update: the serial stays, the payload moves.
    assert_eq!(first.get_id(), second.get_id());
    assert_eq!(first.read_to_vec(&st).unwrap(), b"two".to_vec());
}

#[test]
fn search_never_yields_unsearchable_key() {
    let mut st = state_with_session();
    let ring = KeyRing::from_special_id(&mut st, KeyRingIdentifier::Session, false).unwrap();
    let key = ring
        .add_key(&mut st, &b"hidden".to_vec(), &b"x".to_vec())
        .unwrap();

    // Take search permission away from the key.
    let perms = Permissions {
        view: true,
        read: true,
        write: true,
        search: false,
        link: true,
    };
    key.set_perms(&mut st, perms).unwrap();

    // The key is present in the tree but may not be returned.
    let result = ring.search(&st, &b"hidden".to_vec());
    assert_eq!(result.unwrap_err(), KeyError::KeyDoesNotExist);
}

#[test]
fn request_attaches_found_key() {
    let mut st = state_with_session();
    let session = KeyRing::from_special_id(&mut st, KeyRingIdentifier::Session, false).unwrap();
    let thread = KeyRing::from_special_id(&mut st, KeyRingIdentifier::Thread, true).unwrap();
    session.link_keyring(&mut st, thread).unwrap();

    // The key sits one level down and is not a direct child of the session
    // keyring yet.
    let key = thread
        .add_key(&mut st, &b"fetched".to_vec(), &b"v".to_vec())
        .unwrap();
    let items = session.get_links(&st, 200).unwrap();
    assert!(!items.contains_id(key.get_id()));

    // A lookup request finds it and attaches it to the calling keyring.
    let got = session
        .request_key(&mut st, &b"fetched".to_vec(), None, Err(0))
        .unwrap();
    assert_eq!(got.get_id(), key.get_id());
    let items = session.get_links(&st, 200).unwrap();
    assert!(items.contains_id(key.get_id()));
}

#[test]
fn search_descends_into_linked_keyrings() {
    let mut st = state_with_session();
    let session = KeyRing::from_special_id(&mut st, KeyRingIdentifier::Session, false).unwrap();
    let thread = KeyRing::from_special_id(&mut st, KeyRingIdentifier::Thread, true).unwrap();
    session.link_keyring(&mut st, thread).unwrap();

    // The key sits one level down; the recursive search still finds it.
    let key = thread
        .add_key(&mut st, &b"nested".to_vec(), &b"deep".to_vec())
        .unwrap();
    let found = session.search(&st, &b"nested".to_vec()).unwrap();
    assert_eq!(found.get_id(), key.get_id());
}

#[test]
fn search_skips_unsearchable_keyrings() {
    let mut st = state_with_session();
    let session = KeyRing::from_special_id(&mut st, KeyRingIdentifier::Session, false).unwrap();
    let thread = KeyRing::from_special_id(&mut st, KeyRingIdentifier::Thread, true).unwrap();
    session.link_keyring(&mut st, thread).unwrap();
    let key = thread
        .add_key(&mut st, &b"walled".to_vec(), &b"off".to_vec())
        .unwrap();

    // Take search permission away from the child keyring: the traversal may
    // not descend into it, so the key is unreachable.
    let ring_key = keyrings::key::Key::from_id(thread.get_id());
    let perms = Permissions {
        view: true,
        read: true,
        write: true,
        search: false,
        link: true,
    };
    ring_key.set_perms(&mut st, perms).unwrap();

    let result = session.search(&st, &b"walled".to_vec());
    assert_eq!(result.unwrap_err(), KeyError::KeyDoesNotExist);

    // Searching from the child itself is refused outright.
    let result = thread.search(&st, &b"walled".to_vec());
    assert_eq!(result.unwrap_err(), KeyError::PermissionDenied);

    // Restoring the permission makes the key reachable again.
    ring_key
        .set_perms(
            &mut st,
            Permissions { view: true, read: true, write: true, search: true, link: true },
        )
        .unwrap();
    let found = session.search(&st, &b"walled".to_vec()).unwrap();
    assert_eq!(found.get_id(), key.get_id());
}

#[test]
fn zero_capacity_listing_is_empty_and_ok() {
    let mut st = state_with_session();
    let ring = KeyRing::from_special_id(&mut st, KeyRingIdentifier::Session, false).unwrap();
    ring.add_key(&mut st, &b"something".to_vec(), &b"x".to_vec())
        .unwrap();

    // With entries present, a zero-capacity listing still succeeds empty.
    let items = ring.get_links(&st, 0).unwrap();
    assert_eq!(items.len(), 0);

    // Even a handle on a nonexistent keyring lists empty at zero capacity.
    let bogus = KeyRing::from_id(KeySerialId(123456));
    let items = bogus.get_links(&st, 0).unwrap();
    assert_eq!(items.len(), 0);
}

#[test]
fn embedded_terminator_is_rejected() {
    let mut st = state_with_session();
    let ring = KeyRing::from_special_id(&mut st, KeyRingIdentifier::Session, false).unwrap();

    let bad = vec![b'a', 0u8, b'b'];
    assert_eq!(
        ring.search(&st, &bad).unwrap_err(),
        KeyError::InvalidDescription
    );
    assert_eq!(
        ring.add_key(&mut st, &bad, &b"x".to_vec()).unwrap_err(),
        KeyError::InvalidDescription
    );
    assert_eq!(
        ring.request_key(&mut st, &bad, None, Err(0)).unwrap_err(),
        KeyError::InvalidDescription
    );
}

#[test]
fn write_permission_guards_additions() {
    let mut st = state_with_session();
    let ring = KeyRing::from_special_id(&mut st, KeyRingIdentifier::Session, false).unwrap();

    // Drop write permission on the keyring itself.
    let ring_key = keyrings::key::Key::from_id(ring.get_id());
    let perms = Permissions {
        view: true,
        read: true,
        write: false,
        search: true,
        link: true,
    };
    ring_key.set_perms(&mut st, perms).unwrap();

    let r = ring.add_key(&mut st, &b"nope".to_vec(), &b"x".to_vec());
    assert_eq!(r.unwrap_err(), KeyError::PermissionDenied);

    let r = ring.clear(&mut st);
    assert_eq!(r.unwrap_err(), KeyError::PermissionDenied);
}

#[test]
fn quota_errors_when_serials_run_out() {
    let mut st = fresh_state();
    st.next_id = i32::MAX;
    let r = KeyRing::from_special_id(&mut st, KeyRingIdentifier::Thread, true);
    assert_eq!(r.unwrap_err(), KeyError::QuotaExceeded);
}

#[test]
fn cycles_are_refused() {
    let mut st = fresh_state();
    let a = KeyRing::from_special_id(&mut st, KeyRingIdentifier::Thread, true).unwrap();
    let b = KeyRing::from_special_id(&mut st, KeyRingIdentifier::Process, true).unwrap();

    a.link_keyring(&mut st, b).unwrap();
    let r = b.link_keyring(&mut st, a);
    assert_eq!(r.unwrap_err(), KeyError::AccessCycle);

    // Linking a keyring to itself is a cycle as well.
    let r = a.link_keyring(&mut st, a);
    assert_eq!(r.unwrap_err(), KeyError::AccessCycle);
}

#[test]
fn nesting_bound_is_enforced() {
    let mut st = fresh_state();
    let specials = [
        KeyRingIdentifier::Thread,
        KeyRingIdentifier::Process,
        KeyRingIdentifier::Session,
        KeyRingIdentifier::User,
        KeyRingIdentifier::UserSession,
        KeyRingIdentifier::Group,
        KeyRingIdentifier::ReqKeyAuthKey,
    ];
    let mut rings = Vec::new();
    for s in specials {
        rings.push(KeyRing::from_special_id(&mut st, s, true).unwrap());
    }
    // Chain the lower six: rings[1] <- rings[2] <- ... <- rings[6].
    for i in 1..6 {
        rings[i].link_keyring(&mut st, rings[i + 1]).unwrap();
    }
    // rings[1] now heads a chain of six keyrings; linking it one deeper
    // breaks the kernel bound.
    let r = rings[0].link_keyring(&mut st, rings[1]);
    assert_eq!(r.unwrap_err(), KeyError::NestingTooDeep);
}

#[test]
fn unlink_requires_existing_link() {
    let mut st = state_with_session();
    let ring = KeyRing::from_special_id(&mut st, KeyRingIdentifier::Session, false).unwrap();
    let key = ring
        .add_key(&mut st, &b"linked_once".to_vec(), &b"x".to_vec())
        .unwrap();

    ring.unlink_key(&mut st, key).unwrap();
    let r = ring.unlink_key(&mut st, key);
    assert_eq!(r.unwrap_err(), KeyError::KeyDoesNotExist);
}

#[test]
fn clear_unlinks_everything() {
    let mut st = state_with_session();
    let ring = KeyRing::from_special_id(&mut st, KeyRingIdentifier::Session, false).unwrap();
    ring.add_key(&mut st, &b"a".to_vec(), &b"1".to_vec()).unwrap();
    ring.add_key(&mut st, &b"b".to_vec(), &b"2".to_vec()).unwrap();

    assert_eq!(ring.get_links(&st, 200).unwrap().len(), 2);
    ring.clear(&mut st).unwrap();
    assert_eq!(ring.get_links(&st, 200).unwrap().len(), 0);
}

#[test]
fn listing_truncates_silently() {
    let mut st = state_with_session();
    let ring = KeyRing::from_special_id(&mut st, KeyRingIdentifier::Session, false).unwrap();
    ring.add_key(&mut st, &b"k1".to_vec(), &b"1".to_vec()).unwrap();
    ring.add_key(&mut st, &b"k2".to_vec(), &b"2".to_vec()).unwrap();
    ring.add_key(&mut st, &b"k3".to_vec(), &b"3".to_vec()).unwrap();

    let items = ring.get_links(&st, 2).unwrap();
    assert_eq!(items.len(), 2);
}

#[test]
fn displaced_key_leaves_the_ring() {
    let mut st = state_with_session();
    let ring = KeyRing::from_special_id(&mut st, KeyRingIdentifier::Session, false).unwrap();
    let thread = KeyRing::from_special_id(&mut st, KeyRingIdentifier::Thread, true).unwrap();

    // Put a key into the session ring, then link the same key into the
    // thread ring; nothing is displaced across rings.
    let key = ring
        .add_key(&mut st, &b"shared".to_vec(), &b"v".to_vec())
        .unwrap();
    thread
        .link_key(&mut st, keyrings::key::Key::from_id(key.get_id()))
        .unwrap();
    assert!(ring.get_links(&st, 200).unwrap().contains_id(key.get_id()));
    assert!(thread.get_links(&st, 200).unwrap().contains_id(key.get_id()));
}

#[test]
fn serial_codec_round_trip() {
    let ids = vec![1i32, 0x01020304, i32::MAX, 42];
    let buf = keyrings::codec::encode_links(&ids, 10);
    assert_eq!(buf.len(), 16);
    // Little-endian entry layout, exact bytes of the second serial.
    assert_eq!(&buf[4..8], &[0x04, 0x03, 0x02, 0x01]);
    let back = keyrings::codec::decode_links(&buf);
    assert_eq!(back, ids);

    // Truncation keeps whole leading entries.
    let buf = keyrings::codec::encode_links(&ids, 2);
    assert_eq!(buf.len(), 8);
    let back = keyrings::codec::decode_links(&buf);
    assert_eq!(back, vec![1i32, 0x01020304]);
}

#[test]
fn errno_classification() {
    assert_eq!(
        keyrings::error::classify_errno(1),
        KeyError::PermissionDenied
    );
    assert_eq!(
        keyrings::error::classify_errno(13),
        KeyError::PermissionDenied
    );
    assert_eq!(
        keyrings::error::classify_errno(126),
        KeyError::KeyDoesNotExist
    );
    assert_eq!(keyrings::error::classify_errno(122), KeyError::QuotaExceeded);
    assert_eq!(keyrings::error::classify_errno(35), KeyError::AccessCycle);
    assert_eq!(keyrings::error::classify_errno(40), KeyError::NestingTooDeep);
    assert_eq!(keyrings::error::classify_errno(22), KeyError::Other(22));
}

#[test]
fn serial_range_validation() {
    assert_eq!(
        KeySerialId::try_from_raw(5).unwrap(),
        KeySerialId(5)
    );
    assert_eq!(
        KeySerialId::try_from_raw(0).unwrap_err(),
        KeyError::InvalidIdentifier
    );
    assert_eq!(
        KeySerialId::try_from_raw(-3).unwrap_err(),
        KeyError::InvalidIdentifier
    );
    assert_eq!(
        KeySerialId::try_from_raw(i32::MAX as i64 + 1).unwrap_err(),
        KeyError::InvalidIdentifier
    );
}

#[test]
fn instantiation_helper_failure_is_reported() {
    let mut st = state_with_session();
    let ring = KeyRing::from_special_id(&mut st, KeyRingIdentifier::Session, false).unwrap();

    // The helper reports EACCES; the request surfaces it classified.
    let r = ring.request_key(
        &mut st,
        &b"no_such".to_vec(),
        Some(&b"data".to_vec()),
        Err(13),
    );
    assert_eq!(r.unwrap_err(), KeyError::PermissionDenied);
}
