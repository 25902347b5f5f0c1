//! Laws the keyring operations obey, stated over the same spec functions
//! their contracts use and proved once and for all.

use vstd::prelude::*;

use crate::id::KeyRingIdentifier;
use crate::keyring::listed;
use crate::state::KernelState;

verus! {

/// Round trip: a visible key that grants search and stands among a
/// searchable keyring's direct links is exactly what a breadth-first search
/// from that keyring returns for its description. Together with the
/// contract of `add_key` (which leaves the ring with that key as its only
/// visible same-description key child) and of `search` (which returns the
/// breadth-first result), adding a key and searching its description on the
/// same keyring yields the very serial the addition returned.
pub proof fn lemma_added_key_found(s: KernelState, ring: i32, k: i32, desc: Seq<u8>)
    requires
        s.wf(),
        s.ring_searchable(ring),
        s.key_matches(k, desc),
        s.obj(ring).links@.contains(k),
    ensures
        s.bfs_spec(seq![ring], Seq::<i32>::empty(), desc) == Some(k),
{
    let q0: Seq<i32> = seq![ring];
    let l = s.obj(ring).links@;
    assert(q0[0] == ring);
    assert(!s.key_matches(ring, desc));
    assert(s.visited_wf(Seq::<i32>::empty()));
    assert(s.visited_wf(seq![ring]));
    assert(q0.drop_first() + l =~= l);
    assert(Seq::<i32>::empty().push(ring) =~= seq![ring]);
    assert(s.bfs_spec(q0, Seq::<i32>::empty(), desc) == s.bfs_spec(l, seq![ring], desc));
    let i = choose|i: int| 0 <= i < l.len() && l[i] == k;
    assert(s.links_ok(s.obj(ring))) by {
        let t = s.index_of(ring);
        assert(0 <= t < s.objects@.len() && s.objects@[t] == s.obj(ring));
    }
    assert forall|j: int| 0 <= j < i implies !s.key_matches(#[trigger] l[j], desc) by {
        if s.key_matches(l[j], desc) {
            assert(l.contains(l[j]));
            assert(l.contains(k));
            if l[j] == k {
                assert(l[i] == l[j]);
                assert(false);
            } else {
                assert(s.is_live_key(l[j]) && s.is_live_key(k));
                assert(s.obj(l[j]).description@ != s.obj(k).description@);
                assert(false);
            }
        }
    }
    s.lemma_bfs_first_hit(l, seq![ring], desc, i);
}

/// A search over a tree empty of any matching visible, search-permitted key
/// finds nothing, so the operation reports `KeyDoesNotExist`.
pub proof fn lemma_search_misses_without_match(s: KernelState, ring: i32, desc: Seq<u8>)
    requires
        s.wf(),
        forall|x: i32| !s.key_matches(x, desc),
    ensures
        s.bfs_spec(seq![ring], Seq::<i32>::empty(), desc) is None,
{
    assert(s.visited_wf(Seq::<i32>::empty()));
    s.lemma_bfs_none(seq![ring], Seq::<i32>::empty(), desc);
}

/// A search never hands out a key the caller may not search: whatever it
/// returns is a visible key under the wanted description that grants search
/// permission.
pub proof fn lemma_search_yields_only_permitted(s: KernelState, ring: i32, desc: Seq<u8>)
    requires
        s.wf(),
    ensures
        s.bfs_spec(seq![ring], Seq::<i32>::empty(), desc) matches Some(k) ==> s.key_matches(
            k,
            desc,
        ) && s.obj(k).perms.search,
{
    assert(s.visited_wf(Seq::<i32>::empty()));
    s.lemma_bfs_sound(seq![ring], Seq::<i32>::empty(), desc);
}

/// The persistent keyring is its own object: its serial never collides with
/// any filled special slot's, so what `get_persistent` returns always
/// differs from what resolving a special identifier returns.
pub proof fn lemma_persistent_distinct_from_special(s: KernelState, id: KeyRingIdentifier)
    requires
        s.wf(),
        s.persistent is Some,
        s.slot_of(id) is Some,
    ensures
        s.persistent->Some_0 != s.slot_of(id)->Some_0,
{
    assert(s.roots_distinct());
}

/// One half of the link/unlink inverse law: in a state where an object
/// stands among a keyring's links — as the contracts of `link_key` and
/// `link_keyring` guarantee right after a successful link — a listing whose
/// entry budget covers the whole link list shows it, provided the object can
/// be introspected. `get_links` reports membership as exactly this `listed`
/// predicate.
pub proof fn lemma_linked_is_listed(s: KernelState, ring: i32, x: i32, max: int)
    requires
        s.wf(),
        s.has_index(ring),
        s.obj(ring).links@.contains(x),
        s.obj(ring).links@.len() <= max,
        s.is_live(x),
        s.obj(x).perms.view,
    ensures
        listed(s, ring, max, x),
{
    let l = s.obj(ring).links@;
    assert(l.take(l.len() as int) =~= l);
}

/// The other half of the inverse law: in a state where an object does not
/// stand among a keyring's links — as the contracts of `unlink_key` and
/// `unlink_keyring` guarantee right after a successful unlink — no listing
/// shows it, whatever the entry budget.
pub proof fn lemma_unlinked_is_not_listed(s: KernelState, ring: i32, x: i32, max: int)
    requires
        s.wf(),
        s.has_index(ring),
        0 <= max,
        !s.obj(ring).links@.contains(x),
    ensures
        !listed(s, ring, max, x),
{
    let l = s.obj(ring).links@;
    let cnt = if max < l.len() {
        max
    } else {
        l.len() as int
    };
    if 0 <= cnt <= l.len() && l.take(cnt).contains(x) {
        let t = choose|t: int| 0 <= t < cnt && l.take(cnt)[t] == x;
        assert(l[t] == x);
        assert(l.contains(x));
    }
}

} // verus!
