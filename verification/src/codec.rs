//! The link-listing buffer protocol: a keyring's link list travels as a
//! compact binary buffer of fixed-width little-endian serials, and is read
//! back as whole entries, any trailing partial entry ignored.

use vstd::prelude::*;

verus! {

/// How many bytes one serial occupies in a link-listing buffer.
pub const ID_BYTES: usize = 4;

/// The serial a little-endian entry of four buffer bytes carries.
pub open spec fn id_of_bytes(b0: u8, b1: u8, b2: u8, b3: u8) -> i32 {
    ((b0 as u32) | ((b1 as u32) << 8) | ((b2 as u32) << 16) | ((b3 as u32) << 24)) as i32
}

/// The four little-endian buffer bytes of one serial.
pub open spec fn bytes_of_id(x: i32) -> Seq<u8> {
    seq![
        (x as u32 & 0xff) as u8,
        ((x as u32 >> 8) & 0xff) as u8,
        ((x as u32 >> 16) & 0xff) as u8,
        ((x as u32 >> 24) & 0xff) as u8,
    ]
}

/// Writing a serial and reading the entry back is the identity.
pub proof fn lemma_id_bytes_roundtrip(x: i32)
    ensures
        id_of_bytes(
            bytes_of_id(x)[0],
            bytes_of_id(x)[1],
            bytes_of_id(x)[2],
            bytes_of_id(x)[3],
        ) == x,
{
    let u = x as u32;
    assert(((u & 0xff) | (((u >> 8) & 0xff) << 8) | (((u >> 16) & 0xff) << 16) | (((u >> 24)
        & 0xff) << 24)) == u) by (bit_vector);
    assert(((u & 0xff) as u8) as u32 == u & 0xff) by (bit_vector);
    assert((((u >> 8) & 0xff) as u8) as u32 == (u >> 8) & 0xff) by (bit_vector);
    assert((((u >> 16) & 0xff) as u8) as u32 == (u >> 16) & 0xff) by (bit_vector);
    assert((((u >> 24) & 0xff) as u8) as u32 == (u >> 24) & 0xff) by (bit_vector);
    assert((x as u32) as i32 == x) by (bit_vector);
}

/// Fill a listing buffer of at most `max` entries from a link list, in link
/// order; entries past the buffer's capacity are silently left out.
pub fn encode_links(links: &Vec<i32>, max: usize) -> (r: Vec<u8>)
    ensures
        r@.len() == ID_BYTES * (if max < links@.len() {
            max as int
        } else {
            links@.len() as int
        }),
        forall|t: int|
            0 <= t < r@.len() as int / ID_BYTES as int ==> r@.subrange(
                ID_BYTES * t,
                ID_BYTES * t + ID_BYTES,
            ) == bytes_of_id(#[trigger] links@[t]),
    {
    let count = if max < links.len() {
        max
    } else {
        links.len()
    };
    let mut r: Vec<u8> = Vec::new();
    let mut t: usize = 0;
    while t < count
        invariant
            count <= links@.len(),
            t <= count,
            r@.len() == ID_BYTES * t,
            forall|k: int|
                0 <= k < t ==> r@.subrange(ID_BYTES * k, ID_BYTES * k + ID_BYTES) == bytes_of_id(
                    #[trigger] links@[k],
                ),
        decreases count - t,
    {
        let x = links[t];
        let u = x as u32;
        let ghost r0 = r@;
        r.push((u & 0xff) as u8);
        r.push(((u >> 8) & 0xff) as u8);
        r.push(((u >> 16) & 0xff) as u8);
        r.push(((u >> 24) & 0xff) as u8);
        proof {
            assert(r@.subrange(ID_BYTES * t as int, ID_BYTES * t as int + ID_BYTES)
                =~= bytes_of_id(x));
            assert forall|k: int|
                0 <= k < t implies r@.subrange(ID_BYTES * k, ID_BYTES * k + ID_BYTES)
                == bytes_of_id(#[trigger] links@[k]) by {
                assert(r@.subrange(ID_BYTES * k, ID_BYTES * k + ID_BYTES) =~= r0.subrange(
                    ID_BYTES * k,
                    ID_BYTES * k + ID_BYTES,
                ));
            }
        }
        t += 1;
    }
    r
}

/// Read a listing buffer back into serials: one entry per four bytes, in
/// buffer order, ignoring any trailing partial entry.
pub fn decode_links(buf: &Vec<u8>) -> (r: Vec<i32>)
    ensures
        r@.len() == buf@.len() as int / ID_BYTES as int,
        forall|t: int|
            0 <= t < r@.len() ==> #[trigger] r@[t] == id_of_bytes(
                buf@[ID_BYTES * t],
                buf@[ID_BYTES * t + 1],
                buf@[ID_BYTES * t + 2],
                buf@[ID_BYTES * t + 3],
            ),
{
    let n = buf.len() / ID_BYTES;
    let mut r: Vec<i32> = Vec::new();
    let mut t: usize = 0;
    while t < n
        invariant
            n == buf@.len() as int / ID_BYTES as int,
            ID_BYTES * n <= buf@.len(),
            buf@.len() <= usize::MAX,
            t <= n,
            r@.len() == t,
            forall|k: int|
                0 <= k < t ==> #[trigger] r@[k] == id_of_bytes(
                    buf@[ID_BYTES * k],
                    buf@[ID_BYTES * k + 1],
                    buf@[ID_BYTES * k + 2],
                    buf@[ID_BYTES * k + 3],
                ),
        decreases n - t,
    {
        proof {
            assert(ID_BYTES * t < ID_BYTES * n && ID_BYTES * t + ID_BYTES <= ID_BYTES * n)
                by (nonlinear_arith)
                requires
                    t < n,
                    0 < ID_BYTES,
            ;
        }
        let b0 = buf[ID_BYTES * t];
        let b1 = buf[ID_BYTES * t + 1];
        let b2 = buf[ID_BYTES * t + 2];
        let b3 = buf[ID_BYTES * t + 3];
        let u = (b0 as u32) | ((b1 as u32) << 8) | ((b2 as u32) << 16) | ((b3 as u32) << 24);
        r.push(#[verifier::truncate] (u as i32));
        t += 1;
    }
    r
}

/// Writing a link list into a buffer of at most `max` entries and reading
/// the buffer back yields exactly the first entries of the list.
pub proof fn lemma_links_roundtrip(links: Seq<i32>, encoded: Seq<u8>, decoded: Seq<i32>, max: int)
    requires
        encoded.len() == ID_BYTES * (if max < links.len() {
            max
        } else {
            links.len() as int
        }),
        forall|t: int|
            0 <= t < encoded.len() as int / ID_BYTES as int ==> encoded.subrange(
                ID_BYTES * t,
                ID_BYTES * t + ID_BYTES,
            ) == bytes_of_id(#[trigger] links[t]),
        decoded.len() == encoded.len() as int / ID_BYTES as int,
        forall|t: int|
            0 <= t < decoded.len() ==> #[trigger] decoded[t] == id_of_bytes(
                encoded[ID_BYTES * t],
                encoded[ID_BYTES * t + 1],
                encoded[ID_BYTES * t + 2],
                encoded[ID_BYTES * t + 3],
            ),
    ensures
        decoded == links.take(
            if max < links.len() {
                max
            } else {
                links.len() as int
            },
        ),
{
    let count = if max < links.len() {
        max
    } else {
        links.len() as int
    };
    assert(decoded.len() == count);
    assert forall|t: int| 0 <= t < count implies decoded[t] == links[t] by {
        let e = encoded.subrange(ID_BYTES * t, ID_BYTES * t + ID_BYTES);
        assert(e == bytes_of_id(links[t]));
        assert(encoded[ID_BYTES * t] == e[0]);
        assert(encoded[ID_BYTES * t + 1] == e[1]);
        assert(encoded[ID_BYTES * t + 2] == e[2]);
        assert(encoded[ID_BYTES * t + 3] == e[3]);
        lemma_id_bytes_roundtrip(links[t]);
    }
    assert(decoded =~= links.take(count));
}

} // verus!
