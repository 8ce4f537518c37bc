//! Keys of global-index entries: a length header, the encoded value tuple,
//! then the row key, so that placement and the row can be read back from the
//! key alone.

use vstd::prelude::*;
use vstd::slice::slice_subrange;

use crate::bytes::byte_prefix;
use crate::bytes::prefix_range_is_exact;
use crate::bytes::prefix_upper_bound;
use crate::bytes::push_bytes;
use crate::bytes::upper_bound;
use crate::bytes::bytes_lt;

verus! {

/// The largest number of probe ranges one global-index probe may expand to.
pub const GIDX_PROBE_RANGES: usize = 100;

/// A 16-bit integer as two bytes, most significant first.
pub open spec fn be16(n: int) -> Seq<u8> {
    seq![(n / 256 % 256) as u8, (n % 256) as u8]
}

/// The length that the first two bytes of a key announce.
pub open spec fn header_len(key: Seq<u8>) -> int {
    key[0] * 256 + key[1]
}

/// Whether a key is long enough for the value prefix its header announces.
pub open spec fn is_entry_key(key: Seq<u8>) -> bool {
    key.len() >= 2 && 2 + header_len(key) <= key.len()
}

/// The entry key of a row: the length of the value prefix in two bytes, the
/// prefix, the row key.
pub open spec fn entry_key(prefix: Seq<u8>, row_key: Seq<u8>) -> Seq<u8> {
    be16(prefix.len() as int) + prefix + row_key
}

/// One global index entry key: `u16 BE prefix_len ‖ values_prefix ‖ row_key`,
/// where `prefix` is the order-preserving encoding of the indexed value tuple.
/// The header keeps the low sixteen bits of the length.
pub fn gidx_entry_key(prefix: &[u8], row_key: &[u8]) -> (key: Vec<u8>)
    ensures
        key@ == entry_key(prefix@, row_key@),
{
    let mut key: Vec<u8> = Vec::new();
    let n: usize = prefix.len();
    key.push((n / 256 % 256) as u8);
    key.push((n % 256) as u8);
    proof {
        assert(key@ =~= be16(prefix@.len() as int));
    }
    push_bytes(&mut key, prefix);
    push_bytes(&mut key, row_key);
    key
}

/// The ring-placement bytes of a global index entry key: the length header
/// plus the values prefix. A malformed key is placed by the whole of it.
pub fn gidx_placement_prefix(key: &[u8]) -> (r: &[u8])
    ensures
        is_entry_key(key@) ==> r@ == key@.take(2 + header_len(key@)),
        !is_entry_key(key@) ==> r@ == key@,
{
    if key.len() >= 2 {
        let n: usize = (key[0] as usize) * 256 + key[1] as usize;
        if 2 + n <= key.len() {
            proof {
                assert(key@.subrange(0, 2 + n) =~= key@.take(2 + n));
            }
            return slice_subrange(key, 0, 2 + n);
        }
    }
    key
}

/// The row key embedded in a global index entry key; nothing if malformed.
pub fn gidx_entry_row_key(key: &[u8]) -> (r: Option<&[u8]>)
    ensures
        r is Some <==> is_entry_key(key@),
        r matches Some(row) ==> row@ == key@.skip(2 + header_len(key@)),
{
    if key.len() >= 2 {
        let n: usize = (key[0] as usize) * 256 + key[1] as usize;
        if 2 + n <= key.len() {
            proof {
                assert(key@.subrange(2 + n, key@.len() as int) =~= key@.skip(2 + n));
            }
            return Some(slice_subrange(key, 2 + n, key.len()));
        }
    }
    None
}

/// The `[start, end)` entry-key range holding every entry whose value tuple
/// encodes to `prefix`; nothing where every byte of the start is `0xFF`.
pub fn gidx_probe_bounds(prefix: &[u8]) -> (r: Option<(Vec<u8>, Vec<u8>)>)
    ensures
        r is Some <==> upper_bound(be16(prefix@.len() as int) + prefix@) is Some,
        r matches Some((start, end)) ==> start@ == be16(prefix@.len() as int) + prefix@
            && upper_bound(start@) == Some(end@),
{
    let empty: Vec<u8> = Vec::new();
    let start = gidx_entry_key(prefix, empty.as_slice());
    proof {
        assert(start@ =~= be16(prefix@.len() as int) + prefix@);
    }
    match prefix_upper_bound(start.as_slice()) {
        Some(end) => Some((start, end)),
        None => None,
    }
}

/// The row key and the placement bytes of an entry are those it was made of:
/// every entry of one value tuple is placed alike, whatever its row. The
/// value prefix fits the two-byte header.
pub proof fn entry_key_round_trip(prefix: Seq<u8>, row_key: Seq<u8>)
    requires
        prefix.len() < 0x1_0000,
    ensures
        is_entry_key(entry_key(prefix, row_key)),
        entry_key(prefix, row_key).skip(2 + header_len(entry_key(prefix, row_key))) == row_key,
        entry_key(prefix, row_key).take(2 + header_len(entry_key(prefix, row_key))) == be16(
            prefix.len() as int,
        ) + prefix,
{
    let n = prefix.len() as int;
    let key = entry_key(prefix, row_key);
    assert(key[0] == (n / 256 % 256) as u8);
    assert(key[1] == (n % 256) as u8);
    assert(n / 256 % 256 == n / 256);
    assert(header_len(key) == n);
    assert(key.skip(2 + n) =~= row_key);
    assert(key.take(2 + n) =~= be16(n) + prefix);
}

/// A probe range reads an entry exactly when the entry's value prefix is the
/// probed one, for prefixes that fit the header.
pub proof fn probe_reads_exactly_its_tuple(
    probed: Seq<u8>,
    end: Seq<u8>,
    prefix: Seq<u8>,
    row_key: Seq<u8>,
)
    requires
        probed.len() < 0x1_0000,
        prefix.len() < 0x1_0000,
        upper_bound(be16(probed.len() as int) + probed) == Some(end),
    ensures
        (!bytes_lt(entry_key(prefix, row_key), be16(probed.len() as int) + probed) && bytes_lt(
            entry_key(prefix, row_key),
            end,
        )) <==> prefix == probed,
{
    let start = be16(probed.len() as int) + probed;
    let key = entry_key(prefix, row_key);
    prefix_range_is_exact(start, key);
    entry_key_round_trip(prefix, row_key);
    entry_key_round_trip(probed, row_key);
    let n = prefix.len() as int;
    let m = probed.len() as int;
    if byte_prefix(key, start) {
        let t = key.take(start.len() as int);
        assert(t[0] == key[0] && t[1] == key[1]);
        assert(start[0] == key[0] && start[1] == key[1]);
        assert(n / 256 % 256 == n / 256);
        assert(m / 256 % 256 == m / 256);
        assert(n == m);
        assert(key.take(2 + n) =~= be16(n) + prefix);
        assert((be16(n) + prefix).skip(2) =~= prefix);
        assert(start.skip(2) =~= probed);
    }
    if prefix == probed {
        assert(key.take(start.len() as int) =~= start);
    }
}

} // verus!
