//! Byte strings as storage keys: their order, the ranges they span, the
//! fixed-width integers and the checksum that the on-disk formats use.

use vstd::prelude::*;

verus! {

/// Strict lexicographic order of byte strings.
pub open spec fn bytes_lt(a: Seq<u8>, b: Seq<u8>) -> bool
    decreases a.len(),
{
    if b.len() == 0 {
        false
    } else if a.len() == 0 {
        true
    } else if a[0] != b[0] {
        a[0] < b[0]
    } else {
        bytes_lt(a.drop_first(), b.drop_first())
    }
}

pub proof fn lemma_bytes_lt_irrefl(a: Seq<u8>)
    ensures
        !bytes_lt(a, a),
    decreases a.len(),
{
    if a.len() > 0 {
        lemma_bytes_lt_irrefl(a.drop_first());
    }
}

pub proof fn lemma_bytes_lt_trans(a: Seq<u8>, b: Seq<u8>, c: Seq<u8>)
    requires
        bytes_lt(a, b),
        bytes_lt(b, c),
    ensures
        bytes_lt(a, c),
    decreases a.len(),
{
    if a.len() > 0 && b.len() > 0 && c.len() > 0 && a[0] == b[0] && b[0] == c[0] {
        lemma_bytes_lt_trans(a.drop_first(), b.drop_first(), c.drop_first());
    }
}

pub proof fn lemma_bytes_lt_total(a: Seq<u8>, b: Seq<u8>)
    ensures
        bytes_lt(a, b) || bytes_lt(b, a) || a == b,
    decreases a.len(),
{
    if a.len() == 0 || b.len() == 0 {
        if a.len() == 0 && b.len() == 0 {
            assert(a =~= b);
        }
    } else if a[0] == b[0] {
        lemma_bytes_lt_total(a.drop_first(), b.drop_first());
        if a.drop_first() == b.drop_first() {
            assert(a =~= seq![a[0]] + a.drop_first());
            assert(b =~= seq![b[0]] + b.drop_first());
        }
    }
}

/// Whether `a` precedes `b` as a key.
pub fn bytes_below(a: &[u8], b: &[u8]) -> (r: bool)
    ensures
        r == bytes_lt(a@, b@),
{
    let mut i: usize = 0;
    proof {
        assert(a@.skip(0) =~= a@);
        assert(b@.skip(0) =~= b@);
    }
    while i < a.len() && i < b.len() && a[i] == b[i]
        invariant
            i <= a.len(),
            i <= b.len(),
            bytes_lt(a@, b@) == bytes_lt(a@.skip(i as int), b@.skip(i as int)),
        decreases a.len() - i,
    {
        proof {
            assert(a@.skip(i as int).drop_first() =~= a@.skip(i + 1));
            assert(b@.skip(i as int).drop_first() =~= b@.skip(i + 1));
        }
        i = i + 1;
    }
    if i >= b.len() {
        false
    } else if i >= a.len() {
        true
    } else {
        a[i] < b[i]
    }
}

/// Whether two byte strings are equal.
pub fn same_bytes(a: &[u8], b: &[u8]) -> (r: bool)
    ensures
        r == (a@ == b@),
{
    if a.len() != b.len() {
        return false;
    }
    let mut i: usize = 0;
    while i < a.len()
        invariant
            a.len() == b.len(),
            i <= a.len(),
            forall|j: int| 0 <= j < i ==> a@[j] == b@[j],
        decreases a.len() - i,
    {
        if a[i] != b[i] {
            return false;
        }
        i = i + 1;
    }
    proof {
        assert(a@ =~= b@);
    }
    true
}

/// A copy of a byte string.
pub fn copy_bytes(a: &[u8]) -> (r: Vec<u8>)
    ensures
        r@ == a@,
{
    let mut out: Vec<u8> = Vec::new();
    push_bytes(&mut out, a);
    proof {
        assert(out@ =~= a@);
    }
    out
}

/// Appends a byte string.
pub fn push_bytes(out: &mut Vec<u8>, a: &[u8])
    ensures
        final(out)@ == old(out)@ + a@,
{
    let mut i: usize = 0;
    proof {
        assert(out@ =~= old(out)@ + a@.take(0));
    }
    while i < a.len()
        invariant
            i <= a.len(),
            out@ == old(out)@ + a@.take(i as int),
        decreases a.len() - i,
    {
        out.push(a[i]);
        proof {
            assert(out@ =~= old(out)@ + a@.take(i + 1));
        }
        i = i + 1;
    }
    proof {
        assert(a@.take(a@.len() as int) =~= a@);
    }
}

/// Whether `s` begins with `prefix`.
pub open spec fn byte_prefix(s: Seq<u8>, prefix: Seq<u8>) -> bool {
    prefix.len() <= s.len() && s.take(prefix.len() as int) == prefix
}

/// The prefix without its trailing `0xFF` bytes and with its last byte then
/// raised by one: nothing where every byte is `0xFF`.
pub open spec fn upper_bound(prefix: Seq<u8>) -> Option<Seq<u8>>
    decreases prefix.len(),
{
    if prefix.len() == 0 {
        None
    } else if prefix.last() < 0xFF {
        Some(prefix.drop_last().push((prefix.last() + 1) as u8))
    } else {
        upper_bound(prefix.drop_last())
    }
}

/// The smallest byte string strictly greater than every string with `prefix`;
/// nothing where every byte of the prefix is `0xFF`.
pub fn prefix_upper_bound(prefix: &[u8]) -> (r: Option<Vec<u8>>)
    ensures
        r is Some <==> upper_bound(prefix@) is Some,
        r matches Some(b) ==> upper_bound(prefix@) == Some(b@),
{
    let mut bound = copy_bytes(prefix);
    while bound.len() > 0
        invariant
            upper_bound(bound@) == upper_bound(prefix@),
        decreases bound@.len(),
    {
        let n: usize = bound.len() - 1;
        let last: u8 = bound[n];
        let ghost b = bound@;
        bound.pop();
        proof {
            assert(bound@ =~= b.drop_last());
        }
        if last < 0xFF {
            bound.push(last + 1);
            return Some(bound);
        }
    }
    None
}

/// A scan of `[prefix, bound)` reads exactly the keys that begin with the
/// prefix; where there is no bound, so does a scan that is open above.
pub proof fn prefix_range_is_exact(prefix: Seq<u8>, key: Seq<u8>)
    ensures
        upper_bound(prefix) matches Some(bound) ==> (byte_prefix(key, prefix) <==> !bytes_lt(
            key,
            prefix,
        ) && bytes_lt(key, bound)),
        upper_bound(prefix) is None ==> (byte_prefix(key, prefix) <==> !bytes_lt(key, prefix)),
    decreases prefix.len(),
{
    if prefix.len() == 0 {
        assert(key.take(0) =~= prefix);
    } else if key.len() == 0 {
    } else {
        let p = prefix.drop_first();
        let k = key.drop_first();
        prefix_range_is_exact(p, k);
        lemma_upper_bound_first(prefix);
        if byte_prefix(key, prefix) {
            assert(key.take(prefix.len() as int)[0] == prefix[0]);
            assert(k.take(p.len() as int) =~= key.take(prefix.len() as int).drop_first());
            assert(k.take(p.len() as int) =~= p);
        }
        if key[0] == prefix[0] && byte_prefix(k, p) {
            assert(key.take(prefix.len() as int) =~= seq![key[0]] + k.take(p.len() as int));
            assert(prefix =~= seq![prefix[0]] + p);
            assert(byte_prefix(key, prefix));
        }
        match upper_bound(p) {
            Some(b) => {
                let bound = upper_bound(prefix)->0;
                assert(bound =~= seq![prefix[0]] + b);
                assert(bound.drop_first() =~= b);
            },
            None => {
                if prefix[0] < 0xFF {
                    let bound = upper_bound(prefix)->0;
                    assert(bound =~= seq![(prefix[0] + 1) as u8]);
                    assert(bound.drop_first().len() == 0);
                    assert(!bytes_lt(k, bound.drop_first()));
                }
            },
        }
    }
}

/// The bound of a prefix, read from its first byte.
proof fn lemma_upper_bound_first(prefix: Seq<u8>)
    requires
        prefix.len() > 0,
    ensures
        upper_bound(prefix) == (match upper_bound(prefix.drop_first()) {
            Some(b) => Some(seq![prefix[0]] + b),
            None => if prefix[0] < 0xFF {
                Some(seq![(prefix[0] + 1) as u8])
            } else {
                None::<Seq<u8>>
            },
        }),
    decreases prefix.len(),
{
    let p = prefix.drop_first();
    if prefix.len() == 1 {
        assert(p.len() == 0);
        assert(prefix.drop_last() =~= Seq::<u8>::empty());
        assert(Seq::<u8>::empty().push((prefix[0] + 1) as u8) =~= seq![(prefix[0] + 1) as u8]);
    } else {
        assert(p.last() == prefix.last());
        assert(p.drop_last() =~= prefix.drop_last().drop_first());
        if prefix.last() < 0xFF {
            assert(seq![prefix[0]] + p.drop_last().push((p.last() + 1) as u8)
                =~= prefix.drop_last().push((prefix.last() + 1) as u8));
        } else {
            lemma_upper_bound_first(prefix.drop_last());
        }
    }
}

/// The upper bound is the least key above every key with the prefix: any key
/// that is above them all is not below it.
pub proof fn upper_bound_is_least(prefix: Seq<u8>, other: Seq<u8>)
    requires
        upper_bound(prefix) is Some,
        forall|key: Seq<u8>| byte_prefix(key, prefix) ==> bytes_lt(key, other),
    ensures
        !bytes_lt(other, upper_bound(prefix)->0),
{
    let bound = upper_bound(prefix)->0;
    assert(prefix.take(prefix.len() as int) =~= prefix);
    assert(byte_prefix(prefix, prefix));
    lemma_bytes_lt_irrefl(other);
    if bytes_lt(other, bound) {
        if bytes_lt(other, prefix) {
            lemma_bytes_lt_trans(other, prefix, other);
        }
        prefix_range_is_exact(prefix, other);
    }
}

/// One step of the 64-bit FNV-1a hash.
pub open spec fn fnv_step(h: u64, b: u8) -> u64 {
    (((h ^ (b as u64)) * 0x0000_0100_0000_01b3) % 0x1_0000_0000_0000_0000) as u64
}

/// The 64-bit FNV-1a hash of a byte string.
pub open spec fn fnv(data: Seq<u8>) -> u64
    decreases data.len(),
{
    if data.len() == 0 {
        0xcbf2_9ce4_8422_2325
    } else {
        fnv_step(fnv(data.drop_last()), data.last())
    }
}

/// The 64-bit FNV-1a hash of a byte string.
pub fn fnv1a(data: &[u8]) -> (h: u64)
    ensures
        h == fnv(data@),
{
    let mut h: u64 = 0xcbf2_9ce4_8422_2325;
    let mut i: usize = 0;
    while i < data.len()
        invariant
            i <= data.len(),
            h == fnv(data@.take(i as int)),
        decreases data.len() - i,
    {
        let b: u64 = data[i] as u64;
        h = (h ^ b).wrapping_mul(0x0000_0100_0000_01b3);
        proof {
            assert(data@.take(i + 1).drop_last() =~= data@.take(i as int));
        }
        i = i + 1;
    }
    proof {
        assert(data@.take(data.len() as int) =~= data@);
    }
    h
}

/// The low 32 bits of an integer as four bytes, least significant first.
pub open spec fn le32(n: int) -> Seq<u8> {
    seq![
        (n % 256) as u8,
        (n / 256 % 256) as u8,
        (n / 65536 % 256) as u8,
        (n / 16777216 % 256) as u8,
    ]
}

/// The integer that four bytes stand for, least significant first.
pub open spec fn from_le32(s: Seq<u8>) -> int {
    s[0] + s[1] * 256 + s[2] * 65536 + s[3] * 16777216
}

/// Four bytes give back an integer of 32 bits.
pub proof fn lemma_le32(n: int)
    requires
        0 <= n < 0x1_0000_0000,
    ensures
        le32(n).len() == 4,
        from_le32(le32(n)) == n,
{
}

/// The low 64 bits of an integer as eight bytes, least significant first.
pub open spec fn le64(n: int) -> Seq<u8> {
    le32(n % 0x1_0000_0000) + le32(n / 0x1_0000_0000)
}

/// The integer that eight bytes stand for, least significant first.
pub open spec fn from_le64(s: Seq<u8>) -> int {
    from_le32(s.take(4)) + from_le32(s.skip(4)) * 0x1_0000_0000
}

/// Eight bytes give back an integer of 64 bits.
pub proof fn lemma_le64(n: int)
    requires
        0 <= n < 0x1_0000_0000_0000_0000,
    ensures
        le64(n).len() == 8,
        from_le64(le64(n)) == n,
{
    lemma_le32(n % 0x1_0000_0000);
    lemma_le32(n / 0x1_0000_0000);
    assert(le64(n).take(4) =~= le32(n % 0x1_0000_0000));
    assert(le64(n).skip(4) =~= le32(n / 0x1_0000_0000));
}

/// Appends a 32-bit integer.
pub fn push_le32(out: &mut Vec<u8>, n: u32)
    ensures
        final(out)@ == old(out)@ + le32(n as int),
{
    out.push((n % 256) as u8);
    out.push((n / 256 % 256) as u8);
    out.push((n / 65536 % 256) as u8);
    out.push((n / 16777216 % 256) as u8);
    proof {
        assert(out@ =~= old(out)@ + le32(n as int));
    }
}

/// Appends the low 32 bits of a length.
pub fn push_len32(out: &mut Vec<u8>, n: usize)
    ensures
        final(out)@ == old(out)@ + le32(n as int),
{
    out.push((n % 256) as u8);
    out.push((n / 256 % 256) as u8);
    out.push((n / 65536 % 256) as u8);
    out.push((n / 16777216 % 256) as u8);
    proof {
        assert(out@ =~= old(out)@ + le32(n as int));
    }
}

/// Appends a 64-bit integer.
pub fn push_le64(out: &mut Vec<u8>, n: u64)
    ensures
        final(out)@ == old(out)@ + le64(n as int),
{
    push_le32(out, (n % 0x1_0000_0000) as u32);
    push_le32(out, (n / 0x1_0000_0000) as u32);
    proof {
        assert(out@ =~= old(out)@ + le64(n as int));
    }
}

/// Reads the 32-bit integer at `at`.
pub fn read_le32(s: &[u8], at: usize) -> (n: u32)
    requires
        at + 4 <= s.len(),
    ensures
        n == from_le32(s@.subrange(at as int, at + 4)),
{
    let a: u32 = s[at] as u32;
    let b: u32 = s[at + 1] as u32;
    let c: u32 = s[at + 2] as u32;
    let d: u32 = s[at + 3] as u32;
    a + b * 256 + c * 65536 + d * 16777216
}

/// Reads the 64-bit integer at `at`.
pub fn read_le64(s: &[u8], at: usize) -> (n: u64)
    requires
        at + 8 <= s.len(),
    ensures
        n == from_le64(s@.subrange(at as int, at + 8)),
{
    let lo: u64 = read_le32(s, at) as u64;
    let hi: u64 = read_le32(s, at + 4) as u64;
    proof {
        let t = s@.subrange(at as int, at + 8);
        assert(t.take(4) =~= s@.subrange(at as int, at + 4));
        assert(t.skip(4) =~= s@.subrange(at + 4, at + 8));
    }
    lo + hi * 0x1_0000_0000
}

} // verus!
