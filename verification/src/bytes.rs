//! Little-endian fields in a byte buffer, and the order of byte strings.

use vstd::prelude::*;

verus! {

/// The little-endian `u16` at offset `o` of `b`.
pub open spec fn le16(b: Seq<u8>, o: int) -> u16 {
    (b[o] + 0x100 * b[o + 1]) as u16
}

/// The little-endian `u32` at offset `o` of `b`.
pub open spec fn le32(b: Seq<u8>, o: int) -> u32 {
    (le16(b, o) + 0x1_0000 * le16(b, o + 2)) as u32
}

/// The little-endian `u64` at offset `o` of `b`.
pub open spec fn le64(b: Seq<u8>, o: int) -> u64 {
    (le32(b, o) + 0x1_0000_0000 * le32(b, o + 4)) as u64
}

/// Reads the two bytes at `o`, least significant first.
pub fn u16le(b: &[u8], o: usize) -> (value: u16)
    requires
        o + 2 <= b@.len(),
    ensures
        value == le16(b@, o as int),
        value == b@[o as int] + 0x100 * b@[o + 1],
{
    b[o] as u16 + 0x100 * b[o + 1] as u16
}

/// Reads the four bytes at `o`, least significant first.
pub fn u32le(b: &[u8], o: usize) -> (value: u32)
    requires
        o + 4 <= b@.len(),
    ensures
        value == le32(b@, o as int),
        value == b@[o as int] + 0x100 * b@[o + 1] + 0x1_0000 * b@[o + 2] + 0x100_0000 * b@[o + 3],
{
    assert(o + 4 <= b.len());
    u16le(b, o) as u32 + 0x1_0000 * u16le(b, o + 2) as u32
}

/// Reads the eight bytes at `o`, least significant first.
pub fn u64le(b: &[u8], o: usize) -> (value: u64)
    requires
        o + 8 <= b@.len(),
    ensures
        value == le64(b@, o as int),
        value == b@[o as int] + 0x100 * b@[o + 1] + 0x1_0000 * b@[o + 2] + 0x100_0000 * b@[o + 3]
            + 0x1_0000_0000 * b@[o + 4] + 0x100_0000_0000 * b@[o + 5] + 0x1_0000_0000_0000 * b@[o
            + 6] + 0x100_0000_0000_0000 * b@[o + 7],
{
    assert(o + 8 <= b.len());
    u32le(b, o) as u64 + 0x1_0000_0000 * u32le(b, o + 4) as u64
}

/// A field of a part of `b` is the field of `b` that lies that much further on.
pub proof fn le16_of_part(b: Seq<u8>, from: int, to: int, o: int)
    requires
        0 <= from <= to <= b.len(),
        0 <= o,
        o + 2 <= to - from,
    ensures
        le16(b.subrange(from, to), o) == le16(b, from + o),
{
}

/// A field of a part of `b` is the field of `b` that lies that much further on.
pub proof fn le32_of_part(b: Seq<u8>, from: int, to: int, o: int)
    requires
        0 <= from <= to <= b.len(),
        0 <= o,
        o + 4 <= to - from,
    ensures
        le32(b.subrange(from, to), o) == le32(b, from + o),
{
    le16_of_part(b, from, to, o);
    le16_of_part(b, from, to, o + 2);
}

/// A field of a part of `b` is the field of `b` that lies that much further on.
pub proof fn le64_of_part(b: Seq<u8>, from: int, to: int, o: int)
    requires
        0 <= from <= to <= b.len(),
        0 <= o,
        o + 8 <= to - from,
    ensures
        le64(b.subrange(from, to), o) == le64(b, from + o),
{
    le32_of_part(b, from, to, o);
    le32_of_part(b, from, to, o + 4);
}

/// `a` and `b` agree before position `k`, and there `a` ends or has the smaller byte.
pub open spec fn precedes_at(a: Seq<u8>, b: Seq<u8>, k: int) -> bool {
    &&& 0 <= k <= a.len()
    &&& k < b.len()
    &&& forall|i: int| 0 <= i < k ==> a[i] == b[i]
    &&& k == a.len() || a[k] < b[k]
}

/// `a` comes strictly before `b` in the lexicographic order of byte strings.
pub open spec fn precedes(a: Seq<u8>, b: Seq<u8>) -> bool {
    exists|k: int| precedes_at(a, b, k)
}

/// Nothing precedes itself.
pub proof fn precedes_irreflexive(a: Seq<u8>)
    ensures
        !precedes(a, a),
{
}

/// The order is transitive.
pub proof fn precedes_transitive(a: Seq<u8>, b: Seq<u8>, c: Seq<u8>)
    requires
        precedes(a, b),
        precedes(b, c),
    ensures
        precedes(a, c),
{
    let i = choose|k: int| precedes_at(a, b, k);
    let j = choose|k: int| precedes_at(b, c, k);
    let k = if i < j { i } else { j };
    assert(precedes_at(a, c, k));
}

/// Where two byte strings stand in the lexicographic order.
#[derive(Debug, Clone, Copy, PartialEq, Eq, Structural)]
pub enum Place {
    Before,
    Same,
    After,
}

/// Says whether `a` comes before `b`, after it, or is the same byte string.
pub fn place(a: &[u8], b: &[u8]) -> (p: Place)
    ensures
        p == Place::Before <==> precedes(a@, b@),
        p == Place::Same <==> a@ == b@,
        p == Place::After <==> precedes(b@, a@),
{
    let mut i: usize = 0;
    while i < a.len() && i < b.len() && a[i] == b[i]
        invariant
            i <= a@.len(),
            i <= b@.len(),
            forall|j: int| 0 <= j < i ==> a@[j] == b@[j],
        decreases a@.len() - i,
    {
        i += 1;
    }
    proof {
        precedes_irreflexive(a@);
        if precedes(a@, b@) && precedes(b@, a@) {
            precedes_transitive(a@, b@, a@);
        }
        if i < b@.len() && (i == a@.len() || a@[i as int] < b@[i as int]) {
            assert(precedes_at(a@, b@, i as int));
        }
        if i < a@.len() && (i == b@.len() || b@[i as int] < a@[i as int]) {
            assert(precedes_at(b@, a@, i as int));
        }
        if i == a@.len() && i == b@.len() {
            assert(a@ =~= b@);
        }
    }
    if i < a.len() && i < b.len() {
        if a[i] < b[i] {
            Place::Before
        } else {
            Place::After
        }
    } else if i < b.len() {
        Place::Before
    } else if i < a.len() {
        Place::After
    } else {
        Place::Same
    }
}

// ---- What holds of every byte string ----

/// A field is the sum of its bytes, each worth 256 times the one before it.
pub proof fn each_byte_is_worth_more_than_the_one_before(b: Seq<u8>, o: int)
    ensures
        le16(b, o) == b[o] + 0x100 * b[o + 1],
        le32(b, o) == b[o] + 0x100 * b[o + 1] + 0x1_0000 * b[o + 2] + 0x100_0000 * b[o + 3],
        le64(b, o) == b[o] + 0x100 * b[o + 1] + 0x1_0000 * b[o + 2] + 0x100_0000 * b[o + 3]
            + 0x1_0000_0000 * b[o + 4] + 0x100_0000_0000 * b[o + 5] + 0x1_0000_0000_0000 * b[o + 6]
            + 0x100_0000_0000_0000 * b[o + 7],
{
}

/// Where two byte strings first differ, the smaller byte decides, whatever follows.
pub proof fn the_first_difference_decides(
    common: Seq<u8>,
    x: u8,
    y: u8,
    after_x: Seq<u8>,
    after_y: Seq<u8>,
)
    requires
        x != y,
    ensures
        precedes(common.push(x) + after_x, common.push(y) + after_y) <==> x < y,
{
    let a = common.push(x) + after_x;
    let b = common.push(y) + after_y;
    let n = common.len() as int;
    assert(a[n] == x && b[n] == y);
    assert(forall|i: int| 0 <= i < n ==> a[i] == b[i]);
    if x < y {
        assert(precedes_at(a, b, n));
    }
    if precedes(a, b) {
        let k = choose|k: int| precedes_at(a, b, k);
        assert(k >= n);
        assert(k <= n);
    }
}

/// A byte string comes before every longer one that starts with it, and never after it.
pub proof fn what_a_string_starts_with_comes_first(a: Seq<u8>, rest: Seq<u8>)
    requires
        rest.len() > 0,
    ensures
        precedes(a, a + rest),
        !precedes(a + rest, a),
{
    let longer = a + rest;
    assert(precedes_at(a, longer, a.len() as int));
    if precedes(longer, a) {
        precedes_transitive(a, longer, a);
        precedes_irreflexive(a);
    }
}

/// Of two byte strings that agree before `k`, one comes first or they are the same.
proof fn ordered_from(a: Seq<u8>, b: Seq<u8>, k: int)
    requires
        0 <= k <= a.len(),
        k <= b.len(),
        forall|i: int| 0 <= i < k ==> a[i] == b[i],
    ensures
        a == b || precedes(a, b) || precedes(b, a),
    decreases a.len() - k,
{
    if k == a.len() && k == b.len() {
        assert(a =~= b);
    } else if k == a.len() || (k < b.len() && a[k] < b[k]) {
        assert(precedes_at(a, b, k));
    } else if k == b.len() || b[k] < a[k] {
        assert(precedes_at(b, a, k));
    } else {
        ordered_from(a, b, k + 1);
    }
}

/// Of two different byte strings exactly one comes first.
pub proof fn different_strings_are_ordered(a: Seq<u8>, b: Seq<u8>)
    requires
        a != b,
    ensures
        precedes(a, b) != precedes(b, a),
{
    ordered_from(a, b, 0);
    if precedes(a, b) && precedes(b, a) {
        precedes_transitive(a, b, a);
        precedes_irreflexive(a);
    }
}

} // verus!
