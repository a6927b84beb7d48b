//! Key ranges over encoded full keys, held in shared byte buffers.
//!
//! An encoded full key ends with the eight bytes of its epoch; what stands
//! before them is the user key. Encoded keys are ordered by user key, and for
//! one user key from the newest epoch to the oldest.

use crate::key::{
    FullKeyView, be32_bytes, be64_bytes, bytes_equal, bytes_less, bytes_lt, encode_spec,
    full_key_lt,
};
use crate::task::{KeyRangeView, RawKeyRange};
use bytes::Bytes;
use vstd::prelude::*;

verus! {

/// `bytes::Bytes`, a byte buffer that is cheap to clone. Nothing inside it is
/// visible to the verifier; what it holds goes by the name `bytes_contents`.
#[verifier::external_type_specification]
#[verifier::external_body]
pub struct ExBytes(bytes::Bytes);

/// The bytes that a buffer holds, in order.
pub uninterp spec fn bytes_contents(b: Bytes) -> Seq<u8>;

/// `Bytes::copy_from_slice` copies the slice into a new buffer: the buffer
/// holds the bytes of the slice.
pub assume_specification[ Bytes::copy_from_slice ](data: &[u8]) -> (b: Bytes)
    ensures
        bytes_contents(b) == data@,
;

/// `Bytes::clone` gives a second handle on the same bytes.
pub assume_specification[ <Bytes as Clone>::clone ](b: &Bytes) -> (c: Bytes)
    ensures
        bytes_contents(c) == bytes_contents(*b),
;

/// `Bytes::as_ref` lends the bytes that the buffer holds.
pub assume_specification[ <Bytes as AsRef<[u8]>>::as_ref ](b: &Bytes) -> (s: &[u8])
    ensures
        s@ == bytes_contents(*b),
;

/// Where the epoch of an encoded key begins.
pub open spec fn epoch_offset(k: Seq<u8>) -> int {
    if k.len() >= 8 {
        k.len() - 8
    } else {
        0
    }
}

/// The user key of an encoded key.
pub open spec fn user_part(k: Seq<u8>) -> Seq<u8> {
    k.subrange(0, epoch_offset(k))
}

/// The epoch bytes of an encoded key.
pub open spec fn epoch_part(k: Seq<u8>) -> Seq<u8> {
    k.subrange(epoch_offset(k), k.len() as int)
}

/// Whether encoded key `a` comes strictly before encoded key `b`.
pub open spec fn encoded_lt(a: Seq<u8>, b: Seq<u8>) -> bool {
    bytes_lt(user_part(a), user_part(b)) || (user_part(a) == user_part(b) && bytes_lt(
        epoch_part(b),
        epoch_part(a),
    ))
}

/// Compares two encoded full keys.
pub fn encoded_less(a: &[u8], b: &[u8]) -> (r: bool)
    ensures
        r == encoded_lt(a@, b@),
{
    let a_mid: usize = if a.len() >= 8 {
        a.len() - 8
    } else {
        0
    };
    let b_mid: usize = if b.len() >= 8 {
        b.len() - 8
    } else {
        0
    };
    let (a_user, a_epoch) = a.split_at(a_mid);
    let (b_user, b_epoch) = b.split_at(b_mid);
    if bytes_less(a_user, b_user) {
        true
    } else if bytes_equal(a_user, b_user) {
        bytes_less(b_epoch, a_epoch)
    } else {
        false
    }
}

impl KeyRangeView {
    /// Whether the range has no bound on the left.
    pub open spec fn start_bound_inf(self) -> bool {
        self.left.len() == 0
    }

    /// Whether the range has no bound on the right.
    pub open spec fn end_bound_inf(self) -> bool {
        self.right.len() == 0
    }

    /// Whether `key` is not beyond the right bound.
    pub open spec fn reaches(self, key: Seq<u8>) -> bool {
        self.end_bound_inf() || if self.right_exclusive {
            encoded_lt(key, self.right)
        } else {
            !encoded_lt(self.right, key)
        }
    }

    /// Whether `key` is not before the left bound.
    pub open spec fn begins_by(self, key: Seq<u8>) -> bool {
        self.start_bound_inf() || !encoded_lt(key, self.left)
    }

    /// Whether `key` lies in the range.
    pub open spec fn contains(self, key: Seq<u8>) -> bool {
        self.begins_by(key) && self.reaches(key)
    }

    /// Whether the two ranges intersect: each begins before the other ends.
    pub open spec fn overlaps(self, other: KeyRangeView) -> bool {
        (other.start_bound_inf() || self.reaches(other.left)) && (self.start_bound_inf()
            || other.reaches(self.left))
    }
}

/// The order on encoded keys is a strict total order.
pub proof fn lemma_encoded_order_is_total(a: Seq<u8>, b: Seq<u8>, c: Seq<u8>)
    ensures
        !encoded_lt(a, a),
        encoded_lt(a, b) ==> !encoded_lt(b, a),
        encoded_lt(a, b) || encoded_lt(b, a) || a == b,
        encoded_lt(a, b) && encoded_lt(b, c) ==> encoded_lt(a, c),
        !encoded_lt(b, a) && encoded_lt(b, c) ==> encoded_lt(a, c),
        encoded_lt(a, b) && !encoded_lt(c, b) ==> encoded_lt(a, c),
        !encoded_lt(b, a) && !encoded_lt(c, b) ==> !encoded_lt(c, a),
{
    lemma_pair_order(user_part(a), epoch_part(a), user_part(b), epoch_part(b), user_part(c), epoch_part(c));
    lemma_pair_order(user_part(b), epoch_part(b), user_part(c), epoch_part(c), user_part(a), epoch_part(a));
    lemma_pair_order(user_part(c), epoch_part(c), user_part(a), epoch_part(a), user_part(b), epoch_part(b));
    lemma_pair_order(user_part(c), epoch_part(c), user_part(b), epoch_part(b), user_part(a), epoch_part(a));
    if user_part(a) == user_part(b) && epoch_part(a) == epoch_part(b) {
        assert(a =~= user_part(a) + epoch_part(a));
        assert(b =~= user_part(b) + epoch_part(b));
    }
}

/// Whether the pair `(u1, e1)` comes before `(u2, e2)`: by the first parts,
/// and by the second parts backwards where the first are equal.
spec fn pair_lt(u1: Seq<u8>, e1: Seq<u8>, u2: Seq<u8>, e2: Seq<u8>) -> bool {
    bytes_lt(u1, u2) || (u1 == u2 && bytes_lt(e2, e1))
}

proof fn lemma_pair_order(
    u1: Seq<u8>,
    e1: Seq<u8>,
    u2: Seq<u8>,
    e2: Seq<u8>,
    u3: Seq<u8>,
    e3: Seq<u8>,
)
    ensures
        !pair_lt(u1, e1, u1, e1),
        pair_lt(u1, e1, u2, e2) ==> !pair_lt(u2, e2, u1, e1),
        pair_lt(u1, e1, u2, e2) || pair_lt(u2, e2, u1, e1) || (u1 == u2 && e1 == e2),
        pair_lt(u1, e1, u2, e2) && pair_lt(u2, e2, u3, e3) ==> pair_lt(u1, e1, u3, e3),
        !pair_lt(u2, e2, u1, e1) && pair_lt(u2, e2, u3, e3) ==> pair_lt(u1, e1, u3, e3),
        pair_lt(u1, e1, u2, e2) && !pair_lt(u3, e3, u2, e2) ==> pair_lt(u1, e1, u3, e3),
        !pair_lt(u2, e2, u1, e1) && !pair_lt(u3, e3, u2, e2) ==> !pair_lt(u3, e3, u1, e1),
{
    lemma_bytes_order(u1, u2, u3);
    lemma_bytes_order(u2, u3, u1);
    lemma_bytes_order(u3, u1, u2);
    lemma_bytes_order(u3, u2, u1);
    lemma_bytes_order(e1, e2, e3);
    lemma_bytes_order(e2, e3, e1);
    lemma_bytes_order(e3, e1, e2);
    lemma_bytes_order(e3, e2, e1);
}

/// The order on byte strings is a strict total order.
proof fn lemma_bytes_order(a: Seq<u8>, b: Seq<u8>, c: Seq<u8>)
    ensures
        !bytes_lt(a, a),
        bytes_lt(a, b) ==> !bytes_lt(b, a),
        bytes_lt(a, b) || bytes_lt(b, a) || a == b,
        bytes_lt(a, b) && bytes_lt(b, c) ==> bytes_lt(a, c),
{
    crate::key::lemma_bytes_lt_irreflexive(a);
    crate::key::lemma_bytes_lt_total(a, b);
    if bytes_lt(a, b) {
        crate::key::lemma_bytes_lt_asymmetric(a, b);
        if bytes_lt(b, c) {
            crate::key::lemma_bytes_lt_transitive(a, b, c);
        }
    }
}

/// Two ranges that hold a common key intersect.
pub proof fn lemma_common_key_means_overlap(a: KeyRangeView, b: KeyRangeView, key: Seq<u8>)
    requires
        a.contains(key),
        b.contains(key),
    ensures
        a.overlaps(b),
        b.overlaps(a),
{
    lemma_encoded_order_is_total(b.left, key, a.right);
    lemma_encoded_order_is_total(a.left, key, b.right);
    lemma_encoded_order_is_total(a.right, b.left, key);
    lemma_encoded_order_is_total(b.right, a.left, key);
}

/// A key range whose bounds are shared byte buffers.
#[derive(Debug, PartialEq, Eq)]
pub struct KeyRange {
    pub left: Bytes,
    pub right: Bytes,
    pub right_exclusive: bool,
}

impl View for KeyRange {
    type V = KeyRangeView;

    open spec fn view(&self) -> KeyRangeView {
        KeyRangeView {
            left: bytes_contents(self.left),
            right: bytes_contents(self.right),
            right_exclusive: self.right_exclusive,
        }
    }
}

impl KeyRange {
    /// The range from `left` to `right`, both in.
    pub fn new(left: Bytes, right: Bytes) -> (r: KeyRange)
        ensures
            r@ == (KeyRangeView {
                left: bytes_contents(left),
                right: bytes_contents(right),
                right_exclusive: false,
            }),
    {
        KeyRange { left, right, right_exclusive: false }
    }

    /// The range of a descriptor, its bounds copied into buffers.
    pub fn from_raw(raw: &RawKeyRange) -> (r: KeyRange)
        ensures
            r@ == raw@,
    {
        KeyRange {
            left: Bytes::copy_from_slice(raw.get_left()),
            right: Bytes::copy_from_slice(raw.get_right()),
            right_exclusive: raw.right_exclusive,
        }
    }

    /// A second handle on the same range.
    pub fn duplicate(&self) -> (r: KeyRange)
        ensures
            r@ == self@,
    {
        KeyRange {
            left: self.left.clone(),
            right: self.right.clone(),
            right_exclusive: self.right_exclusive,
        }
    }

    pub fn start_bound_inf(&self) -> (r: bool)
        ensures
            r == self@.start_bound_inf(),
    {
        self.left.as_ref().len() == 0
    }

    pub fn end_bound_inf(&self) -> (r: bool)
        ensures
            r == self@.end_bound_inf(),
    {
        self.right.as_ref().len() == 0
    }

    /// Whether `key` is not beyond the right bound.
    pub fn reaches(&self, key: &[u8]) -> (r: bool)
        ensures
            r == self@.reaches(key@),
    {
        if self.end_bound_inf() {
            true
        } else if self.right_exclusive {
            encoded_less(key, self.right.as_ref())
        } else {
            !encoded_less(self.right.as_ref(), key)
        }
    }

    /// Whether the two ranges intersect.
    pub fn full_key_overlap(&self, other: &KeyRange) -> (r: bool)
        ensures
            r == self@.overlaps(other@),
    {
        (other.start_bound_inf() || self.reaches(other.left.as_ref())) && (self.start_bound_inf()
            || other.reaches(self.left.as_ref()))
    }
}


/// Two strings that begin with strings of one length are ordered by these,
/// and by what follows them where these are equal.
pub proof fn lemma_bytes_lt_concat(head: Seq<u8>, tail: Seq<u8>, other_head: Seq<u8>, other_tail: Seq<u8>)
    requires
        head.len() == other_head.len(),
    ensures
        bytes_lt(head + tail, other_head + other_tail) == (bytes_lt(head, other_head) || (head == other_head && bytes_lt(tail, other_tail))),
    decreases head.len(),
{
    if head.len() == 0 {
        assert(head + tail =~= tail);
        assert(other_head + other_tail =~= other_tail);
        assert(head =~= other_head);
    } else {
        let a = head + tail;
        let b = other_head + other_tail;
        assert(a[0] == head[0]);
        assert(b[0] == other_head[0]);
        assert(a.skip(1) =~= head.skip(1) + tail);
        assert(b.skip(1) =~= other_head.skip(1) + other_tail);
        lemma_bytes_lt_concat(head.skip(1), tail, other_head.skip(1), other_tail);
        if head[0] == other_head[0] && head.skip(1) == other_head.skip(1) {
            assert forall|i: int| 0 <= i < head.len() implies head[i] == other_head[i] by {
                if i > 0 {
                    assert(head[i] == head.skip(1)[i - 1]);
                    assert(other_head[i] == other_head.skip(1)[i - 1]);
                }
            }
            assert(head =~= other_head);
        }
    }
}

/// Single bytes are ordered as numbers.
proof fn lemma_byte_order(a: u8, b: u8)
    ensures
        bytes_lt(seq![a], seq![b]) == (a < b),
        (seq![a] == seq![b]) == (a == b),
{
    reveal_with_fuel(bytes_lt, 3);
    assert(seq![a].skip(1) =~= Seq::<u8>::empty());
    assert(seq![b].skip(1) =~= Seq::<u8>::empty());
    if seq![a] == seq![b] {
        assert(seq![a][0] == seq![b][0]);
    }
}

/// The four bytes of a number are ordered as the numbers.
pub proof fn lemma_be32_order(x: u32, y: u32)
    ensures
        bytes_lt(be32_bytes(x), be32_bytes(y)) == (x < y),
        (be32_bytes(x) == be32_bytes(y)) == (x == y),
{
    let a = be32_bytes(x);
    let b = be32_bytes(y);
    crate::key::lemma_be32_round_trip(x);
    crate::key::lemma_be32_round_trip(y);
    let a01 = seq![a[0]] + seq![a[1]];
    let a23 = seq![a[2]] + seq![a[3]];
    let b01 = seq![b[0]] + seq![b[1]];
    let b23 = seq![b[2]] + seq![b[3]];
    assert(a =~= a01 + a23);
    assert(b =~= b01 + b23);
    lemma_byte_order(a[0], b[0]);
    lemma_byte_order(a[1], b[1]);
    lemma_byte_order(a[2], b[2]);
    lemma_byte_order(a[3], b[3]);
    lemma_bytes_lt_concat(seq![a[0]], seq![a[1]], seq![b[0]], seq![b[1]]);
    lemma_bytes_lt_concat(seq![a[2]], seq![a[3]], seq![b[2]], seq![b[3]]);
    lemma_bytes_lt_concat(a01, a23, b01, b23);
    assert((a01 == b01) == (a[0] == b[0] && a[1] == b[1])) by {
        if a01 == b01 {
            assert(a01[0] == b01[0]);
            assert(a01[1] == b01[1]);
        } else if a[0] == b[0] && a[1] == b[1] {
            assert(a01 =~= b01);
        }
    }
}

/// The eight bytes of a number are ordered as the numbers.
pub proof fn lemma_be64_order(x: u64, y: u64)
    ensures
        bytes_lt(be64_bytes(x), be64_bytes(y)) == (x < y),
        (be64_bytes(x) == be64_bytes(y)) == (x == y),
{
    let xh = (x / 4294967296) as u32;
    let xl = (x % 4294967296) as u32;
    let yh = (y / 4294967296) as u32;
    let yl = (y % 4294967296) as u32;
    lemma_be32_order(xh, yh);
    lemma_be32_order(xl, yl);
    crate::key::lemma_be32_round_trip(xh);
    crate::key::lemma_be32_round_trip(yh);
    lemma_bytes_lt_concat(be32_bytes(xh), be32_bytes(xl), be32_bytes(yh), be32_bytes(yl));
    crate::key::lemma_be64_round_trip(x);
    crate::key::lemma_be64_round_trip(y);
}

/// The two parts of the encoding of a key.
proof fn lemma_encode_parts(a: FullKeyView)
    ensures
        user_part(encode_spec(a)) == be32_bytes(a.user_key.table_id) + a.user_key.table_key,
        epoch_part(encode_spec(a)) == be64_bytes(a.epoch),
{
    let ea = encode_spec(a);
    assert(be32_bytes(a.user_key.table_id).len() == 4);
    assert(be64_bytes(a.epoch).len() == 8);
    assert(user_part(ea) =~= be32_bytes(a.user_key.table_id) + a.user_key.table_key);
    assert(epoch_part(ea) =~= be64_bytes(a.epoch));
}

/// Two user keys are spelled alike only where they are the same.
proof fn lemma_user_bytes_injective(ia: Seq<u8>, ka: Seq<u8>, ib: Seq<u8>, kb: Seq<u8>)
    requires
        ia.len() == ib.len(),
    ensures
        (ia + ka == ib + kb) == (ia == ib && ka == kb),
{
    if ia + ka == ib + kb {
        assert((ia + ka).subrange(0, ia.len() as int) =~= ia);
        assert((ib + kb).subrange(0, ib.len() as int) =~= ib);
        assert((ia + ka).subrange(ia.len() as int, (ia + ka).len() as int) =~= ka);
        assert((ib + kb).subrange(ib.len() as int, (ib + kb).len() as int) =~= kb);
    }
}

/// Encoded keys are ordered as the keys that they encode.
pub proof fn lemma_encoded_order(a: FullKeyView, b: FullKeyView)
    ensures
        encoded_lt(encode_spec(a), encode_spec(b)) == full_key_lt(a, b),
{
    let ia = be32_bytes(a.user_key.table_id);
    let ib = be32_bytes(b.user_key.table_id);
    lemma_encode_parts(a);
    lemma_encode_parts(b);
    lemma_be32_order(a.user_key.table_id, b.user_key.table_id);
    lemma_be64_order(b.epoch, a.epoch);
    assert(ia.len() == ib.len());
    lemma_bytes_lt_concat(ia, a.user_key.table_key, ib, b.user_key.table_key);
    lemma_user_bytes_injective(ia, a.user_key.table_key, ib, b.user_key.table_key);
}

} // verus!
