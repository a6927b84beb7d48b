//! Keys of the storage engine and their order.
//!
//! A user key is a table id and a byte string; a full key adds the epoch of the
//! write. Full keys are ordered by user key, and for one user key from the
//! newest epoch to the oldest.

use crate::seqs::copy_slice;
use vstd::prelude::*;

verus! {

/// Epoch of a write; larger is newer.
pub type HummockEpoch = u64;

/// The epoch that stands for "never".
pub const MAX_EPOCH: u64 = 0xffff_ffff_ffff_ffff;

/// Whether byte string `a` comes strictly before `b` in lexicographic order.
pub open spec fn bytes_lt(a: Seq<u8>, b: Seq<u8>) -> bool
    decreases a.len(),
{
    if b.len() == 0 {
        false
    } else if a.len() == 0 {
        true
    } else if a[0] != b[0] {
        a[0] < b[0]
    } else {
        bytes_lt(a.skip(1), b.skip(1))
    }
}

/// No byte string comes before itself.
pub proof fn lemma_bytes_lt_irreflexive(a: Seq<u8>)
    ensures
        !bytes_lt(a, a),
    decreases a.len(),
{
    if a.len() > 0 {
        lemma_bytes_lt_irreflexive(a.skip(1));
    }
}

/// Two different byte strings are ordered one way or the other.
pub proof fn lemma_bytes_lt_total(a: Seq<u8>, b: Seq<u8>)
    ensures
        bytes_lt(a, b) || bytes_lt(b, a) || a == b,
    decreases a.len(),
{
    if a.len() == 0 || b.len() == 0 {
        if a.len() == 0 && b.len() == 0 {
            assert(a =~= b);
        }
    } else if a[0] == b[0] {
        lemma_bytes_lt_total(a.skip(1), b.skip(1));
        if a.skip(1) == b.skip(1) {
            assert forall|i: int| 0 <= i < a.len() implies a[i] == b[i] by {
                if i > 0 {
                    assert(a[i] == a.skip(1)[i - 1]);
                    assert(b[i] == b.skip(1)[i - 1]);
                }
            }
            assert(a.len() == a.skip(1).len() + 1);
            assert(b.len() == b.skip(1).len() + 1);
            assert(a =~= b);
        }
    }
}

/// The order on byte strings is asymmetric.
pub proof fn lemma_bytes_lt_asymmetric(a: Seq<u8>, b: Seq<u8>)
    requires
        bytes_lt(a, b),
    ensures
        !bytes_lt(b, a),
    decreases a.len(),
{
    if a.len() > 0 && b.len() > 0 && a[0] == b[0] {
        lemma_bytes_lt_asymmetric(a.skip(1), b.skip(1));
    }
}

/// The order on byte strings is transitive.
pub proof fn lemma_bytes_lt_transitive(a: Seq<u8>, b: Seq<u8>, c: Seq<u8>)
    requires
        bytes_lt(a, b),
        bytes_lt(b, c),
    ensures
        bytes_lt(a, c),
    decreases a.len(),
{
    if a.len() > 0 && b.len() > 0 && c.len() > 0 {
        if a[0] == b[0] && b[0] == c[0] {
            lemma_bytes_lt_transitive(a.skip(1), b.skip(1), c.skip(1));
        }
    }
}

/// Compares two byte strings lexicographically.
pub fn bytes_less(a: &[u8], b: &[u8]) -> (r: bool)
    ensures
        r == bytes_lt(a@, b@),
{
    let mut i: usize = 0;
    proof {
        assert(a@.skip(0) =~= a@);
        assert(b@.skip(0) =~= b@);
    }
    while i < a.len() && i < b.len()
        invariant
            i <= a.len(),
            i <= b.len(),
            bytes_lt(a@, b@) == bytes_lt(a@.skip(i as int), b@.skip(i as int)),
        decreases a.len() - i,
    {
        if a[i] != b[i] {
            return a[i] < b[i];
        }
        proof {
            assert(a@.skip(i as int).skip(1) =~= a@.skip(i + 1));
            assert(b@.skip(i as int).skip(1) =~= b@.skip(i + 1));
        }
        i = i + 1;
    }
    i < b.len()
}

/// Tells whether two byte strings are the same.
pub fn bytes_equal(a: &[u8], b: &[u8]) -> (r: bool)
    ensures
        r == (a@ == b@),
{
    if a.len() != b.len() {
        return false;
    }
    let mut i: usize = 0;
    while i < a.len()
        invariant
            i <= a.len(),
            a.len() == b.len(),
            forall|j: int| 0 <= j < i ==> a@[j] == b@[j],
        decreases a.len() - i,
    {
        if a[i] != b[i] {
            return false;
        }
        i = i + 1;
    }
    proof {
        assert(a@ =~= b@);
    }
    true
}

/// What a user key is: a table id and the key inside that table.
pub struct UserKeyView {
    pub table_id: u32,
    pub table_key: Seq<u8>,
}

/// What a full key is: a user key and the epoch of the write.
pub struct FullKeyView {
    pub user_key: UserKeyView,
    pub epoch: u64,
}

/// User keys are ordered by table id, then by the key inside the table.
pub open spec fn user_key_lt(a: UserKeyView, b: UserKeyView) -> bool {
    a.table_id < b.table_id || (a.table_id == b.table_id && bytes_lt(a.table_key, b.table_key))
}

/// `a` is not after `b`.
pub open spec fn user_key_le(a: UserKeyView, b: UserKeyView) -> bool {
    !user_key_lt(b, a)
}

/// Full keys are ordered by user key; for one user key the newer epoch comes first.
pub open spec fn full_key_lt(a: FullKeyView, b: FullKeyView) -> bool {
    user_key_lt(a.user_key, b.user_key) || (a.user_key == b.user_key && a.epoch > b.epoch)
}

/// `a` is not after `b`.
pub open spec fn full_key_le(a: FullKeyView, b: FullKeyView) -> bool {
    !full_key_lt(b, a)
}

/// The order on user keys is a strict total order.
pub proof fn lemma_user_key_order(a: UserKeyView, b: UserKeyView, c: UserKeyView)
    ensures
        !user_key_lt(a, a),
        user_key_lt(a, b) ==> !user_key_lt(b, a),
        user_key_lt(a, b) || user_key_lt(b, a) || a == b,
        user_key_lt(a, b) && user_key_lt(b, c) ==> user_key_lt(a, c),
        user_key_le(a, b) && user_key_lt(b, c) ==> user_key_lt(a, c),
        user_key_lt(a, b) && user_key_le(b, c) ==> user_key_lt(a, c),
        user_key_le(a, b) && user_key_le(b, c) ==> user_key_le(a, c),
{
    lemma_bytes_lt_irreflexive(a.table_key);
    lemma_bytes_lt_total(a.table_key, b.table_key);
    lemma_bytes_lt_total(b.table_key, c.table_key);
    lemma_bytes_lt_total(a.table_key, c.table_key);
    if bytes_lt(a.table_key, b.table_key) {
        lemma_bytes_lt_asymmetric(a.table_key, b.table_key);
    }
    if bytes_lt(b.table_key, a.table_key) {
        lemma_bytes_lt_asymmetric(b.table_key, a.table_key);
    }
    if bytes_lt(b.table_key, c.table_key) {
        lemma_bytes_lt_asymmetric(b.table_key, c.table_key);
    }
    if bytes_lt(c.table_key, b.table_key) {
        lemma_bytes_lt_asymmetric(c.table_key, b.table_key);
    }
    if bytes_lt(a.table_key, b.table_key) && bytes_lt(b.table_key, c.table_key) {
        lemma_bytes_lt_transitive(a.table_key, b.table_key, c.table_key);
    }
    if bytes_lt(c.table_key, b.table_key) && bytes_lt(b.table_key, a.table_key) {
        lemma_bytes_lt_transitive(c.table_key, b.table_key, a.table_key);
    }
    if bytes_lt(c.table_key, a.table_key) && bytes_lt(a.table_key, b.table_key) {
        lemma_bytes_lt_transitive(c.table_key, a.table_key, b.table_key);
    }
    if bytes_lt(b.table_key, c.table_key) && bytes_lt(c.table_key, a.table_key) {
        lemma_bytes_lt_transitive(b.table_key, c.table_key, a.table_key);
    }
}

/// The order on full keys is a strict total order.
pub proof fn lemma_full_key_order(a: FullKeyView, b: FullKeyView, c: FullKeyView)
    ensures
        !full_key_lt(a, a),
        full_key_lt(a, b) ==> !full_key_lt(b, a),
        full_key_lt(a, b) || full_key_lt(b, a) || a == b,
        full_key_lt(a, b) && full_key_lt(b, c) ==> full_key_lt(a, c),
        full_key_le(a, b) && full_key_lt(b, c) ==> full_key_lt(a, c),
        full_key_lt(a, b) && full_key_le(b, c) ==> full_key_lt(a, c),
        full_key_le(a, b) && full_key_le(b, c) ==> full_key_le(a, c),
{
    lemma_user_key_order(a.user_key, b.user_key, c.user_key);
    lemma_user_key_order(b.user_key, c.user_key, a.user_key);
    lemma_user_key_order(c.user_key, a.user_key, b.user_key);
    lemma_user_key_order(c.user_key, b.user_key, a.user_key);
}

/// The key of a row as the user of a table sees it.
#[derive(Debug, PartialEq, Eq)]
pub struct UserKey {
    pub table_id: u32,
    pub table_key: Vec<u8>,
}

impl View for UserKey {
    type V = UserKeyView;

    open spec fn view(&self) -> UserKeyView {
        UserKeyView { table_id: self.table_id, table_key: self.table_key@ }
    }
}

impl UserKey {
    pub fn new(table_id: u32, table_key: Vec<u8>) -> (k: UserKey)
        ensures
            k@ == (UserKeyView { table_id, table_key: table_key@ }),
    {
        UserKey { table_id, table_key }
    }

    /// A copy of this key.
    pub fn duplicate(&self) -> (k: UserKey)
        ensures
            k@ == self@,
    {
        UserKey { table_id: self.table_id, table_key: copy_slice(self.table_key.as_slice()) }
    }

    /// Whether the two keys are the same.
    pub fn same(&self, other: &UserKey) -> (r: bool)
        ensures
            r == (self@ == other@),
    {
        self.table_id == other.table_id && bytes_equal(
            self.table_key.as_slice(),
            other.table_key.as_slice(),
        )
    }

    /// Whether this key comes strictly before `other`.
    pub fn less(&self, other: &UserKey) -> (r: bool)
        ensures
            r == user_key_lt(self@, other@),
    {
        if self.table_id != other.table_id {
            self.table_id < other.table_id
        } else {
            bytes_less(self.table_key.as_slice(), other.table_key.as_slice())
        }
    }
}

/// A user key together with the epoch at which it was written.
#[derive(Debug, PartialEq, Eq)]
pub struct FullKey {
    pub user_key: UserKey,
    pub epoch: u64,
}

impl View for FullKey {
    type V = FullKeyView;

    open spec fn view(&self) -> FullKeyView {
        FullKeyView { user_key: self.user_key@, epoch: self.epoch }
    }
}

impl FullKey {
    pub fn new(table_id: u32, table_key: Vec<u8>, epoch: u64) -> (k: FullKey)
        ensures
            k@ == (FullKeyView {
                user_key: UserKeyView { table_id, table_key: table_key@ },
                epoch,
            }),
    {
        FullKey { user_key: UserKey { table_id, table_key }, epoch }
    }

    /// The key of `user_key` at `epoch`.
    pub fn from_user_key(user_key: UserKey, epoch: u64) -> (k: FullKey)
        ensures
            k@ == (FullKeyView { user_key: user_key@, epoch }),
    {
        FullKey { user_key, epoch }
    }

    /// A copy of this key.
    pub fn duplicate(&self) -> (k: FullKey)
        ensures
            k@ == self@,
    {
        FullKey { user_key: self.user_key.duplicate(), epoch: self.epoch }
    }

    /// Whether the two keys are the same.
    pub fn same(&self, other: &FullKey) -> (r: bool)
        ensures
            r == (self@ == other@),
    {
        self.epoch == other.epoch && self.user_key.same(&other.user_key)
    }

    /// Whether this key comes strictly before `other`.
    pub fn less(&self, other: &FullKey) -> (r: bool)
        ensures
            r == full_key_lt(self@, other@),
    {
        if self.user_key.less(&other.user_key) {
            true
        } else if self.user_key.same(&other.user_key) {
            self.epoch > other.epoch
        } else {
            false
        }
    }
}


/// The number that four bytes spell, the first byte weighing most.
pub open spec fn be32(b: Seq<u8>) -> int {
    ((b[0] * 256 + b[1]) * 256 + b[2]) * 256 + b[3]
}

/// The number that eight bytes spell, the first byte weighing most.
pub open spec fn be64(b: Seq<u8>) -> int {
    be32(b.subrange(0, 4)) * 4294967296 + be32(b.subrange(4, 8))
}

/// The four bytes that spell `x`, the first byte weighing most.
pub open spec fn be32_bytes(x: u32) -> Seq<u8> {
    seq![
        (x / 16777216) as u8,
        (x / 65536 % 256) as u8,
        (x / 256 % 256) as u8,
        (x % 256) as u8,
    ]
}

/// The eight bytes that spell `x`, the first byte weighing most.
pub open spec fn be64_bytes(x: u64) -> Seq<u8> {
    be32_bytes((x / 4294967296) as u32) + be32_bytes((x % 4294967296) as u32)
}

/// The encoding of a full key: the table id in four bytes, the table key,
/// the epoch in eight bytes.
pub open spec fn encode_spec(k: FullKeyView) -> Seq<u8> {
    be32_bytes(k.user_key.table_id) + k.user_key.table_key + be64_bytes(k.epoch)
}

/// The full key that `b` encodes; none where `b` is too short for a table id
/// and an epoch.
pub open spec fn decode_spec(b: Seq<u8>) -> Option<FullKeyView> {
    if b.len() < 12 {
        None
    } else {
        Some(
            FullKeyView {
                user_key: UserKeyView {
                    table_id: be32(b.subrange(0, 4)) as u32,
                    table_key: b.subrange(4, b.len() - 8),
                },
                epoch: be64(b.subrange(b.len() - 8, b.len() as int)) as u64,
            },
        )
    }
}

/// Four bytes spell the number that they were made of.
pub proof fn lemma_be32_round_trip(x: u32)
    ensures
        be32(be32_bytes(x)) == x,
        be32_bytes(x).len() == 4,
{
}

/// Eight bytes spell the number that they were made of.
pub proof fn lemma_be64_round_trip(x: u64)
    ensures
        be64(be64_bytes(x)) == x,
        be64_bytes(x).len() == 8,
{
    let hi = (x / 4294967296) as u32;
    let lo = (x % 4294967296) as u32;
    lemma_be32_round_trip(hi);
    lemma_be32_round_trip(lo);
    assert(be64_bytes(x).subrange(0, 4) =~= be32_bytes(hi));
    assert(be64_bytes(x).subrange(4, 8) =~= be32_bytes(lo));
}

/// Decoding the encoding of a key gives the key.
pub proof fn lemma_decode_encode(k: FullKeyView)
    ensures
        decode_spec(encode_spec(k)) == Some(k),
{
    let b = encode_spec(k);
    lemma_be32_round_trip(k.user_key.table_id);
    lemma_be64_round_trip(k.epoch);
    assert(b.subrange(0, 4) =~= be32_bytes(k.user_key.table_id));
    assert(b.subrange(4, b.len() - 8) =~= k.user_key.table_key);
    assert(b.subrange(b.len() - 8, b.len() as int) =~= be64_bytes(k.epoch));
}

/// The number that the four bytes from `at` on spell.
fn read_be32(b: &[u8], at: usize) -> (x: u32)
    requires
        at + 4 <= b@.len(),
    ensures
        x == be32(b@.subrange(at as int, at + 4)),
{
    let b0: u32 = b[at] as u32;
    let b1: u32 = b[at + 1] as u32;
    let b2: u32 = b[at + 2] as u32;
    let b3: u32 = b[at + 3] as u32;
    ((b0 * 256 + b1) * 256 + b2) * 256 + b3
}

/// Appends the four bytes that spell `x`.
fn write_be32(out: &mut Vec<u8>, x: u32)
    ensures
        final(out)@ == old(out)@ + be32_bytes(x),
{
    out.push((x / 16777216) as u8);
    out.push((x / 65536 % 256) as u8);
    out.push((x / 256 % 256) as u8);
    out.push((x % 256) as u8);
    proof {
        assert(final(out)@ =~= old(out)@ + be32_bytes(x));
    }
}

impl FullKey {
    /// The encoding of this key.
    pub fn encode(&self) -> (b: Vec<u8>)
        ensures
            b@ == encode_spec(self@),
    {
        let mut b: Vec<u8> = Vec::new();
        write_be32(&mut b, self.user_key.table_id);
        let mut i: usize = 0;
        while i < self.user_key.table_key.len()
            invariant
                i <= self.user_key.table_key.len(),
                b@ == be32_bytes(self.user_key.table_id) + self.user_key.table_key@.take(i as int),
            decreases self.user_key.table_key.len() - i,
        {
            b.push(self.user_key.table_key[i]);
            proof {
                crate::seqs::lemma_take_step(self.user_key.table_key@, i as int);
                assert(b@ =~= be32_bytes(self.user_key.table_id) + self.user_key.table_key@.take(
                    i + 1,
                ));
            }
            i = i + 1;
        }
        proof {
            crate::seqs::lemma_take_all(self.user_key.table_key@);
        }
        write_be32(&mut b, (self.epoch / 4294967296) as u32);
        write_be32(&mut b, (self.epoch % 4294967296) as u32);
        proof {
            assert(b@ =~= encode_spec(self@));
        }
        b
    }

    /// The key that `b` encodes; none where `b` is too short for a table id
    /// and an epoch.
    pub fn decode(b: &[u8]) -> (k: Option<FullKey>)
        ensures
            match k {
                Some(key) => decode_spec(b@) == Some(key@),
                None => decode_spec(b@) is None,
            },
    {
        if b.len() < 12 {
            return None;
        }
        let table_id = read_be32(b, 0);
        let end = b.len() - 8;
        let mut table_key: Vec<u8> = Vec::new();
        let mut i: usize = 4;
        while i < end
            invariant
                4 <= i <= end,
                end == b@.len() - 8,
                table_key@ == b@.subrange(4, i as int),
            decreases end - i,
        {
            table_key.push(b[i]);
            proof {
                assert(table_key@ =~= b@.subrange(4, i + 1));
            }
            i = i + 1;
        }
        let hi: u64 = read_be32(b, end) as u64;
        let lo: u64 = read_be32(b, end + 4) as u64;
        proof {
            let tail = b@.subrange(b@.len() - 8, b@.len() as int);
            assert(tail.subrange(0, 4) =~= b@.subrange(end as int, end + 4));
            assert(tail.subrange(4, 8) =~= b@.subrange(end + 4, end + 8));
        }
        Some(FullKey { user_key: UserKey { table_id, table_key }, epoch: hi * 4294967296 + lo })
    }
}

} // verus!
