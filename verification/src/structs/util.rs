//! The 160-bit identifier and its algebra.
//!
//! An identifier is twenty bytes read as one big-endian number. Its order
//! is that of the numbers, and the distance between two identifiers is the
//! number that their byte-wise XOR stands for.

use crate::structs::error::InvalidHashIdError;
use crate::structs::hexcode::{decode_hex, encode_hex, hex_decoding, hex_encoding, is_hex};
use std::cmp::Ordering;
use vstd::prelude::*;

verus! {

/// The number that a sequence of bytes stands for, most significant first.
pub open spec fn big_endian(bytes: Seq<u8>) -> nat
    decreases bytes.len(),
{
    if bytes.len() == 0 {
        0
    } else {
        big_endian(bytes.drop_last()) * 256 + bytes.last() as nat
    }
}

/// The byte-wise XOR of two sequences of one length.
pub open spec fn xor_bytes(a: Seq<u8>, b: Seq<u8>) -> Seq<u8> {
    Seq::new(a.len(), |i: int| a[i] ^ b[i])
}

/// The order of two numbers, as an `Ordering`.
pub open spec fn order_of(a: nat, b: nat) -> Ordering {
    if a < b {
        Ordering::Less
    } else if a == b {
        Ordering::Equal
    } else {
        Ordering::Greater
    }
}

/// The identifier that forty hexadecimal digits stand for, and none for
/// any other text.
pub open spec fn parsed(text: Seq<char>) -> Option<HashId> {
    if is_hex(text) && text.len() == 40 {
        Some(choose|id: HashId| id@ == hex_decoding(text))
    } else {
        None
    }
}

/// A 160-bit identifier of a node or of a torrent.
#[derive(Copy, Clone, Debug, Eq)]
pub struct HashId {
    pub hash: [u8; 20],
}

impl View for HashId {
    type V = Seq<u8>;

    open spec fn view(&self) -> Seq<u8> {
        self.hash@
    }
}

/// The two identifiers hold the same bytes before position `n`.
pub open spec fn agree_before(a: HashId, b: HashId, n: usize) -> bool {
    forall|j: int| 0 <= j < n ==> a@[j] == b@[j]
}

/// The two identifiers first differ at position `n`, where `a` is smaller.
pub open spec fn smaller_at(a: HashId, b: HashId, n: usize) -> bool {
    &&& n < 20
    &&& agree_before(a, b, n)
    &&& a@[n as int] < b@[n as int]
}

impl HashId {
    /// The identifier as a number below 2^160.
    pub open spec fn value(&self) -> nat {
        big_endian(self@)
    }

    /// The XOR distance between two identifiers, as a number.
    pub open spec fn distance_to(&self, other: HashId) -> nat {
        big_endian(xor_bytes(self@, other@))
    }

    /// The identifier whose bytes are all zero.
    pub open spec fn zero() -> HashId {
        HashId { hash: vstd::array::spec_array_fill_for_copy_type::<u8, 20>(0u8) }
    }

    /// The largest identifier, whose bytes are all `0xFF`.
    pub open spec fn max() -> HashId {
        HashId { hash: vstd::array::spec_array_fill_for_copy_type::<u8, 20>(255u8) }
    }

    /// The identifier of these twenty bytes.
    pub fn new(hash: [u8; 20]) -> (id: HashId)
        ensures
            id.hash == hash,
    {
        HashId { hash }
    }

    /// Reads an identifier from its forty hexadecimal digits, of either case.
    pub fn from_str(input: String) -> (r: Result<HashId, InvalidHashIdError>)
        ensures
            r is Ok <==> is_hex(input@) && input@.len() == 40,
            r is Ok ==> r.unwrap()@ == hex_decoding(input@),
            r is Ok <==> parsed(input@) is Some,
            r is Ok ==> parsed(input@) == Some(r.unwrap()),
    {
        let vec = match decode_hex(&input) {
            Ok(vec) => vec,
            Err(_e) => return Err(InvalidHashIdError {}),
        };
        if vec.len() != 20 {
            return Err(InvalidHashIdError {});
        }
        let mut hash = [0u8; 20];
        let mut i: usize = 0;
        while i < 20
            invariant
                i <= 20,
                vec@.len() == 20,
                forall|j: int| 0 <= j < i ==> hash@[j] == vec@[j],
            decreases 20 - i,
        {
            hash[i] = vec[i];
            i += 1;
        }
        assert(hash@ =~= vec@);
        let id = HashId { hash };
        proof {
            lemma_view_decides(parsed(input@).unwrap(), id);
        }
        Ok(id)
    }

    /// Writes the identifier as forty lower-case hexadecimal digits.
    pub fn to_str(&self) -> (text: String)
        ensures
            text@ == hex_encoding(self@),
            text@.len() == 40,
    {
        encode_hex(self.hash.as_slice())
    }

    /// The byte-wise XOR of two identifiers.
    pub fn xor(&self, other: &HashId) -> (r: HashId)
        ensures
            r@ == xor_bytes(self@, other@),
    {
        let mut result = [0u8; 20];
        let mut n: usize = 0;
        while n < 20
            invariant
                n <= 20,
                forall|j: int| 0 <= j < n ==> result@[j] == self@[j] ^ other@[j],
            decreases 20 - n,
        {
            result[n] = self.hash[n] ^ other.hash[n];
            n += 1;
        }
        assert(result@ =~= xor_bytes(self@, other@));
        HashId { hash: result }
    }

    /// Compares two identifiers byte by byte from the first, which orders
    /// them as the numbers they stand for.
    pub fn cmp(&self, other: &HashId) -> (r: Ordering)
        ensures
            r == order_of(self.value(), other.value()),
            r == Ordering::Equal <==> *self == *other,
    {
        let mut n: usize = 0;
        while n < 20
            invariant
                n <= 20,
                agree_before(*self, *other, n),
            decreases 20 - n,
        {
            if self.hash[n] > other.hash[n] {
                proof {
                    lemma_smaller_at(*other, *self, n);
                }
                return Ordering::Greater;
            }
            if self.hash[n] < other.hash[n] {
                proof {
                    lemma_smaller_at(*self, *other, n);
                }
                return Ordering::Less;
            }
            n += 1;
        }
        proof {
            lemma_agree_everywhere(*self, *other);
        }
        Ordering::Equal
    }

    /// Whether this identifier is at most `other`, as numbers.
    pub fn at_most(&self, other: &HashId) -> (r: bool)
        ensures
            r == (self.value() <= other.value()),
    {
        match self.cmp(other) {
            Ordering::Greater => false,
            _ => true,
        }
    }

    /// Whether this identifier is below `other`, as numbers.
    pub fn below(&self, other: &HashId) -> (r: bool)
        ensures
            r == (self.value() < other.value()),
    {
        match self.cmp(other) {
            Ordering::Less => true,
            _ => false,
        }
    }
}

/// Where two identifiers first differ, the smaller byte marks the smaller
/// number.
pub proof fn lemma_smaller_at(a: HashId, b: HashId, n: usize)
    requires
        smaller_at(a, b, n),
    ensures
        a.value() < b.value(),
        a != b,
{
    lemma_big_endian_order(a@, b@, n as int);
}

/// Identifiers that agree in every byte are one identifier.
pub proof fn lemma_agree_everywhere(a: HashId, b: HashId)
    requires
        agree_before(a, b, 20),
    ensures
        a == b,
{
    assert forall|i: int| 0 <= i < 20 implies a.hash[i] == b.hash[i] by {
        assert(a@[i] == b@[i]);
    }
    assert(a.hash =~= b.hash);
}

/// Identifiers of one view are one identifier.
pub proof fn lemma_view_decides(a: HashId, b: HashId)
    requires
        a@ == b@,
    ensures
        a == b,
{
    lemma_agree_everywhere(a, b);
}

/// Reading the hexadecimal form of an identifier gives the identifier.
pub proof fn lemma_parsed_hex(id: HashId)
    ensures
        parsed(hex_encoding(id@)) == Some(id),
{
    crate::structs::hexcode::lemma_hex_round_trip(id@);
    lemma_view_decides(parsed(hex_encoding(id@)).unwrap(), id);
}

proof fn lemma_big_endian_order(a: Seq<u8>, b: Seq<u8>, k: int)
    requires
        a.len() == b.len(),
        0 <= k < a.len(),
        forall|j: int| 0 <= j < k ==> a[j] == b[j],
        a[k] < b[k],
    ensures
        big_endian(a) < big_endian(b),
    decreases a.len(),
{
    if k == a.len() - 1 {
        assert(a.drop_last() =~= b.drop_last());
    } else {
        lemma_big_endian_order(a.drop_last(), b.drop_last(), k);
    }
}

/// A sequence of `n` bytes stands for a number below 256^n.
pub proof fn lemma_big_endian_bound(bytes: Seq<u8>)
    ensures
        big_endian(bytes) < vstd::arithmetic::power::pow(256, bytes.len()),
    decreases bytes.len(),
{
    reveal(vstd::arithmetic::power::pow);
    if bytes.len() > 0 {
        lemma_big_endian_bound(bytes.drop_last());
    }
}

/// Every identifier stands for a number below 2^160, which is 256^20.
pub proof fn lemma_value_in_space(id: HashId)
    ensures
        id.value() < vstd::arithmetic::power::pow(256, 20),
{
    lemma_big_endian_bound(id@);
}

/// The order of identifiers is total: two identifiers that stand for one
/// number are one identifier, so of `a < b`, `a == b` and `a > b` exactly
/// one holds.
pub proof fn lemma_order_total(a: HashId, b: HashId)
    ensures
        a.value() == b.value() <==> a == b,
{
    if a != b {
        let k = choose|k: int| 0 <= k < 20 && a@[k] != b@[k] && forall|j: int| 0 <= j < k ==> a@[j] == b@[j];
        if !(exists|k: int| 0 <= k < 20 && a@[k] != b@[k]) {
            lemma_agree_everywhere(a, b);
        }
        lemma_first_difference(a@, b@, 20);
    }
}

proof fn lemma_first_difference(a: Seq<u8>, b: Seq<u8>, n: int)
    requires
        0 <= n <= a.len(),
        a.len() == b.len(),
        exists|k: int| 0 <= k < n && a[k] != b[k],
    ensures
        exists|k: int|
            0 <= k < n && a[k] != b[k] && forall|j: int| 0 <= j < k ==> a[j] == b[j],
        n == a.len() ==> big_endian(a) != big_endian(b),
    decreases n,
{
    if exists|k: int| 0 <= k < n - 1 && a[k] != b[k] {
        lemma_first_difference(a, b, n - 1);
    } else {
        assert(a[n - 1] != b[n - 1]);
    }
    if n == a.len() {
        let k = choose|k: int|
            0 <= k < n && a[k] != b[k] && forall|j: int| 0 <= j < k ==> a[j] == b[j];
        if a[k] < b[k] {
            lemma_big_endian_order(a, b, k);
        } else {
            lemma_big_endian_order(b, a, k);
        }
    }
}

/// The distance of an identifier to itself is zero, and its XOR with zero
/// is the identifier.
pub proof fn lemma_xor_identities(x: HashId)
    ensures
        xor_bytes(x@, x@) == HashId::zero()@,
        xor_bytes(x@, HashId::zero()@) == x@,
        x.distance_to(x) == 0,
{
    assert forall|i: int| 0 <= i < 20 implies x@[i] ^ x@[i] == 0u8 && x@[i] ^ 0u8 == x@[i] by {
        let v = x@[i];
        assert(v ^ v == 0u8 && v ^ 0u8 == v) by (bit_vector);
    }
    assert(xor_bytes(x@, x@) =~= HashId::zero()@);
    assert(xor_bytes(x@, HashId::zero()@) =~= x@);
    lemma_big_endian_zero(HashId::zero()@);
}

proof fn lemma_big_endian_zero(bytes: Seq<u8>)
    requires
        forall|i: int| 0 <= i < bytes.len() ==> bytes[i] == 0,
    ensures
        big_endian(bytes) == 0,
    decreases bytes.len(),
{
    if bytes.len() > 0 {
        lemma_big_endian_zero(bytes.drop_last());
    }
}

/// Two identifiers are at distance zero exactly where they are one
/// identifier.
pub proof fn lemma_distance_zero(a: HashId, b: HashId)
    ensures
        a.distance_to(b) == 0 <==> a == b,
{
    let d = xor_bytes(a@, b@);
    if a == b {
        lemma_xor_identities(a);
    } else {
        if forall|j: int| 0 <= j < 20 ==> a@[j] == b@[j] {
            lemma_agree_everywhere(a, b);
        }
        let k = choose|k: int| 0 <= k < 20 && a@[k] != b@[k];
        let v = a@[k];
        let w = b@[k];
        assert(v != w ==> v ^ w != 0u8) by (bit_vector);
        assert(d[k] != 0);
        lemma_big_endian_positive(d, k);
    }
}

proof fn lemma_big_endian_positive(bytes: Seq<u8>, k: int)
    requires
        0 <= k < bytes.len(),
        bytes[k] != 0,
    ensures
        big_endian(bytes) > 0,
    decreases bytes.len(),
{
    if k < bytes.len() - 1 {
        lemma_big_endian_positive(bytes.drop_last(), k);
    }
}

/// The number that the XOR of two sequences stands for is at most the sum
/// of the numbers that the two stand for.
proof fn lemma_xor_at_most_sum(a: Seq<u8>, b: Seq<u8>)
    requires
        a.len() == b.len(),
    ensures
        big_endian(xor_bytes(a, b)) <= big_endian(a) + big_endian(b),
    decreases a.len(),
{
    if a.len() > 0 {
        lemma_xor_at_most_sum(a.drop_last(), b.drop_last());
        assert(xor_bytes(a, b).drop_last() =~= xor_bytes(a.drop_last(), b.drop_last()));
        let v = a.last();
        let w = b.last();
        assert((v ^ w) <= v + w) by (bit_vector);
        assert(xor_bytes(a, b).last() == v ^ w);
    }
}

/// The distance between two identifiers is at most the sum of their
/// distances to a third.
pub proof fn lemma_triangle(a: HashId, b: HashId, c: HashId)
    ensures
        a.distance_to(c) <= a.distance_to(b) + b.distance_to(c),
{
    let ab = xor_bytes(a@, b@);
    let bc = xor_bytes(b@, c@);
    assert forall|i: int| 0 <= i < 20 implies (a@[i] ^ b@[i]) ^ (b@[i] ^ c@[i]) == a@[i] ^ c@[i] by {
        let x = a@[i];
        let y = b@[i];
        let z = c@[i];
        assert((x ^ y) ^ (y ^ z) == x ^ z) by (bit_vector);
    }
    assert(xor_bytes(ab, bc) =~= xor_bytes(a@, c@));
    lemma_xor_at_most_sum(ab, bc);
}

/// XOR does not depend on the order of its operands.
pub proof fn lemma_xor_commutes(a: HashId, b: HashId)
    ensures
        xor_bytes(a@, b@) == xor_bytes(b@, a@),
        a.distance_to(b) == b.distance_to(a),
{
    assert forall|i: int| 0 <= i < 20 implies a@[i] ^ b@[i] == b@[i] ^ a@[i] by {
        let v = a@[i];
        let w = b@[i];
        assert(v ^ w == w ^ v) by (bit_vector);
    }
    assert(xor_bytes(a@, b@) =~= xor_bytes(b@, a@));
}

impl PartialEq for HashId {
    fn eq(&self, other: &Self) -> (r: bool) {
        match self.cmp(other) {
            Ordering::Equal => true,
            _ => false,
        }
    }
}

impl vstd::std_specs::cmp::PartialEqSpecImpl for HashId {
    open spec fn obeys_eq_spec() -> bool {
        true
    }

    open spec fn eq_spec(&self, other: &Self) -> bool {
        *self == *other
    }
}

impl PartialOrd for HashId {
    fn partial_cmp(&self, other: &Self) -> (r: Option<Ordering>) {
        Some(self.cmp(other))
    }
}

impl vstd::std_specs::cmp::PartialOrdSpecImpl for HashId {
    open spec fn obeys_partial_cmp_spec() -> bool {
        true
    }

    open spec fn partial_cmp_spec(&self, other: &Self) -> Option<Ordering> {
        Some(order_of(self.value(), other.value()))
    }
}

impl core::ops::BitXor for HashId {
    type Output = HashId;

    fn bitxor(self, other: HashId) -> (r: HashId) {
        let r = self.xor(&other);
        proof {
            let chosen = choose|c: HashId| c@ == xor_bytes(self@, other@);
            assert(chosen@ == r@);
            lemma_agree_everywhere(chosen, r);
        }
        r
    }
}

impl vstd::std_specs::ops::BitXorSpecImpl for HashId {
    open spec fn obeys_bitxor_spec() -> bool {
        true
    }

    open spec fn bitxor_req(self, other: HashId) -> bool {
        true
    }

    open spec fn bitxor_spec(self, other: HashId) -> HashId {
        choose|r: HashId| r@ == xor_bytes(self@, other@)
    }
}

} // verus!
