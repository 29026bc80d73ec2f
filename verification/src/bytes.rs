//! Byte strings: the `ByteBuf` buffer that holds them and the order that
//! dictionary keys are kept in.

use serde_bytes::ByteBuf;
use vstd::prelude::*;

verus! {

/// `serde_bytes::ByteBuf`, an owned byte buffer. Verus sees nothing inside it;
/// what it holds is named by [`byte_buf_bytes`].
#[verifier::external_type_specification]
#[verifier::external_body]
pub struct ExByteBuf(ByteBuf);

/// The bytes that a `ByteBuf` holds, in order.
pub uninterp spec fn byte_buf_bytes(buf: ByteBuf) -> Seq<u8>;

/// `<ByteBuf as Clone>::clone`, which is derived: the copy wraps a clone of
/// the wrapped vector, so it holds the same bytes.
pub assume_specification[ <ByteBuf as Clone>::clone ](buf: &ByteBuf) -> (copy: ByteBuf)
    ensures
        byte_buf_bytes(copy) == byte_buf_bytes(*buf),
;

/// `ByteBuf::from` on a `Vec<u8>`: the vector is moved into the buffer
/// unchanged, so the buffer holds exactly the vector's bytes.
#[verifier::external_body]
pub(crate) fn byte_buf_from_vec(bytes: Vec<u8>) -> (buf: ByteBuf)
    ensures
        byte_buf_bytes(buf) == bytes@,
{
    ByteBuf::from(bytes)
}

/// `<ByteBuf as AsRef<[u8]>>::as_ref`: borrows the wrapped vector as a slice,
/// so the slice shows exactly the bytes that the buffer holds.
#[verifier::external_body]
pub(crate) fn byte_buf_as_slice(buf: &ByteBuf) -> (bytes: &[u8])
    ensures
        bytes@ == byte_buf_bytes(*buf),
{
    buf.as_ref()
}

/// How one byte string stands to another in lexicographic order.
#[derive(Clone, Copy, Debug, PartialEq, Eq, Structural)]
pub enum KeyOrder {
    Less,
    Equal,
    Greater,
}

/// Lexicographic "less than" on the parts of `a` and `b` from index `i` on,
/// given that they agree before `i`: the first differing byte decides, and a
/// string that ends first is the smaller.
pub open spec fn bytes_lt_from(a: Seq<u8>, b: Seq<u8>, i: int) -> bool
    decreases a.len() - i,
{
    if i >= b.len() {
        false
    } else if i >= a.len() {
        true
    } else if a[i] != b[i] {
        a[i] < b[i]
    } else {
        bytes_lt_from(a, b, i + 1)
    }
}

/// Byte-lexicographic "less than", the order of dictionary keys.
pub open spec fn bytes_lt(a: Seq<u8>, b: Seq<u8>) -> bool {
    bytes_lt_from(a, b, 0)
}

/// What [`compare_bytes`] returns for `a` against `b`.
pub open spec fn key_order(a: Seq<u8>, b: Seq<u8>) -> KeyOrder {
    if a == b {
        KeyOrder::Equal
    } else if bytes_lt(a, b) {
        KeyOrder::Less
    } else {
        KeyOrder::Greater
    }
}

proof fn lemma_lt_from_irreflexive(a: Seq<u8>, i: int)
    requires
        0 <= i,
    ensures
        !bytes_lt_from(a, a, i),
    decreases a.len() - i,
{
    if i < a.len() {
        lemma_lt_from_irreflexive(a, i + 1);
    }
}

proof fn lemma_lt_from_transitive(a: Seq<u8>, b: Seq<u8>, c: Seq<u8>, i: int)
    requires
        0 <= i,
        bytes_lt_from(a, b, i),
        bytes_lt_from(b, c, i),
    ensures
        bytes_lt_from(a, c, i),
    decreases a.len() - i,
{
    if i < a.len() && i < b.len() && i < c.len() && a[i] == b[i] && b[i] == c[i] {
        lemma_lt_from_transitive(a, b, c, i + 1);
    }
}

proof fn lemma_lt_from_total(a: Seq<u8>, b: Seq<u8>, i: int)
    requires
        0 <= i <= a.len(),
        i <= b.len(),
        a.take(i) == b.take(i),
    ensures
        a == b || bytes_lt_from(a, b, i) || bytes_lt_from(b, a, i),
        !(bytes_lt_from(a, b, i) && bytes_lt_from(b, a, i)),
    decreases a.len() - i,
{
    if i < a.len() && i < b.len() {
        if a[i] == b[i] {
            assert(a.take(i + 1) =~= a.take(i).push(a[i]));
            assert(b.take(i + 1) =~= b.take(i).push(b[i]));
            lemma_lt_from_total(a, b, i + 1);
        }
    } else if i == a.len() && i == b.len() {
        assert(a =~= a.take(i));
        assert(b =~= b.take(i));
    }
}

/// No byte string is less than itself.
pub proof fn lemma_bytes_lt_irreflexive(a: Seq<u8>)
    ensures
        !bytes_lt(a, a),
{
    lemma_lt_from_irreflexive(a, 0);
}

/// If `a` is less than `b` and `b` is less than `c`, then `a` is less than `c`.
pub proof fn lemma_bytes_lt_transitive(a: Seq<u8>, b: Seq<u8>, c: Seq<u8>)
    requires
        bytes_lt(a, b),
        bytes_lt(b, c),
    ensures
        bytes_lt(a, c),
{
    lemma_lt_from_transitive(a, b, c, 0);
}

/// Of two byte strings exactly one holds: they are equal, the first is less,
/// or the second is less.
pub proof fn lemma_bytes_lt_total(a: Seq<u8>, b: Seq<u8>)
    ensures
        a == b || bytes_lt(a, b) || bytes_lt(b, a),
        !(bytes_lt(a, b) && bytes_lt(b, a)),
        a == b ==> !bytes_lt(a, b) && !bytes_lt(b, a),
{
    assert(a.take(0) =~= b.take(0));
    lemma_lt_from_total(a, b, 0);
    lemma_bytes_lt_irreflexive(a);
}

/// Compares two byte strings in byte-lexicographic order.
pub fn compare_bytes(a: &[u8], b: &[u8]) -> (order: KeyOrder)
    ensures
        order == key_order(a@, b@),
        order is Less <==> bytes_lt(a@, b@),
        order is Equal <==> a@ == b@,
        order is Greater <==> bytes_lt(b@, a@),
{
    proof {
        lemma_bytes_lt_total(a@, b@);
    }
    let mut i: usize = 0;
    while i < a.len() && i < b.len()
        invariant
            i <= a.len(),
            i <= b.len(),
            a@.take(i as int) == b@.take(i as int),
            bytes_lt(a@, b@) == bytes_lt_from(a@, b@, i as int),
        decreases a.len() - i,
    {
        if a[i] != b[i] {
            proof {
                assert(a@ != b@);
                lemma_bytes_lt_total(a@, b@);
            }
            if a[i] < b[i] {
                return KeyOrder::Less;
            } else {
                return KeyOrder::Greater;
            }
        }
        proof {
            assert(a@.take(i + 1) =~= a@.take(i as int).push(a@[i as int]));
            assert(b@.take(i + 1) =~= b@.take(i as int).push(b@[i as int]));
        }
        i += 1;
    }
    if i < b.len() {
        KeyOrder::Less
    } else if i < a.len() {
        KeyOrder::Greater
    } else {
        proof {
            assert(a@ =~= a@.take(i as int));
            assert(b@ =~= b@.take(i as int));
        }
        KeyOrder::Equal
    }
}

} // verus!
