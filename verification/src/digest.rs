//! BLAKE3 digests and their hexadecimal and integer renderings.
use vstd::prelude::*;

verus! {

broadcast use vstd::array::group_array_axioms;

/// The 32-byte BLAKE3 digest of `bytes`.
pub uninterp spec fn blake3_digest(bytes: Seq<u8>) -> Seq<u8>;

/// `blake3::hash`: the digest of the input, 32 bytes long.
#[verifier::external_body]
pub(crate) fn blake3_hash(bytes: &[u8]) -> (d: Vec<u8>)
    ensures
        d@ == blake3_digest(bytes@),
        d@.len() == 32,
{
    blake3::hash(bytes).as_bytes().to_vec()
}

pub open spec fn hex_table() -> Seq<char> {
    seq!['0', '1', '2', '3', '4', '5', '6', '7', '8', '9', 'a', 'b', 'c', 'd', 'e', 'f']
}

/// Lowercase hexadecimal, two digits per byte, high nibble first.
pub open spec fn hex_seq(b: Seq<u8>) -> Seq<char>
    decreases b.len(),
{
    if b.len() == 0 {
        Seq::empty()
    } else {
        hex_seq(b.drop_last()) + seq![hex_table()[(b.last() / 16) as int], hex_table()[(b.last() % 16) as int]]
    }
}

/// Lowercase hexadecimal rendering of bytes.
pub fn to_hex(b: &[u8]) -> (s: Vec<char>)
    ensures
        s@ == hex_seq(b@),
{
    let table: [char; 16] = [
        '0', '1', '2', '3', '4', '5', '6', '7', '8', '9', 'a', 'b', 'c', 'd', 'e', 'f',
    ];
    assert(table@ =~= hex_table());
    let mut s: Vec<char> = Vec::new();
    let mut i: usize = 0;
    while i < b.len()
        invariant
            i <= b@.len(),
            table@ == hex_table(),
            s@ == hex_seq(b@.take(i as int)),
        decreases b@.len() - i,
    {
        let byte = b[i];
        s.push(table[(byte / 16) as usize]);
        s.push(table[(byte % 16) as usize]);
        proof {
            assert(b@.take(i + 1).drop_last() =~= b@.take(i as int));
            assert(b@.take(i + 1).last() == byte);
        }
        i = i + 1;
        assert(s@ =~= hex_seq(b@.take(i as int)));
    }
    assert(b@.take(b@.len() as int) =~= b@);
    s
}

/// The lowercase hexadecimal BLAKE3 digest of `bytes`, as `blake3::Hash::to_hex` renders it.
pub open spec fn blake3_hex(bytes: Seq<u8>) -> Seq<char> {
    hex_seq(blake3_digest(bytes))
}

/// The lowercase hexadecimal BLAKE3 digest of a byte string.
pub fn digest_hex(bytes: &[u8]) -> (s: String)
    ensures
        s@ == blake3_hex(bytes@),
{
    let d = blake3_hash(bytes);
    let hex = to_hex(d.as_slice());
    crate::text::string_of(hex.as_slice())
}

/// The little-endian integer that the first eight bytes encode.
pub open spec fn le_u64(b: Seq<u8>) -> nat
    decreases b.len(),
{
    if b.len() == 0 {
        0
    } else {
        b[0] as nat + 256 * le_u64(b.drop_first())
    }
}

} // verus!
