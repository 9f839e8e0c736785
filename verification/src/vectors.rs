//! Embedding vectors as they are stored: the bits of each component, in four bytes, the lowest
//! first.

use vstd::prelude::*;

verus! {

/// The bytes of a number, the lowest first.
pub open spec fn bytes_of(n: u32) -> Seq<u8> {
    seq![
        (n % 256) as u8,
        (n / 256 % 256) as u8,
        (n / 65536 % 256) as u8,
        (n / 16777216) as u8,
    ]
}

/// The number of four bytes, the lowest first.
pub open spec fn number_of(a: u8, b: u8, c: u8, d: u8) -> int {
    a + 256 * b + 65536 * c + 16777216 * d
}

/// The bytes of some numbers, one number after another.
pub open spec fn encoded(vector: Seq<u32>) -> Seq<u8>
    decreases vector.len(),
{
    if vector.len() == 0 {
        Seq::empty()
    } else {
        encoded(vector.drop_last()) + bytes_of(vector.last())
    }
}

/// The numbers of some bytes; bytes beyond the last whole number are left out.
pub open spec fn decoded(blob: Seq<u8>) -> Seq<u32> {
    Seq::new(
        blob.len() / 4,
        |i: int| number_of(blob[4 * i], blob[4 * i + 1], blob[4 * i + 2], blob[4 * i + 3]) as u32,
    )
}

/// The bytes of a vector, given the bits of its components.
pub fn encode_vector(vector: &[u32]) -> (r: Vec<u8>)
    ensures
        r@ == encoded(vector@),
{
    let mut out: Vec<u8> = Vec::new();
    for i in 0..vector.len()
        invariant
            out@ == encoded(vector@.take(i as int)),
    {
        let n = vector[i];
        let ghost before = out@;
        out.push((n % 256) as u8);
        out.push((n / 256 % 256) as u8);
        out.push((n / 65536 % 256) as u8);
        out.push((n / 16777216) as u8);
        proof {
            assert(vector@.take(i + 1).drop_last() =~= vector@.take(i as int));
            assert(out@ =~= before + bytes_of(n));
        }
    }
    assert(vector@.take(vector@.len() as int) =~= vector@);
    out
}

/// The bits of the components of a vector, given its bytes.
pub fn decode_vector(blob: &[u8]) -> (r: Vec<u32>)
    ensures
        r@ == decoded(blob@),
{
    let total = blob.len();
    let count = total / 4;
    let mut out: Vec<u32> = Vec::new();
    for i in 0..count
        invariant
            total == blob@.len(),
            count == total / 4,
            out@ == decoded(blob@).take(i as int),
    {
        let n = blob[4 * i] as u32 + 256 * (blob[4 * i + 1] as u32) + 65536 * (blob[4 * i
            + 2] as u32) + 16777216 * (blob[4 * i + 3] as u32);
        out.push(n);
        assert(decoded(blob@).take(i + 1) =~= decoded(blob@).take(i as int).push(n));
    }
    assert(decoded(blob@).take(count as int) =~= decoded(blob@));
    out
}

proof fn lemma_bytes(n: u32)
    ensures
        number_of(bytes_of(n)[0], bytes_of(n)[1], bytes_of(n)[2], bytes_of(n)[3]) == n,
{
}

/// A vector that was stored is read back unchanged.
pub proof fn law_vector_read_back(vector: Seq<u32>)
    ensures
        decoded(encoded(vector)) == vector,
        encoded(vector).len() == 4 * vector.len(),
    decreases vector.len(),
{
    if vector.len() > 0 {
        let before = vector.drop_last();
        let n = vector.last();
        let k = before.len() as int;
        law_vector_read_back(before);
        lemma_bytes(n);
        let blob = encoded(vector);
        assert(blob == encoded(before) + bytes_of(n));
        assert forall|i: int| 0 <= i < vector.len() implies #[trigger] decoded(blob)[i]
            == vector[i] by {
            if i < k {
                assert(decoded(encoded(before))[i] == before[i]);
                assert(blob[4 * i] == encoded(before)[4 * i]);
                assert(blob[4 * i + 1] == encoded(before)[4 * i + 1]);
                assert(blob[4 * i + 2] == encoded(before)[4 * i + 2]);
                assert(blob[4 * i + 3] == encoded(before)[4 * i + 3]);
            } else {
                assert(blob[4 * i] == bytes_of(n)[0]);
                assert(blob[4 * i + 1] == bytes_of(n)[1]);
                assert(blob[4 * i + 2] == bytes_of(n)[2]);
                assert(blob[4 * i + 3] == bytes_of(n)[3]);
            }
        }
        assert(decoded(blob) =~= vector);
    } else {
        assert(decoded(encoded(vector)) =~= vector);
    }
}

/// Every number is stored in four bytes, the lowest first.
pub proof fn law_lowest_byte_first(vector: Seq<u32>, i: int)
    requires
        0 <= i < vector.len(),
    ensures
        encoded(vector).len() == 4 * vector.len(),
        encoded(vector)[4 * i] == vector[i] % 256,
        encoded(vector)[4 * i + 1] == vector[i] / 256 % 256,
        encoded(vector)[4 * i + 2] == vector[i] / 65536 % 256,
        encoded(vector)[4 * i + 3] == vector[i] / 16777216,
    decreases vector.len(),
{
    let front = vector.drop_last();
    law_vector_read_back(vector);
    law_vector_read_back(front);
    let last = vector.last();
    assert(last / 16777216 < 256);
    if i < vector.len() - 1 {
        law_lowest_byte_first(front, i);
        assert(front[i] == vector[i]);
    } else {
        let n = encoded(front).len() as int;
        let own = bytes_of(last);
        assert(n == 4 * i);
        assert(encoded(vector)[n] == own[0]);
        assert(encoded(vector)[n + 1] == own[1]);
        assert(encoded(vector)[n + 2] == own[2]);
        assert(encoded(vector)[n + 3] == own[3]);
    }
}

} // verus!
