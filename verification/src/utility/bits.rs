use vstd::prelude::*;

verus! {

/// Bit `i` of a byte, counting from the least significant bit.
pub open spec fn bit(b: u8, i: int) -> bool {
    0 <= i < 8 && (b >> (i as u8)) & 1u8 == 1u8
}

/// The `len` lowest bits of a byte, least significant first.
pub open spec fn code_bits(code: u8, len: nat) -> Seq<bool> {
    Seq::new(len, |i: int| bit(code, i))
}

/// `code` fits in `len <= 8` bits: every bit from `len` up is clear.
pub open spec fn canonical(code: u8, len: nat) -> bool {
    &&& len <= 8
    &&& forall|i: int| len <= i < 8 ==> !#[trigger] bit(code, i)
}

/// The byte whose lowest bits are `path`, least significant first.
pub open spec fn code_of(path: Seq<bool>) -> u8
    decreases path.len(),
{
    if path.len() == 0 {
        0
    } else {
        let c = code_of(path.drop_last());
        if path.last() {
            c | (1u8 << ((path.len() - 1) as u8))
        } else {
            c
        }
    }
}

/// The bits of a byte string, each byte least significant bit first.
pub open spec fn bits_of(bytes: Seq<u8>) -> Seq<bool> {
    Seq::new(8 * bytes.len(), |k: int| bit(bytes[k / 8], k % 8))
}

/// `len` zero bits.
pub open spec fn zeros(len: nat) -> Seq<bool> {
    Seq::new(len, |i: int| false)
}

pub proof fn lemma_bytes_equal_by_bits(a: u8, b: u8)
    requires
        forall|i: int| 0 <= i < 8 ==> bit(a, i) == bit(b, i),
    ensures
        a == b,
{
    assert(bit(a, 0) == bit(b, 0));
    assert(bit(a, 1) == bit(b, 1));
    assert(bit(a, 2) == bit(b, 2));
    assert(bit(a, 3) == bit(b, 3));
    assert(bit(a, 4) == bit(b, 4));
    assert(bit(a, 5) == bit(b, 5));
    assert(bit(a, 6) == bit(b, 6));
    assert(bit(a, 7) == bit(b, 7));
    lemma_bytes_equal_by_bits_bv(a, b);
}

proof fn lemma_bytes_equal_by_bits_bv(a: u8, b: u8)
    by (bit_vector)
    requires
        ((a >> 0u8) & 1u8 == 1u8) == ((b >> 0u8) & 1u8 == 1u8),
        ((a >> 1u8) & 1u8 == 1u8) == ((b >> 1u8) & 1u8 == 1u8),
        ((a >> 2u8) & 1u8 == 1u8) == ((b >> 2u8) & 1u8 == 1u8),
        ((a >> 3u8) & 1u8 == 1u8) == ((b >> 3u8) & 1u8 == 1u8),
        ((a >> 4u8) & 1u8 == 1u8) == ((b >> 4u8) & 1u8 == 1u8),
        ((a >> 5u8) & 1u8 == 1u8) == ((b >> 5u8) & 1u8 == 1u8),
        ((a >> 6u8) & 1u8 == 1u8) == ((b >> 6u8) & 1u8 == 1u8),
        ((a >> 7u8) & 1u8 == 1u8) == ((b >> 7u8) & 1u8 == 1u8),
    ensures
        a == b,
{
}

proof fn lemma_set_bit_bv(c: u8, k: u8, j: u8)
    by (bit_vector)
    requires
        k < 8,
        j < 8,
    ensures
        ((c | (1u8 << k)) >> j) & 1u8 == 1u8 <==> (j == k || (c >> j) & 1u8 == 1u8),
{
}

/// Setting bit `k` of a byte.
pub proof fn lemma_set_bit(c: u8, k: int)
    requires
        0 <= k < 8,
    ensures
        forall|i: int| 0 <= i < 8 ==> #[trigger] bit(c | (1u8 << (k as u8)), i) == (i == k || bit(c, i)),
{
    assert forall|i: int| 0 <= i < 8 implies #[trigger] bit(c | (1u8 << (k as u8)), i) == (i == k
        || bit(c, i)) by {
        lemma_set_bit_bv(c, k as u8, i as u8);
    }
}

/// `code_of` inverts `code_bits` on paths of at most 8 bits.
pub proof fn lemma_code_of(path: Seq<bool>)
    requires
        path.len() <= 8,
    ensures
        forall|i: int| 0 <= i < 8 ==> #[trigger] bit(code_of(path), i) == (i < path.len() && path[i]),
        canonical(code_of(path), path.len()),
        code_bits(code_of(path), path.len()) == path,
    decreases path.len(),
{
    if path.len() > 0 {
        lemma_code_of(path.drop_last());
        if path.last() {
            lemma_set_bit(code_of(path.drop_last()), path.len() - 1);
        }
    } else {
        assert forall|i: int| 0 <= i < 8 implies !#[trigger] bit(0u8, i) by {
            lemma_zero_bits(i as u8);
        }
    }
    assert(code_bits(code_of(path), path.len()) =~= path);
}

/// No bit of the zero byte is set.
pub proof fn lemma_zero_byte()
    ensures
        forall|i: int| !#[trigger] bit(0u8, i),
        forall|len: nat| len <= 8 ==> #[trigger] canonical(0u8, len),
{
    assert forall|i: int| !#[trigger] bit(0u8, i) by {
        if 0 <= i < 8 {
            lemma_zero_bits(i as u8);
        }
    }
}

proof fn lemma_zero_bits(j: u8)
    by (bit_vector)
    ensures
        (0u8 >> j) & 1u8 != 1u8,
{
}

/// A canonical code is the code of its bits.
pub proof fn lemma_code_of_code_bits(code: u8, len: nat)
    requires
        canonical(code, len),
    ensures
        code_of(code_bits(code, len)) == code,
{
    lemma_code_of(code_bits(code, len));
    lemma_bytes_equal_by_bits(code_of(code_bits(code, len)), code);
}

/// The bits of a byte string followed by one more byte.
pub proof fn lemma_bits_of_push(s: Seq<u8>, b: u8)
    ensures
        bits_of(s.push(b)) == bits_of(s) + code_bits(b, 8),
{
    let n = s.len() as int;
    assert forall|k: int| 0 <= k < 8 * (n + 1) implies #[trigger] bits_of(s.push(b))[k] == (
    bits_of(s) + code_bits(b, 8))[k] by {
        if k < 8 * n {
            assert(k / 8 < n);
        } else {
            assert(k / 8 == n);
            assert(k % 8 == k - 8 * n);
        }
    }
    assert(bits_of(s.push(b)) =~= bits_of(s) + code_bits(b, 8));
}

/// The bits of two byte strings one after the other.
pub proof fn lemma_bits_of_concat(a: Seq<u8>, b: Seq<u8>)
    ensures
        bits_of(a + b) == bits_of(a) + bits_of(b),
    decreases b.len(),
{
    if b.len() == 0 {
        assert(a + b =~= a);
        assert(bits_of(b) =~= Seq::<bool>::empty());
        assert(bits_of(a) + bits_of(b) =~= bits_of(a));
    } else {
        lemma_bits_of_concat(a, b.drop_last());
        lemma_bits_of_push(a + b.drop_last(), b.last());
        lemma_bits_of_push(b.drop_last(), b.last());
        assert(a + b =~= (a + b.drop_last()).push(b.last()));
        assert(b =~= b.drop_last().push(b.last()));
    }
}

/// The bits of a canonical byte: its code bits followed by zeros.
pub proof fn lemma_canonical_byte_bits(c: u8, len: nat)
    requires
        canonical(c, len),
    ensures
        code_bits(c, 8) == code_bits(c, len) + zeros((8 - len) as nat),
{
    assert(code_bits(c, 8) =~= code_bits(c, len) + zeros((8 - len) as nat));
}

proof fn lemma_canonical_shift_bv(c: u8, len: u8)
    by (bit_vector)
    requires
        len < 8,
    ensures
        ((c >> len) == 0u8) == ((len > 0 || (c >> 0u8) & 1u8 != 1u8) && (len > 1 || (c >> 1u8) & 1u8
            != 1u8) && (len > 2 || (c >> 2u8) & 1u8 != 1u8) && (len > 3 || (c >> 3u8) & 1u8 != 1u8)
            && (len > 4 || (c >> 4u8) & 1u8 != 1u8) && (len > 5 || (c >> 5u8) & 1u8 != 1u8) && (len
            > 6 || (c >> 6u8) & 1u8 != 1u8) && (len > 7 || (c >> 7u8) & 1u8 != 1u8)),
{
}

/// A code of length `len <= 8` is canonical exactly when shifting out its
/// `len` low bits leaves nothing.
pub proof fn lemma_canonical_shift(c: u8, len: u8)
    requires
        len <= 8,
    ensures
        canonical(c, len as nat) == (len == 8 || (c >> len) == 0),
{
    if len < 8 {
        lemma_canonical_shift_bv(c, len);
        if (c >> len) == 0 {
            assert forall|i: int| len <= i < 8 implies !#[trigger] bit(c, i) by {
                assert(i == 0 || i == 1 || i == 2 || i == 3 || i == 4 || i == 5 || i == 6 || i == 7);
            }
        } else if canonical(c, len as nat) {
            assert(len > 0 || !bit(c, 0));
            assert(len > 1 || !bit(c, 1));
            assert(len > 2 || !bit(c, 2));
            assert(len > 3 || !bit(c, 3));
            assert(len > 4 || !bit(c, 4));
            assert(len > 5 || !bit(c, 5));
            assert(len > 6 || !bit(c, 6));
            assert(len > 7 || !bit(c, 7));
        }
    }
}

} // verus!
