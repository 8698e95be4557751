//! SHA-256 digests.

use vstd::prelude::*;

use sha2::Digest;

verus! {

/// The SHA-256 digest of some bytes.
pub uninterp spec fn sha256_of(bytes: Seq<u8>) -> Seq<u8>;

/// `sha2::Sha256::digest`: the 32 bytes of the digest, a function of the input
/// alone.
#[verifier::external_body]
pub(crate) fn sha256(bytes: &[u8]) -> (r: Vec<u8>)
    ensures
        r@ == sha256_of(bytes@),
        r@.len() == 32,
{
    sha2::Sha256::digest(bytes).to_vec()
}

/// The lower-case hexadecimal digit of value `d`.
pub open spec fn hex_digit(d: u8) -> char {
    if d < 10 {
        (0x30 + d) as char
    } else {
        (0x57 + d) as char
    }
}

/// Bytes in lower-case hexadecimal.
pub open spec fn hex(bytes: Seq<u8>) -> Seq<char>
    decreases bytes.len(),
{
    if bytes.len() == 0 {
        Seq::empty()
    } else {
        hex(bytes.drop_last()).push(hex_digit((bytes.last() / 16) as u8)).push(
            hex_digit((bytes.last() % 16) as u8),
        )
    }
}

fn hex_char(d: u8) -> (c: char)
    requires
        d < 16,
    ensures
        c == hex_digit(d),
{
    if d < 10 {
        (0x30 + d) as char
    } else {
        (0x57 + d) as char
    }
}

/// Bytes in lower-case hexadecimal.
pub fn hex_text(bytes: &Vec<u8>) -> (r: String)
    ensures
        r@ == hex(bytes@),
{
    let mut out = String::new();
    let mut i: usize = 0;
    proof {
        assert(out@ =~= hex(bytes@.take(0)));
    }
    while i < bytes.len()
        invariant
            i <= bytes@.len(),
            out@ == hex(bytes@.take(i as int)),
        decreases bytes@.len() - i,
    {
        proof {
            assert(bytes@.take(i + 1).drop_last() =~= bytes@.take(i as int));
        }
        let b: u8 = bytes[i];
        out.push(hex_char(b / 16));
        out.push(hex_char(b % 16));
        i += 1;
    }
    proof {
        assert(bytes@.take(bytes@.len() as int) =~= bytes@);
    }
    out
}

/// Whether `c` is a lower-case hexadecimal digit.
pub open spec fn is_lower_hex(c: char) -> bool {
    0x30 <= c as u32 <= 0x39 || 0x61 <= c as u32 <= 0x66
}

/// Hexadecimal text has two digits for each byte and nothing else.
pub proof fn lemma_hex_shape(bytes: Seq<u8>)
    ensures
        hex(bytes).len() == 2 * bytes.len(),
        forall|i: int| 0 <= i < hex(bytes).len() ==> is_lower_hex(#[trigger] hex(bytes)[i]),
    decreases bytes.len(),
{
    if bytes.len() > 0 {
        lemma_hex_shape(bytes.drop_last());
        let before = hex(bytes.drop_last());
        assert forall|i: int| 0 <= i < hex(bytes).len() implies is_lower_hex(
            #[trigger] hex(bytes)[i],
        ) by {
            if i < before.len() {
                assert(hex(bytes)[i] == before[i]);
            }
        }
    }
}

/// Two runs of bytes have the same hexadecimal text only where they are the same.
pub proof fn law_hexadecimal_text_tells_bytes_apart(a: Seq<u8>, b: Seq<u8>)
    requires
        hex(a) == hex(b),
    ensures
        a == b,
    decreases a.len(),
{
    lemma_hex_shape(a);
    lemma_hex_shape(b);
    if a.len() > 0 {
        let n = hex(a).len() as int;
        let x = hex(a.drop_last());
        let y = hex(b.drop_last());
        assert(hex(a).take(n - 2) =~= x);
        assert(hex(b).take(n - 2) =~= y);
        law_hexadecimal_text_tells_bytes_apart(a.drop_last(), b.drop_last());
        assert(hex(a)[n - 2] == hex(b)[n - 2]);
        assert(hex(a)[n - 1] == hex(b)[n - 1]);
        let p = a.last();
        let q = b.last();
        let high = hex_digit((p / 16) as u8);
        let low = hex_digit((p % 16) as u8);
        assert(hex(a) == x.push(high).push(low));
        assert(hex(b) == y.push(hex_digit((q / 16) as u8)).push(hex_digit((q % 16) as u8)));
        assert(x.len() == n - 2 && y.len() == n - 2);
        assert(x.push(high).push(low)[n - 2] == high);
        assert(x.push(high).push(low)[n - 1] == low);
        assert(y.push(hex_digit((q / 16) as u8)).push(hex_digit((q % 16) as u8))[n - 2]
            == hex_digit((q / 16) as u8));
        assert(y.push(hex_digit((q / 16) as u8)).push(hex_digit((q % 16) as u8))[n - 1]
            == hex_digit((q % 16) as u8));
        assert(hex_digit((p / 16) as u8) == hex_digit((q / 16) as u8));
        assert(hex_digit((p % 16) as u8) == hex_digit((q % 16) as u8));
        assert(p / 16 == q / 16);
        assert(p % 16 == q % 16);
        assert(p == q);
        assert(a =~= a.drop_last().push(p));
        assert(b =~= b.drop_last().push(q));
    } else {
        assert(a =~= b);
    }
}

/// The two digits of a byte are its halves: the high one first.
pub proof fn law_a_byte_is_two_digits(bytes: Seq<u8>, b: u8)
    ensures
        ({
            let text = hex(bytes.push(b));
            let n = text.len() as int;
            let value = |c: char|
                if c as u32 <= 0x39 {
                    c as u32 - 0x30
                } else {
                    c as u32 - 0x57
                };
            &&& n == 2 * bytes.len() + 2
            &&& text.take(n - 2) == hex(bytes)
            &&& value(text[n - 2]) * 16 + value(text[n - 1]) == b
        }),
{
    lemma_hex_shape(bytes.push(b));
    lemma_hex_shape(bytes);
    assert(bytes.push(b).drop_last() =~= bytes);
    let text = hex(bytes.push(b));
    assert(text.take(text.len() - 2) =~= hex(bytes));
}

} // verus!
