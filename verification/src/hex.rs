//! Lowercase hexadecimal rendering of byte strings.

use vstd::prelude::*;
use vstd::string::*;

verus! {

/// The sixteen hexadecimal digits, each at the index of its value.
pub open spec fn hex_digits() -> Seq<char> {
    seq!['0', '1', '2', '3', '4', '5', '6', '7', '8', '9', 'a', 'b', 'c', 'd', 'e', 'f']
}

/// A lowercase hexadecimal digit.
pub open spec fn is_lower_hex_digit(c: char) -> bool {
    ('0' <= c && c <= '9') || ('a' <= c && c <= 'f')
}

/// Two digits for each byte, the high half first.
pub open spec fn lower_hex(bytes: Seq<u8>) -> Seq<char> {
    Seq::new(
        2 * bytes.len(),
        |i: int|
            if i % 2 == 0 {
                hex_digits()[bytes[i / 2] as int / 16]
            } else {
                hex_digits()[bytes[i / 2] as int % 16]
            },
    )
}

/// Rendering one more byte appends its two digits.
pub proof fn lemma_lower_hex_push(bytes: Seq<u8>, b: u8)
    ensures
        lower_hex(bytes.push(b)) == lower_hex(bytes).push(hex_digits()[b as int / 16]).push(
            hex_digits()[b as int % 16],
        ),
{
    let longer = lower_hex(bytes.push(b));
    let appended = lower_hex(bytes).push(hex_digits()[b as int / 16]).push(
        hex_digits()[b as int % 16],
    );
    assert forall|i: int| 0 <= i < longer.len() implies longer[i] == appended[i] by {
        if i / 2 < bytes.len() {
            assert(bytes.push(b)[i / 2] == bytes[i / 2]);
        } else {
            assert(bytes.push(b)[i / 2] == b);
        }
    }
    assert(longer =~= appended);
}

/// A rendering has two characters per byte, all of them lowercase
/// hexadecimal digits.
pub proof fn lemma_lower_hex_shape(bytes: Seq<u8>)
    ensures
        lower_hex(bytes).len() == 2 * bytes.len(),
        forall|i: int| 0 <= i < lower_hex(bytes).len() ==> is_lower_hex_digit(#[trigger] lower_hex(bytes)[i]),
{
    assert forall|i: int| 0 <= i < lower_hex(bytes).len() implies is_lower_hex_digit(
        #[trigger] lower_hex(bytes)[i],
    ) by {
        let b = bytes[i / 2];
        lemma_hex_digit_is_lower_hex(b as int / 16);
        lemma_hex_digit_is_lower_hex(b as int % 16);
    }
}

/// Each of the sixteen digits is a lowercase hexadecimal digit.
pub proof fn lemma_hex_digit_is_lower_hex(n: int)
    requires
        0 <= n < 16,
    ensures
        is_lower_hex_digit(hex_digits()[n]),
{
}

/// Different values have different digits.
pub proof fn lemma_hex_digits_distinct(m: int, n: int)
    requires
        0 <= m < 16,
        0 <= n < 16,
        hex_digits()[m] == hex_digits()[n],
    ensures
        m == n,
{
}

/// Different byte strings have different renderings.
pub proof fn lemma_lower_hex_injective(a: Seq<u8>, b: Seq<u8>)
    requires
        lower_hex(a) == lower_hex(b),
    ensures
        a == b,
{
    let ha = lower_hex(a);
    let hb = lower_hex(b);
    assert(ha.len() == 2 * a.len() && hb.len() == 2 * b.len());
    assert forall|k: int| 0 <= k < a.len() implies a[k] == b[k] by {
        // The two digits of the byte at `k` stand at `2 * k` and `2 * k + 1`.
        let high = 2 * k;
        let low = 2 * k + 1;
        assert(ha[high] == hex_digits()[a[k] as int / 16]);
        assert(hb[high] == hex_digits()[b[k] as int / 16]);
        assert(ha[low] == hex_digits()[a[k] as int % 16]);
        assert(hb[low] == hex_digits()[b[k] as int % 16]);
        lemma_hex_digits_distinct(a[k] as int / 16, b[k] as int / 16);
        lemma_hex_digits_distinct(a[k] as int % 16, b[k] as int % 16);
    }
    assert(a =~= b);
}

/// Renders `bytes` in lowercase hexadecimal.
pub fn to_lower_hex(bytes: &[u8]) -> (text: String)
    ensures
        text@ == lower_hex(bytes@),
{
    let digits = "0123456789abcdef";
    proof {
        reveal_strlit("0123456789abcdef");
        assert(digits@ =~= hex_digits());
    }
    let mut text = String::new();
    let mut i: usize = 0;
    while i < bytes.len()
        invariant
            i <= bytes@.len(),
            digits@ == hex_digits(),
            text@ == lower_hex(bytes@.take(i as int)),
        decreases bytes@.len() - i,
    {
        let b = bytes[i];
        let high: usize = (b / 16) as usize;
        let low: usize = (b % 16) as usize;
        proof {
            lemma_lower_hex_push(bytes@.take(i as int), b);
            assert(bytes@.take(i as int).push(b) =~= bytes@.take(i + 1));
        }
        text.append(digits.substring_ascii(high, high + 1));
        text.append(digits.substring_ascii(low, low + 1));
        i += 1;
    }
    assert(bytes@.take(i as int) =~= bytes@);
    text
}

} // verus!
