//! Keys in hexadecimal.

use crate::key_hex;
use vstd::prelude::*;

verus! {

/// The digits are those of the usual alphabet, in lower case, and stand for their
/// places in it.
pub proof fn lemma_hex_alphabet(n: nat)
    requires
        n < 16,
    ensures
        key_hex::hex_digit(n) == "0123456789abcdef"@[n as int],
        key_hex::digit_value("0123456789abcdef"@[n as int]) == n,
{
    reveal_strlit("0123456789abcdef");
}

/// Byte `i` has the digits `2 i` and `2 i + 1`, the upper half first.
pub proof fn lemma_hex_digits(b: Seq<u8>, i: int)
    requires
        0 <= i < b.len(),
    ensures
        key_hex::hex_digits(b).len() == 2 * b.len(),
        key_hex::hex_digits(b)[2 * i] == "0123456789abcdef"@[b[i] as int / 16],
        key_hex::hex_digits(b)[2 * i + 1] == "0123456789abcdef"@[b[i] as int % 16],
{
    lemma_hex_alphabet((b[i] / 16) as nat);
    lemma_hex_alphabet((b[i] % 16) as nat);
    assert((2 * i) / 2 == i && (2 * i + 1) / 2 == i);
}

/// What is shown is the end of the digits; what is cut off is zeros, and what is
/// left starts with another digit. Of zeros alone one is shown.
pub proof fn lemma_shown_digits(digits: Seq<char>, shown: Seq<char>)
    requires
        key_hex::is_trimmed(digits, shown),
    ensures
        (forall|i: int| 0 <= i < digits.len() ==> digits[i] == '0') ==> shown == seq!['0'],
        (exists|i: int| 0 <= i < digits.len() && digits[i] != '0') ==> {
            let cut = digits.len() - shown.len();
            &&& 0 <= cut < digits.len()
            &&& shown == digits.skip(cut)
            &&& shown[0] != '0'
            &&& forall|i: int| 0 <= i < cut ==> digits[i] == '0'
        },
{
    let n = choose|n: nat| #[trigger]
        key_hex::zeros_in_front(digits, n) && shown == if n == digits.len() {
            seq!['0']
        } else {
            digits.skip(n as int)
        };
    if n < digits.len() {
        assert(digits[n as int] != '0');
    }
}

} // verus!
