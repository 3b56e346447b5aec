//! Private keys in hexadecimal.

use crate::bytes;
use vstd::prelude::*;
use vstd::string::*;

verus! {

/// The lower-case digit for a number below sixteen.
pub open spec fn hex_digit(n: nat) -> char {
    if n < 10 {
        ('0' as nat + n) as char
    } else {
        ('a' as nat + (n - 10)) as char
    }
}

/// Two digits for each byte.
pub open spec fn hex_digits(b: Seq<u8>) -> Seq<char> {
    Seq::new(
        2 * b.len(),
        |i: int|
            if i % 2 == 0 {
                hex_digit(b[i / 2] as nat / 16)
            } else {
                hex_digit(b[i / 2] as nat % 16)
            },
    )
}

/// The number that a lower-case digit stands for.
pub open spec fn digit_value(c: char) -> nat {
    if c <= '9' {
        (c as nat - '0' as nat) as nat
    } else {
        (c as nat - 'a' as nat + 10) as nat
    }
}

/// The number that some digits stand for.
pub open spec fn hex_value(s: Seq<char>) -> nat
    decreases s.len(),
{
    if s.len() == 0 {
        0
    } else {
        16 * hex_value(s.drop_last()) + digit_value(s.last())
    }
}

/// `s` begins with exactly `n` zeros.
pub open spec fn zeros_in_front(s: Seq<char>, n: nat) -> bool {
    &&& n <= s.len()
    &&& forall|i: int| 0 <= i < n ==> s[i] == '0'
    &&& n < s.len() ==> s[n as int] != '0'
}

/// `shown` is `digits` without the zeros in front; one zero stays where there is
/// nothing else.
pub open spec fn is_trimmed(digits: Seq<char>, shown: Seq<char>) -> bool {
    exists|n: nat| #[trigger]
        zeros_in_front(digits, n) && shown == if n == digits.len() {
            seq!['0']
        } else {
            digits.skip(n as int)
        }
}

/// `hex::encode`: two lower-case digits for each byte.
#[verifier::external_body]
fn encode(b: &Vec<u8>) -> (r: String)
    ensures
        r@ == hex_digits(b@),
{
    hex::encode(b)
}

/// All digits of a key.
pub fn key_hex(key: &Vec<u8>) -> (r: String)
    ensures
        r@ == hex_digits(key@),
{
    encode(key)
}

/// The digits of a key as they are shown, without zeros in front.
pub fn key_hex_display(key_hex: &String) -> (r: String)
    ensures
        is_trimmed(key_hex@, r@),
{
    let s = key_hex.as_str();
    let len: usize = s.unicode_len();
    let mut n: usize = 0;
    while n < len && s.get_char(n) == '0'
        invariant
            n <= len,
            len == s@.len(),
            forall|i: int| 0 <= i < n ==> s@[i] == '0',
        decreases len - n,
    {
        n = n + 1;
    }
    assert(zeros_in_front(key_hex@, n as nat));
    if n == len {
        proof {
            reveal_strlit("0");
        }
        assert("0"@ =~= seq!['0']);
        "0".to_owned()
    } else {
        assert(s@.subrange(n as int, len as int) =~= s@.skip(n as int));
        s.substring_char(n, len).to_owned()
    }
}

/// The digits of a key stand for the key.
pub proof fn lemma_digits_denote_key(key: Seq<u8>)
    ensures
        hex_value(hex_digits(key)) == bytes::be_value(key),
    decreases key.len(),
{
    if key.len() > 0 {
        let digits = hex_digits(key);
        let rest = key.drop_last();
        let b = key.last() as nat;
        lemma_digits_denote_key(rest);
        assert(digits.drop_last().drop_last() =~= hex_digits(rest));
        assert(digits.last() == hex_digit(b % 16));
        assert(digits.drop_last().last() == hex_digit(b / 16));
        assert(digit_value(hex_digit(b % 16)) == b % 16);
        assert(digit_value(hex_digit(b / 16)) == b / 16);
        assert(hex_value(digits.drop_last()) == 16 * hex_value(hex_digits(rest)) + b / 16);
    }
}

/// What is shown stands for the same number as all digits, and has no zero in
/// front unless it is zero.
pub proof fn lemma_shown_denotes_same(digits: Seq<char>, shown: Seq<char>)
    requires
        is_trimmed(digits, shown),
    ensures
        hex_value(shown) == hex_value(digits),
        shown.len() > 0,
        shown[0] == '0' ==> shown == seq!['0'],
{
    let n = choose|n: nat| #[trigger]
        zeros_in_front(digits, n) && shown == if n == digits.len() {
            seq!['0']
        } else {
            digits.skip(n as int)
        };
    lemma_zeros_count_nothing(digits, n);
    if n == digits.len() {
        assert(digits.skip(n as int) =~= Seq::<char>::empty());
        assert(seq!['0'].drop_last() =~= Seq::<char>::empty());
        assert(hex_value(shown) == 0) by {
            reveal_with_fuel(hex_value, 2);
        }
    }
}

/// Zeros in front count nothing.
proof fn lemma_zeros_count_nothing(s: Seq<char>, n: nat)
    requires
        n <= s.len(),
        forall|i: int| 0 <= i < n ==> s[i] == '0',
    ensures
        hex_value(s.skip(n as int)) == hex_value(s),
    decreases s.len(),
{
    if s.len() == n {
        assert(s.skip(n as int) =~= Seq::<char>::empty());
        if n > 0 {
            lemma_zeros_count_nothing(s.drop_last(), (n - 1) as nat);
            assert(s.drop_last().skip(n - 1) =~= Seq::<char>::empty());
        }
    } else {
        lemma_zeros_count_nothing(s.drop_last(), n);
        assert(s.skip(n as int).drop_last() =~= s.drop_last().skip(n as int));
    }
}

} // verus!
