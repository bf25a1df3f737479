//! Decimal text: the canonical rendering of numbers used inside formatted
//! peer addresses (`127.0.0.1:15441`), and its exact inverse.

use vstd::prelude::*;
use vstd::string::*;

verus! {

/// The character for the decimal digit `d` (meaningful for `d < 10`).
pub open spec fn dec_digit(d: nat) -> char {
    ((48 + d) as u8) as char
}

/// Canonical decimal rendering of `n`: most significant digit first,
/// no sign, no leading zeros.
pub open spec fn dec_str(n: nat) -> Seq<char>
    decreases n,
{
    if n < 10 {
        seq![dec_digit(n)]
    } else {
        dec_str(n / 10).push(dec_digit(n % 10))
    }
}

pub open spec fn is_dec_digit_char(c: char) -> bool {
    '0' <= c && c <= '9'
}

pub open spec fn digit_val(c: char) -> nat {
    (c as nat - 48) as nat
}

pub open spec fn all_dec_digits(s: Seq<char>) -> bool {
    forall|i: int| 0 <= i < s.len() ==> is_dec_digit_char(#[trigger] s[i])
}

/// The number a digit string denotes.
pub open spec fn dec_val(s: Seq<char>) -> nat
    decreases s.len(),
{
    if s.len() == 0 {
        0
    } else {
        dec_val(s.drop_last()) * 10 + digit_val(s.last())
    }
}

/// A string is the canonical rendering of some number exactly when it is a
/// non-empty digit string without a leading zero.
pub open spec fn is_canonical_dec(s: Seq<char>) -> bool {
    &&& s.len() > 0
    &&& all_dec_digits(s)
    &&& (s.len() > 1 ==> s[0] != '0')
}

pub open spec fn pow10(k: nat) -> nat
    decreases k,
{
    if k == 0 {
        1
    } else {
        10 * pow10((k - 1) as nat)
    }
}

proof fn lemma_dec_digit_facts(d: nat)
    requires
        d < 10,
    ensures
        is_dec_digit_char(dec_digit(d)),
        digit_val(dec_digit(d)) == d,
        d != 0 ==> dec_digit(d) != '0',
{
}

/// The canonical rendering is indeed canonical and denotes its number.
pub proof fn lemma_dec_str_ok(n: nat)
    ensures
        is_canonical_dec(dec_str(n)),
        dec_val(dec_str(n)) == n,
    decreases n,
{
    if n < 10 {
        lemma_dec_digit_facts(n);
        assert(dec_str(n) =~= seq![dec_digit(n)]);
        assert(dec_str(n).drop_last() =~= Seq::<char>::empty());
        assert(dec_val(dec_str(n).drop_last()) == 0);
        assert(dec_str(n).last() == dec_digit(n));
        assert(dec_val(dec_str(n)) == digit_val(dec_digit(n)));
    } else {
        lemma_dec_str_ok(n / 10);
        lemma_dec_digit_facts(n % 10);
        let s = dec_str(n);
        let t = dec_str(n / 10);
        assert(s =~= t.push(dec_digit(n % 10)));
        assert(s.drop_last() =~= t);
        assert(dec_val(s) == dec_val(t) * 10 + digit_val(dec_digit(n % 10)));
        assert(dec_val(s) == (n / 10) * 10 + n % 10);
        vstd::arithmetic::div_mod::lemma_fundamental_div_mod(n as int, 10);
        assert(s[0] == t[0]);
        assert(forall|i: int| 0 <= i < s.len() ==> is_dec_digit_char(#[trigger] s[i])) by {
            assert(forall|i: int| 0 <= i < t.len() ==> is_dec_digit_char(#[trigger] t[i]));
        }
        // the leading digit of a number at least ten is the leading digit of
        // its quotient, which denotes a positive number and so is not zero
        if t.len() == 1 {
            assert(t.drop_last() =~= Seq::<char>::empty());
            assert(dec_val(t.drop_last()) == 0);
            assert(dec_val(t) == digit_val(t[0]));
            assert(digit_val(t[0]) == n / 10);
            assert(n / 10 >= 1);
            assert(digit_val('0') == 0);
            assert(t[0] != '0');
        }
    }
}

/// A non-empty digit string without a leading zero denotes a number whose
/// canonical rendering is that string back.
pub proof fn lemma_canonical_dec_str(s: Seq<char>)
    requires
        is_canonical_dec(s),
    ensures
        dec_str(dec_val(s)) == s,
    decreases s.len(),
{
    let d = digit_val(s.last());
    assert(is_dec_digit_char(s.last()));
    assert(d < 10);
    if s.len() == 1 {
        assert(s.drop_last() =~= Seq::<char>::empty());
        assert(dec_val(s.drop_last()) == 0);
        assert(dec_val(s) == d);
        assert(s.last() == dec_digit(d)) by {
            assert('0' <= s.last() <= '9');
            assert(s.last() as nat >= 48 && s.last() as nat <= 57);
            assert(d == (s.last() as nat - 48) as nat);
        }
        assert(dec_str(d) =~= seq![dec_digit(d)]);
        assert(dec_str(dec_val(s)) =~= s);
    } else {
        let t = s.drop_last();
        assert(is_canonical_dec(t)) by {
            assert(forall|i: int| 0 <= i < t.len() ==> is_dec_digit_char(#[trigger] t[i])) by {
                assert(forall|i: int| 0 <= i < t.len() ==> t[i] == s[i]);
            }
            assert(t[0] == s[0]);
        }
        lemma_canonical_dec_str(t);
        lemma_dec_val_pos(t);
        let v = dec_val(s);
        assert(v == dec_val(t) * 10 + d);
        assert(dec_val(t) >= 1);
        assert(v >= 10);
        assert(v / 10 == dec_val(t) && v % 10 == d) by {
            vstd::arithmetic::div_mod::lemma_fundamental_div_mod_converse(
                v as int, 10, dec_val(t) as int, d as int);
        }
        assert(s.last() == dec_digit(d));
        assert(dec_str(v) =~= dec_str(dec_val(t)).push(dec_digit(d)));
        assert(dec_str(dec_val(s)) =~= s);
    }
}

/// A digit string with a non-zero leading digit denotes a positive number.
proof fn lemma_dec_val_pos(s: Seq<char>)
    requires
        is_canonical_dec(s),
        s[0] != '0',
    ensures
        dec_val(s) >= 1,
    decreases s.len(),
{
    if s.len() == 1 {
        assert(is_dec_digit_char(s[0]));
        assert(digit_val(s[0]) >= 1);
        assert(s.drop_last() =~= Seq::<char>::empty());
    } else {
        let t = s.drop_last();
        assert(is_canonical_dec(t)) by {
            assert(forall|i: int| 0 <= i < t.len() ==> is_dec_digit_char(#[trigger] t[i])) by {
                assert(forall|i: int| 0 <= i < t.len() ==> t[i] == s[i]);
            }
        }
        lemma_dec_val_pos(t);
    }
}

/// A digit string of length `k` denotes a number below `10^k`.
proof fn lemma_dec_val_bound(s: Seq<char>)
    requires
        all_dec_digits(s),
    ensures
        dec_val(s) < pow10(s.len() as nat),
    decreases s.len(),
{
    if s.len() == 0 {
    } else {
        let t = s.drop_last();
        assert(forall|i: int| 0 <= i < t.len() ==> is_dec_digit_char(#[trigger] t[i])) by {
            assert(forall|i: int| 0 <= i < t.len() ==> t[i] == s[i]);
        }
        lemma_dec_val_bound(t);
        assert(is_dec_digit_char(s.last()));
        assert(digit_val(s.last()) < 10);
    }
}

/// A number below `10^k` renders in at most `k` digits.
proof fn lemma_dec_str_len(n: nat, k: nat)
    requires
        k >= 1,
        n < pow10(k),
    ensures
        dec_str(n).len() <= k,
    decreases k,
{
    if n < 10 {
    } else {
        assert(k >= 2) by {
            if k == 1 {
                assert(pow10(1) == 10);
            }
        }
        assert(n / 10 < pow10((k - 1) as nat)) by {
            assert(pow10(k) == 10 * pow10((k - 1) as nat));
        }
        lemma_dec_str_len(n / 10, (k - 1) as nat);
    }
}

proof fn lemma_pow10_small()
    ensures
        pow10(0) == 1,
        pow10(1) == 10,
        pow10(2) == 100,
        pow10(3) == 1000,
        pow10(4) == 10000,
        pow10(5) == 100000,
{
    assert(pow10(0) == 1);
    assert(pow10(1) == 10 * pow10(0));
    assert(pow10(2) == 10 * pow10(1));
    assert(pow10(3) == 10 * pow10(2));
    assert(pow10(4) == 10 * pow10(3));
    assert(pow10(5) == 10 * pow10(4));
}

/// Parses the canonical decimal rendering of a sixteen-bit number; anything
/// else is rejected.
pub fn parse_dec_u16(s: &str) -> (r: Option<u16>)
    ensures
        match r {
            Some(n) => s@ == dec_str(n as nat),
            None => forall|n: u16| s@ != dec_str(n as nat),
        }
{
    proof {
        lemma_pow10_small();
    }
    let len = s.unicode_len();
    if len == 0 || len > 5 {
        proof {
            assert forall|n: u16| s@ != dec_str(n as nat) by {
                lemma_dec_str_ok(n as nat);
                if s@ == dec_str(n as nat) {
                    lemma_dec_str_len(n as nat, 5);
                }
            }
        }
        return None;
    }
    if len > 1 && s.get_char(0) == '0' {
        proof {
            assert forall|n: u16| s@ != dec_str(n as nat) by {
                lemma_dec_str_ok(n as nat);
            }
        }
        return None;
    }
    let mut acc: u32 = 0;
    let mut i: usize = 0;
    while i < len
        invariant
            0 <= i <= len,
            len == s@.len(),
            1 <= len <= 5,
            acc == dec_val(s@.take(i as int)),
            acc < 100000,
            all_dec_digits(s@.take(i as int)),
            pow10(5) == 100000,
        decreases len - i,
    {
        let c = s.get_char(i);
        if !(c >= '0' && c <= '9') {
            proof {
                assert forall|n: u16| s@ != dec_str(n as nat) by {
                    lemma_dec_str_ok(n as nat);
                }
            }
            return None;
        }
        let d = (c as u32) - 48;
        proof {
            let p = s@.take(i as int);
            let q = s@.take(i + 1 as int);
            assert(q.drop_last() =~= p);
            assert(q.last() == s@[i as int]);
            assert(forall|j: int| 0 <= j < q.len() ==> is_dec_digit_char(#[trigger] q[j])) by {
                assert(forall|j: int| 0 <= j < p.len() ==> is_dec_digit_char(#[trigger] p[j]));
            }
            lemma_dec_val_bound(q);
            assert(pow10(q.len() as nat) <= pow10(5)) by {
                lemma_pow10_small();
                assert(pow10(q.len() as nat) == pow10(1) || pow10(q.len() as nat) == pow10(2)
                    || pow10(q.len() as nat) == pow10(3) || pow10(q.len() as nat) == pow10(4)
                    || pow10(q.len() as nat) == pow10(5));
            }
        }
        acc = acc * 10 + d;
        i += 1;
    }
    proof {
        assert(s@.take(len as int) =~= s@);
    }
    if acc > 65535 {
        proof {
            assert forall|n: u16| s@ != dec_str(n as nat) by {
                lemma_dec_str_ok(n as nat);
                if s@ == dec_str(n as nat) {
                    assert(dec_val(s@) == n as nat);
                }
            }
        }
        return None;
    }
    proof {
        assert(is_canonical_dec(s@));
        lemma_canonical_dec_str(s@);
    }
    Some(acc as u16)
}

/// Appends the canonical decimal rendering of `n`.
pub fn push_dec_u16(out: &mut Vec<char>, n: u16)
    ensures
        final(out)@ == old(out)@ + dec_str(n as nat),
    decreases n,
{
    if n >= 10 {
        push_dec_u16(out, n / 10);
    }
    let d = (n % 10) as u8;
    out.push((48 + d) as char);
    proof {
        if n < 10 {
            assert(final(out)@ =~= old(out)@ + dec_str(n as nat));
        } else {
            assert(final(out)@ =~= old(out)@ + dec_str(n as nat));
        }
    }
}

/// Relies on std's `String::from_iter`: builds the string holding exactly the
/// given characters, in order.
#[verifier::external_body]
pub fn chars_to_string(v: &Vec<char>) -> (r: String)
    ensures
        r@ == v@,
{
    v.iter().collect()
}

/// Character-for-character string equality, usable in contracts through the
/// string views.
pub fn str_eq(a: &str, b: &str) -> (r: bool)
    ensures
        r == (a@ == b@),
{
    let la = a.unicode_len();
    let lb = b.unicode_len();
    if la != lb {
        return false;
    }
    let mut i: usize = 0;
    while i < la
        invariant
            0 <= i <= la,
            la == a@.len(),
            la == b@.len(),
            forall|j: int| 0 <= j < i ==> a@[j] == b@[j],
        decreases la - i,
    {
        if a.get_char(i) != b.get_char(i) {
            return false;
        }
        i += 1;
    }
    proof {
        assert(a@ =~= b@);
    }
    true
}

} // verus!
