//! Base32 text for onion identifiers: the lowercase alphabet `a`-`z` `2`-`7`,
//! without padding. Identifiers are 10 or 35 bytes long, so only byte strings
//! whose length is a multiple of five ever need encoding.

use vstd::prelude::*;
use vstd::string::*;

verus! {

/// The alphabet character for the five-bit value `d` (meaningful for `d < 32`).
pub open spec fn b32_char(d: nat) -> char {
    if d < 26 {
        ((97 + d) as u8) as char
    } else {
        ((50 + (d - 26)) as u8) as char
    }
}

pub open spec fn is_b32_char(c: char) -> bool {
    ('a' <= c && c <= 'z') || ('2' <= c && c <= '7')
}

pub open spec fn b32_char_val(c: char) -> nat {
    if 'a' <= c && c <= 'z' {
        (c as nat - 97) as nat
    } else {
        (c as nat - 50 + 26) as nat
    }
}

proof fn lemma_b32_char_facts(d: nat)
    requires
        d < 32,
    ensures
        is_b32_char(b32_char(d)),
        b32_char_val(b32_char(d)) == d,
{
}

proof fn lemma_b32_char_inverse(c: char)
    requires
        is_b32_char(c),
    ensures
        b32_char_val(c) < 32,
        b32_char(b32_char_val(c)) == c,
{
}

/// The encoding of a single five-byte group is its eight group characters.
proof fn lemma_b32_encode_group(group: Seq<u8>)
    requires
        group.len() == 5,
    ensures
        b32_encode(group) == b32_group_chars(group),
{
    assert(group.take(5) =~= group);
    assert(group.skip(5) =~= Seq::<u8>::empty());
    assert(b32_encode(group.skip(5)) == Seq::<char>::empty());
    assert(b32_encode(group) == b32_group_chars(group.take(5)) + b32_encode(group.skip(5)));
    assert(b32_group_chars(group) + Seq::<char>::empty() =~= b32_group_chars(group));
}

/// The eight five-bit values of one five-byte group, leading bits first.
pub open spec fn b32_digit(b: Seq<u8>, k: int) -> u8 {
    if k == 0 {
        b[0] >> 3
    } else if k == 1 {
        ((b[0] & 7) << 2) | (b[1] >> 6)
    } else if k == 2 {
        (b[1] >> 1) & 31
    } else if k == 3 {
        ((b[1] & 1) << 4) | (b[2] >> 4)
    } else if k == 4 {
        ((b[2] & 15) << 1) | (b[3] >> 7)
    } else if k == 5 {
        (b[3] >> 2) & 31
    } else if k == 6 {
        ((b[3] & 3) << 3) | (b[4] >> 5)
    } else {
        b[4] & 31
    }
}

/// The eight characters encoding one five-byte group.
pub open spec fn b32_group_chars(b: Seq<u8>) -> Seq<char> {
    Seq::new(8, |k: int| b32_char(b32_digit(b, k) as nat))
}

/// Encoding of a byte string whose length is a multiple of five: eight
/// characters for each five bytes, each holding five bits.
pub open spec fn b32_encode(b: Seq<u8>) -> Seq<char>
    decreases b.len(),
{
    if b.len() < 5 {
        Seq::empty()
    } else {
        b32_group_chars(b.take(5)) + b32_encode(b.skip(5))
    }
}

proof fn lemma_b32_digit_bound(b: Seq<u8>)
    ensures
        forall|k: int| 0 <= k < 8 ==> #[trigger] b32_digit(b, k) < 32,
{
    let x0 = b[0];
    let x1 = b[1];
    let x2 = b[2];
    let x3 = b[3];
    let x4 = b[4];
    assert((x0 >> 3) < 32 && (((x0 & 7) << 2) | (x1 >> 6)) < 32 && ((x1 >> 1) & 31) < 32 && (((
    x1 & 1) << 4) | (x2 >> 4)) < 32 && ((((x2 & 15) << 1) | (x3 >> 7))) < 32 && ((x3 >> 2) & 31)
        < 32 && (((x3 & 3) << 3) | (x4 >> 5)) < 32 && ((x4 & 31)) < 32) by (bit_vector);
    assert forall|k: int| 0 <= k < 8 implies #[trigger] b32_digit(b, k) < 32 by {
        assert(b32_digit(b, 0) == x0 >> 3);
    }
}

pub proof fn lemma_b32_encode_len(b: Seq<u8>)
    requires
        b.len() % 5 == 0,
    ensures
        b32_encode(b).len() == b.len() / 5 * 8,
    decreases b.len(),
{
    if b.len() < 5 {
    } else {
        assert(b.skip(5).len() % 5 == 0);
        lemma_b32_encode_len(b.skip(5));
        assert(b.len() / 5 == b.skip(5).len() / 5 + 1);
    }
}

pub proof fn lemma_b32_encode_chars(b: Seq<u8>)
    ensures
        forall|i: int| 0 <= i < b32_encode(b).len() ==> is_b32_char(#[trigger] b32_encode(b)[i]),
    decreases b.len(),
{
    if b.len() < 5 {
    } else {
        lemma_b32_encode_chars(b.skip(5));
        lemma_b32_digit_bound(b.take(5));
        assert forall|i: int| 0 <= i < b32_encode(b).len() implies is_b32_char(
            #[trigger] b32_encode(b)[i]) by {
            if i < 8 {
                lemma_b32_char_facts(b32_digit(b.take(5), i) as nat);
            } else {
                assert(b32_encode(b)[i] == b32_encode(b.skip(5))[i - 8]);
            }
        }
    }
}

pub proof fn lemma_b32_encode_append(x: Seq<u8>, y: Seq<u8>)
    requires
        x.len() % 5 == 0,
    ensures
        b32_encode(x + y) == b32_encode(x) + b32_encode(y),
    decreases x.len(),
{
    if x.len() == 0 {
        assert(x + y =~= y);
        assert(b32_encode(x) + b32_encode(y) =~= b32_encode(y));
    } else {
        assert(x.len() >= 5);
        assert((x + y).take(5) =~= x.take(5));
        assert((x + y).skip(5) =~= x.skip(5) + y);
        assert(x.skip(5).len() % 5 == 0);
        lemma_b32_encode_append(x.skip(5), y);
        assert(b32_encode(x + y) =~= b32_encode(x) + b32_encode(y));
    }
}

/// Two byte strings with the same encoding are the same: the eight
/// characters of a group pin its five bytes.
pub proof fn lemma_b32_encode_injective(x: Seq<u8>, y: Seq<u8>)
    requires
        x.len() % 5 == 0,
        y.len() % 5 == 0,
        b32_encode(x) == b32_encode(y),
    ensures
        x == y,
    decreases x.len(),
{
    lemma_b32_encode_len(x);
    lemma_b32_encode_len(y);
    assert(x.len() == x.len() / 5 * 5);
    assert(y.len() == y.len() / 5 * 5);
    assert(x.len() / 5 * 8 == y.len() / 5 * 8);
    assert(x.len() == y.len());
    if x.len() == 0 {
        assert(x =~= y);
    } else {
        let gx = x.take(5);
        let gy = y.take(5);
        lemma_b32_digit_bound(gx);
        lemma_b32_digit_bound(gy);
        assert forall|k: int| 0 <= k < 8 implies b32_digit(gx, k) == b32_digit(gy, k) by {
            assert(b32_encode(x)[k] == b32_group_chars(gx)[k]);
            assert(b32_encode(y)[k] == b32_group_chars(gy)[k]);
            assert(b32_char(b32_digit(gx, k) as nat) == b32_char(b32_digit(gy, k) as nat));
            lemma_b32_char_facts(b32_digit(gx, k) as nat);
            lemma_b32_char_facts(b32_digit(gy, k) as nat);
        }
        let x0 = gx[0];
        let x1 = gx[1];
        let x2 = gx[2];
        let x3 = gx[3];
        let x4 = gx[4];
        let y0 = gy[0];
        let y1 = gy[1];
        let y2 = gy[2];
        let y3 = gy[3];
        let y4 = gy[4];
        assert(b32_digit(gx, 0) == b32_digit(gy, 0) && b32_digit(gx, 1) == b32_digit(gy, 1)
            && b32_digit(gx, 2) == b32_digit(gy, 2) && b32_digit(gx, 3) == b32_digit(gy, 3)
            && b32_digit(gx, 4) == b32_digit(gy, 4) && b32_digit(gx, 5) == b32_digit(gy, 5)
            && b32_digit(gx, 6) == b32_digit(gy, 6) && b32_digit(gx, 7) == b32_digit(gy, 7));
        assert(x0 == y0 && x1 == y1 && x2 == y2 && x3 == y3 && x4 == y4) by (bit_vector)
            requires
                (x0 >> 3) == (y0 >> 3),
                (((x0 & 7) << 2) | (x1 >> 6)) == (((y0 & 7) << 2) | (y1 >> 6)),
                ((x1 >> 1) & 31) == ((y1 >> 1) & 31),
                (((x1 & 1) << 4) | (x2 >> 4)) == (((y1 & 1) << 4) | (y2 >> 4)),
                (((x2 & 15) << 1) | (x3 >> 7)) == (((y2 & 15) << 1) | (y3 >> 7)),
                ((x3 >> 2) & 31) == ((y3 >> 2) & 31),
                (((x3 & 3) << 3) | (x4 >> 5)) == (((y3 & 3) << 3) | (y4 >> 5)),
                (x4 & 31) == (y4 & 31),
        ;
        assert(gx =~= gy);
        assert(b32_encode(x.skip(5)) == b32_encode(y.skip(5))) by {
            assert(b32_encode(x) == b32_group_chars(gx) + b32_encode(x.skip(5)));
            assert(b32_encode(y) == b32_group_chars(gy) + b32_encode(y.skip(5)));
            assert(b32_encode(x.skip(5)) =~= b32_encode(x).skip(8));
            assert(b32_encode(y.skip(5)) =~= b32_encode(y).skip(8));
        }
        assert(x.skip(5).len() % 5 == 0);
        lemma_b32_encode_injective(x.skip(5), y.skip(5));
        assert(x =~= y) by {
            assert(forall|i: int| 0 <= i < 5 ==> x[i] == gx[i] && y[i] == gy[i]);
            assert(forall|i: int| 5 <= i < x.len() ==> x[i] == x.skip(5)[i - 5] && y[i]
                == y.skip(5)[i - 5]);
        }
    }
}

fn b32_val_of(c: char) -> (r: Option<u8>)
    ensures
        match r {
            Some(d) => is_b32_char(c) && d < 32 && d as nat == b32_char_val(c),
            None => !is_b32_char(c),
        },
{
    if c >= 'a' && c <= 'z' {
        Some(((c as u32) - 97) as u8)
    } else if c >= '2' && c <= '7' {
        Some(((c as u32) - 50 + 26) as u8)
    } else {
        None
    }
}

fn b32_char_of(d: u8) -> (r: char)
    requires
        d < 32,
    ensures
        r == b32_char(d as nat),
{
    if d < 26 {
        (97 + d) as char
    } else {
        (50 + (d - 26)) as char
    }
}

/// Appends the encoding of `b`, eight characters for each five bytes.
pub fn b32_encode_push(out: &mut Vec<char>, b: &Vec<u8>)
    requires
        b@.len() % 5 == 0,
    ensures
        final(out)@ == old(out)@ + b32_encode(b@),
{
    let len = b.len();
    let mut g: usize = 0;
    while g < len
        invariant
            0 <= g <= len,
            len == b@.len(),
            len % 5 == 0,
            g % 5 == 0,
            out@ == old(out)@ + b32_encode(b@.take(g as int)),
        decreases len - g,
    {
        let x0 = b[g];
        let x1 = b[g + 1];
        let x2 = b[g + 2];
        let x3 = b[g + 3];
        let x4 = b[g + 4];
        let ghost group = b@.subrange(g as int, g + 5);
        proof {
            lemma_b32_digit_bound(group);
            assert(b32_digit(group, 0) == x0 >> 3 && b32_digit(group, 1) == ((x0 & 7) << 2) | (x1
                >> 6) && b32_digit(group, 2) == (x1 >> 1) & 31 && b32_digit(group, 3) == ((x1 & 1)
                << 4) | (x2 >> 4) && b32_digit(group, 4) == ((x2 & 15) << 1) | (x3 >> 7)
                && b32_digit(group, 5) == (x3 >> 2) & 31 && b32_digit(group, 6) == ((x3 & 3) << 3)
                | (x4 >> 5) && b32_digit(group, 7) == x4 & 31);
        }
        out.push(b32_char_of(x0 >> 3));
        out.push(b32_char_of(((x0 & 7) << 2) | (x1 >> 6)));
        out.push(b32_char_of((x1 >> 1) & 31));
        out.push(b32_char_of(((x1 & 1) << 4) | (x2 >> 4)));
        out.push(b32_char_of(((x2 & 15) << 1) | (x3 >> 7)));
        out.push(b32_char_of((x3 >> 2) & 31));
        out.push(b32_char_of(((x3 & 3) << 3) | (x4 >> 5)));
        out.push(b32_char_of(x4 & 31));
        proof {
            assert(b@.take(g + 5) =~= b@.take(g as int) + group);
            lemma_b32_encode_append(b@.take(g as int), group);
            lemma_b32_encode_group(group);
            assert(out@ =~= old(out)@ + b32_encode(b@.take(g as int)) + b32_group_chars(group));
            assert(out@ =~= old(out)@ + b32_encode(b@.take(g + 5)));
        }
        g = g + 5;
    }
    proof {
        assert(b@.take(len as int) =~= b@);
    }
}

/// Decodes a string in the alphabet back into bytes; the result is exactly
/// the byte string whose encoding is the input, if there is one.
#[verifier::rlimit(60)]
pub fn b32_decode(s: &str) -> (r: Option<Vec<u8>>)
    ensures
        match r {
            Some(b) => b@.len() % 5 == 0 && s@ == b32_encode(b@),
            None => forall|b: Seq<u8>| b.len() % 5 == 0 ==> s@ != b32_encode(b),
        },
{
    let len = s.unicode_len();
    if len % 8 != 0 {
        proof {
            assert forall|b: Seq<u8>| b.len() % 5 == 0 implies s@ != b32_encode(b) by {
                lemma_b32_encode_len(b);
                if s@ == b32_encode(b) {
                    assert(s@.len() % 8 == 0) by {
                        assert(s@.len() == b.len() / 5 * 8);
                        vstd::arithmetic::div_mod::lemma_fundamental_div_mod_converse(
                            (b.len() / 5 * 8) as int, 8, (b.len() / 5) as int, 0);
                    }
                }
            }
        }
        return None;
    }
    let mut out: Vec<u8> = Vec::new();
    let mut g: usize = 0;
    while g < len
        invariant
            0 <= g <= len,
            len == s@.len(),
            len % 8 == 0,
            g % 8 == 0,
            out@.len() % 5 == 0,
            s@.take(g as int) == b32_encode(out@),
        decreases len - g,
    {
        let r0 = b32_val_of(s.get_char(g));
        let r1 = b32_val_of(s.get_char(g + 1));
        let r2 = b32_val_of(s.get_char(g + 2));
        let r3 = b32_val_of(s.get_char(g + 3));
        let r4 = b32_val_of(s.get_char(g + 4));
        let r5 = b32_val_of(s.get_char(g + 5));
        let r6 = b32_val_of(s.get_char(g + 6));
        let r7 = b32_val_of(s.get_char(g + 7));
        let (d0, d1, d2, d3, d4, d5, d6, d7) = match (r0, r1, r2, r3, r4, r5, r6, r7) {
            (
                Some(d0),
                Some(d1),
                Some(d2),
                Some(d3),
                Some(d4),
                Some(d5),
                Some(d6),
                Some(d7),
            ) => (d0, d1, d2, d3, d4, d5, d6, d7),
            _ => {
                proof {
                    assert(exists|k: int| g <= k < g + 8 && !is_b32_char(#[trigger] s@[k]));
                    assert forall|b: Seq<u8>| b.len() % 5 == 0 implies s@ != b32_encode(b) by {
                        lemma_b32_encode_chars(b);
                    }
                }
                return None;
            },
        };
        let y0 = (d0 << 3) | (d1 >> 2);
        let y1 = ((d1 & 3) << 6) | (d2 << 1) | (d3 >> 4);
        let y2 = ((d3 & 15) << 4) | (d4 >> 1);
        let y3 = ((d4 & 1) << 7) | (d5 << 2) | (d6 >> 3);
        let y4 = ((d6 & 7) << 5) | d7;
        proof {
            // splicing the five-bit values into bytes and cutting the bytes
            // back into five-bit values returns the values read
            assert((y0 >> 3) == d0 && (((y0 & 7) << 2) | (y1 >> 6)) == d1 && ((y1 >> 1) & 31) == d2
                && ((((y1 & 1) << 4) | (y2 >> 4))) == d3 && ((((y2 & 15) << 1) | (y3 >> 7))) == d4
                && ((y3 >> 2) & 31) == d5 && ((((y3 & 3) << 3) | (y4 >> 5))) == d6 && ((y4 & 31))
                == d7) by (bit_vector)
                requires
                    d0 < 32 && d1 < 32 && d2 < 32 && d3 < 32 && d4 < 32 && d5 < 32 && d6 < 32
                        && d7 < 32,
                    y0 == (d0 << 3) | (d1 >> 2),
                    y1 == ((d1 & 3) << 6) | (d2 << 1) | (d3 >> 4),
                    y2 == ((d3 & 15) << 4) | (d4 >> 1),
                    y3 == ((d4 & 1) << 7) | (d5 << 2) | (d6 >> 3),
                    y4 == ((d6 & 7) << 5) | d7,
            ;
        }
        let ghost prev = out@;
        out.push(y0);
        out.push(y1);
        out.push(y2);
        out.push(y3);
        out.push(y4);
        proof {
            let group = out@.subrange(prev.len() as int, out@.len() as int);
            assert(out@ =~= prev + group);
            assert(group[0] == y0 && group[1] == y1 && group[2] == y2 && group[3] == y3
                && group[4] == y4);
            assert(b32_digit(group, 0) == d0 && b32_digit(group, 1) == d1 && b32_digit(group, 2)
                == d2 && b32_digit(group, 3) == d3 && b32_digit(group, 4) == d4 && b32_digit(
                group, 5) == d5 && b32_digit(group, 6) == d6 && b32_digit(group, 7) == d7);
            let chars = b32_group_chars(group);
            lemma_b32_char_inverse(s@[g as int]);
            lemma_b32_char_inverse(s@[g + 1]);
            lemma_b32_char_inverse(s@[g + 2]);
            lemma_b32_char_inverse(s@[g + 3]);
            lemma_b32_char_inverse(s@[g + 4]);
            lemma_b32_char_inverse(s@[g + 5]);
            lemma_b32_char_inverse(s@[g + 6]);
            lemma_b32_char_inverse(s@[g + 7]);
            assert(chars[0] == s@[g as int] && chars[1] == s@[g + 1] && chars[2] == s@[g + 2]
                && chars[3] == s@[g + 3] && chars[4] == s@[g + 4] && chars[5] == s@[g + 5]
                && chars[6] == s@[g + 6] && chars[7] == s@[g + 7]);
            assert(s@.subrange(g as int, g + 8) =~= chars);
            assert(s@.take(g + 8) =~= s@.take(g as int) + s@.subrange(g as int, g + 8));
            lemma_b32_encode_append(prev, group);
            lemma_b32_encode_group(group);
            assert(s@.take(g + 8) == b32_encode(out@));
        }
        g = g + 8;
    }
    proof {
        assert(s@.take(len as int) =~= s@);
    }
    Some(out)
}

} // verus!
