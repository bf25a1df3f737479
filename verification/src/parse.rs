//! Parsing the text form of peer endpoints: the exact inverse of the
//! formatting in `address`. A string is accepted when and only when it is
//! the text form of a well-formed endpoint.

use vstd::prelude::*;
use vstd::string::*;
use crate::address::AddrModel;
use crate::address::PeerAddress;
use crate::address::dot_onion;
use crate::address::hex4;
use crate::address::hex_digit;
use crate::address::ip4_host;
use crate::address::ip6_host;
use crate::base32::b32_decode;
use crate::base32::b32_encode;
use crate::base32::is_b32_char;
use crate::base32::lemma_b32_encode_chars;
use crate::base32::lemma_b32_encode_len;
use crate::text::dec_str;
use crate::text::is_dec_digit_char;
use crate::text::lemma_dec_str_ok;
use crate::text::parse_dec_u16;

verus! {

/// Rejection of an endpoint string: no well-formed endpoint has it as its
/// text form.
#[derive(Debug, PartialEq, Eq)]
pub struct AddressParseError;

/// The shape of a formatted IPv4 endpoint: digit runs for the octets,
/// three dots, the colon, the port digits.
proof fn lemma_ip4_shape(o: Seq<u8>, port: u16)
    requires
        o.len() == 4,
    ensures
        ({
            let f = (AddrModel::Ip4 { octets: o, port }).formatted();
            let l0 = dec_str(o[0] as nat).len() as int;
            let l1 = dec_str(o[1] as nat).len() as int;
            let l2 = dec_str(o[2] as nat).len() as int;
            let l3 = dec_str(o[3] as nat).len() as int;
            let hl = l0 + l1 + l2 + l3 + 3;
            let q1 = l0;
            let q2 = l0 + 1 + l1;
            let q3 = l0 + 1 + l1 + 1 + l2;
            &&& f.len() == hl + 1 + dec_str(port as nat).len()
            &&& f.len() > hl + 1
            &&& f[hl] == ':'
            &&& forall|i: int| 0 <= i < hl ==> #[trigger] f[i] != ':'
            &&& forall|i: int| 0 <= i < hl ==> (is_dec_digit_char(#[trigger] f[i]) || f[i]
                == '.')
            &&& f[q1] == '.' && f[q2] == '.' && f[q3] == '.'
            &&& forall|i: int| 0 <= i < hl && i != q1 && i != q2 && i != q3
                ==> is_dec_digit_char(#[trigger] f[i])
            &&& f.subrange(0, q1) == dec_str(o[0] as nat)
            &&& f.subrange(q1 + 1, q2) == dec_str(o[1] as nat)
            &&& f.subrange(q2 + 1, q3) == dec_str(o[2] as nat)
            &&& f.subrange(q3 + 1, hl) == dec_str(o[3] as nat)
            &&& f.subrange(hl + 1, f.len() as int) == dec_str(port as nat)
        }),
{
    lemma_dec_str_ok(o[0] as nat);
    lemma_dec_str_ok(o[1] as nat);
    lemma_dec_str_ok(o[2] as nat);
    lemma_dec_str_ok(o[3] as nat);
    lemma_dec_str_ok(port as nat);
    let f = (AddrModel::Ip4 { octets: o, port }).formatted();
    let d0 = dec_str(o[0] as nat);
    let d1 = dec_str(o[1] as nat);
    let d2 = dec_str(o[2] as nat);
    let d3 = dec_str(o[3] as nat);
    let dp = dec_str(port as nat);
    assert(f =~= d0 + seq!['.'] + d1 + seq!['.'] + d2 + seq!['.'] + d3 + seq![':'] + dp);
    let l0 = d0.len() as int;
    let l1 = d1.len() as int;
    let l2 = d2.len() as int;
    let l3 = d3.len() as int;
    let hl = l0 + l1 + l2 + l3 + 3;
    let q1 = l0;
    let q2 = l0 + 1 + l1;
    let q3 = l0 + 1 + l1 + 1 + l2;
    assert forall|i: int| 0 <= i < hl && i != q1 && i != q2 && i != q3 implies is_dec_digit_char(
        #[trigger] f[i]) by {
        if i < q1 {
            assert(f[i] == d0[i]);
        } else if i < q2 {
            assert(f[i] == d1[i - q1 - 1]);
        } else if i < q3 {
            assert(f[i] == d2[i - q2 - 1]);
        } else {
            assert(f[i] == d3[i - q3 - 1]);
        }
    }
    assert forall|i: int| 0 <= i < hl implies #[trigger] f[i] != ':' by {
        if i != q1 && i != q2 && i != q3 {
            assert(is_dec_digit_char(f[i]));
        }
    }
    assert(f.subrange(0, q1) =~= d0);
    assert(f.subrange(q1 + 1, q2) =~= d1);
    assert(f.subrange(q2 + 1, q3) =~= d2);
    assert(f.subrange(q3 + 1, hl) =~= d3);
    assert(f.subrange(hl + 1, f.len() as int) =~= dp);
}

/// The shape of a formatted onion endpoint: the alphabet characters of the
/// identity, the `.onion` suffix, the colon, the port digits.
proof fn lemma_onion_shape(a: AddrModel)
    requires
        a.wf(),
        a is Onion2 || a is Onion3,
    ensures
        ({
            let f = a.formatted();
            let id = if a is Onion2 {
                a->Onion2_id
            } else {
                a->Onion3_id
            };
            let el = (id.len() / 5 * 8) as int;
            let hl = el + 6;
            &&& b32_encode(id).len() == el
            &&& (el == 16 || el == 56)
            &&& f.len() == hl + 1 + dec_str(a.port() as nat).len()
            &&& f.len() > hl + 1
            &&& f[hl] == ':'
            &&& forall|i: int| 0 <= i < hl ==> #[trigger] f[i] != ':'
            &&& forall|i: int| 0 <= i < el ==> is_b32_char(#[trigger] f[i])
            &&& f.subrange(el, hl) == dot_onion()
            &&& f.subrange(0, el) == b32_encode(id)
            &&& f.subrange(hl + 1, f.len() as int) == dec_str(a.port() as nat)
        }),
{
    let f = a.formatted();
    let id = if a is Onion2 {
        a->Onion2_id
    } else {
        a->Onion3_id
    };
    lemma_b32_encode_len(id);
    lemma_b32_encode_chars(id);
    lemma_dec_str_ok(a.port() as nat);
    let e = b32_encode(id);
    let dp = dec_str(a.port() as nat);
    assert(f =~= e + dot_onion() + seq![':'] + dp);
    let el = e.len() as int;
    let hl = el + 6;
    assert forall|i: int| 0 <= i < hl implies #[trigger] f[i] != ':' by {
        if i < el {
            assert(f[i] == e[i]);
            assert(is_b32_char(f[i]));
        } else {
            assert(f[i] == dot_onion()[i - el]);
        }
    }
    assert forall|i: int| 0 <= i < el implies is_b32_char(#[trigger] f[i]) by {
        assert(f[i] == e[i]);
    }
    assert(f.subrange(el, hl) =~= dot_onion());
    assert(f.subrange(0, el) =~= e);
    assert(f.subrange(hl + 1, f.len() as int) =~= dp);
}

/// The shape of a formatted IPv6 endpoint: the bracket, eight fixed-width
/// groups with their separators, the closing bracket, the colon, the port.
proof fn lemma_ip6_shape(o: Seq<u8>, port: u16)
    requires
        o.len() == 16,
    ensures
        ({
            let f = (AddrModel::Ip6 { octets: o, port }).formatted();
            &&& f.len() == 42 + dec_str(port as nat).len()
            &&& f.len() > 42
            &&& f[0] == '['
            &&& f[40] == ']'
            &&& f[41] == ':'
            &&& f.subrange(1, 5) == hex4(o[0], o[1])
            &&& f.subrange(6, 10) == hex4(o[2], o[3])
            &&& f.subrange(11, 15) == hex4(o[4], o[5])
            &&& f.subrange(16, 20) == hex4(o[6], o[7])
            &&& f.subrange(21, 25) == hex4(o[8], o[9])
            &&& f.subrange(26, 30) == hex4(o[10], o[11])
            &&& f.subrange(31, 35) == hex4(o[12], o[13])
            &&& f.subrange(36, 40) == hex4(o[14], o[15])
            &&& f[5] == ':' && f[10] == ':' && f[15] == ':' && f[20] == ':' && f[25] == ':'
                && f[30] == ':' && f[35] == ':'
            &&& f.subrange(42, f.len() as int) == dec_str(port as nat)
        }),
{
    lemma_dec_str_ok(port as nat);
    let f = (AddrModel::Ip6 { octets: o, port }).formatted();
    let dp = dec_str(port as nat);
    let h = ip6_host(o);
    assert(h =~= seq!['['] + hex4(o[0], o[1]) + seq![':'] + hex4(o[2], o[3]) + seq![':'] + hex4(
        o[4], o[5]) + seq![':'] + hex4(o[6], o[7]) + seq![':'] + hex4(o[8], o[9]) + seq![':']
        + hex4(o[10], o[11]) + seq![':'] + hex4(o[12], o[13]) + seq![':'] + hex4(o[14], o[15])
        + seq![']']);
    assert(h.len() == 41);
    assert(f =~= h + seq![':'] + dp);
    assert(f.subrange(1, 5) =~= hex4(o[0], o[1]));
    assert(f.subrange(6, 10) =~= hex4(o[2], o[3]));
    assert(f.subrange(11, 15) =~= hex4(o[4], o[5]));
    assert(f.subrange(16, 20) =~= hex4(o[6], o[7]));
    assert(f.subrange(21, 25) =~= hex4(o[8], o[9]));
    assert(f.subrange(26, 30) =~= hex4(o[10], o[11]));
    assert(f.subrange(31, 35) =~= hex4(o[12], o[13]));
    assert(f.subrange(36, 40) =~= hex4(o[14], o[15]));
    assert(f.subrange(42, f.len() as int) =~= dp);
}

/// Formatted endpoints never begin like another family: IPv4 begins with a
/// digit, onion with an alphabet character, IPv6 with the bracket.
proof fn lemma_first_char(a: AddrModel)
    requires
        a.wf(),
    ensures
        a is Ip4 ==> is_dec_digit_char(a.formatted()[0]),
        (a is Onion2 || a is Onion3) ==> is_b32_char(a.formatted()[0]),
        a is Ip6 ==> a.formatted()[0] == '[',
        a.formatted().len() > 0,
{
    match a {
        AddrModel::Ip4 { octets, port } => {
            lemma_ip4_shape(octets, port);
            let l0 = dec_str(octets[0] as nat).len() as int;
            lemma_dec_str_ok(octets[0] as nat);
            assert(a.formatted()[0] == dec_str(octets[0] as nat)[0]) by {
                assert(a.formatted().subrange(0, l0) == dec_str(octets[0] as nat));
                assert(a.formatted().subrange(0, l0)[0] == a.formatted()[0]);
            }
        },
        AddrModel::Ip6 { octets, port } => {
            lemma_ip6_shape(octets, port);
        },
        AddrModel::Onion2 { id, port } => {
            lemma_onion_shape(a);
            let e = b32_encode(id);
            lemma_b32_encode_len(id);
            assert(a.formatted()[0] == e[0]) by {
                assert(a.formatted().subrange(0, e.len() as int) == e);
                assert(a.formatted().subrange(0, e.len() as int)[0] == a.formatted()[0]);
            }
            lemma_b32_encode_chars(id);
        },
        AddrModel::Onion3 { id, port } => {
            lemma_onion_shape(a);
            let e = b32_encode(id);
            lemma_b32_encode_len(id);
            assert(a.formatted()[0] == e[0]) by {
                assert(a.formatted().subrange(0, e.len() as int) == e);
                assert(a.formatted().subrange(0, e.len() as int)[0] == a.formatted()[0]);
            }
            lemma_b32_encode_chars(id);
        },
    }
}

/// Finds the first occurrence of a character in a range.
fn find_char(s: &str, from: usize, to: usize, c: char) -> (r: Option<usize>)
    requires
        from <= to <= s@.len(),
    ensures
        match r {
            Some(i) => from <= i < to && s@[i as int] == c && forall|j: int| from <= j < i
                ==> s@[j] != c,
            None => forall|j: int| from <= j < to ==> s@[j] != c,
        },
{
    let mut i = from;
    while i < to
        invariant
            from <= i <= to <= s@.len(),
            forall|j: int| from <= j < i ==> s@[j] != c,
        decreases to - i,
    {
        if s.get_char(i) == c {
            return Some(i);
        }
        i += 1;
    }
    None
}

/// The value of a hexadecimal digit character, if it is one.
fn hex_val(c: char) -> (r: Option<u8>)
    ensures
        match r {
            Some(d) => d < 16 && hex_digit(d) == c,
            None => forall|d: u8| d < 16 ==> hex_digit(d) != c,
        },
{
    if c >= '0' && c <= '9' {
        Some(((c as u32) - 48) as u8)
    } else if c >= 'a' && c <= 'f' {
        Some(((c as u32) - 87) as u8)
    } else {
        None
    }
}

impl PeerAddress {
    /// Parses the text form of an endpoint. A string is accepted when and
    /// only when it is the text form of a well-formed endpoint, which is
    /// then returned.
    pub fn parse(s: &str) -> (r: Result<PeerAddress, AddressParseError>)
        ensures
            match r {
                Ok(a) => a@.wf() && a@.formatted() == s@,
                Err(_) => forall|a: AddrModel| a.wf() ==> a.formatted() != s@,
            },
    {
        let n = s.unicode_len();
        if n == 0 {
            proof {
                assert forall|a: AddrModel| a.wf() implies a.formatted() != s@ by {
                    lemma_first_char(a);
                }
            }
            return Err(AddressParseError);
        }
        if s.get_char(0) == '[' {
            return Self::parse_ip6(s);
        }
        let ci = match find_char(s, 0, n, ':') {
            Some(i) => i,
            None => {
                proof {
                    assert forall|a: AddrModel| a.wf() implies a.formatted() != s@ by {
                        if a.formatted() == s@ {
                            lemma_first_char(a);
                            match a {
                                AddrModel::Ip4 { octets, port } => {
                                    lemma_ip4_shape(octets, port);
                                },
                                AddrModel::Ip6 { octets, port } => {
                                    lemma_ip6_shape(octets, port);
                                },
                                AddrModel::Onion2 { .. } => {
                                    lemma_onion_shape(a);
                                },
                                AddrModel::Onion3 { .. } => {
                                    lemma_onion_shape(a);
                                },
                            }
                        }
                    }
                }
                return Err(AddressParseError);
            },
        };
        let port = match parse_dec_u16(s.substring_char(ci + 1, n)) {
            Some(p) => p,
            None => {
                proof {
                    assert forall|a: AddrModel| a.wf() implies a.formatted() != s@ by {
                        if a.formatted() == s@ {
                            lemma_hostport_align(a, s@, ci as int);
                        }
                    }
                }
                return Err(AddressParseError);
            },
        };
        // the host is everything before the first colon; a `.onion` suffix
        // selects the onion family, anything else is tried as IPv4
        let is_onion = ci > 6 && s.get_char(ci - 6) == '.' && s.get_char(ci - 5) == 'o'
            && s.get_char(ci - 4) == 'n' && s.get_char(ci - 3) == 'i' && s.get_char(ci - 2)
            == 'o' && s.get_char(ci - 1) == 'n';
        if is_onion {
            Self::parse_onion_host(s, ci, port)
        } else {
            Self::parse_ip4_host(s, ci, port)
        }
    }
}

/// Aligns a parsed string with the shape of the family it must belong to:
/// the first colon closes the host, and the port digits follow it.
proof fn lemma_hostport_align(a: AddrModel, s: Seq<char>, ci: int)
    requires
        a.wf(),
        a.formatted() == s,
        !(a is Ip6),
        0 <= ci < s.len(),
        s[ci] == ':',
        forall|j: int| 0 <= j < ci ==> s[j] != ':',
    ensures
        a is Ip4 ==> ci == ip4_host(a->Ip4_octets).len(),
        a is Onion2 ==> ci == (a->Onion2_id.len() / 5 * 8) + 6,
        a is Onion3 ==> ci == (a->Onion3_id.len() / 5 * 8) + 6,
        s.subrange(ci + 1, s.len() as int) == dec_str(a.port() as nat),
{
    match a {
        AddrModel::Ip4 { octets, port } => {
            lemma_ip4_shape(octets, port);
            let hl = ip4_host(octets).len() as int;
            assert(hl == dec_str(octets[0] as nat).len() + dec_str(octets[1] as nat).len()
                + dec_str(octets[2] as nat).len() + dec_str(octets[3] as nat).len() + 3) by {
                lemma_dec_str_ok(octets[0] as nat);
                assert(ip4_host(octets) =~= dec_str(octets[0] as nat) + seq!['.'] + dec_str(
                    octets[1] as nat) + seq!['.'] + dec_str(octets[2] as nat) + seq!['.']
                    + dec_str(octets[3] as nat));
            }
            if ci < hl {
                assert(s[ci] != ':');
            }
            if ci > hl {
                assert(s[hl] == ':');
            }
            assert(ci == hl);
        },
        AddrModel::Ip6 { .. } => {
        },
        AddrModel::Onion2 { id, port } => {
            lemma_onion_shape(a);
            let hl = (id.len() / 5 * 8) as int + 6;
            if ci < hl {
                assert(s[ci] != ':');
            }
            if ci > hl {
                assert(s[hl] == ':');
            }
        },
        AddrModel::Onion3 { id, port } => {
            lemma_onion_shape(a);
            let hl = (id.len() / 5 * 8) as int + 6;
            if ci < hl {
                assert(s[ci] != ':');
            }
            if ci > hl {
                assert(s[hl] == ':');
            }
        },
    }
}

/// Reads four hexadecimal digits as two octets.
fn read_group(s: &str, base: usize) -> (r: Option<(u8, u8)>)
    requires
        base + 4 <= s@.len(),
        s@.len() <= usize::MAX,
    ensures
        match r {
            Some(g) => s@.subrange(base as int, base + 4) == hex4(g.0, g.1),
            None => forall|hi: u8, lo: u8| s@.subrange(base as int, base + 4) != hex4(hi, lo),
        },
{
    let c0 = hex_val(s.get_char(base));
    let c1 = hex_val(s.get_char(base + 1));
    let c2 = hex_val(s.get_char(base + 2));
    let c3 = hex_val(s.get_char(base + 3));
    match (c0, c1, c2, c3) {
        (Some(v0), Some(v1), Some(v2), Some(v3)) => {
            let hi = v0 * 16 + v1;
            let lo = v2 * 16 + v3;
            proof {
                vstd::arithmetic::div_mod::lemma_fundamental_div_mod_converse(
                    hi as int, 16, v0 as int, v1 as int);
                vstd::arithmetic::div_mod::lemma_fundamental_div_mod_converse(
                    lo as int, 16, v2 as int, v3 as int);
                assert(s@.subrange(base as int, base + 4) =~= hex4(hi, lo));
            }
            Some((hi, lo))
        },
        _ => {
            proof {
                assert forall|hi: u8, lo: u8| s@.subrange(base as int, base + 4) != hex4(
                    hi, lo) by {
                    if s@.subrange(base as int, base + 4) == hex4(hi, lo) {
                        assert(s@[base as int] == hex4(hi, lo)[0]);
                        assert(s@[base + 1] == hex4(hi, lo)[1]);
                        assert(s@[base + 2] == hex4(hi, lo)[2]);
                        assert(s@[base + 3] == hex4(hi, lo)[3]);
                        assert(hi / 16 < 16 && hi % 16 < 16 && lo / 16 < 16 && lo % 16 < 16);
                    }
                }
            }
            None
        },
    }
}

impl PeerAddress {
    /// Parses the bracketed eight-group form.
    fn parse_ip6(s: &str) -> (r: Result<PeerAddress, AddressParseError>)
        requires
            s@.len() > 0,
            s@[0] == '[',
        ensures
            match r {
                Ok(a) => a@.wf() && a@.formatted() == s@,
                Err(_) => forall|a: AddrModel| a.wf() ==> a.formatted() != s@,
            },
    {
        let n = s.unicode_len();
        let ok_frame = n >= 43 && {
            let c40 = s.get_char(40);
            let c41 = s.get_char(41);
            c40 == ']' && c41 == ':'
        };
        let ok_seps = ok_frame && s.get_char(5) == ':' && s.get_char(10) == ':' && s.get_char(
            15) == ':' && s.get_char(20) == ':' && s.get_char(25) == ':' && s.get_char(30)
            == ':' && s.get_char(35) == ':';
        if !ok_seps {
            proof {
                assert forall|a: AddrModel| a.wf() implies a.formatted() != s@ by {
                    if a.formatted() == s@ {
                        lemma_first_char(a);
                        match a {
                            AddrModel::Ip6 { octets, port } => {
                                lemma_ip6_shape(octets, port);
                                assert(s@[5] == ':' && s@[10] == ':' && s@[15] == ':' && s@[20]
                                    == ':' && s@[25] == ':' && s@[30] == ':' && s@[35] == ':');
                            },
                            _ => {},
                        }
                    }
                }
            }
            return Err(AddressParseError);
        }
        let g0 = read_group(s, 1);
        let g1 = read_group(s, 6);
        let g2 = read_group(s, 11);
        let g3 = read_group(s, 16);
        let g4 = read_group(s, 21);
        let g5 = read_group(s, 26);
        let g6 = read_group(s, 31);
        let g7 = read_group(s, 36);
        let gs = match (g0, g1, g2, g3, g4, g5, g6, g7) {
            (
                Some(g0),
                Some(g1),
                Some(g2),
                Some(g3),
                Some(g4),
                Some(g5),
                Some(g6),
                Some(g7),
            ) => (g0, g1, g2, g3, g4, g5, g6, g7),
            _ => {
                proof {
                    assert forall|a: AddrModel| a.wf() implies a.formatted() != s@ by {
                        if a.formatted() == s@ {
                            lemma_first_char(a);
                            match a {
                                AddrModel::Ip6 { octets, port } => {
                                    lemma_ip6_shape(octets, port);
                                },
                                _ => {},
                            }
                        }
                    }
                }
                return Err(AddressParseError);
            },
        };
        let port = match parse_dec_u16(s.substring_char(42, n)) {
            Some(p) => p,
            None => {
                proof {
                    assert forall|a: AddrModel| a.wf() implies a.formatted() != s@ by {
                        if a.formatted() == s@ {
                            lemma_first_char(a);
                            match a {
                                AddrModel::Ip6 { octets, port } => {
                                    lemma_ip6_shape(octets, port);
                                    assert(s@.subrange(42, s@.len() as int) == dec_str(
                                        port as nat));
                                },
                                _ => {},
                            }
                        }
                    }
                }
                return Err(AddressParseError);
            },
        };
        let mut octets: Vec<u8> = Vec::new();
        octets.push(gs.0.0);
        octets.push(gs.0.1);
        octets.push(gs.1.0);
        octets.push(gs.1.1);
        octets.push(gs.2.0);
        octets.push(gs.2.1);
        octets.push(gs.3.0);
        octets.push(gs.3.1);
        octets.push(gs.4.0);
        octets.push(gs.4.1);
        octets.push(gs.5.0);
        octets.push(gs.5.1);
        octets.push(gs.6.0);
        octets.push(gs.6.1);
        octets.push(gs.7.0);
        octets.push(gs.7.1);
        let a = PeerAddress::Ipv6 { octets, port };
        proof {
            let o = a@->Ip6_octets;
            lemma_ip6_shape(o, port);
            let f = a@.formatted();
            assert(s@.subrange(1, 5) == hex4(o[0], o[1]));
            assert(s@.subrange(6, 10) == hex4(o[2], o[3]));
            assert(s@.subrange(11, 15) == hex4(o[4], o[5]));
            assert(s@.subrange(16, 20) == hex4(o[6], o[7]));
            assert(s@.subrange(21, 25) == hex4(o[8], o[9]));
            assert(s@.subrange(26, 30) == hex4(o[10], o[11]));
            assert(s@.subrange(31, 35) == hex4(o[12], o[13]));
            assert(s@.subrange(36, 40) == hex4(o[14], o[15]));
            assert(s@.subrange(42, n as int) == dec_str(port as nat));
            assert(f.len() == s@.len());
            assert forall|i: int| 0 <= i < s@.len() implies f[i] == s@[i] by {
                if i == 0 || i == 40 || i == 41 || i == 5 || i == 10 || i == 15 || i == 20
                    || i == 25 || i == 30 || i == 35 {
                } else if i < 5 {
                    assert(f[i] == f.subrange(1, 5)[i - 1]);
                    assert(s@[i] == s@.subrange(1, 5)[i - 1]);
                } else if i < 10 {
                    assert(f[i] == f.subrange(6, 10)[i - 6]);
                    assert(s@[i] == s@.subrange(6, 10)[i - 6]);
                } else if i < 15 {
                    assert(f[i] == f.subrange(11, 15)[i - 11]);
                    assert(s@[i] == s@.subrange(11, 15)[i - 11]);
                } else if i < 20 {
                    assert(f[i] == f.subrange(16, 20)[i - 16]);
                    assert(s@[i] == s@.subrange(16, 20)[i - 16]);
                } else if i < 25 {
                    assert(f[i] == f.subrange(21, 25)[i - 21]);
                    assert(s@[i] == s@.subrange(21, 25)[i - 21]);
                } else if i < 30 {
                    assert(f[i] == f.subrange(26, 30)[i - 26]);
                    assert(s@[i] == s@.subrange(26, 30)[i - 26]);
                } else if i < 35 {
                    assert(f[i] == f.subrange(31, 35)[i - 31]);
                    assert(s@[i] == s@.subrange(31, 35)[i - 31]);
                } else if i < 40 {
                    assert(f[i] == f.subrange(36, 40)[i - 36]);
                    assert(s@[i] == s@.subrange(36, 40)[i - 36]);
                } else {
                    assert(f[i] == dec_str(port as nat)[i - 42]);
                    assert(s@[i] == s@.subrange(42, n as int)[i - 42]);
                }
            }
            assert(f =~= s@);
        }
        Ok(a)
    }

    /// Parses the host of an onion endpoint, once the `.onion` suffix and
    /// the port are established.
    #[verifier::rlimit(100)]
    fn parse_onion_host(s: &str, ci: usize, port: u16) -> (r: Result<
        PeerAddress,
        AddressParseError,
    >)
        requires
            6 < ci < s@.len(),
            s@[0] != '[',
            s@[ci as int] == ':',
            forall|j: int| 0 <= j < ci ==> s@[j] != ':',
            s@[ci - 6] == '.' && s@[ci - 5] == 'o' && s@[ci - 4] == 'n' && s@[ci - 3] == 'i'
                && s@[ci - 2] == 'o' && s@[ci - 1] == 'n',
            s@.subrange(ci + 1, s@.len() as int) == dec_str(port as nat),
        ensures
            match r {
                Ok(a) => a@.wf() && a@.formatted() == s@,
                Err(_) => forall|a: AddrModel| a.wf() ==> a.formatted() != s@,
            },
    {
        let el = ci - 6;
        let decoded = if el == 16 || el == 56 {
            b32_decode(s.substring_char(0, el))
        } else {
            None
        };
        match decoded {
            Some(id) => {
                proof {
                    lemma_b32_encode_len(id@);
                }
                let a = if id.len() == 10 {
                    PeerAddress::OnionV2 { id, port }
                } else {
                    PeerAddress::OnionV3 { id, port }
                };
                proof {
                    lemma_onion_shape(a@);
                    let f = a@.formatted();
                    assert(f.len() == s@.len());
                    assert forall|i: int| 0 <= i < s@.len() implies f[i] == s@[i] by {
                        if i < el {
                            assert(f[i] == f.subrange(0, el as int)[i]);
                            assert(s@[i] == s@.subrange(0, el as int)[i]);
                        } else if i < ci {
                            assert(f[i] == f.subrange(el as int, ci as int)[i - el]);
                            assert(dot_onion()[0] == '.' && dot_onion()[1] == 'o' && dot_onion()[
                                2] == 'n' && dot_onion()[3] == 'i' && dot_onion()[4] == 'o'
                                && dot_onion()[5] == 'n');
                        } else if i == ci {
                        } else {
                            assert(f[i] == dec_str(port as nat)[i - ci - 1]);
                            assert(s@[i] == s@.subrange(ci + 1, s@.len() as int)[i - ci - 1]);
                        }
                    }
                    assert(f =~= s@);
                }
                Ok(a)
            },
            None => {
                proof {
                    assert forall|a: AddrModel| a.wf() implies a.formatted() != s@ by {
                        if a.formatted() == s@ {
                            lemma_first_char(a);
                            match a {
                                AddrModel::Ip4 { .. } => {
                                    lemma_not_ip4_here(a, s@, ci as int);
                                },
                                AddrModel::Onion2 { id, .. } => {
                                    lemma_onion_shape(a);
                                    lemma_hostport_align(a, s@, ci as int);
                                    assert(s@.subrange(0, el as int) == b32_encode(id));
                                },
                                AddrModel::Onion3 { id, .. } => {
                                    lemma_onion_shape(a);
                                    lemma_hostport_align(a, s@, ci as int);
                                    assert(s@.subrange(0, el as int) == b32_encode(id));
                                },
                                _ => {},
                            }
                        }
                    }
                }
                Err(AddressParseError)
            },
        }
    }

    /// Parses the host of an IPv4 endpoint, once the port is established
    /// and the `.onion` suffix has been ruled out.
    #[verifier::rlimit(100)]
    fn parse_ip4_host(s: &str, ci: usize, port: u16) -> (r: Result<
        PeerAddress,
        AddressParseError,
    >)
        requires
            ci < s@.len(),
            s@[0] != '[',
            s@[ci as int] == ':',
            forall|j: int| 0 <= j < ci ==> s@[j] != ':',
            !(6 < ci && s@[ci - 6] == '.' && s@[ci - 5] == 'o' && s@[ci - 4] == 'n' && s@[ci
                - 3] == 'i' && s@[ci - 2] == 'o' && s@[ci - 1] == 'n'),
            s@.subrange(ci + 1, s@.len() as int) == dec_str(port as nat),
        ensures
            match r {
                Ok(a) => a@.wf() && a@.formatted() == s@,
                Err(_) => forall|a: AddrModel| a.wf() ==> a.formatted() != s@,
            },
    {
        let p1 = match find_char(s, 0, ci, '.') {
            Some(p) => p,
            None => {
                proof {
                    assert forall|a: AddrModel| a.wf() implies a.formatted() != s@ by {
                        if a.formatted() == s@ {
                            lemma_candidate_is_ip4(a, s@, ci as int);
                            lemma_ip4_full(a, s@, ci as int);
                            let l0 = dec_str(a->Ip4_octets[0] as nat).len() as int;
                            assert(s@[l0] == '.');
                        }
                    }
                }
                return Err(AddressParseError);
            },
        };
        let p2 = match find_char(s, p1 + 1, ci, '.') {
            Some(p) => p,
            None => {
                proof {
                    assert forall|a: AddrModel| a.wf() implies a.formatted() != s@ by {
                        if a.formatted() == s@ {
                            lemma_candidate_is_ip4(a, s@, ci as int);
                            lemma_ip4_full(a, s@, ci as int);
                            lemma_first_dot(a, s@, ci as int, p1 as int);
                            let o = a->Ip4_octets;
                            let q2 = dec_str(o[0] as nat).len() + 1 + dec_str(
                                o[1] as nat).len() as int;
                            assert(s@[q2] == '.');
                        }
                    }
                }
                return Err(AddressParseError);
            },
        };
        let p3 = match find_char(s, p2 + 1, ci, '.') {
            Some(p) => p,
            None => {
                proof {
                    assert forall|a: AddrModel| a.wf() implies a.formatted() != s@ by {
                        if a.formatted() == s@ {
                            lemma_candidate_is_ip4(a, s@, ci as int);
                            lemma_ip4_full(a, s@, ci as int);
                            lemma_first_dot(a, s@, ci as int, p1 as int);
                            lemma_second_dot(a, s@, ci as int, p1 as int, p2 as int);
                            let o = a->Ip4_octets;
                            let q3 = dec_str(o[0] as nat).len() + 1 + dec_str(
                                o[1] as nat).len() + 1 + dec_str(o[2] as nat).len() as int;
                            assert(s@[q3] == '.');
                        }
                    }
                }
                return Err(AddressParseError);
            },
        };
        if let Some(p4) = find_char(s, p3 + 1, ci, '.') {
            proof {
                assert forall|a: AddrModel| a.wf() implies a.formatted() != s@ by {
                    if a.formatted() == s@ {
                        lemma_candidate_is_ip4(a, s@, ci as int);
                        lemma_ip4_full(a, s@, ci as int);
                        lemma_first_dot(a, s@, ci as int, p1 as int);
                        lemma_second_dot(a, s@, ci as int, p1 as int, p2 as int);
                        lemma_third_dot(a, s@, ci as int, p1 as int, p2 as int, p3 as int);
                        assert(is_dec_digit_char(s@[p4 as int]));
                    }
                }
            }
            return Err(AddressParseError);
        }
        let v0 = parse_dec_u16(s.substring_char(0, p1));
        let v1 = parse_dec_u16(s.substring_char(p1 + 1, p2));
        let v2 = parse_dec_u16(s.substring_char(p2 + 1, p3));
        let v3 = parse_dec_u16(s.substring_char(p3 + 1, ci));
        let accept = match (v0, v1, v2, v3) {
            (Some(v0), Some(v1), Some(v2), Some(v3)) => v0 <= 255 && v1 <= 255 && v2 <= 255
                && v3 <= 255,
            _ => false,
        };
        if !accept {
            proof {
                assert forall|a: AddrModel| a.wf() implies a.formatted() != s@ by {
                    if a.formatted() == s@ {
                        lemma_candidate_is_ip4(a, s@, ci as int);
                        lemma_ip4_full(a, s@, ci as int);
                        lemma_first_dot(a, s@, ci as int, p1 as int);
                        lemma_second_dot(a, s@, ci as int, p1 as int, p2 as int);
                        lemma_third_dot(a, s@, ci as int, p1 as int, p2 as int, p3 as int);
                        let o = a->Ip4_octets;
                        assert(s@.subrange(0, p1 as int) == dec_str(o[0] as nat));
                        assert(s@.subrange(p1 + 1, p2 as int) == dec_str(o[1] as nat));
                        assert(s@.subrange(p2 + 1, p3 as int) == dec_str(o[2] as nat));
                        assert(s@.subrange(p3 + 1, ci as int) == dec_str(o[3] as nat));
                        lemma_dec_str_ok(o[0] as nat);
                        lemma_dec_str_ok(o[1] as nat);
                        lemma_dec_str_ok(o[2] as nat);
                        lemma_dec_str_ok(o[3] as nat);
                        match (v0, v1, v2, v3) {
                            (Some(w0), Some(w1), Some(w2), Some(w3)) => {
                                lemma_dec_str_ok(w0 as nat);
                                lemma_dec_str_ok(w1 as nat);
                                lemma_dec_str_ok(w2 as nat);
                                lemma_dec_str_ok(w3 as nat);
                                assert(w0 as nat == o[0] as nat && w1 as nat == o[1] as nat
                                    && w2 as nat == o[2] as nat && w3 as nat == o[3] as nat);
                            },
                            _ => {},
                        }
                    }
                }
            }
            return Err(AddressParseError);
        }
        let (v0, v1, v2, v3) = match (v0, v1, v2, v3) {
            (Some(v0), Some(v1), Some(v2), Some(v3)) => (v0, v1, v2, v3),
            _ => {
                proof {
                    assert(false);
                }
                unreached()
            },
        };
        let mut octets: Vec<u8> = Vec::new();
        octets.push(v0 as u8);
        octets.push(v1 as u8);
        octets.push(v2 as u8);
        octets.push(v3 as u8);
        let a = PeerAddress::Ipv4 { octets, port };
        proof {
            let o = a@->Ip4_octets;
            lemma_ip4_shape(o, port);
            let f = a@.formatted();
            assert(o[0] == v0 as u8 && o[1] == v1 as u8 && o[2] == v2 as u8 && o[3]
                == v3 as u8);
            assert(dec_str(o[0] as nat).len() == p1);
            assert(dec_str(o[1] as nat).len() == p2 - p1 - 1);
            assert(dec_str(o[2] as nat).len() == p3 - p2 - 1);
            assert(dec_str(o[3] as nat).len() == ci - p3 - 1);
            assert(f.len() == s@.len());
            assert forall|i: int| 0 <= i < s@.len() implies f[i] == s@[i] by {
                if i < p1 {
                    assert(f[i] == f.subrange(0, p1 as int)[i]);
                    assert(s@[i] == s@.subrange(0, p1 as int)[i]);
                } else if i == p1 {
                } else if i < p2 {
                    assert(f[i] == f.subrange(p1 + 1, p2 as int)[i - p1 - 1]);
                    assert(s@[i] == s@.subrange(p1 + 1, p2 as int)[i - p1 - 1]);
                } else if i == p2 {
                } else if i < p3 {
                    assert(f[i] == f.subrange(p2 + 1, p3 as int)[i - p2 - 1]);
                    assert(s@[i] == s@.subrange(p2 + 1, p3 as int)[i - p2 - 1]);
                } else if i == p3 {
                } else if i < ci {
                    assert(f[i] == f.subrange(p3 + 1, ci as int)[i - p3 - 1]);
                    assert(s@[i] == s@.subrange(p3 + 1, ci as int)[i - p3 - 1]);
                } else if i == ci {
                } else {
                    assert(f[i] == dec_str(port as nat)[i - ci - 1]);
                    assert(s@[i] == s@.subrange(ci + 1, s@.len() as int)[i - ci - 1]);
                }
            }
            assert(f =~= s@);
        }
        Ok(a)
    }
}

/// In the IPv4 branch an endpoint matching the string can only be IPv4:
/// the bracket rules out IPv6 and the missing suffix rules out onion.
proof fn lemma_candidate_is_ip4(a: AddrModel, s: Seq<char>, ci: int)
    requires
        a.wf(),
        a.formatted() == s,
        0 <= ci < s.len(),
        s[0] != '[',
        s[ci] == ':',
        forall|j: int| 0 <= j < ci ==> s[j] != ':',
        !(6 < ci && s[ci - 6] == '.' && s[ci - 5] == 'o' && s[ci - 4] == 'n' && s[ci - 3] == 'i'
            && s[ci - 2] == 'o' && s[ci - 1] == 'n'),
    ensures
        a is Ip4,
{
    lemma_first_char(a);
    if a is Onion2 || a is Onion3 {
        lemma_onion_shape(a);
        lemma_hostport_align(a, s, ci);
        let el = if a is Onion2 {
            (a->Onion2_id.len() / 5 * 8) as int
        } else {
            (a->Onion3_id.len() / 5 * 8) as int
        };
        assert(ci == el + 6);
        assert(s.subrange(el, ci) == dot_onion());
        assert(s[ci - 6] == dot_onion()[0]);
        assert(s[ci - 5] == dot_onion()[1]);
        assert(s[ci - 4] == dot_onion()[2]);
        assert(s[ci - 3] == dot_onion()[3]);
        assert(s[ci - 2] == dot_onion()[4]);
        assert(s[ci - 1] == dot_onion()[5]);
    }
}

/// The facts of a matching IPv4 string, with the first colon as the host
/// boundary.
proof fn lemma_ip4_full(a: AddrModel, s: Seq<char>, ci: int)
    requires
        a.wf(),
        a is Ip4,
        a.formatted() == s,
        0 <= ci < s.len(),
        s[ci] == ':',
        forall|j: int| 0 <= j < ci ==> s[j] != ':',
    ensures
        ({
            let o = a->Ip4_octets;
            let q1 = dec_str(o[0] as nat).len() as int;
            let q2 = q1 + 1 + dec_str(o[1] as nat).len();
            let q3 = q2 + 1 + dec_str(o[2] as nat).len();
            &&& ci == q3 + 1 + dec_str(o[3] as nat).len()
            &&& 0 <= q1 < q2 < q3 < ci
            &&& s[q1] == '.' && s[q2] == '.' && s[q3] == '.'
            &&& forall|i: int| 0 <= i < ci && i != q1 && i != q2 && i != q3
                ==> is_dec_digit_char(#[trigger] s[i])
            &&& s.subrange(0, q1) == dec_str(o[0] as nat)
            &&& s.subrange(q1 + 1, q2) == dec_str(o[1] as nat)
            &&& s.subrange(q2 + 1, q3) == dec_str(o[2] as nat)
            &&& s.subrange(q3 + 1, ci) == dec_str(o[3] as nat)
        }),
{
    let o = a->Ip4_octets;
    lemma_ip4_shape(o, a.port());
    lemma_hostport_align(a, s, ci);
    lemma_dec_str_ok(o[0] as nat);
    lemma_dec_str_ok(o[1] as nat);
    lemma_dec_str_ok(o[2] as nat);
    lemma_dec_str_ok(o[3] as nat);
    assert(ip4_host(o).len() == dec_str(o[0] as nat).len() + 1 + dec_str(o[1] as nat).len() + 1
        + dec_str(o[2] as nat).len() + 1 + dec_str(o[3] as nat).len()) by {
        assert(ip4_host(o) =~= dec_str(o[0] as nat) + seq!['.'] + dec_str(o[1] as nat)
            + seq!['.'] + dec_str(o[2] as nat) + seq!['.'] + dec_str(o[3] as nat));
    }
}

/// The first dot the parser finds is the first dot of the shape.
proof fn lemma_first_dot(a: AddrModel, s: Seq<char>, ci: int, p1: int)
    requires
        a.wf(),
        a is Ip4,
        a.formatted() == s,
        0 <= ci < s.len(),
        s[ci] == ':',
        forall|j: int| 0 <= j < ci ==> s[j] != ':',
        0 <= p1 < ci,
        s[p1] == '.',
        forall|j: int| 0 <= j < p1 ==> s[j] != '.',
    ensures
        p1 == dec_str(a->Ip4_octets[0] as nat).len(),
{
    lemma_ip4_full(a, s, ci);
    let o = a->Ip4_octets;
    let q1 = dec_str(o[0] as nat).len() as int;
    if p1 < q1 {
        assert(is_dec_digit_char(s[p1]));
    }
    if p1 > q1 {
        assert(s[q1] == '.');
    }
}

/// The second dot the parser finds is the second dot of the shape.
proof fn lemma_second_dot(a: AddrModel, s: Seq<char>, ci: int, p1: int, p2: int)
    requires
        a.wf(),
        a is Ip4,
        a.formatted() == s,
        0 <= ci < s.len(),
        s[ci] == ':',
        forall|j: int| 0 <= j < ci ==> s[j] != ':',
        p1 == dec_str(a->Ip4_octets[0] as nat).len(),
        p1 < p2 < ci,
        s[p2] == '.',
        forall|j: int| p1 < j < p2 ==> s[j] != '.',
    ensures
        p2 == p1 + 1 + dec_str(a->Ip4_octets[1] as nat).len(),
{
    lemma_ip4_full(a, s, ci);
    let o = a->Ip4_octets;
    let q1 = dec_str(o[0] as nat).len() as int;
    let q2 = q1 + 1 + dec_str(o[1] as nat).len();
    if p2 < q2 {
        assert(is_dec_digit_char(s[p2]));
    }
    if p2 > q2 {
        assert(s[q2] == '.');
    }
}

/// The third dot the parser finds is the third dot of the shape.
proof fn lemma_third_dot(a: AddrModel, s: Seq<char>, ci: int, p1: int, p2: int, p3: int)
    requires
        a.wf(),
        a is Ip4,
        a.formatted() == s,
        0 <= ci < s.len(),
        s[ci] == ':',
        forall|j: int| 0 <= j < ci ==> s[j] != ':',
        p1 == dec_str(a->Ip4_octets[0] as nat).len(),
        p2 == p1 + 1 + dec_str(a->Ip4_octets[1] as nat).len(),
        p2 < p3 < ci,
        s[p3] == '.',
        forall|j: int| p2 < j < p3 ==> s[j] != '.',
    ensures
        p3 == p2 + 1 + dec_str(a->Ip4_octets[2] as nat).len(),
{
    lemma_ip4_full(a, s, ci);
    let o = a->Ip4_octets;
    let q1 = dec_str(o[0] as nat).len() as int;
    let q2 = q1 + 1 + dec_str(o[1] as nat).len();
    let q3 = q2 + 1 + dec_str(o[2] as nat).len();
    if p3 < q3 {
        assert(is_dec_digit_char(s[p3]));
    }
    if p3 > q3 {
        assert(s[q3] == '.');
    }
}

/// An IPv4 host never ends in the letter the onion suffix ends in.
proof fn lemma_not_ip4_here(a: AddrModel, s: Seq<char>, ci: int)
    requires
        a.wf(),
        a is Ip4,
        a.formatted() == s,
        0 < ci < s.len(),
        s[ci] == ':',
        forall|j: int| 0 <= j < ci ==> s[j] != ':',
    ensures
        is_dec_digit_char(s[ci - 1]),
{
    lemma_ip4_full(a, s, ci);
    let o = a->Ip4_octets;
    let q1 = dec_str(o[0] as nat).len() as int;
    let q2 = q1 + 1 + dec_str(o[1] as nat).len();
    let q3 = q2 + 1 + dec_str(o[2] as nat).len();
    lemma_dec_str_ok(o[3] as nat);
    assert(ci - 1 != q1 && ci - 1 != q2 && ci - 1 != q3);
}

} // verus!
