//! Peer endpoints: IPv4, IPv6 and onion addresses, with the text form used
//! in announces and the packed byte form used in announce responses.

use vstd::prelude::*;
use vstd::string::*;
use crate::base32::b32_encode;
use crate::base32::b32_encode_push;
use crate::base32::lemma_b32_encode_len;
use crate::base32::lemma_b32_encode_injective;
use crate::text::dec_str;
use crate::text::push_dec_u16;
use crate::text::chars_to_string;

verus! {

/// A peer endpoint. Onion identifiers are held decoded: ten bytes for the
/// short form, thirty-five for the long one.
#[derive(Debug, PartialEq, Eq, Hash)]
pub enum PeerAddress {
    Ipv4 { octets: Vec<u8>, port: u16 },
    Ipv6 { octets: Vec<u8>, port: u16 },
    OnionV2 { id: Vec<u8>, port: u16 },
    OnionV3 { id: Vec<u8>, port: u16 },
}

/// The mathematical model of a peer endpoint.
pub enum AddrModel {
    Ip4 { octets: Seq<u8>, port: u16 },
    Ip6 { octets: Seq<u8>, port: u16 },
    Onion2 { id: Seq<u8>, port: u16 },
    Onion3 { id: Seq<u8>, port: u16 },
}

impl AddrModel {
    pub open spec fn wf(self) -> bool {
        match self {
            AddrModel::Ip4 { octets, .. } => octets.len() == 4,
            AddrModel::Ip6 { octets, .. } => octets.len() == 16,
            AddrModel::Onion2 { id, .. } => id.len() == 10,
            AddrModel::Onion3 { id, .. } => id.len() == 35,
        }
    }

    pub open spec fn port(self) -> u16 {
        match self {
            AddrModel::Ip4 { port, .. } => port,
            AddrModel::Ip6 { port, .. } => port,
            AddrModel::Onion2 { port, .. } => port,
            AddrModel::Onion3 { port, .. } => port,
        }
    }

    /// The same endpoint identity at another port.
    pub open spec fn with_port(self, port: u16) -> AddrModel {
        match self {
            AddrModel::Ip4 { octets, .. } => AddrModel::Ip4 { octets, port },
            AddrModel::Ip6 { octets, .. } => AddrModel::Ip6 { octets, port },
            AddrModel::Onion2 { id, .. } => AddrModel::Onion2 { id, port },
            AddrModel::Onion3 { id, .. } => AddrModel::Onion3 { id, port },
        }
    }

    /// The packed wire form: the address bytes, then the port in two bytes,
    /// least significant first.
    pub open spec fn packed(self) -> Seq<u8> {
        let body = match self {
            AddrModel::Ip4 { octets, .. } => octets,
            AddrModel::Ip6 { octets, .. } => octets,
            AddrModel::Onion2 { id, .. } => id,
            AddrModel::Onion3 { id, .. } => id,
        };
        body + seq![(self.port() % 256) as u8, (self.port() / 256) as u8]
    }

    /// The host part of the text form, before the port separator.
    pub open spec fn host_chars(self) -> Seq<char> {
        match self {
            AddrModel::Ip4 { octets, .. } => ip4_host(octets),
            AddrModel::Ip6 { octets, .. } => ip6_host(octets),
            AddrModel::Onion2 { id, .. } => b32_encode(id) + dot_onion(),
            AddrModel::Onion3 { id, .. } => b32_encode(id) + dot_onion(),
        }
    }

    /// The text form: host, one colon, the port in canonical decimal.
    pub open spec fn formatted(self) -> Seq<char> {
        self.host_chars() + seq![':'] + dec_str(self.port() as nat)
    }

    /// An address the tracker refuses to register: the text form begins with
    /// `127.0.0.1` or `192.`.
    pub open spec fn is_local(self) -> bool {
        let s = self.formatted();
        ||| (s.len() >= 9 && s.take(9) == seq!['1', '2', '7', '.', '0', '.', '0', '.', '1'])
        ||| (s.len() >= 4 && s.take(4) == seq!['1', '9', '2', '.'])
    }
}

pub open spec fn dot_onion() -> Seq<char> {
    seq!['.', 'o', 'n', 'i', 'o', 'n']
}

pub open spec fn is_ip4_model(a: AddrModel) -> bool {
    a is Ip4
}

pub open spec fn is_ip6_model(a: AddrModel) -> bool {
    a is Ip6
}

pub open spec fn is_onion_model(a: AddrModel) -> bool {
    a is Onion2 || a is Onion3
}

/// Whether some well-formed onion identity encodes to this label.
pub open spec fn is_onion_label(label: Seq<char>) -> bool {
    exists|id: Seq<u8>| (id.len() == 10 || id.len() == 35) && b32_encode(id) == label
}

/// The onion endpoint a label denotes, if any.
pub open spec fn onion_addr(label: Seq<char>, port: u16) -> Option<AddrModel> {
    if exists|id: Seq<u8>| id.len() == 10 && b32_encode(id) == label {
        Some(
            AddrModel::Onion2 {
                id: choose|id: Seq<u8>| id.len() == 10 && b32_encode(id) == label,
                port,
            },
        )
    } else if exists|id: Seq<u8>| id.len() == 35 && b32_encode(id) == label {
        Some(
            AddrModel::Onion3 {
                id: choose|id: Seq<u8>| id.len() == 35 && b32_encode(id) == label,
                port,
            },
        )
    } else {
        None
    }
}

/// Parses an onion identity label, as it stands in an announce, into an
/// endpoint at the given port.
pub fn parse_onion(label: &str, port: u16) -> (r: Option<PeerAddress>)
    ensures
        match r {
            Some(a) => onion_addr(label@, port) == Some(a@) && a@.wf(),
            None => onion_addr(label@, port) is None && !is_onion_label(label@),
        },
{
    match crate::base32::b32_decode(label) {
        Some(id) => {
            if id.len() == 10 {
                proof {
                    let w = choose|w: Seq<u8>| w.len() == 10 && b32_encode(w) == label@;
                    lemma_b32_encode_injective(w, id@);
                }
                Some(PeerAddress::OnionV2 { id, port })
            } else if id.len() == 35 {
                proof {
                    assert forall|w: Seq<u8>| w.len() == 10 implies b32_encode(w) != label@ by {
                        crate::base32::lemma_b32_encode_len(w);
                        crate::base32::lemma_b32_encode_len(id@);
                    }
                    let w = choose|w: Seq<u8>| w.len() == 35 && b32_encode(w) == label@;
                    lemma_b32_encode_injective(w, id@);
                }
                Some(PeerAddress::OnionV3 { id, port })
            } else {
                proof {
                    assert forall|w: Seq<u8>| w.len() == 10 || w.len() == 35 implies b32_encode(
                        w) != label@ by {
                        crate::base32::lemma_b32_encode_len(w);
                        crate::base32::lemma_b32_encode_len(id@);
                        if b32_encode(w) == label@ {
                            lemma_b32_encode_injective(w, id@);
                        }
                    }
                }
                None
            }
        },
        None => {
            proof {
                assert forall|w: Seq<u8>| w.len() == 10 || w.len() == 35 implies b32_encode(w)
                    != label@ by {
                    assert(w.len() % 5 == 0);
                }
            }
            None
        },
    }
}

/// The character for the hexadecimal digit `d` (meaningful for `d < 16`).
pub open spec fn hex_digit(d: u8) -> char {
    if d < 10 {
        ((48 + d) as u8) as char
    } else {
        ((87 + d) as u8) as char
    }
}

/// Two bytes as four hexadecimal digits.
pub open spec fn hex4(hi: u8, lo: u8) -> Seq<char> {
    seq![hex_digit(hi / 16), hex_digit(hi % 16), hex_digit(lo / 16), hex_digit(lo % 16)]
}

/// The dotted decimal host text of four octets.
pub open spec fn ip4_host(o: Seq<u8>) -> Seq<char> {
    dec_str(o[0] as nat) + seq!['.'] + dec_str(o[1] as nat) + seq!['.'] + dec_str(o[2] as nat)
        + seq!['.'] + dec_str(o[3] as nat)
}

/// The bracketed host text of sixteen octets: eight groups of four
/// hexadecimal digits.
pub open spec fn ip6_host(o: Seq<u8>) -> Seq<char> {
    seq!['['] + hex4(o[0], o[1]) + seq![':'] + hex4(o[2], o[3]) + seq![':'] + hex4(o[4], o[5])
        + seq![':'] + hex4(o[6], o[7]) + seq![':'] + hex4(o[8], o[9]) + seq![':'] + hex4(
    o[10], o[11]) + seq![':'] + hex4(o[12], o[13]) + seq![':'] + hex4(o[14], o[15]) + seq![']']
}

impl View for PeerAddress {
    type V = AddrModel;

    open spec fn view(&self) -> AddrModel {
        match self {
            PeerAddress::Ipv4 { octets, port } => AddrModel::Ip4 { octets: octets@, port: *port },
            PeerAddress::Ipv6 { octets, port } => AddrModel::Ip6 { octets: octets@, port: *port },
            PeerAddress::OnionV2 { id, port } => AddrModel::Onion2 { id: id@, port: *port },
            PeerAddress::OnionV3 { id, port } => AddrModel::Onion3 { id: id@, port: *port },
        }
    }
}

/// Byte-vector equality, stated over the views.
pub fn bytes_eq(a: &Vec<u8>, b: &Vec<u8>) -> (r: bool)
    ensures
        r == (a@ == b@),
{
    if a.len() != b.len() {
        return false;
    }
    let mut i: usize = 0;
    while i < a.len()
        invariant
            0 <= i <= a@.len(),
            a@.len() == b@.len(),
            forall|j: int| 0 <= j < i ==> a@[j] == b@[j],
        decreases a@.len() - i,
    {
        if a[i] != b[i] {
            return false;
        }
        i += 1;
    }
    proof {
        assert(a@ =~= b@);
    }
    true
}

/// Copies a byte vector, keeping its view.
pub fn bytes_dup(a: &Vec<u8>) -> (r: Vec<u8>)
    ensures
        r@ == a@,
{
    let mut out: Vec<u8> = Vec::new();
    let mut i: usize = 0;
    while i < a.len()
        invariant
            0 <= i <= a@.len(),
            out@ == a@.take(i as int),
        decreases a@.len() - i,
    {
        out.push(a[i]);
        proof {
            assert(out@ =~= a@.take(i + 1));
        }
        i += 1;
    }
    proof {
        assert(a@.take(a@.len() as int) =~= a@);
    }
    out
}

impl Clone for PeerAddress {
    fn clone(&self) -> (r: Self)
        ensures
            r@ == self@,
    {
        match self {
            PeerAddress::Ipv4 { octets, port } => PeerAddress::Ipv4 {
                octets: bytes_dup(octets),
                port: *port,
            },
            PeerAddress::Ipv6 { octets, port } => PeerAddress::Ipv6 {
                octets: bytes_dup(octets),
                port: *port,
            },
            PeerAddress::OnionV2 { id, port } => PeerAddress::OnionV2 {
                id: bytes_dup(id),
                port: *port,
            },
            PeerAddress::OnionV3 { id, port } => PeerAddress::OnionV3 {
                id: bytes_dup(id),
                port: *port,
            },
        }
    }
}

impl PeerAddress {
    pub open spec fn wf(&self) -> bool {
        self@.wf()
    }

    /// Whether the endpoint is well formed: the identity bytes have the
    /// length their family fixes.
    pub fn is_well_formed(&self) -> (r: bool)
        ensures
            r == self@.wf(),
    {
        match self {
            PeerAddress::Ipv4 { octets, .. } => octets.len() == 4,
            PeerAddress::Ipv6 { octets, .. } => octets.len() == 16,
            PeerAddress::OnionV2 { id, .. } => id.len() == 10,
            PeerAddress::OnionV3 { id, .. } => id.len() == 35,
        }
    }

    pub fn get_port(&self) -> (r: u16)
        ensures
            r == self@.port(),
    {
        match self {
            PeerAddress::Ipv4 { port, .. } => *port,
            PeerAddress::Ipv6 { port, .. } => *port,
            PeerAddress::OnionV2 { port, .. } => *port,
            PeerAddress::OnionV3 { port, .. } => *port,
        }
    }

    /// The same endpoint identity at another port.
    pub fn with_port(&self, port: u16) -> (r: PeerAddress)
        ensures
            r@ == self@.with_port(port),
    {
        match self {
            PeerAddress::Ipv4 { octets, .. } => PeerAddress::Ipv4 {
                octets: bytes_dup(octets),
                port,
            },
            PeerAddress::Ipv6 { octets, .. } => PeerAddress::Ipv6 {
                octets: bytes_dup(octets),
                port,
            },
            PeerAddress::OnionV2 { id, .. } => PeerAddress::OnionV2 { id: bytes_dup(id), port },
            PeerAddress::OnionV3 { id, .. } => PeerAddress::OnionV3 { id: bytes_dup(id), port },
        }
    }

    /// Structural equality, stated over the views.
    pub fn addr_eq(&self, other: &PeerAddress) -> (r: bool)
        ensures
            r == (self@ == other@),
    {
        match (self, other) {
            (
                PeerAddress::Ipv4 { octets: a, port: p },
                PeerAddress::Ipv4 { octets: b, port: q },
            ) => bytes_eq(a, b) && *p == *q,
            (
                PeerAddress::Ipv6 { octets: a, port: p },
                PeerAddress::Ipv6 { octets: b, port: q },
            ) => bytes_eq(a, b) && *p == *q,
            (
                PeerAddress::OnionV2 { id: a, port: p },
                PeerAddress::OnionV2 { id: b, port: q },
            ) => bytes_eq(a, b) && *p == *q,
            (
                PeerAddress::OnionV3 { id: a, port: p },
                PeerAddress::OnionV3 { id: b, port: q },
            ) => bytes_eq(a, b) && *p == *q,
            _ => false,
        }
    }

    /// The packed wire form: the address bytes, then the port in two bytes,
    /// least significant first.
    pub fn pack(&self) -> (r: Vec<u8>)
        ensures
            r@ == self@.packed(),
    {
        let mut out = match self {
            PeerAddress::Ipv4 { octets, .. } => bytes_dup(octets),
            PeerAddress::Ipv6 { octets, .. } => bytes_dup(octets),
            PeerAddress::OnionV2 { id, .. } => bytes_dup(id),
            PeerAddress::OnionV3 { id, .. } => bytes_dup(id),
        };
        let port = self.get_port();
        out.push((port % 256) as u8);
        out.push((port / 256) as u8);
        proof {
            assert(out@ =~= self@.packed());
        }
        out
    }

    /// The text form, such as `127.0.0.1:15441` or
    /// `zp2ynpztyxj2kw7x.onion:15441`.
    pub fn format(&self) -> (r: String)
        requires
            self@.wf(),
        ensures
            r@ == self@.formatted(),
    {
        let chars = self.format_chars();
        chars_to_string(&chars)
    }

    /// The text form as a character vector.
    pub fn format_chars(&self) -> (r: Vec<char>)
        requires
            self@.wf(),
        ensures
            r@ == self@.formatted(),
    {
        let mut out: Vec<char> = Vec::new();
        match self {
            PeerAddress::Ipv4 { octets, .. } => {
                push_dec_u16(&mut out, octets[0] as u16);
                out.push('.');
                push_dec_u16(&mut out, octets[1] as u16);
                out.push('.');
                push_dec_u16(&mut out, octets[2] as u16);
                out.push('.');
                push_dec_u16(&mut out, octets[3] as u16);
                proof {
                    assert(out@ =~= ip4_host(octets@));
                }
            },
            PeerAddress::Ipv6 { octets, .. } => {
                out.push('[');
                let mut g: usize = 0;
                while g < 8
                    invariant
                        0 <= g <= 8,
                        octets@.len() == 16,
                        out@ == seq!['['] + ip6_groups(octets@, g as int),
                    decreases 8 - g,
                {
                    if g > 0 {
                        out.push(':');
                    }
                    push_hex4(&mut out, octets[2 * g], octets[2 * g + 1]);
                    proof {
                        assert(out@ =~= seq!['['] + ip6_groups(octets@, g + 1));
                    }
                    g += 1;
                }
                out.push(']');
                proof {
                    lemma_ip6_host_groups(octets@);
                    assert(out@ =~= ip6_host(octets@));
                }
            },
            PeerAddress::OnionV2 { id, .. } => {
                b32_encode_push(&mut out, id);
                out.push('.');
                out.push('o');
                out.push('n');
                out.push('i');
                out.push('o');
                out.push('n');
                proof {
                    assert(out@ =~= b32_encode(id@) + dot_onion());
                }
            },
            PeerAddress::OnionV3 { id, .. } => {
                b32_encode_push(&mut out, id);
                out.push('.');
                out.push('o');
                out.push('n');
                out.push('i');
                out.push('o');
                out.push('n');
                proof {
                    assert(out@ =~= b32_encode(id@) + dot_onion());
                }
            },
        }
        out.push(':');
        let port = self.get_port();
        push_dec_u16(&mut out, port);
        proof {
            assert(out@ =~= self@.formatted());
        }
        out
    }

    /// Whether the text form begins with `127.0.0.1` or `192.`; announces
    /// from such addresses are not registered.
    pub fn is_local_range(&self) -> (r: bool)
        requires
            self@.wf(),
        ensures
            r == self@.is_local(),
    {
        let chars = self.format_chars();
        let lo = ['1', '2', '7', '.', '0', '.', '0', '.', '1'];
        let pr = ['1', '9', '2', '.'];
        let mut lo_match = chars.len() >= 9;
        let mut i: usize = 0;
        while i < 9
            invariant
                0 <= i <= 9,
                chars@ == self@.formatted(),
                lo@ =~= seq!['1', '2', '7', '.', '0', '.', '0', '.', '1'],
                lo_match == (chars@.len() >= 9 && forall|j: int| 0 <= j < i ==> chars@[j]
                    == lo@[j]),
            decreases 9 - i,
        {
            if lo_match && chars[i] != lo[i] {
                lo_match = false;
            }
            i += 1;
        }
        proof {
            if lo_match {
                assert(chars@.take(9) =~= lo@);
            } else {
                if chars@.len() >= 9 && chars@.take(9) == seq![
                    '1', '2', '7', '.', '0', '.', '0', '.', '1',
                ] {
                    assert(forall|j: int| 0 <= j < 9 ==> chars@[j] == chars@.take(9)[j]);
                }
            }
        }
        if lo_match {
            return true;
        }
        let mut pr_match = chars.len() >= 4;
        let mut k: usize = 0;
        while k < 4
            invariant
                0 <= k <= 4,
                chars@ == self@.formatted(),
                pr@ =~= seq!['1', '9', '2', '.'],
                pr_match == (chars@.len() >= 4 && forall|j: int| 0 <= j < k ==> chars@[j]
                    == pr@[j]),
            decreases 4 - k,
        {
            if pr_match && chars[k] != pr[k] {
                pr_match = false;
            }
            k += 1;
        }
        proof {
            if pr_match {
                assert(chars@.take(4) =~= pr@);
            } else {
                if chars@.len() >= 4 && chars@.take(4) == seq!['1', '9', '2', '.'] {
                    assert(forall|j: int| 0 <= j < 4 ==> chars@[j] == chars@.take(4)[j]);
                }
            }
        }
        pr_match
    }
}

/// The first `g` groups of the bracketed host text, with their separators.
pub open spec fn ip6_groups(o: Seq<u8>, g: int) -> Seq<char>
    decreases g,
{
    if g <= 0 {
        Seq::empty()
    } else if g == 1 {
        hex4(o[0], o[1])
    } else {
        ip6_groups(o, g - 1) + seq![':'] + hex4(o[2 * (g - 1)], o[2 * (g - 1) + 1])
    }
}

proof fn lemma_ip6_host_groups(o: Seq<u8>)
    requires
        o.len() == 16,
    ensures
        ip6_host(o) == seq!['['] + ip6_groups(o, 8) + seq![']'],
{
    assert(ip6_groups(o, 1) == hex4(o[0], o[1]));
    assert(ip6_groups(o, 2) == ip6_groups(o, 1) + seq![':'] + hex4(o[2], o[3]));
    assert(ip6_groups(o, 3) == ip6_groups(o, 2) + seq![':'] + hex4(o[4], o[5]));
    assert(ip6_groups(o, 4) == ip6_groups(o, 3) + seq![':'] + hex4(o[6], o[7]));
    assert(ip6_groups(o, 5) == ip6_groups(o, 4) + seq![':'] + hex4(o[8], o[9]));
    assert(ip6_groups(o, 6) == ip6_groups(o, 5) + seq![':'] + hex4(o[10], o[11]));
    assert(ip6_groups(o, 7) == ip6_groups(o, 6) + seq![':'] + hex4(o[12], o[13]));
    assert(ip6_groups(o, 8) == ip6_groups(o, 7) + seq![':'] + hex4(o[14], o[15]));
    assert(ip6_host(o) =~= seq!['['] + ip6_groups(o, 8) + seq![']']);
}

fn push_hex4(out: &mut Vec<char>, hi: u8, lo: u8)
    ensures
        final(out)@ == old(out)@ + hex4(hi, lo),
{
    out.push(hex_digit_of(hi / 16));
    out.push(hex_digit_of(hi % 16));
    out.push(hex_digit_of(lo / 16));
    out.push(hex_digit_of(lo % 16));
    proof {
        assert(final(out)@ =~= old(out)@ + hex4(hi, lo));
    }
}

fn hex_digit_of(d: u8) -> (r: char)
    requires
        d < 16,
    ensures
        r == hex_digit(d),
{
    if d < 10 {
        (48 + d) as char
    } else {
        (87 + d) as char
    }
}

} // verus!
