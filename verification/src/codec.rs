//! Numeric encoding of IP addresses.
//!
//! An address is mapped to an unsigned ordinal within its family's number
//! space: 32 bits for IPv4, 128 bits for IPv6, most significant component
//! first. The encoding is a strict order isomorphism, proved below.

use vstd::prelude::*;

verus! {

/// An IP address held as plain numeric components in network order:
/// four octets for IPv4, eight 16-bit segments for IPv6.
#[derive(Clone, Copy, Debug)]
pub enum IpAddress {
    V4([u8; 4]),
    V6([u16; 8]),
}

/// The address family an address or a range table belongs to.
#[derive(Clone, Copy, Debug, PartialEq, Eq, Structural)]
pub enum AddressFamily {
    V4,
    V6,
}

/// Value of a big-endian sequence of base-256 digits.
pub open spec fn v4_ordinal(s: Seq<u8>) -> int
    decreases s.len(),
{
    if s.len() == 0 {
        0
    } else {
        v4_ordinal(s.drop_last()) * 256 + s.last()
    }
}

/// Value of a big-endian sequence of base-65536 digits.
pub open spec fn v6_ordinal(s: Seq<u16>) -> int
    decreases s.len(),
{
    if s.len() == 0 {
        0
    } else {
        v6_ordinal(s.drop_last()) * 65536 + s.last()
    }
}

pub proof fn lemma_v4_ordinal_nonneg(s: Seq<u8>)
    ensures
        0 <= v4_ordinal(s),
    decreases s.len(),
{
    if s.len() > 0 {
        lemma_v4_ordinal_nonneg(s.drop_last());
    }
}

pub proof fn lemma_v6_ordinal_nonneg(s: Seq<u16>)
    ensures
        0 <= v6_ordinal(s),
    decreases s.len(),
{
    if s.len() > 0 {
        lemma_v6_ordinal_nonneg(s.drop_last());
    }
}

impl IpAddress {
    /// The family this address belongs to.
    pub open spec fn family(self) -> AddressFamily {
        match self {
            IpAddress::V4(_) => AddressFamily::V4,
            IpAddress::V6(_) => AddressFamily::V6,
        }
    }

    /// The octets of an IPv4 address, most significant first.
    pub open spec fn v4_octets(self) -> Seq<u8> {
        match self {
            IpAddress::V4(octets) => octets@,
            IpAddress::V6(_) => Seq::empty(),
        }
    }

    /// The 16-bit segments of an IPv6 address, most significant first.
    pub open spec fn v6_segments(self) -> Seq<u16> {
        match self {
            IpAddress::V4(_) => Seq::empty(),
            IpAddress::V6(segments) => segments@,
        }
    }

    /// The ordinal of this address within its family's number space.
    pub open spec fn ordinal(self) -> int {
        match self {
            IpAddress::V4(octets) => v4_ordinal(octets@),
            IpAddress::V6(segments) => v6_ordinal(segments@),
        }
    }

    /// Converts the address into its numeric ordinal.
    pub fn to_ordinal(&self) -> (r: u128)
        ensures
            r as int == self.ordinal(),
    {
        match self {
            IpAddress::V4(octets) => {
                let r: u128 = (((octets[0] as u128) * 256 + (octets[1] as u128)) * 256 + (
                octets[2] as u128)) * 256 + (octets[3] as u128);
                proof {
                    let s = octets@;
                    let s3 = s.drop_last();
                    let s2 = s3.drop_last();
                    let s1 = s2.drop_last();
                    let s0 = s1.drop_last();
                    assert(v4_ordinal(s0) == 0);
                    assert(v4_ordinal(s1) == s[0]);
                    assert(v4_ordinal(s2) == s[0] * 256 + s[1]);
                    assert(v4_ordinal(s3) == (s[0] * 256 + s[1]) * 256 + s[2]);
                    assert(v4_ordinal(s) == ((s[0] * 256 + s[1]) * 256 + s[2]) * 256 + s[3]);
                }
                r
            },
            IpAddress::V6(segments) => {
                let r: u128 = (((((((segments[0] as u128) * 65536 + (segments[1] as u128)) * 65536
                    + (segments[2] as u128)) * 65536 + (segments[3] as u128)) * 65536 + (
                segments[4] as u128)) * 65536 + (segments[5] as u128)) * 65536 + (
                segments[6] as u128)) * 65536 + (segments[7] as u128);
                proof {
                    let s = segments@;
                    let s7 = s.drop_last();
                    let s6 = s7.drop_last();
                    let s5 = s6.drop_last();
                    let s4 = s5.drop_last();
                    let s3 = s4.drop_last();
                    let s2 = s3.drop_last();
                    let s1 = s2.drop_last();
                    let s0 = s1.drop_last();
                    assert(v6_ordinal(s0) == 0);
                    assert(v6_ordinal(s1) == s[0]);
                    assert(v6_ordinal(s2) == s[0] * 65536 + s[1]);
                    assert(v6_ordinal(s3) == (s[0] * 65536 + s[1]) * 65536 + s[2]);
                    assert(v6_ordinal(s4) == ((s[0] * 65536 + s[1]) * 65536 + s[2]) * 65536 + s[3]);
                    assert(v6_ordinal(s5) == (((s[0] * 65536 + s[1]) * 65536 + s[2]) * 65536 + s[3])
                        * 65536 + s[4]);
                    assert(v6_ordinal(s6) == ((((s[0] * 65536 + s[1]) * 65536 + s[2]) * 65536 + s[3])
                        * 65536 + s[4]) * 65536 + s[5]);
                    assert(v6_ordinal(s7) == (((((s[0] * 65536 + s[1]) * 65536 + s[2]) * 65536 + s[3])
                        * 65536 + s[4]) * 65536 + s[5]) * 65536 + s[6]);
                    assert(v6_ordinal(s) == ((((((s[0] * 65536 + s[1]) * 65536 + s[2]) * 65536 + s[3])
                        * 65536 + s[4]) * 65536 + s[5]) * 65536 + s[6]) * 65536 + s[7]);
                }
                r
            },
        }
    }
}

/// Octet-lexicographic (dotted-quad) strict order on IPv4 component
/// sequences: the components agree up to some position where the left
/// sequence holds the smaller component.
pub open spec fn v4_lex_less(a: Seq<u8>, b: Seq<u8>) -> bool {
    exists|i: int|
        #![trigger a[i], b[i]]
        0 <= i < a.len() && i < b.len() && (forall|j: int|
            #![trigger a[j], b[j]]
            0 <= j < i ==> a[j] == b[j]) && a[i] < b[i]
}

/// Segment-lexicographic strict order on IPv6 component sequences.
pub open spec fn v6_lex_less(a: Seq<u16>, b: Seq<u16>) -> bool {
    exists|i: int|
        #![trigger a[i], b[i]]
        0 <= i < a.len() && i < b.len() && (forall|j: int|
            #![trigger a[j], b[j]]
            0 <= j < i ==> a[j] == b[j]) && a[i] < b[i]
}

proof fn lemma_v4_lex_implies_less(a: Seq<u8>, b: Seq<u8>)
    requires
        a.len() == b.len(),
        v4_lex_less(a, b),
    ensures
        v4_ordinal(a) < v4_ordinal(b),
    decreases a.len(),
{
    let i = choose|i: int|
        #![trigger a[i], b[i]]
        0 <= i < a.len() && i < b.len() && (forall|j: int|
            #![trigger a[j], b[j]]
            0 <= j < i ==> a[j] == b[j]) && a[i] < b[i];
    let n = a.len() as int;
    let a1 = a.drop_last();
    let b1 = b.drop_last();
    if i == n - 1 {
        assert(a1 =~= b1);
        assert(v4_ordinal(a) == v4_ordinal(a1) * 256 + a.last());
        assert(v4_ordinal(b) == v4_ordinal(b1) * 256 + b.last());
    } else {
        assert(a1[i] < b1[i]);
        assert(v4_lex_less(a1, b1));
        lemma_v4_lex_implies_less(a1, b1);
        lemma_v4_ordinal_nonneg(a1);
        assert(v4_ordinal(a1) * 256 + 256 <= v4_ordinal(b1) * 256);
        assert(v4_ordinal(a) == v4_ordinal(a1) * 256 + a.last());
        assert(v4_ordinal(b) == v4_ordinal(b1) * 256 + b.last());
    }
}

proof fn lemma_v6_lex_implies_less(a: Seq<u16>, b: Seq<u16>)
    requires
        a.len() == b.len(),
        v6_lex_less(a, b),
    ensures
        v6_ordinal(a) < v6_ordinal(b),
    decreases a.len(),
{
    let i = choose|i: int|
        #![trigger a[i], b[i]]
        0 <= i < a.len() && i < b.len() && (forall|j: int|
            #![trigger a[j], b[j]]
            0 <= j < i ==> a[j] == b[j]) && a[i] < b[i];
    let n = a.len() as int;
    let a1 = a.drop_last();
    let b1 = b.drop_last();
    if i == n - 1 {
        assert(a1 =~= b1);
        assert(v6_ordinal(a) == v6_ordinal(a1) * 65536 + a.last());
        assert(v6_ordinal(b) == v6_ordinal(b1) * 65536 + b.last());
    } else {
        assert(a1[i] < b1[i]);
        assert(v6_lex_less(a1, b1));
        lemma_v6_lex_implies_less(a1, b1);
        lemma_v6_ordinal_nonneg(a1);
        assert(v6_ordinal(a1) * 65536 + 65536 <= v6_ordinal(b1) * 65536);
        assert(v6_ordinal(a) == v6_ordinal(a1) * 65536 + a.last());
        assert(v6_ordinal(b) == v6_ordinal(b1) * 65536 + b.last());
    }
}

proof fn lemma_v4_lex_trichotomy(a: Seq<u8>, b: Seq<u8>)
    requires
        a.len() == b.len(),
        !(a =~= b),
    ensures
        v4_lex_less(a, b) || v4_lex_less(b, a),
    decreases a.len(),
{
    let n = a.len() as int;
    assert(n > 0);
    let a1 = a.drop_last();
    let b1 = b.drop_last();
    if a1 =~= b1 {
        assert forall|j: int| 0 <= j < n - 1 implies a[j] == b[j] by {
            assert(a1[j] == b1[j]);
        }
        if a[n - 1] == b[n - 1] {
            assert(a =~= b);
        }
        if a[n - 1] < b[n - 1] {
            assert(forall|j: int| #![trigger a[j], b[j]] 0 <= j < n - 1 ==> a[j] == b[j]);
            assert(v4_lex_less(a, b));
        } else {
            assert(forall|j: int| #![trigger b[j], a[j]] 0 <= j < n - 1 ==> b[j] == a[j]);
            assert(v4_lex_less(b, a));
        }
    } else {
        lemma_v4_lex_trichotomy(a1, b1);
        if v4_lex_less(a1, b1) {
            let i = choose|i: int|
                #![trigger a1[i], b1[i]]
                0 <= i < a1.len() && i < b1.len() && (forall|j: int|
                    #![trigger a1[j], b1[j]]
                    0 <= j < i ==> a1[j] == b1[j]) && a1[i] < b1[i];
            assert(a[i] < b[i]);
            assert forall|j: int| 0 <= j < i implies a[j] == b[j] by {
                assert(a1[j] == b1[j]);
            }
            assert(forall|j: int| #![trigger a[j], b[j]] 0 <= j < i ==> a[j] == b[j]);
            assert(v4_lex_less(a, b));
        } else {
            let i = choose|i: int|
                #![trigger b1[i], a1[i]]
                0 <= i < b1.len() && i < a1.len() && (forall|j: int|
                    #![trigger b1[j], a1[j]]
                    0 <= j < i ==> b1[j] == a1[j]) && b1[i] < a1[i];
            assert(b[i] < a[i]);
            assert forall|j: int| 0 <= j < i implies b[j] == a[j] by {
                assert(b1[j] == a1[j]);
            }
            assert(forall|j: int| #![trigger b[j], a[j]] 0 <= j < i ==> b[j] == a[j]);
            assert(v4_lex_less(b, a));
        }
    }
}

proof fn lemma_v6_lex_trichotomy(a: Seq<u16>, b: Seq<u16>)
    requires
        a.len() == b.len(),
        !(a =~= b),
    ensures
        v6_lex_less(a, b) || v6_lex_less(b, a),
    decreases a.len(),
{
    let n = a.len() as int;
    assert(n > 0);
    let a1 = a.drop_last();
    let b1 = b.drop_last();
    if a1 =~= b1 {
        assert forall|j: int| 0 <= j < n - 1 implies a[j] == b[j] by {
            assert(a1[j] == b1[j]);
        }
        if a[n - 1] == b[n - 1] {
            assert(a =~= b);
        }
        if a[n - 1] < b[n - 1] {
            assert(forall|j: int| #![trigger a[j], b[j]] 0 <= j < n - 1 ==> a[j] == b[j]);
            assert(v6_lex_less(a, b));
        } else {
            assert(forall|j: int| #![trigger b[j], a[j]] 0 <= j < n - 1 ==> b[j] == a[j]);
            assert(v6_lex_less(b, a));
        }
    } else {
        lemma_v6_lex_trichotomy(a1, b1);
        if v6_lex_less(a1, b1) {
            let i = choose|i: int|
                #![trigger a1[i], b1[i]]
                0 <= i < a1.len() && i < b1.len() && (forall|j: int|
                    #![trigger a1[j], b1[j]]
                    0 <= j < i ==> a1[j] == b1[j]) && a1[i] < b1[i];
            assert(a[i] < b[i]);
            assert forall|j: int| 0 <= j < i implies a[j] == b[j] by {
                assert(a1[j] == b1[j]);
            }
            assert(forall|j: int| #![trigger a[j], b[j]] 0 <= j < i ==> a[j] == b[j]);
            assert(v6_lex_less(a, b));
        } else {
            let i = choose|i: int|
                #![trigger b1[i], a1[i]]
                0 <= i < b1.len() && i < a1.len() && (forall|j: int|
                    #![trigger b1[j], a1[j]]
                    0 <= j < i ==> b1[j] == a1[j]) && b1[i] < a1[i];
            assert(b[i] < a[i]);
            assert forall|j: int| 0 <= j < i implies b[j] == a[j] by {
                assert(b1[j] == a1[j]);
            }
            assert(forall|j: int| #![trigger b[j], a[j]] 0 <= j < i ==> b[j] == a[j]);
            assert(v6_lex_less(b, a));
        }
    }
}

/// Law: the IPv4 ordinal encoding is a strict order isomorphism.
/// Two IPv4 addresses compare in dotted-quad (octet-lexicographic) order
/// exactly as their ordinals compare numerically.
pub proof fn lemma_v4_ordinal_order_isomorphism(a: IpAddress, b: IpAddress)
    requires
        a is V4,
        b is V4,
    ensures
        v4_lex_less(a.v4_octets(), b.v4_octets()) <==> a.ordinal() < b.ordinal(),
{
    let x = a.v4_octets();
    let y = b.v4_octets();
    if v4_lex_less(x, y) {
        lemma_v4_lex_implies_less(x, y);
    } else {
        if x =~= y {
            assert(a.ordinal() == b.ordinal());
        } else {
            lemma_v4_lex_trichotomy(x, y);
            lemma_v4_lex_implies_less(y, x);
        }
    }
}

/// Law: the IPv6 ordinal encoding is a strict order isomorphism.
/// Two IPv6 addresses compare in segment-lexicographic order exactly as
/// their ordinals compare numerically.
pub proof fn lemma_v6_ordinal_order_isomorphism(a: IpAddress, b: IpAddress)
    requires
        a is V6,
        b is V6,
    ensures
        v6_lex_less(a.v6_segments(), b.v6_segments()) <==> a.ordinal() < b.ordinal(),
{
    let x = a.v6_segments();
    let y = b.v6_segments();
    if v6_lex_less(x, y) {
        lemma_v6_lex_implies_less(x, y);
    } else {
        if x =~= y {
            assert(a.ordinal() == b.ordinal());
        } else {
            lemma_v6_lex_trichotomy(x, y);
            lemma_v6_lex_implies_less(y, x);
        }
    }
}

} // verus!
