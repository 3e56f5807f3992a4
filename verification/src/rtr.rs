//! The data transmitted via RTR, held as plain values.
//!
//! A payload item is one of three things: a route origin (a prefix with a
//! max-length and the AS allowed to announce it), a BGPsec router key, or
//! an ASPA unit. Payload items are totally ordered; all collections in
//! [`payload`](crate::payload) keep their items in this order.
//!
//! The order is the one RTR implementations use: route origins before
//! router keys before ASPA units. Route origins are ordered by prefix (IPv4
//! before IPv6, more-specifics before the less-specifics that cover them,
//! otherwise numerically), then by max-length, then by AS number. Router
//! keys are ordered by key identifier, AS number and key bytes; ASPA units
//! by customer and then by their list of providers.

use vstd::prelude::*;

verus! {

//------------ Order ---------------------------------------------------------

/// The result of comparing two values.
#[derive(Clone, Copy, Debug, PartialEq, Eq, Structural)]
pub enum Order {
    Less,
    Equal,
    Greater,
}

//------------ Prefix --------------------------------------------------------

/// An IP address prefix.
///
/// The address is kept in the upper bits of a 128 bit integer: an IPv6
/// address uses all of them, an IPv4 address the upper 32.
#[derive(Clone, Copy, Debug, PartialEq, Eq, Hash, Structural)]
pub struct Prefix {
    /// Is this an IPv6 prefix?
    pub v6: bool,

    /// The address bits.
    pub bits: u128,

    /// The prefix length.
    pub len: u8,
}

/// Why a prefix could not be created.
#[derive(Clone, Copy, Debug, PartialEq, Eq, Structural)]
pub enum PrefixError {
    /// The prefix length is longer than allowed for the address family.
    LenOverflow,

    /// The host portion of the address has non-zero bits set.
    NonZeroHost,
}

/// The bits that are not part of a prefix of length `len`.
pub open spec fn host_mask(len: u8) -> u128 {
    if len >= 128 { 0u128 } else { u128::MAX >> len }
}

/// The largest address covered by a prefix.
pub open spec fn max_addr(p: Prefix) -> u128 {
    p.bits | host_mask(p.len)
}

/// Whether the host bits of a prefix are all zero.
pub open spec fn host_is_zero(bits: u128, len: u8) -> bool {
    bits & host_mask(len) == 0
}

/// A prefix as a value of the library: length in range and no host bits.
pub open spec fn prefix_wf(p: Prefix) -> bool {
    &&& p.len <= (if p.v6 { 128u8 } else { 32u8 })
    &&& host_is_zero(p.bits, p.len)
}

/// The order of prefixes.
///
/// IPv4 comes before IPv6. Within a family, prefixes are ordered by their
/// largest address and then longer before shorter. For prefixes without
/// host bits this means that more-specifics come right before the prefix
/// covering them and all others are ordered numerically. The address bits
/// break the remaining ties, which only happen with host bits set.
pub open spec fn prefix_lt(a: Prefix, b: Prefix) -> bool {
    ||| !a.v6 && b.v6
    ||| a.v6 == b.v6 && max_addr(a) < max_addr(b)
    ||| a.v6 == b.v6 && max_addr(a) == max_addr(b) && a.len > b.len
    ||| a.v6 == b.v6 && max_addr(a) == max_addr(b) && a.len == b.len && a.bits < b.bits
}

impl Prefix {
    /// Creates an IPv4 prefix from an address and a prefix length.
    pub fn new_v4(addr: u32, len: u8) -> (res: Result<Prefix, PrefixError>)
        ensures
            len > 32 ==> res == Err::<Prefix, PrefixError>(PrefixError::LenOverflow),
            len <= 32 && !host_is_zero((addr as u128) << 96u32, len)
                ==> res == Err::<Prefix, PrefixError>(PrefixError::NonZeroHost),
            len <= 32 && host_is_zero((addr as u128) << 96u32, len) ==> res == Ok::<Prefix, PrefixError>(
                Prefix { v6: false, bits: (addr as u128) << 96u32, len },
            ),
    {
        if len > 32 {
            return Err(PrefixError::LenOverflow);
        }
        let bits: u128 = (addr as u128) << 96u32;
        let mask: u128 = if len >= 128 { 0 } else { u128::MAX >> len };
        if bits & mask != 0 {
            return Err(PrefixError::NonZeroHost);
        }
        Ok(Prefix { v6: false, bits, len })
    }

    /// Creates an IPv6 prefix from an address and a prefix length.
    pub fn new_v6(addr: u128, len: u8) -> (res: Result<Prefix, PrefixError>)
        ensures
            len > 128 ==> res == Err::<Prefix, PrefixError>(PrefixError::LenOverflow),
            len <= 128 && !host_is_zero(addr, len) ==> res == Err::<Prefix, PrefixError>(
                PrefixError::NonZeroHost,
            ),
            len <= 128 && host_is_zero(addr, len) ==> res == Ok::<Prefix, PrefixError>(
                Prefix { v6: true, bits: addr, len },
            ),
    {
        if len > 128 {
            return Err(PrefixError::LenOverflow);
        }
        let mask: u128 = if len >= 128 { 0 } else { u128::MAX >> len };
        if addr & mask != 0 {
            return Err(PrefixError::NonZeroHost);
        }
        Ok(Prefix { v6: true, bits: addr, len })
    }

    /// Returns the IPv4 address of the prefix.
    ///
    /// For an IPv6 prefix this returns its upper 32 bits.
    pub fn v4_addr(&self) -> (res: u32)
        ensures
            res == (self.bits >> 96u32) as u32,
    {
        (self.bits >> 96u32) as u32
    }
}

/// Compares two prefixes.
pub fn compare_prefix(a: &Prefix, b: &Prefix) -> (res: Order)
    ensures
        res == Order::Less <==> prefix_lt(*a, *b),
        res == Order::Equal <==> *a == *b,
        res == Order::Greater <==> prefix_lt(*b, *a),
{
    if a.v6 != b.v6 {
        return if b.v6 { Order::Less } else { Order::Greater };
    }
    let amask: u128 = if a.len >= 128 { 0 } else { u128::MAX >> a.len };
    let bmask: u128 = if b.len >= 128 { 0 } else { u128::MAX >> b.len };
    let amax = a.bits | amask;
    let bmax = b.bits | bmask;
    if amax < bmax {
        Order::Less
    } else if amax > bmax {
        Order::Greater
    } else if a.len > b.len {
        Order::Less
    } else if a.len < b.len {
        Order::Greater
    } else if a.bits < b.bits {
        Order::Less
    } else if a.bits > b.bits {
        Order::Greater
    } else {
        Order::Equal
    }
}

//------------ RouteOrigin ---------------------------------------------------

/// A route origin: an AS allowed to announce a prefix up to a max-length.
#[derive(Clone, Copy, Debug, PartialEq, Eq, Hash, Structural)]
pub struct RouteOrigin {
    /// The address prefix.
    pub prefix: Prefix,

    /// The max-length; the prefix length if none was given.
    pub max_len: u8,

    /// The AS number.
    pub asn: u32,
}

/// Why a max-length was refused.
#[derive(Clone, Copy, Debug, PartialEq, Eq, Structural)]
pub enum MaxLenError {
    /// The max-length is too large for the address family.
    Overflow,

    /// The max-length is smaller than the prefix length.
    Underflow,
}

impl RouteOrigin {
    /// Creates a route origin, checking the max-length if one is given.
    pub fn new(prefix: Prefix, max_len: Option<u8>, asn: u32) -> (res: Result<
        RouteOrigin,
        MaxLenError,
    >)
        ensures
            match max_len {
                Some(m) => {
                    &&& ((!prefix.v6 && m > 32) || m > 128) ==> res == Err::<
                        RouteOrigin,
                        MaxLenError,
                    >(MaxLenError::Overflow)
                    &&& !((!prefix.v6 && m > 32) || m > 128) && prefix.len > m ==> res == Err::<
                        RouteOrigin,
                        MaxLenError,
                    >(MaxLenError::Underflow)
                    &&& !((!prefix.v6 && m > 32) || m > 128) && prefix.len <= m ==> res == Ok::<
                        RouteOrigin,
                        MaxLenError,
                    >(RouteOrigin { prefix, max_len: m, asn })
                },
                None => res == Ok::<RouteOrigin, MaxLenError>(
                    RouteOrigin { prefix, max_len: prefix.len, asn },
                ),
            },
    {
        match max_len {
            Some(m) => {
                if (!prefix.v6 && m > 32) || m > 128 {
                    return Err(MaxLenError::Overflow);
                }
                if prefix.len > m {
                    return Err(MaxLenError::Underflow);
                }
                Ok(RouteOrigin { prefix, max_len: m, asn })
            },
            None => Ok(RouteOrigin { prefix, max_len: prefix.len, asn }),
        }
    }
}

/// The order of route origins: prefix, then max-length, then AS number.
pub open spec fn origin_lt(a: RouteOrigin, b: RouteOrigin) -> bool {
    ||| prefix_lt(a.prefix, b.prefix)
    ||| a.prefix == b.prefix && a.max_len < b.max_len
    ||| a.prefix == b.prefix && a.max_len == b.max_len && a.asn < b.asn
}

/// Compares two route origins.
pub fn compare_origin(a: &RouteOrigin, b: &RouteOrigin) -> (res: Order)
    ensures
        res == Order::Less <==> origin_lt(*a, *b),
        res == Order::Equal <==> *a == *b,
        res == Order::Greater <==> origin_lt(*b, *a),
{
    proof {
        lemma_prefix_order(a.prefix, b.prefix);
    }
    match compare_prefix(&a.prefix, &b.prefix) {
        Order::Less => Order::Less,
        Order::Greater => Order::Greater,
        Order::Equal => {
            if a.max_len < b.max_len {
                Order::Less
            } else if a.max_len > b.max_len {
                Order::Greater
            } else if a.asn < b.asn {
                Order::Less
            } else if a.asn > b.asn {
                Order::Greater
            } else {
                Order::Equal
            }
        },
    }
}

//------------ Lexicographic order of sequences ------------------------------

/// Lexicographic order on integer sequences: a proper prefix comes first.
pub open spec fn lex_lt(a: Seq<int>, b: Seq<int>) -> bool
    decreases a.len(),
{
    if a.len() == 0 {
        b.len() > 0
    } else if b.len() == 0 {
        false
    } else if a[0] < b[0] {
        true
    } else if a[0] > b[0] {
        false
    } else {
        lex_lt(a.drop_first(), b.drop_first())
    }
}

/// Bytes as integers.
pub open spec fn bytes_int(s: Seq<u8>) -> Seq<int> {
    s.map_values(|x: u8| x as int)
}

/// AS numbers as integers.
pub open spec fn asns_int(s: Seq<u32>) -> Seq<int> {
    s.map_values(|x: u32| x as int)
}

proof fn lemma_lex_irrefl(a: Seq<int>)
    ensures
        !lex_lt(a, a),
    decreases a.len(),
{
    if a.len() > 0 {
        lemma_lex_irrefl(a.drop_first());
    }
}

proof fn lemma_lex_trans(a: Seq<int>, b: Seq<int>, c: Seq<int>)
    requires
        lex_lt(a, b),
        lex_lt(b, c),
    ensures
        lex_lt(a, c),
    decreases a.len(),
{
    if a.len() > 0 && b.len() > 0 && c.len() > 0 {
        if a[0] == b[0] && b[0] == c[0] {
            lemma_lex_trans(a.drop_first(), b.drop_first(), c.drop_first());
        }
    }
}

proof fn lemma_lex_total(a: Seq<int>, b: Seq<int>)
    ensures
        a =~= b || lex_lt(a, b) || lex_lt(b, a),
    decreases a.len(),
{
    if a.len() > 0 && b.len() > 0 && a[0] == b[0] {
        lemma_lex_total(a.drop_first(), b.drop_first());
        if a.drop_first() =~= b.drop_first() {
            assert(a =~= seq![a[0]] + a.drop_first());
            assert(b =~= seq![b[0]] + b.drop_first());
        }
    }
}

proof fn lemma_bytes_int_injective(a: Seq<u8>, b: Seq<u8>)
    requires
        bytes_int(a) =~= bytes_int(b),
    ensures
        a == b,
{
    assert(a.len() == bytes_int(a).len());
    assert forall|i: int| 0 <= i < a.len() implies a[i] == b[i] by {
        assert(bytes_int(a)[i] == bytes_int(b)[i]);
    }
    assert(a =~= b);
}

proof fn lemma_asns_int_injective(a: Seq<u32>, b: Seq<u32>)
    requires
        asns_int(a) =~= asns_int(b),
    ensures
        a == b,
{
    assert(a.len() == asns_int(a).len());
    assert forall|i: int| 0 <= i < a.len() implies a[i] == b[i] by {
        assert(asns_int(a)[i] == asns_int(b)[i]);
    }
    assert(a =~= b);
}

/// Compares two byte sequences lexicographically.
fn compare_bytes(a: &[u8], b: &[u8]) -> (res: Order)
    ensures
        res == Order::Less <==> lex_lt(bytes_int(a@), bytes_int(b@)),
        res == Order::Equal <==> a@ == b@,
        res == Order::Greater <==> lex_lt(bytes_int(b@), bytes_int(a@)),
{
    let ghost ai = bytes_int(a@);
    let ghost bi = bytes_int(b@);
    let mut i: usize = 0;
    while i < a.len() && i < b.len()
        invariant
            0 <= i <= a.len(),
            i <= b.len(),
            ai == bytes_int(a@),
            bi == bytes_int(b@),
            forall|k: int| 0 <= k < i ==> a@[k] == b@[k],
        decreases a.len() - i,
    {
        if a[i] != b[i] {
            proof {
                lemma_lex_prefix_decides(ai, bi, i as int);
            }
            return if a[i] < b[i] { Order::Less } else { Order::Greater };
        }
        i = i + 1;
    }
    proof {
        lemma_lex_common_prefix(ai, bi, i as int);
        lemma_lex_irrefl(ai);
    }
    if a.len() < b.len() {
        Order::Less
    } else if a.len() > b.len() {
        Order::Greater
    } else {
        proof {
            assert(a@ =~= b@);
        }
        Order::Equal
    }
}

/// Compares two AS number sequences lexicographically.
fn compare_asns(a: &[u32], b: &[u32]) -> (res: Order)
    ensures
        res == Order::Less <==> lex_lt(asns_int(a@), asns_int(b@)),
        res == Order::Equal <==> a@ == b@,
        res == Order::Greater <==> lex_lt(asns_int(b@), asns_int(a@)),
{
    let ghost ai = asns_int(a@);
    let ghost bi = asns_int(b@);
    let mut i: usize = 0;
    while i < a.len() && i < b.len()
        invariant
            0 <= i <= a.len(),
            i <= b.len(),
            ai == asns_int(a@),
            bi == asns_int(b@),
            forall|k: int| 0 <= k < i ==> a@[k] == b@[k],
        decreases a.len() - i,
    {
        if a[i] != b[i] {
            proof {
                lemma_lex_prefix_decides(ai, bi, i as int);
            }
            return if a[i] < b[i] { Order::Less } else { Order::Greater };
        }
        i = i + 1;
    }
    proof {
        lemma_lex_common_prefix(ai, bi, i as int);
        lemma_lex_irrefl(ai);
    }
    if a.len() < b.len() {
        Order::Less
    } else if a.len() > b.len() {
        Order::Greater
    } else {
        proof {
            assert(a@ =~= b@);
        }
        Order::Equal
    }
}

/// Two sequences that agree before index `i` and differ there are ordered
/// by their items at `i`.
proof fn lemma_lex_prefix_decides(a: Seq<int>, b: Seq<int>, i: int)
    requires
        0 <= i < a.len(),
        i < b.len(),
        forall|k: int| 0 <= k < i ==> a[k] == b[k],
        a[i] != b[i],
    ensures
        lex_lt(a, b) <==> a[i] < b[i],
        lex_lt(b, a) <==> b[i] < a[i],
    decreases i,
{
    if i > 0 {
        lemma_lex_prefix_decides(a.drop_first(), b.drop_first(), i - 1);
    }
}

/// Two sequences that agree on their first `i` items, with `i` the length
/// of one of them, are ordered by length.
proof fn lemma_lex_common_prefix(a: Seq<int>, b: Seq<int>, i: int)
    requires
        0 <= i <= a.len(),
        i <= b.len(),
        i == a.len() || i == b.len(),
        forall|k: int| 0 <= k < i ==> a[k] == b[k],
    ensures
        lex_lt(a, b) <==> a.len() < b.len(),
        lex_lt(b, a) <==> b.len() < a.len(),
    decreases i,
{
    if i > 0 {
        lemma_lex_common_prefix(a.drop_first(), b.drop_first(), i - 1);
    }
}

//------------ RouterKey -----------------------------------------------------

/// A BGPsec router key.
#[derive(Clone, Debug, PartialEq, Eq, Hash)]
pub struct RouterKey {
    /// The subject key identifier of the router key.
    pub key_identifier: [u8; 20],

    /// The AS allowed to use the key.
    pub asn: u32,

    /// The key itself.
    pub key_info: Vec<u8>,
}

//------------ Aspa ----------------------------------------------------------

/// An ASPA unit: the providers of a customer AS.
#[derive(Clone, Debug, PartialEq, Eq, Hash)]
pub struct Aspa {
    /// The customer AS.
    pub customer: u32,

    /// The provider ASes.
    pub providers: Vec<u32>,
}

//------------ Payload -------------------------------------------------------

/// A payload item.
#[derive(Clone, Debug, PartialEq, Eq, Hash)]
pub enum Payload {
    /// A route origin.
    Origin(RouteOrigin),

    /// A router key.
    RouterKey(RouterKey),

    /// An ASPA unit.
    Aspa(Aspa),
}

/// The value of a payload item.
pub enum PayloadV {
    Origin(RouteOrigin),
    RouterKey { ski: Seq<u8>, asn: u32, info: Seq<u8> },
    Aspa { customer: u32, providers: Seq<u32> },
}

impl View for Payload {
    type V = PayloadV;

    open spec fn view(&self) -> PayloadV {
        match self {
            Payload::Origin(o) => PayloadV::Origin(*o),
            Payload::RouterKey(k) => PayloadV::RouterKey {
                ski: k.key_identifier@,
                asn: k.asn,
                info: k.key_info@,
            },
            Payload::Aspa(a) => PayloadV::Aspa { customer: a.customer, providers: a.providers@ },
        }
    }
}

/// The rank of the kind of payload in the order.
pub open spec fn kind_rank(p: PayloadV) -> int {
    match p {
        PayloadV::Origin(_) => 0,
        PayloadV::RouterKey { .. } => 1,
        PayloadV::Aspa { .. } => 2,
    }
}

/// The order of payload items.
pub open spec fn lt(a: PayloadV, b: PayloadV) -> bool {
    if kind_rank(a) != kind_rank(b) {
        kind_rank(a) < kind_rank(b)
    } else {
        match (a, b) {
            (PayloadV::Origin(x), PayloadV::Origin(y)) => origin_lt(x, y),
            (
                PayloadV::RouterKey { ski: s1, asn: a1, info: i1 },
                PayloadV::RouterKey { ski: s2, asn: a2, info: i2 },
            ) => {
                ||| lex_lt(bytes_int(s1), bytes_int(s2))
                ||| s1 == s2 && a1 < a2
                ||| s1 == s2 && a1 == a2 && lex_lt(bytes_int(i1), bytes_int(i2))
            },
            (
                PayloadV::Aspa { customer: c1, providers: p1 },
                PayloadV::Aspa { customer: c2, providers: p2 },
            ) => {
                ||| c1 < c2
                ||| c1 == c2 && lex_lt(asns_int(p1), asns_int(p2))
            },
            _ => false,
        }
    }
}

/// Prefixes are totally ordered.
pub proof fn lemma_prefix_order(a: Prefix, b: Prefix)
    ensures
        !prefix_lt(a, a),
        a != b ==> prefix_lt(a, b) || prefix_lt(b, a),
        prefix_lt(a, b) ==> !prefix_lt(b, a),
{
}

proof fn lemma_prefix_trans(a: Prefix, b: Prefix, c: Prefix)
    requires
        prefix_lt(a, b),
        prefix_lt(b, c),
    ensures
        prefix_lt(a, c),
{
}

/// Payload items are never less than themselves.
pub proof fn lemma_lt_irrefl(a: PayloadV)
    ensures
        !lt(a, a),
{
    match a {
        PayloadV::RouterKey { ski, asn, info } => {
            lemma_lex_irrefl(bytes_int(ski));
            lemma_lex_irrefl(bytes_int(info));
        },
        PayloadV::Aspa { customer, providers } => {
            lemma_lex_irrefl(asns_int(providers));
        },
        _ => {},
    }
}

/// The order of payload items is transitive.
pub proof fn lemma_lt_trans(a: PayloadV, b: PayloadV, c: PayloadV)
    requires
        lt(a, b),
        lt(b, c),
    ensures
        lt(a, c),
{
    if kind_rank(a) == kind_rank(b) && kind_rank(b) == kind_rank(c) {
        match (a, b, c) {
            (PayloadV::Origin(x), PayloadV::Origin(y), PayloadV::Origin(z)) => {
                if prefix_lt(x.prefix, y.prefix) && prefix_lt(y.prefix, z.prefix) {
                    lemma_prefix_trans(x.prefix, y.prefix, z.prefix);
                }
            },
            (
                PayloadV::RouterKey { ski: s1, asn: a1, info: i1 },
                PayloadV::RouterKey { ski: s2, asn: a2, info: i2 },
                PayloadV::RouterKey { ski: s3, asn: a3, info: i3 },
            ) => {
                if lex_lt(bytes_int(s1), bytes_int(s2)) && lex_lt(bytes_int(s2), bytes_int(s3)) {
                    lemma_lex_trans(bytes_int(s1), bytes_int(s2), bytes_int(s3));
                }
                if lex_lt(bytes_int(i1), bytes_int(i2)) && lex_lt(bytes_int(i2), bytes_int(i3)) {
                    lemma_lex_trans(bytes_int(i1), bytes_int(i2), bytes_int(i3));
                }
            },
            (
                PayloadV::Aspa { customer: c1, providers: p1 },
                PayloadV::Aspa { customer: c2, providers: p2 },
                PayloadV::Aspa { customer: c3, providers: p3 },
            ) => {
                if lex_lt(asns_int(p1), asns_int(p2)) && lex_lt(asns_int(p2), asns_int(p3)) {
                    lemma_lex_trans(asns_int(p1), asns_int(p2), asns_int(p3));
                }
            },
            _ => {},
        }
    }
}

/// Two different payload items are ordered one way or the other.
pub proof fn lemma_lt_total(a: PayloadV, b: PayloadV)
    ensures
        a == b || lt(a, b) || lt(b, a),
{
    if kind_rank(a) == kind_rank(b) {
        match (a, b) {
            (PayloadV::Origin(x), PayloadV::Origin(y)) => {
                lemma_prefix_order(x.prefix, y.prefix);
            },
            (
                PayloadV::RouterKey { ski: s1, asn: a1, info: i1 },
                PayloadV::RouterKey { ski: s2, asn: a2, info: i2 },
            ) => {
                lemma_lex_total(bytes_int(s1), bytes_int(s2));
                lemma_lex_total(bytes_int(i1), bytes_int(i2));
                if bytes_int(s1) =~= bytes_int(s2) {
                    lemma_bytes_int_injective(s1, s2);
                }
                if bytes_int(i1) =~= bytes_int(i2) {
                    lemma_bytes_int_injective(i1, i2);
                }
            },
            (
                PayloadV::Aspa { customer: c1, providers: p1 },
                PayloadV::Aspa { customer: c2, providers: p2 },
            ) => {
                lemma_lex_total(asns_int(p1), asns_int(p2));
                if asns_int(p1) =~= asns_int(p2) {
                    lemma_asns_int_injective(p1, p2);
                }
            },
            _ => {},
        }
    }
}

/// The order of payload items is asymmetric.
pub proof fn lemma_lt_asym(a: PayloadV, b: PayloadV)
    ensures
        lt(a, b) ==> !lt(b, a),
{
    if lt(a, b) && lt(b, a) {
        lemma_lt_trans(a, b, a);
        lemma_lt_irrefl(a);
    }
}

/// Compares two payload items.
pub fn compare(a: &Payload, b: &Payload) -> (res: Order)
    ensures
        res == Order::Less <==> lt(a@, b@),
        res == Order::Equal <==> a@ == b@,
        res == Order::Greater <==> lt(b@, a@),
{
    proof {
        lemma_lt_irrefl(a@);
        lemma_lt_asym(a@, b@);
        lemma_lt_total(a@, b@);
    }
    match (a, b) {
        (Payload::Origin(x), Payload::Origin(y)) => compare_origin(x, y),
        (Payload::RouterKey(x), Payload::RouterKey(y)) => {
            match compare_bytes(x.key_identifier.as_slice(), y.key_identifier.as_slice()) {
                Order::Less => Order::Less,
                Order::Greater => Order::Greater,
                Order::Equal => {
                    if x.asn < y.asn {
                        Order::Less
                    } else if x.asn > y.asn {
                        Order::Greater
                    } else {
                        compare_bytes(x.key_info.as_slice(), y.key_info.as_slice())
                    }
                },
            }
        },
        (Payload::Aspa(x), Payload::Aspa(y)) => {
            if x.customer < y.customer {
                Order::Less
            } else if x.customer > y.customer {
                Order::Greater
            } else {
                compare_asns(x.providers.as_slice(), y.providers.as_slice())
            }
        },
        (Payload::Origin(_), _) => Order::Less,
        (_, Payload::Origin(_)) => Order::Greater,
        (Payload::RouterKey(_), _) => Order::Less,
        (_, Payload::RouterKey(_)) => Order::Greater,
    }
}

/// Returns whether `a` comes before `b`.
pub fn less(a: &Payload, b: &Payload) -> (res: bool)
    ensures
        res == lt(a@, b@),
{
    match compare(a, b) {
        Order::Less => true,
        _ => false,
    }
}

/// Returns whether `a` and `b` are the same payload.
pub fn same(a: &Payload, b: &Payload) -> (res: bool)
    ensures
        res == (a@ == b@),
{
    match compare(a, b) {
        Order::Equal => true,
        _ => false,
    }
}

/// Returns a copy of a payload item.
pub fn copy_payload(p: &Payload) -> (res: Payload)
    ensures
        res@ == p@,
{
    match p {
        Payload::Origin(o) => Payload::Origin(*o),
        Payload::RouterKey(k) => {
            let mut info: Vec<u8> = Vec::new();
            let mut i: usize = 0;
            while i < k.key_info.len()
                invariant
                    i <= k.key_info.len(),
                    info@ =~= k.key_info@.subrange(0, i as int),
                decreases k.key_info.len() - i,
            {
                info.push(k.key_info[i]);
                i = i + 1;
            }
            proof {
                assert(k.key_info@.subrange(0, k.key_info@.len() as int) =~= k.key_info@);
            }
            Payload::RouterKey(RouterKey { key_identifier: k.key_identifier, asn: k.asn, key_info: info })
        },
        Payload::Aspa(a) => {
            let mut providers: Vec<u32> = Vec::new();
            let mut i: usize = 0;
            while i < a.providers.len()
                invariant
                    i <= a.providers.len(),
                    providers@ =~= a.providers@.subrange(0, i as int),
                decreases a.providers.len() - i,
            {
                providers.push(a.providers[i]);
                i = i + 1;
            }
            proof {
                assert(a.providers@.subrange(0, a.providers@.len() as int) =~= a.providers@);
            }
            Payload::Aspa(Aspa { customer: a.customer, providers })
        },
    }
}

//------------ Action --------------------------------------------------------

/// What to do with a payload item in a diff.
#[derive(Clone, Copy, Debug, PartialEq, Eq, Structural)]
pub enum Action {
    /// The item is added.
    Announce,

    /// The item is removed.
    Withdraw,
}

//------------ Serial numbers ------------------------------------------------

/// Adds `other` to a serial number, as `Serial::add` of the rpki crate.
///
/// Serial number arithmetic (RFC 1982) only allows adding values of up to
/// 2^31 - 1, and the sum wraps around at 2^32. The rpki function panics
/// for larger values, which the precondition excludes.
#[verifier::external_body]
pub(crate) fn serial_add(serial: u32, other: u32) -> (res: u32)
    requires
        other <= 0x7FFF_FFFF,
    ensures
        res as int == (serial as int + other as int) % 0x1_0000_0000,
{
    u32::from(rpki::rtr::state::Serial::from(serial).add(other))
}

} // verus!
