//! Local exceptions to the RPKI data.
//!
//! Local exceptions (RFC 8416) filter payload out of a data set and add
//! assertions of their own.

use vstd::prelude::*;
use crate::payload::{lemma_sorted_no_dup, Pack, PackBuilder, PayloadSet, Update};
use crate::rtr::{copy_payload, host_is_zero, host_mask, max_addr, prefix_wf, Aspa, Payload, PayloadV, Prefix, RouteOrigin, RouterKey};

verus! {

//------------ PrefixFilter --------------------------------------------------

/// A description of route origins to be removed.
///
/// A route origin is removed if its prefix is covered by the prefix of the
/// filter and its AS number is that of the filter, where the filter has
/// them; a filter without both removes nothing.
#[derive(Clone, Copy, Debug, PartialEq, Eq, Structural)]
pub struct PrefixFilter {
    /// The prefix for which assertions should be filtered.
    pub prefix: Option<Prefix>,

    /// The AS number to filter assertions for.
    pub asn: Option<u32>,
}

/// The prefix `a` covers the prefix `b`: same family, not longer, and the
/// same network bits.
pub open spec fn covers(a: Prefix, b: Prefix) -> bool {
    &&& a.v6 == b.v6
    &&& a.len <= b.len
    &&& b.bits & !host_mask(a.len) == a.bits & !host_mask(a.len)
}

/// Bits of a prefix that a shorter prefix covers share their network bits,
/// told by their address ranges.
proof fn lemma_covers_range_bits(x: u128, y: u128, la: u128, lb: u128, ma: u128, mb: u128)
    requires
        la <= 128,
        lb <= 128,
        la < 128 ==> ma == u128::MAX >> la,
        la == 128 ==> ma == 0,
        lb < 128 ==> mb == u128::MAX >> lb,
        lb == 128 ==> mb == 0,
        x & ma == 0,
        y & mb == 0,
    ensures
        (la <= lb && y & !ma == x & !ma) <==> (x <= y && (y | mb) <= (x | ma)),
{
    assert((la <= lb && y & !ma == x & !ma) <==> (x <= y && (y | mb) <= (x | ma))) by (bit_vector)
        requires
            la <= 128,
            lb <= 128,
            la < 128 ==> ma == u128::MAX >> la,
            la == 128 ==> ma == 0,
            lb < 128 ==> mb == u128::MAX >> lb,
            lb == 128 ==> mb == 0,
            x & ma == 0,
            y & mb == 0,
    ;
}

/// For valid prefixes, `a` covers `b` exactly when they are of the same
/// family and every address of `b` is one of `a`: `b` starts no earlier
/// and ends no later than `a`.
pub proof fn law_covers_is_containment(a: Prefix, b: Prefix)
    requires
        prefix_wf(a),
        prefix_wf(b),
    ensures
        covers(a, b) <==> (a.v6 == b.v6 && a.bits <= b.bits && max_addr(b) <= max_addr(a)),
{
    lemma_covers_range_bits(
        a.bits,
        b.bits,
        a.len as u128,
        b.len as u128,
        host_mask(a.len),
        host_mask(b.len),
    );
}

/// A filter whose prefix is longer than that of a route origin never
/// removes it, whatever its AS number: a prefix covers only prefixes at
/// least as long.
pub proof fn law_longer_filter_keeps(filter: PrefixFilter, origin: RouteOrigin)
    requires
        filter.prefix matches Some(p) && p.len > origin.prefix.len,
        prefix_wf(filter.prefix->0),
        prefix_wf(origin.prefix),
    ensures
        !filter_drops(filter, PayloadV::Origin(origin)),
{
    let p = filter.prefix->0;
    let q = origin.prefix;
    law_covers_is_containment(p, q);
    if p.v6 == q.v6 && p.bits <= q.bits && max_addr(q) <= max_addr(p) {
        lemma_longer_range(p, q);
    }
}

/// A longer valid prefix spans fewer addresses than a shorter one, so it
/// cannot hold the range of the shorter one.
proof fn lemma_longer_range(p: Prefix, q: Prefix)
    requires
        prefix_wf(p),
        prefix_wf(q),
        p.len > q.len,
        p.bits <= q.bits,
    ensures
        max_addr(q) > max_addr(p),
{
    lemma_covers_range_bits(
        p.bits,
        q.bits,
        p.len as u128,
        q.len as u128,
        host_mask(p.len),
        host_mask(q.len),
    );
    lemma_covers_range_bits(
        q.bits,
        p.bits,
        q.len as u128,
        p.len as u128,
        host_mask(q.len),
        host_mask(p.len),
    );
}

/// Whether a filter removes a payload value.
pub open spec fn filter_drops(filter: PrefixFilter, p: PayloadV) -> bool {
    match p {
        PayloadV::Origin(origin) => match (filter.prefix, filter.asn) {
            (Some(prefix), Some(asn)) => covers(prefix, origin.prefix) && asn == origin.asn,
            (Some(prefix), None) => covers(prefix, origin.prefix),
            (None, Some(asn)) => asn == origin.asn,
            (None, None) => false,
        },
        _ => false,
    }
}

/// A filter with both a prefix and an AS number removes exactly what a
/// filter with only the prefix and one with only the AS number both
/// remove; a filter with neither removes nothing, and no filter removes
/// anything but route origins.
pub proof fn law_filter_parts(prefix: Prefix, asn: u32, p: PayloadV)
    ensures
        filter_drops(PrefixFilter { prefix: Some(prefix), asn: Some(asn) }, p) == (filter_drops(
            PrefixFilter { prefix: Some(prefix), asn: None },
            p,
        ) && filter_drops(PrefixFilter { prefix: None, asn: Some(asn) }, p)),
        !filter_drops(PrefixFilter { prefix: None, asn: None }, p),
        !(p is Origin) ==> !filter_drops(PrefixFilter { prefix: Some(prefix), asn: Some(asn) }, p),
        p matches PayloadV::Origin(o) ==> filter_drops(PrefixFilter { prefix: None, asn: Some(asn) }, p)
            == (o.asn == asn),
{
}

/// Returns whether prefix `a` covers prefix `b`.
fn prefix_covers(a: &Prefix, b: &Prefix) -> (res: bool)
    ensures
        res == covers(*a, *b),
{
    if a.v6 != b.v6 || a.len > b.len {
        return false;
    }
    let mask: u128 = if a.len >= 128 {
        0
    } else {
        u128::MAX >> a.len
    };
    b.bits & !mask == a.bits & !mask
}

impl PrefixFilter {
    /// Creates a new prefix filter.
    pub fn new(prefix: Option<Prefix>, asn: Option<u32>) -> (res: PrefixFilter)
        ensures
            res == (PrefixFilter { prefix, asn }),
    {
        PrefixFilter { prefix, asn }
    }

    /// Returns whether the given payload item should be dropped.
    pub fn drop_payload(&self, payload: &Payload) -> (res: bool)
        ensures
            res == filter_drops(*self, payload@),
    {
        match payload {
            Payload::Origin(origin) => {
                let drop_prefix = match &self.prefix {
                    Some(prefix) => Some(prefix_covers(prefix, &origin.prefix)),
                    None => None,
                };
                let drop_asn = match self.asn {
                    Some(asn) => Some(asn == origin.asn),
                    None => None,
                };
                match (drop_prefix, drop_asn) {
                    (Some(prefix), Some(asn)) => prefix && asn,
                    (Some(prefix), None) => prefix,
                    (None, Some(asn)) => asn,
                    (None, None) => false,
                }
            },
            _ => false,
        }
    }
}

//------------ ValidationOutputFilters ---------------------------------------

/// The filters of a local exceptions file that apply to payload.
#[derive(Clone, Debug)]
pub struct ValidationOutputFilters {
    /// The list of descriptions of route origin assertions to remove.
    pub prefix: Vec<PrefixFilter>,
}

/// Whether some of the filters remove a payload value.
pub open spec fn filters_drop(filters: Seq<PrefixFilter>, p: PayloadV) -> bool {
    exists|i: int| 0 <= i < filters.len() && filter_drops(#[trigger] filters[i], p)
}

impl ValidationOutputFilters {
    /// Returns whether the given payload item should be dropped.
    pub fn drop_payload(&self, payload: &Payload) -> (res: bool)
        ensures
            res == filters_drop(self.prefix@, payload@),
    {
        let mut i: usize = 0;
        while i < self.prefix.len()
            invariant
                i <= self.prefix@.len(),
                forall|k: int| 0 <= k < i ==> !filter_drops(#[trigger] self.prefix@[k], payload@),
            decreases self.prefix@.len() - i,
        {
            if self.prefix[i].drop_payload(payload) {
                return true;
            }
            i = i + 1;
        }
        false
    }
}

//------------ Content -------------------------------------------------------

/// The content of a local exceptions file in slightly pre-processed form.
pub struct Content {
    /// The filters.
    pub filters: ValidationOutputFilters,

    /// The assertions.
    pub assertions: Pack,
}

/// The views of a sequence of payload items.
pub open spec fn payload_views(items: Seq<Payload>) -> Seq<PayloadV> {
    items.map_values(|p: Payload| p@)
}

impl Content {
    /// Creates the content from the filters and the assertions of a file.
    ///
    /// The assertions are collected into a pack; one given more than once is
    /// kept once.
    pub fn new(filters: ValidationOutputFilters, assertions: Vec<Payload>) -> (res: Content)
        ensures
            res.filters == filters,
            res.assertions.wf(),
            res.assertions@.to_set() == payload_views(assertions@).to_set(),
    {
        let mut builder = PackBuilder::empty();
        let mut i: usize = 0;
        while i < assertions.len()
            invariant
                i <= assertions@.len(),
                builder.wf(),
                builder@ == payload_views(assertions@.take(i as int)).to_set(),
            decreases assertions@.len() - i,
        {
            let payload = copy_payload(&assertions[i]);
            builder.insert_unchecked(payload);
            proof {
                let a = payload_views(assertions@.take(i as int));
                let b = payload_views(assertions@.take(i + 1));
                let x = assertions@[i as int]@;
                assert(b =~= a.push(x));
                assert forall|y: PayloadV| b.contains(y) <==> a.contains(y) || y == x by {
                    if b.contains(y) {
                        let k = choose|k: int| 0 <= k < b.len() && b[k] == y;
                        if k < a.len() {
                            assert(a[k] == y);
                        }
                    }
                    if a.contains(y) {
                        let k = choose|k: int| 0 <= k < a.len() && a[k] == y;
                        assert(b[k] == y);
                    }
                    if y == x {
                        assert(b[a.len() as int] == x);
                    }
                }
                assert(b.to_set() =~= a.to_set().insert(x));
            }
            i = i + 1;
        }
        proof {
            assert(assertions@.take(assertions@.len() as int) =~= assertions@);
        }
        Content { filters, assertions: builder.finalize() }
    }

    /// Applies the local exceptions to a set: first the filters remove
    /// payload, then the assertions are added.
    pub fn apply(&self, set: PayloadSet) -> (res: PayloadSet)
        requires
            set.wf(),
            self.assertions.wf(),
            set@.len() + self.assertions@.len() <= usize::MAX,
        ensures
            res.wf(),
            forall|x: PayloadV|
                res@.to_set().contains(x) <==> (set@.contains(x) && !filters_drop(
                    self.filters.prefix@,
                    x,
                )) || self.assertions@.contains(x),
    {
        let filters = &self.filters;
        let retain = |payload: &Payload| -> (keep: bool)
            ensures
                keep == !filters_drop(filters.prefix@, payload@),
        { !filters.drop_payload(payload) };
        let filtered = set.filter(retain);
        proof {
            set.lemma_items();
        }
        let mut builder = filtered.to_builder();
        builder.insert_pack(self.assertions.share());
        proof {
            vstd::seq_lib::seq_to_set_distributes_over_add(filtered@, self.assertions@);
            crate::payload::lemma_flatten_push(
                crate::payload::bviews(filtered.blocks()),
                self.assertions@,
            );
        }
        let res = builder.finalize();
        proof {
            assert forall|x: PayloadV|
                res@.to_set().contains(x) <==> (set@.contains(x) && !filters_drop(
                    self.filters.prefix@,
                    x,
                )) || self.assertions@.contains(x) by {
                if set@.contains(x) {
                    let i = choose|i: int| 0 <= i < set@.len() && set@[i] == x;
                    assert(set.items()[i]@ == set@[i]);
                }
                if filtered@.contains(x) {
                    assert(set@.contains(x));
                    let i = choose|i: int| 0 <= i < set@.len() && set@[i] == x;
                    assert(set.items()[i]@ == set@[i]);
                }
                assert(filtered@.to_set().contains(x) == filtered@.contains(x));
                assert(self.assertions@.to_set().contains(x) == self.assertions@.contains(x));
            }
        }
        res
    }
}


//------------ Reading files -------------------------------------------------

/// A prefix as a file gives it: whether it is IPv6, the address (for IPv4
/// the 32 bit value) and the prefix length.
pub type PrefixParts = (bool, u128, u8);

/// A prefix filter as a file gives it: the prefix and the AS number, where
/// the filter has them.
pub type FilterParts = (Option<PrefixParts>, Option<u32>);

/// A prefix assertion as a file gives it: the prefix, the max-length if it
/// has one, and the AS number.
pub type OriginParts = (PrefixParts, Option<u8>, u32);

/// A router key assertion as a file gives it: the subject key identifier,
/// the AS number and the key.
pub type KeyParts = ([u8; 20], u32, Vec<u8>);

/// An ASPA assertion as a file gives it: the customer and the providers.
pub type AspaParts = (u32, Vec<u32>);

/// The prefix filters of a local exceptions file, or `None` if the bytes
/// are not such a file.
pub uninterp spec fn slurm_filter_parts(data: Seq<u8>) -> Option<Seq<FilterParts>>;

/// The prefix assertions of a local exceptions file, or `None` if the
/// bytes are not such a file.
pub uninterp spec fn slurm_origin_parts(data: Seq<u8>) -> Option<Seq<OriginParts>>;

/// The router key assertions of a local exceptions file, each with the
/// values of its identifier and key, or `None` if the bytes are not such a
/// file.
pub uninterp spec fn slurm_key_parts(data: Seq<u8>) -> Option<Seq<(Seq<u8>, u32, Seq<u8>)>>;

/// The ASPA assertions of a local exceptions file, each with the value of
/// its providers, or `None` if the bytes are not such a file.
pub uninterp spec fn slurm_aspa_parts(data: Seq<u8>) -> Option<Seq<(u32, Seq<u32>)>>;

/// The value of a router key assertion.
pub open spec fn key_parts_view(k: KeyParts) -> (Seq<u8>, u32, Seq<u8>) {
    (k.0@, k.1, k.2@)
}

/// The value of an ASPA assertion.
pub open spec fn aspa_parts_view(a: AspaParts) -> (u32, Seq<u32>) {
    (a.0, a.1@)
}

/// Reads the prefix filters of a local exceptions file.
///
/// Parses the bytes with `rpki::slurm::SlurmFile::from_reader` and hands
/// out the prefix filters, in the order of the file. What the parser
/// accepts is not stated: the result is named by `slurm_filter_parts`.
#[verifier::external_body]
fn read_filter_parts(data: &[u8]) -> (res: Option<Vec<FilterParts>>)
    ensures
        res is Some <==> slurm_filter_parts(data@) is Some,
        res matches Some(v) ==> v@ == slurm_filter_parts(data@)->0,
{
    let file = rpki::slurm::SlurmFile::from_reader(data).ok()?;
    Some(file.filters.prefix.iter().map(|f| (
        f.prefix.map(|p| match p.addr() {
            core::net::IpAddr::V4(a) => (false, u128::from(u32::from(a)), p.len()),
            core::net::IpAddr::V6(a) => (true, u128::from(a), p.len()),
        }),
        f.asn.map(|a| a.into_u32()),
    )).collect())
}

/// Reads the prefix assertions of a local exceptions file.
///
/// Parses the bytes with `rpki::slurm::SlurmFile::from_reader` and hands
/// out the prefix assertions, in the order of the file. What the parser
/// accepts is not stated: the result is named by `slurm_origin_parts`.
#[verifier::external_body]
fn read_origin_parts(data: &[u8]) -> (res: Option<Vec<OriginParts>>)
    ensures
        res is Some <==> slurm_origin_parts(data@) is Some,
        res matches Some(v) ==> v@ == slurm_origin_parts(data@)->0,
{
    let file = rpki::slurm::SlurmFile::from_reader(data).ok()?;
    Some(file.assertions.prefix.iter().map(|o| (
        match o.prefix.addr() {
            core::net::IpAddr::V4(a) => (false, u128::from(u32::from(a)), o.prefix.prefix_len()),
            core::net::IpAddr::V6(a) => (true, u128::from(a), o.prefix.prefix_len()),
        },
        o.prefix.max_len(),
        o.asn.into_u32(),
    )).collect())
}

/// Reads the router key assertions of a local exceptions file.
///
/// Parses the bytes with `rpki::slurm::SlurmFile::from_reader` and hands
/// out the router key assertions, in the order of the file. What the
/// parser accepts is not stated: the result is named by `slurm_key_parts`.
#[verifier::external_body]
fn read_key_parts(data: &[u8]) -> (res: Option<Vec<KeyParts>>)
    ensures
        res is Some <==> slurm_key_parts(data@) is Some,
        res matches Some(v) ==> v@.map_values(|k: KeyParts| key_parts_view(k))
            == slurm_key_parts(data@)->0,
{
    let file = rpki::slurm::SlurmFile::from_reader(data).ok()?;
    Some(file.assertions.bgpsec.iter().map(|k| (
        k.ski.into(), k.asn.into_u32(), k.router_public_key.to_vec(),
    )).collect())
}

/// Reads the ASPA assertions of a local exceptions file.
///
/// Parses the bytes with `rpki::slurm::SlurmFile::from_reader` and hands
/// out the ASPA assertions, in the order of the file; a file without them
/// has none. What the parser accepts is not stated: the result is named by
/// `slurm_aspa_parts`.
#[verifier::external_body]
fn read_aspa_parts(data: &[u8]) -> (res: Option<Vec<AspaParts>>)
    ensures
        res is Some <==> slurm_aspa_parts(data@) is Some,
        res matches Some(v) ==> v@.map_values(|a: AspaParts| aspa_parts_view(a))
            == slurm_aspa_parts(data@)->0,
{
    let file = rpki::slurm::SlurmFile::from_reader(data).ok()?;
    Some(file.assertions.aspa.iter().flatten().map(|a| (
        a.customer_asn.into_u32(), a.provider_asns.iter().map(|p| p.into_u32()).collect(),
    )).collect())
}


/// Whether a prefix as a file gives it is a valid prefix.
pub open spec fn parts_ok(p: PrefixParts) -> bool {
    if p.0 {
        p.2 <= 128 && host_is_zero(p.1, p.2)
    } else {
        p.1 <= u32::MAX && p.2 <= 32 && host_is_zero(((p.1 as u32) as u128) << 96u32, p.2)
    }
}

/// The prefix of a file's prefix.
pub open spec fn parts_prefix(p: PrefixParts) -> Prefix {
    if p.0 {
        Prefix { v6: true, bits: p.1, len: p.2 }
    } else {
        Prefix { v6: false, bits: ((p.1 as u32) as u128) << 96u32, len: p.2 }
    }
}

/// Whether a prefix filter as a file gives it is valid.
pub open spec fn filter_parts_ok(f: FilterParts) -> bool {
    f.0 matches Some(p) ==> parts_ok(p)
}

/// The prefix filter of a file's prefix filter.
pub open spec fn filter_of(f: FilterParts) -> PrefixFilter {
    PrefixFilter {
        prefix: match f.0 {
            Some(p) => Some(parts_prefix(p)),
            None => None,
        },
        asn: f.1,
    }
}

/// Whether a max-length fits a prefix: not above the family's limit and
/// not below the prefix length.
pub open spec fn max_len_ok(prefix: Prefix, max_len: Option<u8>) -> bool {
    max_len matches Some(m) ==> !((!prefix.v6 && m > 32) || m > 128) && prefix.len <= m
}

/// Whether a prefix assertion as a file gives it is valid.
pub open spec fn origin_parts_ok(o: OriginParts) -> bool {
    parts_ok(o.0) && max_len_ok(parts_prefix(o.0), o.1)
}

/// The payload value of a file's prefix assertion.
pub open spec fn origin_of(o: OriginParts) -> PayloadV {
    let prefix = parts_prefix(o.0);
    PayloadV::Origin(RouteOrigin {
        prefix,
        max_len: match o.1 {
            Some(m) => m,
            None => prefix.len,
        },
        asn: o.2,
    })
}

/// The payload value of a file's router key assertion.
pub open spec fn key_of(k: (Seq<u8>, u32, Seq<u8>)) -> PayloadV {
    PayloadV::RouterKey { ski: k.0, asn: k.1, info: k.2 }
}

/// The payload value of a file's ASPA assertion.
pub open spec fn aspa_of(a: (u32, Seq<u32>)) -> PayloadV {
    PayloadV::Aspa { customer: a.0, providers: a.1 }
}

/// Whether all filters and prefix assertions of a file are valid.
pub open spec fn file_parts_ok(filters: Seq<FilterParts>, origins: Seq<OriginParts>) -> bool {
    &&& forall|i: int| 0 <= i < filters.len() ==> filter_parts_ok(#[trigger] filters[i])
    &&& forall|i: int| 0 <= i < origins.len() ==> origin_parts_ok(#[trigger] origins[i])
}

/// The payload values asserted by a file: its prefix assertions, router
/// keys and ASPA units.
pub open spec fn file_assertions(
    origins: Seq<OriginParts>,
    keys: Seq<(Seq<u8>, u32, Seq<u8>)>,
    aspas: Seq<(u32, Seq<u32>)>,
) -> Seq<PayloadV> {
    origins.map_values(|o: OriginParts| origin_of(o)) + keys.map_values(
        |k: (Seq<u8>, u32, Seq<u8>)| key_of(k),
    ) + aspas.map_values(|a: (u32, Seq<u32>)| aspa_of(a))
}

/// Why a local exceptions file could not be read.
#[derive(Clone, Copy, Debug, PartialEq, Eq, Structural)]
pub enum SlurmError {
    /// The bytes are not a local exceptions file.
    Syntax,

    /// A prefix or a max-length of the file is invalid.
    Value,
}

/// Creates a prefix from a file's prefix, if it is valid.
fn prefix_from_parts(p: PrefixParts) -> (res: Option<Prefix>)
    ensures
        res is Some <==> parts_ok(p),
        res matches Some(q) ==> q == parts_prefix(p),
{
    if p.0 {
        match Prefix::new_v6(p.1, p.2) {
            Ok(q) => Some(q),
            Err(_) => None,
        }
    } else if p.1 > 0xffff_ffff {
        None
    } else {
        match Prefix::new_v4(p.1 as u32, p.2) {
            Ok(q) => Some(q),
            Err(_) => None,
        }
    }
}

impl Content {
    /// Creates the content from the parts of a local exceptions file.
    ///
    /// Returns `None` if a prefix or a max-length of the file is invalid.
    pub fn from_parts(
        filters: &Vec<FilterParts>,
        origins: &Vec<OriginParts>,
        keys: &Vec<KeyParts>,
        aspas: &Vec<AspaParts>,
    ) -> (res: Option<Content>)
        ensures
            res is Some <==> file_parts_ok(filters@, origins@),
            res matches Some(c) ==> {
                &&& c.filters.prefix@ == filters@.map_values(|f: FilterParts| filter_of(f))
                &&& c.assertions.wf()
                &&& c.assertions@.to_set() == file_assertions(
                    origins@,
                    keys@.map_values(|k: KeyParts| key_parts_view(k)),
                    aspas@.map_values(|a: AspaParts| aspa_parts_view(a)),
                ).to_set()
            },
    {
        let mut prefix: Vec<PrefixFilter> = Vec::new();
        let mut i: usize = 0;
        while i < filters.len()
            invariant
                i <= filters@.len(),
                forall|k: int| 0 <= k < i ==> filter_parts_ok(#[trigger] filters@[k]),
                prefix@ =~= filters@.take(i as int).map_values(|f: FilterParts| filter_of(f)),
            decreases filters@.len() - i,
        {
            let f = filters[i];
            let p = match f.0 {
                Some(parts) => match prefix_from_parts(parts) {
                    Some(q) => Some(q),
                    None => return None,
                },
                None => None,
            };
            prefix.push(PrefixFilter::new(p, f.1));
            proof {
                assert(filters@.take(i + 1) =~= filters@.take(i as int).push(f));
            }
            i = i + 1;
        }
        proof {
            assert(filters@.take(filters@.len() as int) =~= filters@);
        }
        let ghost kv = keys@.map_values(|k: KeyParts| key_parts_view(k));
        let ghost av = aspas@.map_values(|a: AspaParts| aspa_parts_view(a));
        let mut items: Vec<Payload> = Vec::new();
        let mut i: usize = 0;
        while i < origins.len()
            invariant
                i <= origins@.len(),
                forall|k: int| 0 <= k < filters@.len() ==> filter_parts_ok(#[trigger] filters@[k]),
                forall|k: int| 0 <= k < i ==> origin_parts_ok(#[trigger] origins@[k]),
                payload_views(items@) =~= file_assertions(origins@.take(i as int), seq![], seq![]),
            decreases origins@.len() - i,
        {
            let o = origins[i];
            let ghost old_items = items;
            let q = match prefix_from_parts(o.0) {
                Some(q) => q,
                None => return None,
            };
            match RouteOrigin::new(q, o.1, o.2) {
                Ok(origin) => items.push(Payload::Origin(origin)),
                Err(_) => return None,
            }
            proof {
                assert(origins@.take(i + 1) =~= origins@.take(i as int).push(o));
                let ot = origins@.take(i as int);
                assert(ot.push(o).map_values(|x: OriginParts| origin_of(x)) =~= ot.map_values(
                    |x: OriginParts| origin_of(x),
                ).push(origin_of(o)));
                assert(payload_views(items@) =~= payload_views(old_items@).push(items@.last()@));
                assert(payload_views(items@) =~= file_assertions(origins@.take(i + 1), seq![], seq![]));
            }
            i = i + 1;
        }
        proof {
            assert(origins@.take(origins@.len() as int) =~= origins@);
        }
        let mut i: usize = 0;
        while i < keys.len()
            invariant
                i <= keys@.len(),
                kv == keys@.map_values(|k: KeyParts| key_parts_view(k)),
                payload_views(items@) =~= file_assertions(origins@, kv.take(i as int), seq![]),
            decreases keys@.len() - i,
        {
            let k = &keys[i];
            let ghost old_items = items;
            let info = k.2.clone();
            proof {
                assert(info@ =~= k.2@);
                assert(kv.take(i + 1) =~= kv.take(i as int).push(key_parts_view(*k)));
            }
            items.push(Payload::RouterKey(RouterKey { key_identifier: k.0, asn: k.1, key_info: info }));
            proof {
                let kt = kv.take(i as int);
                assert(kt.push(key_parts_view(*k)).map_values(
                    |x: (Seq<u8>, u32, Seq<u8>)| key_of(x),
                ) =~= kt.map_values(|x: (Seq<u8>, u32, Seq<u8>)| key_of(x)).push(key_of(key_parts_view(*k))));
                assert(payload_views(items@) =~= payload_views(old_items@).push(items@.last()@));
                assert(payload_views(items@) =~= file_assertions(origins@, kv.take(i + 1), seq![]));
            }
            i = i + 1;
        }
        proof {
            assert(kv.take(keys@.len() as int) =~= kv);
        }
        let mut i: usize = 0;
        while i < aspas.len()
            invariant
                i <= aspas@.len(),
                av == aspas@.map_values(|a: AspaParts| aspa_parts_view(a)),
                payload_views(items@) =~= file_assertions(origins@, kv, av.take(i as int)),
            decreases aspas@.len() - i,
        {
            let a = &aspas[i];
            let ghost old_items = items;
            let providers = a.1.clone();
            proof {
                assert(providers@ =~= a.1@);
                assert(av.take(i + 1) =~= av.take(i as int).push(aspa_parts_view(*a)));
            }
            items.push(Payload::Aspa(Aspa { customer: a.0, providers }));
            proof {
                let at = av.take(i as int);
                assert(at.push(aspa_parts_view(*a)).map_values(|x: (u32, Seq<u32>)| aspa_of(x))
                    =~= at.map_values(|x: (u32, Seq<u32>)| aspa_of(x)).push(aspa_of(aspa_parts_view(*a))));
                assert(payload_views(items@) =~= payload_views(old_items@).push(items@.last()@));
                assert(payload_views(items@) =~= file_assertions(origins@, kv, av.take(i + 1)));
            }
            i = i + 1;
        }
        proof {
            assert(av.take(aspas@.len() as int) =~= av);
        }
        Some(Content::new(ValidationOutputFilters { prefix }, items))
    }

    /// Reads the content of a local exceptions file.
    ///
    /// Fails with [`SlurmError::Syntax`] if the bytes are not such a file
    /// and with [`SlurmError::Value`] if one of its prefixes or
    /// max-lengths is invalid.
    pub fn from_slurm(data: &[u8]) -> (res: Result<Content, SlurmError>)
        ensures
            ({
                let f = slurm_filter_parts(data@);
                let o = slurm_origin_parts(data@);
                let k = slurm_key_parts(data@);
                let a = slurm_aspa_parts(data@);
                if f is None || o is None || k is None || a is None {
                    res == Err::<Content, SlurmError>(SlurmError::Syntax)
                } else if !file_parts_ok(f->0, o->0) {
                    res == Err::<Content, SlurmError>(SlurmError::Value)
                } else {
                    res matches Ok(c) && c.filters.prefix@ == f->0.map_values(
                        |x: FilterParts| filter_of(x),
                    ) && c.assertions.wf() && c.assertions@.to_set() == file_assertions(
                        o->0,
                        k->0,
                        a->0,
                    ).to_set()
                }
            }),
    {
        let filters = match read_filter_parts(data) {
            Some(v) => v,
            None => return Err(SlurmError::Syntax),
        };
        let origins = match read_origin_parts(data) {
            Some(v) => v,
            None => return Err(SlurmError::Syntax),
        };
        let keys = match read_key_parts(data) {
            Some(v) => v,
            None => return Err(SlurmError::Syntax),
        };
        let aspas = match read_aspa_parts(data) {
            Some(v) => v,
            None => return Err(SlurmError::Syntax),
        };
        match Content::from_parts(&filters, &origins, &keys, &aspas) {
            Some(c) => Ok(c),
            None => Err(SlurmError::Value),
        }
    }
}

//------------ ExceptionSet --------------------------------------------------

/// The values of a set after applying the contents of local exception files
/// one after the other.
pub open spec fn exceptions_applied(contents: Seq<Content>, s: Set<PayloadV>) -> Set<PayloadV>
    decreases contents.len(),
{
    if contents.len() == 0 {
        s
    } else {
        let c = contents.last();
        exceptions_applied(contents.drop_last(), s).filter(
            |x: PayloadV| !filters_drop(c.filters.prefix@, x),
        ).union(c.assertions@.to_set())
    }
}

/// The number of assertions of local exception files.
pub open spec fn assertion_count(contents: Seq<Content>) -> nat
    decreases contents.len(),
{
    if contents.len() == 0 {
        0
    } else {
        assertion_count(contents.drop_last()) + contents.last().assertions@.len()
    }
}

/// The contents of all the local exception files in use, in order.
pub struct ExceptionSet {
    contents: Vec<Content>,
}

impl ExceptionSet {
    /// The contents of the files.
    pub closed spec fn contents(&self) -> Seq<Content> {
        self.contents@
    }

    /// The assertions of all files are valid.
    pub open spec fn wf(&self) -> bool {
        forall|i: int| 0 <= i < self.contents().len() ==> (#[trigger] self.contents()[i]).assertions.wf()
    }

    /// Creates the set from the contents of the files.
    pub fn new(contents: Vec<Content>) -> (res: ExceptionSet)
        ensures
            res.contents() == contents@,
    {
        ExceptionSet { contents }
    }

    /// Applies the exceptions of all files, one after the other, to a set.
    pub fn apply_set(&self, set: PayloadSet) -> (res: PayloadSet)
        requires
            self.wf(),
            set.wf(),
            set@.len() + assertion_count(self.contents()) <= usize::MAX,
        ensures
            res.wf(),
            res@.to_set() == exceptions_applied(self.contents(), set@.to_set()),
    {
        let ghost start = set@.to_set();
        let mut current = set;
        let mut i: usize = 0;
        proof {
            assert(self.contents().take(0) =~= Seq::<Content>::empty());
        }
        while i < self.contents.len()
            invariant
                self.wf(),
                i <= self.contents().len(),
                current.wf(),
                current@.to_set() == exceptions_applied(self.contents().take(i as int), start),
                current@.len() + assertion_count(self.contents()) - assertion_count(
                    self.contents().take(i as int),
                ) <= usize::MAX,
            decreases self.contents().len() - i,
        {
            let content = &self.contents[i];
            proof {
                lemma_assertion_count_take(self.contents(), i as int);
            }
            let ghost before = current@;
            let next = content.apply(current);
            proof {
                let t = self.contents().take(i + 1);
                assert(t.drop_last() =~= self.contents().take(i as int));
                assert(t.last() == *content);
                let prev = exceptions_applied(self.contents().take(i as int), start);
                let kept = prev.filter(|x: PayloadV| !filters_drop(content.filters.prefix@, x));
                let added = content.assertions@.to_set();
                assert forall|x: PayloadV| next@.to_set().contains(x) <==> kept.union(added).contains(x) by {
                    assert(prev.contains(x) == before.contains(x));
                    assert(added.contains(x) == content.assertions@.contains(x));
                }
                assert(next@.to_set() =~= kept.union(added));
                next.lemma_view();
                lemma_sorted_no_dup(next@);
                current.lemma_view();
                lemma_sorted_no_dup(before);
                before.lemma_cardinality_of_set();
                content.assertions@.lemma_cardinality_of_set();
                prev.lemma_len_filter(|x: PayloadV| !filters_drop(content.filters.prefix@, x));
                vstd::set_lib::lemma_len_union(kept, added);
            }
            current = next;
            i = i + 1;
        }
        proof {
            assert(self.contents().take(self.contents().len() as int) =~= self.contents());
        }
        current
    }

    /// Applies the exceptions to the set of an update.
    ///
    /// The new update keeps the serial number and has no diff.
    pub fn apply(&self, update: &Update) -> (res: Update)
        requires
            self.wf(),
            update.set_spec().wf(),
            update.set_spec()@.len() + assertion_count(self.contents()) <= usize::MAX,
        ensures
            res.serial_spec() == update.serial_spec(),
            res.set_spec().wf(),
            res.set_spec()@.to_set() == exceptions_applied(self.contents(), update.set_spec()@.to_set()),
            res.diff_spec() is None,
    {
        let set = self.apply_set(update.set().share());
        Update::new(update.serial(), set, None)
    }
}

/// The assertions of the first files and the next one count towards those
/// of all files.
proof fn lemma_assertion_count_take(contents: Seq<Content>, i: int)
    requires
        0 <= i < contents.len(),
    ensures
        assertion_count(contents.take(i + 1)) == assertion_count(contents.take(i))
            + contents[i].assertions@.len(),
        assertion_count(contents.take(i + 1)) <= assertion_count(contents),
    decreases contents.len() - i,
{
    let t = contents.take(i + 1);
    assert(t.drop_last() =~= contents.take(i));
    if i + 1 < contents.len() {
        lemma_assertion_count_take(contents, i + 1);
    } else {
        assert(t =~= contents);
    }
}

} // verus!
