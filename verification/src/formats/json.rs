//! The semi-standard JSON format for validated RPKI data.
//!
//! When creating a JSON document, a minimal format is used: an object with
//! a member `"roas"` listing the route origins and a member `"aspas"`
//! listing the ASPA units. Each route origin is an object with the members
//! `"asn"` (the AS number as a string with the `AS` prefix), `"prefix"` (the
//! prefix in slash notation), `"maxLength"`, and `"ta"`. Each ASPA unit is
//! an object with the members `"customer"` and `"providers"`.
//!
//! Router keys are not part of the format. Since they are ordered before
//! the ASPA units, the document ends where the first router key is.
//!
//! When reading a document, its route origins and ASPA units are collected
//! into a payload set; an item given more than once is kept once.

use vstd::prelude::*;
use vstd::utf8::encode_utf8;
use crate::payload::{OwnedSetIter, PackBuilder, PayloadSet};
use crate::rtr::{host_is_zero, prefix_wf, Aspa, Payload, PayloadV, Prefix, RouteOrigin};
use crate::text::{decimal, is_digit, law_decimal_read_after, law_decimal_read_before, law_decimal_read_unique, law_decimal_reads_back, lemma_encode_utf8_add, push_decimal, push_str, text_bytes};

verus! {

//============ Input =========================================================

/// The largest number of providers an ASPA unit can have.
pub const MAX_PROVIDER_COUNT: usize = 16380;

/// An ASPA unit has too many providers.
#[derive(Clone, Copy, Debug, PartialEq, Eq, Structural)]
pub struct ProviderAsnsError;

/// Creates an ASPA unit from a JSON document’s customer and providers.
///
/// Fails if there are more than [`MAX_PROVIDER_COUNT`] providers.
pub fn aspa_from_json(customer: u32, providers: Vec<u32>) -> (res: Result<Aspa, ProviderAsnsError>)
    ensures
        match res {
            Ok(aspa) => providers@.len() <= MAX_PROVIDER_COUNT && aspa.customer == customer
                && aspa.providers@ == providers@,
            Err(_) => providers@.len() > MAX_PROVIDER_COUNT,
        },
{
    if providers.len() > MAX_PROVIDER_COUNT {
        Err(ProviderAsnsError)
    } else {
        Ok(Aspa { customer, providers })
    }
}

/// The content of a JSON document: its route origins and, if it has them,
/// its ASPA units.
pub struct JsonSet {
    pub roas: Vec<RouteOrigin>,
    pub aspas: Option<Vec<Aspa>>,
}

/// The payload of the content of a JSON document: its route origins
/// followed by its ASPA units.
pub open spec fn json_payload(roas: Seq<RouteOrigin>, aspas: Option<Seq<Aspa>>) -> Seq<PayloadV> {
    roas.map_values(|o: RouteOrigin| PayloadV::Origin(o)) + match aspas {
        Some(aspas) => aspas.map_values(
            |a: Aspa| PayloadV::Aspa { customer: a.customer, providers: a.providers@ },
        ),
        None => Seq::empty(),
    }
}

/// The payload of a JSON document holds each of its route origins and, if
/// it has them, each of its ASPA units, and nothing else.
pub proof fn law_json_payload_items(roas: Seq<RouteOrigin>, aspas: Option<Seq<Aspa>>)
    ensures
        forall|i: int|
            0 <= i < roas.len() ==> json_payload(roas, aspas).contains(
                PayloadV::Origin(#[trigger] roas[i]),
            ),
        aspas matches Some(a) ==> forall|j: int|
            0 <= j < a.len() ==> json_payload(roas, aspas).contains(
                PayloadV::Aspa { customer: (#[trigger] a[j]).customer, providers: a[j].providers@ },
            ),
        forall|x: PayloadV|
            #[trigger] json_payload(roas, aspas).contains(x) ==> (exists|i: int|
                0 <= i < roas.len() && x == PayloadV::Origin(#[trigger] roas[i])) || (
            aspas matches Some(a) && exists|j: int|
                0 <= j < a.len() && x == PayloadV::Aspa {
                    customer: (#[trigger] a[j]).customer,
                    providers: a[j].providers@,
                }),
{
    let r = roas.map_values(|o: RouteOrigin| PayloadV::Origin(o));
    let s = match aspas {
        Some(aspas) => aspas.map_values(
            |a: Aspa| PayloadV::Aspa { customer: a.customer, providers: a.providers@ },
        ),
        None => Seq::empty(),
    };
    let all = json_payload(roas, aspas);
    assert(all == r + s);
    assert forall|i: int| 0 <= i < roas.len() implies all.contains(
        PayloadV::Origin(#[trigger] roas[i]),
    ) by {
        assert(all[i] == r[i]);
    }
    if let Some(a) = aspas {
        assert forall|j: int| 0 <= j < a.len() implies all.contains(
            PayloadV::Aspa { customer: (#[trigger] a[j]).customer, providers: a[j].providers@ },
        ) by {
            assert(all[r.len() + j] == s[j]);
        }
    }
    assert forall|x: PayloadV| #[trigger] all.contains(x) implies (exists|i: int|
        0 <= i < roas.len() && x == PayloadV::Origin(#[trigger] roas[i])) || (aspas matches Some(a)
        && exists|j: int|
        0 <= j < a.len() && x == PayloadV::Aspa {
            customer: (#[trigger] a[j]).customer,
            providers: a[j].providers@,
        }) by {
        let k = choose|k: int| 0 <= k < all.len() && all[k] == x;
        if k < r.len() {
            assert(x == PayloadV::Origin(roas[k]));
        } else {
            assert(x == s[k - r.len()]);
        }
    }
}

/// The ASPA units of the content of a JSON document, if any.
pub open spec fn aspas_view(aspas: Option<Vec<Aspa>>) -> Option<Seq<Aspa>> {
    match aspas {
        Some(aspas) => Some(aspas@),
        None => None,
    }
}

/// Inserts items into a pack builder, keeping an item given more than once
/// once.
fn insert_all(builder: &mut PackBuilder, items: Vec<Payload>)
    requires
        old(builder).wf(),
    ensures
        final(builder).wf(),
        final(builder)@ == old(builder)@.union(items@.map_values(|p: Payload| p@).to_set()),
{
    let ghost views = items@.map_values(|p: Payload| p@);
    let ghost start = builder@;
    let mut items = items;
    let mut rest: Vec<Payload> = Vec::new();
    // Take the items from the back so they can be moved out.
    let ghost n = items@.len();
    proof {
        assert(views.subrange(n as int, n as int).to_set() =~= Set::<PayloadV>::empty());
    }
    while items.len() > 0
        invariant
            builder.wf(),
            items@.len() <= n,
            n == views.len(),
            forall|k: int| 0 <= k < items@.len() ==> #[trigger] items@[k]@ == views[k],
            builder@ == start.union(views.subrange(items@.len() as int, n as int).to_set()),
        decreases items@.len(),
    {
        let ghost m = items@.len();
        let item = items.pop().unwrap();
        assert(item@ == views[m - 1]);
        let _ = builder.insert(item);
        proof {
            let a = views.subrange(m as int, n as int);
            let b = views.subrange(m - 1, n as int);
            assert forall|y: PayloadV| b.contains(y) <==> a.contains(y) || y == views[m - 1] by {
                if b.contains(y) {
                    let k = choose|k: int| 0 <= k < b.len() && b[k] == y;
                    if k > 0 {
                        assert(a[k - 1] == y);
                    }
                }
                if a.contains(y) {
                    let k = choose|k: int| 0 <= k < a.len() && a[k] == y;
                    assert(b[k + 1] == y);
                }
                if y == views[m - 1] {
                    assert(b[0] == y);
                }
            }
            assert(builder@ =~= start.union(b.to_set()));
        }
    }
    proof {
        assert(views.subrange(0, n as int) =~= views);
    }
}

impl JsonSet {
    /// Converts the content of a JSON document into a payload set.
    ///
    /// An item given more than once is kept once.
    pub fn into_payload(self) -> (res: PayloadSet)
        ensures
            res.wf(),
            res@.to_set() == json_payload(self.roas@, aspas_view(self.aspas)).to_set(),
            forall|i: int|
                0 <= i < self.roas@.len() ==> res@.contains(PayloadV::Origin(#[trigger] self.roas@[i])),
            self.aspas matches Some(a) ==> forall|j: int|
                0 <= j < a@.len() ==> res@.contains(
                    PayloadV::Aspa { customer: (#[trigger] a@[j]).customer, providers: a@[j].providers@ },
                ),
    {
        let ghost roas = self.roas@;
        let ghost aspas = aspas_view(self.aspas);
        let mut origins: Vec<Payload> = Vec::new();
        let mut i: usize = 0;
        while i < self.roas.len()
            invariant
                i <= roas.len(),
                roas == self.roas@,
                origins@.len() == i,
                forall|k: int| 0 <= k < i ==> #[trigger] origins@[k]@ == PayloadV::Origin(roas[k]),
            decreases roas.len() - i,
        {
            origins.push(Payload::Origin(self.roas[i]));
            i = i + 1;
        }
        let mut units: Vec<Payload> = Vec::new();
        match self.aspas {
            Some(aspas) => {
                let mut aspas = aspas;
                let ghost all = aspas@;
                let mut taken: Vec<Payload> = Vec::new();
                while aspas.len() > 0
                    invariant
                        aspas@.len() + taken@.len() == all.len(),
                        forall|k: int| 0 <= k < aspas@.len() ==> #[trigger] aspas@[k] == all[k],
                        forall|k: int|
                            0 <= k < taken@.len() ==> #[trigger] taken@[k]@ == (PayloadV::Aspa {
                                customer: all[all.len() - 1 - k].customer,
                                providers: all[all.len() - 1 - k].providers@,
                            }),
                    decreases aspas@.len(),
                {
                    let aspa = aspas.pop().unwrap();
                    taken.push(Payload::Aspa(aspa));
                }
                units = taken;
                proof {
                    let target = all.map_values(
                        |a: Aspa| PayloadV::Aspa { customer: a.customer, providers: a.providers@ },
                    );
                    let got = units@.map_values(|p: Payload| p@);
                    assert forall|y: PayloadV| got.contains(y) <==> target.contains(y) by {
                        if got.contains(y) {
                            let k = choose|k: int| 0 <= k < got.len() && got[k] == y;
                            assert(target[all.len() - 1 - k] == y);
                        }
                        if target.contains(y) {
                            let k = choose|k: int| 0 <= k < target.len() && target[k] == y;
                            assert(got[all.len() - 1 - k] == y);
                        }
                    }
                    assert(got.to_set() =~= target.to_set());
                }
            },
            None => {},
        }
        let ghost origin_views = origins@.map_values(|p: Payload| p@);
        let ghost unit_views = units@.map_values(|p: Payload| p@);
        proof {
            assert(origin_views =~= roas.map_values(|o: RouteOrigin| PayloadV::Origin(o)));
        }
        let mut builder = PackBuilder::empty();
        insert_all(&mut builder, origins);
        insert_all(&mut builder, units);
        proof {
            let whole = json_payload(roas, aspas);
            vstd::seq_lib::seq_to_set_distributes_over_add(
                roas.map_values(|o: RouteOrigin| PayloadV::Origin(o)),
                match aspas {
                    Some(aspas) => aspas.map_values(
                        |a: Aspa| PayloadV::Aspa { customer: a.customer, providers: a.providers@ },
                    ),
                    None => Seq::empty(),
                },
            );
            if aspas is None {
                assert(unit_views =~= Seq::<PayloadV>::empty());
            }
            assert(builder@ =~= whole.to_set());
            law_json_payload_items(roas, aspas);
        }
        let res = PayloadSet::from_pack(builder.finalize());
        proof {
            let whole = json_payload(roas, aspas);
            assert forall|i: int| 0 <= i < roas.len() implies res@.contains(
                PayloadV::Origin(#[trigger] roas[i]),
            ) by {
                assert(whole.contains(PayloadV::Origin(roas[i])));
                assert(res@.to_set().contains(PayloadV::Origin(roas[i])));
            }
            if let Some(a) = aspas {
                assert forall|j: int| 0 <= j < a.len() implies res@.contains(
                    PayloadV::Aspa { customer: (#[trigger] a[j]).customer, providers: a[j].providers@ },
                ) by {
                    let x = PayloadV::Aspa { customer: a[j].customer, providers: a[j].providers@ };
                    assert(whole.contains(x));
                    assert(res@.to_set().contains(x));
                }
            }
        }
        res
    }
}

//============ The document ==================================================

/// The text of an IPv6 prefix in slash notation as the rpki crate
/// displays it.
pub uninterp spec fn ipv6_prefix_text(addr: u128, len: u8) -> Seq<char>;

/// The dotted-quad text of an IPv4 address.
pub open spec fn ipv4_text(addr: u32) -> Seq<char> {
    decimal((addr / 0x100_0000) as nat) + seq!['.'] + decimal(((addr / 0x1_0000) % 256) as nat)
        + seq!['.'] + decimal(((addr / 0x100) % 256) as nat) + seq!['.'] + decimal(
        (addr % 256) as nat,
    )
}

/// The text of a prefix in slash notation.
pub open spec fn prefix_text(p: Prefix) -> Seq<char> {
    if p.v6 {
        ipv6_prefix_text(p.bits, p.len)
    } else {
        ipv4_text((p.bits >> 96u32) as u32) + seq!['/'] + decimal(p.len as nat)
    }
}

/// The end of an entry line: a comma unless it is the last entry.
pub open spec fn line_end(last: bool) -> Seq<char> {
    if last {
        "\n"@
    } else {
        ",\n"@
    }
}

/// The entry of a route origin, without the end of the line.
pub open spec fn origin_text(o: RouteOrigin) -> Seq<char> {
    "    { \"asn\": \"AS"@ + decimal(o.asn as nat) + "\", \"prefix\": \""@ + prefix_text(o.prefix)
        + "\", \"maxLength\": "@ + decimal(o.max_len as nat) + ", \"ta\": \"N/A\" }"@
}

/// A list of numbers, separated by commas.
pub open spec fn number_list(ns: Seq<u32>) -> Seq<char>
    decreases ns.len(),
{
    if ns.len() == 0 {
        Seq::empty()
    } else if ns.len() == 1 {
        decimal(ns[0] as nat)
    } else {
        number_list(ns.drop_last()) + ", "@ + decimal(ns.last() as nat)
    }
}

/// The entry of an ASPA unit, without the end of the line.
pub open spec fn aspa_text(customer: u32, providers: Seq<u32>) -> Seq<char> {
    "    { \"customer\": "@ + decimal(customer as nat) + ", \"providers\": ["@ + number_list(
        providers,
    ) + "] }"@
}

/// The entry line of a payload item.
pub open spec fn entry_line(p: PayloadV, last: bool) -> Seq<char> {
    match p {
        PayloadV::Origin(o) => origin_text(o) + line_end(last),
        PayloadV::Aspa { customer, providers } => aspa_text(customer, providers) + line_end(last),
        PayloadV::RouterKey { .. } => Seq::empty(),
    }
}

/// The sequence starts with a route origin.
pub open spec fn starts_origin(r: Seq<PayloadV>) -> bool {
    r.len() > 0 && r[0] is Origin
}

/// The sequence starts with an ASPA unit.
pub open spec fn starts_aspa(r: Seq<PayloadV>) -> bool {
    r.len() > 0 && r[0] is Aspa
}

/// The end of the document after the ASPA list.
pub open spec fn aspa_end() -> Seq<char> {
    "  ]\n"@ + "}"@
}

/// The ASPA entries at the start of `r` and the end of the document.
pub open spec fn aspa_body(r: Seq<PayloadV>) -> Seq<char>
    decreases r.len(),
{
    if r.len() == 0 {
        Seq::empty()
    } else {
        let last = !starts_aspa(r.drop_first());
        entry_line(r[0], last) + if last {
            aspa_end()
        } else {
            aspa_body(r.drop_first())
        }
    }
}

/// The end of the list of route origins and what follows it.
pub open spec fn roa_end(r: Seq<PayloadV>) -> Seq<char> {
    if starts_aspa(r) {
        "  ],\n"@ + "  \"aspas\": [\n"@ + aspa_body(r)
    } else {
        "  ]\n"@ + "}"@
    }
}

/// The route origin entries at the start of `r` and what follows them.
pub open spec fn roa_body(r: Seq<PayloadV>) -> Seq<char>
    decreases r.len(),
{
    if r.len() == 0 {
        Seq::empty()
    } else {
        let last = !starts_origin(r.drop_first());
        entry_line(r[0], last) + if last {
            roa_end(r.drop_first())
        } else {
            roa_body(r.drop_first())
        }
    }
}

/// The JSON document for a sorted sequence of payload values.
pub open spec fn json_doc(r: Seq<PayloadV>) -> Seq<char> {
    "{\n"@ + if starts_origin(r) {
        "  \"roas\": [\n"@ + roa_body(r)
    } else if starts_aspa(r) {
        "  \"aspas\": [\n"@ + aspa_body(r)
    } else {
        "}"@
    }
}

/// The pieces in which a stream hands out the ASPA entries at the start of
/// `r` and the end of the document: one per entry, then the closing bracket
/// and the closing brace.
pub open spec fn aspa_chunks(r: Seq<PayloadV>) -> Seq<Seq<char>>
    decreases r.len(),
{
    if r.len() == 0 {
        Seq::empty()
    } else {
        let last = !starts_aspa(r.drop_first());
        seq![entry_line(r[0], last)] + if last {
            seq!["  ]\n"@, "}"@]
        } else {
            aspa_chunks(r.drop_first())
        }
    }
}

/// The pieces in which a stream hands out the end of the list of route
/// origins and what follows it.
pub open spec fn roa_end_chunks(r: Seq<PayloadV>) -> Seq<Seq<char>> {
    if starts_aspa(r) {
        seq!["  ],\n"@, "  \"aspas\": [\n"@] + aspa_chunks(r)
    } else {
        seq!["  ]\n"@, "}"@]
    }
}

/// The pieces in which a stream hands out the route origin entries at the
/// start of `r` and what follows them: one per entry, then the rest.
pub open spec fn roa_chunks(r: Seq<PayloadV>) -> Seq<Seq<char>>
    decreases r.len(),
{
    if r.len() == 0 {
        Seq::empty()
    } else {
        let last = !starts_origin(r.drop_first());
        seq![entry_line(r[0], last)] + if last {
            roa_end_chunks(r.drop_first())
        } else {
            roa_chunks(r.drop_first())
        }
    }
}

/// The pieces in which a stream hands out the JSON document for a sorted
/// sequence of payload values: the opening brace, the head of each list,
/// one piece per entry, the end of each list and the closing brace.
pub open spec fn json_chunks(r: Seq<PayloadV>) -> Seq<Seq<char>> {
    seq!["{\n"@] + if starts_origin(r) {
        seq!["  \"roas\": [\n"@] + roa_chunks(r)
    } else if starts_aspa(r) {
        seq!["  \"aspas\": [\n"@] + aspa_chunks(r)
    } else {
        seq!["}"@]
    }
}

/// All route origins hold valid prefixes.
pub open spec fn valid_origins(r: Seq<PayloadV>) -> bool {
    forall|i: int| 0 <= i < r.len() ==> (#[trigger] r[i] matches PayloadV::Origin(o) ==> prefix_wf(o.prefix))
}

//============ Formatting ====================================================

/// Formats an IPv4 prefix in slash notation with the rpki crate’s
/// `Prefix` type.
///
/// The rpki crate displays a prefix as the address and the length
/// separated by a slash; an IPv4 address is displayed as its four octets
/// in decimal, separated by dots.
#[verifier::external_body]
fn format_v4_prefix(addr: u32, len: u8) -> (res: String)
    requires
        len <= 32,
        host_is_zero((addr as u128) << 96u32, len),
    ensures
        res@ == ipv4_text(addr) + seq!['/'] + decimal(len as nat),
{
    match rpki::resources::addr::Prefix::new_v4(addr.into(), len) {
        Ok(prefix) => format!("{}", prefix),
        Err(_) => String::new(),
    }
}

/// Formats an IPv6 prefix in slash notation with the rpki crate’s
/// `Prefix` type.
///
/// The text of the address follows RFC 5952 as the standard library
/// implements it; the contract names the result without spelling it out.
#[verifier::external_body]
fn format_v6_prefix(addr: u128, len: u8) -> (res: String)
    requires
        len <= 128,
        host_is_zero(addr, len),
    ensures
        res@ == ipv6_prefix_text(addr, len),
{
    match rpki::resources::addr::Prefix::new_v6(addr.into(), len) {
        Ok(prefix) => format!("{}", prefix),
        Err(_) => String::new(),
    }
}

/// Appends the text of a prefix.
fn push_prefix(s: &mut String, p: &Prefix)
    requires
        prefix_wf(*p),
    ensures
        final(s)@ == old(s)@ + prefix_text(*p),
{
    if p.v6 {
        let text = format_v6_prefix(p.bits, p.len);
        push_str(s, text.as_str());
    } else {
        let addr = p.v4_addr();
        let bits = p.bits;
        let len = p.len;
        assert(((addr as u128) << 96u32) == bits) by (bit_vector)
            requires
                bits & (if len >= 128 { 0u128 } else { u128::MAX >> len }) == 0,
                len <= 32,
                addr == (bits >> 96u32) as u32,
        ;
        let text = format_v4_prefix(addr, len);
        push_str(s, text.as_str());
    }
}

/// Appends the entry of a route origin.
fn push_origin(s: &mut String, o: &RouteOrigin)
    requires
        prefix_wf(o.prefix),
    ensures
        final(s)@ == old(s)@ + origin_text(*o),
{
    push_str(s, "    { \"asn\": \"AS");
    push_decimal(s, o.asn as u128);
    push_str(s, "\", \"prefix\": \"");
    push_prefix(s, &o.prefix);
    push_str(s, "\", \"maxLength\": ");
    push_decimal(s, o.max_len as u128);
    push_str(s, ", \"ta\": \"N/A\" }");
    proof {
        assert(final(s)@ =~= old(s)@ + origin_text(*o));
    }
}

/// Appends the entry of an ASPA unit.
fn push_aspa(s: &mut String, customer: u32, providers: &Vec<u32>)
    ensures
        final(s)@ == old(s)@ + aspa_text(customer, providers@),
{
    let ghost start = s@;
    push_str(s, "    { \"customer\": ");
    push_decimal(s, customer as u128);
    push_str(s, ", \"providers\": [");
    let ghost before = s@;
    let mut i: usize = 0;
    proof {
        assert(providers@.take(0) =~= Seq::<u32>::empty());
        assert(s@ =~= before + number_list(providers@.take(0)));
    }
    while i < providers.len()
        invariant
            i <= providers@.len(),
            s@ == before + number_list(providers@.take(i as int)),
        decreases providers@.len() - i,
    {
        if i > 0 {
            push_str(s, ", ");
        }
        push_decimal(s, providers[i] as u128);
        proof {
            let t = providers@.take(i + 1);
            assert(t.drop_last() =~= providers@.take(i as int));
            assert(t.last() == providers@[i as int]);
            if i == 0 {
                assert(number_list(t) == decimal(providers@[0] as nat));
                assert(s@ =~= before + number_list(t));
            } else {
                assert(s@ =~= before + number_list(t));
            }
        }
        i = i + 1;
    }
    push_str(s, "] }");
    proof {
        assert(providers@.take(providers@.len() as int) =~= providers@);
        assert(s@ =~= start + aspa_text(customer, providers@));
    }
}

/// Appends the end of an entry line.
fn push_line_end(s: &mut String, last: bool)
    ensures
        final(s)@ == old(s)@ + line_end(last),
{
    if last {
        push_str(s, "\n");
    } else {
        push_str(s, ",\n");
    }
}

//============ OutputStream ==================================================

/// The state of the stream.
#[derive(Clone, Copy, Debug, PartialEq, Eq, Structural)]
enum StreamState {
    /// `{`
    Start,

    /// `"roas": [`
    RoaStart,

    /// { .. }
    RoaBody,

    /// `]`
    RoaEnd,

    /// `"aspas": [`
    AspaStart,

    /// { .. }
    AspaBody,

    /// `]`
    AspaEnd,

    /// `}`
    End,

    /// Nothing left.
    Done,
}

/// A stream of JSON formatted output.
///
/// The stream hands out the document for a payload set in pieces.
pub struct OutputStream {
    /// The iterator over the payload set.
    iter: OwnedSetIter,

    /// The current stream state.
    state: StreamState,
}

impl OutputStream {
    /// The stream is in a state that fits the items still to come.
    pub closed spec fn wf(&self) -> bool {
        let r = self.iter.rest();
        &&& self.iter.wf()
        &&& valid_origins(r)
        &&& match self.state {
            StreamState::RoaStart => starts_origin(r),
            StreamState::RoaBody => starts_origin(r),
            StreamState::AspaStart => starts_aspa(r),
            StreamState::AspaBody => starts_aspa(r),
            _ => true,
        }
    }

    /// The text still to come.
    pub closed spec fn remaining_text(&self) -> Seq<char> {
        let r = self.iter.rest();
        match self.state {
            StreamState::Start => json_doc(r),
            StreamState::RoaStart => "  \"roas\": [\n"@ + roa_body(r),
            StreamState::RoaBody => roa_body(r),
            StreamState::RoaEnd => roa_end(r),
            StreamState::AspaStart => "  \"aspas\": [\n"@ + aspa_body(r),
            StreamState::AspaBody => aspa_body(r),
            StreamState::AspaEnd => aspa_end(),
            StreamState::End => "}"@,
            StreamState::Done => Seq::empty(),
        }
    }

    /// The bytes still to come.
    pub open spec fn remaining(&self) -> Seq<u8> {
        encode_utf8(self.remaining_text())
    }

    /// The pieces still to come, each as text.
    pub closed spec fn remaining_chunks(&self) -> Seq<Seq<char>> {
        let r = self.iter.rest();
        match self.state {
            StreamState::Start => json_chunks(r),
            StreamState::RoaStart => seq!["  \"roas\": [\n"@] + roa_chunks(r),
            StreamState::RoaBody => roa_chunks(r),
            StreamState::RoaEnd => roa_end_chunks(r),
            StreamState::AspaStart => seq!["  \"aspas\": [\n"@] + aspa_chunks(r),
            StreamState::AspaBody => aspa_chunks(r),
            StreamState::AspaEnd => seq!["  ]\n"@, "}"@],
            StreamState::End => seq!["}"@],
            StreamState::Done => Seq::empty(),
        }
    }

    /// Creates a new output stream for the given payload set.
    pub fn new(set: PayloadSet) -> (res: OutputStream)
        requires
            set.wf(),
            valid_origins(set@),
        ensures
            res.wf(),
            res.remaining() == encode_utf8(json_doc(set@)),
            res.remaining_chunks() == json_chunks(set@),
    {
        OutputStream { iter: set.into_owned_iter(), state: StreamState::Start }
    }

    /// Returns a chunk holding the given text.
    fn chunk(text: &str) -> (res: Vec<u8>)
        ensures
            res@ == encode_utf8(text@),
    {
        let mut s = String::new();
        push_str(&mut s, text);
        proof {
            assert(s@ =~= text@);
        }
        text_bytes(&s)
    }

    /// Returns the next piece of the document.
    ///
    /// The pieces are the opening brace, the head of each list, one piece
    /// per entry, the end of each list and the closing brace. Taken
    /// together, they are the JSON document for the payload set.
    #[verifier::rlimit(40)]
    pub fn next(&mut self) -> (res: Option<Vec<u8>>)
        requires
            old(self).wf(),
        ensures
            final(self).wf(),
            res is None ==> old(self).remaining().len() == 0 && final(self).remaining() == old(self).remaining(),
            res matches Some(chunk) ==> chunk@.len() > 0 && chunk@ + final(self).remaining() == old(self).remaining(),
            res is None <==> old(self).remaining_chunks().len() == 0,
            res matches Some(chunk) ==> chunk@ == encode_utf8(old(self).remaining_chunks()[0])
                && final(self).remaining_chunks() == old(self).remaining_chunks().drop_first(),
    {
        let ghost r = self.iter.rest();
        let ghost old_text = self.remaining_text();
        let ghost old_chunks = self.remaining_chunks();
        let ghost mut text: Seq<char> = Seq::empty();
        proof {
            self.iter.lemma_rest();
        }
        let res = match self.state {
            StreamState::Start => {
                self.state = match self.iter.peek() {
                    Some(Payload::Origin(_)) => StreamState::RoaStart,
                    Some(Payload::Aspa(_)) => StreamState::AspaStart,
                    Some(Payload::RouterKey(_)) => StreamState::End,
                    None => StreamState::End,
                };
                proof {
                    text = "{\n"@;
                    reveal_strlit("{\n");
                }
                Some(Self::chunk("{\n"))
            },
            StreamState::RoaStart => {
                self.state = StreamState::RoaBody;
                proof {
                    text = "  \"roas\": [\n"@;
                    reveal_strlit("  \"roas\": [\n");
                }
                Some(Self::chunk("  \"roas\": [\n"))
            },
            StreamState::RoaBody => {
                let mut line = String::new();
                let ghost first = r[0];
                proof {
                    assert(r[0] matches PayloadV::Origin(o) ==> prefix_wf(o.prefix));
                }
                match self.iter.next() {
                    Some(Payload::Origin(origin)) => {
                        push_origin(&mut line, origin);
                    },
                    _ => {
                        proof {
                            assert(false);
                        }
                    },
                }
                self.state = match self.iter.peek() {
                    Some(Payload::Origin(_)) => StreamState::RoaBody,
                    _ => StreamState::RoaEnd,
                };
                let last = self.state != StreamState::RoaBody;
                push_line_end(&mut line, last);
                proof {
                    text = line@;
                    reveal_strlit("\n");
                    reveal_strlit(",\n");
                    assert(last == !starts_origin(r.drop_first()));
                    assert(text == entry_line(first, last));
                }
                Some(text_bytes(&line))
            },
            StreamState::RoaEnd => {
                self.state = match self.iter.peek() {
                    Some(Payload::Aspa(_)) => StreamState::AspaStart,
                    _ => StreamState::End,
                };
                if self.state == StreamState::End {
                    proof {
                        text = "  ]\n"@;
                        reveal_strlit("  ]\n");
                    }
                    Some(Self::chunk("  ]\n"))
                } else {
                    proof {
                        text = "  ],\n"@;
                        reveal_strlit("  ],\n");
                    }
                    Some(Self::chunk("  ],\n"))
                }
            },
            StreamState::AspaStart => {
                self.state = StreamState::AspaBody;
                proof {
                    text = "  \"aspas\": [\n"@;
                    reveal_strlit("  \"aspas\": [\n");
                }
                Some(Self::chunk("  \"aspas\": [\n"))
            },
            StreamState::AspaBody => {
                let mut line = String::new();
                let ghost first = r[0];
                match self.iter.next() {
                    Some(Payload::Aspa(aspa)) => {
                        push_aspa(&mut line, aspa.customer, &aspa.providers);
                    },
                    _ => {
                        proof {
                            assert(false);
                        }
                    },
                }
                self.state = match self.iter.peek() {
                    Some(Payload::Aspa(_)) => StreamState::AspaBody,
                    _ => StreamState::AspaEnd,
                };
                let last = self.state != StreamState::AspaBody;
                push_line_end(&mut line, last);
                proof {
                    text = line@;
                    reveal_strlit("\n");
                    reveal_strlit(",\n");
                    assert(last == !starts_aspa(r.drop_first()));
                    assert(text == entry_line(first, last));
                }
                Some(text_bytes(&line))
            },
            StreamState::AspaEnd => {
                self.state = StreamState::End;
                proof {
                    text = "  ]\n"@;
                    reveal_strlit("  ]\n");
                }
                Some(Self::chunk("  ]\n"))
            },
            StreamState::End => {
                self.state = StreamState::Done;
                proof {
                    text = "}"@;
                    reveal_strlit("}");
                }
                Some(Self::chunk("}"))
            },
            StreamState::Done => None,
        };
        proof {
            if res is Some {
                assert(old_chunks =~= seq![text] + self.remaining_chunks());
                assert(old_chunks.drop_first() =~= self.remaining_chunks());
                assert(text + self.remaining_text() =~= old_text);
                assert(text.len() > 0);
                lemma_encode_utf8_add(text, self.remaining_text());
                lemma_encode_nonempty(text);
            }
        }
        res
    }
}

/// Encoding some text gives some bytes.
proof fn lemma_encode_nonempty(t: Seq<char>)
    requires
        t.len() > 0,
    ensures
        encode_utf8(t).len() > 0,
{
}

//============ Laws ==========================================================

/// The text of a sequence of pieces followed by more pieces.
proof fn lemma_flatten_add(x: Seq<Seq<char>>, y: Seq<Seq<char>>)
    ensures
        (x + y).flatten() == x.flatten() + y.flatten(),
{
    vstd::seq_lib::lemma_flatten_concat(x, y);
}

/// The text of one piece.
proof fn lemma_flatten_one(x: Seq<char>)
    ensures
        seq![x].flatten() == x,
{
    let s = seq![x];
    assert(s.drop_first() =~= Seq::<Seq<char>>::empty());
    assert(s.drop_first().flatten() == Seq::<char>::empty());
    assert(s.flatten() == s.first() + s.drop_first().flatten());
    assert(x + Seq::<char>::empty() =~= x);
}

/// The text of two pieces.
proof fn lemma_flatten_two(x: Seq<char>, y: Seq<char>)
    ensures
        seq![x, y].flatten() == x + y,
{
    assert(seq![x, y] =~= seq![x] + seq![y]);
    lemma_flatten_add(seq![x], seq![y]);
    lemma_flatten_one(x);
    lemma_flatten_one(y);
}

/// The pieces of the ASPA entries make up their text.
proof fn lemma_aspa_chunks(r: Seq<PayloadV>)
    ensures
        aspa_chunks(r).flatten() == aspa_body(r),
    decreases r.len(),
{
    if r.len() > 0 {
        let last = !starts_aspa(r.drop_first());
        let first = seq![entry_line(r[0], last)];
        lemma_flatten_one(entry_line(r[0], last));
        if last {
            lemma_flatten_add(first, seq!["  ]\n"@, "}"@]);
            lemma_flatten_two("  ]\n"@, "}"@);
        } else {
            lemma_aspa_chunks(r.drop_first());
            lemma_flatten_add(first, aspa_chunks(r.drop_first()));
        }
    }
}

/// The pieces after the route origin entries make up their text.
proof fn lemma_roa_end_chunks(r: Seq<PayloadV>)
    ensures
        roa_end_chunks(r).flatten() == roa_end(r),
{
    if starts_aspa(r) {
        let head = seq!["  ],\n"@, "  \"aspas\": [\n"@];
        lemma_flatten_two("  ],\n"@, "  \"aspas\": [\n"@);
        lemma_aspa_chunks(r);
        lemma_flatten_add(head, aspa_chunks(r));
        assert(("  ],\n"@ + "  \"aspas\": [\n"@) + aspa_body(r) =~= "  ],\n"@ + "  \"aspas\": [\n"@
            + aspa_body(r));
    } else {
        lemma_flatten_two("  ]\n"@, "}"@);
    }
}

/// The pieces of the route origin entries make up their text.
proof fn lemma_roa_chunks(r: Seq<PayloadV>)
    ensures
        roa_chunks(r).flatten() == roa_body(r),
    decreases r.len(),
{
    if r.len() > 0 {
        let last = !starts_origin(r.drop_first());
        let first = seq![entry_line(r[0], last)];
        lemma_flatten_one(entry_line(r[0], last));
        if last {
            lemma_roa_end_chunks(r.drop_first());
            lemma_flatten_add(first, roa_end_chunks(r.drop_first()));
        } else {
            lemma_roa_chunks(r.drop_first());
            lemma_flatten_add(first, roa_chunks(r.drop_first()));
        }
    }
}

/// The pieces in which a stream hands out the JSON document, put together,
/// are the document.
pub proof fn law_chunks_make_document(r: Seq<PayloadV>)
    ensures
        json_chunks(r).flatten() == json_doc(r),
{
    let open = seq!["{\n"@];
    lemma_flatten_one("{\n"@);
    if starts_origin(r) {
        let head = seq!["  \"roas\": [\n"@];
        lemma_flatten_one("  \"roas\": [\n"@);
        lemma_roa_chunks(r);
        lemma_flatten_add(head, roa_chunks(r));
        lemma_flatten_add(open, head + roa_chunks(r));
    } else if starts_aspa(r) {
        let head = seq!["  \"aspas\": [\n"@];
        lemma_flatten_one("  \"aspas\": [\n"@);
        lemma_aspa_chunks(r);
        lemma_flatten_add(head, aspa_chunks(r));
        lemma_flatten_add(open, head + aspa_chunks(r));
    } else {
        lemma_flatten_one("}"@);
        lemma_flatten_add(open, seq!["}"@]);
    }
}

/// The pieces of a non-empty run of ASPA entries: one per entry, then the
/// end of the list and the closing brace.
proof fn lemma_aspa_chunks_count(r: Seq<PayloadV>)
    requires
        r.len() > 0,
        forall|i: int| 0 <= i < r.len() ==> (#[trigger] r[i]) is Aspa,
    ensures
        aspa_chunks(r).len() == r.len() + 2,
        aspa_chunks(r).last() == "}"@,
    decreases r.len(),
{
    let rest = r.drop_first();
    if rest.len() > 0 {
        assert(rest[0] == r[1]);
        assert forall|i: int| 0 <= i < rest.len() implies (#[trigger] rest[i]) is Aspa by {
            assert(rest[i] == r[i + 1]);
        }
        lemma_aspa_chunks_count(rest);
    }
}

/// The pieces of `o` route origin entries followed by ASPA entries.
proof fn lemma_roa_chunks_count(r: Seq<PayloadV>, o: int)
    requires
        0 < o <= r.len(),
        forall|i: int| 0 <= i < o ==> (#[trigger] r[i]) is Origin,
        forall|i: int| o <= i < r.len() ==> (#[trigger] r[i]) is Aspa,
    ensures
        roa_chunks(r).len() == o + 2 + (if r.len() - o > 0 {
            r.len() - o + 2
        } else {
            0
        }),
        roa_chunks(r).last() == "}"@,
    decreases r.len(),
{
    let rest = r.drop_first();
    assert forall|i: int| 0 <= i < o - 1 implies (#[trigger] rest[i]) is Origin by {
        assert(rest[i] == r[i + 1]);
    }
    assert forall|i: int| o - 1 <= i < rest.len() implies (#[trigger] rest[i]) is Aspa by {
        assert(rest[i] == r[i + 1]);
    }
    if o > 1 {
        assert(rest[0] == r[1]);
        lemma_roa_chunks_count(rest, o - 1);
    } else if rest.len() > 0 {
        assert(rest[0] == r[1]);
        lemma_aspa_chunks_count(rest);
    }
}

/// A stream over `o` route origins followed by ASPA units hands out the
/// opening brace first, then for each list that is not empty its head, one
/// piece per entry and its end, and the closing brace last.
pub proof fn law_chunk_count(r: Seq<PayloadV>, o: int)
    requires
        0 <= o <= r.len(),
        forall|i: int| 0 <= i < o ==> (#[trigger] r[i]) is Origin,
        forall|i: int| o <= i < r.len() ==> (#[trigger] r[i]) is Aspa,
    ensures
        json_chunks(r).len() == 2 + (if o > 0 {
            o + 2
        } else {
            0
        }) + (if r.len() - o > 0 {
            r.len() - o + 2
        } else {
            0
        }),
        json_chunks(r)[0] == "{\n"@,
        json_chunks(r).last() == "}"@,
{
    if o > 0 {
        lemma_roa_chunks_count(r, o);
    } else if r.len() > 0 {
        lemma_aspa_chunks_count(r);
    }
}

/// The start of the entry of a route origin, up to its AS number.
pub open spec fn origin_entry_head() -> Seq<char> {
    "    { \"asn\": \"AS"@
}

/// The entry of a route origin gives its full AS number: it starts with
/// the head and a decimal number followed by a quote, and whichever way it
/// is read as the head, a number and text not starting with a digit, the
/// number is the AS number.
pub proof fn law_origin_entry_asn(o: RouteOrigin)
    ensures
        exists|rest: Seq<char>|
            #![trigger origin_entry_head() + decimal(o.asn as nat) + rest]
            origin_text(o) == origin_entry_head() + decimal(o.asn as nat) + rest && rest.len() > 0
                && rest[0] == '"',
        forall|n: nat, rest: Seq<char>|
            origin_text(o) == #[trigger] (origin_entry_head() + decimal(n) + rest) && (rest.len() > 0
                ==> !is_digit(rest[0])) ==> n == o.asn,
{
    let head = origin_entry_head();
    let tail = "\", \"prefix\": \""@ + prefix_text(o.prefix) + "\", \"maxLength\": "@ + decimal(
        o.max_len as nat,
    ) + ", \"ta\": \"N/A\" }"@;
    reveal_strlit("\", \"prefix\": \"");
    assert(origin_text(o) =~= head + decimal(o.asn as nat) + tail);
    assert(tail[0] == '"');
    assert forall|n: nat, rest: Seq<char>|
        origin_text(o) == #[trigger] (head + decimal(n) + rest) && (rest.len() > 0 ==> !is_digit(
            rest[0],
        )) implies n == o.asn by {
        let t = origin_text(o);
        assert(decimal(n) + rest =~= t.subrange(head.len() as int, t.len() as int));
        assert(decimal(o.asn as nat) + tail =~= t.subrange(head.len() as int, t.len() as int));
        law_decimal_read_unique(n, o.asn as nat, rest, tail);
    }
}

/// The end of the entry of a route origin, after its max-length.
pub open spec fn origin_entry_tail() -> Seq<char> {
    ", \"ta\": \"N/A\" }"@
}

/// The entry of a route origin gives its max-length: it ends with the
/// max-length in decimal after a space and the tail, and whichever way it
/// is read as text not ending in a digit, a number and the tail, the number
/// is the max-length.
pub proof fn law_origin_entry_max_len(o: RouteOrigin)
    ensures
        exists|pre: Seq<char>|
            #![trigger pre + decimal(o.max_len as nat) + origin_entry_tail()]
            origin_text(o) == pre + decimal(o.max_len as nat) + origin_entry_tail() && pre.len() > 0
                && pre.last() == ' ',
        forall|n: nat, pre: Seq<char>|
            origin_text(o) == #[trigger] (pre + decimal(n) + origin_entry_tail()) && (pre.len() > 0
                ==> !is_digit(pre.last())) ==> n == o.max_len,
{
    let pre = origin_entry_head() + decimal(o.asn as nat) + "\", \"prefix\": \""@ + prefix_text(
        o.prefix,
    ) + "\", \"maxLength\": "@;
    reveal_strlit("\", \"maxLength\": ");
    assert(origin_text(o) =~= pre + decimal(o.max_len as nat) + origin_entry_tail());
    assert(pre.last() == ' ');
    assert forall|n: nat, q: Seq<char>|
        origin_text(o) == #[trigger] (q + decimal(n) + origin_entry_tail()) && (q.len() > 0 ==> !is_digit(
            q.last(),
        )) implies n == o.max_len by {
        law_decimal_read_before(q, n, pre, o.max_len as nat, origin_entry_tail());
    }
}

/// The octets of an IPv4 address make up the address.
proof fn lemma_octets(addr: u32)
    ensures
        (addr / 0x100_0000) < 256,
        (addr / 0x100_0000) * 0x100_0000 + ((addr / 0x1_0000) % 256) * 0x1_0000 + ((addr / 0x100)
            % 256) * 0x100 + addr % 256 == addr,
{
    assert((addr / 0x100_0000) * 0x100_0000 + ((addr / 0x1_0000) % 256) * 0x1_0000 + ((addr / 0x100)
        % 256) * 0x100 + addr % 256 == addr) by (bit_vector);
    assert(addr / 0x100_0000 < 256) by (bit_vector);
}

/// Reading a decimal number and a dot off the front of a text.
proof fn lemma_read_dotted(n: nat, m: nat, a: Seq<char>, b: Seq<char>)
    requires
        decimal(n) + (seq!['.'] + a) == decimal(m) + (seq!['.'] + b),
    ensures
        n == m,
        a == b,
{
    law_decimal_read_unique(n, m, seq!['.'] + a, seq!['.'] + b);
    assert(a =~= (seq!['.'] + a).drop_first());
    assert(b =~= (seq!['.'] + b).drop_first());
}

/// Four decimal numbers separated by dots are read back in one way only.
proof fn lemma_read_quad(a: nat, b: nat, c: nat, d: nat, a0: nat, b0: nat, c0: nat, d0: nat)
    requires
        decimal(a) + seq!['.'] + decimal(b) + seq!['.'] + decimal(c) + seq!['.'] + decimal(d)
            == decimal(a0) + seq!['.'] + decimal(b0) + seq!['.'] + decimal(c0) + seq!['.'] + decimal(
            d0,
        ),
    ensures
        a == a0 && b == b0 && c == c0 && d == d0,
{
    let dot = seq!['.'];
    let t = decimal(a) + dot + decimal(b) + dot + decimal(c) + dot + decimal(d);
    assert(t =~= decimal(a0) + (dot + (decimal(b0) + (dot + (decimal(c0) + (dot + decimal(d0)))))));
    assert(t =~= decimal(a) + (dot + (decimal(b) + (dot + (decimal(c) + (dot + decimal(d)))))));
    lemma_read_dotted(a, a0, decimal(b) + (dot + (decimal(c) + (dot + decimal(d)))), decimal(b0) + (
    dot + (decimal(c0) + (dot + decimal(d0)))));
    lemma_read_dotted(b, b0, decimal(c) + (dot + decimal(d)), decimal(c0) + (dot + decimal(d0)));
    lemma_read_dotted(c, c0, decimal(d), decimal(d0));
    law_decimal_reads_back(d);
    law_decimal_reads_back(d0);
}

/// The dotted-quad text of an IPv4 address reads back as the address:
/// whichever four decimal numbers separated by dots it is read as, they
/// are the address’s octets, highest first.
pub proof fn law_ipv4_text_reads_back(addr: u32, a: nat, b: nat, c: nat, d: nat)
    requires
        ipv4_text(addr) == decimal(a) + seq!['.'] + decimal(b) + seq!['.'] + decimal(c) + seq!['.']
            + decimal(d),
    ensures
        a < 256 && b < 256 && c < 256 && d < 256,
        a * 0x100_0000 + b * 0x1_0000 + c * 0x100 + d == addr,
{
    let a0 = (addr / 0x100_0000) as nat;
    let b0 = ((addr / 0x1_0000) % 256) as nat;
    let c0 = ((addr / 0x100) % 256) as nat;
    let d0 = (addr % 256) as nat;
    lemma_read_quad(a, b, c, d, a0, b0, c0, d0);
    lemma_octets(addr);
}

/// The address bits of a valid IPv4 prefix are its 32 bit address in the
/// upper bits.
proof fn lemma_v4_bits(bits: u128, len: u8)
    requires
        len <= 32,
        host_is_zero(bits, len),
    ensures
        (((bits >> 96u32) as u32) as u128) << 96u32 == bits,
{
    let m = u128::MAX >> len;
    assert(bits & m == 0);
    assert(bits & m == 0 && len <= 32 ==> (((bits >> 96u32) as u32) as u128) << 96u32 == bits)
        by (bit_vector)
        requires
            m == u128::MAX >> len,
    ;
}

/// The text of a valid IPv4 prefix reads back as the prefix: whichever
/// four decimal numbers separated by dots, a slash and a decimal number it
/// is read as, they are the octets of the address and the length.
pub proof fn law_v4_prefix_text_reads_back(p: Prefix, a: nat, b: nat, c: nat, d: nat, l: nat)
    requires
        prefix_wf(p),
        !p.v6,
        prefix_text(p) == decimal(a) + seq!['.'] + decimal(b) + seq!['.'] + decimal(c) + seq!['.']
            + decimal(d) + seq!['/'] + decimal(l),
    ensures
        l == p.len,
        a < 256 && b < 256 && c < 256 && d < 256,
        ((a * 0x100_0000 + b * 0x1_0000 + c * 0x100 + d) as u128) << 96u32 == p.bits,
{
    let x = (p.bits >> 96u32) as u32;
    let q = decimal(a) + seq!['.'] + decimal(b) + seq!['.'] + decimal(c) + seq!['.'] + decimal(d);
    let slash = seq!['/'];
    assert(prefix_text(p) + Seq::<char>::empty() =~= (ipv4_text(x) + slash) + decimal(p.len as nat)
        + Seq::<char>::empty());
    assert(prefix_text(p) + Seq::<char>::empty() =~= (q + slash) + decimal(l) + Seq::<char>::empty());
    law_decimal_read_before(ipv4_text(x) + slash, p.len as nat, q + slash, l, Seq::empty());
    assert(ipv4_text(x) =~= (ipv4_text(x) + slash).drop_last());
    assert(q =~= (q + slash).drop_last());
    law_ipv4_text_reads_back(x, a, b, c, d);
    lemma_v4_bits(p.bits, p.len);
}

/// A list of numbers reads back as the numbers: two lists with the same
/// text are the same list.
pub proof fn law_number_list_reads_back(ns: Seq<u32>, ms: Seq<u32>)
    requires
        number_list(ns) == number_list(ms),
    ensures
        ns == ms,
    decreases ns.len(),
{
    let sep = ", "@;
    reveal_strlit(", ");
    if ns.len() > 0 {
        law_decimal_reads_back(ns.last() as nat);
    }
    if ms.len() > 0 {
        law_decimal_reads_back(ms.last() as nat);
    }
    if ns.len() == 0 || ms.len() == 0 {
        if ns.len() > 0 && ns.len() != 1 {
            assert(number_list(ns).len() >= decimal(ns.last() as nat).len());
        }
        if ms.len() > 0 && ms.len() != 1 {
            assert(number_list(ms).len() >= decimal(ms.last() as nat).len());
        }
        assert(ns =~= ms);
    } else {
        let pn = if ns.len() == 1 { Seq::<char>::empty() } else { number_list(ns.drop_last()) + sep };
        let pm = if ms.len() == 1 { Seq::<char>::empty() } else { number_list(ms.drop_last()) + sep };
        assert(number_list(ns) =~= pn + decimal(ns.last() as nat) + Seq::<char>::empty());
        assert(number_list(ms) =~= pm + decimal(ms.last() as nat) + Seq::<char>::empty());
        if pn.len() > 0 {
            assert(pn.last() == ' ');
        }
        if pm.len() > 0 {
            assert(pm.last() == ' ');
        }
        law_decimal_read_before(pn, ns.last() as nat, pm, ms.last() as nat, Seq::empty());
        if ns.len() == 1 && ms.len() == 1 {
            assert(ns =~= ms);
        } else if ns.len() == 1 || ms.len() == 1 {
            assert(pn.len() != pm.len());
        } else {
            assert(number_list(ns.drop_last()) =~= pn.subrange(0, pn.len() - 2));
            assert(number_list(ms.drop_last()) =~= pm.subrange(0, pm.len() - 2));
            law_number_list_reads_back(ns.drop_last(), ms.drop_last());
            assert(ns =~= ns.drop_last().push(ns.last()));
            assert(ms =~= ms.drop_last().push(ms.last()));
        }
    }
}

/// The start of the entry of an ASPA unit, up to its customer.
pub open spec fn aspa_entry_head() -> Seq<char> {
    "    { \"customer\": "@
}

/// The entry of an ASPA unit gives its customer: whichever way it is read
/// as the head, a number and text not starting with a digit, the number is
/// the customer; and the list in its brackets reads back as the providers.
pub proof fn law_aspa_entry(customer: u32, providers: Seq<u32>)
    ensures
        exists|rest: Seq<char>|
            #![trigger aspa_entry_head() + decimal(customer as nat) + rest]
            aspa_text(customer, providers) == aspa_entry_head() + decimal(customer as nat) + rest
                && rest.len() > 0 && rest[0] == ',',
        forall|n: nat, rest: Seq<char>|
            aspa_text(customer, providers) == #[trigger] (aspa_entry_head() + decimal(n) + rest) && (
            rest.len() > 0 ==> !is_digit(rest[0])) ==> n == customer,
        forall|ms: Seq<u32>|
            #[trigger] aspa_text(customer, ms) == aspa_text(customer, providers) ==> ms == providers,
{
    let head = aspa_entry_head();
    let tail = ", \"providers\": ["@ + number_list(providers) + "] }"@;
    reveal_strlit(", \"providers\": [");
    assert(aspa_text(customer, providers) =~= head + decimal(customer as nat) + tail);
    assert(tail[0] == ',');
    assert forall|n: nat, rest: Seq<char>|
        aspa_text(customer, providers) == #[trigger] (head + decimal(n) + rest) && (rest.len() > 0
            ==> !is_digit(rest[0])) implies n == customer by {
        law_decimal_read_after(head, n, rest, customer as nat, tail);
    }
    assert forall|ms: Seq<u32>|
        #[trigger] aspa_text(customer, ms) == aspa_text(customer, providers) implies ms == providers by {
        let front = head + decimal(customer as nat) + ", \"providers\": ["@;
        let back = "] }"@;
        let t = aspa_text(customer, ms);
        assert(t =~= front + number_list(ms) + back);
        assert(t =~= front + number_list(providers) + back);
        assert(number_list(ms) =~= t.subrange(front.len() as int, t.len() - back.len()));
        assert(number_list(providers) =~= t.subrange(front.len() as int, t.len() - back.len()));
        law_number_list_reads_back(ms, providers);
    }
}

} // verus!
