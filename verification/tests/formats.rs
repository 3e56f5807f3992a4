use rtrtr::formats::json::{aspa_from_json, JsonSet, OutputStream, ProviderAsnsError, MAX_PROVIDER_COUNT};
use rtrtr::formats::output::Format;
use rtrtr::payload::{PackBuilder, PayloadSet};
use rtrtr::rtr::{Aspa, Payload, Prefix, RouteOrigin, RouterKey};

/// The address fd00:1234::.
const FD00_1234: u128 = 0xfd00_1234_0000_0000_0000_0000_0000_0000;

/// The address fd00:1235::.
const FD00_1235: u128 = 0xfd00_1235_0000_0000_0000_0000_0000_0000;

fn origin(addr: u128, len: u8, max_len: u8, asn: u32) -> Payload {
    Payload::Origin(RouteOrigin::new(Prefix::new_v6(addr, len).unwrap(), Some(max_len), asn).unwrap())
}

fn aspa(customer: u32, providers: Vec<u32>) -> Payload {
    Payload::Aspa(Aspa { customer, providers })
}

fn set(items: Vec<Payload>) -> PayloadSet {
    let mut res = PackBuilder::empty();
    for item in items {
        res.insert(item).unwrap();
    }
    PayloadSet::from_pack(res.finalize())
}

fn s(items: Vec<Payload>) -> String {
    let mut output = OutputStream::new(set(items));
    let mut out = vec![];
    while let Some(item) = output.next() {
        out.extend_from_slice(&item);
    }
    String::from_utf8(out).unwrap()
}

#[test]
fn serialize() {
    assert_eq!(s(vec![]), "{\n}");
    assert_eq!(
        s(vec![origin(FD00_1234, 32, 48, 42)]),
        "{\n  \"roas\": [\n    { \"asn\": \"AS42\", \"prefix\": \"fd00:1234::/32\", \"maxLength\": 48, \"ta\": \"N/A\" }\n  ]\n}"
    );
    assert_eq!(
        s(vec![origin(FD00_1234, 32, 48, 42), origin(FD00_1235, 32, 48, 42)]),
        "{\n  \"roas\": [\n    { \"asn\": \"AS42\", \"prefix\": \"fd00:1234::/32\", \"maxLength\": 48, \"ta\": \"N/A\" },\n    { \"asn\": \"AS42\", \"prefix\": \"fd00:1235::/32\", \"maxLength\": 48, \"ta\": \"N/A\" }\n  ]\n}",
    );
    assert_eq!(
        s(vec![aspa(42, vec![44, 45])]),
        "{\n  \"aspas\": [\n    { \"customer\": 42, \"providers\": [44, 45] }\n  ]\n}",
    );
    assert_eq!(
        s(vec![aspa(42, vec![44, 45]), aspa(45, vec![46, 47])]),
        "{\n  \"aspas\": [\n    { \"customer\": 42, \"providers\": [44, 45] },\n    { \"customer\": 45, \"providers\": [46, 47] }\n  ]\n}",
    );
    assert_eq!(
        s(vec![
            aspa(42, vec![44, 45]),
            origin(FD00_1234, 32, 48, 42),
            aspa(45, vec![46, 47]),
            origin(FD00_1235, 32, 48, 42),
        ]),
        "{\n  \"roas\": [\n    { \"asn\": \"AS42\", \"prefix\": \"fd00:1234::/32\", \"maxLength\": 48, \"ta\": \"N/A\" },\n    { \"asn\": \"AS42\", \"prefix\": \"fd00:1235::/32\", \"maxLength\": 48, \"ta\": \"N/A\" }\n  ],\n  \"aspas\": [\n    { \"customer\": 42, \"providers\": [44, 45] },\n    { \"customer\": 45, \"providers\": [46, 47] }\n  ]\n}",
    );
}

#[test]
fn serialize_v4_and_no_providers() {
    let v4 = Payload::Origin(
        RouteOrigin::new(Prefix::new_v4(0xc000_0200, 24).unwrap(), None, 64512).unwrap(),
    );
    assert_eq!(
        s(vec![v4, aspa(7, vec![])]),
        "{\n  \"roas\": [\n    { \"asn\": \"AS64512\", \"prefix\": \"192.0.2.0/24\", \"maxLength\": 24, \"ta\": \"N/A\" }\n  ],\n  \"aspas\": [\n    { \"customer\": 7, \"providers\": [] }\n  ]\n}"
    );
}

#[test]
fn serialize_stops_at_router_keys() {
    let key = Payload::RouterKey(RouterKey { key_identifier: [1; 20], asn: 5, key_info: vec![] });
    let v4 = Payload::Origin(
        RouteOrigin::new(Prefix::new_v4(0x0a00_0000, 8).unwrap(), Some(24), 1).unwrap(),
    );
    assert_eq!(s(vec![key.clone()]), "{\n}");
    assert_eq!(
        s(vec![v4, key, aspa(1, vec![2])]),
        "{\n  \"roas\": [\n    { \"asn\": \"AS1\", \"prefix\": \"10.0.0.0/8\", \"maxLength\": 24, \"ta\": \"N/A\" }\n  ]\n}"
    );
}

#[test]
fn format_stream() {
    assert_eq!(Format::Json.content_type(), "application/json");
    let mut stream = Format::Json.stream(set(vec![aspa(1, vec![2, 3, 4])]));
    let mut out = vec![];
    while let Some(item) = stream.next() {
        assert!(!item.is_empty());
        out.extend_from_slice(&item);
    }
    assert_eq!(
        String::from_utf8(out).unwrap(),
        "{\n  \"aspas\": [\n    { \"customer\": 1, \"providers\": [2, 3, 4] }\n  ]\n}"
    );
}

fn items(set: &PayloadSet) -> Vec<Payload> {
    let mut iter = set.iter();
    let mut res = Vec::new();
    while let Some(item) = iter.next() {
        res.push(item.clone());
    }
    res
}

fn route(value: u32, asn: u32) -> RouteOrigin {
    RouteOrigin::new(Prefix::new_v4(value, 32).unwrap(), None, asn).unwrap()
}

#[test]
fn json_set_into_payload() {
    let set = JsonSet {
        roas: vec![route(2, 1), route(1, 1), route(2, 1)],
        aspas: Some(vec![
            aspa_from_json(10, vec![1, 2]).unwrap(),
            aspa_from_json(9, vec![]).unwrap(),
            aspa_from_json(10, vec![1, 2]).unwrap(),
        ]),
    };
    assert_eq!(
        items(&set.into_payload()),
        vec![
            Payload::Origin(route(1, 1)),
            Payload::Origin(route(2, 1)),
            aspa(9, vec![]),
            aspa(10, vec![1, 2]),
        ]
    );

    let set = JsonSet { roas: vec![], aspas: None };
    assert!(items(&set.into_payload()).is_empty());
}

#[test]
fn aspa_provider_limit() {
    let aspa = aspa_from_json(5, vec![7; MAX_PROVIDER_COUNT]).unwrap();
    assert_eq!(aspa.customer, 5);
    assert_eq!(aspa.providers.len(), 16380);
    assert_eq!(aspa_from_json(5, vec![7; MAX_PROVIDER_COUNT + 1]), Err(ProviderAsnsError));
}

fn chunks(items: Vec<Payload>) -> Vec<String> {
    let mut output = OutputStream::new(set(items));
    let mut out = vec![];
    while let Some(item) = output.next() {
        out.push(String::from_utf8(item).unwrap());
    }
    assert!(output.next().is_none());
    out
}

#[test]
fn stream_chunks() {
    assert_eq!(chunks(vec![]), vec!["{\n", "}"]);
    assert_eq!(
        chunks(vec![
            aspa(42, vec![44]),
            origin(FD00_1234, 32, 48, 42),
            origin(FD00_1235, 32, 48, 42),
        ]),
        vec![
            "{\n",
            "  \"roas\": [\n",
            "    { \"asn\": \"AS42\", \"prefix\": \"fd00:1234::/32\", \"maxLength\": 48, \"ta\": \"N/A\" },\n",
            "    { \"asn\": \"AS42\", \"prefix\": \"fd00:1235::/32\", \"maxLength\": 48, \"ta\": \"N/A\" }\n",
            "  ],\n",
            "  \"aspas\": [\n",
            "    { \"customer\": 42, \"providers\": [44] }\n",
            "  ]\n",
            "}",
        ]
    );
    let mut stream = Format::Json.stream(set(vec![aspa(1, vec![2])]));
    assert_eq!(stream.next(), Some(b"{\n".to_vec()));
    assert_eq!(stream.next(), Some(b"  \"aspas\": [\n".to_vec()));
}
