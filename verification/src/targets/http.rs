//! The data of a target that makes the current payload available over
//! HTTP.
//!
//! A response can be avoided if the client already has the current data:
//! it names the entity tag of the data or a date not before the data was
//! created.

use vstd::prelude::*;
use crate::http::same_text;
use crate::payload::{PayloadSet, Update};
use crate::targets::rtr::State;
use crate::text::{decimal, digit_char, hex, hex_digit_char, push_decimal, push_hex, push_str};
use crate::utils::time::Timestamp;
use crate::utils::http::{
    has_etag, is_whitespace, lemma_next_etag_len, next_etag, quote_from, tag_prefix_len, trim, trim_end,
    trim_start, trim_str, EtagsIter, http_date, parse_http_date,
};

verus! {

//------------ SourceData ----------------------------------------------------

/// Whether a date given in whole seconds is not before the time `t`.
pub open spec fn not_before(date: i64, t: Timestamp) -> bool {
    date > t.secs || (date == t.secs && t.nanos == 0)
}

/// The entity tag of the data for an RTR state: the session ID in
/// hexadecimal and the serial number in decimal, joined by a hyphen and
/// in double quotes.
pub open spec fn etag_text(state: State) -> Seq<char> {
    seq!['"'] + hex(state.session as nat) + seq!['-'] + decimal(state.serial as nat) + seq!['"']
}

/// Whether an If-None-Match header value matches the entity tag: it is
/// `*` or one of the tags it lists is the tag.
pub open spec fn value_matches(value: Seq<char>, etag: Seq<char>) -> bool {
    trim(value) == seq!['*'] || has_etag(trim(value), etag)
}

/// Whether a request can be answered with 304 Not Modified.
///
/// `if_none_match` holds the If-None-Match header values of the request,
/// `None` for one that isn’t text. If there is any, the request is answered
/// so if one of them matches the entity tag. Otherwise the If-Modified-Since
/// header decides: `if_modified_since` is `None` if there is none, and holds
/// `None` if its value isn’t text. The request is answered so if the header
/// holds an HTTP date not before the data was created.
pub open spec fn not_modified(
    etag: Seq<char>,
    created: Timestamp,
    if_none_match: Seq<Option<Seq<char>>>,
    if_modified_since: Option<Option<Seq<char>>>,
) -> bool {
    if if_none_match.len() > 0 {
        exists|i: int|
            0 <= i < if_none_match.len() && (#[trigger] if_none_match[i] matches Some(value)
                && value_matches(value, etag))
    } else {
        match if_modified_since {
            Some(Some(text)) => match http_date(text) {
                Some(date) => not_before(date, created),
                None => false,
            },
            _ => false,
        }
    }
}

/// The plain value of an If-Modified-Since header.
pub open spec fn header_text(value: Option<Option<&str>>) -> Option<Option<Seq<char>>> {
    match value {
        Some(Some(text)) => Some(Some(text@)),
        Some(None) => Some(None),
        None => None,
    }
}

/// The plain values of header values.
pub open spec fn header_values(values: Seq<Option<String>>) -> Seq<Option<Seq<char>>> {
    values.map_values(
        |v: Option<String>|
            match v {
                Some(v) => Some(v@),
                None => None,
            },
    )
}

/// The data held by the target: the payload set of an update, its entity
/// tag and when it was created.
#[derive(Clone, Debug)]
pub struct SourceData {
    set: PayloadSet,
    etag: String,
    created: Timestamp,
}

impl SourceData {
    /// The payload set.
    pub closed spec fn set_spec(&self) -> PayloadSet {
        self.set
    }

    /// The entity tag.
    pub closed spec fn etag_spec(&self) -> Seq<char> {
        self.etag@
    }

    /// When the data was created.
    pub closed spec fn created_spec(&self) -> Timestamp {
        self.created
    }

    /// Creates the data for an update at the given state and time.
    ///
    /// The entity tag is made from the state, which is then advanced to the
    /// next serial number.
    pub fn new(update: &Update, state: &mut State, now: Timestamp) -> (res: SourceData)
        ensures
            res.set_spec()@ == update.set_spec()@,
            res.set_spec().wf() == update.set_spec().wf(),
            res.set_spec().blocks() == update.set_spec().blocks(),
            res.etag_spec() == etag_text(*old(state)),
            res.created_spec() == now,
            final(state).session == old(state).session,
            final(state).serial as int == (old(state).serial as int + 1) % 0x1_0000_0000,
    {
        let mut etag = String::new();
        push_str(&mut etag, "\"");
        push_hex(&mut etag, state.session as u128);
        push_str(&mut etag, "-");
        push_decimal(&mut etag, state.serial as u128);
        push_str(&mut etag, "\"");
        proof {
            reveal_strlit("\"");
            reveal_strlit("-");
            assert(etag@ =~= etag_text(*old(state)));
        }
        state.inc();
        SourceData { set: update.set().share(), etag, created: now }
    }

    /// Returns the payload set.
    pub fn set(&self) -> (res: &PayloadSet)
        ensures
            *res == self.set_spec(),
    {
        &self.set
    }

    /// Returns the entity tag.
    pub fn etag(&self) -> (res: &str)
        ensures
            res@ == self.etag_spec(),
    {
        self.etag.as_str()
    }

    /// Returns when the data was created.
    pub fn created(&self) -> (res: Timestamp)
        ensures
            res == self.created_spec(),
    {
        self.created
    }

    /// Returns whether one of the entity tags in a header value, once
    /// trimmed, is ours.
    fn has_tag(&self, value: &str) -> (res: bool)
        ensures
            res == has_etag(value@, self.etag@),
    {
        let mut tags = EtagsIter::new(value);
        loop
            invariant
                has_etag(tags@, self.etag@) == has_etag(value@, self.etag@),
            decreases tags@.len(),
        {
            let ghost before = tags@;
            proof {
                lemma_next_etag_len(before);
            }
            match tags.next() {
                Some(tag) => {
                    let tag = String::from_str(trim_str(tag));
                    if tag == self.etag {
                        return true;
                    }
                },
                None => {
                    return false;
                },
            }
        }
    }

    /// Returns whether a request can be answered with 304 Not Modified.
    ///
    /// The request is given by its If-None-Match header values, `None` for
    /// one that isn’t text, and by its If-Modified-Since header: `None` if
    /// there is none, holding its value or `None` if the value isn’t text.
    pub fn is_not_modified(
        &self,
        if_none_match: &Vec<Option<String>>,
        if_modified_since: Option<Option<&str>>,
    ) -> (res: bool)
        ensures
            res == not_modified(
                self.etag_spec(),
                self.created_spec(),
                header_values(if_none_match@),
                header_text(if_modified_since),
            ),
    {
        let ghost values = header_values(if_none_match@);
        // First, check If-None-Match.
        let mut i: usize = 0;
        while i < if_none_match.len()
            invariant
                i <= if_none_match@.len(),
                values == header_values(if_none_match@),
                forall|j: int|
                    0 <= j < i ==> !(#[trigger] values[j] matches Some(value) && value_matches(
                        value,
                        self.etag@,
                    )),
            decreases if_none_match@.len() - i,
        {
            // Skip ill-formatted values.
            if let Some(value) = &if_none_match[i] {
                let trimmed = trim_str(value.as_str());
                proof {
                    reveal_strlit("*");
                    assert(values[i as int] == Some(value@));
                    assert("*"@ =~= seq!['*']);
                }
                if String::from_str(trimmed) == String::from_str("*") {
                    assert(value_matches(value@, self.etag@));
                    return true;
                }
                if self.has_tag(trimmed) {
                    assert(value_matches(value@, self.etag@));
                    return true;
                }
                assert(!value_matches(value@, self.etag@));
            }
            i = i + 1;
        }

        // If there was at least one If-None-Match, we are supposed to
        // ignore If-Modified-Since.
        if if_none_match.len() > 0 {
            return false;
        }

        // Check the If-Modified-Since header.
        match if_modified_since {
            Some(Some(text)) => match parse_http_date(text) {
                Some(date) => date > self.created.secs || (date == self.created.secs
                    && self.created.nanos == 0),
                None => false,
            },
            _ => false,
        }
    }
}


//------------ Responses -----------------------------------------------------

/// How the target answers a request for its path.
#[derive(Clone, Copy, Debug, PartialEq, Eq, Structural)]
pub enum TargetResponse {
    /// There is no data yet: Service Unavailable.
    Unavailable,

    /// The client has the current data: Not Modified.
    NotModified,

    /// The current data in the target’s format.
    Full,
}

/// How the target at `target_path` answers a request, if it takes it: it
/// takes GET requests for its path only.
pub open spec fn response_of(
    target_path: Seq<char>,
    is_get: bool,
    path: Seq<char>,
    data: Option<(Seq<char>, Timestamp)>,
    if_none_match: Seq<Option<Seq<char>>>,
    if_modified_since: Option<Option<Seq<char>>>,
) -> Option<TargetResponse> {
    if !is_get || path != target_path {
        None
    } else {
        match data {
            None => Some(TargetResponse::Unavailable),
            Some((etag, created)) => if not_modified(etag, created, if_none_match, if_modified_since) {
                Some(TargetResponse::NotModified)
            } else {
                Some(TargetResponse::Full)
            },
        }
    }
}

/// The entity tag and creation time of the data, if there is any.
pub open spec fn data_view(data: Option<&SourceData>) -> Option<(Seq<char>, Timestamp)> {
    match data {
        Some(d) => Some((d.etag_spec(), d.created_spec())),
        None => None,
    }
}

/// Returns how the target at `target_path` answers a request with the
/// given method, path and headers, if it takes it.
pub fn respond(
    target_path: &str,
    is_get: bool,
    path: &str,
    data: Option<&SourceData>,
    if_none_match: &Vec<Option<String>>,
    if_modified_since: Option<Option<&str>>,
) -> (res: Option<TargetResponse>)
    ensures
        res == response_of(
            target_path@,
            is_get,
            path@,
            data_view(data),
            header_values(if_none_match@),
            header_text(if_modified_since),
        ),
{
    if !is_get || !same_text(path, target_path) {
        return None;
    }
    match data {
        None => Some(TargetResponse::Unavailable),
        Some(data) => if data.is_not_modified(if_none_match, if_modified_since) {
            Some(TargetResponse::NotModified)
        } else {
            Some(TargetResponse::Full)
        },
    }
}


//------------ Laws ----------------------------------------------------------

/// A character of a number: a decimal digit or a lower-case hexadecimal
/// letter.
pub open spec fn number_char(c: char) -> bool {
    ('0' <= c && c <= '9') || ('a' <= c && c <= 'f')
}

/// Digits are number characters.
proof fn lemma_digit_chars(d: int)
    ensures
        number_char(digit_char(d)),
        number_char(hex_digit_char(d)),
{
}

/// The digits of a decimal number are number characters.
proof fn lemma_decimal_chars(n: nat)
    ensures
        forall|i: int| 0 <= i < decimal(n).len() ==> number_char(#[trigger] decimal(n)[i]),
    decreases n,
{
    lemma_digit_chars(n as int);
    lemma_digit_chars((n % 10) as int);
    if n >= 10 {
        lemma_decimal_chars(n / 10);
        let p = decimal(n / 10);
        assert forall|i: int| 0 <= i < decimal(n).len() implies number_char(
            #[trigger] decimal(n)[i],
        ) by {
            if i < p.len() {
                assert(decimal(n)[i] == p[i]);
            }
        }
    }
}

/// The digits of a hexadecimal number are number characters.
proof fn lemma_hex_chars(n: nat)
    ensures
        forall|i: int| 0 <= i < hex(n).len() ==> number_char(#[trigger] hex(n)[i]),
    decreases n,
{
    lemma_digit_chars(n as int);
    lemma_digit_chars((n % 16) as int);
    if n >= 16 {
        lemma_hex_chars(n / 16);
        let p = hex(n / 16);
        assert forall|i: int| 0 <= i < hex(n).len() implies number_char(#[trigger] hex(n)[i]) by {
            if i < p.len() {
                assert(hex(n)[i] == p[i]);
            }
        }
    }
}

/// The first double quote at or after `i` is at `q` if there is one at `q`
/// and none between.
proof fn lemma_quote_at(s: Seq<char>, i: int, q: int)
    requires
        0 <= i <= q < s.len(),
        s[q] == '"',
        forall|j: int| i <= j < q ==> s[j] != '"',
    ensures
        quote_from(s, i) == Some(q),
    decreases q - i,
{
    if i < q {
        lemma_quote_at(s, i + 1, q);
    }
}

/// A request that names the entity tag it was given for the current data
/// is answered with Not Modified, whatever its If-Modified-Since header.
pub proof fn law_own_etag_not_modified(
    state: State,
    created: Timestamp,
    if_modified_since: Option<Option<Seq<char>>>,
)
    ensures
        not_modified(etag_text(state), created, seq![Some(etag_text(state))], if_modified_since),
{
    let etag = etag_text(state);
    let h = hex(state.session as nat);
    let d = decimal(state.serial as nat);
    lemma_hex_chars(state.session as nat);
    lemma_decimal_chars(state.serial as nat);
    assert(etag == seq!['"'] + h + seq!['-'] + d + seq!['"']);
    let n = etag.len() as int;
    assert forall|j: int| 1 <= j < n - 1 implies etag[j] != '"' by {
        if j <= h.len() {
            assert(etag[j] == h[j - 1]);
            assert(number_char(h[j - 1]));
        } else if j == h.len() + 1 {
            assert(etag[j] == '-');
        } else {
            assert(etag[j] == d[j - h.len() - 2]);
            assert(number_char(d[j - h.len() - 2]));
        }
    }
    assert(!is_whitespace('"'));
    assert(trim_start(etag) == etag);
    assert(trim_end(etag) == etag);
    assert(trim(etag) == etag);
    assert(tag_prefix_len(etag) == 1);
    lemma_quote_at(etag, 1, n - 1);
    assert(etag.subrange(0, n) =~= etag);
    assert(next_etag(etag) matches Some((tag, rest)) && tag == etag);
    assert(has_etag(etag, etag));
    assert(value_matches(etag, etag));
    let values = seq![Some(etag)];
    assert(values[0] matches Some(value) && value_matches(value, etag));
}

} // verus!
