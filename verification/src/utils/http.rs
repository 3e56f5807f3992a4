//! Parsing and writing HTTP header values.

use std::fmt::Write;
use vstd::prelude::*;
use crate::utils::time::Timestamp;

verus! {

//------------ Parsing Etags -------------------------------------------------

/// Whether a character is white space (the Unicode `White_Space`
/// property).
pub open spec fn is_whitespace(c: char) -> bool {
    let n = c as u32;
    ||| 0x09 <= n <= 0x0d
    ||| n == 0x20
    ||| n == 0x85
    ||| n == 0xa0
    ||| n == 0x1680
    ||| 0x2000 <= n <= 0x200a
    ||| n == 0x2028
    ||| n == 0x2029
    ||| n == 0x202f
    ||| n == 0x205f
    ||| n == 0x3000
}

/// The text without leading white space.
pub open spec fn trim_start(s: Seq<char>) -> Seq<char>
    decreases s.len(),
{
    if s.len() > 0 && is_whitespace(s[0]) {
        trim_start(s.drop_first())
    } else {
        s
    }
}

/// The index of the first double quote at or after `i`, if any.
pub open spec fn quote_from(s: Seq<char>, i: int) -> Option<int>
    decreases s.len() - i,
{
    if i < 0 || i >= s.len() {
        None
    } else if s[i] == '"' {
        Some(i)
    } else {
        quote_from(s, i + 1)
    }
}

/// The length of the start of an entity tag: a double quote, possibly
/// after `W/` for a weak tag. Zero if the text doesn’t start a tag.
pub open spec fn tag_prefix_len(t: Seq<char>) -> int {
    if t.len() > 0 && t[0] == '"' {
        1
    } else if t.len() >= 3 && t[0] == 'W' && t[1] == '/' && t[2] == '"' {
        3
    } else {
        0
    }
}

/// The next entity tag in a header value and what follows it, if there is
/// a well-formed one.
///
/// White space before the tag is skipped, as is white space after it and
/// a comma separating it from the next tag.
pub open spec fn next_etag(s: Seq<char>) -> Option<(Seq<char>, Seq<char>)> {
    let t = trim_start(s);
    let prefix = tag_prefix_len(t);
    if prefix == 0 {
        None
    } else {
        match quote_from(t, prefix) {
            None => None,
            Some(q) => {
                let rest = trim_start(t.subrange(q + 1, t.len() as int));
                let rest = if rest.len() > 0 && rest[0] == ',' {
                    trim_start(rest.drop_first())
                } else {
                    rest
                };
                Some((t.subrange(0, q + 1), rest))
            },
        }
    }
}

/// The text without trailing white space.
pub open spec fn trim_end(s: Seq<char>) -> Seq<char>
    decreases s.len(),
{
    if s.len() > 0 && is_whitespace(s.last()) {
        trim_end(s.drop_last())
    } else {
        s
    }
}

/// The text without leading and trailing white space.
pub open spec fn trim(s: Seq<char>) -> Seq<char> {
    trim_end(trim_start(s))
}

/// Whether the entity tags at the start of a header value include one
/// that is `etag` once trimmed.
///
/// The tags are those that repeated calls of [`next_etag`] give, up to
/// the first bad formatting.
pub open spec fn has_etag(s: Seq<char>, etag: Seq<char>) -> bool
    decreases s.len(),
{
    match next_etag(s) {
        None => false,
        Some((tag, rest)) => trim(tag) == etag || (rest.len() < s.len() && has_etag(rest, etag)),
    }
}

/// Skipping leading white space doesn’t make a text longer.
pub proof fn lemma_trim_start_len(s: Seq<char>)
    ensures
        trim_start(s).len() <= s.len(),
    decreases s.len(),
{
    if s.len() > 0 && is_whitespace(s[0]) {
        lemma_trim_start_len(s.drop_first());
    }
}

/// What follows an entity tag is shorter than the text it was taken from.
pub proof fn lemma_next_etag_len(s: Seq<char>)
    ensures
        next_etag(s) matches Some((tag, rest)) ==> rest.len() < s.len(),
{
    let t = trim_start(s);
    lemma_trim_start_len(s);
    let prefix = tag_prefix_len(t);
    if prefix != 0 {
        if let Some(q) = quote_from(t, prefix) {
            lemma_quote_from_range(t, prefix);
            let rest = t.subrange(q + 1, t.len() as int);
            lemma_trim_start_len(rest);
            let rest = trim_start(rest);
            if rest.len() > 0 && rest[0] == ',' {
                lemma_trim_start_len(rest.drop_first());
            }
        }
    }
}

/// A double quote found at or after `i` is in range.
proof fn lemma_quote_from_range(s: Seq<char>, i: int)
    ensures
        quote_from(s, i) matches Some(q) ==> i <= q < s.len() && s[q] == '"',
    decreases s.len() - i,
{
    if 0 <= i < s.len() && s[i] != '"' {
        lemma_quote_from_range(s, i + 1);
    }
}

/// Returns whether a character is white space.
fn char_is_whitespace(c: char) -> (res: bool)
    ensures
        res == is_whitespace(c),
{
    let n = c as u32;
    (0x09 <= n && n <= 0x0d) || n == 0x20 || n == 0x85 || n == 0xa0 || n == 0x1680 || (0x2000 <= n
        && n <= 0x200a) || n == 0x2028 || n == 0x2029 || n == 0x202f || n == 0x205f || n == 0x3000
}

/// Returns the text without leading white space.
fn trim_start_str(s: &str) -> (res: &str)
    ensures
        res@ == trim_start(s@),
{
    let n = s.unicode_len();
    let mut i: usize = 0;
    proof {
        assert(s@.subrange(0, n as int) =~= s@);
    }
    while i < n && char_is_whitespace(s.get_char(i))
        invariant
            n == s@.len(),
            i <= n,
            trim_start(s@.subrange(i as int, n as int)) == trim_start(s@),
        decreases n - i,
    {
        proof {
            let t = s@.subrange(i as int, n as int);
            assert(t.drop_first() =~= s@.subrange(i + 1, n as int));
        }
        i = i + 1;
    }
    s.substring_char(i, n)
}

/// Returns the text without trailing white space.
fn trim_end_str(s: &str) -> (res: &str)
    ensures
        res@ == trim_end(s@),
{
    let n = s.unicode_len();
    let mut i: usize = n;
    proof {
        assert(s@.subrange(0, n as int) =~= s@);
    }
    while i > 0 && char_is_whitespace(s.get_char(i - 1))
        invariant
            n == s@.len(),
            i <= n,
            trim_end(s@.subrange(0, i as int)) == trim_end(s@),
        decreases i,
    {
        proof {
            let t = s@.subrange(0, i as int);
            assert(t.drop_last() =~= s@.subrange(0, i - 1));
        }
        i = i - 1;
    }
    s.substring_char(0, i)
}

/// Returns the text without leading and trailing white space.
pub fn trim_str(s: &str) -> (res: &str)
    ensures
        res@ == trim(s@),
{
    trim_end_str(trim_start_str(s))
}

/// An iterator over the etags in an If-Not-Match header value.
///
/// This does not handle the "*" value.
///
/// One caveat: The iterator stops when it encounters bad formatting which
/// makes this indistinguishable from reaching the end of a correctly
/// formatted value. As a consequence, we will 304 a request that has the
/// right tag followed by garbage.
pub struct EtagsIter<'a>(&'a str);

impl<'a> View for EtagsIter<'a> {
    type V = Seq<char>;

    /// The text still to be parsed.
    closed spec fn view(&self) -> Seq<char> {
        self.0@
    }
}

impl<'a> EtagsIter<'a> {
    /// Creates an iterator over the etags in a header value.
    pub fn new(value: &'a str) -> (res: EtagsIter<'a>)
        ensures
            res@ == value@,
    {
        Self(value)
    }

    /// Returns the next etag, including its quotes and weak marker.
    pub fn next(&mut self) -> (res: Option<&'a str>)
        ensures
            match next_etag(old(self)@) {
                Some((tag, rest)) => res matches Some(t) && t@ == tag && final(self)@ == rest,
                None => res is None && final(self)@ == trim_start(old(self)@),
            },
    {
        // Skip white space and check if we are done.
        let t = trim_start_str(self.0);
        self.0 = t;
        let n = t.unicode_len();
        if n == 0 {
            return None;
        }

        // We either have to have a lone DQUOTE or one prefixed by W/
        let prefix_len: usize = if t.get_char(0) == '"' {
            1
        } else if n >= 3 && t.get_char(0) == 'W' && t.get_char(1) == '/' && t.get_char(2) == '"' {
            3
        } else {
            return None;
        };

        // Find the end of the tag which is after the next DQUOTE.
        let mut q = prefix_len;
        while q < n && t.get_char(q) != '"'
            invariant
                n == t@.len(),
                prefix_len <= q <= n,
                quote_from(t@, q as int) == quote_from(t@, prefix_len as int),
            decreases n - q,
        {
            q = q + 1;
        }
        if q >= n {
            return None;
        }
        let end = q + 1;
        let res = t.substring_char(0, end);

        // Move past the second DQUOTE and any space.
        let rest = trim_start_str(t.substring_char(end, n));

        // If we have a comma, skip over that and any space.
        let m = rest.unicode_len();
        self.0 = if m > 0 && rest.get_char(0) == ',' {
            let after = rest.substring_char(1, m);
            proof {
                assert(after@ =~= rest@.drop_first());
            }
            trim_start_str(after)
        } else {
            rest
        };
        Some(res)
    }
}

//------------ Parsing HTTP Dates --------------------------------------------

/// What chrono makes of a text read with a format string: `None` if the
/// text does not match the format, `Some(None)` if it matches but gives no
/// valid UTC date and time, else the date in seconds since the unix epoch.
pub uninterp spec fn date_parse(text: Seq<char>, format: Seq<char>) -> Option<Option<i64>>;

/// Reads a date in UTC from a text by a chrono format string.
///
/// Calls `chrono::format::parse` with the items of the format string and,
/// if the text matches, `Parsed::to_datetime_with_timezone` with UTC and
/// `DateTime::timestamp`. Which texts match is not stated: the result is
/// named by `date_parse`.
#[verifier::external_body]
fn parse_date(text: &str, format: &str) -> (res: Option<Option<i64>>)
    ensures
        res == date_parse(text@, format@),
{
    let mut parsed = chrono::format::Parsed::new();
    match chrono::format::parse(&mut parsed, text, chrono::format::StrftimeItems::new(format)) {
        Ok(()) => Some(parsed.to_datetime_with_timezone(&chrono::Utc).ok().map(|d| d.timestamp())),
        Err(_) => None,
    }
}

/// The preferred date format (IMF-fixdate), such as
/// `Sun, 06 Nov 1994 08:49:37 GMT`.
///
/// A space in a format string stands for any amount of white space.
pub open spec fn imf_fixdate() -> Seq<char> {
    " %a , %d %b %Y %H:%M:%S GMT "@
}

/// The obsolete RFC 850 date format, such as
/// `Sunday, 06-Nov-94 08:49:37 GMT`.
pub open spec fn rfc850_date() -> Seq<char> {
    " %A , %d-%b-%y %H:%M:%S GMT "@
}

/// The obsolete asctime date format, such as `Sun Nov  6 08:49:37 1994`.
pub open spec fn asctime_date() -> Seq<char> {
    " %a %b %e %H:%M:%S %Y "@
}

/// The date of an HTTP date text in seconds since the unix epoch.
///
/// The formats are tried in turn: the first that the text matches decides,
/// and there is no date if it gives no valid date and time.
pub open spec fn http_date(text: Seq<char>) -> Option<i64> {
    match date_parse(text, imf_fixdate()) {
        Some(res) => res,
        None => match date_parse(text, rfc850_date()) {
            Some(res) => res,
            None => match date_parse(text, asctime_date()) {
                Some(res) => res,
                None => None,
            },
        },
    }
}

/// Parses an HTTP date, returning seconds since the unix epoch.
///
/// Returns `None` if the text is not a date in one of the three formats.
pub fn parse_http_date(date: &str) -> (res: Option<i64>)
    ensures
        res == http_date(date@),
{
    if let Some(res) = parse_date(date, " %a , %d %b %Y %H:%M:%S GMT ") {
        return res;
    }
    if let Some(res) = parse_date(date, " %A , %d-%b-%y %H:%M:%S GMT ") {
        return res;
    }
    match parse_date(date, " %a %b %e %H:%M:%S %Y ") {
        Some(res) => res,
        None => None,
    }
}

/// The text of a point in time in UTC as chrono writes it by a format
/// string, or `None` if the time is outside chrono’s range or the format
/// string cannot be written.
pub uninterp spec fn date_text(secs: i64, nanos: u32, format: Seq<char>) -> Option<Seq<char>>;

/// Writes a point in time in UTC by a chrono format string.
///
/// Calls `chrono::DateTime::from_timestamp` and writes the result of its
/// `format` method. Which text comes out is not stated: it is named by
/// `date_text`.
#[verifier::external_body]
fn format_date(secs: i64, nanos: u32, format: &str) -> (res: Option<String>)
    ensures
        match res {
            Some(text) => date_text(secs, nanos, format@) == Some(text@),
            None => date_text(secs, nanos, format@) is None,
        },
{
    let time = chrono::DateTime::from_timestamp(secs, nanos)?;
    let mut res = String::new();
    write!(res, "{}", time.format(format)).ok()?;
    Some(res)
}

/// The format in which HTTP dates are written (IMF-fixdate).
pub open spec fn imf_fixdate_out() -> Seq<char> {
    "%a, %d %b %Y %H:%M:%S GMT"@
}

/// Writes a point in time as an HTTP date, such as
/// `Sun, 06 Nov 1994 08:49:37 GMT`.
///
/// Returns `None` if the time is outside of chrono’s range.
pub fn format_http_date(date: Timestamp) -> (res: Option<String>)
    ensures
        match res {
            Some(text) => date_text(date.secs, date.nanos, imf_fixdate_out()) == Some(text@),
            None => date_text(date.secs, date.nanos, imf_fixdate_out()) is None,
        },
{
    format_date(date.secs, date.nanos, "%a, %d %b %Y %H:%M:%S GMT")
}

} // verus!
