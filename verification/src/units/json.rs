//! What a unit that fetches payload data as JSON learns from the headers of
//! an HTTP response and the metadata of a file.
//!
//! The unit remembers the entity tag and the modification date of what it
//! fetched last so that it can ask the server to send the data only if it
//! has changed. A file is read again only if it has been modified since.

use vstd::prelude::*;
use crate::utils::time::Timestamp;
use crate::targets::http::header_values;
use crate::utils::http::{http_date, parse_http_date};

verus! {

/// The entity tag of a response, if its ETag header values consist of a
/// single well-formed one.
///
/// A well-formed tag starts with a double quote, possibly after a
/// case-sensitive `W/`, has at least one more character and ends with a
/// double quote.
pub open spec fn etag_of(values: Seq<Seq<u8>>) -> Option<Seq<u8>> {
    if values.len() != 1 {
        None
    } else {
        let v = values[0];
        let start: int = if v.len() >= 3 && v[0] == 0x57u8 && v[1] == 0x2fu8 && v[2] == 0x22u8 {
            3
        } else if v.len() >= 1 && v[0] == 0x22u8 {
            1
        } else {
            0
        };
        if start == 0 || v.len() <= start || v.last() != 0x22u8 {
            None
        } else {
            Some(v)
        }
    }
}

/// Returns the entity tag of a response given the values of its ETag
/// headers.
///
/// The tag is kept only if there is exactly one value and it is well
/// formed, including its quotes.
pub fn parse_etag(values: &Vec<Vec<u8>>) -> (res: Option<Vec<u8>>)
    ensures
        match res {
            Some(tag) => etag_of(values@.map_values(|v: Vec<u8>| v@)) == Some(tag@),
            None => etag_of(values@.map_values(|v: Vec<u8>| v@)) is None,
        },
{
    let ghost views = values@.map_values(|v: Vec<u8>| v@);
    // Take the value of the first Etag header. Return None if there’s
    // more than one, just to be safe.
    if values.len() != 1 {
        return None;
    }
    let etag = &values[0];
    assert(views[0] == etag@);

    // The tag starts with an optional case-sensitive `W/` followed by
    // `"`. Let’s remember where the actual tag starts.
    let start: usize = if etag.len() >= 3 && etag[0] == 0x57u8 && etag[1] == 0x2fu8 && etag[2]
        == 0x22u8 {
        3
    } else if etag.len() >= 1 && etag[0] == 0x22u8 {
        1
    } else {
        return None;
    };

    // We need at least one more character. Empty tags are allowed.
    if etag.len() <= start {
        return None;
    }

    // The tag ends with a `"`.
    if etag[etag.len() - 1] != 0x22u8 {
        return None;
    }
    let mut res: Vec<u8> = Vec::new();
    let mut i: usize = 0;
    while i < etag.len()
        invariant
            i <= etag@.len(),
            res@ == etag@.subrange(0, i as int),
        decreases etag@.len() - i,
    {
        res.push(etag[i]);
        i = i + 1;
        proof {
            assert(res@ =~= etag@.subrange(0, i as int));
        }
    }
    proof {
        assert(res@ =~= etag@);
    }
    Some(res)
}

/// The modification date of a response, if it has a single Last-Modified
/// header with an HTTP date in it.
pub open spec fn last_modified_of(values: Seq<Option<Seq<char>>>) -> Option<i64> {
    if values.len() == 1 {
        match values[0] {
            Some(text) => http_date(text),
            None => None,
        }
    } else {
        None
    }
}

/// Returns the modification date of a response, in seconds since the unix
/// epoch, given its Last-Modified header values, each `None` if it isn’t
/// text.
///
/// The date is kept only if there is exactly one value.
pub fn parse_last_modified(values: &Vec<Option<String>>) -> (res: Option<i64>)
    ensures
        res == last_modified_of(header_values(values@)),
{
    if values.len() != 1 {
        return None;
    }
    match &values[0] {
        Some(text) => parse_http_date(text.as_str()),
        None => None,
    }
}

/// Whether the time `a` is not before `b`.
pub open spec fn timestamp_ge(a: Timestamp, b: Timestamp) -> bool {
    a.secs > b.secs || (a.secs == b.secs && a.nanos >= b.nanos)
}

/// Returns whether a file needs to be read again: unless both its current
/// modification time and the one when it was last read are known and the
/// latter is not before the former.
pub fn file_modified(modified: Option<Timestamp>, last_modified: Option<Timestamp>) -> (res: bool)
    ensures
        res == !(modified matches Some(m) && last_modified matches Some(l) && timestamp_ge(l, m)),
{
    match (modified, last_modified) {
        (Some(m), Some(l)) => !(l.secs > m.secs || (l.secs == m.secs && l.nanos >= m.nanos)),
        _ => true,
    }
}

} // verus!
