use vstd::prelude::*;
use vstd::string::*;

use crate::container::header::HeaderEntry;
use crate::text::{decimal, decimal_value, is_digit, law_signed_decimal, push_signed_decimal, signed_decimal};

verus! {

/// The JSON text of the HTTP headers that ask for bytes `lbound` up to
/// `ubound - 1`, as in ` { "Range" : "bytes=0-23" }   `.
pub open spec fn range_header_text(lbound: int, ubound: int) -> Seq<char> {
    " { \"Range\" : \"bytes="@ + signed_decimal(lbound) + "-"@ + signed_decimal(ubound - 1)
        + "\" }   "@
}

/// The JSON text of the HTTP headers of a request for the bytes from
/// `lbound` up to `ubound - 1`.
pub fn range_headers_json(lbound: i64, ubound: i64) -> (r: String)
    requires
        ubound > i64::MIN,
    ensures
        r@ == range_header_text(lbound as int, ubound as int),
{
    let mut out = String::new();
    out.append(" { \"Range\" : \"bytes=");
    push_signed_decimal(&mut out, lbound);
    out.append("-");
    push_signed_decimal(&mut out, ubound - 1);
    out.append("\" }   ");
    assert(out@ =~= range_header_text(lbound as int, ubound as int));
    out
}

/// The bounds with which a file's bytes are requested from the container:
/// from its offset up to (not including) its offset plus its size, so that
/// the request asks for bytes `offset` to `offset + size - 1`. `None` when
/// that end does not fit in an `i64`.
pub fn fetch_bounds(entry: &HeaderEntry) -> (r: Option<(i64, i64)>)
    ensures
        r.is_some() <==> entry@.offset + entry@.file_size <= i64::MAX,
        r matches Some(b) ==> {
            &&& b.0 == entry@.offset
            &&& b.1 == entry@.offset + entry@.file_size
        },
{
    let offset = entry.offset();
    let size = entry.file_size();
    if offset > i64::MAX as u64 || size > i64::MAX as u64 - offset {
        return None;
    }
    Some((offset as i64, (offset + size) as i64))
}

/// Law: for a range that starts at or after byte 0 and ends after it, the
/// request text names the range in plain decimal digits: the number after
/// `bytes=` is `lbound` and the number after the `-` is `ubound - 1`.
pub proof fn law_range_header_text(lbound: int, ubound: int)
    requires
        0 <= lbound,
        1 <= ubound,
    ensures
        exists|x: Seq<char>, y: Seq<char>|
            {
                &&& range_header_text(lbound, ubound) == " { \"Range\" : \"bytes="@ + x + "-"@ + y
                    + "\" }   "@
                &&& x.len() >= 1
                &&& y.len() >= 1
                &&& forall|i: int| 0 <= i < x.len() ==> is_digit(#[trigger] x[i])
                &&& forall|i: int| 0 <= i < y.len() ==> is_digit(#[trigger] y[i])
                &&& decimal_value(x) == lbound
                &&& decimal_value(y) == ubound - 1
            },
{
    law_signed_decimal(lbound);
    law_signed_decimal(ubound - 1);
    crate::text::law_decimal(lbound as nat);
    crate::text::law_decimal((ubound - 1) as nat);
    let x = decimal(lbound as nat);
    let y = decimal((ubound - 1) as nat);
    assert(range_header_text(lbound, ubound) == " { \"Range\" : \"bytes="@ + x + "-"@ + y + "\" }   "@);
}

} // verus!
