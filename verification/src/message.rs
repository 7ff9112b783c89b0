//! The parts of an HTTP message head that the server decides on: status codes
//! and the names of the response header fields.

use vstd::prelude::*;

verus! {

/// The status codes that the server answers with.
#[allow(non_camel_case_types)]
#[derive(Debug, Clone, Copy, PartialEq, Eq, Structural)]
pub enum StatusCode {
    OK,
    PARTIAL_CONTENT,
    MOVED_PERMANENTLY,
    NOT_MODIFIED,
    BAD_REQUEST,
    FORBIDDEN,
    NOT_FOUND,
    METHOD_NOT_ALLOWED,
    PRECONDITION_FAILED,
    URI_TOO_LONG,
    RANGE_NOT_SATISFIABLE,
    INTERNAL_SERVER_ERROR,
}

impl StatusCode {
    /// The number of the status code.
    pub open spec fn number(self) -> u16 {
        match self {
            StatusCode::OK => 200,
            StatusCode::PARTIAL_CONTENT => 206,
            StatusCode::MOVED_PERMANENTLY => 301,
            StatusCode::NOT_MODIFIED => 304,
            StatusCode::BAD_REQUEST => 400,
            StatusCode::FORBIDDEN => 403,
            StatusCode::NOT_FOUND => 404,
            StatusCode::METHOD_NOT_ALLOWED => 405,
            StatusCode::PRECONDITION_FAILED => 412,
            StatusCode::URI_TOO_LONG => 414,
            StatusCode::RANGE_NOT_SATISFIABLE => 416,
            StatusCode::INTERNAL_SERVER_ERROR => 500,
        }
    }

    /// The number of the status code, as sent on the wire.
    pub fn as_u16(self) -> (res: u16)
        ensures
            res == self.number(),
    {
        match self {
            StatusCode::OK => 200,
            StatusCode::PARTIAL_CONTENT => 206,
            StatusCode::MOVED_PERMANENTLY => 301,
            StatusCode::NOT_MODIFIED => 304,
            StatusCode::BAD_REQUEST => 400,
            StatusCode::FORBIDDEN => 403,
            StatusCode::NOT_FOUND => 404,
            StatusCode::METHOD_NOT_ALLOWED => 405,
            StatusCode::PRECONDITION_FAILED => 412,
            StatusCode::URI_TOO_LONG => 414,
            StatusCode::RANGE_NOT_SATISFIABLE => 416,
            StatusCode::INTERNAL_SERVER_ERROR => 500,
        }
    }
}

/// The response header fields that the server sets.
#[derive(Debug, Clone, Copy, PartialEq, Eq, Structural)]
pub enum HeaderName {
    AcceptRanges,
    Allow,
    CacheControl,
    ContentEncoding,
    ContentLength,
    ContentRange,
    ContentType,
    ETag,
    LastModified,
    Location,
    Vary,
}

impl HeaderName {
    /// The field name in lower case.
    pub open spec fn name(self) -> Seq<char> {
        match self {
            HeaderName::AcceptRanges => "accept-ranges"@,
            HeaderName::Allow => "allow"@,
            HeaderName::CacheControl => "cache-control"@,
            HeaderName::ContentEncoding => "content-encoding"@,
            HeaderName::ContentLength => "content-length"@,
            HeaderName::ContentRange => "content-range"@,
            HeaderName::ContentType => "content-type"@,
            HeaderName::ETag => "etag"@,
            HeaderName::LastModified => "last-modified"@,
            HeaderName::Location => "location"@,
            HeaderName::Vary => "vary"@,
        }
    }

    /// The field name in lower case, as sent on the wire.
    pub fn as_str(self) -> (res: &'static str)
        ensures
            res@ == self.name(),
    {
        match self {
            HeaderName::AcceptRanges => "accept-ranges",
            HeaderName::Allow => "allow",
            HeaderName::CacheControl => "cache-control",
            HeaderName::ContentEncoding => "content-encoding",
            HeaderName::ContentLength => "content-length",
            HeaderName::ContentRange => "content-range",
            HeaderName::ContentType => "content-type",
            HeaderName::ETag => "etag",
            HeaderName::LastModified => "last-modified",
            HeaderName::Location => "location",
            HeaderName::Vary => "vary",
        }
    }
}

/// A list of header fields with the values as character sequences.
pub open spec fn fields(headers: Seq<(HeaderName, String)>) -> Seq<(HeaderName, Seq<char>)> {
    headers.map_values(|h: (HeaderName, String)| (h.0, h.1@))
}

/// Appends one header field.
pub fn push_field(headers: &mut Vec<(HeaderName, String)>, name: HeaderName, value: String)
    ensures
        fields(final(headers)@) == fields(old(headers)@).push((name, value@)),
{
    let ghost before = headers@;
    headers.push((name, value));
    assert(fields(headers@) =~= fields(before).push((name, value@)));
}

/// The status codes have the numbers that HTTP gives them.
pub proof fn law_status_codes_have_their_numbers(status: StatusCode)
    ensures
        status == StatusCode::OK <==> status.number() == 200,
        status == StatusCode::PARTIAL_CONTENT <==> status.number() == 206,
        status == StatusCode::MOVED_PERMANENTLY <==> status.number() == 301,
        status == StatusCode::NOT_MODIFIED <==> status.number() == 304,
        status == StatusCode::BAD_REQUEST <==> status.number() == 400,
        status == StatusCode::FORBIDDEN <==> status.number() == 403,
        status == StatusCode::NOT_FOUND <==> status.number() == 404,
        status == StatusCode::METHOD_NOT_ALLOWED <==> status.number() == 405,
        status == StatusCode::PRECONDITION_FAILED <==> status.number() == 412,
        status == StatusCode::URI_TOO_LONG <==> status.number() == 414,
        status == StatusCode::RANGE_NOT_SATISFIABLE <==> status.number() == 416,
        status == StatusCode::INTERNAL_SERVER_ERROR <==> status.number() == 500,
{
}

/// The header fields have the names that HTTP gives them, in lower case.
pub proof fn law_header_fields_have_their_names()
    ensures
        HeaderName::AcceptRanges.name() == "accept-ranges"@,
        HeaderName::Allow.name() == "allow"@,
        HeaderName::CacheControl.name() == "cache-control"@,
        HeaderName::ContentEncoding.name() == "content-encoding"@,
        HeaderName::ContentLength.name() == "content-length"@,
        HeaderName::ContentRange.name() == "content-range"@,
        HeaderName::ContentType.name() == "content-type"@,
        HeaderName::ETag.name() == "etag"@,
        HeaderName::LastModified.name() == "last-modified"@,
        HeaderName::Location.name() == "location"@,
        HeaderName::Vary.name() == "vary"@,
{
}

/// A list of header fields shows every field, in order, by its name and its
/// value.
pub proof fn law_fields_show_every_field(headers: Seq<(HeaderName, String)>, i: int)
    requires
        0 <= i < headers.len(),
    ensures
        fields(headers).len() == headers.len(),
        fields(headers)[i] == (headers[i].0, headers[i].1@),
{
}

} // verus!
