//! Request bodies, packed with gzip or not.
use crate::text::same_bytes;
use vstd::prelude::*;
use vstd::utf8::encode_utf8;

verus! {

/// What `flate2::read::GzDecoder` gives for a byte string when it is read to the end, where it
/// can be read to the end.
pub uninterp spec fn gunzipped(bytes: Seq<u8>) -> Option<Seq<u8>>;

/// `flate2::read::GzDecoder`, read to the end with the standard `read_to_end`. What it gives, and
/// whether it succeeds, depends on the bytes alone, as long as memory lasts.
#[verifier::external_body]
fn gunzip(bytes: &[u8]) -> (unpacked: Option<Vec<u8>>)
    ensures
        match unpacked {
            Some(plain) => gunzipped(bytes@) == Some(plain@),
            None => gunzipped(bytes@) is None,
        },
{
    let mut plain: Vec<u8> = Vec::new();
    match std::io::Read::read_to_end(&mut flate2::read::GzDecoder::new(bytes), &mut plain) {
        Ok(_) => Some(plain),
        Err(_) => None,
    }
}

/// Whether the encoding is gzip.
pub open spec fn is_gzip(encoding: Option<Seq<u8>>) -> bool {
    encoding == Some(encode_utf8("gzip"@))
}

/// The plain body: what was unpacked, or the body as it came where nothing could be unpacked.
pub open spec fn plain(body: Seq<u8>, unpacked: Option<Seq<u8>>) -> Seq<u8> {
    match unpacked {
        Some(plain) => plain,
        None => body,
    }
}

/// The plain body, given what unpacking it gave.
pub fn plain_body(body: Vec<u8>, unpacked: Option<Vec<u8>>) -> (content: Vec<u8>)
    ensures
        content@ == plain(
            body@,
            match unpacked {
                Some(bytes) => Some(bytes@),
                None => None,
            },
        ),
        match unpacked {
            Some(bytes) => content@ == bytes@,
            None => content@ == body@,
        },
{
    match unpacked {
        Some(bytes) => bytes,
        None => body,
    }
}

/// The plain body of a request with this content encoding. A body that is packed with gzip is
/// unpacked; one that cannot be, or is packed otherwise, is left as it is.
pub fn read_body(encoding: Option<&[u8]>, body: Vec<u8>) -> (content: Vec<u8>)
    ensures
        content@ == if is_gzip(
            match encoding {
                Some(encoding) => Some(encoding@),
                None => None,
            },
        ) {
            plain(body@, gunzipped(body@))
        } else {
            body@
        },
        (encoding matches Some(encoding) && encoding@ == encode_utf8("gzip"@)) ==> content@ == (
        match gunzipped(body@) {
            Some(unpacked) => unpacked,
            None => body@,
        }),
        !(encoding matches Some(encoding) && encoding@ == encode_utf8("gzip"@)) ==> content@
            == body@,
{
    let packed: bool = match encoding {
        Some(encoding) => same_bytes(encoding, "gzip".as_bytes()),
        None => false,
    };
    if packed {
        let unpacked: Option<Vec<u8>> = gunzip(body.as_slice());
        plain_body(body, unpacked)
    } else {
        body
    }
}

} // verus!
