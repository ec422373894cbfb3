//! Loading the index from its compressed file.

use vstd::prelude::*;

use crate::finder::XsFinder;
use crate::xsci::{index_of, parse};

verus! {

/// What `flate2::read::GzDecoder` reads from a gzip file: the contents of its
/// first member, or the text of the error.
pub uninterp spec fn gunzipped(data: Seq<u8>) -> Result<Seq<u8>, Seq<char>>;

/// `flate2::read::GzDecoder`, read to the end: the decompressed bytes, or the
/// text of the error. The result depends on the given bytes alone.
#[verifier::external_body]
fn decompress_gzip(data: &[u8]) -> (r: Result<Vec<u8>, String>)
    ensures
        match r {
            Ok(out) => gunzipped(data@) == Ok::<Seq<u8>, Seq<char>>(out@),
            Err(e) => gunzipped(data@) == Err::<Seq<u8>, Seq<char>>(e@),
        },
{
    let mut decoder = flate2::read::GzDecoder::new(data);
    let mut out = Vec::new();
    match std::io::Read::read_to_end(&mut decoder, &mut out) {
        Ok(_) => Ok(out),
        Err(e) => Err(e.to_string()),
    }
}

/// The finder over an index file.
pub fn finder_from_index(raw: &[u8]) -> (r: Result<XsFinder, String>)
    ensures
        match index_of(raw@) {
            Ok(index) => r matches Ok(finder) && finder@ == index && index.well_formed(),
            Err(e) => r matches Err(message) && message@ == e.text(),
        },
{
    match parse(raw) {
        Ok(index) => Ok(XsFinder::new(index)),
        Err(message) => Err(message),
    }
}

/// The finder over a compressed index file.
pub fn load_finder(gz: &[u8]) -> (r: Result<XsFinder, String>)
    ensures
        match gunzipped(gz@) {
            Ok(raw) => match index_of(raw) {
                Ok(index) => r matches Ok(finder) && finder@ == index && index.well_formed(),
                Err(e) => r matches Err(message) && message@ == e.text(),
            },
            Err(text) => r matches Err(message) && message@ == text,
        },
{
    match decompress_gzip(gz) {
        Ok(raw) => finder_from_index(raw.as_slice()),
        Err(message) => Err(message),
    }
}

} // verus!
