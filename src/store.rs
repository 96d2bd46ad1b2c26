//! The stored form of objects: compressed canonical encodings filed under
//! `objects/<first two digits>/<other thirty-eight digits>` of their address.

use vstd::prelude::*;
use vstd::string::StrSliceExecFns;
use crate::digest::{check_address, is_address, is_lower_hex};
use crate::object::{
    address, decoded, encode, object_wf, parse, DecodeError, Object, ObjectModel,
};

verus! {

/// Why an object could not be read, written or parsed.
#[derive(Debug, PartialEq, Eq, Clone, Copy, Structural)]
pub enum StoreError {
    /// The text given as an address is not forty lowercase hex digits.
    BadAddress,
    /// No object is stored under the address.
    NotFound,
    /// The file system refused a read or a write.
    Io,
    /// The stored bytes are not a compressed stream.
    Corrupt,
    /// The decompressed bytes are not an object's encoding.
    Decode(DecodeError),
}

/// What decompressing a byte sequence gives, if it is a compressed stream.
pub uninterp spec fn inflate_of(b: Seq<u8>) -> Option<Seq<u8>>;

/// What compressing a byte sequence at the default level gives.
pub uninterp spec fn deflate_of(b: Seq<u8>) -> Seq<u8>;

/// Relies on flate2's `ZlibEncoder` at the default level, writing into memory:
/// its output depends on the input alone, and is a zlib stream that a
/// `ZlibDecoder` reads back unchanged.
#[verifier::external_body]
pub fn compress_bytes(bytes: &[u8]) -> (r: Vec<u8>)
    ensures
        r@ == deflate_of(bytes@),
        inflate_of(r@) == Some(bytes@),
{
    let mut encoder = flate2::write::ZlibEncoder::new(Vec::new(), flate2::Compression::default());
    std::io::Write::write_all(&mut encoder, bytes).unwrap();
    encoder.finish().unwrap()
}

/// Relies on flate2's `ZlibDecoder`, read to the end: the bytes it gives, or
/// nothing where the input is not a zlib stream.
#[verifier::external_body]
pub fn decompress_bytes(bytes: &[u8]) -> (r: Option<Vec<u8>>)
    ensures
        r is Some <==> inflate_of(bytes@) is Some,
        r matches Some(v) ==> inflate_of(bytes@) == Some(v@),
{
    let mut decoder = flate2::read::ZlibDecoder::new(bytes);
    let mut out = Vec::new();
    match std::io::Read::read_to_end(&mut decoder, &mut out) {
        Ok(_) => Some(out),
        Err(_) => None,
    }
}

/// The canonical bytes held in a stored file.
pub open spec fn stored_bytes(stored: Seq<u8>) -> Result<Seq<u8>, StoreError> {
    match inflate_of(stored) {
        Some(raw) => Ok(raw),
        None => Err(StoreError::Corrupt),
    }
}

/// The object held in a stored file.
pub open spec fn stored_object(stored: Seq<u8>) -> Result<ObjectModel, StoreError> {
    match inflate_of(stored) {
        None => Err(StoreError::Corrupt),
        Some(raw) => match parse(raw) {
            Ok(o) => Ok(o),
            Err(e) => Err(StoreError::Decode(e)),
        },
    }
}

/// The directory and file names under which an address is stored.
pub fn object_location(address: &String) -> (r: Result<(String, String), StoreError>)
    ensures
        r is Ok <==> is_address(address@),
        r matches Err(e) ==> e == StoreError::BadAddress,
        r matches Ok((dir, file)) ==> dir@ == address@.subrange(0, 2) && file@
            == address@.subrange(2, 40),
{
    if !check_address(address) {
        return Err(StoreError::BadAddress);
    }
    let t = address.as_str();
    proof {
        assert forall|i: int| 0 <= i < t@.len() implies '\0' <= #[trigger] t@[i] <= '\u{7f}' by {
            assert(is_lower_hex(t@[i]));
        }
    }
    let dir = t.substring_ascii(0, 2).to_owned();
    let file = t.substring_ascii(2, 40).to_owned();
    Ok((dir, file))
}

impl Object {
    /// The canonical encoding held in a stored file.
    pub fn read_object(stored: &[u8]) -> (r: Result<Vec<u8>, StoreError>)
        ensures
            match stored_bytes(stored@) {
                Ok(raw) => r matches Ok(v) && v@ == raw,
                Err(e) => r == Err::<Vec<u8>, StoreError>(e),
            },
    {
        match decompress_bytes(stored) {
            Some(raw) => Ok(raw),
            None => Err(StoreError::Corrupt),
        }
    }

    /// The address of the object and the compressed bytes to file under it.
    pub fn write_object(&self) -> (r: (String, Vec<u8>))
        requires
            object_wf(self@),
        ensures
            r.0@ == address(self@),
            is_address(r.0@),
            r.1@ == deflate_of(encode(self@)),
            stored_bytes(r.1@) == Ok::<Seq<u8>, StoreError>(encode(self@)),
    {
        let raw = self.to_bytes();
        let sha = crate::digest::sha_from_bytes(raw.as_slice());
        (sha, compress_bytes(raw.as_slice()))
    }

    /// The object held in a stored file.
    pub fn parse_from_file(stored: &[u8]) -> (r: Result<Object, StoreError>)
        ensures
            match stored_object(stored@) {
                Ok(o) => r matches Ok(x) && x@ == o,
                Err(e) => r matches Err(x) && x == e,
            },
    {
        match decompress_bytes(stored) {
            None => Err(StoreError::Corrupt),
            Some(raw) => {
                let r = Object::from_bytes(raw.as_slice());
                proof {
                    assert(decoded(r) == parse(raw@));
                }
                match r {
                    Ok(o) => Ok(o),
                    Err(e) => Err(StoreError::Decode(e)),
                }
            },
        }
    }
}

} // verus!
