//! Responses to clients. Every response starts with `0x01` on success or
//! `0x00` on failure; a failure carries an error code, a successful `GET`
//! the value with its length.

use vstd::prelude::*;
use bytes::{BufMut, BytesMut};
use crate::constants;
use crate::error::NldbError;
use crate::parser::{field_at, lemma_field_back};
use crate::util::{encode_varint, varint_bytes};

verus! {

#[verifier::external_type_specification]
#[verifier::external_body]
pub struct ExBytesMut(BytesMut);

/// The bytes a `BytesMut` holds.
pub uninterp spec fn bytes_content(b: BytesMut) -> Seq<u8>;

/// Calls `BytesMut::clear`, which drops every byte and keeps the capacity.
#[verifier::external_body]
fn clear_buffer(buffer: &mut BytesMut)
    ensures
        bytes_content(*final(buffer)) == Seq::<u8>::empty(),
{
    buffer.clear();
}

/// Calls `BufMut::put_u8` of `BytesMut`, which appends the byte, growing
/// the buffer as needed.
#[verifier::external_body]
fn put_byte(buffer: &mut BytesMut, n: u8)
    requires
        bytes_content(*old(buffer)).len() + 1 <= usize::MAX,
    ensures
        bytes_content(*final(buffer)) == bytes_content(*old(buffer)).push(n),
{
    buffer.put_u8(n);
}

/// Calls `BufMut::put_slice` of `BytesMut`, which appends the bytes,
/// growing the buffer as needed.
#[verifier::external_body]
fn put_bytes(buffer: &mut BytesMut, src: &[u8])
    requires
        bytes_content(*old(buffer)).len() + src@.len() <= usize::MAX,
    ensures
        bytes_content(*final(buffer)) == bytes_content(*old(buffer)) + src@,
{
    buffer.put_slice(src);
}

/// The error code sent for an error.
pub open spec fn error_code(e: NldbError) -> u8 {
    match e {
        NldbError::InvalidQuery => constants::INVALID_QUERY,
        NldbError::RecordSizeConstraint => constants::RECORD_SIZE_CONSTRAINT,
        NldbError::KeySizeConstraint => constants::KEY_SIZE_CONSTRAINT,
        _ => constants::INTERNAL_ERROR,
    }
}

/// Replaces the buffer's bytes with the failure response for `e`.
pub fn construct_error_message(e: NldbError, buffer: &mut BytesMut)
    ensures
        bytes_content(*final(buffer)) == seq![constants::TCP_SERVER_ERROR, error_code(e)],
{
    clear_buffer(buffer);
    put_byte(buffer, constants::TCP_SERVER_ERROR);
    let error_code: u8 = match e {
        NldbError::InvalidQuery => constants::INVALID_QUERY,
        NldbError::RecordSizeConstraint => constants::RECORD_SIZE_CONSTRAINT,
        NldbError::KeySizeConstraint => constants::KEY_SIZE_CONSTRAINT,
        _ => constants::INTERNAL_ERROR,
    };
    put_byte(buffer, error_code);
    assert(bytes_content(*buffer) =~= seq![constants::TCP_SERVER_ERROR, error_code]);
}

/// Replaces the buffer's bytes with the success response to an insert.
pub fn insert_response(buffer: &mut BytesMut)
    ensures
        bytes_content(*final(buffer)) == seq![constants::TCP_SERVER_SUCCESS],
{
    clear_buffer(buffer);
    let ok: [u8; 1] = [constants::TCP_SERVER_SUCCESS];
    put_bytes(buffer, &ok);
    assert(bytes_content(*buffer) =~= seq![constants::TCP_SERVER_SUCCESS]);
}

/// Replaces the buffer's bytes with the success response to a delete.
pub fn delete_response(buffer: &mut BytesMut)
    ensures
        bytes_content(*final(buffer)) == seq![constants::TCP_SERVER_SUCCESS],
{
    clear_buffer(buffer);
    let ok: [u8; 1] = [constants::TCP_SERVER_SUCCESS];
    put_bytes(buffer, &ok);
    assert(bytes_content(*buffer) =~= seq![constants::TCP_SERVER_SUCCESS]);
}

/// The response to a `GET`: success, then the value's length and the
/// value; a missing key has length zero and no value.
pub open spec fn get_response_bytes(blob: Option<Seq<u8>>) -> Seq<u8> {
    match blob {
        Some(b) => seq![constants::TCP_SERVER_SUCCESS] + varint_bytes(b.len()) + b,
        None => seq![constants::TCP_SERVER_SUCCESS, 0u8],
    }
}

/// Replaces the buffer's bytes with the response to a `GET`.
pub fn serialize_get_response(blob_opt: Option<Vec<u8>>, buffer: &mut BytesMut)
    requires
        blob_opt matches Some(b) ==> b@.len() + 11 <= usize::MAX,
    ensures
        bytes_content(*final(buffer)) == get_response_bytes(
            match blob_opt {
                Some(b) => Some(b@),
                None => None,
            },
        ),
{
    clear_buffer(buffer);
    match blob_opt {
        Some(blob) => {
            let (varint, size) = encode_varint(blob.len());
            put_byte(buffer, constants::TCP_SERVER_SUCCESS);
            let mut prefix: Vec<u8> = Vec::new();
            crate::util::append_prefix(&mut prefix, &varint, size);
            put_bytes(buffer, prefix.as_slice());
            put_bytes(buffer, blob.as_slice());
            assert(bytes_content(*buffer) =~= seq![constants::TCP_SERVER_SUCCESS] + varint_bytes(
                blob@.len(),
            ) + blob@);
        },
        None => {
            let not_found: [u8; 2] = [constants::TCP_SERVER_SUCCESS, 0u8];
            put_bytes(buffer, &not_found);
            assert(bytes_content(*buffer) =~= seq![constants::TCP_SERVER_SUCCESS, 0u8]);
        },
    }
}


/// A `GET` response reads back as what the lookup found: the success byte,
/// then the value as one length-prefixed field that ends the response,
/// whatever its length; a missing key reads back as an empty field.
pub proof fn law_get_response_reads_back(blob: Option<Seq<u8>>)
    requires
        blob matches Some(b) ==> b.len() <= usize::MAX,
    ensures
        get_response_bytes(blob).len() > 0,
        get_response_bytes(blob)[0] == constants::TCP_SERVER_SUCCESS,
        field_at(get_response_bytes(blob), 1) == Some(
            (
                match blob {
                    Some(b) => b,
                    None => Seq::<u8>::empty(),
                },
                get_response_bytes(blob).len() as int,
            ),
        ),
{
    let f = match blob {
        Some(b) => b,
        None => Seq::<u8>::empty(),
    };
    let s = get_response_bytes(blob);
    if blob is None {
        assert(varint_bytes(0) =~= seq![0u8]);
    }
    assert(s =~= seq![constants::TCP_SERVER_SUCCESS] + (varint_bytes(f.len()) + f));
    assert(s.subrange(1, 1int + varint_bytes(f.len()).len() + f.len()) =~= varint_bytes(f.len()) + f);
    lemma_field_back(s, 1, f);
}

} // verus!
