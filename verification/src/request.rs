//! What a request must carry before the service is asked: parameters that
//! are missing or malformed are refused with `BadRequest`.

use crate::encoding::{parse_u32, parsed_u32};
use crate::error::StoreError;
use vstd::prelude::*;

verus! {

/// The parameters of the call that stages a part.
pub struct UploadPartRequest {
    pub upload_id: String,
    pub part_number: u32,
}

/// A parameter that the request must carry.
///
/// Fails with `BadRequest` when the parameter is missing.
pub fn require(value: Option<&str>) -> (r: Result<String, StoreError>)
    ensures
        match r {
            Ok(text) => value matches Some(given) && text@ == given@,
            Err(e) => e == StoreError::BadRequest && value is None,
        },
{
    match value {
        Some(given) => Ok(given.to_owned()),
        None => Err(StoreError::BadRequest),
    }
}

/// The part number that a request names in the text `text`.
pub open spec fn part_number_of(text: Seq<char>) -> Result<u32, StoreError> {
    match parsed_u32(text) {
        Some(number) => Ok(number),
        None => Err(StoreError::BadRequest),
    }
}

/// Reads the parameters of the call that stages a part: the upload
/// identifier as it is, and the part number from its decimal digits.
///
/// Fails with `BadRequest` when the upload identifier or the part number is
/// missing, and when the part number is no number of 32 bits in decimal
/// digits, with or without a plus sign before them.
pub fn parse_upload_part(upload_id: Option<&str>, part_number: Option<&str>) -> (r: Result<
    UploadPartRequest,
    StoreError,
>)
    ensures
        match r {
            Ok(request) => {
                &&& upload_id matches Some(id) && request.upload_id@ == id@
                &&& part_number matches Some(text) && part_number_of(text@) == Ok::<
                    u32,
                    StoreError,
                >(request.part_number)
            },
            Err(e) => {
                &&& e == StoreError::BadRequest
                &&& upload_id is None || part_number is None || part_number_of(
                    part_number->0@,
                ) is Err
            },
        },
{
    let id = match upload_id {
        Some(id) => id,
        None => {
            return Err(StoreError::BadRequest);
        },
    };
    let text = match part_number {
        Some(text) => text,
        None => {
            return Err(StoreError::BadRequest);
        },
    };
    match parse_u32(text) {
        Some(number) => Ok(UploadPartRequest { upload_id: id.to_owned(), part_number: number }),
        None => Err(StoreError::BadRequest),
    }
}

} // verus!
