//! Geometry of a flat file of consecutive exact PLE rows.
use crate::format::{PlePackError, PlePackIoError, LOGICAL_ROW_SPACE};
use vstd::prelude::*;

verus! {

/// What a flat file of `file_len` bytes holding rows of `row_bytes` bytes is rejected for, in
/// the order checked; `None` when it holds a whole, non-empty, addressable number of rows.
pub open spec fn raw_geometry_error(file_len: u64, row_bytes: u32) -> Option<PlePackIoError> {
    if row_bytes == 0 {
        Some(PlePackIoError::Layout(PlePackError::InvalidGeometry("row_bytes must be nonzero")))
    } else if file_len % (row_bytes as u64) != 0 {
        Some(PlePackIoError::Format("raw PLE source length is not a whole number of rows"))
    } else if file_len / (row_bytes as u64) == 0 {
        Some(PlePackIoError::Layout(PlePackError::InvalidGeometry("row_count must be nonzero")))
    } else if file_len / (row_bytes as u64) > LOGICAL_ROW_SPACE {
        Some(
            PlePackIoError::Layout(
                PlePackError::InvalidGeometry("logical row space must fit u32 row identifiers"),
            ),
        )
    } else {
        None
    }
}

/// The number of rows of a flat file of `file_len` bytes holding rows of `row_bytes` bytes.
pub fn raw_row_count(file_len: u64, row_bytes: u32) -> (r: Result<u64, PlePackIoError>)
    ensures
        match raw_geometry_error(file_len, row_bytes) {
            Some(PlePackIoError::Format(m)) => r == Err::<u64, PlePackIoError>(PlePackIoError::Format(m)),
            Some(PlePackIoError::Layout(e)) => r == Err::<u64, PlePackIoError>(PlePackIoError::Layout(e)),
            Some(_) => false,
            None => r == Ok::<u64, PlePackIoError>(file_len / (row_bytes as u64)),
        },        r matches Ok(rows) ==> rows > 0 && rows <= LOGICAL_ROW_SPACE && rows * row_bytes == file_len,
{
    if row_bytes == 0 {
        return Err(PlePackIoError::Layout(PlePackError::InvalidGeometry("row_bytes must be nonzero")));
    }
    let width = row_bytes as u64;
    if file_len % width != 0 {
        return Err(PlePackIoError::Format("raw PLE source length is not a whole number of rows"));
    }
    let rows = file_len / width;
    if rows == 0 {
        return Err(PlePackIoError::Layout(PlePackError::InvalidGeometry("row_count must be nonzero")));
    }
    if rows > LOGICAL_ROW_SPACE {
        return Err(
            PlePackIoError::Layout(
                PlePackError::InvalidGeometry("logical row space must fit u32 row identifiers"),
            ),
        );
    }
    proof {
        vstd::arithmetic::div_mod::lemma_fundamental_div_mod(file_len as int, width as int);
        assert(rows * row_bytes == width * (file_len as int / width as int)) by (nonlinear_arith)
            requires
                rows == file_len as int / width as int,
                width == row_bytes,
        ;
    }
    Ok(rows)
}

} // verus!
