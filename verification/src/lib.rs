//! HDF5 files: a model of their objects, the file format that stores it, and the
//! operations on files, groups, datasets and attributes.

use vstd::prelude::*;

use crate::error::{same_bytes, Error};
use crate::h5i::hid_t;

pub mod error;
pub mod format;
pub mod h5i;
pub mod hl;
pub mod model;
pub mod text;
pub mod types;

verus! {

/// The version of the library whose files can be read and written.
pub fn library_version() -> (r: (u8, u8, u8))
    ensures
        r == (1u8, 10u8, 0u8),
{
    (1, 10, 0)
}

/// Whether files can be used from several threads.
pub fn is_library_threadsafe() -> (r: bool)
    ensures
        r,
{
    true
}

/// Sets how variable-length elements are kept in memory: there is one way only.
pub fn set_vlen_manager_libc(_plist: hid_t) -> (r: Result<(), Error>)
    ensures
        r is Ok,
{
    Ok(())
}

/// Compresses bytes with the szip coding.
pub fn internal_szip_compress(cd: &[u32], data: &[u8]) -> (r: Result<Vec<u8>, Error>)
    ensures
        same_bytes(r, crate::format::szip::sz_encoded(cd@, data@)),
{
    crate::format::szip::sz_compress(cd, data)
}

/// Decompresses bytes of the szip coding.
pub fn internal_szip_decompress(cd: &[u32], data: &[u8], out_len: usize) -> (r: Result<
    Vec<u8>,
    Error,
>)
    ensures
        same_bytes(r, crate::format::szip::sz_decoded(cd@, data@, out_len as nat)),
{
    crate::format::szip::sz_decompress(cd, data, out_len)
}

/// A value that a property list gives out.
pub trait H5Get: Copy + Default {

}

impl<T: Copy + Default> H5Get for T {

}

} // verus!
