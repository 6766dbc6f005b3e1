//! Identifiers of objects and their types.

use vstd::prelude::*;

verus! {

/// An identifier of an object.
#[allow(non_camel_case_types)]
pub type hid_t = i64;

/// The identifier of no object.
pub const H5I_INVALID_HID: hid_t = -1;

/// The type of an object that an identifier stands for.
#[allow(non_camel_case_types)]
#[derive(Clone, Copy, Debug, PartialEq, Eq, Hash, Structural)]
pub enum H5I_type_t {
    H5I_UNINIT,
    H5I_BADID,
    H5I_FILE,
    H5I_GROUP,
    H5I_DATATYPE,
    H5I_DATASPACE,
    H5I_DATASET,
    H5I_MAP,
    H5I_ATTR,
    H5I_VFL,
    H5I_VOL,
    H5I_GENPROP_CLS,
    H5I_GENPROP_LST,
    H5I_ERROR_CLASS,
    H5I_ERROR_MSG,
    H5I_ERROR_STACK,
    H5I_NTYPES,
}

impl H5I_type_t {
    /// The number of the type.
    pub open spec fn code(self) -> int {
        match self {
            H5I_type_t::H5I_UNINIT => -2,
            H5I_type_t::H5I_BADID => -1,
            H5I_type_t::H5I_FILE => 1,
            H5I_type_t::H5I_GROUP => 2,
            H5I_type_t::H5I_DATATYPE => 3,
            H5I_type_t::H5I_DATASPACE => 4,
            H5I_type_t::H5I_DATASET => 5,
            H5I_type_t::H5I_MAP => 6,
            H5I_type_t::H5I_ATTR => 7,
            H5I_type_t::H5I_VFL => 8,
            H5I_type_t::H5I_VOL => 9,
            H5I_type_t::H5I_GENPROP_CLS => 10,
            H5I_type_t::H5I_GENPROP_LST => 11,
            H5I_type_t::H5I_ERROR_CLASS => 12,
            H5I_type_t::H5I_ERROR_MSG => 13,
            H5I_type_t::H5I_ERROR_STACK => 14,
            H5I_type_t::H5I_NTYPES => 15,
        }
    }

    /// The number of the type.
    pub fn number(self) -> (r: i32)
        ensures
            r == self.code(),
    {
        match self {
            H5I_type_t::H5I_UNINIT => -2,
            H5I_type_t::H5I_BADID => -1,
            H5I_type_t::H5I_FILE => 1,
            H5I_type_t::H5I_GROUP => 2,
            H5I_type_t::H5I_DATATYPE => 3,
            H5I_type_t::H5I_DATASPACE => 4,
            H5I_type_t::H5I_DATASET => 5,
            H5I_type_t::H5I_MAP => 6,
            H5I_type_t::H5I_ATTR => 7,
            H5I_type_t::H5I_VFL => 8,
            H5I_type_t::H5I_VOL => 9,
            H5I_type_t::H5I_GENPROP_CLS => 10,
            H5I_type_t::H5I_GENPROP_LST => 11,
            H5I_type_t::H5I_ERROR_CLASS => 12,
            H5I_type_t::H5I_ERROR_MSG => 13,
            H5I_type_t::H5I_ERROR_STACK => 14,
            H5I_type_t::H5I_NTYPES => 15,
        }
    }
}

} // verus!
