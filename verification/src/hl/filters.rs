//! Dataset filters.

use vstd::prelude::*;
use vstd::std_specs::convert::IntoSpec;

use crate::error::{same_unit, Error};
use crate::format::filters::{
    copy_words, word_or, FilterView, RawFilter, FILTER_BLOSC, FILTER_DEFLATE, FILTER_FLETCHER32,
    FILTER_LZF, FILTER_NBIT, FILTER_SCALEOFFSET, FILTER_SHUFFLE, FILTER_SZIP,
};
use crate::text::{decimal, decimal_string, join};

verus! {

/// An HDF5 filter identifier.
#[allow(non_camel_case_types)]
pub type H5Z_filter_t = i32;

pub const H5Z_FILTER_DEFLATE: H5Z_filter_t = 1;

pub const H5Z_FILTER_SHUFFLE: H5Z_filter_t = 2;

pub const H5Z_FILTER_FLETCHER32: H5Z_filter_t = 3;

pub const H5Z_FILTER_SZIP: H5Z_filter_t = 4;

pub const H5Z_FILTER_NBIT: H5Z_filter_t = 5;

pub const H5Z_FILTER_SCALEOFFSET: H5Z_filter_t = 6;

pub const H5Z_FILTER_LZF: H5Z_filter_t = 32000;

pub const H5Z_FILTER_BLOSC: H5Z_filter_t = 32001;

/// The identifier of the LZF filter, which is built in.
pub const LZF_FILTER_ID: H5Z_filter_t = 32000;

/// The identifier of the Blosc filter, which is built in.
pub const BLOSC_FILTER_ID: H5Z_filter_t = 32001;

/// SZip coding method.
#[derive(Clone, Copy, Debug, PartialEq, Eq, Structural)]
pub enum SZip {
    Entropy,
    NearestNeighbor,
}

/// Scale-offset filter mode.
#[derive(Clone, Copy, Debug, PartialEq, Eq, Structural)]
pub enum ScaleOffset {
    Integer(u16),
    FloatDScale(u8),
}

/// Blosc sub-compressor.
#[derive(Clone, Copy, Debug, PartialEq, Eq, Structural)]
pub enum Blosc {
    BloscLZ,
    LZ4,
    LZ4HC,
    Snappy,
    ZLib,
    ZStd,
}

/// Blosc shuffle mode.
#[derive(Clone, Copy, Debug, PartialEq, Eq, Structural)]
pub enum BloscShuffle {
    NoShuffle,
    Byte,
    Bit,
}

impl Default for BloscShuffle {
    fn default() -> (r: Self)
        ensures
            r == BloscShuffle::Byte,
    {
        BloscShuffle::Byte
    }
}

impl From<bool> for BloscShuffle {
    fn from(b: bool) -> (r: Self) {
        if b {
            BloscShuffle::Byte
        } else {
            BloscShuffle::NoShuffle
        }
    }
}

impl vstd::std_specs::convert::FromSpecImpl<bool> for BloscShuffle {
    open spec fn obeys_from_spec() -> bool {
        true
    }

    open spec fn from_spec(b: bool) -> Self {
        if b {
            BloscShuffle::Byte
        } else {
            BloscShuffle::NoShuffle
        }
    }
}

/// A single dataset filter.
#[derive(Debug)]
pub enum Filter {
    Deflate(u8),
    Shuffle,
    Fletcher32,
    SZip(SZip, u8),
    NBit,
    ScaleOffset(ScaleOffset),
    LZF,
    Blosc(Blosc, u8, BloscShuffle),
    User(H5Z_filter_t, Vec<u32>),
}

/// The view of a [`Filter`].
pub enum FilterKind {
    Deflate(u8),
    Shuffle,
    Fletcher32,
    SZip(SZip, u8),
    NBit,
    ScaleOffset(ScaleOffset),
    LZF,
    Blosc(Blosc, u8, BloscShuffle),
    User(i32, Seq<u32>),
}

impl View for Filter {
    type V = FilterKind;

    open spec fn view(&self) -> FilterKind {
        match *self {
            Filter::Deflate(l) => FilterKind::Deflate(l),
            Filter::Shuffle => FilterKind::Shuffle,
            Filter::Fletcher32 => FilterKind::Fletcher32,
            Filter::SZip(c, p) => FilterKind::SZip(c, p),
            Filter::NBit => FilterKind::NBit,
            Filter::ScaleOffset(m) => FilterKind::ScaleOffset(m),
            Filter::LZF => FilterKind::LZF,
            Filter::Blosc(b, l, s) => FilterKind::Blosc(b, l, s),
            Filter::User(id, cdata) => FilterKind::User(id, cdata@),
        }
    }
}

impl Clone for Filter {
    fn clone(&self) -> (r: Self)
        ensures
            r@ == self@,
    {
        match self {
            Filter::Deflate(l) => Filter::Deflate(*l),
            Filter::Shuffle => Filter::Shuffle,
            Filter::Fletcher32 => Filter::Fletcher32,
            Filter::SZip(c, p) => Filter::SZip(*c, *p),
            Filter::NBit => Filter::NBit,
            Filter::ScaleOffset(m) => Filter::ScaleOffset(*m),
            Filter::LZF => Filter::LZF,
            Filter::Blosc(b, l, s) => Filter::Blosc(*b, *l, *s),
            Filter::User(id, cdata) => Filter::User(*id, copy_words(cdata.as_slice())),
        }
    }
}

/// Whether a filter is available, and for which direction.
#[derive(Clone, Copy, Debug, PartialEq, Eq, Structural)]
pub struct FilterInfo {
    pub is_available: bool,
    pub encode_enabled: bool,
    pub decode_enabled: bool,
}

impl Default for FilterInfo {
    fn default() -> (r: Self)
        ensures
            !r.is_available && !r.encode_enabled && !r.decode_enabled,
    {
        FilterInfo { is_available: false, encode_enabled: false, decode_enabled: false }
    }
}

/// The identifiers that are reported as available.
pub open spec fn reported(id: i32) -> bool {
    id == 1 || id == 2 || id == 3 || id == 5 || id == 6 || id == 32000 || id == 32001
}

/// The text of signed numbers.
pub open spec fn signed_text(n: int) -> Seq<char> {
    if n < 0 {
        "-"@ + decimal((-n) as nat)
    } else {
        decimal(n as nat)
    }
}

/// The numbers in a list, with `, ` between them.
pub open spec fn listed(v: Seq<u32>) -> Seq<char>
    decreases v.len(),
{
    if v.len() == 0 {
        seq![]
    } else if v.len() == 1 {
        decimal(v[0] as nat)
    } else {
        listed(v.drop_last()) + ", "@ + decimal(v.last() as nat)
    }
}

impl FilterKind {
    /// The identifier of the filter.
    pub open spec fn id(self) -> i32 {
        match self {
            FilterKind::Deflate(l) => 1,
            FilterKind::Shuffle => 2,
            FilterKind::Fletcher32 => 3,
            FilterKind::SZip(c, p) => 4,
            FilterKind::NBit => 5,
            FilterKind::ScaleOffset(m) => 6,
            FilterKind::LZF => 32000,
            FilterKind::Blosc(b, l, s) => 32001,
            FilterKind::User(id, cdata) => id,
        }
    }

    /// The filter with an identifier and client data.
    pub open spec fn of_raw(id: u16, cdata: Seq<u32>) -> FilterKind {
        if id == FILTER_DEFLATE {
            FilterKind::Deflate(word_or(cdata, 0, 6) as u8)
        } else if id == FILTER_SHUFFLE {
            FilterKind::Shuffle
        } else if id == FILTER_FLETCHER32 {
            FilterKind::Fletcher32
        } else if id == FILTER_SZIP {
            FilterKind::SZip(
                if word_or(cdata, 0, 0) / 32 % 2 == 1 {
                    SZip::NearestNeighbor
                } else {
                    SZip::Entropy
                },
                word_or(cdata, 1, 0) as u8,
            )
        } else if id == FILTER_NBIT {
            FilterKind::NBit
        } else if id == FILTER_LZF {
            FilterKind::LZF
        } else if id == FILTER_BLOSC {
            let (s, b) = (word_or(cdata, 5, 1), word_or(cdata, 6, 0));
            FilterKind::Blosc(
                if b == 1 {
                    Blosc::LZ4
                } else if b == 2 {
                    Blosc::LZ4HC
                } else if b == 3 {
                    Blosc::Snappy
                } else if b == 4 {
                    Blosc::ZLib
                } else if b == 5 {
                    Blosc::ZStd
                } else {
                    Blosc::BloscLZ
                },
                word_or(cdata, 4, 5) as u8,
                if s == 0 {
                    BloscShuffle::NoShuffle
                } else if s == 2 {
                    BloscShuffle::Bit
                } else {
                    BloscShuffle::Byte
                },
            )
        } else if id == FILTER_SCALEOFFSET {
            FilterKind::ScaleOffset(
                if word_or(cdata, 0, 0) == 2 {
                    ScaleOffset::Integer(word_or(cdata, 1, 0) as u16)
                } else {
                    ScaleOffset::FloatDScale(word_or(cdata, 1, 0) as u8)
                },
            )
        } else {
            FilterKind::User(id as i32, cdata)
        }
    }

    /// The identifier, client data and name of the filter in a pipeline.
    pub open spec fn raw(self) -> FilterView {
        match self {
            FilterKind::Deflate(l) => FilterView {
                id: FILTER_DEFLATE,
                cdata: seq![l as u32],
                name: "deflate"@,
            },
            FilterKind::Shuffle => FilterView {
                id: FILTER_SHUFFLE,
                cdata: seq![],
                name: "shuffle"@,
            },
            FilterKind::Fletcher32 => FilterView {
                id: FILTER_FLETCHER32,
                cdata: seq![],
                name: "fletcher32"@,
            },
            FilterKind::SZip(c, p) => FilterView {
                id: FILTER_SZIP,
                cdata: seq![
                    if c == SZip::Entropy {
                        4u32
                    } else {
                        32u32
                    },
                    p as u32,
                ],
                name: "szip"@,
            },
            FilterKind::NBit => FilterView { id: FILTER_NBIT, cdata: seq![], name: "nbit"@ },
            FilterKind::ScaleOffset(m) => FilterView {
                id: FILTER_SCALEOFFSET,
                cdata: match m {
                    ScaleOffset::Integer(f) => seq![2u32, f as u32],
                    ScaleOffset::FloatDScale(f) => seq![0u32, f as u32],
                },
                name: "scaleoffset"@,
            },
            FilterKind::LZF => FilterView {
                id: FILTER_LZF,
                cdata: seq![4u32, 0x0105u32, 0u32],
                name: "lzf"@,
            },
            FilterKind::Blosc(b, l, s) => FilterView {
                id: FILTER_BLOSC,
                cdata: seq![
                    2u32,
                    2u32,
                    0u32,
                    0u32,
                    l as u32,
                    match s {
                        BloscShuffle::NoShuffle => 0u32,
                        BloscShuffle::Byte => 1u32,
                        BloscShuffle::Bit => 2u32,
                    },
                    match b {
                        Blosc::BloscLZ => 0u32,
                        Blosc::LZ4 => 1u32,
                        Blosc::LZ4HC => 2u32,
                        Blosc::Snappy => 3u32,
                        Blosc::ZLib => 4u32,
                        Blosc::ZStd => 5u32,
                    },
                ],
                name: "blosc"@,
            },
            FilterKind::User(id, cdata) => FilterView { id: id as u16, cdata, name: seq![] },
        }
    }

    /// Whether the filter can be applied when a dataset is written.
    pub open spec fn writable(self) -> Result<(), Seq<char>> {
        match self {
            FilterKind::Deflate(l) => if l > 9 {
                Err("deflate level must be <= 9"@)
            } else {
                Ok(())
            },
            FilterKind::SZip(c, p) => if p == 0 || p % 2 == 1 || p > 32 {
                Err("szip pixels-per-block must be even and <= 32"@)
            } else {
                Ok(())
            },
            FilterKind::User(id, cdata) => Err(
                "filter User("@ + signed_text(id as int) + ", ["@ + listed(cdata)
                    + "]) is not supported by the pure-Rust engine"@,
            ),
            _ => Ok(()),
        }
    }
}

/// A filter that went through its pipeline form is unchanged. User filters need an
/// identifier of 16 bits that no other filter has.
pub proof fn law_filter_raw_round_trip(f: FilterKind)
    requires
        f matches FilterKind::User(id, cdata) ==> 0 <= id <= 0xffff && !(1 <= id <= 6) && id
            != 32000 && id != 32001,
    ensures
        FilterKind::of_raw(f.raw().id, f.raw().cdata) == f,
{
}

fn word(cdata: &[u32], i: usize, default: u32) -> (r: u32)
    ensures
        r == word_or(cdata@, i as int, default as nat),
{
    if i < cdata.len() {
        cdata[i]
    } else {
        default
    }
}

fn signed_string(n: i32) -> (r: String)
    ensures
        r@ == signed_text(n as int),
{
    if n < 0 {
        let d = decimal_string((-(n as i64)) as u64);
        join("-", d.as_str())
    } else {
        decimal_string(n as u64)
    }
}

fn list_text(v: &[u32]) -> (r: String)
    ensures
        r@ == listed(v@),
{
    let n: usize = v.len();
    let mut out = String::new();
    let mut i: usize = 0;
    while i < n
        invariant
            i <= n == v@.len(),
            out@ == listed(v@.take(i as int)),
        decreases n - i,
    {
        let d = decimal_string(v[i] as u64);
        assert(v@.take(i + 1).drop_last() =~= v@.take(i as int));
        if i == 0 {
            out = d;
        } else {
            let head = join(out.as_str(), ", ");
            out = join(head.as_str(), d.as_str());
        }
        i += 1;
    }
    assert(v@.take(n as int) =~= v@);
    out
}

impl Filter {
    pub fn id(&self) -> (r: H5Z_filter_t)
        ensures
            r == self@.id(),
    {
        match self {
            Filter::Deflate(_) => H5Z_FILTER_DEFLATE,
            Filter::Shuffle => H5Z_FILTER_SHUFFLE,
            Filter::Fletcher32 => H5Z_FILTER_FLETCHER32,
            Filter::SZip(_, _) => H5Z_FILTER_SZIP,
            Filter::NBit => H5Z_FILTER_NBIT,
            Filter::ScaleOffset(_) => H5Z_FILTER_SCALEOFFSET,
            Filter::LZF => H5Z_FILTER_LZF,
            Filter::Blosc(_, _, _) => H5Z_FILTER_BLOSC,
            Filter::User(id, _) => *id,
        }
    }

    pub fn get_info(filter_id: H5Z_filter_t) -> (r: FilterInfo)
        ensures
            r.is_available == reported(filter_id),
            r.encode_enabled == reported(filter_id),
            r.decode_enabled == reported(filter_id),
    {
        let supported = filter_id == H5Z_FILTER_DEFLATE || filter_id == H5Z_FILTER_SHUFFLE
            || filter_id == H5Z_FILTER_FLETCHER32 || filter_id == H5Z_FILTER_NBIT || filter_id
            == H5Z_FILTER_SCALEOFFSET || filter_id == H5Z_FILTER_LZF || filter_id
            == H5Z_FILTER_BLOSC;
        FilterInfo {
            is_available: supported,
            encode_enabled: supported,
            decode_enabled: supported,
        }
    }

    pub fn is_available(&self) -> (r: bool)
        ensures
            r == reported(self@.id()),
    {
        Self::get_info(self.id()).is_available
    }

    pub fn encode_enabled(&self) -> (r: bool)
        ensures
            r == reported(self@.id()),
    {
        Self::get_info(self.id()).encode_enabled
    }

    pub fn decode_enabled(&self) -> (r: bool)
        ensures
            r == reported(self@.id()),
    {
        Self::get_info(self.id()).decode_enabled
    }

    pub fn deflate(level: u8) -> (r: Self)
        ensures
            r@ == FilterKind::Deflate(level),
    {
        Filter::Deflate(level)
    }

    pub fn shuffle() -> (r: Self)
        ensures
            r@ == FilterKind::Shuffle,
    {
        Filter::Shuffle
    }

    pub fn fletcher32() -> (r: Self)
        ensures
            r@ == FilterKind::Fletcher32,
    {
        Filter::Fletcher32
    }

    pub fn szip(coding: SZip, px_per_block: u8) -> (r: Self)
        ensures
            r@ == FilterKind::SZip(coding, px_per_block),
    {
        Filter::SZip(coding, px_per_block)
    }

    pub fn nbit() -> (r: Self)
        ensures
            r@ == FilterKind::NBit,
    {
        Filter::NBit
    }

    pub fn scale_offset(mode: ScaleOffset) -> (r: Self)
        ensures
            r@ == FilterKind::ScaleOffset(mode),
    {
        Filter::ScaleOffset(mode)
    }

    pub fn lzf() -> (r: Self)
        ensures
            r@ == FilterKind::LZF,
    {
        Filter::LZF
    }

    pub fn blosc<T: Into<BloscShuffle>>(complib: Blosc, clevel: u8, shuffle: T) -> (r: Self)
        ensures
            T::obeys_into_spec() ==> r@ == FilterKind::Blosc(
                complib,
                clevel,
                shuffle.into_spec(),
            ),
            r@ matches FilterKind::Blosc(b, l, s) && b == complib && l == clevel,
    {
        Filter::Blosc(complib, clevel, shuffle.into())
    }

    pub fn blosc_blosclz<T: Into<BloscShuffle>>(clevel: u8, shuffle: T) -> (r: Self)
        ensures
            T::obeys_into_spec() ==> r@ == FilterKind::Blosc(
                Blosc::BloscLZ,
                clevel,
                shuffle.into_spec(),
            ),
            r@ matches FilterKind::Blosc(b, l, s) && b == Blosc::BloscLZ && l == clevel,
    {
        Self::blosc(Blosc::BloscLZ, clevel, shuffle)
    }

    pub fn blosc_lz4<T: Into<BloscShuffle>>(clevel: u8, shuffle: T) -> (r: Self)
        ensures
            T::obeys_into_spec() ==> r@ == FilterKind::Blosc(
                Blosc::LZ4,
                clevel,
                shuffle.into_spec(),
            ),
            r@ matches FilterKind::Blosc(b, l, s) && b == Blosc::LZ4 && l == clevel,
    {
        Self::blosc(Blosc::LZ4, clevel, shuffle)
    }

    pub fn blosc_lz4hc<T: Into<BloscShuffle>>(clevel: u8, shuffle: T) -> (r: Self)
        ensures
            T::obeys_into_spec() ==> r@ == FilterKind::Blosc(
                Blosc::LZ4HC,
                clevel,
                shuffle.into_spec(),
            ),
            r@ matches FilterKind::Blosc(b, l, s) && b == Blosc::LZ4HC && l == clevel,
    {
        Self::blosc(Blosc::LZ4HC, clevel, shuffle)
    }

    pub fn blosc_snappy<T: Into<BloscShuffle>>(clevel: u8, shuffle: T) -> (r: Self)
        ensures
            T::obeys_into_spec() ==> r@ == FilterKind::Blosc(
                Blosc::Snappy,
                clevel,
                shuffle.into_spec(),
            ),
            r@ matches FilterKind::Blosc(b, l, s) && b == Blosc::Snappy && l == clevel,
    {
        Self::blosc(Blosc::Snappy, clevel, shuffle)
    }

    pub fn blosc_zlib<T: Into<BloscShuffle>>(clevel: u8, shuffle: T) -> (r: Self)
        ensures
            T::obeys_into_spec() ==> r@ == FilterKind::Blosc(
                Blosc::ZLib,
                clevel,
                shuffle.into_spec(),
            ),
            r@ matches FilterKind::Blosc(b, l, s) && b == Blosc::ZLib && l == clevel,
    {
        Self::blosc(Blosc::ZLib, clevel, shuffle)
    }

    pub fn blosc_zstd<T: Into<BloscShuffle>>(clevel: u8, shuffle: T) -> (r: Self)
        ensures
            T::obeys_into_spec() ==> r@ == FilterKind::Blosc(
                Blosc::ZStd,
                clevel,
                shuffle.into_spec(),
            ),
            r@ matches FilterKind::Blosc(b, l, s) && b == Blosc::ZStd && l == clevel,
    {
        Self::blosc(Blosc::ZStd, clevel, shuffle)
    }

    pub fn user(id: H5Z_filter_t, cdata: &[u32]) -> (r: Self)
        ensures
            r@ == FilterKind::User(id, cdata@),
    {
        Filter::User(id, copy_words(cdata))
    }

    /// The filter with an identifier, of which the low 16 bits count, and client data.
    /// Every identifier has one.
    pub fn from_raw(filter_id: H5Z_filter_t, cdata: &[u32]) -> (r: Result<Self, Error>)
        ensures
            r matches Ok(f) && f@ == FilterKind::of_raw(filter_id as u16, cdata@),
    {
        Ok(Self::from_raw_parts(filter_id as u16, cdata))
    }

    /// The filter with an identifier and client data.
    pub fn from_raw_parts(id: u16, cdata: &[u32]) -> (r: Self)
        ensures
            r@ == FilterKind::of_raw(id, cdata@),
    {
        if id == FILTER_DEFLATE {
            Filter::Deflate(word(cdata, 0, 6) as u8)
        } else if id == FILTER_SHUFFLE {
            Filter::Shuffle
        } else if id == FILTER_FLETCHER32 {
            Filter::Fletcher32
        } else if id == FILTER_SZIP {
            let coding = if word(cdata, 0, 0) / 32 % 2 == 1 {
                SZip::NearestNeighbor
            } else {
                SZip::Entropy
            };
            Filter::SZip(coding, word(cdata, 1, 0) as u8)
        } else if id == FILTER_NBIT {
            Filter::NBit
        } else if id == FILTER_LZF {
            Filter::LZF
        } else if id == FILTER_BLOSC {
            let shuffle = match word(cdata, 5, 1) {
                0 => BloscShuffle::NoShuffle,
                2 => BloscShuffle::Bit,
                _ => BloscShuffle::Byte,
            };
            let complib = match word(cdata, 6, 0) {
                1 => Blosc::LZ4,
                2 => Blosc::LZ4HC,
                3 => Blosc::Snappy,
                4 => Blosc::ZLib,
                5 => Blosc::ZStd,
                _ => Blosc::BloscLZ,
            };
            Filter::Blosc(complib, word(cdata, 4, 5) as u8, shuffle)
        } else if id == FILTER_SCALEOFFSET {
            let factor: u32 = word(cdata, 1, 0);
            Filter::ScaleOffset(
                if word(cdata, 0, 0) == 2 {
                    ScaleOffset::Integer(factor as u16)
                } else {
                    ScaleOffset::FloatDScale(factor as u8)
                },
            )
        } else {
            Filter::User(id as i32, copy_words(cdata))
        }
    }

    /// The pipeline form of the filter.
    pub fn to_raw(&self) -> (r: RawFilter)
        ensures
            r@ == self@.raw(),
    {
        let r = match self {
            Filter::Deflate(level) => RawFilter {
                id: FILTER_DEFLATE,
                cdata: vec![*level as u32],
                name: String::from_str("deflate"),
            },
            Filter::Shuffle => RawFilter {
                id: FILTER_SHUFFLE,
                cdata: Vec::new(),
                name: String::from_str("shuffle"),
            },
            Filter::Fletcher32 => RawFilter {
                id: FILTER_FLETCHER32,
                cdata: Vec::new(),
                name: String::from_str("fletcher32"),
            },
            Filter::SZip(coding, px) => RawFilter {
                id: FILTER_SZIP,
                cdata: vec![
                    match coding {
                        SZip::Entropy => 4,
                        SZip::NearestNeighbor => 32,
                    },
                    *px as u32,
                ],
                name: String::from_str("szip"),
            },
            Filter::NBit => RawFilter {
                id: FILTER_NBIT,
                cdata: Vec::new(),
                name: String::from_str("nbit"),
            },
            Filter::LZF => RawFilter {
                id: FILTER_LZF,
                cdata: vec![4, 0x0105, 0],
                name: String::from_str("lzf"),
            },
            Filter::Blosc(complib, clevel, shuffle) => RawFilter {
                id: FILTER_BLOSC,
                cdata: vec![
                    2,
                    2,
                    0,
                    0,
                    *clevel as u32,
                    match shuffle {
                        BloscShuffle::NoShuffle => 0,
                        BloscShuffle::Byte => 1,
                        BloscShuffle::Bit => 2,
                    },
                    match complib {
                        Blosc::BloscLZ => 0,
                        Blosc::LZ4 => 1,
                        Blosc::LZ4HC => 2,
                        Blosc::Snappy => 3,
                        Blosc::ZLib => 4,
                        Blosc::ZStd => 5,
                    },
                ],
                name: String::from_str("blosc"),
            },
            Filter::ScaleOffset(mode) => RawFilter {
                id: FILTER_SCALEOFFSET,
                cdata: match mode {
                    ScaleOffset::Integer(f) => vec![2, *f as u32],
                    ScaleOffset::FloatDScale(f) => vec![0, *f as u32],
                },
                name: String::from_str("scaleoffset"),
            },
            Filter::User(id, cdata) => RawFilter {
                id: *id as u16,
                cdata: copy_words(cdata.as_slice()),
                name: String::new(),
            },
        };
        assert(r@ =~= self@.raw());
        r
    }

    /// Checks that the filter can be applied when a dataset is written.
    pub fn validate_writable(&self) -> (r: Result<(), Error>)
        ensures
            same_unit(r, self@.writable()),
    {
        match self {
            Filter::Deflate(l) => if *l > 9 {
                Err(Error::new("deflate level must be <= 9"))
            } else {
                Ok(())
            },
            Filter::SZip(_, px) => if *px == 0 || *px % 2 == 1 || *px > 32 {
                Err(Error::new("szip pixels-per-block must be even and <= 32"))
            } else {
                Ok(())
            },
            Filter::User(id, cdata) => {
                let a = join("filter User(", signed_string(*id).as_str());
                let b = join(a.as_str(), ", [");
                let c = join(b.as_str(), list_text(cdata.as_slice()).as_str());
                Err(
                    Error::from_text(
                        join(c.as_str(), "]) is not supported by the pure-Rust engine"),
                    ),
                )
            },
            _ => Ok(()),
        }
    }
}

/// Whether the gzip/DEFLATE filter is available.
pub fn deflate_available() -> (r: bool)
    ensures
        r,
{
    true
}

/// Whether the SZip filter is available.
pub fn szip_available() -> (r: bool)
    ensures
        r,
{
    true
}

/// Whether the LZF filter is available.
pub fn lzf_available() -> (r: bool)
    ensures
        r,
{
    true
}

/// Whether the Blosc filter is available.
pub fn blosc_available() -> (r: bool)
    ensures
        r,
{
    true
}

/// The number of Blosc threads: one.
pub fn blosc_get_nthreads() -> (r: u8)
    ensures
        r == 1,
{
    1
}

/// Leaves the number of Blosc threads at one.
pub fn blosc_set_nthreads(_num_threads: u8) -> (r: u8)
    ensures
        r == 1,
{
    1
}

/// Whether the gzip/DEFLATE filter is available.
pub fn gzip_available() -> (r: bool)
    ensures
        r,
{
    deflate_available()
}

/// LZF is built in: there is nothing to register.
pub fn register_lzf() -> (r: Result<(), &'static str>)
    ensures
        r is Ok,
{
    Ok(())
}

/// Blosc is built in: there is nothing to register.
pub fn register_blosc() -> (r: Result<(), &'static str>)
    ensures
        r is Ok,
{
    Ok(())
}

} // verus!
