//! The superblock, and the table of shared-message indexes that it leads to.

use vstd::prelude::*;

use crate::error::Error;
use crate::format::gheap::{cursor_at, is_signature, rest_at};
use crate::format::object::{header_parsed, parse_object_header, Image, ImageView};
use crate::format::v2::{field, lemma_field_bound};
use crate::format::{le_at, taken_bytes, SIGNATURE, UNDEF};
use crate::text::{decimal, decimal_string, join, with_number};

verus! {

/// What the superblock says: the header of the root group, the address that all
/// others are relative to, and the superblock extension.
#[derive(Clone, Copy, Debug, PartialEq, Eq, Structural)]
pub struct Superblock {
    pub root: u64,
    pub base: u64,
    pub extension: u64,
}

/// The signature of a file.
pub open spec fn file_signature() -> Seq<u8> {
    seq![0x89u8, 0x48u8, 0x44u8, 0x46u8, 0x0du8, 0x0au8, 0x1au8, 0x0au8]
}

/// Where the superblock stands, looked for at `offset` and at each double of it.
pub open spec fn signature_at(data: Seq<u8>, offset: int) -> Option<int>
    decreases
            (if offset + 96 > data.len() {
                0
            } else {
                data.len() - offset + 1
            }),
{
    if offset < 0 || offset + 96 > data.len() {
        None
    } else if data.subrange(offset, offset + 8) == file_signature() {
        Some(offset)
    } else {
        signature_at(
            data,
            if offset == 0 {
                512
            } else {
                2 * offset
            },
        )
    }
}

/// The superblock that starts with `s`.
pub open spec fn superblock_parsed(s: Seq<u8>) -> Result<Superblock, Seq<char>> {
    let version = s[8];
    if version <= 1 {
        if s[13] != 8 || s[14] != 8 {
            Err(
                "unsupported offset/length sizes: "@ + decimal(s[13] as nat) + "/"@ + decimal(
                    s[14] as nat,
                ) + " (only 8/8 supported)"@,
            )
        } else {
            let p = if version == 1 {
                28int
            } else {
                24int
            };
            Ok(
                Superblock {
                    root: le_at(s, p + 40, 8) as u64,
                    base: le_at(s, p, 8) as u64,
                    extension: UNDEF,
                },
            )
        }
    } else if version <= 3 {
        if s[9] != 8 || s[10] != 8 {
            Err("unsupported offset/length sizes (only 8/8 supported)"@)
        } else {
            Ok(
                Superblock {
                    root: le_at(s, 36, 8) as u64,
                    base: le_at(s, 12, 8) as u64,
                    extension: le_at(s, 20, 8) as u64,
                },
            )
        }
    } else {
        Err("unsupported superblock version "@ + decimal(version as nat))
    }
}

/// The superblock of a file.
pub open spec fn superblock_of(data: Seq<u8>) -> Result<Superblock, Seq<char>> {
    match signature_at(data, 0) {
        None => Err("not an HDF5 file (superblock signature not found)"@),
        Some(p) => superblock_parsed(data.skip(p)),
    }
}

fn has_signature(data: &[u8], p: usize) -> (r: bool)
    requires
        p + 8 <= data@.len(),
    ensures
        r == (data@.subrange(p as int, p + 8) == file_signature()),
{
    let n: usize = data.len();
    let s = vstd::slice::slice_subrange(data, p, p + 8);
    let mut i: usize = 0;
    while i < 8
        invariant
            i <= 8,
            s@ == data@.subrange(p as int, p + 8),
            s@.len() == 8,
            forall|j: int| 0 <= j < i ==> s@[j] == file_signature()[j],
        decreases 8 - i,
    {
        if s[i] != SIGNATURE[i] {
            assert(s@[i as int] != file_signature()[i as int]);
            return false;
        }
        i += 1;
    }
    assert(s@ =~= file_signature());
    true
}

fn find_signature(data: &[u8]) -> (r: Option<usize>)
    ensures
        match (r, signature_at(data@, 0)) {
            (Some(i), Some(p)) => i == p && i + 96 <= data@.len(),
            (None, None) => true,
            _ => false,
        },
{
    let n: usize = data.len();
    let mut offset: usize = 0;
    loop
        invariant
            n == data@.len(),
            signature_at(data@, 0) == signature_at(data@, offset as int),
        decreases n + 512 - offset,
    {
        if n < 96 || offset > n - 96 {
            return None;
        }
        if has_signature(data, offset) {
            return Some(offset);
        }
        if offset == 0 {
            offset = 512;
        } else if offset > n / 2 {
            assert(signature_at(data@, 2 * offset) is None);
            return None;
        } else {
            offset = offset * 2;
        }
    }
}

/// Finds and reads the superblock, which may stand behind a user block.
pub fn find_superblock(data: &[u8]) -> (r: Result<Superblock, Error>)
    ensures
        match (r, superblock_of(data@)) {
            (Ok(a), Ok(b)) => a == b,
            (Err(e), Err(m)) => e@ == m,
            _ => false,
        },
{
    let n: usize = data.len();
    let offset: usize = match find_signature(data) {
        Some(p) => p,
        None => {
            return Err(Error::new("not an HDF5 file (superblock signature not found)"));
        },
    };
    let ghost p = offset as int;
    let s = vstd::slice::slice_subrange(data, offset, n);
    assert(s@ =~= data@.skip(p));
    let version: u8 = s[8];
    if version <= 1 {
        if s[13] != 8 || s[14] != 8 {
            let a = with_number("unsupported offset/length sizes: ", s[13] as u64);
            let b = join(a.as_str(), "/");
            let c = join(b.as_str(), decimal_string(s[14] as u64).as_str());
            return Err(Error::from_text(join(c.as_str(), " (only 8/8 supported)")));
        }
        let p: usize = if version == 1 {
            28
        } else {
            24
        };
        Ok(Superblock { root: field(s, p + 40, 8), base: field(s, p, 8), extension: UNDEF })
    } else if version <= 3 {
        if s[9] != 8 || s[10] != 8 {
            return Err(Error::new("unsupported offset/length sizes (only 8/8 supported)"));
        }
        Ok(
            Superblock {
                root: field(s, 36, 8),
                base: field(s, 12, 8),
                extension: field(s, 20, 8),
            },
        )
    } else {
        Err(Error::from_text(with_number("unsupported superblock version ", version as u64)))
    }
}

/// `n` entries of the table of shared-message indexes.
pub open spec fn indexes_taken(s: Seq<u8>, n: nat, acc: Seq<(u16, u64)>) -> Result<
    Seq<(u16, u64)>,
    Seq<char>,
>
    decreases n,
{
    if n == 0 {
        Ok(acc)
    } else {
        match taken_bytes(s, 30) {
            Err(e) => Err(e),
            Ok((b, r)) => indexes_taken(
                r,
                (n - 1) as nat,
                acc.push((le_at(b, 2, 2) as u16, le_at(b, 22, 8) as u64)),
            ),
        }
    }
}

/// The `n` shared-message indexes of the table at an address.
pub open spec fn indexes_at(data: Seq<u8>, base: u64, table: u64, n: u8) -> Result<
    Seq<(u16, u64)>,
    Seq<char>,
> {
    match taken_bytes(rest_at(data, base + table), 4) {
        Err(e) => Err(e),
        Ok((sig, r)) => if sig != seq![83u8, 77u8, 84u8, 66u8] {
            Err("bad SMTB signature"@)
        } else {
            indexes_taken(r, n as nat, Seq::empty())
        },
    }
}

/// The shared-message indexes that the superblock extension at `addr` names. An
/// extension that cannot be read names none.
pub open spec fn indexes_of(data: Seq<u8>, base: u64, addr: u64) -> Result<
    Seq<(u16, u64)>,
    Seq<char>,
> {
    match index_table(data, base, addr) {
        None => Ok(Seq::empty()),
        Some((table, n)) => if table == UNDEF || n == 0 {
            Ok(Seq::empty())
        } else {
            indexes_at(data, base, table, n)
        },
    }
}

/// An image without shared-message indexes, with nothing given beside it.
pub open spec fn plain_image(data: Seq<u8>, base: u64) -> ImageView {
    ImageView { data, base, sohm: Seq::empty(), given: Seq::empty() }
}

/// The table of shared-message indexes that the superblock extension at `addr` names,
/// and the number of its entries.
pub open spec fn index_table(data: Seq<u8>, base: u64, addr: u64) -> Option<(u64, u8)> {
    match header_parsed(plain_image(data, base), addr, data.len()) {
        Err(e) => None,
        Ok(h) => h.shmesg_table,
    }
}

fn find_index_table(img: &mut Image, addr: u64) -> (r: Option<(u64, u8)>)
    requires
        old(img).wf(),
        old(img).sohm@.len() == 0,
        old(img).given is None,
    ensures
        final(img).wf(),
        final(img)@ == old(img)@,
        r == index_table(old(img)@.data, old(img)@.base, addr),
{
    assert(img@.sohm =~= Seq::<(u16, u64)>::empty());
    assert(plain_image(img@.data, img@.base) == img@);
    let depth: usize = img.heap.data.len();
    match parse_object_header(img, addr, depth) {
        Err(_) => None,
        Ok(h) => h.shmesg_table,
    }
}

fn read_indexes(data: &[u8], base: u64, table: u64, n: u8) -> (r: Result<Vec<(u16, u64)>, Error>)
    ensures
        match (r, indexes_at(data@, base, table, n)) {
            (Ok(a), Ok(b)) => a@ == b,
            (Err(e), Err(m)) => e@ == m,
            _ => false,
        },
{
    let mut c = cursor_at(data, base, table);
    let sig = c.next_bytes(4)?;
    if !is_signature(sig, 83, 77, 84, 66) {
        return Err(Error::new("bad SMTB signature"));
    }
    let mut out: Vec<(u16, u64)> = Vec::new();
    let ghost whole = indexes_taken(c.rest(), n as nat, Seq::empty());
    let mut i: u8 = 0;
    while i < n
        invariant
            i <= n,
            whole == indexes_at(data@, base, table, n),
            whole == indexes_taken(c.rest(), (n - i) as nat, out@),
        decreases n - i,
    {
        let b = c.next_bytes(30)?;
        proof {
            lemma_field_bound(b@, 2, 2);
        }
        out.push((field(b, 2, 2) as u16, field(b, 22, 8)));
        i += 1;
    }
    Ok(out)
}

/// Reads the shared-message indexes that the superblock extension names.
pub fn load_sohm_table(img: &mut Image, ext_addr: u64) -> (r: Result<Vec<(u16, u64)>, Error>)
    requires
        old(img).wf(),
        old(img).sohm@.len() == 0,
        old(img).given is None,
    ensures
        final(img).wf(),
        final(img)@ == old(img)@,
        match (r, indexes_of(old(img)@.data, old(img)@.base, ext_addr)) {
            (Ok(a), Ok(b)) => a@ == b,
            (Err(e), Err(m)) => e@ == m,
            _ => false,
        },
{
    match find_index_table(img, ext_addr) {
        None => Ok(Vec::new()),
        Some((table, n)) => {
            if table == UNDEF || n == 0 {
                return Ok(Vec::new());
            }
            read_indexes(img.heap.data, img.heap.base, table, n)
        },
    }
}

} // verus!
