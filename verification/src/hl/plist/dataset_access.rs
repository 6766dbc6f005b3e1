//! The settings for the access to datasets.

use vstd::prelude::*;

use crate::hl::plist::file_access::{cache_plain, ChunkCache};

verus! {

/// What a virtual dataset shows where elements are missing.
#[derive(Clone, Copy, Debug, PartialEq, Eq, Structural)]
pub enum VirtualView {
    FirstMissing,
    LastAvailable,
}

impl Default for VirtualView {
    fn default() -> (r: Self)
        ensures
            r == VirtualView::FirstMissing,
    {
        VirtualView::FirstMissing
    }
}

/// The settings.
#[derive(Debug)]
pub struct DatasetAccessData {
    pub chunk_cache: ChunkCache,
    pub efile_prefix: String,
    pub virtual_view: VirtualView,
    pub virtual_printf_gap: usize,
}

impl DatasetAccessData {
    /// Whether these are the default settings.
    pub open spec fn plain(self) -> bool {
        &&& self.chunk_cache == cache_plain()
        &&& self.efile_prefix@ == ""@
        &&& self.virtual_view == VirtualView::FirstMissing
        &&& self.virtual_printf_gap == 0
    }

    /// Whether other settings are the same.
    pub open spec fn same(self, other: DatasetAccessData) -> bool {
        &&& other == (DatasetAccessData { efile_prefix: other.efile_prefix, ..self })
        &&& self.efile_prefix@ == other.efile_prefix@
    }
}

impl Default for DatasetAccessData {
    fn default() -> (r: Self)
        ensures
            r.plain(),
    {
        DatasetAccessData {
            chunk_cache: ChunkCache::default(),
            efile_prefix: String::from_str(""),
            virtual_view: VirtualView::FirstMissing,
            virtual_printf_gap: 0,
        }
    }
}

impl Clone for DatasetAccessData {
    fn clone(&self) -> (r: Self)
        ensures
            self.same(r),
    {
        DatasetAccessData {
            chunk_cache: self.chunk_cache,
            efile_prefix: self.efile_prefix.clone(),
            virtual_view: self.virtual_view,
            virtual_printf_gap: self.virtual_printf_gap,
        }
    }
}

/// A property list for the access to datasets.
#[derive(Debug)]
pub struct DatasetAccess {
    pub data: DatasetAccessData,
}

impl DatasetAccess {
    pub fn try_new() -> (r: Self)
        ensures
            r.data.plain(),
    {
        DatasetAccess { data: DatasetAccessData::default() }
    }

    pub fn build() -> (r: DatasetAccessBuilder)
        ensures
            r.data.plain(),
    {
        DatasetAccessBuilder::new()
    }

    pub fn copy(&self) -> (r: Self)
        ensures
            self.data.same(r.data),
    {
        DatasetAccess { data: self.data.clone() }
    }

    pub fn chunk_cache(&self) -> (r: ChunkCache)
        ensures
            r == self.data.chunk_cache,
    {
        self.data.chunk_cache
    }

    pub fn efile_prefix(&self) -> (r: String)
        ensures
            r@ == self.data.efile_prefix@,
    {
        self.data.efile_prefix.clone()
    }

    pub fn virtual_view(&self) -> (r: VirtualView)
        ensures
            r == self.data.virtual_view,
    {
        self.data.virtual_view
    }

    pub fn virtual_printf_gap(&self) -> (r: usize)
        ensures
            r == self.data.virtual_printf_gap,
    {
        self.data.virtual_printf_gap
    }
}

/// A builder of property lists for the access to datasets.
#[derive(Debug)]
pub struct DatasetAccessBuilder {
    pub data: DatasetAccessData,
}

impl DatasetAccessBuilder {
    /// With the default settings.
    pub fn new() -> (r: Self)
        ensures
            r.data.plain(),
    {
        DatasetAccessBuilder { data: DatasetAccessData::default() }
    }

    /// Sets the chunk cache; `w0` are the bits of the preemption policy.
    pub fn chunk_cache(&mut self, nslots: usize, nbytes: usize, w0: u64) -> (r: &mut Self)
        ensures
            r.data == (DatasetAccessData { chunk_cache: ChunkCache { nslots, nbytes, w0 }, ..old(self).data }),
            *final(self) == *final(r),
    {
        self.data.chunk_cache = ChunkCache { nslots, nbytes, w0 };
        self
    }

    pub fn efile_prefix(&mut self, prefix: &str) -> (r: &mut Self)
        ensures
            r.data == (DatasetAccessData { efile_prefix: r.data.efile_prefix, ..old(self).data }),
            r.data.efile_prefix@ == prefix@,
            *final(self) == *final(r),
    {
        self.data.efile_prefix = String::from_str(prefix);
        self
    }

    pub fn virtual_view(&mut self, view: VirtualView) -> (r: &mut Self)
        ensures
            r.data == (DatasetAccessData { virtual_view: view, ..old(self).data }),
            *final(self) == *final(r),
    {
        self.data.virtual_view = view;
        self
    }

    pub fn virtual_printf_gap(&mut self, gap_size: usize) -> (r: &mut Self)
        ensures
            r.data == (DatasetAccessData { virtual_printf_gap: gap_size, ..old(self).data }),
            *final(self) == *final(r),
    {
        self.data.virtual_printf_gap = gap_size;
        self
    }

    pub fn from_plist(plist: &DatasetAccess) -> (r: Self)
        ensures
            plist.data.same(r.data),
    {
        DatasetAccessBuilder { data: plist.data.clone() }
    }

    pub fn apply(&self, plist: &mut DatasetAccess)
        ensures
            self.data.same(final(plist).data),
    {
        plist.data = self.data.clone();
    }

    pub fn finish(&self) -> (r: DatasetAccess)
        ensures
            self.data.same(r.data),
    {
        DatasetAccess { data: self.data.clone() }
    }
}

} // verus!
