//! The settings for the creation of files.

use vstd::prelude::*;

use crate::hl::plist::common::{AttrCreationOrder, AttrPhaseChange};

verus! {

/// The widths of addresses and sizes in a file.
#[derive(Clone, Copy, Debug, PartialEq, Eq, Structural)]
pub struct SizeofInfo {
    pub sizeof_addr: usize,
    pub sizeof_size: usize,
}

impl Default for SizeofInfo {
    fn default() -> (r: Self)
        ensures
            r == (SizeofInfo { sizeof_addr: 8, sizeof_size: 8 }),
    {
        SizeofInfo { sizeof_addr: 8, sizeof_size: 8 }
    }
}

/// The sizes of symbol tables.
#[derive(Clone, Copy, Debug, PartialEq, Eq, Structural)]
pub struct SymbolTableInfo {
    pub tree_rank: u32,
    pub node_size: u32,
}

impl Default for SymbolTableInfo {
    fn default() -> (r: Self)
        ensures
            r == (SymbolTableInfo { tree_rank: 16, node_size: 4 }),
    {
        SymbolTableInfo { tree_rank: 16, node_size: 4 }
    }
}

/// When shared messages go from a list to an index and back.
#[derive(Clone, Copy, Debug, PartialEq, Eq, Structural)]
pub struct PhaseChangeInfo {
    pub max_list: u32,
    pub min_btree: u32,
}

impl Default for PhaseChangeInfo {
    fn default() -> (r: Self)
        ensures
            r == (PhaseChangeInfo { max_list: 0, min_btree: 0 }),
    {
        PhaseChangeInfo { max_list: 0, min_btree: 0 }
    }
}

/// The types of messages that can be shared: one bit for each, by its number.
#[derive(Clone, Copy, Debug, PartialEq, Eq, Structural)]
pub struct SharedMessageType {
    pub bits: u32,
}

impl SharedMessageType {
    pub fn none() -> (r: Self)
        ensures
            r.bits == 0,
    {
        SharedMessageType { bits: 0 }
    }

    pub fn simple_dataspace() -> (r: Self)
        ensures
            r.bits == 0x2,
    {
        SharedMessageType { bits: 0x2 }
    }

    pub fn datatype() -> (r: Self)
        ensures
            r.bits == 0x8,
    {
        SharedMessageType { bits: 0x8 }
    }

    pub fn fill_value() -> (r: Self)
        ensures
            r.bits == 0x20,
    {
        SharedMessageType { bits: 0x20 }
    }

    pub fn filter_pipeline() -> (r: Self)
        ensures
            r.bits == 0x800,
    {
        SharedMessageType { bits: 0x800 }
    }

    pub fn attribute() -> (r: Self)
        ensures
            r.bits == 0x1000,
    {
        SharedMessageType { bits: 0x1000 }
    }

    /// All of these types.
    pub fn all() -> (r: Self)
        ensures
            r.bits == 0x182a,
    {
        SharedMessageType { bits: 0x182a }
    }
}

/// An index of shared messages.
#[derive(Clone, Copy, Debug, PartialEq, Eq, Structural)]
pub struct SharedMessageIndex {
    pub message_types: SharedMessageType,
    pub min_message_size: u32,
}

/// How the space of a file is managed.
#[derive(Clone, Copy, Debug, PartialEq, Eq, Structural)]
pub enum FileSpaceStrategy {
    FreeSpaceManager { paged: bool, persist: bool, threshold: u64 },
    PageAggregation,
    Unmanaged,
}

impl Default for FileSpaceStrategy {
    fn default() -> (r: Self)
        ensures
            r == (FileSpaceStrategy::FreeSpaceManager {
                paged: false,
                persist: false,
                threshold: 1,
            }),
    {
        FileSpaceStrategy::FreeSpaceManager { paged: false, persist: false, threshold: 1 }
    }
}

/// The settings.
#[derive(Debug)]
pub struct FileCreateData {
    pub userblock: u64,
    pub sym_k: SymbolTableInfo,
    pub istore_k: u32,
    pub shared_mesg_phase_change: PhaseChangeInfo,
    pub shared_mesg_indexes: Vec<SharedMessageIndex>,
    pub obj_track_times: bool,
    pub attr_phase_change: AttrPhaseChange,
    pub attr_creation_order: AttrCreationOrder,
    pub file_space_page_size: u64,
    pub file_space_strategy: FileSpaceStrategy,
}

impl FileCreateData {
    /// Whether these are the default settings.
    pub open spec fn plain(self) -> bool {
        &&& self.userblock == 0
        &&& self.sym_k == SymbolTableInfo { tree_rank: 16, node_size: 4 }
        &&& self.istore_k == 32
        &&& self.shared_mesg_phase_change == PhaseChangeInfo { max_list: 0, min_btree: 0 }
        &&& self.shared_mesg_indexes@.len() == 0
        &&& self.obj_track_times
        &&& self.attr_phase_change == AttrPhaseChange { max_compact: 8, min_dense: 6 }
        &&& self.attr_creation_order.bits == 0
        &&& self.file_space_page_size == 4096
        &&& self.file_space_strategy == FileSpaceStrategy::FreeSpaceManager {
            paged: false,
            persist: false,
            threshold: 1,
        }
    }

    /// Whether other settings are the same, list by list.
    pub open spec fn same(self, other: FileCreateData) -> bool {
        other == (FileCreateData { shared_mesg_indexes: other.shared_mesg_indexes, ..self })
            && self.shared_mesg_indexes@ == other.shared_mesg_indexes@
    }
}

impl Default for FileCreateData {
    fn default() -> (r: Self)
        ensures
            r.plain(),
    {
        FileCreateData {
            userblock: 0,
            sym_k: SymbolTableInfo::default(),
            istore_k: 32,
            shared_mesg_phase_change: PhaseChangeInfo::default(),
            shared_mesg_indexes: Vec::new(),
            obj_track_times: true,
            attr_phase_change: AttrPhaseChange::default(),
            attr_creation_order: AttrCreationOrder::default(),
            file_space_page_size: 4096,
            file_space_strategy: FileSpaceStrategy::default(),
        }
    }
}

impl Clone for FileCreateData {
    fn clone(&self) -> (r: Self)
        ensures
            self.same(r),
    {
        FileCreateData {
            userblock: self.userblock,
            sym_k: self.sym_k,
            istore_k: self.istore_k,
            shared_mesg_phase_change: self.shared_mesg_phase_change,
            shared_mesg_indexes: vstd::slice::slice_to_vec(self.shared_mesg_indexes.as_slice()),
            obj_track_times: self.obj_track_times,
            attr_phase_change: self.attr_phase_change,
            attr_creation_order: self.attr_creation_order,
            file_space_page_size: self.file_space_page_size,
            file_space_strategy: self.file_space_strategy,
        }
    }
}

/// A property list for the creation of files.
#[derive(Debug)]
pub struct FileCreate {
    pub data: FileCreateData,
}

impl FileCreate {
    pub fn try_new() -> (r: Self)
        ensures
            r.data.plain(),
    {
        FileCreate { data: FileCreateData::default() }
    }

    pub fn build() -> (r: FileCreateBuilder)
        ensures
            r.data.plain(),
    {
        FileCreateBuilder::new()
    }

    pub fn copy(&self) -> (r: Self)
        ensures
            self.data.same(r.data),
    {
        FileCreate { data: self.data.clone() }
    }

    /// The widths of addresses and sizes, which are always the same.
    pub fn sizes(&self) -> (r: SizeofInfo)
        ensures
            r == (SizeofInfo { sizeof_addr: 8, sizeof_size: 8 }),
    {
        SizeofInfo::default()
    }

    pub fn shared_mesg_indexes(&self) -> (r: Vec<SharedMessageIndex>)
        ensures
            r@ == self.data.shared_mesg_indexes@,
    {
        vstd::slice::slice_to_vec(self.data.shared_mesg_indexes.as_slice())
    }

    pub fn userblock(&self) -> (r: u64)
        ensures
            r == self.data.userblock,
    {
        self.data.userblock
    }

    pub fn sym_k(&self) -> (r: SymbolTableInfo)
        ensures
            r == self.data.sym_k,
    {
        self.data.sym_k
    }

    pub fn istore_k(&self) -> (r: u32)
        ensures
            r == self.data.istore_k,
    {
        self.data.istore_k
    }

    pub fn shared_mesg_phase_change(&self) -> (r: PhaseChangeInfo)
        ensures
            r == self.data.shared_mesg_phase_change,
    {
        self.data.shared_mesg_phase_change
    }

    pub fn obj_track_times(&self) -> (r: bool)
        ensures
            r == self.data.obj_track_times,
    {
        self.data.obj_track_times
    }

    pub fn attr_phase_change(&self) -> (r: AttrPhaseChange)
        ensures
            r == self.data.attr_phase_change,
    {
        self.data.attr_phase_change
    }

    pub fn attr_creation_order(&self) -> (r: AttrCreationOrder)
        ensures
            r == self.data.attr_creation_order,
    {
        self.data.attr_creation_order
    }

    pub fn file_space_page_size(&self) -> (r: u64)
        ensures
            r == self.data.file_space_page_size,
    {
        self.data.file_space_page_size
    }

    pub fn file_space_strategy(&self) -> (r: FileSpaceStrategy)
        ensures
            r == self.data.file_space_strategy,
    {
        self.data.file_space_strategy
    }
}

/// A builder of property lists for the creation of files.
#[derive(Debug)]
pub struct FileCreateBuilder {
    pub data: FileCreateData,
}

impl FileCreateBuilder {
    /// With the default settings.
    pub fn new() -> (r: Self)
        ensures
            r.data.plain(),
    {
        FileCreateBuilder { data: FileCreateData::default() }
    }

    pub fn userblock(&mut self, size: u64) -> (r: &mut Self)
        ensures
            r.data == (FileCreateData { userblock: size, ..old(self).data }),
            *final(self) == *final(r),
    {
        self.data.userblock = size;
        self
    }

    pub fn sym_k(&mut self, tree_rank: u32, node_size: u32) -> (r: &mut Self)
        ensures
            r.data == (FileCreateData { sym_k: SymbolTableInfo { tree_rank, node_size }, ..old(self).data }),
            *final(self) == *final(r),
    {
        self.data.sym_k = SymbolTableInfo { tree_rank, node_size };
        self
    }

    pub fn istore_k(&mut self, ik: u32) -> (r: &mut Self)
        ensures
            r.data == (FileCreateData { istore_k: ik, ..old(self).data }),
            *final(self) == *final(r),
    {
        self.data.istore_k = ik;
        self
    }

    pub fn shared_mesg_phase_change(&mut self, max_list: u32, min_btree: u32) -> (r: &mut Self)
        ensures
            r.data == (FileCreateData { shared_mesg_phase_change: PhaseChangeInfo { max_list, min_btree }, ..old(self).data }),
            *final(self) == *final(r),
    {
        self.data.shared_mesg_phase_change = PhaseChangeInfo { max_list, min_btree };
        self
    }

    pub fn shared_mesg_indexes(&mut self, indexes: &[SharedMessageIndex]) -> (r: &mut Self)
        ensures
            r.data == (FileCreateData { shared_mesg_indexes: r.data.shared_mesg_indexes, ..old(self).data }),
            r.data.shared_mesg_indexes@ == indexes@,
            *final(self) == *final(r),
    {
        self.data.shared_mesg_indexes = vstd::slice::slice_to_vec(indexes);
        self
    }

    pub fn obj_track_times(&mut self, track_times: bool) -> (r: &mut Self)
        ensures
            r.data == (FileCreateData { obj_track_times: track_times, ..old(self).data }),
            *final(self) == *final(r),
    {
        self.data.obj_track_times = track_times;
        self
    }

    pub fn attr_phase_change(&mut self, max_compact: u32, min_dense: u32) -> (r: &mut Self)
        ensures
            r.data == (FileCreateData { attr_phase_change: AttrPhaseChange { max_compact, min_dense }, ..old(self).data }),
            *final(self) == *final(r),
    {
        self.data.attr_phase_change = AttrPhaseChange { max_compact, min_dense };
        self
    }

    pub fn attr_creation_order(&mut self, attr_creation_order: AttrCreationOrder) -> (r: &mut Self)
        ensures
            r.data == (FileCreateData { attr_creation_order: attr_creation_order, ..old(self).data }),
            *final(self) == *final(r),
    {
        self.data.attr_creation_order = attr_creation_order;
        self
    }

    pub fn file_space_page_size(&mut self, page_size: u64) -> (r: &mut Self)
        ensures
            r.data == (FileCreateData { file_space_page_size: page_size, ..old(self).data }),
            *final(self) == *final(r),
    {
        self.data.file_space_page_size = page_size;
        self
    }

    pub fn file_space_strategy(&mut self, strategy: FileSpaceStrategy) -> (r: &mut Self)
        ensures
            r.data == (FileCreateData { file_space_strategy: strategy, ..old(self).data }),
            *final(self) == *final(r),
    {
        self.data.file_space_strategy = strategy;
        self
    }

    pub fn from_plist(plist: &FileCreate) -> (r: Self)
        ensures
            plist.data.same(r.data),
    {
        FileCreateBuilder { data: plist.data.clone() }
    }

    pub fn apply(&self, plist: &mut FileCreate)
        ensures
            self.data.same(final(plist).data),
    {
        plist.data = self.data.clone();
    }

    pub fn finish(&self) -> (r: FileCreate)
        ensures
            self.data.same(r.data),
    {
        FileCreate { data: self.data.clone() }
    }

}

} // verus!
