//! The settings for the access to files.

use vstd::prelude::*;

verus! {

/// What closing a file does to the objects that are open in it.
#[derive(Clone, Copy, Debug, PartialEq, Eq, Structural)]
pub enum FileCloseDegree {
    Default,
    Weak,
    Semi,
    Strong,
}

/// The settings of a file in memory.
#[derive(Clone, Copy, Debug, PartialEq, Eq, Structural)]
pub struct CoreDriver {
    pub increment: usize,
    pub filebacked: bool,
    pub write_tracking: usize,
}

/// The default settings of a file in memory.
pub open spec fn core_plain() -> CoreDriver {
    CoreDriver { increment: 0x10_0000, filebacked: false, write_tracking: 0 }
}

impl Default for CoreDriver {
    fn default() -> (r: Self)
        ensures
            r == core_plain(),
    {
        CoreDriver { increment: 0x10_0000, filebacked: false, write_tracking: 0 }
    }
}

/// The settings of a file in members of the same size.
#[derive(Clone, Copy, Debug, PartialEq, Eq, Structural)]
pub struct FamilyDriver {
    pub member_size: usize,
}

impl Default for FamilyDriver {
    fn default() -> (r: Self)
        ensures
            r.member_size == 0,
    {
        FamilyDriver { member_size: 0 }
    }
}

/// The settings of a file with its data beside it.
#[derive(Debug)]
pub struct SplitDriver {
    pub meta_ext: String,
    pub raw_ext: String,
}

impl Default for SplitDriver {
    fn default() -> (r: Self)
        ensures
            r.meta_ext@ == "-m.h5"@,
            r.raw_ext@ == "-r.h5"@,
    {
        SplitDriver { meta_ext: String::from_str("-m.h5"), raw_ext: String::from_str("-r.h5") }
    }
}

/// How a file is stored.
#[derive(Debug)]
pub enum FileDriver {
    Sec2,
    Stdio,
    Core(CoreDriver),
    Family(FamilyDriver),
    Split(SplitDriver),
    Log,
}

/// The view of a [`FileDriver`].
pub enum DriverView {
    Sec2,
    Stdio,
    Core(CoreDriver),
    Family(FamilyDriver),
    Split(Seq<char>, Seq<char>),
    Log,
}

impl View for FileDriver {
    type V = DriverView;

    open spec fn view(&self) -> DriverView {
        match *self {
            FileDriver::Sec2 => DriverView::Sec2,
            FileDriver::Stdio => DriverView::Stdio,
            FileDriver::Core(c) => DriverView::Core(c),
            FileDriver::Family(c) => DriverView::Family(c),
            FileDriver::Split(c) => DriverView::Split(c.meta_ext@, c.raw_ext@),
            FileDriver::Log => DriverView::Log,
        }
    }
}

impl Clone for FileDriver {
    fn clone(&self) -> (r: Self)
        ensures
            r@ == self@,
    {
        match self {
            FileDriver::Sec2 => FileDriver::Sec2,
            FileDriver::Stdio => FileDriver::Stdio,
            FileDriver::Core(c) => FileDriver::Core(*c),
            FileDriver::Family(c) => FileDriver::Family(*c),
            FileDriver::Split(c) => FileDriver::Split(
                SplitDriver { meta_ext: c.meta_ext.clone(), raw_ext: c.raw_ext.clone() },
            ),
            FileDriver::Log => FileDriver::Log,
        }
    }
}

/// The cache of raw data chunks.
#[derive(Clone, Copy, Debug, PartialEq, Eq, Structural)]
pub struct ChunkCache {
    pub nslots: usize,
    pub nbytes: usize,
    /// The bits of the preemption policy, a floating-point number.
    pub w0: u64,
}

/// The default cache, with a preemption policy of three quarters.
pub open spec fn cache_plain() -> ChunkCache {
    ChunkCache { nslots: 521, nbytes: 0x10_0000, w0: 0x3fe8_0000_0000_0000 }
}

impl Default for ChunkCache {
    fn default() -> (r: Self)
        ensures
            r == cache_plain(),
    {
        ChunkCache { nslots: 521, nbytes: 0x10_0000, w0: 0x3fe8_0000_0000_0000 }
    }
}

/// A version of the file format.
#[derive(Clone, Copy, Debug, PartialEq, Eq, Structural)]
pub enum LibraryVersion {
    Earliest,
    V18,
    V110,
    V112,
    V114,
}

impl LibraryVersion {
    pub fn is_earliest(self) -> (r: bool)
        ensures
            r == (self is Earliest),
    {
        matches!(self, LibraryVersion::Earliest)
    }
}

/// The alignment of objects in a file.
#[derive(Clone, Copy, Debug, PartialEq, Eq, Structural)]
pub struct Alignment {
    pub threshold: u64,
    pub alignment: u64,
}

impl Default for Alignment {
    fn default() -> (r: Self)
        ensures
            r == (Alignment { threshold: 1, alignment: 1 }),
    {
        Alignment { threshold: 1, alignment: 1 }
    }
}

/// The versions between which objects are written.
#[derive(Clone, Copy, Debug, PartialEq, Eq, Structural)]
pub struct LibVerBounds {
    pub low: LibraryVersion,
    pub high: LibraryVersion,
}

impl Default for LibVerBounds {
    fn default() -> (r: Self)
        ensures
            r == (LibVerBounds { low: LibraryVersion::Earliest, high: LibraryVersion::Earliest }),
    {
        LibVerBounds { low: LibraryVersion::Earliest, high: LibraryVersion::Earliest }
    }
}

/// How a metadata cache grows.
#[derive(Clone, Copy, Debug, PartialEq, Eq, Structural)]
pub enum CacheIncreaseMode {
    Off,
    Threshold,
}

/// How a metadata cache grows for large entries.
#[derive(Clone, Copy, Debug, PartialEq, Eq, Structural)]
pub enum FlashIncreaseMode {
    Off,
    AddSpace,
}

/// How a metadata cache shrinks.
#[derive(Clone, Copy, Debug, PartialEq, Eq, Structural)]
pub enum CacheDecreaseMode {
    Off,
    Threshold,
    AgeOut,
    AgeOutWithThreshold,
}

/// Which processes write metadata.
#[derive(Clone, Copy, Debug, PartialEq, Eq, Structural)]
pub enum MetadataWriteStrategy {
    ProcessZeroOnly,
    Distributed,
}

/// The image of a metadata cache.
#[derive(Clone, Copy, Debug, PartialEq, Eq, Structural)]
pub struct CacheImageConfig {
    pub generate_image: bool,
    pub save_resize_status: bool,
    pub entry_ageout: i32,
}

/// The log of a metadata cache.
#[derive(Debug)]
pub struct CacheLogOptions {
    pub is_enabled: bool,
    pub location: String,
    pub start_on_access: bool,
}

impl Clone for CacheLogOptions {
    fn clone(&self) -> (r: Self)
        ensures
            r.same(*self),
    {
        CacheLogOptions {
            is_enabled: self.is_enabled,
            location: self.location.clone(),
            start_on_access: self.start_on_access,
        }
    }
}

impl CacheLogOptions {
    /// Whether options are the same.
    pub open spec fn same(self, other: Self) -> bool {
        self.is_enabled == other.is_enabled && self.location@ == other.location@
            && self.start_on_access == other.start_on_access
    }
}

/// The size of a page buffer.
#[derive(Clone, Copy, Debug, PartialEq, Eq, Structural)]
pub struct PageBufferSize {
    pub buf_size: usize,
    pub min_meta_perc: u32,
    pub min_raw_perc: u32,
}

/// Which member of a set of files holds what.
#[derive(Clone, Copy, Debug, PartialEq, Eq, Structural)]
pub struct MultiLayout {
    pub mem_super: u8,
    pub mem_btree: u8,
    pub mem_draw: u8,
    pub mem_gheap: u8,
    pub mem_lheap: u8,
    pub mem_object: u8,
}

/// A member of a set of files.
#[derive(Debug)]
pub struct MultiFile {
    pub name: String,
    pub addr: u64,
}

/// The settings of a set of files.
#[derive(Debug)]
pub struct MultiDriver {
    pub files: Vec<MultiFile>,
    pub layout: MultiLayout,
    pub relax: bool,
}

/// The settings of unbuffered access.
#[derive(Clone, Copy, Debug, PartialEq, Eq, Structural)]
pub struct DirectDriver {
    pub alignment: usize,
    pub block_size: usize,
    pub cbuf_size: usize,
}

/// What a log of accesses holds: one bit for each kind of entry.
#[derive(Clone, Copy, Debug, PartialEq, Eq, Structural)]
pub struct LogFlags {
    pub bits: u64,
}

/// The settings of a log of accesses.
#[derive(Debug)]
pub struct LogOptions {
    pub logfile: Option<String>,
    pub flags: LogFlags,
    pub buf_size: usize,
}

/// Access by several processes.
#[derive(Clone, Copy, Debug, PartialEq, Eq, Structural)]
pub struct MpioDriver;

/// The settings.
#[derive(Debug)]
pub struct FileAccessData {
    pub driver: FileDriver,
    pub evict_on_close: bool,
    pub write_tracking: usize,
    pub metadata_read_attempts: u32,
    pub mdc_image_config: CacheImageConfig,
    pub mdc_log_options: CacheLogOptions,
    pub page_buffer_size: PageBufferSize,
    pub elink_file_cache_size: u32,
    pub all_coll_metadata_ops: bool,
    pub coll_metadata_write: bool,
    pub fclose_degree: FileCloseDegree,
    pub alignment: Alignment,
    pub chunk_cache: ChunkCache,
    pub meta_block_size: u64,
    pub sieve_buf_size: usize,
    pub gc_references: bool,
    pub small_data_block_size: u64,
    pub libver_bounds: LibVerBounds,
}

impl FileAccessData {
    /// Whether these are the default settings.
    pub open spec fn plain(self) -> bool {
        &&& self.driver@ is Sec2
        &&& !self.mdc_log_options.is_enabled
        &&& self.mdc_log_options.location@ == ""@
        &&& !self.mdc_log_options.start_on_access
        &&& self.evict_on_close == false
        &&& self.write_tracking == 0
        &&& self.metadata_read_attempts == 1
        &&& self.mdc_image_config == CacheImageConfig { generate_image: false, save_resize_status: false, entry_ageout: 0 }
        &&& self.page_buffer_size == PageBufferSize { buf_size: 0, min_meta_perc: 0, min_raw_perc: 0 }
        &&& self.elink_file_cache_size == 0
        &&& self.all_coll_metadata_ops == false
        &&& self.coll_metadata_write == false
        &&& self.fclose_degree == FileCloseDegree::Default
        &&& self.alignment == Alignment { threshold: 1, alignment: 1 }
        &&& self.chunk_cache == cache_plain()
        &&& self.meta_block_size == 2048
        &&& self.sieve_buf_size == 0x1_0000
        &&& self.gc_references == false
        &&& self.small_data_block_size == 2048
        &&& self.libver_bounds == LibVerBounds { low: LibraryVersion::Earliest, high: LibraryVersion::Earliest }
    }

    /// Whether other settings are the same.
    pub open spec fn same(self, other: FileAccessData) -> bool {
        &&& other == (FileAccessData {
            driver: other.driver,
            mdc_log_options: other.mdc_log_options,
            ..self
        })
        &&& self.driver@ == other.driver@
        &&& other.mdc_log_options.same(self.mdc_log_options)
    }
}

impl Default for FileAccessData {
    fn default() -> (r: Self)
        ensures
            r.plain(),
    {
        FileAccessData {
            driver: FileDriver::Sec2,
            mdc_log_options: CacheLogOptions {
                is_enabled: false,
                location: String::from_str(""),
                start_on_access: false,
            },
            evict_on_close: false,
            write_tracking: 0,
            metadata_read_attempts: 1,
            mdc_image_config: CacheImageConfig { generate_image: false, save_resize_status: false, entry_ageout: 0 },
            page_buffer_size: PageBufferSize { buf_size: 0, min_meta_perc: 0, min_raw_perc: 0 },
            elink_file_cache_size: 0,
            all_coll_metadata_ops: false,
            coll_metadata_write: false,
            fclose_degree: FileCloseDegree::Default,
            alignment: Alignment { threshold: 1, alignment: 1 },
            chunk_cache: ChunkCache::default(),
            meta_block_size: 2048,
            sieve_buf_size: 0x1_0000,
            gc_references: false,
            small_data_block_size: 2048,
            libver_bounds: LibVerBounds { low: LibraryVersion::Earliest, high: LibraryVersion::Earliest },
        }
    }
}

impl Clone for FileAccessData {
    fn clone(&self) -> (r: Self)
        ensures
            self.same(r),
    {
        FileAccessData {
            driver: self.driver.clone(),
            mdc_log_options: self.mdc_log_options.clone(),
            evict_on_close: self.evict_on_close,
            write_tracking: self.write_tracking,
            metadata_read_attempts: self.metadata_read_attempts,
            mdc_image_config: self.mdc_image_config,
            page_buffer_size: self.page_buffer_size,
            elink_file_cache_size: self.elink_file_cache_size,
            all_coll_metadata_ops: self.all_coll_metadata_ops,
            coll_metadata_write: self.coll_metadata_write,
            fclose_degree: self.fclose_degree,
            alignment: self.alignment,
            chunk_cache: self.chunk_cache,
            meta_block_size: self.meta_block_size,
            sieve_buf_size: self.sieve_buf_size,
            gc_references: self.gc_references,
            small_data_block_size: self.small_data_block_size,
            libver_bounds: self.libver_bounds,
        }
    }
}

/// A property list for the access to files.
#[derive(Debug)]
pub struct FileAccess {
    pub data: FileAccessData,
}

impl FileAccess {
    pub fn try_new() -> (r: Self)
        ensures
            r.data.plain(),
    {
        FileAccess { data: FileAccessData::default() }
    }

    pub fn build() -> (r: FileAccessBuilder)
        ensures
            r.data.plain(),
    {
        FileAccessBuilder::new()
    }

    pub fn copy(&self) -> (r: Self)
        ensures
            self.data.same(r.data),
    {
        FileAccess { data: self.data.clone() }
    }

    pub fn driver(&self) -> (r: FileDriver)
        ensures
            r@ == self.data.driver@,
    {
        self.data.driver.clone()
    }

    pub fn mdc_log_options(&self) -> (r: CacheLogOptions)
        ensures
            r.same(self.data.mdc_log_options),
    {
        self.data.mdc_log_options.clone()
    }

    pub fn evict_on_close(&self) -> (r: bool)
        ensures
            r == self.data.evict_on_close,
    {
        self.data.evict_on_close
    }

    pub fn write_tracking(&self) -> (r: usize)
        ensures
            r == self.data.write_tracking,
    {
        self.data.write_tracking
    }

    pub fn metadata_read_attempts(&self) -> (r: u32)
        ensures
            r == self.data.metadata_read_attempts,
    {
        self.data.metadata_read_attempts
    }

    pub fn mdc_image_config(&self) -> (r: CacheImageConfig)
        ensures
            r == self.data.mdc_image_config,
    {
        self.data.mdc_image_config
    }

    pub fn page_buffer_size(&self) -> (r: PageBufferSize)
        ensures
            r == self.data.page_buffer_size,
    {
        self.data.page_buffer_size
    }

    pub fn elink_file_cache_size(&self) -> (r: u32)
        ensures
            r == self.data.elink_file_cache_size,
    {
        self.data.elink_file_cache_size
    }

    pub fn all_coll_metadata_ops(&self) -> (r: bool)
        ensures
            r == self.data.all_coll_metadata_ops,
    {
        self.data.all_coll_metadata_ops
    }

    pub fn coll_metadata_write(&self) -> (r: bool)
        ensures
            r == self.data.coll_metadata_write,
    {
        self.data.coll_metadata_write
    }

    pub fn fclose_degree(&self) -> (r: FileCloseDegree)
        ensures
            r == self.data.fclose_degree,
    {
        self.data.fclose_degree
    }

    pub fn alignment(&self) -> (r: Alignment)
        ensures
            r == self.data.alignment,
    {
        self.data.alignment
    }

    pub fn chunk_cache(&self) -> (r: ChunkCache)
        ensures
            r == self.data.chunk_cache,
    {
        self.data.chunk_cache
    }

    pub fn meta_block_size(&self) -> (r: u64)
        ensures
            r == self.data.meta_block_size,
    {
        self.data.meta_block_size
    }

    pub fn sieve_buf_size(&self) -> (r: usize)
        ensures
            r == self.data.sieve_buf_size,
    {
        self.data.sieve_buf_size
    }

    pub fn gc_references(&self) -> (r: bool)
        ensures
            r == self.data.gc_references,
    {
        self.data.gc_references
    }

    pub fn small_data_block_size(&self) -> (r: u64)
        ensures
            r == self.data.small_data_block_size,
    {
        self.data.small_data_block_size
    }

    pub fn libver_bounds(&self) -> (r: LibVerBounds)
        ensures
            r == self.data.libver_bounds,
    {
        self.data.libver_bounds
    }

    /// The earliest version that objects are written for.
    pub fn libver(&self) -> (r: LibraryVersion)
        ensures
            r == self.data.libver_bounds.low,
    {
        self.data.libver_bounds.low
    }
}

/// A builder of property lists for the access to files.
#[derive(Debug)]
pub struct FileAccessBuilder {
    pub data: FileAccessData,
}

impl FileAccessBuilder {
    /// With the default settings.
    pub fn new() -> (r: Self)
        ensures
            r.data.plain(),
    {
        FileAccessBuilder { data: FileAccessData::default() }
    }

    pub fn driver(&mut self, driver: &FileDriver) -> (r: &mut Self)
        ensures
            r.data == (FileAccessData { driver: r.data.driver, ..old(self).data }),
            r.data.driver@ == driver@,
            *final(self) == *final(r),
    {
        self.data.driver = driver.clone();
        self
    }

    pub fn evict_on_close(&mut self, v: bool) -> (r: &mut Self)
        ensures
            r.data == (FileAccessData { evict_on_close: v, ..old(self).data }),
            *final(self) == *final(r),
    {
        self.data.evict_on_close = v;
        self
    }

    pub fn write_tracking(&mut self, page_size: usize) -> (r: &mut Self)
        ensures
            r.data == (FileAccessData { write_tracking: page_size, ..old(self).data }),
            *final(self) == *final(r),
    {
        self.data.write_tracking = page_size;
        self
    }

    pub fn metadata_read_attempts(&mut self, n: u32) -> (r: &mut Self)
        ensures
            r.data == (FileAccessData { metadata_read_attempts: n, ..old(self).data }),
            *final(self) == *final(r),
    {
        self.data.metadata_read_attempts = n;
        self
    }

    pub fn mdc_image_config(&mut self, c: CacheImageConfig) -> (r: &mut Self)
        ensures
            r.data == (FileAccessData { mdc_image_config: c, ..old(self).data }),
            *final(self) == *final(r),
    {
        self.data.mdc_image_config = c;
        self
    }

    pub fn mdc_log_options(&mut self, o: &CacheLogOptions) -> (r: &mut Self)
        ensures
            r.data == (FileAccessData { mdc_log_options: r.data.mdc_log_options, ..old(self).data }),
            r.data.mdc_log_options.same(*o),
            *final(self) == *final(r),
    {
        self.data.mdc_log_options = o.clone();
        self
    }

    pub fn page_buffer_size(&mut self, p: PageBufferSize) -> (r: &mut Self)
        ensures
            r.data == (FileAccessData { page_buffer_size: p, ..old(self).data }),
            *final(self) == *final(r),
    {
        self.data.page_buffer_size = p;
        self
    }

    pub fn elink_file_cache_size(&mut self, n: u32) -> (r: &mut Self)
        ensures
            r.data == (FileAccessData { elink_file_cache_size: n, ..old(self).data }),
            *final(self) == *final(r),
    {
        self.data.elink_file_cache_size = n;
        self
    }

    pub fn all_coll_metadata_ops(&mut self, v: bool) -> (r: &mut Self)
        ensures
            r.data == (FileAccessData { all_coll_metadata_ops: v, ..old(self).data }),
            *final(self) == *final(r),
    {
        self.data.all_coll_metadata_ops = v;
        self
    }

    pub fn coll_metadata_write(&mut self, v: bool) -> (r: &mut Self)
        ensures
            r.data == (FileAccessData { coll_metadata_write: v, ..old(self).data }),
            *final(self) == *final(r),
    {
        self.data.coll_metadata_write = v;
        self
    }

    pub fn sec2(&mut self) -> (r: &mut Self)
        ensures
            r.data == (FileAccessData { driver: r.data.driver, ..old(self).data }),
            r.data.driver@ == DriverView::Sec2,
            *final(self) == *final(r),
    {
        self.data.driver = FileDriver::Sec2;
        self
    }

    pub fn stdio(&mut self) -> (r: &mut Self)
        ensures
            r.data == (FileAccessData { driver: r.data.driver, ..old(self).data }),
            r.data.driver@ == DriverView::Stdio,
            *final(self) == *final(r),
    {
        self.data.driver = FileDriver::Stdio;
        self
    }

    pub fn in_memory(&mut self) -> (r: &mut Self)
        ensures
            r.data == (FileAccessData { driver: r.data.driver, ..old(self).data }),
            r.data.driver@ == DriverView::Core(core_plain()),
            *final(self) == *final(r),
    {
        self.data.driver = FileDriver::Core(CoreDriver::default());
        self
    }

    pub fn core_options(&mut self, increment: usize, filebacked: bool) -> (r: &mut Self)
        ensures
            r.data == (FileAccessData { driver: r.data.driver, ..old(self).data }),
            r.data.driver@ == DriverView::Core(
                CoreDriver { increment, filebacked, write_tracking: 0 },
            ),
            *final(self) == *final(r),
    {
        self.data.driver = FileDriver::Core(
            CoreDriver { increment, filebacked, write_tracking: 0 },
        );
        self
    }

    pub fn core_filebacked(&mut self, filebacked: bool) -> (r: &mut Self)
        ensures
            r.data == (FileAccessData { driver: r.data.driver, ..old(self).data }),
            r.data.driver@ == DriverView::Core(CoreDriver { filebacked, ..core_plain() }),
            *final(self) == *final(r),
    {
        self.data.driver = FileDriver::Core(
            CoreDriver { increment: 0x10_0000, filebacked, write_tracking: 0 },
        );
        self
    }

    pub fn family(&mut self) -> (r: &mut Self)
        ensures
            r.data == (FileAccessData { driver: r.data.driver, ..old(self).data }),
            r.data.driver@ == DriverView::Family(FamilyDriver { member_size: 0 }),
            *final(self) == *final(r),
    {
        self.data.driver = FileDriver::Family(FamilyDriver::default());
        self
    }

    pub fn family_options(&mut self, member_size: usize) -> (r: &mut Self)
        ensures
            r.data == (FileAccessData { driver: r.data.driver, ..old(self).data }),
            r.data.driver@ == DriverView::Family(FamilyDriver { member_size }),
            *final(self) == *final(r),
    {
        self.data.driver = FileDriver::Family(FamilyDriver { member_size });
        self
    }

    pub fn split(&mut self) -> (r: &mut Self)
        ensures
            r.data == (FileAccessData { driver: r.data.driver, ..old(self).data }),
            r.data.driver@ == DriverView::Split("-m.h5"@, "-r.h5"@),
            *final(self) == *final(r),
    {
        self.data.driver = FileDriver::Split(SplitDriver::default());
        self
    }

    pub fn split_options(&mut self, meta_ext: &str, raw_ext: &str) -> (r: &mut Self)
        ensures
            r.data == (FileAccessData { driver: r.data.driver, ..old(self).data }),
            r.data.driver@ == DriverView::Split(meta_ext@, raw_ext@),
            *final(self) == *final(r),
    {
        self.data.driver = FileDriver::Split(
            SplitDriver {
                meta_ext: String::from_str(meta_ext),
                raw_ext: String::from_str(raw_ext),
            },
        );
        self
    }

    pub fn log(&mut self) -> (r: &mut Self)
        ensures
            r.data == (FileAccessData { driver: r.data.driver, ..old(self).data }),
            r.data.driver@ == DriverView::Log,
            *final(self) == *final(r),
    {
        self.data.driver = FileDriver::Log;
        self
    }

    pub fn fclose_degree(&mut self, degree: FileCloseDegree) -> (r: &mut Self)
        ensures
            r.data == (FileAccessData { fclose_degree: degree, ..old(self).data }),
            *final(self) == *final(r),
    {
        self.data.fclose_degree = degree;
        self
    }

    pub fn alignment(&mut self, threshold: u64, alignment: u64) -> (r: &mut Self)
        ensures
            r.data == (FileAccessData { alignment: Alignment { threshold, alignment }, ..old(self).data }),
            *final(self) == *final(r),
    {
        self.data.alignment = Alignment { threshold, alignment };
        self
    }

    /// Sets the chunk cache; `w0` are the bits of the preemption policy.
    pub fn chunk_cache(&mut self, nslots: usize, nbytes: usize, w0: u64) -> (r: &mut Self)
        ensures
            r.data == (FileAccessData { chunk_cache: ChunkCache { nslots, nbytes, w0 }, ..old(self).data }),
            *final(self) == *final(r),
    {
        self.data.chunk_cache = ChunkCache { nslots, nbytes, w0 };
        self
    }

    pub fn meta_block_size(&mut self, size: u64) -> (r: &mut Self)
        ensures
            r.data == (FileAccessData { meta_block_size: size, ..old(self).data }),
            *final(self) == *final(r),
    {
        self.data.meta_block_size = size;
        self
    }

    pub fn sieve_buf_size(&mut self, size: usize) -> (r: &mut Self)
        ensures
            r.data == (FileAccessData { sieve_buf_size: size, ..old(self).data }),
            *final(self) == *final(r),
    {
        self.data.sieve_buf_size = size;
        self
    }

    pub fn gc_references(&mut self, gc: bool) -> (r: &mut Self)
        ensures
            r.data == (FileAccessData { gc_references: gc, ..old(self).data }),
            *final(self) == *final(r),
    {
        self.data.gc_references = gc;
        self
    }

    pub fn small_data_block_size(&mut self, size: u64) -> (r: &mut Self)
        ensures
            r.data == (FileAccessData { small_data_block_size: size, ..old(self).data }),
            *final(self) == *final(r),
    {
        self.data.small_data_block_size = size;
        self
    }

    pub fn libver_bounds(&mut self, low: LibraryVersion, high: LibraryVersion) -> (r: &mut Self)
        ensures
            r.data == (FileAccessData { libver_bounds: LibVerBounds { low, high }, ..old(self).data }),
            *final(self) == *final(r),
    {
        self.data.libver_bounds = LibVerBounds { low, high };
        self
    }

    pub fn libver_earliest(&mut self) -> (r: &mut Self)
        ensures
            r.data == (FileAccessData {
                libver_bounds: LibVerBounds {
                    low: LibraryVersion::Earliest,
                    high: LibraryVersion::V114,
                },
                ..old(self).data
            }),
            *final(self) == *final(r),
    {
        self.data.libver_bounds = LibVerBounds {
            low: LibraryVersion::Earliest,
            high: LibraryVersion::V114,
        };
        self
    }

    pub fn libver_v18(&mut self) -> (r: &mut Self)
        ensures
            r.data == (FileAccessData {
                libver_bounds: LibVerBounds {
                    low: LibraryVersion::V18,
                    high: LibraryVersion::V114,
                },
                ..old(self).data
            }),
            *final(self) == *final(r),
    {
        self.data.libver_bounds = LibVerBounds {
            low: LibraryVersion::V18,
            high: LibraryVersion::V114,
        };
        self
    }

    pub fn libver_v110(&mut self) -> (r: &mut Self)
        ensures
            r.data == (FileAccessData {
                libver_bounds: LibVerBounds {
                    low: LibraryVersion::V110,
                    high: LibraryVersion::V114,
                },
                ..old(self).data
            }),
            *final(self) == *final(r),
    {
        self.data.libver_bounds = LibVerBounds {
            low: LibraryVersion::V110,
            high: LibraryVersion::V114,
        };
        self
    }

    pub fn libver_v112(&mut self) -> (r: &mut Self)
        ensures
            r.data == (FileAccessData {
                libver_bounds: LibVerBounds {
                    low: LibraryVersion::V112,
                    high: LibraryVersion::V114,
                },
                ..old(self).data
            }),
            *final(self) == *final(r),
    {
        self.data.libver_bounds = LibVerBounds {
            low: LibraryVersion::V112,
            high: LibraryVersion::V114,
        };
        self
    }

    pub fn libver_v114(&mut self) -> (r: &mut Self)
        ensures
            r.data == (FileAccessData {
                libver_bounds: LibVerBounds {
                    low: LibraryVersion::V114,
                    high: LibraryVersion::V114,
                },
                ..old(self).data
            }),
            *final(self) == *final(r),
    {
        self.data.libver_bounds = LibVerBounds {
            low: LibraryVersion::V114,
            high: LibraryVersion::V114,
        };
        self
    }

    pub fn latest_libver(&mut self) -> (r: &mut Self)
        ensures
            r.data == (FileAccessData {
                libver_bounds: LibVerBounds {
                    low: LibraryVersion::V114,
                    high: LibraryVersion::V114,
                },
                ..old(self).data
            }),
            *final(self) == *final(r),
    {
        self.data.libver_bounds = LibVerBounds {
            low: LibraryVersion::V114,
            high: LibraryVersion::V114,
        };
        self
    }

    pub fn libver_latest(&mut self) -> (r: &mut Self)
        ensures
            r.data == (FileAccessData {
                libver_bounds: LibVerBounds {
                    low: LibraryVersion::V114,
                    high: LibraryVersion::V114,
                },
                ..old(self).data
            }),
            *final(self) == *final(r),
    {
        self.data.libver_bounds = LibVerBounds {
            low: LibraryVersion::V114,
            high: LibraryVersion::V114,
        };
        self
    }

    pub fn from_plist(plist: &FileAccess) -> (r: Self)
        ensures
            plist.data.same(r.data),
    {
        FileAccessBuilder { data: plist.data.clone() }
    }

    pub fn apply(&self, plist: &mut FileAccess)
        ensures
            self.data.same(final(plist).data),
    {
        plist.data = self.data.clone();
    }

    pub fn finish(&self) -> (r: FileAccess)
        ensures
            self.data.same(r.data),
    {
        FileAccess { data: self.data.clone() }
    }
}

} // verus!
