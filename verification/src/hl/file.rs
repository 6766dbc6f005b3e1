//! Files: how they are opened, and what a new one holds.

use vstd::prelude::*;

use crate::hl::group::with_object;
use crate::hl::plist::file_create::{FileCreate, SharedMessageIndex};
use crate::model::{new_file, FileState, FileView, NodeView};

verus! {

/// How a file is opened.
#[derive(Clone, Copy, Debug, PartialEq, Eq, Structural)]
pub enum OpenMode {
    /// Read-only; the file must exist.
    Read,
    /// For reading and writing; the file must exist.
    ReadWrite,
    /// Created, and emptied where it exists.
    Create,
    /// Created; the file must not exist.
    CreateExcl,
    /// For reading and writing where it exists, else created.
    Append,
}

/// What is to be done to open a file.
#[derive(Clone, Copy, Debug, PartialEq, Eq, Structural)]
pub enum OpenStep {
    /// The file is read.
    Load { read_only: bool },
    /// A new file is made.
    Make,
    /// The file is not there.
    NotFound,
    /// The file is there.
    AlreadyExists,
}

/// What is to be done to open a file that is there, or is not.
pub open spec fn opening(mode: OpenMode, exists: bool) -> OpenStep {
    match mode {
        OpenMode::Read => if exists {
            OpenStep::Load { read_only: true }
        } else {
            OpenStep::NotFound
        },
        OpenMode::ReadWrite => if exists {
            OpenStep::Load { read_only: false }
        } else {
            OpenStep::NotFound
        },
        OpenMode::Create => OpenStep::Make,
        OpenMode::CreateExcl => if exists {
            OpenStep::AlreadyExists
        } else {
            OpenStep::Make
        },
        OpenMode::Append => if exists {
            OpenStep::Load { read_only: false }
        } else {
            OpenStep::Make
        },
    }
}

impl OpenMode {
    /// What is to be done to open a file.
    pub fn step(self, exists: bool) -> (r: OpenStep)
        ensures
            r == opening(self, exists),
    {
        match self {
            OpenMode::Read => if exists {
                OpenStep::Load { read_only: true }
            } else {
                OpenStep::NotFound
            },
            OpenMode::ReadWrite => if exists {
                OpenStep::Load { read_only: false }
            } else {
                OpenStep::NotFound
            },
            OpenMode::Create => OpenStep::Make,
            OpenMode::CreateExcl => if exists {
                OpenStep::AlreadyExists
            } else {
                OpenStep::Make
            },
            OpenMode::Append => if exists {
                OpenStep::Load { read_only: false }
            } else {
                OpenStep::Make
            },
        }
    }

    /// Whether the file is written as soon as it is open: where it is new.
    pub fn persists(self, exists: bool) -> (r: bool)
        ensures
            r == (opening(self, exists) is Make || self is CreateExcl),
    {
        match self {
            OpenMode::Create | OpenMode::CreateExcl => true,
            OpenMode::Append => !exists,
            _ => false,
        }
    }
}

/// The indexes of shared messages that hold messages at all.
pub open spec fn used_indexes(v: Seq<SharedMessageIndex>) -> Seq<(u16, u32)>
    decreases v.len(),
{
    if v.len() == 0 {
        Seq::empty()
    } else {
        let before = used_indexes(v.drop_last());
        if v.last().message_types.bits == 0 {
            before
        } else {
            before.push((v.last().message_types.bits as u16, v.last().min_message_size))
        }
    }
}

/// A new file: with its user block, where it is created; with its indexes of shared
/// messages and the time of its root, where it may replace another one.
pub open spec fn made_file(mode: OpenMode, userblock: u64, v: Seq<SharedMessageIndex>, time: u32) -> FileView {
    let f = new_file();
    match mode {
        OpenMode::Create => with_object(
            FileView { userblock, sohm: used_indexes(v), ..f },
            f.root,
            NodeView { mtime: time, ..f.objects[0]->0 },
        ),
        OpenMode::CreateExcl => FileView { userblock, ..f },
        _ => f,
    }
}

/// Makes a new file.
pub fn make_file(mode: OpenMode, fcpl: &FileCreate, time: u32) -> (r: FileState)
    ensures
        r@ == made_file(mode, fcpl.data.userblock, fcpl.data.shared_mesg_indexes@, time),
{
    let mut state = FileState::new_empty();
    match mode {
        OpenMode::Create => {
            state.userblock = fcpl.userblock();
            let list = fcpl.shared_mesg_indexes();
            let n: usize = list.len();
            let mut sohm: Vec<(u16, u32)> = Vec::new();
            let mut i: usize = 0;
            assert(list@.take(0) =~= Seq::empty());
            while i < n
                invariant
                    i <= n == list@.len(),
                    sohm@ == used_indexes(list@.take(i as int)),
                decreases n - i,
            {
                assert(list@.take(i + 1).drop_last() =~= list@.take(i as int));
                let bits: u32 = list[i].message_types.bits;
                if bits != 0 {
                    sohm.push((#[verifier::truncate] (bits as u16), list[i].min_message_size));
                }
                i += 1;
            }
            assert(list@.take(n as int) =~= list@);
            state.sohm = sohm;
            assert(state@ =~= (FileView {
                userblock: fcpl.data.userblock,
                sohm: used_indexes(fcpl.data.shared_mesg_indexes@),
                ..new_file()
            }));
            let node = state.get_mut(0);
            node.mtime = time;
            assert(state@ =~= made_file(
                mode,
                fcpl.data.userblock,
                fcpl.data.shared_mesg_indexes@,
                time,
            ));
        },
        OpenMode::CreateExcl => {
            state.userblock = fcpl.userblock();
        },
        _ => {},
    }
    state
}

/// The free space of a file: a file that is written has none.
pub fn free_space() -> (r: u64)
    ensures
        r == 0,
{
    0
}

} // verus!
