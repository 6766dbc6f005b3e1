//! Property lists of any class.

use vstd::prelude::*;

use crate::error::Error;
use crate::hl::plist::dataset_access::DatasetAccess;
use crate::hl::plist::dataset_create::DatasetCreate;
use crate::hl::plist::file_access::FileAccess;
use crate::hl::plist::file_create::FileCreate;
use crate::hl::plist::link_create::LinkCreate;
use crate::model::texts;
use crate::text::{join, same_text};

verus! {

/// The class of a property list.
#[derive(Clone, Copy, Debug, PartialEq, Eq, Structural)]
pub enum PropertyListClass {
    AttributeCreate,
    DatasetAccess,
    DatasetCreate,
    DataTransfer,
    DatatypeAccess,
    DatatypeCreate,
    FileAccess,
    FileCreate,
    FileMount,
    GroupAccess,
    GroupCreate,
    LinkAccess,
    LinkCreate,
    ObjectCopy,
    ObjectCreate,
    StringCreate,
}

impl PropertyListClass {
    /// The name of the class.
    pub open spec fn text(self) -> Seq<char> {
        match self {
            PropertyListClass::AttributeCreate => "attribute create"@,
            PropertyListClass::DatasetAccess => "dataset access"@,
            PropertyListClass::DatasetCreate => "dataset create"@,
            PropertyListClass::DataTransfer => "data transfer"@,
            PropertyListClass::DatatypeAccess => "datatype access"@,
            PropertyListClass::DatatypeCreate => "datatype create"@,
            PropertyListClass::FileAccess => "file access"@,
            PropertyListClass::FileCreate => "file create"@,
            PropertyListClass::FileMount => "file mount"@,
            PropertyListClass::GroupAccess => "group access"@,
            PropertyListClass::GroupCreate => "group create"@,
            PropertyListClass::LinkAccess => "link access"@,
            PropertyListClass::LinkCreate => "link create"@,
            PropertyListClass::ObjectCopy => "object copy"@,
            PropertyListClass::ObjectCreate => "object create"@,
            PropertyListClass::StringCreate => "string create"@,
        }
    }

    /// The names of the properties of a list of the class.
    pub open spec fn property_texts(self) -> Seq<Seq<char>> {
        match self {
            PropertyListClass::FileCreate => seq![
                "userblock"@,
                "sym_k"@,
                "istore_k"@,
                "shared_mesg_phase_change"@,
                "shared_mesg_indexes"@,
                "obj_track_times"@,
                "attr_phase_change"@,
                "attr_creation_order"@,
            ],
            PropertyListClass::FileAccess => seq![
                "driver"@,
                "fclose_degree"@,
                "alignment"@,
                "chunk_cache"@,
                "meta_block_size"@,
                "sieve_buf_size"@,
                "gc_references"@,
                "small_data_block_size"@,
                "libver_bounds"@,
            ],
            PropertyListClass::DatasetCreate => seq![
                "filters"@,
                "alloc_time"@,
                "fill_time"@,
                "fill_value"@,
                "chunk"@,
                "layout"@,
                "external"@,
                "obj_track_times"@,
                "attr_phase_change"@,
                "attr_creation_order"@,
            ],
            PropertyListClass::DatasetAccess => seq![
                "chunk_cache"@,
                "efile_prefix"@,
                "virtual_view"@,
            ],
            PropertyListClass::LinkCreate => seq![
                "create_intermediate_group"@,
                "char_encoding"@,
            ],
            _ => Seq::empty(),
        }
    }

    pub fn name(self) -> (r: &'static str)
        ensures
            r@ == self.text(),
    {
        match self {
            PropertyListClass::AttributeCreate => "attribute create",
            PropertyListClass::DatasetAccess => "dataset access",
            PropertyListClass::DatasetCreate => "dataset create",
            PropertyListClass::DataTransfer => "data transfer",
            PropertyListClass::DatatypeAccess => "datatype access",
            PropertyListClass::DatatypeCreate => "datatype create",
            PropertyListClass::FileAccess => "file access",
            PropertyListClass::FileCreate => "file create",
            PropertyListClass::FileMount => "file mount",
            PropertyListClass::GroupAccess => "group access",
            PropertyListClass::GroupCreate => "group create",
            PropertyListClass::LinkAccess => "link access",
            PropertyListClass::LinkCreate => "link create",
            PropertyListClass::ObjectCopy => "object copy",
            PropertyListClass::ObjectCreate => "object create",
            PropertyListClass::StringCreate => "string create",
        }
    }

    /// All classes.
    fn all() -> (r: Vec<PropertyListClass>)
        ensures
            forall|c: PropertyListClass| #[trigger] r@.contains(c),
    {
        let mut v: Vec<PropertyListClass> = Vec::new();
        v.push(PropertyListClass::AttributeCreate);
        v.push(PropertyListClass::DatasetAccess);
        v.push(PropertyListClass::DatasetCreate);
        v.push(PropertyListClass::DataTransfer);
        v.push(PropertyListClass::DatatypeAccess);
        v.push(PropertyListClass::DatatypeCreate);
        v.push(PropertyListClass::FileAccess);
        v.push(PropertyListClass::FileCreate);
        v.push(PropertyListClass::FileMount);
        v.push(PropertyListClass::GroupAccess);
        v.push(PropertyListClass::GroupCreate);
        v.push(PropertyListClass::LinkAccess);
        v.push(PropertyListClass::LinkCreate);
        v.push(PropertyListClass::ObjectCopy);
        v.push(PropertyListClass::ObjectCreate);
        v.push(PropertyListClass::StringCreate);
        assert forall|c: PropertyListClass| #[trigger] v@.contains(c) by {
            match c {
                PropertyListClass::AttributeCreate => {
                    assert(v@[0] == c);
                },
                PropertyListClass::DatasetAccess => {
                    assert(v@[1] == c);
                },
                PropertyListClass::DatasetCreate => {
                    assert(v@[2] == c);
                },
                PropertyListClass::DataTransfer => {
                    assert(v@[3] == c);
                },
                PropertyListClass::DatatypeAccess => {
                    assert(v@[4] == c);
                },
                PropertyListClass::DatatypeCreate => {
                    assert(v@[5] == c);
                },
                PropertyListClass::FileAccess => {
                    assert(v@[6] == c);
                },
                PropertyListClass::FileCreate => {
                    assert(v@[7] == c);
                },
                PropertyListClass::FileMount => {
                    assert(v@[8] == c);
                },
                PropertyListClass::GroupAccess => {
                    assert(v@[9] == c);
                },
                PropertyListClass::GroupCreate => {
                    assert(v@[10] == c);
                },
                PropertyListClass::LinkAccess => {
                    assert(v@[11] == c);
                },
                PropertyListClass::LinkCreate => {
                    assert(v@[12] == c);
                },
                PropertyListClass::ObjectCopy => {
                    assert(v@[13] == c);
                },
                PropertyListClass::ObjectCreate => {
                    assert(v@[14] == c);
                },
                PropertyListClass::StringCreate => {
                    assert(v@[15] == c);
                },
            }
        }
        v
    }

    /// The class with a name.
    pub fn parse(s: &str) -> (r: Result<Self, Error>)
        ensures
            match r {
                Ok(c) => s@ == c.text(),
                Err(e) => (forall|c: PropertyListClass| s@ != #[trigger] c.text()) && e@
                    == "invalid property list class: "@ + s@,
            },
    {
        let text = String::from_str(s);
        let list = Self::all();
        let n: usize = list.len();
        let mut i: usize = 0;
        while i < n
            invariant
                i <= n == list@.len(),
                text@ == s@,
                forall|j: int| 0 <= j < i ==> s@ != (#[trigger] list@[j]).text(),
            decreases n - i,
        {
            if same_text(&text, list[i].name()) {
                return Ok(list[i]);
            }
            i += 1;
        }
        proof {
            assert forall|c: PropertyListClass| s@ != #[trigger] c.text() by {
                assert(list@.contains(c));
                let j = choose|j: int| 0 <= j < list@.len() && list@[j] == c;
                assert(list@[j].text() == c.text());
            }
        }
        Err(Error::from_text(join("invalid property list class: ", s)))
    }

    /// The names of the properties of a list of the class.
    pub fn properties(self) -> (r: Vec<String>)
        ensures
            texts(r@) == self.property_texts(),
    {
        let mut v: Vec<String> = Vec::new();
        match self {
            PropertyListClass::FileCreate => {
                v.push(String::from_str("userblock"));
                v.push(String::from_str("sym_k"));
                v.push(String::from_str("istore_k"));
                v.push(String::from_str("shared_mesg_phase_change"));
                v.push(String::from_str("shared_mesg_indexes"));
                v.push(String::from_str("obj_track_times"));
                v.push(String::from_str("attr_phase_change"));
                v.push(String::from_str("attr_creation_order"));
            },
            PropertyListClass::FileAccess => {
                v.push(String::from_str("driver"));
                v.push(String::from_str("fclose_degree"));
                v.push(String::from_str("alignment"));
                v.push(String::from_str("chunk_cache"));
                v.push(String::from_str("meta_block_size"));
                v.push(String::from_str("sieve_buf_size"));
                v.push(String::from_str("gc_references"));
                v.push(String::from_str("small_data_block_size"));
                v.push(String::from_str("libver_bounds"));
            },
            PropertyListClass::DatasetCreate => {
                v.push(String::from_str("filters"));
                v.push(String::from_str("alloc_time"));
                v.push(String::from_str("fill_time"));
                v.push(String::from_str("fill_value"));
                v.push(String::from_str("chunk"));
                v.push(String::from_str("layout"));
                v.push(String::from_str("external"));
                v.push(String::from_str("obj_track_times"));
                v.push(String::from_str("attr_phase_change"));
                v.push(String::from_str("attr_creation_order"));
            },
            PropertyListClass::DatasetAccess => {
                v.push(String::from_str("chunk_cache"));
                v.push(String::from_str("efile_prefix"));
                v.push(String::from_str("virtual_view"));
            },
            PropertyListClass::LinkCreate => {
                v.push(String::from_str("create_intermediate_group"));
                v.push(String::from_str("char_encoding"));
            },
            _ => {},
        }
        assert(texts(v@) =~= self.property_texts());
        v
    }
}

/// A property list of any class.
#[derive(Debug)]
pub enum PropertyList {
    FileCreate(FileCreate),
    FileAccess(FileAccess),
    DatasetCreate(DatasetCreate),
    DatasetAccess(DatasetAccess),
    LinkCreate(LinkCreate),
}

impl PropertyList {
    /// The class of the list.
    pub open spec fn class_of(self) -> PropertyListClass {
        match self {
            PropertyList::FileCreate(_) => PropertyListClass::FileCreate,
            PropertyList::FileAccess(_) => PropertyListClass::FileAccess,
            PropertyList::DatasetCreate(_) => PropertyListClass::DatasetCreate,
            PropertyList::DatasetAccess(_) => PropertyListClass::DatasetAccess,
            PropertyList::LinkCreate(_) => PropertyListClass::LinkCreate,
        }
    }

    pub fn class(&self) -> (r: PropertyListClass)
        ensures
            r == self.class_of(),
    {
        match self {
            PropertyList::FileCreate(_) => PropertyListClass::FileCreate,
            PropertyList::FileAccess(_) => PropertyListClass::FileAccess,
            PropertyList::DatasetCreate(_) => PropertyListClass::DatasetCreate,
            PropertyList::DatasetAccess(_) => PropertyListClass::DatasetAccess,
            PropertyList::LinkCreate(_) => PropertyListClass::LinkCreate,
        }
    }

    pub fn is_class(&self, class: PropertyListClass) -> (r: bool)
        ensures
            r == (self.class_of() == class),
    {
        self.class() == class
    }

    /// The names of the properties.
    pub fn properties(&self) -> (r: Vec<String>)
        ensures
            texts(r@) == self.class_of().property_texts(),
    {
        self.class().properties()
    }

    /// The number of properties.
    pub fn len(&self) -> (r: usize)
        ensures
            r == self.class_of().property_texts().len(),
    {
        let v = self.properties();
        assert(texts(v@).len() == v@.len());
        v.len()
    }

    pub fn is_empty(&self) -> (r: bool)
        ensures
            r == (self.class_of().property_texts().len() == 0),
    {
        self.len() == 0
    }

    /// Whether there is a property with a name.
    pub fn has(&self, property: &str) -> (r: bool)
        ensures
            r == self.class_of().property_texts().contains(property@),
    {
        let v = self.properties();
        let ghost all = texts(v@);
        let n: usize = v.len();
        let mut i: usize = 0;
        while i < n
            invariant
                i <= n == v@.len(),
                all == texts(v@),
                all == self.class_of().property_texts(),
                forall|j: int| 0 <= j < i ==> #[trigger] all[j] != property@,
            decreases n - i,
        {
            assert(all[i as int] == v@[i as int]@);
            if same_text(&v[i], property) {
                assert(all.contains(property@));
                return true;
            }
            i += 1;
        }
        false
    }
}

} // verus!
