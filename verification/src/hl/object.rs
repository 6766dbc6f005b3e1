//! The classes of objects, and which types of identifiers each accepts.

use vstd::prelude::*;

use crate::error::Error;
use crate::h5i::H5I_type_t;
use crate::text::join;

verus! {

/// A class of objects.
#[derive(Clone, Copy, Debug, PartialEq, Eq, Structural)]
pub enum ObjectClass {
    Object,
    File,
    Group,
    Dataset,
    Location,
    Attribute,
    Container,
    Datatype,
    Dataspace,
    PropertyList,
}

impl ObjectClass {
    /// The name of the class.
    pub open spec fn text(self) -> Seq<char> {
        match self {
            ObjectClass::Object => "object"@,
            ObjectClass::File => "file"@,
            ObjectClass::Group => "group"@,
            ObjectClass::Dataset => "dataset"@,
            ObjectClass::Location => "location"@,
            ObjectClass::Attribute => "attribute"@,
            ObjectClass::Container => "container"@,
            ObjectClass::Datatype => "datatype"@,
            ObjectClass::Dataspace => "dataspace"@,
            ObjectClass::PropertyList => "property list"@,
        }
    }

    /// Whether objects of a type are of the class. A file is a group too: its root.
    pub open spec fn accepts(self, tp: H5I_type_t) -> bool {
        match self {
            ObjectClass::Object => true,
            ObjectClass::File => tp is H5I_FILE,
            ObjectClass::Group => tp is H5I_FILE || tp is H5I_GROUP,
            ObjectClass::Dataset => tp is H5I_DATASET,
            ObjectClass::Location => tp is H5I_FILE || tp is H5I_GROUP || tp is H5I_DATATYPE
                || tp is H5I_DATASET || tp is H5I_ATTR,
            ObjectClass::Attribute => tp is H5I_ATTR,
            ObjectClass::Container => tp is H5I_DATASET || tp is H5I_ATTR,
            ObjectClass::Datatype => tp is H5I_DATATYPE,
            ObjectClass::Dataspace => tp is H5I_DATASPACE,
            ObjectClass::PropertyList => tp is H5I_GENPROP_LST,
        }
    }

    pub fn name(self) -> (r: &'static str)
        ensures
            r@ == self.text(),
    {
        match self {
            ObjectClass::Object => "object",
            ObjectClass::File => "file",
            ObjectClass::Group => "group",
            ObjectClass::Dataset => "dataset",
            ObjectClass::Location => "location",
            ObjectClass::Attribute => "attribute",
            ObjectClass::Container => "container",
            ObjectClass::Datatype => "datatype",
            ObjectClass::Dataspace => "dataspace",
            ObjectClass::PropertyList => "property list",
        }
    }

    pub fn is_valid_id_type(self, tp: H5I_type_t) -> (r: bool)
        ensures
            r == self.accepts(tp),
    {
        match self {
            ObjectClass::Object => true,
            ObjectClass::File => matches!(tp, H5I_type_t::H5I_FILE),
            ObjectClass::Group => matches!(tp, H5I_type_t::H5I_FILE | H5I_type_t::H5I_GROUP),
            ObjectClass::Dataset => matches!(tp, H5I_type_t::H5I_DATASET),
            ObjectClass::Location => matches!(
                tp,
                H5I_type_t::H5I_FILE | H5I_type_t::H5I_GROUP | H5I_type_t::H5I_DATATYPE
                    | H5I_type_t::H5I_DATASET | H5I_type_t::H5I_ATTR
            ),
            ObjectClass::Attribute => matches!(tp, H5I_type_t::H5I_ATTR),
            ObjectClass::Container => matches!(
                tp,
                H5I_type_t::H5I_DATASET | H5I_type_t::H5I_ATTR
            ),
            ObjectClass::Datatype => matches!(tp, H5I_type_t::H5I_DATATYPE),
            ObjectClass::Dataspace => matches!(tp, H5I_type_t::H5I_DATASPACE),
            ObjectClass::PropertyList => matches!(tp, H5I_type_t::H5I_GENPROP_LST),
        }
    }

    /// Checks that an object of this class and of the type `tp` can become one of the
    /// class `to`; `called` is what the type is called.
    pub fn cast(self, tp: H5I_type_t, called: &str, to: ObjectClass) -> (r: Result<(), Error>)
        ensures
            match r {
                Ok(_) => to.accepts(tp),
                Err(e) => !to.accepts(tp) && e@ == "unable to cast "@ + self.text() + " ("@
                    + called@ + ") into "@ + to.text(),
            },
    {
        if to.is_valid_id_type(tp) {
            return Ok(());
        }
        let a = join("unable to cast ", self.name());
        let b = join(join(a.as_str(), " (").as_str(), called);
        let c = join(b.as_str(), ") into ");
        Err(Error::from_text(join(c.as_str(), to.name())))
    }

    /// How an object of the class is shown.
    pub fn shown(self, valid: bool, detail: Option<&str>) -> (r: String)
        ensures
            r@ == (if !valid {
                "<HDF5 "@ + self.text() + ": invalid id>"@
            } else {
                match detail {
                    Some(d) => "<HDF5 "@ + self.text() + ": "@ + d@ + ">"@,
                    None => "<HDF5 "@ + self.text() + ">"@,
                }
            }),
    {
        let head = join("<HDF5 ", self.name());
        if !valid {
            return join(head.as_str(), ": invalid id>");
        }
        match detail {
            Some(d) => join(join(join(head.as_str(), ": ").as_str(), d).as_str(), ">"),
            None => join(head.as_str(), ">"),
        }
    }
}

/// What an object is made of, as far as its type goes.
#[derive(Clone, Copy, Debug, PartialEq, Eq, Structural)]
pub enum PayloadKind {
    Invalid,
    File,
    Group,
    Dataset,
    Attribute,
    NamedType,
    Datatype,
    Dataspace,
    PropertyList,
}

impl PayloadKind {
    /// The type of an object.
    pub open spec fn kind(self) -> H5I_type_t {
        match self {
            PayloadKind::Invalid => H5I_type_t::H5I_BADID,
            PayloadKind::File => H5I_type_t::H5I_FILE,
            PayloadKind::Group => H5I_type_t::H5I_GROUP,
            PayloadKind::Dataset => H5I_type_t::H5I_DATASET,
            PayloadKind::Attribute => H5I_type_t::H5I_ATTR,
            PayloadKind::NamedType => H5I_type_t::H5I_DATATYPE,
            PayloadKind::Datatype => H5I_type_t::H5I_DATATYPE,
            PayloadKind::Dataspace => H5I_type_t::H5I_DATASPACE,
            PayloadKind::PropertyList => H5I_type_t::H5I_GENPROP_LST,
        }
    }

    pub fn id_type(self) -> (r: H5I_type_t)
        ensures
            r == self.kind(),
    {
        match self {
            PayloadKind::Invalid => H5I_type_t::H5I_BADID,
            PayloadKind::File => H5I_type_t::H5I_FILE,
            PayloadKind::Group => H5I_type_t::H5I_GROUP,
            PayloadKind::Dataset => H5I_type_t::H5I_DATASET,
            PayloadKind::Attribute => H5I_type_t::H5I_ATTR,
            PayloadKind::NamedType => H5I_type_t::H5I_DATATYPE,
            PayloadKind::Datatype => H5I_type_t::H5I_DATATYPE,
            PayloadKind::Dataspace => H5I_type_t::H5I_DATASPACE,
            PayloadKind::PropertyList => H5I_type_t::H5I_GENPROP_LST,
        }
    }
}

/// Each class accepts what the classes below it accept: files are groups, groups and
/// containers are locations, datasets and attributes are containers.
pub proof fn law_classes_nest(tp: H5I_type_t)
    ensures
        ObjectClass::File.accepts(tp) ==> ObjectClass::Group.accepts(tp),
        ObjectClass::Group.accepts(tp) ==> ObjectClass::Location.accepts(tp),
        ObjectClass::Container.accepts(tp) ==> ObjectClass::Location.accepts(tp),
        ObjectClass::Dataset.accepts(tp) ==> ObjectClass::Container.accepts(tp),
        ObjectClass::Attribute.accepts(tp) ==> ObjectClass::Container.accepts(tp),
        ObjectClass::Location.accepts(tp) ==> ObjectClass::Object.accepts(tp),
{
}

} // verus!
