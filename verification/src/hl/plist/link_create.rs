//! The settings for the creation of links.

use vstd::prelude::*;

verus! {

/// The encoding of the names of links.
#[derive(Clone, Copy, Debug, PartialEq, Eq, Structural)]
pub enum CharEncoding {
    Ascii,
    Utf8,
}

impl Default for CharEncoding {
    fn default() -> (r: Self)
        ensures
            r == CharEncoding::Ascii,
    {
        CharEncoding::Ascii
    }
}

/// The settings.
#[derive(Clone, Copy, Debug, PartialEq, Eq, Structural)]
pub struct LinkCreateData {
    pub create_intermediate_group: bool,
    pub char_encoding: CharEncoding,
}

impl LinkCreateData {
    /// Whether these are the default settings.
    pub open spec fn plain(self) -> bool {
        !self.create_intermediate_group && self.char_encoding == CharEncoding::Ascii
    }
}

impl Default for LinkCreateData {
    fn default() -> (r: Self)
        ensures
            r.plain(),
    {
        LinkCreateData { create_intermediate_group: false, char_encoding: CharEncoding::Ascii }
    }
}

/// A property list for the creation of links.
#[derive(Clone, Copy, Debug, PartialEq, Eq, Structural)]
pub struct LinkCreate {
    pub data: LinkCreateData,
}

impl LinkCreate {
    pub fn try_new() -> (r: Self)
        ensures
            r.data.plain(),
    {
        LinkCreate { data: LinkCreateData::default() }
    }

    pub fn build() -> (r: LinkCreateBuilder)
        ensures
            r.data.plain(),
    {
        LinkCreateBuilder::new()
    }

    pub fn copy(&self) -> (r: Self)
        ensures
            r == *self,
    {
        *self
    }

    pub fn create_intermediate_group(&self) -> (r: bool)
        ensures
            r == self.data.create_intermediate_group,
    {
        self.data.create_intermediate_group
    }

    pub fn char_encoding(&self) -> (r: CharEncoding)
        ensures
            r == self.data.char_encoding,
    {
        self.data.char_encoding
    }
}

/// A builder of property lists for the creation of links.
#[derive(Debug)]
pub struct LinkCreateBuilder {
    pub data: LinkCreateData,
}

impl LinkCreateBuilder {
    /// With the default settings.
    pub fn new() -> (r: Self)
        ensures
            r.data.plain(),
    {
        LinkCreateBuilder { data: LinkCreateData::default() }
    }

    pub fn create_intermediate_group(&mut self, create: bool) -> (r: &mut Self)
        ensures
            r.data == (LinkCreateData { create_intermediate_group: create, ..old(self).data }),
            *final(self) == *final(r),
    {
        self.data.create_intermediate_group = create;
        self
    }

    pub fn char_encoding(&mut self, encoding: CharEncoding) -> (r: &mut Self)
        ensures
            r.data == (LinkCreateData { char_encoding: encoding, ..old(self).data }),
            *final(self) == *final(r),
    {
        self.data.char_encoding = encoding;
        self
    }

    pub fn from_plist(plist: &LinkCreate) -> (r: Self)
        ensures
            r.data == plist.data,
    {
        LinkCreateBuilder { data: plist.data }
    }

    pub fn apply(&self, plist: &mut LinkCreate)
        ensures
            final(plist).data == self.data,
    {
        plist.data = self.data;
    }

    pub fn finish(&self) -> (r: LinkCreate)
        ensures
            r.data == self.data,
    {
        LinkCreate { data: self.data }
    }

}

} // verus!
