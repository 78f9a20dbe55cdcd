//! A document: a named root compound.

use crate::error::{DecodeError, EncodeError};
use crate::read::read_nbt_file;
use crate::wire::{decode, encode, encode_error, fits_wire, name_fits_wire};
use crate::write::write_tag;
use crate::{NBTTag, TagValue};
use vstd::prelude::*;

verus! {

/// A document: a name, which may be empty, and a root. The root of a
/// well-formed document is a compound.
#[derive(Debug)]
pub struct NBTFile {
    pub root_name: String,
    pub root: NBTTag,
}

/// The mathematical value of a document.
pub struct Document {
    pub name: Seq<char>,
    pub root: TagValue,
}

impl Document {
    /// Whether the root is a compound, and a well-formed one.
    pub open spec fn well_formed(self) -> bool {
        self.root is Compound && self.root.well_formed()
    }

    /// Whether the wire can hold the name and the root as they are.
    pub open spec fn fits_wire(self) -> bool {
        name_fits_wire(self.name) && fits_wire(self.root)
    }
}

impl View for NBTFile {
    type V = Document;

    open spec fn view(&self) -> Document {
        Document { name: self.root_name@, root: self.root@ }
    }
}

impl Clone for NBTFile {
    /// A copy of the document.
    fn clone(&self) -> (r: Self)
        ensures
            r@ == self@,
    {
        NBTFile { root_name: self.root_name.clone(), root: self.root.clone() }
    }
}

impl NBTFile {
    /// A document of that name, around `root` where one is given and around
    /// an empty compound where none is.
    pub fn new(root_name: String, root: Option<NBTTag>) -> (file: NBTFile)
        ensures
            file.root_name == root_name,
            root matches Some(tag) ==> file.root == tag,
            root is None ==> file.root@ == TagValue::Compound(Seq::empty()),
    {
        match root {
            Some(root_val) => NBTFile { root_name, root: root_val },
            None => {
                let entries: Vec<(String, NBTTag)> = Vec::new();
                let root = NBTTag::TagCompound(entries);
                assert(root@->Compound_0 =~= Seq::empty());
                NBTFile { root_name, root }
            },
        }
    }

    /// The document at the head of `bytes`; what follows it is ignored.
    ///
    /// Fails as the format says, and with `StructuralViolation` where the
    /// root is not a compound.
    pub fn from_bytes(bytes: &Vec<u8>) -> (r: Result<NBTFile, DecodeError>)
        ensures
            match r {
                Ok(file) => decode(bytes@) == Ok::<Document, DecodeError>(file@),
                Err(e) => decode(bytes@) == Err::<Document, DecodeError>(e),
            },
    {
        match read_nbt_file(bytes.as_slice()) {
            Ok((_, Some(file_root))) => Ok(file_root),
            Ok((_, None)) => Err(DecodeError::StructuralViolation),
            Err(e) => Err(e),
        }
    }

    /// The bytes of the document: the type id of the root, the name, and the
    /// payload of the root.
    pub fn as_bytes(&self) -> (r: Result<Vec<u8>, EncodeError>)
        ensures
            match r {
                Ok(out) => encode_error(self@.root) is None && out@ == encode(self@),
                Err(e) => encode_error(self@.root) == Some(e),
            },
    {
        write_tag(&self.root, true, true, Some(&self.root_name))
    }
}

} // verus!
