//! The installed-file database's contents records: the files, directories,
//! and symlinks owned by an installed package.

pub mod parsers;

use vstd::prelude::*;

use crate::parser_utils::is_hex;

verus! {

/// One record of a contents file.
#[derive(Clone, Debug, PartialEq, Eq)]
pub enum Content {
    Obj(Obj),
    Dir(Dir),
    Sym(Sym),
}

/// A regular file: `obj <path> <md5> <size>`.
#[derive(Clone, Debug, PartialEq, Eq)]
pub struct Obj {
    pub path: String,
    pub md5: String,
    pub size: u64,
}

/// A directory: `dir <path>`.
#[derive(Clone, Debug, PartialEq, Eq)]
pub struct Dir {
    pub path: String,
}

/// A symlink: `sym <path> -> <path> <size>`.
#[derive(Clone, Debug, PartialEq, Eq)]
pub struct Sym {
    pub src: String,
    pub dest: String,
    pub size: u64,
}

/// A valid MD5 column: exactly 32 hexadecimal digits.
pub open spec fn md5_ok(t: Seq<char>) -> bool {
    &&& t.len() == 32
    &&& forall|j: int| 0 <= j < t.len() ==> is_hex(#[trigger] t[j])
}

impl Obj {
    /// The record's MD5 column is well formed.
    pub open spec fn wf(&self) -> bool {
        md5_ok(self.md5@)
    }
}

impl Content {
    /// The record is well formed.
    pub open spec fn wf(&self) -> bool {
        match self {
            Content::Obj(o) => o.wf(),
            Content::Dir(_) => true,
            Content::Sym(_) => true,
        }
    }
}

/// The pure content of an `obj` record, for stating laws.
pub ghost struct ObjModel {
    pub path: Seq<char>,
    pub md5: Seq<char>,
    pub size: nat,
}

/// The pure content of a `dir` record, for stating laws.
pub ghost struct DirModel {
    pub path: Seq<char>,
}

/// The pure content of a `sym` record, for stating laws.
pub ghost struct SymModel {
    pub src: Seq<char>,
    pub dest: Seq<char>,
    pub size: nat,
}

/// The pure content of a contents record, for stating laws.
pub ghost enum ContentModel {
    Obj(ObjModel),
    Dir(DirModel),
    Sym(SymModel),
}

impl View for Obj {
    type V = ObjModel;

    open spec fn view(&self) -> ObjModel {
        ObjModel { path: self.path@, md5: self.md5@, size: self.size as nat }
    }
}

impl View for Dir {
    type V = DirModel;

    open spec fn view(&self) -> DirModel {
        DirModel { path: self.path@ }
    }
}

impl View for Sym {
    type V = SymModel;

    open spec fn view(&self) -> SymModel {
        SymModel { src: self.src@, dest: self.dest@, size: self.size as nat }
    }
}

impl View for Content {
    type V = ContentModel;

    open spec fn view(&self) -> ContentModel {
        match self {
            Content::Obj(o) => ContentModel::Obj(o@),
            Content::Dir(d) => ContentModel::Dir(d@),
            Content::Sym(y) => ContentModel::Sym(y@),
        }
    }
}

} // verus!
