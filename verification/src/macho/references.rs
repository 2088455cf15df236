//! References from a linked binary to the object files that hold its debug
//! information.

use crate::error::GetSymbolsError;
use crate::macho::functions::{same_bytes, AddressWithOffset, FunctionsWithAddresses};
use crate::macho::object_file::{archive_members_of, read_archive_members, ArchiveMember};
use vstd::prelude::*;

verus! {

/// The addresses filed under each function name.
pub type Functions = Map<Seq<u8>, Seq<AddressWithOffset>>;

/// A file that holds debug information for some addresses: an object file,
/// or a static archive of object files.
#[derive(Debug)]
pub enum ObjectReference {
    /// An object file at `path`, with the addresses to look up in it.
    Regular { path: Vec<u8>, functions: FunctionsWithAddresses },
    /// A static archive at `path`, with the addresses to look up in each of
    /// its members, by the member's name. A name occurs once; the members
    /// stand in the order in which they were first referred to.
    Archive { path: Vec<u8>, archive_info: Vec<(Vec<u8>, FunctionsWithAddresses)> },
}

/// Mathematical model of an [`ObjectReference`].
pub enum ObjectReferenceView {
    Regular { path: Seq<u8>, functions: Functions },
    Archive { path: Seq<u8>, archive_info: Seq<(Seq<u8>, Functions)> },
}

/// The model of a list of functions by name.
pub open spec fn named_functions_view(entries: Seq<(Vec<u8>, FunctionsWithAddresses)>) -> Seq<
    (Seq<u8>, Functions),
> {
    entries.map_values(|e: (Vec<u8>, FunctionsWithAddresses)| (e.0@, e.1@))
}

impl View for ObjectReference {
    type V = ObjectReferenceView;

    open spec fn view(&self) -> ObjectReferenceView {
        match *self {
            ObjectReference::Regular { path, functions } => ObjectReferenceView::Regular {
                path: path@,
                functions: functions@,
            },
            ObjectReference::Archive { path, archive_info } => ObjectReferenceView::Archive {
                path: path@,
                archive_info: named_functions_view(archive_info@),
            },
        }
    }
}

/// The models of a sequence of references, in order.
pub open spec fn references_view(references: Seq<ObjectReference>) -> Seq<ObjectReferenceView> {
    references.map_values(|r: ObjectReference| r@)
}

/// The path that a reference points to.
pub open spec fn path_of(reference: ObjectReferenceView) -> Seq<u8> {
    match reference {
        ObjectReferenceView::Regular { path, .. } => path,
        ObjectReferenceView::Archive { path, .. } => path,
    }
}

/// An object inside a file that was opened: where its bytes lie, and the
/// addresses to look up in it.
#[derive(Debug)]
pub struct ObjectInFile {
    /// Offset and size of the object's bytes within the file.
    pub range: (u64, u64),
    pub functions: FunctionsWithAddresses,
}

/// The models of a sequence of objects, in order.
pub open spec fn objects_view(objects: Seq<ObjectInFile>) -> Seq<((u64, u64), Functions)> {
    objects.map_values(|o: ObjectInFile| (o.range, o.functions@))
}

/// The file range of the archive member called `name`: that of the last
/// readable member with this name.
pub open spec fn member_range(members: Seq<Option<ArchiveMember>>, name: Seq<u8>) -> Option<
    (u64, u64),
>
    decreases members.len(),
{
    if members.len() == 0 {
        None
    } else {
        match members.last() {
            Some(member) => if member.name@ == name {
                Some(member.file_range)
            } else {
                member_range(members.drop_last(), name)
            },
            None => member_range(members.drop_last(), name),
        }
    }
}

/// The objects that the first `upto` entries of `archive_info` refer to among
/// the archive's members: one for each entry whose member exists, in the
/// order of the entries.
pub open spec fn objects_in_archive(
    archive_info: Seq<(Seq<u8>, Functions)>,
    members: Seq<Option<ArchiveMember>>,
    upto: int,
) -> Seq<((u64, u64), Functions)>
    decreases upto,
{
    if upto <= 0 {
        Seq::empty()
    } else {
        let before = objects_in_archive(archive_info, members, upto - 1);
        match member_range(members, archive_info[upto - 1].0) {
            Some(range) => before.push((range, archive_info[upto - 1].1)),
            None => before,
        }
    }
}

/// Looks up the file range of the archive member called `name`.
pub fn find_member(members: &[Option<ArchiveMember>], name: &[u8]) -> (range: Option<(u64, u64)>)
    ensures
        range == member_range(members@, name@),
{
    let mut i: usize = members.len();
    assert(members@.subrange(0, i as int) =~= members@);
    while i > 0
        invariant
            0 <= i <= members@.len(),
            member_range(members@, name@) == member_range(members@.subrange(0, i as int), name@),
        decreases i,
    {
        let ghost prefix = members@.subrange(0, i as int);
        assert(prefix.drop_last() =~= members@.subrange(0, i - 1));
        assert(prefix.last() == members@[i - 1]);
        match &members[i - 1] {
            Some(member) => {
                if same_bytes(member.name.as_slice(), name) {
                    return Some(member.file_range);
                }
            },
            None => {},
        }
        i -= 1;
    }
    None
}

/// Picks, for each entry of `archive_info`, the archive member that it
/// names. Entries whose member is not in the archive are left out.
pub fn pick_archive_members(
    archive_info: Vec<(Vec<u8>, FunctionsWithAddresses)>,
    members: &[Option<ArchiveMember>],
) -> (objects: Vec<ObjectInFile>)
    ensures
        objects_view(objects@) == objects_in_archive(
            named_functions_view(archive_info@),
            members@,
            archive_info@.len() as int,
        ),
{
    let ghost info = named_functions_view(archive_info@);
    let mut entries = archive_info;
    let n = entries.len();
    let mut objects: Vec<ObjectInFile> = Vec::new();
    let mut i: usize = 0;
    assert(objects_view(objects@) =~= objects_in_archive(info, members@, 0));
    while i < n
        invariant
            0 <= i <= n == entries@.len() == info.len(),
            forall|j: int|
                i <= j < n ==> (#[trigger] entries@[j]).0@ == info[j].0 && entries@[j].1@
                    == info[j].1,
            objects_view(objects@) == objects_in_archive(info, members@, i as int),
        decreases n - i,
    {
        let ghost before = objects_view(objects@);
        match find_member(members, entries[i].0.as_slice()) {
            Some(range) => {
                let mut functions = FunctionsWithAddresses::new();
                std::mem::swap(&mut functions, &mut entries[i].1);
                objects.push(ObjectInFile { range, functions });
                assert(objects_view(objects@) =~= before.push((range, info[i as int].1)));
            },
            None => {},
        }
        i += 1;
    }
    objects
}

/// The objects that `reference` points to inside the file with the bytes
/// `data`: the whole file for an object file; for an archive the members
/// that are referred to, or the error with which the archive's member
/// directory cannot be read.
pub open spec fn objects_of(reference: ObjectReferenceView, data: Seq<u8>) -> Result<
    Seq<((u64, u64), Functions)>,
    object::Error,
> {
    match reference {
        ObjectReferenceView::Regular { functions, .. } => Ok(
            seq![((0u64, data.len() as u64), functions)],
        ),
        ObjectReferenceView::Archive { archive_info, .. } => match archive_members_of(data) {
            Ok(members) => Ok(
                objects_in_archive(archive_info, members, archive_info.len() as int),
            ),
            Err(e) => Err(e),
        },
    }
}

/// `outcome` is what opening the reference `reference` on a file with the
/// bytes `data` gives: its objects, or an error that names the archive.
pub open spec fn is_objects_outcome(
    reference: ObjectReferenceView,
    data: Seq<u8>,
    outcome: Result<Vec<ObjectInFile>, GetSymbolsError>,
) -> bool {
    match objects_of(reference, data) {
        Ok(objects) => outcome matches Ok(found) && objects_view(found@) == objects,
        Err(e) => outcome matches Err(GetSymbolsError::ArchiveParseError(at, inner)) && at@
            == path_of(reference) && inner == e,
    }
}

impl ObjectReference {
    /// The path of the file to open.
    pub fn path(&self) -> (path: &[u8])
        ensures
            path@ == path_of(self@),
    {
        match self {
            ObjectReference::Regular { path, .. } => path.as_slice(),
            ObjectReference::Archive { path, .. } => path.as_slice(),
        }
    }

    /// The objects that this reference points to inside the file at its
    /// path, whose bytes are `data`: the whole file for an object file, the
    /// members referred to for an archive.
    pub fn into_objects(self, data: &[u8]) -> (outcome: Result<Vec<ObjectInFile>, GetSymbolsError>)
        ensures
            is_objects_outcome(self@, data@, outcome),
    {
        match self {
            ObjectReference::Regular { functions, .. } => {
                let mut objects: Vec<ObjectInFile> = Vec::new();
                objects.push(ObjectInFile { range: (0, data.len() as u64), functions });
                assert(objects_view(objects@) =~= seq![((0u64, data@.len() as u64), functions@)]);
                Ok(objects)
            },
            ObjectReference::Archive { path, archive_info } => {
                match read_archive_members(data) {
                    Ok(members) => Ok(pick_archive_members(archive_info, members.as_slice())),
                    Err(err) => Err(GetSymbolsError::ArchiveParseError(path, err)),
                }
            },
        }
    }
}

} // verus!
