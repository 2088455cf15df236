//! What this library reads out of object files, and the calls that read it.
//!
//! Parsing is done by the `object` crate. The functions in this module hand
//! its answers on as plain values; their contracts are taken on trust. They
//! name each answer as a function of the file's bytes: with the features
//! that `object` has by default it reads data wherever it lies in memory, so
//! that the bytes alone decide.

use crate::macho::matching::ObjectMapSymbol;
use object::read::macho::MachHeader;
use object::{Object, ObjectSegment, ObjectSymbol};
use vstd::prelude::*;

verus! {

/// The kinds of file that the engine tells apart.
#[derive(Clone, Copy, Debug, PartialEq, Eq, Structural)]
pub enum FileKind {
    /// A 32-bit Mach-O file.
    MachO32,
    /// A 64-bit Mach-O file.
    MachO64,
    /// Any other kind of file that can be recognised.
    Other,
}

/// A segment of an object file.
#[derive(Debug, PartialEq, Eq)]
pub struct Segment {
    /// The segment's name, where it has one that is valid UTF-8.
    pub name: Option<String>,
    /// The address that the segment is loaded at.
    pub address: u64,
}

/// An entry of an object file's symbol table.
#[derive(Debug, PartialEq, Eq)]
pub struct Symbol {
    /// The symbol's name, where it is valid UTF-8.
    pub name: Option<String>,
    pub address: u64,
}

/// The object map of a linked binary.
#[derive(Debug, PartialEq, Eq)]
pub struct ObjectMap {
    /// The functions of the map.
    pub symbols: Vec<ObjectMapSymbol>,
    /// The names of the object files that the functions came from.
    pub objects: Vec<Vec<u8>>,
}

/// The byte strings of a list of names.
pub open spec fn names_view(names: Seq<Vec<u8>>) -> Seq<Seq<u8>> {
    names.map_values(|n: Vec<u8>| n@)
}

/// Mathematical model of an [`ObjectMap`].
pub struct ObjectMapView {
    pub symbols: Seq<ObjectMapSymbol>,
    pub objects: Seq<Seq<u8>>,
}

impl View for ObjectMap {
    type V = ObjectMapView;

    open spec fn view(&self) -> ObjectMapView {
        ObjectMapView { symbols: self.symbols@, objects: names_view(self.objects@) }
    }
}

/// What was read as a list, as a sequence.
pub open spec fn listed<T>(read: Result<Vec<T>, object::Error>) -> Result<Seq<T>, object::Error> {
    match read {
        Ok(list) => Ok(list@),
        Err(e) => Err(e),
    }
}

/// What was read as an object map, as its model.
pub open spec fn mapped(read: Result<ObjectMap, object::Error>) -> Result<
    ObjectMapView,
    object::Error,
> {
    match read {
        Ok(map) => Ok(map@),
        Err(e) => Err(e),
    }
}

/// A member of a static archive.
#[derive(Debug, PartialEq, Eq)]
pub struct ArchiveMember {
    pub name: Vec<u8>,
    /// Offset and size of the member's data within the archive.
    pub file_range: (u64, u64),
}

/// The file kind that `object::FileKind::parse` finds at the start of `data`.
pub uninterp spec fn file_kind_of(data: Seq<u8>) -> Result<FileKind, object::Error>;

/// The UUID that `object` reads from the load commands of the 32-bit Mach-O
/// header at the start of `data`.
pub uninterp spec fn macho32_uuid_of(data: Seq<u8>) -> Result<Option<[u8; 16]>, object::Error>;

/// The UUID that `object` reads from the load commands of the 64-bit Mach-O
/// header at the start of `data`.
pub uninterp spec fn macho64_uuid_of(data: Seq<u8>) -> Result<Option<[u8; 16]>, object::Error>;

/// The segments that `object` lists for the Mach-O file `data`.
pub uninterp spec fn segments_of(data: Seq<u8>) -> Result<Seq<Segment>, object::Error>;

/// The symbol table that `object` lists for the Mach-O file `data`.
pub uninterp spec fn symbols_of(data: Seq<u8>) -> Result<Seq<Symbol>, object::Error>;

/// The object map that `object` builds for the Mach-O file `data`.
pub uninterp spec fn object_map_of(data: Seq<u8>) -> Result<ObjectMapView, object::Error>;

/// The members that `object` lists for the static archive `data`; `None`
/// stands for a member whose header cannot be read.
pub uninterp spec fn archive_members_of(data: Seq<u8>) -> Result<
    Seq<Option<ArchiveMember>>,
    object::Error,
>;

/// The data starts with the four bytes `magic`.
pub open spec fn starts_with(data: Seq<u8>, magic: Seq<u8>) -> bool {
    data.len() >= 4 && data.subrange(0, 4) == magic
}

/// The data starts like a 32-bit Mach-O file, in either byte order.
pub open spec fn has_macho32_magic(data: Seq<u8>) -> bool {
    starts_with(data, seq![0xfeu8, 0xedu8, 0xfau8, 0xceu8]) || starts_with(
        data,
        seq![0xceu8, 0xfau8, 0xedu8, 0xfeu8],
    )
}

/// The data starts like a 64-bit Mach-O file, in either byte order.
pub open spec fn has_macho64_magic(data: Seq<u8>) -> bool {
    starts_with(data, seq![0xfeu8, 0xedu8, 0xfau8, 0xcfu8]) || starts_with(
        data,
        seq![0xcfu8, 0xfau8, 0xedu8, 0xfeu8],
    )
}

/// The kind was found, and is `kind`.
pub open spec fn is_kind(found: Result<FileKind, object::Error>, kind: FileKind) -> bool {
    found matches Ok(k) && k == kind
}

/// The file is a Mach-O file, as `object` tells its kind.
pub open spec fn is_mach_o(data: Seq<u8>) -> bool {
    file_kind_of(data) matches Ok(kind) && kind != FileKind::Other
}

/// Calls `object::FileKind::parse`. The contract names the result; kinds
/// other than the two Mach-O ones come back as `Other`. Of how the kind is
/// found it claims what the source of `parse_at` shows: data of fewer than
/// sixteen bytes is an error, and longer data is a Mach-O file of 32 or of
/// 64 bits exactly where it starts with one of the magic numbers of that
/// format.
#[verifier::external_body]
pub(crate) fn file_kind(data: &[u8]) -> (r: Result<FileKind, object::Error>)
    ensures
        r == file_kind_of(data@),
        data@.len() < 16 ==> r is Err,
        is_kind(r, FileKind::MachO32) == (data@.len() >= 16 && has_macho32_magic(data@)),
        is_kind(r, FileKind::MachO64) == (data@.len() >= 16 && has_macho64_magic(data@)),
{
    match object::FileKind::parse(data)? {
        object::FileKind::MachO32 => Ok(FileKind::MachO32),
        object::FileKind::MachO64 => Ok(FileKind::MachO64),
        _ => Ok(FileKind::Other),
    }
}

/// Calls `MachHeader::parse`, `endian` and `uuid` of `object` for a 32-bit
/// header at offset 0. The contract names the result.
#[verifier::external_body]
pub(crate) fn macho32_uuid(data: &[u8]) -> (r: Result<Option<[u8; 16]>, object::Error>)
    ensures
        r == macho32_uuid_of(data@),
{
    let header = object::macho::MachHeader32::<object::Endianness>::parse(data, 0)?;
    header.uuid(header.endian()?, data, 0)
}

/// Calls `MachHeader::parse`, `endian` and `uuid` of `object` for a 64-bit
/// header at offset 0. The contract names the result.
#[verifier::external_body]
pub(crate) fn macho64_uuid(data: &[u8]) -> (r: Result<Option<[u8; 16]>, object::Error>)
    ensures
        r == macho64_uuid_of(data@),
{
    let header = object::macho::MachHeader64::<object::Endianness>::parse(data, 0)?;
    header.uuid(header.endian()?, data, 0)
}

/// The error with which `object` refuses to parse `data` as a 64-bit Mach-O
/// file, where it refuses.
pub uninterp spec fn mach_o_refusal_of(data: Seq<u8>) -> object::Error;

/// Calls `object::read::macho::MachOFile64::parse` and keeps the error, for
/// data of any kind. The contract names the error, and claims that there is
/// one for data that does not start with a magic number of 64-bit Mach-O:
/// parsing begins with the header, which `object` refuses unless its magic
/// number is one of the two.
#[verifier::external_body]
pub(crate) fn mach_o_refusal(data: &[u8]) -> (r: Option<object::Error>)
    ensures
        r matches Some(e) ==> e == mach_o_refusal_of(data@),
        !has_macho64_magic(data@) ==> r is Some,
{
    object::read::macho::MachOFile64::<object::Endianness>::parse(data).err()
}

/// Whether every function of the map names one of the map's object files.
pub open spec fn object_indices_in_range(map: ObjectMapView) -> bool {
    forall|i: int|
        0 <= i < map.symbols.len() ==> (#[trigger] map.symbols[i]).object_index
            < map.objects.len()
}

/// Calls `object::File::parse` and lists the file's segments, each with the
/// name and the address that `object` gives for it. A name that `object`
/// cannot decode, or that is missing, comes back as `None`. The contract is
/// claimed for Mach-O files, the only ones that the library reads.
#[verifier::external_body]
pub(crate) fn read_segments(data: &[u8]) -> (r: Result<Vec<Segment>, object::Error>)
    requires
        is_mach_o(data@),
    ensures
        listed(r) == segments_of(data@),
{
    let file = object::File::parse(data)?;
    Ok(
        file.segments().map(
            |s| Segment { name: s.name().ok().flatten().map(str::to_owned), address: s.address() },
        ).collect(),
    )
}

/// Calls `object::File::parse` and lists the entries of the file's symbol
/// table, each with the name and the address that `object` gives for it. A
/// name that `object` cannot decode comes back as `None`. The contract is
/// claimed for Mach-O files, the only ones that the library reads.
#[verifier::external_body]
pub(crate) fn read_symbols(data: &[u8]) -> (r: Result<Vec<Symbol>, object::Error>)
    requires
        is_mach_o(data@),
    ensures
        listed(r) == symbols_of(data@),
{
    let file = object::File::parse(data)?;
    Ok(
        file.symbols().map(
            |s| Symbol { name: s.name().ok().map(str::to_owned), address: s.address() },
        ).collect(),
    )
}

/// Calls `object::File::parse` and `object_map`, and hands on the map's
/// functions and object names as they are, for a Mach-O file. Beyond naming
/// the result, the
/// contract claims that each function's object index is an index into the
/// object names: `object` takes the index from the length of that list when
/// it adds the name.
#[verifier::external_body]
pub(crate) fn read_object_map(data: &[u8]) -> (r: Result<ObjectMap, object::Error>)
    requires
        is_mach_o(data@),
    ensures
        mapped(r) == object_map_of(data@),
        r matches Ok(map) ==> object_indices_in_range(map@),
{
    let map = object::File::parse(data)?.object_map();
    Ok(
        ObjectMap {
            symbols: map.symbols().iter().map(
                |e|
                    ObjectMapSymbol {
                        name: e.name().to_vec(),
                        address: e.address(),
                        size: e.size(),
                        object_index: e.object_index(),
                    },
            ).collect(),
            objects: map.objects().iter().map(|o| o.to_vec()).collect(),
        },
    )
}

/// Calls `object::read::archive::ArchiveFile::parse` and lists the archive's
/// members, each with the name and the file range that `object` gives for
/// it. A member that `object` cannot read comes back as `None`.
#[verifier::external_body]
pub(crate) fn read_archive_members(data: &[u8]) -> (r: Result<
    Vec<Option<ArchiveMember>>,
    object::Error,
>)
    ensures
        listed(r) == archive_members_of(data@),
{
    let archive = object::read::archive::ArchiveFile::parse(data)?;
    Ok(
        archive.members().map(
            |m| m.ok().map(|m| ArchiveMember { name: m.name().to_vec(), file_range: m.file_range() }),
        ).collect(),
    )
}

impl ObjectMap {
    /// Whether every function of the map names one of the map's object files.
    pub fn has_its_objects(&self) -> (b: bool)
        ensures
            b == object_indices_in_range(self@),
    {
        let mut i: usize = 0;
        assert(self@.objects.len() == self.objects@.len());
        while i < self.symbols.len()
            invariant
                0 <= i <= self.symbols@.len(),
                self@.objects.len() == self.objects@.len(),
                forall|j: int|
                    0 <= j < i ==> (#[trigger] self.symbols@[j]).object_index
                        < self.objects@.len(),
            decreases self.symbols@.len() - i,
        {
            if self.symbols[i].object_index >= self.objects.len() {
                assert(self@.symbols[i as int].object_index >= self@.objects.len());
                return false;
            }
            i += 1;
        }
        true
    }
}

} // verus!
