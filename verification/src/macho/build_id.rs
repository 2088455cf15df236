//! Build ids: the identifier by which a binary and its debug information are
//! matched.
//!
//! The build id of a Mach-O binary is its UUID written as 32 upper-case
//! hexadecimal digits, with the digit `0` appended.

use crate::error::GetSymbolsError;
use crate::macho::object_file::{
    file_kind, file_kind_of, macho32_uuid, macho32_uuid_of, macho64_uuid, macho64_uuid_of, FileKind,
};
use vstd::pervasive::unreached;
use vstd::prelude::*;
use vstd::slice::slice_subrange;

verus! {

/// `String::push` appends the character to the end of the string.
pub assume_specification[ String::push ](s: &mut String, ch: char)
    ensures
        final(s)@ == old(s)@.push(ch),
;

/// The upper-case hexadecimal digit for a number below 16.
pub open spec fn upper_hex_digit(n: int) -> char {
    if n < 10 {
        (48 + n) as char
    } else {
        (55 + n) as char
    }
}

/// The bytes written as upper-case hexadecimal digits, two for each byte,
/// the high half first.
pub open spec fn upper_hex(bytes: Seq<u8>) -> Seq<char> {
    Seq::new(
        2 * bytes.len(),
        |i: int|
            upper_hex_digit(
                if i % 2 == 0 {
                    bytes[i / 2] as int / 16
                } else {
                    bytes[i / 2] as int % 16
                },
            ),
    )
}

/// The build id of a binary with the given UUID.
pub open spec fn build_id_of_uuid(uuid: Seq<u8>) -> Seq<char> {
    upper_hex(uuid).push('0')
}

/// Formats the UUID through the `uuid` crate: `Uuid::from_bytes`, then its
/// simple form in upper case. The contract claims what that form is: two
/// upper-case hexadecimal digits for each byte, in order, without hyphens.
#[verifier::external_body]
fn uuid_upper_hex(uuid: [u8; 16]) -> (text: String)
    ensures
        text@ == upper_hex(uuid@),
{
    format!("{:X}", uuid::Uuid::from_bytes(uuid).to_simple())
}

/// The build id of a binary with the given UUID.
pub fn build_id_from_uuid(uuid: [u8; 16]) -> (build_id: String)
    ensures
        build_id@ == build_id_of_uuid(uuid@),
        build_id@.len() == 33,
{
    let mut build_id = uuid_upper_hex(uuid);
    build_id.push('0');
    build_id
}

/// What reading the UUID of the file `data` comes to: the UUID of its
/// Mach-O header where there is one, `None` where the header has no UUID
/// load command, or the error with which reading failed. The value for a
/// file of another kind is not used.
pub open spec fn uuid_of(data: Seq<u8>) -> Result<Option<[u8; 16]>, object::Error> {
    match file_kind_of(data) {
        Err(e) => Err(e),
        Ok(FileKind::MachO32) => macho32_uuid_of(data),
        Ok(FileKind::MachO64) => macho64_uuid_of(data),
        Ok(FileKind::Other) => Ok(None),
    }
}

/// The file is a Mach-O file, or its kind cannot be told.
pub open spec fn mach_o_or_unknown(data: Seq<u8>) -> bool {
    !(file_kind_of(data) matches Ok(FileKind::Other))
}

/// The text of the error for a header without a UUID.
pub open spec fn missing_uuid() -> Seq<char> {
    "missing uuid"@
}

/// `outcome` is what looking up the build id gives where reading the UUID
/// came to `uuid`.
pub open spec fn is_build_id_outcome(
    uuid: Result<Option<[u8; 16]>, object::Error>,
    outcome: Result<String, GetSymbolsError>,
) -> bool {
    match uuid {
        Ok(Some(uuid)) => outcome matches Ok(build_id) && build_id@ == build_id_of_uuid(uuid@),
        Ok(None) => outcome matches Err(GetSymbolsError::InvalidInput(text)) && text@
            == missing_uuid(),
        Err(e) => outcome matches Err(GetSymbolsError::MachOHeaderParseError(inner)) && inner == e,
    }
}

/// Turns what was read of a file's UUID into the file's build id.
pub fn build_id_from_lookup(uuid: Result<Option<[u8; 16]>, object::Error>) -> (outcome: Result<
    String,
    GetSymbolsError,
>)
    ensures
        is_build_id_outcome(uuid, outcome),
{
    match uuid {
        Ok(Some(uuid)) => Ok(build_id_from_uuid(uuid)),
        Ok(None) => Err(GetSymbolsError::InvalidInput("missing uuid")),
        Err(err) => Err(GetSymbolsError::MachOHeaderParseError(err)),
    }
}

/// The build id of the Mach-O file `data`.
///
/// The file must be a Mach-O file, as far as its kind can be told; see
/// [`get_macho_uuid_checked`] for files of any kind.
pub fn get_macho_uuid(data: &[u8]) -> (outcome: Result<String, GetSymbolsError>)
    requires
        mach_o_or_unknown(data@),
    ensures
        is_build_id_outcome(uuid_of(data@), outcome),
{
    let uuid = match file_kind(data) {
        Ok(FileKind::MachO32) => macho32_uuid(data),
        Ok(FileKind::MachO64) => macho64_uuid(data),
        Ok(FileKind::Other) => unreached(),
        Err(err) => Err(err),
    };
    build_id_from_lookup(uuid)
}

/// The build id of the file `data`, or `None` where the file is of a kind
/// other than Mach-O.
pub fn get_macho_uuid_checked(data: &[u8]) -> (outcome: Option<Result<String, GetSymbolsError>>)
    ensures
        outcome is Some <==> mach_o_or_unknown(data@),
        outcome matches Some(found) ==> is_build_id_outcome(uuid_of(data@), found),
{
    match file_kind(data) {
        Ok(FileKind::Other) => None,
        _ => Some(get_macho_uuid(data)),
    }
}

/// The part of `data` that a reader restricted to `size` bytes from `start`
/// can see.
pub open spec fn byte_range(data: Seq<u8>, start: u64, size: u64) -> Seq<u8> {
    let from = if start <= data.len() {
        start as int
    } else {
        data.len() as int
    };
    let to = if start + size <= data.len() {
        start + size
    } else {
        data.len() as int
    };
    data.subrange(from, to)
}

/// Restricts `data` to the `size` bytes from `start`, as far as they exist.
pub fn range(data: &[u8], start: u64, size: u64) -> (part: &[u8])
    ensures
        part@ == byte_range(data@, start, size),
{
    let len = data.len();
    if start as u128 > len as u128 {
        slice_subrange(data, len, len)
    } else if start as u128 + size as u128 > len as u128 {
        slice_subrange(data, start as usize, len)
    } else {
        slice_subrange(data, start as usize, (start + size) as usize)
    }
}

/// An architecture of a fat binary: offset and size of its slice within the file.
pub type ArchRange = (u64, u64);

/// What reading the UUID of the slice `arch` of the fat binary `data` comes to.
pub open spec fn slice_uuid(data: Seq<u8>, arch: ArchRange) -> Result<
    Option<[u8; 16]>,
    object::Error,
> {
    uuid_of(byte_range(data, arch.0, arch.1))
}

/// The slice `arch` has the build id `build_id`.
pub open spec fn slice_matches(data: Seq<u8>, arch: ArchRange, build_id: Seq<char>) -> bool {
    slice_uuid(data, arch) matches Ok(Some(uuid)) && build_id_of_uuid(uuid@) == build_id
}

/// Index of the first of `arches`, from `from` on, whose slice has the build
/// id `build_id`; the number of architectures where none has.
pub open spec fn first_matching_arch(
    data: Seq<u8>,
    arches: Seq<ArchRange>,
    build_id: Seq<char>,
    from: int,
) -> int
    decreases arches.len() - from,
{
    if from < 0 || from >= arches.len() {
        arches.len() as int
    } else if slice_matches(data, arches[from], build_id) {
        from
    } else {
        first_matching_arch(data, arches, build_id, from + 1)
    }
}

/// The build ids of the first `upto` slices that have one, in order.
pub open spec fn build_ids_seen(data: Seq<u8>, arches: Seq<ArchRange>, upto: int) -> Seq<Seq<char>>
    decreases upto,
{
    if upto <= 0 {
        Seq::empty()
    } else {
        match slice_uuid(data, arches[upto - 1]) {
            Ok(Some(uuid)) => build_ids_seen(data, arches, upto - 1).push(build_id_of_uuid(uuid@)),
            _ => build_ids_seen(data, arches, upto - 1),
        }
    }
}

/// What reading the UUID came to for those of the first `upto` slices that
/// have no build id, in order.
pub open spec fn failures_seen(data: Seq<u8>, arches: Seq<ArchRange>, upto: int) -> Seq<
    Result<Option<[u8; 16]>, object::Error>,
>
    decreases upto,
{
    if upto <= 0 {
        Seq::empty()
    } else {
        match slice_uuid(data, arches[upto - 1]) {
            Ok(Some(_)) => failures_seen(data, arches, upto - 1),
            failure => failures_seen(data, arches, upto - 1).push(failure),
        }
    }
}

/// The characters of each string.
pub open spec fn texts(strings: Seq<String>) -> Seq<Seq<char>> {
    strings.map_values(|s: String| s@)
}

/// `errors` holds, in order, the error for each of `failures`.
pub open spec fn are_errors_of(
    errors: Seq<GetSymbolsError>,
    failures: Seq<Result<Option<[u8; 16]>, object::Error>>,
) -> bool {
    errors.len() == failures.len() && forall|j: int|
        0 <= j < errors.len() ==> is_build_id_outcome(
            #[trigger] failures[j],
            Err::<String, GetSymbolsError>(errors[j]),
        )
}

/// Every slice up to and including the first that matches is a Mach-O file,
/// as far as its kind can be told.
pub open spec fn slices_are_mach_o(data: Seq<u8>, arches: Seq<ArchRange>, build_id: Seq<char>) -> bool {
    forall|i: int|
        0 <= i < arches.len() && i <= first_matching_arch(data, arches, build_id, 0)
            ==> mach_o_or_unknown(byte_range(data, (#[trigger] arches[i]).0, arches[i].1))
}

/// `outcome` is what selecting the slice with the build id `build_id` gives:
/// the range of the first slice that has it; where none has, the build ids
/// that were seen and the errors of the slices that have none.
pub open spec fn is_arch_range_outcome(
    data: Seq<u8>,
    arches: Seq<ArchRange>,
    build_id: Seq<char>,
    outcome: Result<ArchRange, GetSymbolsError>,
) -> bool {
    let first = first_matching_arch(data, arches, build_id, 0);
    if first < arches.len() {
        outcome == Ok::<ArchRange, GetSymbolsError>(arches[first])
    } else {
        outcome matches Err(GetSymbolsError::NoMatchMultiArch(uuids, errors)) && texts(uuids@)
            == build_ids_seen(data, arches, arches.len() as int) && are_errors_of(
            errors@,
            failures_seen(data, arches, arches.len() as int),
        )
    }
}

/// A slice before the first matching one does not match.
proof fn lemma_first_matching_arch(
    data: Seq<u8>,
    arches: Seq<ArchRange>,
    build_id: Seq<char>,
    from: int,
    at: int,
)
    requires
        0 <= from <= at <= arches.len(),
        forall|j: int| from <= j < at ==> !slice_matches(data, #[trigger] arches[j], build_id),
        at < arches.len() ==> slice_matches(data, arches[at], build_id),
    ensures
        first_matching_arch(data, arches, build_id, from) == at,
    decreases at - from,
{
    if from < at {
        assert(!slice_matches(data, arches[from], build_id));
        lemma_first_matching_arch(data, arches, build_id, from + 1, at);
    }
}

/// The first matching slice lies at or after the start of the search.
proof fn lemma_first_matching_arch_bounds(
    data: Seq<u8>,
    arches: Seq<ArchRange>,
    build_id: Seq<char>,
    from: int,
)
    requires
        0 <= from <= arches.len(),
    ensures
        from <= first_matching_arch(data, arches, build_id, from) <= arches.len(),
        forall|j: int|
            from <= j < first_matching_arch(data, arches, build_id, from) ==> !slice_matches(
                data,
                #[trigger] arches[j],
                build_id,
            ),
    decreases arches.len() - from,
{
    if from < arches.len() && !slice_matches(data, arches[from], build_id) {
        lemma_first_matching_arch_bounds(data, arches, build_id, from + 1);
    }
}

/// Returns the (offset, size) in the fat binary file for the object that
/// matches `breakpad_id`, if found.
///
/// Every slice that is looked at must be a Mach-O file, as far as its kind
/// can be told; see [`get_arch_range_checked`] for fat binaries with slices
/// of any kind.
pub fn get_arch_range(file_contents: &[u8], arches: &[ArchRange], breakpad_id: &str) -> (outcome:
    Result<ArchRange, GetSymbolsError>)
    requires
        slices_are_mach_o(file_contents@, arches@, breakpad_id@),
    ensures
        is_arch_range_outcome(file_contents@, arches@, breakpad_id@, outcome),
{
    let ghost data = file_contents@;
    let wanted = breakpad_id.to_owned();
    let mut uuids: Vec<String> = Vec::new();
    let mut errors: Vec<GetSymbolsError> = Vec::new();
    let mut i: usize = 0;
    proof {
        lemma_first_matching_arch_bounds(data, arches@, breakpad_id@, 0);
        assert(texts(uuids@) =~= build_ids_seen(data, arches@, 0));
    }
    while i < arches.len()
        invariant
            0 <= i <= arches@.len(),
            data == file_contents@,
            wanted@ == breakpad_id@,
            slices_are_mach_o(data, arches@, breakpad_id@),
            forall|j: int| 0 <= j < i ==> !slice_matches(data, #[trigger] arches@[j], breakpad_id@),
            i <= first_matching_arch(data, arches@, breakpad_id@, 0),
            texts(uuids@) == build_ids_seen(data, arches@, i as int),
            are_errors_of(errors@, failures_seen(data, arches@, i as int)),
        decreases arches@.len() - i,
    {
        let range = arches[i];
        let (start, size) = range;
        let ghost uuids_before = uuids@;
        let ghost errors_before = errors@;
        match get_macho_uuid(self::range(file_contents, start, size)) {
            Ok(uuid) => {
                if uuid == wanted {
                    proof {
                        lemma_first_matching_arch(data, arches@, breakpad_id@, 0, i as int);
                    }
                    return Ok(range);
                }
                uuids.push(uuid);
                proof {
                    assert(texts(uuids@) =~= texts(uuids_before).push(uuid@));
                }
            },
            Err(err) => {
                errors.push(err);
                proof {
                    let failures = failures_seen(data, arches@, i + 1);
                    assert forall|j: int| 0 <= j < errors@.len() implies is_build_id_outcome(
                        #[trigger] failures[j],
                        Err::<String, GetSymbolsError>(errors@[j]),
                    ) by {
                        if j < errors_before.len() {
                            assert(errors@[j] == errors_before[j]);
                            assert(failures[j] == failures_seen(data, arches@, i as int)[j]);
                        }
                    }
                }
            },
        }
        proof {
            assert(!slice_matches(data, arches@[i as int], breakpad_id@));
            if first_matching_arch(data, arches@, breakpad_id@, 0) == i {
                lemma_first_matching_arch_bounds(data, arches@, breakpad_id@, 0);
                assert(i < arches@.len());
                lemma_first_matching_arch_at(data, arches@, breakpad_id@, 0);
            }
        }
        i += 1;
    }
    proof {
        lemma_first_matching_arch(data, arches@, breakpad_id@, 0, arches@.len() as int);
    }
    Err(GetSymbolsError::NoMatchMultiArch(uuids, errors))
}

/// Where the search finds a slice, that slice matches.
proof fn lemma_first_matching_arch_at(
    data: Seq<u8>,
    arches: Seq<ArchRange>,
    build_id: Seq<char>,
    from: int,
)
    requires
        0 <= from <= arches.len(),
    ensures
        first_matching_arch(data, arches, build_id, from) < arches.len() ==> slice_matches(
            data,
            arches[first_matching_arch(data, arches, build_id, from)],
            build_id,
        ),
    decreases arches.len() - from,
{
    if from < arches.len() && !slice_matches(data, arches[from], build_id) {
        lemma_first_matching_arch_at(data, arches, build_id, from + 1);
    }
}

/// Returns the (offset, size) in the fat binary file for the object that
/// matches `breakpad_id`, or `None` where a slice that has to be looked at is
/// of a kind other than Mach-O.
pub fn get_arch_range_checked(file_contents: &[u8], arches: &[ArchRange], breakpad_id: &str) -> (outcome:
    Option<Result<ArchRange, GetSymbolsError>>)
    ensures
        outcome is Some <==> slices_are_mach_o(file_contents@, arches@, breakpad_id@),
        outcome matches Some(found) ==> is_arch_range_outcome(
            file_contents@,
            arches@,
            breakpad_id@,
            found,
        ),
{
    let ghost data = file_contents@;
    let wanted = breakpad_id.to_owned();
    let mut i: usize = 0;
    proof {
        lemma_first_matching_arch_bounds(data, arches@, breakpad_id@, 0);
    }
    while i < arches.len()
        invariant
            0 <= i <= arches@.len(),
            data == file_contents@,
            wanted@ == breakpad_id@,
            forall|j: int| 0 <= j < i ==> !slice_matches(data, #[trigger] arches@[j], breakpad_id@),
            forall|j: int|
                0 <= j < i ==> mach_o_or_unknown(
                    byte_range(data, (#[trigger] arches@[j]).0, arches@[j].1),
                ),
        ensures
            forall|j: int|
                0 <= j < arches@.len() && j <= first_matching_arch(data, arches@, breakpad_id@, 0)
                    ==> mach_o_or_unknown(
                    byte_range(data, (#[trigger] arches@[j]).0, arches@[j].1),
                ),
        decreases arches@.len() - i,
    {
        let (start, size) = arches[i];
        match get_macho_uuid_checked(self::range(file_contents, start, size)) {
            None => {
                proof {
                    lemma_first_matching_arch_bounds(data, arches@, breakpad_id@, 0);
                    let first = first_matching_arch(data, arches@, breakpad_id@, 0);
                    if first < i {
                        lemma_first_matching_arch_at(data, arches@, breakpad_id@, 0);
                    }
                    assert(i <= first);
                    assert(!mach_o_or_unknown(
                        byte_range(data, arches@[i as int].0, arches@[i as int].1),
                    ));
                }
                return None;
            },
            Some(Ok(uuid)) => {
                if uuid == wanted {
                    proof {
                        lemma_first_matching_arch(data, arches@, breakpad_id@, 0, i as int);
                    }
                    break ;
                }
            },
            Some(Err(_)) => {},
        }
        i += 1;
    }
    Some(get_arch_range(file_contents, arches, breakpad_id))
}

} // verus!
