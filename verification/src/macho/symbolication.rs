//! The steps of symbolicating a Mach-O binary.
//!
//! The first step looks at the binary itself. The steps after it each take
//! one file that the binary's object map, or that of an object looked at
//! before, refers to. Opening the files, and reading line tables, is the
//! caller's part: each step hands back the addresses that the debug
//! information of the object at hand has to answer for.

use crate::address_order::sorted;
use crate::error::GetSymbolsError;
use crate::macho::build_id::{
    build_id_of_uuid, byte_range, get_macho_uuid_checked, is_build_id_outcome, mach_o_or_unknown,
    range, uuid_of,
};
use crate::macho::functions::{AddressPair, AddressWithOffset, FunctionsWithAddresses};
use crate::macho::matching::sorted_by_object_address;
use crate::macho::object_file::{
    file_kind, file_kind_of, mach_o_refusal, mach_o_refusal_of, object_map_of, read_object_map,
    read_segments, read_symbols, segments_of, symbols_of, FileKind, Segment, Symbol,
};
use crate::macho::references::{
    objects_of, objects_view, path_of, references_view, Functions, ObjectInFile, ObjectReference,
    ObjectReferenceView,
};
use crate::macho::sorting::{sort_by_address, sorted_by_address};
use crate::macho::split::{
    collect_debug_info_and_object_references, internal_addresses, new_references,
};
use std::collections::VecDeque;
use vstd::pervasive::unreached;
use vstd::prelude::*;
use vstd::utf8::encode_utf8;

verus! {

/// The characters of `"__TEXT"`.
pub open spec fn text_segment_name() -> Seq<char> {
    seq!['_', '_', 'T', 'E', 'X', 'T']
}

/// The address that the `__TEXT` segment is loaded at: that of the first
/// segment with this name among `segments[from..]`, and 0 where there is none.
pub open spec fn text_segment_address_from(segments: Seq<Segment>, from: int) -> u64
    decreases segments.len() - from,
{
    if from < 0 || from >= segments.len() {
        0
    } else if segments[from].name matches Some(name) && name@ == text_segment_name() {
        segments[from].address
    } else {
        text_segment_address_from(segments, from + 1)
    }
}

/// The address that the `__TEXT` segment is loaded at, and 0 where the
/// object has no such segment.
pub open spec fn text_segment_address(segments: Seq<Segment>) -> u64 {
    text_segment_address_from(segments, 0)
}

/// Finds the address that the `__TEXT` segment is loaded at.
pub fn vmaddr_of_text_segment(segments: &[Segment]) -> (vmaddr: u64)
    ensures
        vmaddr == text_segment_address(segments@),
{
    let wanted = "__TEXT".to_owned();
    proof {
        reveal_strlit("__TEXT");
        assert(wanted@ =~= text_segment_name());
    }
    let mut i: usize = 0;
    while i < segments.len()
        invariant
            0 <= i <= segments@.len(),
            wanted@ == text_segment_name(),
            text_segment_address(segments@) == text_segment_address_from(segments@, i as int),
        decreases segments@.len() - i,
    {
        match &segments[i].name {
            Some(name) => {
                if *name == wanted {
                    return segments[i].address;
                }
            },
            None => {},
        }
        i += 1;
    }
    0
}

/// The address pairs for the addresses of a query, in the binary whose
/// text segment is loaded at `vmaddr`: the address inside the binary is the
/// queried address moved up by `vmaddr`.
pub open spec fn root_pairs(addresses: Seq<u32>, vmaddr: u64) -> Seq<AddressPair> {
    Seq::new(
        addresses.len(),
        |i: int|
            AddressPair {
                original_address: addresses[i],
                address_in_this_object: (vmaddr + addresses[i]) as u64,
            },
    )
}

/// Every queried address, moved up by `vmaddr`, is a 64-bit address.
pub open spec fn root_pairs_fit(addresses: Seq<u32>, vmaddr: u64) -> bool {
    forall|i: int| 0 <= i < addresses.len() ==> vmaddr + addresses[i] <= u64::MAX
}

/// Makes an address pair for every address of the query.
///
/// The addresses of the symbol table, which a query speaks of, and the
/// addresses of the debug information differ by the address that the text
/// segment is loaded at: `0x100000000` for executables, 0 for shared
/// libraries. The result is `None` where an address cannot be moved up
/// within 64 bits.
pub fn make_address_pairs_for_root_object(addresses: &[u32], segments: &[Segment]) -> (pairs:
    Option<Vec<AddressPair>>)
    ensures
        pairs is Some <==> root_pairs_fit(addresses@, text_segment_address(segments@)),
        pairs matches Some(found) ==> found@ == root_pairs(
            addresses@,
            text_segment_address(segments@),
        ),
{
    let vmaddr_of_text_segment = vmaddr_of_text_segment(segments);
    let mut pairs: Vec<AddressPair> = Vec::new();
    let mut i: usize = 0;
    while i < addresses.len()
        invariant
            0 <= i <= addresses@.len(),
            pairs@.len() == i,
            vmaddr_of_text_segment == text_segment_address(segments@),
            forall|j: int| 0 <= j < i ==> vmaddr_of_text_segment + addresses@[j] <= u64::MAX,
            forall|j: int|
                0 <= j < i ==> pairs@[j] == root_pairs(addresses@, vmaddr_of_text_segment)[j],
        decreases addresses@.len() - i,
    {
        let a = addresses[i];
        if vmaddr_of_text_segment > u64::MAX - a as u64 {
            assert(vmaddr_of_text_segment + addresses@[i as int] > u64::MAX);
            return None;
        }
        pairs.push(
            AddressPair {
                original_address: a,
                address_in_this_object: vmaddr_of_text_segment + a as u64,
            },
        );
        i += 1;
    }
    assert(pairs@ =~= root_pairs(addresses@, vmaddr_of_text_segment));
    Some(pairs)
}

/// The pairs for sorted addresses are sorted by the address inside the binary.
pub proof fn lemma_root_pairs_sorted(addresses: Seq<u32>, vmaddr: u64)
    requires
        root_pairs_fit(addresses, vmaddr),
        sorted(addresses),
    ensures
        sorted_by_object_address(root_pairs(addresses, vmaddr)),
{
}

/// The key under which the addresses of the function `name` are filed: the
/// bytes of the name.
pub open spec fn function_key(name: String) -> Seq<u8> {
    encode_utf8(name@)
}

/// What is left of `functions` after the first `upto` symbols have taken
/// their addresses out of it.
pub open spec fn remaining_functions(symbols: Seq<Symbol>, functions: Functions, upto: int) -> Functions
    decreases upto,
{
    if upto <= 0 {
        functions
    } else {
        match symbols[upto - 1].name {
            Some(name) => remaining_functions(symbols, functions, upto - 1).remove(
                function_key(name),
            ),
            None => remaining_functions(symbols, functions, upto - 1),
        }
    }
}

/// The addresses `found` as addresses inside the object, for a function
/// that starts at `address`.
pub open spec fn rebased(address: u64, found: Seq<AddressWithOffset>) -> Seq<AddressPair> {
    Seq::new(
        found.len(),
        |j: int|
            AddressPair {
                original_address: found[j].original_address,
                address_in_this_object: (address + found[j].offset_from_function_start) as u64,
            },
    )
}

/// Every one of the addresses `found`, taken from `address`, is a 64-bit address.
pub open spec fn rebase_fits(address: u64, found: Seq<AddressWithOffset>) -> bool {
    forall|j: int|
        0 <= j < found.len() ==> address + (#[trigger] found[j]).offset_from_function_start
            <= u64::MAX
}

/// The addresses that symbol `i` takes over: those filed under its name,
/// unless a symbol before it had the same name.
pub open spec fn taken_by(symbols: Seq<Symbol>, functions: Functions, i: int) -> Option<
    Seq<AddressWithOffset>,
> {
    match symbols[i].name {
        Some(name) => {
            let left = remaining_functions(symbols, functions, i);
            if left.contains_key(function_key(name)) {
                Some(left[function_key(name)])
            } else {
                None
            }
        },
        None => None,
    }
}

/// The addresses of `functions` as addresses inside the object, for the
/// first `upto` symbols of its symbol table, in the order of the symbols.
pub open spec fn translated(symbols: Seq<Symbol>, functions: Functions, upto: int) -> Seq<
    AddressPair,
>
    decreases upto,
{
    if upto <= 0 {
        Seq::empty()
    } else {
        match taken_by(symbols, functions, upto - 1) {
            Some(found) => translated(symbols, functions, upto - 1) + rebased(
                symbols[upto - 1].address,
                found,
            ),
            None => translated(symbols, functions, upto - 1),
        }
    }
}

/// Every address that the first `upto` symbols take over is a 64-bit address
/// inside the object.
pub open spec fn translation_fits(symbols: Seq<Symbol>, functions: Functions, upto: int) -> bool
    decreases upto,
{
    if upto <= 0 {
        true
    } else {
        translation_fits(symbols, functions, upto - 1) && match taken_by(
            symbols,
            functions,
            upto - 1,
        ) {
            Some(found) => rebase_fits(symbols[upto - 1].address, found),
            None => true,
        }
    }
}

/// Turns the addresses of `functions`, which are offsets into functions,
/// into addresses inside the object whose symbol table is `symbols`. Each
/// function is looked up by name; a function that the symbol table does not
/// have is left out. The result is sorted by the address inside the object,
/// and `None` where an address cannot be placed within 64 bits.
pub fn translate_addresses_to_object(symbols: &[Symbol], functions: FunctionsWithAddresses) -> (pairs:
    Option<Vec<AddressPair>>)
    ensures
        pairs is Some <==> translation_fits(symbols@, functions@, symbols@.len() as int),
        pairs matches Some(found) ==> found@ == sorted_by_address(
            translated(symbols@, functions@, symbols@.len() as int),
        ),
{
    let ghost all = functions@;
    let mut remaining = functions;
    let mut addresses_in_this_object: Vec<AddressPair> = Vec::new();
    let mut i: usize = 0;
    while i < symbols.len()
        invariant
            0 <= i <= symbols@.len(),
            all == functions@,
            remaining@ == remaining_functions(symbols@, all, i as int),
            translation_fits(symbols@, all, i as int),
            addresses_in_this_object@ == translated(symbols@, all, i as int),
        decreases symbols@.len() - i,
    {
        let symbol = &symbols[i];
        if let Some(symbol_name) = &symbol.name {
            if let Some(addresses) = remaining.get_and_remove_addresses_for_function(
                symbol_name.as_str(),
            ) {
                let ghost before = addresses_in_this_object@;
                let mut j: usize = 0;
                while j < addresses.len()
                    invariant
                        0 <= j <= addresses@.len(),
                        0 <= i < symbols@.len(),
                        all == functions@,
                        *symbol == symbols@[i as int],
                        forall|x: int|
                            0 <= x < j ==> symbol.address + (
                            #[trigger] addresses@[x]).offset_from_function_start <= u64::MAX,
                        addresses_in_this_object@ == before + rebased(
                            symbol.address,
                            addresses@,
                        ).subrange(0, j as int),
                        taken_by(symbols@, all, i as int) == Some(addresses@),
                    decreases addresses@.len() - j,
                {
                    let AddressWithOffset { original_address, offset_from_function_start } =
                        addresses[j];
                    if symbol.address > u64::MAX - offset_from_function_start as u64 {
                        proof {
                            assert(symbol.address + addresses@[j as int].offset_from_function_start
                                > u64::MAX);
                            assert(!rebase_fits(symbol.address, addresses@));
                            assert(!translation_fits(symbols@, all, i + 1));
                            lemma_translation_fits_prefix(
                                symbols@,
                                all,
                                i + 1,
                                symbols@.len() as int,
                            );
                        }
                        return None;
                    }
                    let address_in_this_object = symbol.address + offset_from_function_start as u64;
                    addresses_in_this_object.push(
                        AddressPair { original_address, address_in_this_object },
                    );
                    assert(addresses_in_this_object@ =~= before + rebased(
                        symbol.address,
                        addresses@,
                    ).subrange(0, j + 1));
                    j += 1;
                }
                assert(rebased(symbol.address, addresses@).subrange(0, addresses@.len() as int)
                    =~= rebased(symbol.address, addresses@));
            }
        }
        i += 1;
    }
    sort_by_address(&mut addresses_in_this_object);
    Some(addresses_in_this_object)
}

/// Where the addresses of all symbols fit, those of the first `upto` do.
proof fn lemma_translation_fits_prefix(
    symbols: Seq<Symbol>,
    functions: Functions,
    upto: int,
    all: int,
)
    requires
        0 <= upto <= all,
    ensures
        translation_fits(symbols, functions, all) ==> translation_fits(symbols, functions, upto),
    decreases all - upto,
{
    if upto < all {
        lemma_translation_fits_prefix(symbols, functions, upto, all - 1);
    }
}

/// The bytes that a step looks at: the given range of the file, or the
/// whole file where no range is given.
pub open spec fn bytes_in_range(data: Seq<u8>, file_range: Option<(u64, u64)>) -> Seq<u8> {
    match file_range {
        Some(range) => byte_range(data, range.0, range.1),
        None => data,
    }
}

/// The references that the first step adds to the queue for the binary
/// `binary`: those of the binary's object map, where the binary has the
/// build id `build_id`, debug information is wanted, and the binary can be
/// read; none otherwise.
pub open spec fn root_references(
    binary: Seq<u8>,
    build_id: Seq<char>,
    addresses: Seq<u32>,
    wants_debug_info: bool,
) -> Seq<ObjectReferenceView> {
    match (uuid_of(binary), segments_of(binary), object_map_of(binary)) {
        (Ok(Some(uuid)), Ok(segments), Ok(object_map)) => if build_id_of_uuid(uuid@) == build_id
            && wants_debug_info && root_pairs_fit(addresses, text_segment_address(segments)) {
            new_references(object_map, root_pairs(addresses, text_segment_address(segments)))
        } else {
            Seq::empty()
        },
        _ => Seq::empty(),
    }
}

/// `outcome` is the result of the first step for the binary `binary`:
///
/// - an error where the binary has no UUID or cannot be read, where its
///   build id is not `build_id`, or where its segments or its object map
///   cannot be read;
/// - no addresses where the caller does not want debug information;
/// - `None` where the addresses, moved up by the text segment's address, do
///   not fit into 64 bits;
/// - otherwise the addresses that the binary's own debug information has
///   to answer for.
pub open spec fn is_root_outcome(
    binary: Seq<u8>,
    build_id: Seq<char>,
    addresses: Seq<u32>,
    wants_debug_info: bool,
    outcome: Option<Result<Vec<AddressPair>, GetSymbolsError>>,
) -> bool {
    match uuid_of(binary) {
        Ok(Some(uuid)) => if build_id_of_uuid(uuid@) != build_id {
            &&& outcome matches Some(Err(GetSymbolsError::UnmatchedBuildId(found, expected)))
            &&& found@ == build_id_of_uuid(uuid@)
            &&& expected@ == build_id
        } else {
            match segments_of(binary) {
                Err(e) => {
                    &&& outcome matches Some(Err(GetSymbolsError::MachOHeaderParseError(inner)))
                    &&& inner == e
                },
                Ok(segments) => if !wants_debug_info {
                    outcome matches Some(Ok(internal)) && internal@.len() == 0
                } else if !root_pairs_fit(addresses, text_segment_address(segments)) {
                    outcome is None
                } else {
                    let pairs = root_pairs(addresses, text_segment_address(segments));
                    match object_map_of(binary) {
                        Err(e) => {
                            &&& outcome matches Some(
                                Err(GetSymbolsError::MachOHeaderParseError(inner)),
                            )
                            &&& inner == e
                        },
                        Ok(object_map) => {
                            &&& outcome matches Some(Ok(internal))
                            &&& internal@ == internal_addresses(object_map, pairs)
                        },
                    }
                },
            }
        },
        failure => {
            &&& outcome matches Some(Err(error))
            &&& is_build_id_outcome(failure, Err::<String, GetSymbolsError>(error))
        },
    }
}

/// The first step: looks at the binary itself.
///
/// Checks that the binary in `file_range` of `file_contents` has the build
/// id `breakpad_id`. Where `wants_debug_info` is set, it then sorts the
/// sorted `addresses` of the query into those that the binary's own debug
/// information has to answer for, which it returns, and those that belong to
/// other object files, for which it adds references to the end of
/// `object_references`.
///
/// The result is `None`, and nothing is added, where the binary is of a
/// kind other than Mach-O, or where an address cannot be placed within 64
/// bits.
pub fn get_symbolication_result(
    file_contents: &[u8],
    file_range: Option<(u64, u64)>,
    breakpad_id: &str,
    addresses: &[u32],
    wants_debug_info: bool,
    object_references: &mut VecDeque<ObjectReference>,
) -> (outcome: Option<Result<Vec<AddressPair>, GetSymbolsError>>)
    requires
        sorted(addresses@),
    ensures
        !mach_o_or_unknown(bytes_in_range(file_contents@, file_range)) ==> outcome is None
            && final(object_references)@ == old(object_references)@,
        mach_o_or_unknown(bytes_in_range(file_contents@, file_range)) ==> is_root_outcome(
            bytes_in_range(file_contents@, file_range),
            breakpad_id@,
            addresses@,
            wants_debug_info,
            outcome,
        ) && references_view(final(object_references)@) == references_view(
            old(object_references)@,
        ) + root_references(
            bytes_in_range(file_contents@, file_range),
            breakpad_id@,
            addresses@,
            wants_debug_info,
        ),
{
    let range = match file_range {
        Some((start, size)) => self::range(file_contents, start, size),
        None => file_contents,
    };
    let ghost queue_before = references_view(object_references@);
    assert(queue_before + Seq::<ObjectReferenceView>::empty() =~= queue_before);

    let uuid = match get_macho_uuid_checked(range) {
        None => {
            return None;
        },
        Some(Ok(uuid)) => uuid,
        Some(Err(error)) => {
            return Some(Err(error));
        },
    };
    let expected = breakpad_id.to_owned();
    if uuid != expected {
        return Some(Err(GetSymbolsError::UnmatchedBuildId(uuid, expected)));
    }
    let segments = match read_segments(range) {
        Ok(segments) => segments,
        Err(e) => {
            return Some(Err(GetSymbolsError::MachOHeaderParseError(e)));
        },
    };
    if !wants_debug_info {
        return Some(Ok(Vec::new()));
    }
    // The addresses of the query are addresses in the binary itself. In the
    // object files that the binary refers to they lie elsewhere, so each
    // address is tracked as a pair: the original address, and the address to
    // look up in the object at hand.

    let addresses_in_root_object = match make_address_pairs_for_root_object(
        addresses,
        segments.as_slice(),
    ) {
        Some(pairs) => pairs,
        None => {
            return None;
        },
    };
    let object_map = match read_object_map(range) {
        Ok(object_map) => object_map,
        Err(e) => {
            return Some(Err(GetSymbolsError::MachOHeaderParseError(e)));
        },
    };
    proof {
        lemma_root_pairs_sorted(addresses@, text_segment_address(segments@));
    }
    let internal = collect_debug_info_and_object_references(
        object_map,
        addresses_in_root_object.as_slice(),
        object_references,
    );
    Some(Ok(internal))
}

/// Addresses that the debug information of one object has to answer for.
#[derive(Debug, PartialEq, Eq)]
pub struct DebugInfoJob {
    /// Offset and size of the object's bytes within the file that was opened.
    pub range: (u64, u64),
    /// The addresses, sorted by the address inside the object.
    pub addresses: Vec<AddressPair>,
}

/// The models of a sequence of jobs, in order.
pub open spec fn jobs_view(jobs: Seq<DebugInfoJob>) -> Seq<((u64, u64), Seq<AddressPair>)> {
    jobs.map_values(|j: DebugInfoJob| (j.range, j.addresses@))
}

/// What looking at one object comes to.
pub enum ObjectStep {
    /// An address of the object cannot be placed within 64 bits.
    Unsupported,
    /// The object cannot be read as a Mach-O file.
    Failed(object::Error),
    /// The addresses that the object's own debug information has to answer
    /// for, and the references to the object files that answer for the rest.
    Split { internal: Seq<AddressPair>, references: Seq<ObjectReferenceView> },
}

/// What looking at the object with the bytes `object` comes to, for the
/// addresses of `functions`.
pub open spec fn object_step(object: Seq<u8>, functions: Functions) -> ObjectStep {
    match file_kind_of(object) {
        Err(e) => ObjectStep::Failed(e),
        Ok(FileKind::Other) => ObjectStep::Failed(mach_o_refusal_of(object)),
        Ok(_) => match symbols_of(object) {
            Err(e) => ObjectStep::Failed(e),
            Ok(symbols) => if !translation_fits(symbols, functions, symbols.len() as int) {
                ObjectStep::Unsupported
            } else {
                let pairs = sorted_by_address(
                    translated(symbols, functions, symbols.len() as int),
                );
                match object_map_of(object) {
                    Err(e) => ObjectStep::Failed(e),
                    Ok(object_map) => ObjectStep::Split {
                        internal: internal_addresses(object_map, pairs),
                        references: new_references(object_map, pairs),
                    },
                }
            },
        },
    }
}

/// How far a step over the objects of one file has come.
pub struct Progress {
    /// The jobs for the objects that were looked at.
    pub jobs: Seq<((u64, u64), Seq<AddressPair>)>,
    /// The references that came out of those objects.
    pub references: Seq<ObjectReferenceView>,
    /// Why the step stopped early, if it did: with `Unsupported` or `Failed`.
    pub stopped: Option<ObjectStep>,
}

/// How far the step has come after the first `upto` of `objects`, which
/// lie in the file with the bytes `data`. The step stops at the first
/// object that cannot be looked at.
pub open spec fn progress(
    data: Seq<u8>,
    objects: Seq<((u64, u64), Functions)>,
    upto: int,
) -> Progress
    decreases upto,
{
    if upto <= 0 {
        Progress { jobs: Seq::empty(), references: Seq::empty(), stopped: None }
    } else {
        let before = progress(data, objects, upto - 1);
        if before.stopped is Some {
            before
        } else {
            let range = objects[upto - 1].0;
            match object_step(byte_range(data, range.0, range.1), objects[upto - 1].1) {
                ObjectStep::Split { internal, references } => Progress {
                    jobs: before.jobs.push((range, internal)),
                    references: before.references + references,
                    stopped: None,
                },
                stop => Progress { stopped: Some(stop), ..before },
            }
        }
    }
}

/// `outcome` is the result of a step that came as far as `reached`.
pub open spec fn is_step_outcome(
    reached: Progress,
    outcome: Option<Result<Vec<DebugInfoJob>, GetSymbolsError>>,
) -> bool {
    match reached.stopped {
        None => outcome matches Some(Ok(jobs)) && jobs_view(jobs@) == reached.jobs,
        Some(ObjectStep::Failed(e)) => outcome matches Some(
            Err(GetSymbolsError::MachOHeaderParseError(inner)),
        ) && inner == e,
        Some(_) => outcome is None,
    }
}

/// Looks at the objects of one file that was opened: translates the
/// addresses of each into addresses inside the object, and sorts them into
/// those that the object's own debug information has to answer for and
/// those that belong to yet other object files, for which references are
/// added to the end of `remaining_object_references`.
///
/// The step stops at the first object that cannot be read as a Mach-O
/// file, with an error, or whose addresses cannot be placed within 64 bits,
/// with `None`. What the objects before it added stays.
pub fn collect_from_objects(
    data: &[u8],
    objects: Vec<ObjectInFile>,
    remaining_object_references: &mut VecDeque<ObjectReference>,
) -> (outcome: Option<Result<Vec<DebugInfoJob>, GetSymbolsError>>)
    ensures
        is_step_outcome(progress(data@, objects_view(objects@), objects@.len() as int), outcome),
        references_view(final(remaining_object_references)@) == references_view(
            old(remaining_object_references)@,
        ) + progress(data@, objects_view(objects@), objects@.len() as int).references,
{
    let ghost all = objects_view(objects@);
    let ghost queue_before = references_view(remaining_object_references@);
    let mut left = objects;
    let n = left.len();
    let mut jobs: Vec<DebugInfoJob> = Vec::new();
    let mut i: usize = 0;
    assert(queue_before + Seq::<ObjectReferenceView>::empty() =~= queue_before);
    assert(jobs_view(jobs@) =~= progress(data@, all, 0).jobs);
    while i < n
        invariant
            0 <= i <= n == left@.len() == all.len(),
            n == objects@.len(),
            queue_before == references_view(old(remaining_object_references)@),
            all == objects_view(objects@),
            forall|j: int|
                i <= j < n ==> (#[trigger] left@[j]).range == all[j].0 && left@[j].functions@
                    == all[j].1,
            progress(data@, all, i as int).stopped is None,
            jobs_view(jobs@) == progress(data@, all, i as int).jobs,
            references_view(remaining_object_references@) == queue_before + progress(
                data@,
                all,
                i as int,
            ).references,
        decreases n - i,
    {
        let ghost before = progress(data@, all, i as int);
        let range = left[i].range;
        let mut functions = FunctionsWithAddresses::new();
        std::mem::swap(&mut functions, &mut left[i].functions);
        assert(range == all[i as int].0 && functions@ == all[i as int].1);
        let object = self::range(data, range.0, range.1);
        match file_kind(object) {
            Ok(FileKind::Other) => {
                // A file of another kind does not parse as Mach-O.
                proof {
                    lemma_progress_stays_stopped(data@, all, i + 1, n as int);
                }
                return match mach_o_refusal(object) {
                    Some(e) => Some(Err(GetSymbolsError::MachOHeaderParseError(e))),
                    None => unreached(),
                };
            },
            Ok(_) => {},
            Err(e) => {
                proof {
                    lemma_progress_stays_stopped(data@, all, i + 1, n as int);
                }
                return Some(Err(GetSymbolsError::MachOHeaderParseError(e)));
            },
        }
        let symbols = match read_symbols(object) {
            Ok(symbols) => symbols,
            Err(e) => {
                proof {
                    lemma_progress_stays_stopped(data@, all, i + 1, n as int);
                }
                return Some(Err(GetSymbolsError::MachOHeaderParseError(e)));
            },
        };
        let addresses_in_this_object = match translate_addresses_to_object(
            symbols.as_slice(),
            functions,
        ) {
            Some(pairs) => pairs,
            None => {
                proof {
                    lemma_progress_stays_stopped(data@, all, i + 1, n as int);
                }
                return None;
            },
        };
        let object_map = match read_object_map(object) {
            Ok(object_map) => object_map,
            Err(e) => {
                proof {
                    lemma_progress_stays_stopped(data@, all, i + 1, n as int);
                }
                return Some(Err(GetSymbolsError::MachOHeaderParseError(e)));
            },
        };
        proof {
            crate::macho::sorting::lemma_sorted_by_address_is_sorted(
                translated(symbols@, functions@, symbols@.len() as int),
            );
        }
        let ghost queued = references_view(remaining_object_references@);
        let internal = collect_debug_info_and_object_references(
            object_map,
            addresses_in_this_object.as_slice(),
            remaining_object_references,
        );
        let ghost jobs_before = jobs_view(jobs@);
        jobs.push(DebugInfoJob { range, addresses: internal });
        proof {
            let added = new_references(object_map@, addresses_in_this_object@);
            assert(jobs_view(jobs@) =~= jobs_before.push((range, internal@)));
            assert((queue_before + before.references) + added =~= queue_before + (before.references
                + added));
        }
        i += 1;
    }
    Some(Ok(jobs))
}

/// Once the step has stopped, further objects change nothing.
proof fn lemma_progress_stays_stopped(
    data: Seq<u8>,
    objects: Seq<((u64, u64), Functions)>,
    at: int,
    upto: int,
)
    requires
        0 <= at <= upto,
        progress(data, objects, at).stopped is Some,
    ensures
        progress(data, objects, upto) == progress(data, objects, at),
    decreases upto - at,
{
    if at < upto {
        lemma_progress_stays_stopped(data, objects, at, upto - 1);
    }
}

/// How far a step of the traversal comes for the reference `reference`,
/// whose file gave the bytes `data`: as far as the step over the objects
/// that the reference points to; nowhere where these cannot be listed.
pub open spec fn traversal_progress(reference: ObjectReferenceView, data: Seq<u8>) -> Progress {
    match objects_of(reference, data) {
        Ok(objects) => progress(data, objects, objects.len() as int),
        Err(_) => Progress { jobs: Seq::empty(), references: Seq::empty(), stopped: None },
    }
}

/// `outcome` is the result of a step of the traversal for the reference
/// `reference`, whose file gave the bytes `data`: the error that names the
/// archive where its members cannot be listed, else the result of the step
/// over the objects that the reference points to.
pub open spec fn is_traversal_outcome(
    reference: ObjectReferenceView,
    data: Seq<u8>,
    outcome: Option<Result<Vec<DebugInfoJob>, GetSymbolsError>>,
) -> bool {
    match objects_of(reference, data) {
        Ok(_) => is_step_outcome(traversal_progress(reference, data), outcome),
        Err(e) => outcome matches Some(Err(GetSymbolsError::ArchiveParseError(at, inner))) && at@
            == path_of(reference) && inner == e,
    }
}

/// One step of the traversal of the references between object files,
/// breadth first: takes the reference that stood first in the queue, and
/// the bytes of the file at its path, or `None` where the file could not be
/// opened. Such a file is passed over: the debug information for its
/// addresses is then missing from the result.
///
/// The step hands back the addresses that the debug information of each
/// object in the file has to answer for, and adds what the objects refer to
/// to the end of `remaining_object_references`. The traversal is done when
/// the queue is empty.
pub fn traverse_object_references_and_collect_debug_info(
    reference: ObjectReference,
    opened: Option<&[u8]>,
    remaining_object_references: &mut VecDeque<ObjectReference>,
) -> (outcome: Option<Result<Vec<DebugInfoJob>, GetSymbolsError>>)
    ensures
        opened is None ==> (outcome matches Some(Ok(jobs)) && jobs@.len() == 0) && final(remaining_object_references)@
            == old(remaining_object_references)@,
        opened matches Some(data) ==> is_traversal_outcome(reference@, data@, outcome)
            && references_view(final(remaining_object_references)@) == references_view(
            old(remaining_object_references)@,
        ) + traversal_progress(reference@, data@).references,
{
    let ghost queue_before = references_view(remaining_object_references@);
    assert(queue_before + Seq::<ObjectReferenceView>::empty() =~= queue_before);
    let file_contents = match opened {
        Some(data) => data,
        None => {
            // We probably couldn't find the file, but that's fine.
            return Some(Ok(Vec::new()));
        },
    };
    match reference.into_objects(file_contents) {
        Err(error) => Some(Err(error)),
        Ok(objects) => collect_from_objects(file_contents, objects, remaining_object_references),
    }
}

/// Takes the reference that the traversal looks at next: the one that
/// stands first in the queue.
pub fn next_reference(remaining_object_references: &mut VecDeque<ObjectReference>) -> (next:
    Option<ObjectReference>)
    ensures
        old(remaining_object_references)@.len() == 0 ==> next is None && final(remaining_object_references)@
            == old(remaining_object_references)@,
        old(remaining_object_references)@.len() > 0 ==> next == Some(
            old(remaining_object_references)@[0],
        ) && final(remaining_object_references)@ == old(remaining_object_references)@.subrange(
            1,
            old(remaining_object_references)@.len() as int,
        ),
{
    remaining_object_references.pop_front()
}

} // verus!
