//! Splitting the addresses of one object between the object's own debug
//! information and the object files that its object map refers to.

use crate::macho::functions::{
    added, merged, AddressPair, AddressWithOffset, FunctionsWithAddresses,
};
use crate::macho::keyed::{
    find_name, find_number, key_index, lemma_key_index, lemma_key_index_found,
    lemma_key_index_missing,
};
use crate::macho::matching::{
    match_funs_to_addresses, matched_view, matches_of, sorted_by_object_address,
    MatchedFunction, MatchedFunctionWithAddresses,
};
use crate::macho::object_file::{
    names_view, object_indices_in_range, ObjectMap, ObjectMapView,
};
use crate::macho::object_names::{
    archive_path_of, member_name_of, paren_index, split_archive_name,
};
use crate::macho::references::{
    named_functions_view, references_view, Functions, ObjectReference, ObjectReferenceView,
};
use crate::macho::sorting::{sort_by_address, sorted_by_address};
use std::collections::BTreeSet;
use std::collections::VecDeque;
use vstd::prelude::*;

verus! {

/// The original addresses among `addresses`.
pub open spec fn originals_of(addresses: Seq<AddressWithOffset>) -> Set<u32>
    decreases addresses.len(),
{
    if addresses.len() == 0 {
        Set::empty()
    } else {
        originals_of(addresses.drop_last()).insert(addresses.last().original_address)
    }
}

/// The original addresses that were found in any of the functions.
pub open spec fn found_originals(matches: Seq<MatchedFunction>) -> Set<u32>
    decreases matches.len(),
{
    if matches.len() == 0 {
        Set::empty()
    } else {
        found_originals(matches.drop_last()).union(originals_of(matches.last().addresses))
    }
}

/// The functions by the object file that they came from, in the order in
/// which the object files first occur. Within an object file, the addresses
/// stand under the function's name; where a name comes again, the later
/// addresses go behind the earlier.
pub open spec fn funs_by_object(matches: Seq<MatchedFunction>) -> Seq<(usize, Functions)>
    decreases matches.len(),
{
    if matches.len() == 0 {
        Seq::empty()
    } else {
        let before = funs_by_object(matches.drop_last());
        let found = matches.last();
        match key_index(before, found.object_index) {
            Some(i) => before.update(
                i,
                (found.object_index, added(before[i].1, found.fun_name, found.addresses)),
            ),
            None => before.push(
                (
                    found.object_index,
                    Map::<Seq<u8>, Seq<AddressWithOffset>>::empty().insert(
                        found.fun_name,
                        found.addresses,
                    ),
                ),
            ),
        }
    }
}

/// The model of a list of functions by object index.
pub open spec fn groups_view(groups: Seq<(usize, FunctionsWithAddresses)>) -> Seq<
    (usize, Functions),
> {
    groups.map_values(|g: (usize, FunctionsWithAddresses)| (g.0, g.1@))
}

/// Notes an original address as found.
fn note_found(found: &mut BTreeSet<u32>, original_address: u32)
    ensures
        final(found)@ == old(found)@.insert(original_address),
{
    broadcast use vstd::laws_cmp::group_laws_cmp;

    found.insert(original_address);
}

/// Whether an original address was noted as found.
fn is_found(found: &BTreeSet<u32>, original_address: u32) -> (b: bool)
    ensures
        b == found@.contains(original_address),
{
    broadcast use vstd::laws_cmp::group_laws_cmp;
    broadcast use vstd::std_specs::btree::group_btree_axioms;

    found.contains(&original_address)
}

/// Files the matched functions under the object file that each came from,
/// and notes the original addresses that they hold.
pub fn group_by_object(matches: Vec<MatchedFunctionWithAddresses>) -> (r: (
    Vec<(usize, FunctionsWithAddresses)>,
    BTreeSet<u32>,
))
    ensures
        groups_view(r.0@) == funs_by_object(matched_view(matches@)),
        r.1@ == found_originals(matched_view(matches@)),
{
    let ghost all = matched_view(matches@);
    let mut matches = matches;
    let mut external_funs_by_object: Vec<(usize, FunctionsWithAddresses)> = Vec::new();
    let mut original_addresses_found_in_external_objects: BTreeSet<u32> = BTreeSet::new();
    let n = matches.len();
    let mut i: usize = 0;
    assert(groups_view(external_funs_by_object@) =~= funs_by_object(all.subrange(0, 0)));
    while i < n
        invariant
            0 <= i <= n == matches@.len() == all.len(),
            forall|j: int| i <= j < n ==> (#[trigger] matches@[j])@ == all[j],
            groups_view(external_funs_by_object@) == funs_by_object(all.subrange(0, i as int)),
            original_addresses_found_in_external_objects@ == found_originals(
                all.subrange(0, i as int),
            ),
        decreases n - i,
    {
        let ghost done = all.subrange(0, i as int);
        let ghost next = all.subrange(0, i + 1);
        let ghost this = all[i as int];
        proof {
            assert(next.drop_last() =~= done);
            assert(next.last() == this);
            assert(matches@[i as int]@ == this);
        }
        let object_index = matches[i].object_index;
        let mut addresses: Vec<AddressWithOffset> = Vec::new();
        std::mem::swap(&mut addresses, &mut matches[i].addresses);
        let mut j: usize = 0;
        assert(addresses@.subrange(0, 0) =~= Seq::<AddressWithOffset>::empty());
        while j < addresses.len()
            invariant
                0 <= j <= addresses@.len(),
                original_addresses_found_in_external_objects@ == found_originals(done).union(
                    originals_of(addresses@.subrange(0, j as int)),
                ),
            decreases addresses@.len() - j,
        {
            let ghost part = addresses@.subrange(0, j + 1);
            assert(part.drop_last() =~= addresses@.subrange(0, j as int));
            assert(part.last() == addresses@[j as int]);
            note_found(
                &mut original_addresses_found_in_external_objects,
                addresses[j].original_address,
            );
            assert(original_addresses_found_in_external_objects@ =~= found_originals(done).union(
                originals_of(part),
            ));
            j += 1;
        }
        assert(addresses@.subrange(0, addresses@.len() as int) =~= addresses@);
        let ghost groups_before = external_funs_by_object@;
        let ghost view_before = groups_view(groups_before);
        match find_number(&external_funs_by_object, object_index) {
            Some(at) => {
                proof {
                    assert forall|x: int| 0 <= x < at implies (#[trigger] view_before[x]).0
                        != object_index by {
                        assert(view_before[x].0 == groups_before[x].0);
                    }
                    lemma_key_index_found(view_before, object_index, at as int);
                }
                external_funs_by_object[at].1.add(matches[i].fun_name.as_slice(), addresses);
                assert(groups_view(external_funs_by_object@) =~= view_before.update(
                    at as int,
                    (object_index, added(view_before[at as int].1, this.fun_name, this.addresses)),
                ));
            },
            None => {
                proof {
                    assert forall|x: int| 0 <= x < view_before.len() implies (
                    #[trigger] view_before[x]).0 != object_index by {
                        assert(view_before[x].0 == groups_before[x].0);
                    }
                    lemma_key_index_missing(view_before, object_index);
                }
                let mut functions = FunctionsWithAddresses::new();
                functions.insert(matches[i].fun_name.as_slice(), addresses);
                external_funs_by_object.push((object_index, functions));
                assert(groups_view(external_funs_by_object@) =~= view_before.push(
                    (
                        object_index,
                        Map::<Seq<u8>, Seq<AddressWithOffset>>::empty().insert(
                            this.fun_name,
                            this.addresses,
                        ),
                    ),
                ));
            },
        }
        i += 1;
    }
    assert(all.subrange(0, n as int) =~= all);
    (external_funs_by_object, original_addresses_found_in_external_objects)
}

/// The addresses that stay with the object itself: those whose original
/// address was not found in any function of the object map, in order.
pub open spec fn internal_addresses_of(found: Set<u32>, addresses: Seq<AddressPair>) -> Seq<
    AddressPair,
> {
    addresses.filter(|pair: AddressPair| !found.contains(pair.original_address))
}

/// Picks the addresses whose original address was not noted as found.
pub fn keep_internal(addresses: &[AddressPair], found: &BTreeSet<u32>) -> (internal: Vec<
    AddressPair,
>)
    ensures
        internal@ == internal_addresses_of(found@, addresses@),
{
    let ghost keep = |pair: AddressPair| !found@.contains(pair.original_address);
    let mut internal: Vec<AddressPair> = Vec::new();
    let mut i: usize = 0;
    assert(addresses@.subrange(0, 0).filter(keep) =~= Seq::<AddressPair>::empty());
    while i < addresses.len()
        invariant
            0 <= i <= addresses@.len(),
            keep == (|pair: AddressPair| !found@.contains(pair.original_address)),
            internal@ == addresses@.subrange(0, i as int).filter(keep),
        decreases addresses@.len() - i,
    {
        let pair = addresses[i];
        let ghost next = addresses@.subrange(0, i + 1);
        proof {
            assert(next.drop_last() =~= addresses@.subrange(0, i as int));
            assert(next.last() == pair);
            reveal(Seq::filter);
        }
        if !is_found(found, pair.original_address) {
            internal.push(pair);
        }
        i += 1;
    }
    assert(addresses@.subrange(0, addresses@.len() as int) =~= addresses@);
    internal
}

/// The entries with `functions` under `name`: merged into the first entry
/// with that name, or at the end where no entry has it.
pub open spec fn absorbed(
    entries: Seq<(Seq<u8>, Functions)>,
    name: Seq<u8>,
    functions: Functions,
) -> Seq<(Seq<u8>, Functions)> {
    match key_index(entries, name) {
        Some(i) => entries.update(i, (name, merged(entries[i].1, functions))),
        None => entries.push((name, functions)),
    }
}

/// The archives that the object files of `groups` are members of, in the
/// order in which the archives first occur, each with the functions of its
/// members by the member's name. Where a member comes again, the later
/// functions are merged into the earlier.
pub open spec fn archives_of(groups: Seq<(usize, Functions)>, objects: Seq<Seq<u8>>) -> Seq<
    (Seq<u8>, Seq<(Seq<u8>, Functions)>),
>
    decreases groups.len(),
{
    if groups.len() == 0 {
        Seq::empty()
    } else {
        let before = archives_of(groups.drop_last(), objects);
        let name = objects[groups.last().0 as int];
        let functions = groups.last().1;
        if paren_index(name) is Some {
            let path = archive_path_of(name);
            let member = member_name_of(name);
            match key_index(before, path) {
                Some(i) => before.update(i, (path, absorbed(before[i].1, member, functions))),
                None => before.push((path, seq![(member, functions)])),
            }
        } else {
            before
        }
    }
}

/// The object files of `groups` that stand on their own, in the order in
/// which they first occur, each with its functions. Where a path comes
/// again, the later functions are merged into the earlier.
pub open spec fn regular_objects_of(groups: Seq<(usize, Functions)>, objects: Seq<Seq<u8>>) -> Seq<
    (Seq<u8>, Functions),
>
    decreases groups.len(),
{
    if groups.len() == 0 {
        Seq::empty()
    } else {
        let before = regular_objects_of(groups.drop_last(), objects);
        let name = objects[groups.last().0 as int];
        if paren_index(name) is Some {
            before
        } else {
            absorbed(before, name, groups.last().1)
        }
    }
}

/// The model of a list of archives.
pub open spec fn archives_view(archives: Seq<(Vec<u8>, Vec<(Vec<u8>, FunctionsWithAddresses)>)>) -> Seq<
    (Seq<u8>, Seq<(Seq<u8>, Functions)>),
> {
    archives.map_values(
        |a: (Vec<u8>, Vec<(Vec<u8>, FunctionsWithAddresses)>)| (a.0@, named_functions_view(a.1@)),
    )
}

/// Puts `functions` under `name`: merged into the first entry with that
/// name, or at the end where no entry has it.
pub fn absorb_functions(
    entries: &mut Vec<(Vec<u8>, FunctionsWithAddresses)>,
    name: Vec<u8>,
    functions: FunctionsWithAddresses,
)
    ensures
        named_functions_view(final(entries)@) == absorbed(
            named_functions_view(old(entries)@),
            name@,
            functions@,
        ),
{
    let ghost before = entries@;
    let ghost view_before = named_functions_view(before);
    match find_name(entries, name.as_slice()) {
        Some(at) => {
            proof {
                assert forall|x: int| 0 <= x < at implies (#[trigger] view_before[x]).0
                    != name@ by {
                    assert(view_before[x].0 == before[x].0@);
                }
                lemma_key_index_found(view_before, name@, at as int);
            }
            entries[at].1.absorb(functions);
            assert(named_functions_view(entries@) =~= view_before.update(
                at as int,
                (name@, merged(view_before[at as int].1, functions@)),
            ));
        },
        None => {
            proof {
                assert forall|x: int| 0 <= x < view_before.len() implies (
                #[trigger] view_before[x]).0 != name@ by {
                    assert(view_before[x].0 == before[x].0@);
                }
                lemma_key_index_missing(view_before, name@);
            }
            entries.push((name, functions));
            assert(named_functions_view(entries@) =~= view_before.push((name@, functions@)));
        },
    }
}

/// Sorts the functions of each object file into archives and object files
/// that stand on their own, by the name of the object file.
pub fn group_by_file(groups: Vec<(usize, FunctionsWithAddresses)>, objects: &Vec<Vec<u8>>) -> (r: (
    Vec<(Vec<u8>, Vec<(Vec<u8>, FunctionsWithAddresses)>)>,
    Vec<(Vec<u8>, FunctionsWithAddresses)>,
))
    requires
        forall|i: int| 0 <= i < groups@.len() ==> (#[trigger] groups@[i]).0 < objects@.len(),
    ensures
        archives_view(r.0@) == archives_of(groups_view(groups@), names_view(objects@)),
        named_functions_view(r.1@) == regular_objects_of(
            groups_view(groups@),
            names_view(objects@),
        ),
{
    let ghost all = groups_view(groups@);
    let ghost names = names_view(objects@);
    let mut groups = groups;
    let mut archives: Vec<(Vec<u8>, Vec<(Vec<u8>, FunctionsWithAddresses)>)> = Vec::new();
    let mut regular_objects: Vec<(Vec<u8>, FunctionsWithAddresses)> = Vec::new();
    let n = groups.len();
    let mut i: usize = 0;
    assert(archives_view(archives@) =~= archives_of(all.subrange(0, 0), names));
    assert(named_functions_view(regular_objects@) =~= regular_objects_of(
        all.subrange(0, 0),
        names,
    ));
    while i < n
        invariant
            0 <= i <= n == groups@.len() == all.len(),
            names == names_view(objects@),
            forall|j: int| 0 <= j < n ==> (#[trigger] all[j]).0 < objects@.len(),
            forall|j: int| i <= j < n ==> (#[trigger] groups@[j]).0 == all[j].0 && groups@[j].1@
                == all[j].1,
            archives_view(archives@) == archives_of(all.subrange(0, i as int), names),
            named_functions_view(regular_objects@) == regular_objects_of(
                all.subrange(0, i as int),
                names,
            ),
        decreases n - i,
    {
        let ghost next = all.subrange(0, i + 1);
        proof {
            assert(next.drop_last() =~= all.subrange(0, i as int));
            assert(next.last() == all[i as int]);
            assert(groups@[i as int].0 == all[i as int].0);
        }
        let object_index = groups[i].0;
        let mut functions = FunctionsWithAddresses::new();
        std::mem::swap(&mut functions, &mut groups[i].1);
        assert(functions@ == all[i as int].1);
        let object_name = objects[object_index].as_slice();
        assert(object_name@ == names[object_index as int]);
        match split_archive_name(object_name) {
            Some(parts) => {
                // A member of an archive, named as `archive(member)`.
                let ghost archives_before = archives@;
                let ghost view_before = archives_view(archives_before);
                match find_name(&archives, parts.path.as_slice()) {
                    Some(at) => {
                        proof {
                            assert forall|x: int| 0 <= x < at implies (
                            #[trigger] view_before[x]).0 != parts.path@ by {
                                assert(view_before[x].0 == archives_before[x].0@);
                            }
                            lemma_key_index_found(view_before, parts.path@, at as int);
                        }
                        absorb_functions(&mut archives[at].1, parts.name_in_archive, functions);
                        assert(archives_view(archives@) =~= view_before.update(
                            at as int,
                            (
                                parts.path@,
                                absorbed(
                                    view_before[at as int].1,
                                    parts.name_in_archive@,
                                    functions@,
                                ),
                            ),
                        ));
                    },
                    None => {
                        proof {
                            assert forall|x: int| 0 <= x < view_before.len() implies (
                            #[trigger] view_before[x]).0 != parts.path@ by {
                                assert(view_before[x].0 == archives_before[x].0@);
                            }
                            lemma_key_index_missing(view_before, parts.path@);
                        }
                        let mut archive_info: Vec<(Vec<u8>, FunctionsWithAddresses)> = Vec::new();
                        archive_info.push((parts.name_in_archive, functions));
                        assert(named_functions_view(archive_info@) =~= seq![
                            (parts.name_in_archive@, functions@),
                        ]);
                        archives.push((parts.path, archive_info));
                        assert(archives_view(archives@) =~= view_before.push(
                            (parts.path@, seq![(parts.name_in_archive@, functions@)]),
                        ));
                    },
                }
            },
            None => {
                // A regular object file.
                let path = crate::macho::functions::copy_bytes(object_name);
                absorb_functions(&mut regular_objects, path, functions);
            },
        }
        i += 1;
    }
    assert(all.subrange(0, n as int) =~= all);
    (archives, regular_objects)
}

/// A reference for each archive, in order.
pub open spec fn archive_references(archives: Seq<(Seq<u8>, Seq<(Seq<u8>, Functions)>)>) -> Seq<
    ObjectReferenceView,
> {
    archives.map_values(
        |a: (Seq<u8>, Seq<(Seq<u8>, Functions)>)|
            ObjectReferenceView::Archive { path: a.0, archive_info: a.1 },
    )
}

/// A reference for each object file, in order.
pub open spec fn regular_references(objects: Seq<(Seq<u8>, Functions)>) -> Seq<
    ObjectReferenceView,
> {
    objects.map_values(
        |o: (Seq<u8>, Functions)| ObjectReferenceView::Regular { path: o.0, functions: o.1 },
    )
}

/// The functions of the object map that `addresses` fall into. The functions
/// are taken in the order of their addresses.
pub open spec fn split_matches(object_map: ObjectMapView, addresses: Seq<AddressPair>) -> Seq<
    MatchedFunction,
> {
    matches_of(sorted_by_address(object_map.symbols), addresses)
}

/// The addresses that the object's own debug information has to answer for.
pub open spec fn internal_addresses(object_map: ObjectMapView, addresses: Seq<AddressPair>) -> Seq<
    AddressPair,
> {
    internal_addresses_of(found_originals(split_matches(object_map, addresses)), addresses)
}

/// The references to other files that come out of the object: first the
/// archives, then the object files that stand on their own.
pub open spec fn new_references(object_map: ObjectMapView, addresses: Seq<AddressPair>) -> Seq<
    ObjectReferenceView,
> {
    let groups = funs_by_object(split_matches(object_map, addresses));
    let names = object_map.objects;
    archive_references(archives_of(groups, names)) + regular_references(
        regular_objects_of(groups, names),
    )
}

/// What holds of every item still holds of every item after sorting.
proof fn lemma_sorting_keeps<T: crate::macho::sorting::Addressed>(
    items: Seq<T>,
    holds: spec_fn(T) -> bool,
)
    requires
        forall|i: int| 0 <= i < items.len() ==> holds(#[trigger] items[i]),
    ensures
        forall|i: int|
            0 <= i < sorted_by_address(items).len() ==> holds(
                #[trigger] sorted_by_address(items)[i],
            ),
    decreases items.len(),
{
    if items.len() > 0 {
        let before = items.drop_last();
        assert forall|i: int| 0 <= i < before.len() implies holds(#[trigger] before[i]) by {
            assert(before[i] == items[i]);
        }
        lemma_sorting_keeps(before, holds);
        crate::macho::sorting::lemma_sorted_by_address_is_sorted(before);
        let sorted = sorted_by_address(before);
        crate::macho::sorting::lemma_count_up_to(sorted, items.last().sort_key());
        let at = crate::macho::sorting::count_up_to(sorted, items.last().sort_key());
        let result = sorted_by_address(items);
        assert(holds(items[items.len() - 1]));
        assert forall|i: int| 0 <= i < result.len() implies holds(#[trigger] result[i]) by {
            if i < at {
                assert(result[i] == sorted[i]);
            } else if i > at {
                assert(result[i] == sorted[i - 1]);
            }
        }
    }
}

/// Every record of the matches names the object file of one of the functions.
proof fn lemma_matches_name_objects(
    symbols: Seq<crate::macho::matching::ObjectMapSymbol>,
    addresses: Seq<AddressPair>,
    bound: int,
)
    requires
        forall|i: int| 0 <= i < symbols.len() ==> (#[trigger] symbols[i]).object_index < bound,
    ensures
        forall|i: int|
            0 <= i < matches_of(symbols, addresses).len() ==> (#[trigger] matches_of(
                symbols,
                addresses,
            )[i]).object_index < bound,
    decreases addresses.len(),
{
    if addresses.len() > 0 {
        lemma_matches_name_objects(symbols, addresses.drop_last(), bound);
        let before = matches_of(symbols, addresses.drop_last());
        let result = matches_of(symbols, addresses);
        match crate::macho::matching::matched_symbol(
            symbols,
            addresses.last().address_in_this_object,
        ) {
            Some(f) => {
                crate::macho::matching::lemma_matched_symbol_contains(
                    symbols,
                    addresses.last().address_in_this_object,
                );
                assert(symbols[f].object_index < bound);
                assert forall|i: int| 0 <= i < result.len() implies (
                #[trigger] result[i]).object_index < bound by {
                    if i < before.len() {
                        assert(result[i].object_index == before[i].object_index);
                    }
                }
            },
            None => {},
        }
    }
}

/// Every group stands under the object file of one of the records.
proof fn lemma_groups_name_objects(matches: Seq<MatchedFunction>, bound: int)
    requires
        forall|i: int| 0 <= i < matches.len() ==> (#[trigger] matches[i]).object_index < bound,
    ensures
        forall|i: int|
            0 <= i < funs_by_object(matches).len() ==> (#[trigger] funs_by_object(matches)[i]).0
                < bound,
    decreases matches.len(),
{
    if matches.len() > 0 {
        let before = matches.drop_last();
        assert forall|i: int| 0 <= i < before.len() implies (#[trigger] before[i]).object_index
            < bound by {
            assert(before[i] == matches[i]);
        }
        lemma_groups_name_objects(before, bound);
        lemma_key_index(funs_by_object(before), matches.last().object_index);
        assert(matches[matches.len() - 1].object_index < bound);
    }
}

/// Sorts the addresses of one object into those that the object's own debug
/// information answers for, which are returned, and those that belong to
/// functions of other object files, for which references are added to the
/// end of `remaining_object_references`.
///
/// `addresses` must be sorted by `address_in_this_object`.
pub fn collect_debug_info_and_object_references(
    object_map: ObjectMap,
    addresses: &[AddressPair],
    remaining_object_references: &mut VecDeque<ObjectReference>,
) -> (internal: Vec<AddressPair>)
    requires
        sorted_by_object_address(addresses@),
        object_indices_in_range(object_map@),
    ensures
        internal@ == internal_addresses(object_map@, addresses@),
        references_view(final(remaining_object_references)@) == references_view(
            old(remaining_object_references)@,
        ) + new_references(object_map@, addresses@),
{
    let ghost bound = object_map.objects@.len() as int;
    let ghost unsorted = object_map.symbols@;
    assert(object_map@.objects.len() == bound && object_map@.symbols == unsorted);
    let ObjectMap { symbols, objects } = object_map;
    let mut object_map_symbols = symbols;
    sort_by_address(&mut object_map_symbols);
    let functions_with_addresses = match_funs_to_addresses(
        object_map_symbols.as_slice(),
        addresses,
    );
    proof {
        lemma_sorting_keeps(
            unsorted,
            |s: crate::macho::matching::ObjectMapSymbol| s.object_index < bound,
        );
        lemma_matches_name_objects(object_map_symbols@, addresses@, bound);
        lemma_groups_name_objects(matched_view(functions_with_addresses@), bound);
    }
    let (external_funs_by_object, original_addresses_found_in_external_objects) = group_by_object(
        functions_with_addresses,
    );
    let internal_addresses = keep_internal(
        addresses,
        &original_addresses_found_in_external_objects,
    );
    assert forall|i: int| 0 <= i < external_funs_by_object@.len() implies (
    #[trigger] external_funs_by_object@[i]).0 < objects@.len() by {
        assert(groups_view(external_funs_by_object@)[i].0 == external_funs_by_object@[i].0);
    }
    let (archives, regular_objects) = group_by_file(external_funs_by_object, &objects);
    let ghost queue_before = references_view(remaining_object_references@);
    let ghost archive_views = archives_view(archives@);
    let ghost regular_views = named_functions_view(regular_objects@);

    let mut archives = archives;
    let n_archives = archives.len();
    let mut i: usize = 0;
    assert(queue_before + archive_references(archive_views.subrange(0, 0)) =~= queue_before);
    while i < n_archives
        invariant
            0 <= i <= n_archives == archives@.len() == archive_views.len(),
            forall|j: int|
                i <= j < n_archives ==> (#[trigger] archives@[j]).0@ == archive_views[j].0
                    && named_functions_view(archives@[j].1@) == archive_views[j].1,
            references_view(remaining_object_references@) == queue_before + archive_references(
                archive_views.subrange(0, i as int),
            ),
        decreases n_archives - i,
    {
        let ghost queued = references_view(remaining_object_references@);
        let mut path: Vec<u8> = Vec::new();
        let mut archive_info: Vec<(Vec<u8>, FunctionsWithAddresses)> = Vec::new();
        assert(archives@[i as int].0@ == archive_views[i as int].0);
        std::mem::swap(&mut path, &mut archives[i].0);
        std::mem::swap(&mut archive_info, &mut archives[i].1);
        let reference = ObjectReference::Archive { path, archive_info };
        remaining_object_references.push_back(reference);
        proof {
            assert(references_view(remaining_object_references@) =~= queued.push(reference@));
            assert(archive_references(archive_views.subrange(0, i + 1)) =~= archive_references(
                archive_views.subrange(0, i as int),
            ).push(reference@));
            assert(queued.push(reference@) =~= queue_before + archive_references(
                archive_views.subrange(0, i + 1),
            ));
        }
        i += 1;
    }
    assert(archive_views.subrange(0, n_archives as int) =~= archive_views);
    let ghost with_archives = queue_before + archive_references(archive_views);

    let mut regular_objects = regular_objects;
    let n_regular = regular_objects.len();
    let mut i: usize = 0;
    assert(with_archives + regular_references(regular_views.subrange(0, 0)) =~= with_archives);
    while i < n_regular
        invariant
            0 <= i <= n_regular == regular_objects@.len() == regular_views.len(),
            forall|j: int|
                i <= j < n_regular ==> (#[trigger] regular_objects@[j]).0@ == regular_views[j].0
                    && regular_objects@[j].1@ == regular_views[j].1,
            references_view(remaining_object_references@) == with_archives + regular_references(
                regular_views.subrange(0, i as int),
            ),
        decreases n_regular - i,
    {
        let ghost queued = references_view(remaining_object_references@);
        let mut path: Vec<u8> = Vec::new();
        let mut functions = FunctionsWithAddresses::new();
        assert(regular_objects@[i as int].0@ == regular_views[i as int].0);
        std::mem::swap(&mut path, &mut regular_objects[i].0);
        std::mem::swap(&mut functions, &mut regular_objects[i].1);
        let reference = ObjectReference::Regular { path, functions };
        remaining_object_references.push_back(reference);
        proof {
            assert(references_view(remaining_object_references@) =~= queued.push(reference@));
            assert(regular_references(regular_views.subrange(0, i + 1)) =~= regular_references(
                regular_views.subrange(0, i as int),
            ).push(reference@));
            assert(queued.push(reference@) =~= with_archives + regular_references(
                regular_views.subrange(0, i + 1),
            ));
        }
        i += 1;
    }
    proof {
        assert(regular_views.subrange(0, n_regular as int) =~= regular_views);
        assert((queue_before + archive_references(archive_views)) + regular_references(
            regular_views,
        ) =~= queue_before + (archive_references(archive_views) + regular_references(
            regular_views,
        )));
    }
    internal_addresses
}

} // verus!
