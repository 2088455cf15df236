//! What holds of the split of addresses between an object's own debug
//! information and the object files that it refers to.

use crate::macho::functions::{added, filed_under, merged, AddressPair, AddressWithOffset};
use crate::macho::keyed::{key_index, lemma_key_index};
use crate::macho::matching::{matched_symbol, matches_of, MatchedFunction, ObjectMapSymbol};
use crate::macho::object_file::ObjectMapView;
use crate::macho::object_names::{archive_path_of, member_name_of, paren_index};
use crate::macho::references::{Functions, ObjectReferenceView};
use crate::macho::split::{
    absorbed, archive_references, archives_of, found_originals, funs_by_object,
    internal_addresses, internal_addresses_of, new_references, originals_of,
    regular_objects_of, regular_references, split_matches,
};
use vstd::prelude::*;

verus! {

/// One of the address pairs is for the original address `a`.
pub open spec fn pairs_hold(pairs: Seq<AddressPair>, a: u32) -> bool {
    exists|k: int| 0 <= k < pairs.len() && (#[trigger] pairs[k]).original_address == a
}

/// One of the addresses is the original address `a`.
pub open spec fn addresses_hold(addresses: Seq<AddressWithOffset>, a: u32) -> bool {
    exists|j: int| 0 <= j < addresses.len() && (#[trigger] addresses[j]).original_address == a
}

/// The original address `a` is filed under one of the functions.
pub open spec fn functions_hold(functions: Functions, a: u32) -> bool {
    exists|name: Seq<u8>| functions.contains_key(name) && #[trigger] addresses_hold(functions[name], a)
}

/// The original address `a` stands in one of the records.
pub open spec fn records_hold(records: Seq<MatchedFunction>, a: u32) -> bool {
    exists|r: int| 0 <= r < records.len() && addresses_hold((#[trigger] records[r]).addresses, a)
}

/// The original address `a` stands under one of the object files.
pub open spec fn groups_hold(groups: Seq<(usize, Functions)>, a: u32) -> bool {
    exists|g: int| 0 <= g < groups.len() && functions_hold((#[trigger] groups[g]).1, a)
}

/// The original address `a` stands under one of the names.
pub open spec fn named_hold(entries: Seq<(Seq<u8>, Functions)>, a: u32) -> bool {
    exists|m: int| 0 <= m < entries.len() && functions_hold((#[trigger] entries[m]).1, a)
}

/// The original address `a` stands under a member of one of the archives.
pub open spec fn archives_hold(archives: Seq<(Seq<u8>, Seq<(Seq<u8>, Functions)>)>, a: u32) -> bool {
    exists|i: int| 0 <= i < archives.len() && named_hold((#[trigger] archives[i]).1, a)
}

/// The reference asks for the original address `a`.
pub open spec fn reference_holds(reference: ObjectReferenceView, a: u32) -> bool {
    match reference {
        ObjectReferenceView::Regular { functions, .. } => functions_hold(functions, a),
        ObjectReferenceView::Archive { archive_info, .. } => named_hold(archive_info, a),
    }
}

/// One of the references asks for the original address `a`.
pub open spec fn references_hold(references: Seq<ObjectReferenceView>, a: u32) -> bool {
    exists|r: int| 0 <= r < references.len() && reference_holds(#[trigger] references[r], a)
}

/// The set of original addresses among some addresses holds an address
/// exactly where one of them is that address.
pub proof fn lemma_originals_of(addresses: Seq<AddressWithOffset>, a: u32)
    ensures
        originals_of(addresses).contains(a) <==> addresses_hold(addresses, a),
    decreases addresses.len(),
{
    if addresses.len() > 0 {
        let before = addresses.drop_last();
        lemma_originals_of(before, a);
        if addresses_hold(before, a) {
            let j = choose|j: int| 0 <= j < before.len() && (#[trigger] before[j]).original_address == a;
            assert(addresses[j].original_address == a);
        }
        if addresses.last().original_address == a {
            assert(addresses[addresses.len() - 1].original_address == a);
        }
        if addresses_hold(addresses, a) {
            let j = choose|j: int|
                0 <= j < addresses.len() && (#[trigger] addresses[j]).original_address == a;
            if j < before.len() {
                assert(before[j].original_address == a);
            }
        }
    }
}

/// The set of original addresses that were found holds an address exactly
/// where it stands in one of the records.
pub proof fn lemma_found_originals(records: Seq<MatchedFunction>, a: u32)
    ensures
        found_originals(records).contains(a) <==> records_hold(records, a),
    decreases records.len(),
{
    if records.len() > 0 {
        let before = records.drop_last();
        lemma_found_originals(before, a);
        lemma_originals_of(records.last().addresses, a);
        if records_hold(before, a) {
            let r = choose|r: int|
                0 <= r < before.len() && addresses_hold((#[trigger] before[r]).addresses, a);
            assert(addresses_hold(records[r].addresses, a));
        }
        if addresses_hold(records.last().addresses, a) {
            assert(addresses_hold(records[records.len() - 1].addresses, a));
        }
        if records_hold(records, a) {
            let r = choose|r: int|
                0 <= r < records.len() && addresses_hold((#[trigger] records[r]).addresses, a);
            if r < before.len() {
                assert(addresses_hold(before[r].addresses, a));
            }
        }
    }
}

/// Every address in the records is one of the addresses that were matched.
pub proof fn lemma_records_come_from_pairs(
    symbols: Seq<ObjectMapSymbol>,
    addresses: Seq<AddressPair>,
    a: u32,
)
    ensures
        records_hold(matches_of(symbols, addresses), a) ==> pairs_hold(addresses, a),
    decreases addresses.len(),
{
    if addresses.len() > 0 {
        let earlier = addresses.drop_last();
        lemma_records_come_from_pairs(symbols, earlier, a);
        let before = matches_of(symbols, earlier);
        let records = matches_of(symbols, addresses);
        if pairs_hold(earlier, a) {
            let k = choose|k: int| 0 <= k < earlier.len() && (#[trigger] earlier[k]).original_address == a;
            assert(addresses[k].original_address == a);
        }
        if records_hold(records, a) && !records_hold(before, a) {
            let r = choose|r: int|
                0 <= r < records.len() && addresses_hold((#[trigger] records[r]).addresses, a);
            let j = choose|j: int|
                0 <= j < records[r].addresses.len() && (
                #[trigger] records[r].addresses[j]).original_address == a;
            let pair = addresses.last();
            match matched_symbol(symbols, pair.address_in_this_object) {
                Some(f) => {
                    if r < before.len() && records[r] == before[r] {
                        assert(addresses_hold(before[r].addresses, a));
                    } else if r < before.len() {
                        // The last record was extended by the last address.
                        if j < before[r].addresses.len() {
                            assert(before[r].addresses[j].original_address == a);
                            assert(addresses_hold(before[r].addresses, a));
                        }
                        assert(pair.original_address == a);
                    } else {
                        assert(pair.original_address == a);
                    }
                    assert(addresses[addresses.len() - 1].original_address == a);
                },
                None => {},
            }
        }
    }
}

/// The addresses that stay with the object are those whose original
/// address was not found.
pub proof fn lemma_internal_addresses(found: Set<u32>, addresses: Seq<AddressPair>, a: u32)
    ensures
        pairs_hold(internal_addresses_of(found, addresses), a) <==> (pairs_hold(addresses, a)
            && !found.contains(a)),
{
    let keep = |pair: AddressPair| !found.contains(pair.original_address);
    let internal = addresses.filter(keep);
    if pairs_hold(internal, a) {
        let k = choose|k: int| 0 <= k < internal.len() && (#[trigger] internal[k]).original_address == a;
        addresses.lemma_filter_pred(keep, k);
        assert(internal.contains(internal[k]));
        addresses.lemma_filter_contains_rev(keep, internal[k]);
        let w = choose|w: int| 0 <= w < addresses.len() && addresses[w] == internal[k];
        assert(addresses[w].original_address == a);
    }
    if pairs_hold(addresses, a) && !found.contains(a) {
        let w = choose|w: int| 0 <= w < addresses.len() && (#[trigger] addresses[w]).original_address == a;
        addresses.lemma_filter_contains(keep, w);
        let k = choose|k: int| 0 <= k < internal.len() && internal[k] == addresses[w];
        assert(internal[k].original_address == a);
    }
}

/// A list of addresses that is put together from two holds what either holds.
proof fn lemma_joined_hold(first: Seq<AddressWithOffset>, second: Seq<AddressWithOffset>, a: u32)
    ensures
        addresses_hold(first + second, a) <==> addresses_hold(first, a) || addresses_hold(second, a),
{
    let both = first + second;
    if addresses_hold(both, a) {
        let j = choose|j: int| 0 <= j < both.len() && (#[trigger] both[j]).original_address == a;
        if j < first.len() {
            assert(first[j].original_address == a);
        } else {
            assert(second[j - first.len()].original_address == a);
        }
    }
    if addresses_hold(first, a) {
        let j = choose|j: int| 0 <= j < first.len() && (#[trigger] first[j]).original_address == a;
        assert(both[j].original_address == a);
    }
    if addresses_hold(second, a) {
        let j = choose|j: int| 0 <= j < second.len() && (#[trigger] second[j]).original_address == a;
        assert(both[first.len() + j].original_address == a);
    }
}

/// No address is filed under a name that is not there.
proof fn lemma_nothing_filed(functions: Functions, name: Seq<u8>, a: u32)
    ensures
        addresses_hold(filed_under(functions, name), a) ==> functions.contains_key(name)
            && addresses_hold(functions[name], a),
{
    if addresses_hold(filed_under(functions, name), a) {
        let j = choose|j: int|
            0 <= j < filed_under(functions, name).len() && (#[trigger] filed_under(
                functions,
                name,
            )[j]).original_address == a;
    }
}

/// Filing addresses under a name adds them to what the functions hold.
proof fn lemma_added_hold(
    functions: Functions,
    name: Seq<u8>,
    addresses: Seq<AddressWithOffset>,
    a: u32,
)
    ensures
        functions_hold(added(functions, name, addresses), a) <==> functions_hold(functions, a)
            || addresses_hold(addresses, a),
{
    let after = added(functions, name, addresses);
    lemma_joined_hold(filed_under(functions, name), addresses, a);
    lemma_nothing_filed(functions, name, a);
    if functions_hold(after, a) {
        let w = choose|w: Seq<u8>| after.contains_key(w) && #[trigger] addresses_hold(after[w], a);
        if w != name {
            assert(functions.contains_key(w) && addresses_hold(functions[w], a));
        } else if addresses_hold(filed_under(functions, name), a) {
            assert(functions.contains_key(name) && addresses_hold(functions[name], a));
        }
    }
    if addresses_hold(addresses, a) {
        assert(after.contains_key(name) && addresses_hold(after[name], a));
    }
    if functions_hold(functions, a) {
        let w = choose|w: Seq<u8>|
            functions.contains_key(w) && #[trigger] addresses_hold(functions[w], a);
        assert(after.contains_key(w));
        if w == name {
            assert(addresses_hold(filed_under(functions, name), a));
        }
        assert(addresses_hold(after[w], a));
    }
}

/// Merged functions hold what either of them holds.
proof fn lemma_merged_hold(first: Functions, second: Functions, a: u32)
    ensures
        functions_hold(merged(first, second), a) <==> functions_hold(first, a) || functions_hold(
            second,
            a,
        ),
{
    let both = merged(first, second);
    if functions_hold(both, a) {
        let w = choose|w: Seq<u8>| both.contains_key(w) && #[trigger] addresses_hold(both[w], a);
        lemma_joined_hold(filed_under(first, w), filed_under(second, w), a);
        lemma_nothing_filed(first, w, a);
        lemma_nothing_filed(second, w, a);
    }
    if functions_hold(first, a) {
        let w = choose|w: Seq<u8>| first.contains_key(w) && #[trigger] addresses_hold(first[w], a);
        lemma_joined_hold(filed_under(first, w), filed_under(second, w), a);
        assert(both.contains_key(w) && addresses_hold(both[w], a));
    }
    if functions_hold(second, a) {
        let w = choose|w: Seq<u8>|
            second.contains_key(w) && #[trigger] addresses_hold(second[w], a);
        lemma_joined_hold(filed_under(first, w), filed_under(second, w), a);
        assert(both.contains_key(w) && addresses_hold(both[w], a));
    }
}

/// The functions without any name hold no address.
proof fn lemma_empty_holds_nothing(a: u32)
    ensures
        !functions_hold(Map::<Seq<u8>, Seq<AddressWithOffset>>::empty(), a),
{
    let nothing = Map::<Seq<u8>, Seq<AddressWithOffset>>::empty();
    if functions_hold(nothing, a) {
        let w = choose|w: Seq<u8>| nothing.contains_key(w) && #[trigger] addresses_hold(nothing[w], a);
    }
}

/// The groups hold exactly the addresses of the records.
pub proof fn lemma_groups_hold_records(records: Seq<MatchedFunction>, a: u32)
    ensures
        groups_hold(funs_by_object(records), a) <==> records_hold(records, a),
    decreases records.len(),
{
    let groups = funs_by_object(records);
    if records.len() > 0 {
        let earlier = records.drop_last();
        let record = records.last();
        let before = funs_by_object(earlier);
        lemma_groups_hold_records(earlier, a);
        lemma_key_index(before, record.object_index);
        lemma_empty_holds_nothing(a);
        assert(records[records.len() - 1] == record);
        let at = match key_index(before, record.object_index) {
            Some(i) => i,
            None => before.len() as int,
        };
        let functions_before = if at < before.len() {
            before[at].1
        } else {
            Map::<Seq<u8>, Seq<AddressWithOffset>>::empty()
        };
        lemma_added_hold(functions_before, record.fun_name, record.addresses, a);
        assert(groups[at].1 =~= added(functions_before, record.fun_name, record.addresses)) by {
            assert(Seq::<AddressWithOffset>::empty() + record.addresses =~= record.addresses);
        }
        if groups_hold(groups, a) {
            let g = choose|g: int| 0 <= g < groups.len() && functions_hold((#[trigger] groups[g]).1, a);
            if g != at {
                assert(groups[g] == before[g]);
                assert(functions_hold(before[g].1, a));
            } else if functions_hold(functions_before, a) {
                assert(functions_hold(before[at].1, a));
            }
            if groups_hold(before, a) {
                let r = choose|r: int|
                    0 <= r < earlier.len() && addresses_hold((#[trigger] earlier[r]).addresses, a);
                assert(addresses_hold(records[r].addresses, a));
            }
        }
        if records_hold(records, a) {
            let r = choose|r: int|
                0 <= r < records.len() && addresses_hold((#[trigger] records[r]).addresses, a);
            if r < earlier.len() {
                assert(addresses_hold(earlier[r].addresses, a));
                let g = choose|g: int|
                    0 <= g < before.len() && functions_hold((#[trigger] before[g]).1, a);
                if g != at {
                    assert(groups[g] == before[g]);
                }
                assert(functions_hold(groups[g].1, a));
            } else {
                assert(functions_hold(groups[at].1, a));
            }
        }
    } else {
        if records_hold(records, a) {
            let r = choose|r: int|
                0 <= r < records.len() && addresses_hold((#[trigger] records[r]).addresses, a);
        }
        if groups_hold(groups, a) {
            let g = choose|g: int| 0 <= g < groups.len() && functions_hold((#[trigger] groups[g]).1, a);
        }
    }
}

/// Putting functions under a name adds what they hold to what the list holds.
proof fn lemma_absorbed_hold(
    entries: Seq<(Seq<u8>, Functions)>,
    name: Seq<u8>,
    functions: Functions,
    a: u32,
)
    ensures
        named_hold(absorbed(entries, name, functions), a) <==> named_hold(entries, a)
            || functions_hold(functions, a),
{
    let after = absorbed(entries, name, functions);
    lemma_key_index(entries, name);
    let at = match key_index(entries, name) {
        Some(i) => i,
        None => entries.len() as int,
    };
    if at < entries.len() {
        lemma_merged_hold(entries[at].1, functions, a);
    }
    if named_hold(after, a) {
        let m = choose|m: int| 0 <= m < after.len() && functions_hold((#[trigger] after[m]).1, a);
        if m != at {
            assert(entries[m] == after[m]);
            assert(functions_hold(entries[m].1, a));
        } else if at < entries.len() && functions_hold(entries[at].1, a) {
            assert(named_hold(entries, a));
        }
    }
    if functions_hold(functions, a) {
        assert(functions_hold(after[at].1, a));
    }
    if named_hold(entries, a) {
        let m = choose|m: int| 0 <= m < entries.len() && functions_hold((#[trigger] entries[m]).1, a);
        if m != at {
            assert(after[m] == entries[m]);
        }
        assert(functions_hold(after[m].1, a));
    }
}

/// The members of the archive at `path` among `archives`; none where there
/// is no such archive.
pub open spec fn members_of(
    archives: Seq<(Seq<u8>, Seq<(Seq<u8>, Functions)>)>,
    path: Seq<u8>,
) -> Seq<(Seq<u8>, Functions)> {
    match key_index(archives, path) {
        Some(i) => archives[i].1,
        None => Seq::empty(),
    }
}

/// The archives and the object files that stand on their own hold exactly
/// the addresses of the groups.
pub proof fn lemma_files_hold_groups(
    groups: Seq<(usize, Functions)>,
    names: Seq<Seq<u8>>,
    a: u32,
)
    ensures
        archives_hold(archives_of(groups, names), a) || named_hold(
            regular_objects_of(groups, names),
            a,
        ) <==> groups_hold(groups, a),
    decreases groups.len(),
{
    let archives = archives_of(groups, names);
    let regular = regular_objects_of(groups, names);
    if groups.len() == 0 {
        if groups_hold(groups, a) {
            let g = choose|g: int| 0 <= g < groups.len() && functions_hold((#[trigger] groups[g]).1, a);
        }
        if archives_hold(archives, a) {
            let i = choose|i: int| 0 <= i < archives.len() && named_hold((#[trigger] archives[i]).1, a);
        }
        if named_hold(regular, a) {
            let m = choose|m: int| 0 <= m < regular.len() && functions_hold((#[trigger] regular[m]).1, a);
        }
    } else {
        let earlier = groups.drop_last();
        let last = groups.len() - 1;
        let name = names[groups.last().0 as int];
        let functions = groups.last().1;
        let archives_before = archives_of(earlier, names);
        let regular_before = regular_objects_of(earlier, names);
        lemma_files_hold_groups(earlier, names, a);
        assert(groups[last] == groups.last());
        // The groups hold what the earlier groups hold and what the last holds.
        assert(groups_hold(groups, a) <==> groups_hold(earlier, a) || functions_hold(functions, a))
            by {
            if groups_hold(earlier, a) {
                let g = choose|g: int|
                    0 <= g < earlier.len() && functions_hold((#[trigger] earlier[g]).1, a);
                assert(groups[g] == earlier[g]);
                assert(functions_hold(groups[g].1, a));
            }
            if functions_hold(functions, a) {
                assert(functions_hold(groups[last].1, a));
            }
            if groups_hold(groups, a) {
                let g = choose|g: int|
                    0 <= g < groups.len() && functions_hold((#[trigger] groups[g]).1, a);
                if g < last {
                    assert(earlier[g] == groups[g]);
                    assert(functions_hold(earlier[g].1, a));
                }
            }
        }
        if paren_index(name) is Some {
            let path = archive_path_of(name);
            let member = member_name_of(name);
            assert(regular == regular_before);
            lemma_key_index(archives_before, path);
            let at = match key_index(archives_before, path) {
                Some(i) => i,
                None => archives_before.len() as int,
            };
            let members_before = members_of(archives_before, path);
            let members = archives[at].1;
            assert(members =~= absorbed(members_before, member, functions));
            lemma_absorbed_hold(members_before, member, functions, a);
            if named_hold(members_before, a) {
                let m = choose|m: int|
                    0 <= m < members_before.len() && functions_hold(
                        (#[trigger] members_before[m]).1,
                        a,
                    );
                assert(named_hold(archives_before[at].1, a));
            }
            // The archives hold what the earlier archives hold and what the
            // last group holds.
            if archives_hold(archives, a) {
                let i = choose|i: int|
                    0 <= i < archives.len() && named_hold((#[trigger] archives[i]).1, a);
                if i != at {
                    assert(archives[i] == archives_before[i]);
                    assert(named_hold(archives_before[i].1, a));
                }
            }
            if archives_hold(archives_before, a) {
                let i = choose|i: int|
                    0 <= i < archives_before.len() && named_hold(
                        (#[trigger] archives_before[i]).1,
                        a,
                    );
                if i != at {
                    assert(archives[i] == archives_before[i]);
                }
                assert(named_hold(archives[i].1, a));
            }
            if functions_hold(functions, a) {
                assert(named_hold(archives[at].1, a));
            }
        } else {
            assert(archives == archives_before);
            lemma_absorbed_hold(regular_before, name, functions, a);
        }
    }
}

/// The references ask for the addresses of the archives and of the object
/// files that stand on their own.
pub proof fn lemma_references_hold_files(
    archives: Seq<(Seq<u8>, Seq<(Seq<u8>, Functions)>)>,
    regular: Seq<(Seq<u8>, Functions)>,
    a: u32,
)
    ensures
        references_hold(archive_references(archives) + regular_references(regular), a) <==> (
        archives_hold(archives, a) || named_hold(regular, a)),
{
    let references = archive_references(archives) + regular_references(regular);
    if references_hold(references, a) {
        let r = choose|r: int| 0 <= r < references.len() && reference_holds(#[trigger] references[r], a);
        if r < archives.len() {
            assert(references[r] == archive_references(archives)[r]);
            assert(named_hold(archives[r].1, a));
        } else {
            let m = r - archives.len();
            assert(references[r] == regular_references(regular)[m]);
            assert(functions_hold(regular[m].1, a));
        }
    }
    if archives_hold(archives, a) {
        let i = choose|i: int| 0 <= i < archives.len() && named_hold((#[trigger] archives[i]).1, a);
        assert(references[i] == archive_references(archives)[i]);
        assert(reference_holds(references[i], a));
    }
    if named_hold(regular, a) {
        let m = choose|m: int| 0 <= m < regular.len() && functions_hold((#[trigger] regular[m]).1, a);
        let r = archives.len() + m;
        assert(references[r] == regular_references(regular)[m]);
        assert(reference_holds(references[r], a));
    }
}

/// Every address has one resolver.
///
/// The addresses of an object are split between the object's own debug
/// information and the references to other object files. Every original
/// address that is handed in is on one of the two sides, no original
/// address is on both, and neither side holds an address that was not
/// handed in.
pub proof fn lemma_every_address_has_one_resolver(
    object_map: ObjectMapView,
    addresses: Seq<AddressPair>,
    a: u32,
)
    ensures
        !(pairs_hold(internal_addresses(object_map, addresses), a) && references_hold(
            new_references(object_map, addresses),
            a,
        )),
        pairs_hold(internal_addresses(object_map, addresses), a) || references_hold(
            new_references(object_map, addresses),
            a,
        ) <==> pairs_hold(addresses, a),
{
    let records = split_matches(object_map, addresses);
    let groups = funs_by_object(records);
    let names = object_map.objects;
    lemma_found_originals(records, a);
    lemma_records_come_from_pairs(
        crate::macho::sorting::sorted_by_address(object_map.symbols),
        addresses,
        a,
    );
    lemma_internal_addresses(found_originals(records), addresses, a);
    lemma_groups_hold_records(records, a);
    lemma_files_hold_groups(groups, names, a);
    lemma_references_hold_files(archives_of(groups, names), regular_objects_of(groups, names), a);
}

/// No two of the address pairs are for the same original address.
pub open spec fn distinct_originals(addresses: Seq<AddressPair>) -> bool {
    forall|i: int, j: int|
        0 <= i < j < addresses.len() ==> (#[trigger] addresses[i]).original_address != (
        #[trigger] addresses[j]).original_address
}

/// The original address `a` stands at position `j` of record `r`.
pub open spec fn record_at(records: Seq<MatchedFunction>, r: int, j: int, a: u32) -> bool {
    0 <= r < records.len() && 0 <= j < records[r].addresses.len()
        && records[r].addresses[j].original_address == a
}

/// An original address stands at one place of the records at most.
proof fn lemma_record_place(
    symbols: Seq<ObjectMapSymbol>,
    addresses: Seq<AddressPair>,
    a: u32,
    r1: int,
    j1: int,
    r2: int,
    j2: int,
)
    requires
        distinct_originals(addresses),
        record_at(matches_of(symbols, addresses), r1, j1, a),
        record_at(matches_of(symbols, addresses), r2, j2, a),
    ensures
        r1 == r2 && j1 == j2,
    decreases addresses.len(),
{
    if addresses.len() > 0 {
        let earlier = addresses.drop_last();
        let pair = addresses.last();
        let before = matches_of(symbols, earlier);
        let records = matches_of(symbols, addresses);
        assert(distinct_originals(earlier)) by {
            assert forall|i: int, j: int| 0 <= i < j < earlier.len() implies (
            #[trigger] earlier[i]).original_address != (#[trigger] earlier[j]).original_address by {
                assert(earlier[i] == addresses[i] && earlier[j] == addresses[j]);
            }
        }
        // What stood in the records before is not the new address.
        lemma_records_come_from_pairs(symbols, earlier, a);
        if pair.original_address == a && pairs_hold(earlier, a) {
            let k = choose|k: int| 0 <= k < earlier.len() && (#[trigger] earlier[k]).original_address == a;
            assert(addresses[k] == earlier[k]);
            assert(addresses[addresses.len() - 1] == pair);
        }
        let old1 = record_at(before, r1, j1, a);
        let old2 = record_at(before, r2, j2, a);
        if old1 {
            assert(addresses_hold(before[r1].addresses, a));
            assert(records_hold(before, a));
        }
        if old2 {
            assert(addresses_hold(before[r2].addresses, a));
            assert(records_hold(before, a));
        }
        if old1 && old2 {
            lemma_record_place(symbols, earlier, a, r1, j1, r2, j2);
        } else {
            // A place that is new holds the new address, at the end of the
            // last record.
            match matched_symbol(symbols, pair.address_in_this_object) {
                Some(f) => {
                    let last = records.len() - 1;
                    if !old1 {
                        assert(r1 == last && j1 == records[last].addresses.len() - 1);
                        assert(pair.original_address == a);
                    }
                    if !old2 {
                        assert(r2 == last && j2 == records[last].addresses.len() - 1);
                        assert(pair.original_address == a);
                    }
                },
                None => {},
            }
        }
    }
}

/// An original address stands at one place of the records at most.
pub open spec fn record_places_unique(records: Seq<MatchedFunction>) -> bool {
    forall|r1: int, j1: int, r2: int, j2: int, a: u32|
        #[trigger] record_at(records, r1, j1, a) && #[trigger] record_at(records, r2, j2, a)
            ==> r1 == r2 && j1 == j2
}

/// The original address `a` stands at position `j` under the function
/// `name` of group `g`.
pub open spec fn group_at(
    groups: Seq<(usize, Functions)>,
    g: int,
    name: Seq<u8>,
    j: int,
    a: u32,
) -> bool {
    0 <= g < groups.len() && groups[g].1.contains_key(name) && 0 <= j < groups[g].1[name].len()
        && groups[g].1[name][j].original_address == a
}

/// An original address stands at one place of the groups at most.
pub open spec fn group_places_unique(groups: Seq<(usize, Functions)>) -> bool {
    forall|g1: int, n1: Seq<u8>, j1: int, g2: int, n2: Seq<u8>, j2: int, a: u32|
        #[trigger] group_at(groups, g1, n1, j1, a) && #[trigger] group_at(groups, g2, n2, j2, a)
            ==> g1 == g2 && n1 == n2 && j1 == j2
}

/// A place among functions to which addresses were added is a place that
/// was there before, or one of the added addresses behind them.
proof fn lemma_added_place(
    functions: Functions,
    name: Seq<u8>,
    addresses: Seq<AddressWithOffset>,
    n: Seq<u8>,
    j: int,
    a: u32,
)
    requires
        added(functions, name, addresses).contains_key(n),
        0 <= j < added(functions, name, addresses)[n].len(),
        added(functions, name, addresses)[n][j].original_address == a,
    ensures
        (functions.contains_key(n) && j < functions[n].len() && functions[n][j].original_address
            == a) || (n == name && 0 <= j - filed_under(functions, name).len() < addresses.len()
            && addresses[j - filed_under(functions, name).len()].original_address == a),
{
}

/// A place among merged functions is a place of the first, or a place of
/// the second behind what the first files under that name.
proof fn lemma_merged_place(first: Functions, second: Functions, n: Seq<u8>, j: int, a: u32)
    requires
        merged(first, second).contains_key(n),
        0 <= j < merged(first, second)[n].len(),
        merged(first, second)[n][j].original_address == a,
    ensures
        (first.contains_key(n) && j < first[n].len() && first[n][j].original_address == a) || (
        second.contains_key(n) && 0 <= j - filed_under(first, n).len() < second[n].len()
            && second[n][j - filed_under(first, n).len()].original_address == a),
{
}

/// An original address stands at one place of the groups at most, where
/// it stands at one place of the records at most.
proof fn lemma_group_place(
    records: Seq<MatchedFunction>,
    a: u32,
    g1: int,
    n1: Seq<u8>,
    j1: int,
    g2: int,
    n2: Seq<u8>,
    j2: int,
)
    requires
        record_places_unique(records),
        group_at(funs_by_object(records), g1, n1, j1, a),
        group_at(funs_by_object(records), g2, n2, j2, a),
    ensures
        g1 == g2 && n1 == n2 && j1 == j2,
    decreases records.len(),
{
    let groups = funs_by_object(records);
    let earlier = records.drop_last();
    let record = records.last();
    let last = records.len() - 1;
    let before = funs_by_object(earlier);
    assert(records[last] == record);
    lemma_key_index(before, record.object_index);
    let at = match key_index(before, record.object_index) {
        Some(i) => i,
        None => before.len() as int,
    };
    let functions_before = if at < before.len() {
        before[at].1
    } else {
        Map::<Seq<u8>, Seq<AddressWithOffset>>::empty()
    };
    let base = filed_under(functions_before, record.fun_name).len() as int;
    assert(groups[at].1 =~= added(functions_before, record.fun_name, record.addresses)) by {
        assert(Seq::<AddressWithOffset>::empty() + record.addresses =~= record.addresses);
    }
    assert(record_places_unique(earlier)) by {
        assert forall|r1: int, j1: int, r2: int, j2: int, a: u32|
            #[trigger] record_at(earlier, r1, j1, a) && #[trigger] record_at(
                earlier,
                r2,
                j2,
                a,
            ) implies r1 == r2 && j1 == j2 by {
            assert(earlier[r1] == records[r1] && earlier[r2] == records[r2]);
            assert(record_at(records, r1, j1, a) && record_at(records, r2, j2, a));
        }
    }
    if g1 == at {
        lemma_added_place(functions_before, record.fun_name, record.addresses, n1, j1, a);
    } else {
        assert(groups[g1] == before[g1]);
    }
    if g2 == at {
        lemma_added_place(functions_before, record.fun_name, record.addresses, n2, j2, a);
    } else {
        assert(groups[g2] == before[g2]);
    }
    let old1 = group_at(before, g1, n1, j1, a);
    let old2 = group_at(before, g2, n2, j2, a);
    if old1 && old2 {
        lemma_group_place(earlier, a, g1, n1, j1, g2, n2, j2);
    } else {
        // An address of the last record stood in no record before.
        if old1 || old2 {
            let (g, n, j) = if old1 {
                (g1, n1, j1)
            } else {
                (g2, n2, j2)
            };
            let new_j = if old1 {
                j2
            } else {
                j1
            };
            assert(addresses_hold(before[g].1[n], a));
            assert(functions_hold(before[g].1, a));
            assert(groups_hold(before, a));
            lemma_groups_hold_records(earlier, a);
            let r = choose|r: int|
                0 <= r < earlier.len() && addresses_hold((#[trigger] earlier[r]).addresses, a);
            let jj = choose|jj: int|
                0 <= jj < earlier[r].addresses.len() && (
                #[trigger] earlier[r].addresses[jj]).original_address == a;
            assert(earlier[r] == records[r]);
            assert(record_at(records, r, jj, a));
            assert(record_at(records, last, new_j - base, a));
        } else {
            assert(record_at(records, last, j1 - base, a));
            assert(record_at(records, last, j2 - base, a));
        }
    }
}

/// The original address `a` stands at position `j` under the function
/// `name` of entry `m`.
pub open spec fn named_at(
    entries: Seq<(Seq<u8>, Functions)>,
    m: int,
    name: Seq<u8>,
    j: int,
    a: u32,
) -> bool {
    0 <= m < entries.len() && entries[m].1.contains_key(name) && 0 <= j
        < entries[m].1[name].len() && entries[m].1[name][j].original_address == a
}

/// A place among the files that are referred to.
pub enum Place {
    /// Under a function of a member of an archive.
    InArchive { archive: int, member: int, name: Seq<u8>, position: int },
    /// Under a function of an object file that stands on its own.
    OnItsOwn { file: int, name: Seq<u8>, position: int },
}

/// The original address `a` stands at the place `place`.
pub open spec fn file_at(
    archives: Seq<(Seq<u8>, Seq<(Seq<u8>, Functions)>)>,
    regular: Seq<(Seq<u8>, Functions)>,
    place: Place,
    a: u32,
) -> bool {
    match place {
        Place::InArchive { archive, member, name, position } => 0 <= archive < archives.len()
            && named_at(archives[archive].1, member, name, position, a),
        Place::OnItsOwn { file, name, position } => named_at(regular, file, name, position, a),
    }
}

/// Where the functions under `name` stand, or will stand, among the entries.
pub open spec fn slot_index(entries: Seq<(Seq<u8>, Functions)>, name: Seq<u8>) -> int {
    match key_index(entries, name) {
        Some(i) => i,
        None => entries.len() as int,
    }
}

/// The functions that stand under `name` among the entries; none where the
/// name is not there.
pub open spec fn slot_functions(entries: Seq<(Seq<u8>, Functions)>, name: Seq<u8>) -> Functions {
    match key_index(entries, name) {
        Some(i) => entries[i].1,
        None => Map::empty(),
    }
}

/// A place among entries that took functions over is a place that was
/// there before, or a place of these functions behind what was filed.
proof fn lemma_absorbed_place(
    entries: Seq<(Seq<u8>, Functions)>,
    name: Seq<u8>,
    functions: Functions,
    m: int,
    n: Seq<u8>,
    j: int,
    a: u32,
)
    requires
        named_at(absorbed(entries, name, functions), m, n, j, a),
    ensures
        named_at(entries, m, n, j, a) || (m == slot_index(entries, name) && functions.contains_key(
            n,
        ) && 0 <= j - filed_under(slot_functions(entries, name), n).len() < functions[n].len()
            && functions[n][j - filed_under(
            slot_functions(entries, name),
            n,
        ).len()].original_address == a),
{
    lemma_key_index(entries, name);
    let at = slot_index(entries, name);
    let after = absorbed(entries, name, functions);
    if m != at {
        assert(after[m] == entries[m]);
    } else if at < entries.len() {
        lemma_merged_place(entries[at].1, functions, n, j, a);
    }
}

/// The place to which the address at position `j` under the function `n`
/// of the last group goes.
pub open spec fn place_of_last(
    groups: Seq<(usize, Functions)>,
    names: Seq<Seq<u8>>,
    n: Seq<u8>,
    j: int,
) -> Place {
    let earlier = groups.drop_last();
    let name = names[groups.last().0 as int];
    if paren_index(name) is Some {
        let archives = archives_of(earlier, names);
        let members = members_of(archives, archive_path_of(name));
        Place::InArchive {
            archive: match key_index(archives, archive_path_of(name)) {
                Some(i) => i,
                None => archives.len() as int,
            },
            member: slot_index(members, member_name_of(name)),
            name: n,
            position: filed_under(slot_functions(members, member_name_of(name)), n).len() + j,
        }
    } else {
        let regular = regular_objects_of(earlier, names);
        Place::OnItsOwn {
            file: slot_index(regular, name),
            name: n,
            position: filed_under(slot_functions(regular, name), n).len() + j,
        }
    }
}

/// The function under which a place stands.
pub open spec fn name_at(place: Place) -> Seq<u8> {
    match place {
        Place::InArchive { name, .. } => name,
        Place::OnItsOwn { name, .. } => name,
    }
}

/// A place among the files of the groups is a place among the files of
/// the earlier groups, or the place of an address of the last group. The
/// result is the position of that address in the last group.
proof fn lemma_file_step(
    groups: Seq<(usize, Functions)>,
    names: Seq<Seq<u8>>,
    place: Place,
    a: u32,
) -> (j: int)
    requires
        groups.len() > 0,
        file_at(archives_of(groups, names), regular_objects_of(groups, names), place, a),
    ensures
        file_at(
            archives_of(groups.drop_last(), names),
            regular_objects_of(groups.drop_last(), names),
            place,
            a,
        ) || (group_at(groups, groups.len() - 1, name_at(place), j, a) && place == place_of_last(
            groups,
            names,
            name_at(place),
            j,
        )),
{
    let earlier = groups.drop_last();
    let last = groups.len() - 1;
    let name = names[groups.last().0 as int];
    let functions = groups.last().1;
    let archives_before = archives_of(earlier, names);
    let regular_before = regular_objects_of(earlier, names);
    let archives = archives_of(groups, names);
    assert(groups[last] == groups.last());
    if paren_index(name) is Some {
        let path = archive_path_of(name);
        let member = member_name_of(name);
        lemma_key_index(archives_before, path);
        let at = match key_index(archives_before, path) {
            Some(i) => i,
            None => archives_before.len() as int,
        };
        let members_before = members_of(archives_before, path);
        assert(archives[at].1 =~= absorbed(members_before, member, functions));
        match place {
            Place::InArchive { archive, member: m, name: n, position } => {
                if archive != at {
                    assert(archives[archive] == archives_before[archive]);
                    0
                } else {
                    lemma_absorbed_place(members_before, member, functions, m, n, position, a);
                    if named_at(members_before, m, n, position, a) {
                        0
                    } else {
                        position - filed_under(slot_functions(members_before, member), n).len()
                    }
                }
            },
            Place::OnItsOwn { .. } => 0,
        }
    } else {
        match place {
            Place::InArchive { .. } => 0,
            Place::OnItsOwn { file, name: n, position } => {
                lemma_absorbed_place(regular_before, name, functions, file, n, position, a);
                if named_at(regular_before, file, n, position, a) {
                    0
                } else {
                    position - filed_under(slot_functions(regular_before, name), n).len()
                }
            },
        }
    }
}

/// An address that stands at a place among the files is held by them.
proof fn lemma_place_is_held(
    archives: Seq<(Seq<u8>, Seq<(Seq<u8>, Functions)>)>,
    regular: Seq<(Seq<u8>, Functions)>,
    place: Place,
    a: u32,
)
    requires
        file_at(archives, regular, place, a),
    ensures
        archives_hold(archives, a) || named_hold(regular, a),
{
    match place {
        Place::InArchive { archive, member, name, position } => {
            assert(addresses_hold(archives[archive].1[member].1[name], a));
            assert(functions_hold(archives[archive].1[member].1, a));
            assert(named_hold(archives[archive].1, a));
        },
        Place::OnItsOwn { file, name, position } => {
            assert(addresses_hold(regular[file].1[name], a));
            assert(functions_hold(regular[file].1, a));
        },
    }
}

/// An original address stands at one place among the files at most, where
/// it stands at one place of the groups at most.
proof fn lemma_file_place(
    groups: Seq<(usize, Functions)>,
    names: Seq<Seq<u8>>,
    a: u32,
    place1: Place,
    place2: Place,
)
    requires
        group_places_unique(groups),
        file_at(archives_of(groups, names), regular_objects_of(groups, names), place1, a),
        file_at(archives_of(groups, names), regular_objects_of(groups, names), place2, a),
    ensures
        place1 == place2,
    decreases groups.len(),
{
    if groups.len() > 0 {
        let earlier = groups.drop_last();
        let last = groups.len() - 1;
        let archives_before = archives_of(earlier, names);
        let regular_before = regular_objects_of(earlier, names);
        assert(group_places_unique(earlier)) by {
            assert forall|g1: int, n1: Seq<u8>, j1: int, g2: int, n2: Seq<u8>, j2: int, a: u32|
                #[trigger] group_at(earlier, g1, n1, j1, a) && #[trigger] group_at(
                    earlier,
                    g2,
                    n2,
                    j2,
                    a,
                ) implies g1 == g2 && n1 == n2 && j1 == j2 by {
                assert(earlier[g1] == groups[g1] && earlier[g2] == groups[g2]);
                assert(group_at(groups, g1, n1, j1, a) && group_at(groups, g2, n2, j2, a));
            }
        }
        let j1 = lemma_file_step(groups, names, place1, a);
        let j2 = lemma_file_step(groups, names, place2, a);
        let old1 = file_at(archives_before, regular_before, place1, a);
        let old2 = file_at(archives_before, regular_before, place2, a);
        if old1 && old2 {
            lemma_file_place(earlier, names, a, place1, place2);
        } else if old1 || old2 {
            // An address of the last group stood in no group before.
            let held = if old1 {
                place1
            } else {
                place2
            };
            lemma_place_is_held(archives_before, regular_before, held, a);
            lemma_files_hold_groups(earlier, names, a);
            let g = choose|g: int| 0 <= g < earlier.len() && functions_hold((#[trigger] earlier[g]).1, a);
            let n = choose|n: Seq<u8>|
                earlier[g].1.contains_key(n) && #[trigger] addresses_hold(earlier[g].1[n], a);
            let j = choose|j: int|
                0 <= j < earlier[g].1[n].len() && (#[trigger] earlier[g].1[n][j]).original_address
                    == a;
            assert(earlier[g] == groups[g]);
            assert(group_at(groups, g, n, j, a));
            if old1 {
                assert(group_at(groups, last, name_at(place2), j2, a));
            } else {
                assert(group_at(groups, last, name_at(place1), j1, a));
            }
        } else {
            assert(group_at(groups, last, name_at(place1), j1, a));
            assert(group_at(groups, last, name_at(place2), j2, a));
        }
    }
}

/// The functions of member `member` of a reference. An object file that
/// stands on its own counts as its one member, with the number 0.
pub open spec fn member_functions(reference: ObjectReferenceView, member: int) -> Option<Functions> {
    match reference {
        ObjectReferenceView::Regular { functions, .. } => if member == 0 {
            Some(functions)
        } else {
            None
        },
        ObjectReferenceView::Archive { archive_info, .. } => if 0 <= member < archive_info.len() {
            Some(archive_info[member].1)
        } else {
            None
        },
    }
}

/// The original address `a` stands at position `j` under the function
/// `name` of member `member` of reference `r`.
pub open spec fn stands_at(
    references: Seq<ObjectReferenceView>,
    r: int,
    member: int,
    name: Seq<u8>,
    j: int,
    a: u32,
) -> bool {
    &&& 0 <= r < references.len()
    &&& member_functions(references[r], member) is Some
    &&& member_functions(references[r], member)->Some_0.contains_key(name)
    &&& 0 <= j < member_functions(references[r], member)->Some_0[name].len()
    &&& member_functions(references[r], member)->Some_0[name][j].original_address == a
}

/// No address has two places.
///
/// Where no two of the addresses that are handed in are for the same
/// original address, an original address stands in the new references once
/// at most: in one reference, there under one member, there under one
/// function, and there at one position.
pub proof fn lemma_address_stands_in_one_place(
    object_map: ObjectMapView,
    addresses: Seq<AddressPair>,
    a: u32,
    r1: int,
    member1: int,
    name1: Seq<u8>,
    j1: int,
    r2: int,
    member2: int,
    name2: Seq<u8>,
    j2: int,
)
    requires
        distinct_originals(addresses),
        stands_at(new_references(object_map, addresses), r1, member1, name1, j1, a),
        stands_at(new_references(object_map, addresses), r2, member2, name2, j2, a),
    ensures
        r1 == r2,
        member1 == member2,
        name1 == name2,
        j1 == j2,
{
    let symbols = crate::macho::sorting::sorted_by_address(object_map.symbols);
    let records = split_matches(object_map, addresses);
    let groups = funs_by_object(records);
    let names = object_map.objects;
    let archives = archives_of(groups, names);
    let regular = regular_objects_of(groups, names);
    let references = archive_references(archives) + regular_references(regular);
    assert(record_places_unique(records)) by {
        assert forall|r1: int, j1: int, r2: int, j2: int, a: u32|
            #[trigger] record_at(records, r1, j1, a) && #[trigger] record_at(
                records,
                r2,
                j2,
                a,
            ) implies r1 == r2 && j1 == j2 by {
            lemma_record_place(symbols, addresses, a, r1, j1, r2, j2);
        }
    }
    assert(group_places_unique(groups)) by {
        assert forall|g1: int, n1: Seq<u8>, j1: int, g2: int, n2: Seq<u8>, j2: int, a: u32|
            #[trigger] group_at(groups, g1, n1, j1, a) && #[trigger] group_at(
                groups,
                g2,
                n2,
                j2,
                a,
            ) implies g1 == g2 && n1 == n2 && j1 == j2 by {
            lemma_group_place(records, a, g1, n1, j1, g2, n2, j2);
        }
    }
    let place1 = if r1 < archives.len() {
        Place::InArchive { archive: r1, member: member1, name: name1, position: j1 }
    } else {
        Place::OnItsOwn { file: r1 - archives.len(), name: name1, position: j1 }
    };
    let place2 = if r2 < archives.len() {
        Place::InArchive { archive: r2, member: member2, name: name2, position: j2 }
    } else {
        Place::OnItsOwn { file: r2 - archives.len(), name: name2, position: j2 }
    };
    if r1 < archives.len() {
        assert(references[r1] == archive_references(archives)[r1]);
    } else {
        assert(references[r1] == regular_references(regular)[r1 - archives.len()]);
    }
    if r2 < archives.len() {
        assert(references[r2] == archive_references(archives)[r2]);
    } else {
        assert(references[r2] == regular_references(regular)[r2 - archives.len()]);
    }
    lemma_file_place(groups, names, a, place1, place2);
}

} // verus!
