//! What holds of the assignment of addresses to functions.

use crate::macho::functions::{AddressPair, AddressWithOffset};
use crate::macho::matching::{
    first_ending_after, last_matched, lemma_first_ending_after, lemma_first_ending_after_bounds,
    lemma_matched_symbol_contains, matched_symbol, matches_of, offset_into, symbol_end,
    MatchedFunction, ObjectMapSymbol,
};
use crate::macho::sorting::{count_up_to, is_sorted, lemma_count_up_to};
use vstd::prelude::*;

verus! {

/// The functions are sorted by address and none reaches into the next.
pub open spec fn sorted_without_overlap(symbols: Seq<ObjectMapSymbol>) -> bool {
    forall|i: int, j: int|
        0 <= i < j < symbols.len() ==> symbol_end(#[trigger] symbols[i]) <= (
        #[trigger] symbols[j]).address
}

/// The function that a binary search by start address finds for `address`:
/// the last function that starts at or before the address, provided that
/// the address lies before its end.
pub open spec fn bisected_symbol(symbols: Seq<ObjectMapSymbol>, address: u64) -> Option<int> {
    let starting_before = count_up_to(symbols, address);
    if starting_before > 0 && address < symbol_end(symbols[starting_before - 1]) {
        Some(starting_before - 1)
    } else {
        None
    }
}

/// One address as it stands in a record: the object file and the name of
/// its function, and the address with its offset.
pub type Assignment = (usize, Seq<u8>, AddressWithOffset);

/// The addresses of one record.
pub open spec fn record_assignments(record: MatchedFunction) -> Seq<Assignment> {
    record.addresses.map_values(
        |found: AddressWithOffset| (record.object_index, record.fun_name, found),
    )
}

/// The addresses of all records, in order.
pub open spec fn assignments(matches: Seq<MatchedFunction>) -> Seq<Assignment>
    decreases matches.len(),
{
    if matches.len() == 0 {
        Seq::empty()
    } else {
        assignments(matches.drop_last()) + record_assignments(matches.last())
    }
}

/// What a search for each address on its own assigns: for each of
/// `addresses` that `find` places in a function, in order, the object file
/// and the name of the function, and the address with its offset into it.
pub open spec fn assigned_one_by_one(
    symbols: Seq<ObjectMapSymbol>,
    addresses: Seq<AddressPair>,
    find: spec_fn(u64) -> Option<int>,
) -> Seq<Assignment>
    decreases addresses.len(),
{
    if addresses.len() == 0 {
        Seq::empty()
    } else {
        let before = assigned_one_by_one(symbols, addresses.drop_last(), find);
        match find(addresses.last().address_in_this_object) {
            Some(f) => before.push(
                (
                    symbols[f].object_index,
                    symbols[f].name@,
                    offset_into(symbols[f], addresses.last()),
                ),
            ),
            None => before,
        }
    }
}

/// For functions that are sorted and do not overlap, an address is
/// assigned to the function that a binary search finds for it.
pub proof fn lemma_matched_is_bisected(symbols: Seq<ObjectMapSymbol>, address: u64)
    requires
        sorted_without_overlap(symbols),
    ensures
        matched_symbol(symbols, address) == bisected_symbol(symbols, address),
{
    assert(is_sorted(symbols)) by {
        assert forall|i: int, j: int| 0 <= i <= j < symbols.len() implies symbols[i].address
            <= symbols[j].address by {
            if i < j {
                assert(symbol_end(symbols[i]) <= symbols[j].address);
            }
        }
    }
    lemma_count_up_to(symbols, address);
    lemma_first_ending_after_bounds(symbols, address, 0);
    let c = count_up_to(symbols, address);
    let f = first_ending_after(symbols, address, 0);
    if c > 0 && address < symbol_end(symbols[c - 1]) {
        assert forall|g: int| 0 <= g < c - 1 implies symbol_end(#[trigger] symbols[g])
            <= address by {
            assert(symbol_end(symbols[g]) <= symbols[c - 1].address);
            assert(symbols[c - 1].address <= address);
        }
        lemma_first_ending_after(symbols, address, 0, c - 1);
        assert(symbols[c - 1].address <= address);
    } else {
        if f < c {
            // The function at `f` ends past the address, yet a later one
            // starts at or before it.
            if f < c - 1 {
                assert(symbol_end(symbols[f]) <= symbols[c - 1].address);
                assert(symbols[c - 1].address <= address);
            }
        } else if f < symbols.len() {
            assert(symbols[f].address > address);
        }
    }
}

/// The record that was opened last belongs to the function of the last
/// address that was assigned.
proof fn lemma_last_record(symbols: Seq<ObjectMapSymbol>, addresses: Seq<AddressPair>)
    ensures
        last_matched(symbols, addresses) matches Some(f) ==> {
            let records = matches_of(symbols, addresses);
            &&& records.len() > 0
            &&& 0 <= f < symbols.len()
            &&& records.last().object_index == symbols[f].object_index
            &&& records.last().fun_name == symbols[f].name@
        },
    decreases addresses.len(),
{
    if addresses.len() > 0 {
        lemma_last_record(symbols, addresses.drop_last());
        lemma_matched_symbol_contains(symbols, addresses.last().address_in_this_object);
    }
}

/// Appending to the last record appends to the addresses of all records.
proof fn lemma_assignments_extend(records: Seq<MatchedFunction>, found: AddressWithOffset)
    requires
        records.len() > 0,
    ensures
        assignments(
            records.update(
                records.len() - 1,
                MatchedFunction { addresses: records.last().addresses.push(found), ..records.last() },
            ),
        ) == assignments(records).push(
            (records.last().object_index, records.last().fun_name, found),
        ),
{
    let extended = MatchedFunction {
        addresses: records.last().addresses.push(found),
        ..records.last()
    };
    let updated = records.update(records.len() - 1, extended);
    assert(updated.drop_last() =~= records.drop_last());
    assert(updated.last() == extended);
    assert(record_assignments(extended) =~= record_assignments(records.last()).push(
        (records.last().object_index, records.last().fun_name, found),
    ));
    assert(assignments(records.drop_last()) + record_assignments(records.last()).push(
        (records.last().object_index, records.last().fun_name, found),
    ) =~= (assignments(records.drop_last()) + record_assignments(records.last())).push(
        (records.last().object_index, records.last().fun_name, found),
    ));
}

/// Opening a record with one address appends to the addresses of all records.
proof fn lemma_assignments_open(records: Seq<MatchedFunction>, opened: MatchedFunction)
    requires
        opened.addresses.len() == 1,
    ensures
        assignments(records.push(opened)) == assignments(records).push(
            (opened.object_index, opened.fun_name, opened.addresses[0]),
        ),
{
    let pushed = records.push(opened);
    assert(pushed.drop_last() =~= records);
    assert(pushed.last() == opened);
    assert(record_assignments(opened) =~= seq![
        (opened.object_index, opened.fun_name, opened.addresses[0]),
    ]);
    assert(assignments(records) + seq![
        (opened.object_index, opened.fun_name, opened.addresses[0]),
    ] =~= assignments(records).push((opened.object_index, opened.fun_name, opened.addresses[0])));
}

/// The records hold, in order, exactly what a search for each address on
/// its own assigns.
pub proof fn lemma_records_hold_assignments(
    symbols: Seq<ObjectMapSymbol>,
    addresses: Seq<AddressPair>,
)
    ensures
        assignments(matches_of(symbols, addresses)) == assigned_one_by_one(
            symbols,
            addresses,
            |address: u64| matched_symbol(symbols, address),
        ),
    decreases addresses.len(),
{
    let find = |address: u64| matched_symbol(symbols, address);
    if addresses.len() > 0 {
        let earlier = addresses.drop_last();
        lemma_records_hold_assignments(symbols, earlier);
        lemma_last_record(symbols, earlier);
        let before = matches_of(symbols, earlier);
        let pair = addresses.last();
        match matched_symbol(symbols, pair.address_in_this_object) {
            Some(f) => {
                let found = offset_into(symbols[f], pair);
                if last_matched(symbols, earlier) == Some(f) && before.len() > 0 {
                    lemma_assignments_extend(before, found);
                } else {
                    lemma_assignments_open(
                        before,
                        MatchedFunction {
                            object_index: symbols[f].object_index,
                            fun_name: symbols[f].name@,
                            addresses: seq![found],
                        },
                    );
                }
                assert(find(pair.address_in_this_object) == Some(f));
            },
            None => {
                assert(find(pair.address_in_this_object) is None);
            },
        }
    }
}

/// Two searches that find the same function for every address assign the same.
proof fn lemma_same_search_same_assignments(
    symbols: Seq<ObjectMapSymbol>,
    addresses: Seq<AddressPair>,
    find: spec_fn(u64) -> Option<int>,
    other: spec_fn(u64) -> Option<int>,
)
    requires
        forall|address: u64| #[trigger] find(address) == other(address),
    ensures
        assigned_one_by_one(symbols, addresses, find) == assigned_one_by_one(
            symbols,
            addresses,
            other,
        ),
    decreases addresses.len(),
{
    if addresses.len() > 0 {
        lemma_same_search_same_assignments(symbols, addresses.drop_last(), find, other);
        assert(find(addresses.last().address_in_this_object) == other(
            addresses.last().address_in_this_object,
        ));
    }
}

/// The single pass over functions and addresses assigns what a binary
/// search for each address on its own assigns: for functions that are
/// sorted by address and do not overlap, the records of
/// [`matches_of`] hold, in the order of the addresses, the same functions
/// and offsets.
pub proof fn lemma_single_pass_is_binary_search(
    symbols: Seq<ObjectMapSymbol>,
    addresses: Seq<AddressPair>,
)
    requires
        sorted_without_overlap(symbols),
    ensures
        assignments(matches_of(symbols, addresses)) == assigned_one_by_one(
            symbols,
            addresses,
            |address: u64| bisected_symbol(symbols, address),
        ),
{
    let find = |address: u64| matched_symbol(symbols, address);
    let other = |address: u64| bisected_symbol(symbols, address);
    lemma_records_hold_assignments(symbols, addresses);
    assert forall|address: u64| #[trigger] find(address) == other(address) by {
        lemma_matched_is_bisected(symbols, address);
    }
    lemma_same_search_same_assignments(symbols, addresses, find, other);
}

} // verus!
