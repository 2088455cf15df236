//! Assigning addresses to the functions of an object map.
//!
//! An object map lists, for a linked binary, which address range came from
//! which function of which object file.

use crate::macho::functions::{copy_bytes, AddressPair, AddressWithOffset};
use vstd::prelude::*;

verus! {

/// One function of the object map: the range `[address, address + size)`
/// came from the function `name` of the object file at `object_index`.
#[derive(Debug, PartialEq, Eq)]
pub struct ObjectMapSymbol {
    pub name: Vec<u8>,
    pub address: u64,
    pub size: u64,
    pub object_index: usize,
}

/// A function together with the addresses that fall into it.
#[derive(Debug, PartialEq, Eq)]
pub struct MatchedFunctionWithAddresses {
    pub object_index: usize,
    pub fun_name: Vec<u8>,
    pub addresses: Vec<AddressWithOffset>,
}

/// Mathematical model of a [`MatchedFunctionWithAddresses`].
pub struct MatchedFunction {
    pub object_index: usize,
    pub fun_name: Seq<u8>,
    pub addresses: Seq<AddressWithOffset>,
}

impl View for MatchedFunctionWithAddresses {
    type V = MatchedFunction;

    open spec fn view(&self) -> MatchedFunction {
        MatchedFunction {
            object_index: self.object_index,
            fun_name: self.fun_name@,
            addresses: self.addresses@,
        }
    }
}

/// The models of a sequence of matched functions, in order.
pub open spec fn matched_view(matches: Seq<MatchedFunctionWithAddresses>) -> Seq<MatchedFunction> {
    matches.map_values(|m: MatchedFunctionWithAddresses| m@)
}

/// The first address past the function.
pub open spec fn symbol_end(symbol: ObjectMapSymbol) -> int {
    symbol.address + symbol.size
}

/// `addresses` is ordered by the address inside the object, low to high.
pub open spec fn sorted_by_object_address(addresses: Seq<AddressPair>) -> bool {
    forall|i: int, j: int|
        0 <= i <= j < addresses.len() ==> addresses[i].address_in_this_object
            <= addresses[j].address_in_this_object
}

/// Index of the first function at or after `from` that ends past `address`;
/// the number of functions where there is none.
pub open spec fn first_ending_after(symbols: Seq<ObjectMapSymbol>, address: u64, from: int) -> int
    decreases symbols.len() - from,
{
    if from < 0 || from >= symbols.len() {
        symbols.len() as int
    } else if address < symbol_end(symbols[from]) {
        from
    } else {
        first_ending_after(symbols, address, from + 1)
    }
}

/// The function that `address` is assigned to: the first one that ends past
/// the address, provided that it starts at or before it. An address on a
/// function's first byte belongs to that function, one on the first byte past
/// its end does not, and an address between two functions belongs to none.
pub open spec fn matched_symbol(symbols: Seq<ObjectMapSymbol>, address: u64) -> Option<int> {
    let f = first_ending_after(symbols, address, 0);
    if f < symbols.len() && symbols[f].address <= address {
        Some(f)
    } else {
        None
    }
}

/// The address pair as an address with its offset into `symbol`. The offset
/// is the distance from the function's start, cut down to its low 32 bits.
pub open spec fn offset_into(symbol: ObjectMapSymbol, pair: AddressPair) -> AddressWithOffset {
    AddressWithOffset {
        original_address: pair.original_address,
        offset_from_function_start: (pair.address_in_this_object - symbol.address) as u32,
    }
}

/// The function of the last of `addresses` that is assigned to any.
pub open spec fn last_matched(symbols: Seq<ObjectMapSymbol>, addresses: Seq<AddressPair>) -> Option<
    int,
>
    decreases addresses.len(),
{
    if addresses.len() == 0 {
        None
    } else {
        match matched_symbol(symbols, addresses.last().address_in_this_object) {
            Some(f) => Some(f),
            None => last_matched(symbols, addresses.drop_last()),
        }
    }
}

/// The functions that `addresses` fall into, each with its addresses.
///
/// The addresses are taken in order. One that is assigned to no function is
/// left out. One that is assigned to the same function as the assigned
/// address before it joins that function's record; any other opens a new
/// record.
pub open spec fn matches_of(symbols: Seq<ObjectMapSymbol>, addresses: Seq<AddressPair>) -> Seq<
    MatchedFunction,
>
    decreases addresses.len(),
{
    if addresses.len() == 0 {
        Seq::empty()
    } else {
        let before = matches_of(symbols, addresses.drop_last());
        let pair = addresses.last();
        match matched_symbol(symbols, pair.address_in_this_object) {
            None => before,
            Some(f) => {
                let found = offset_into(symbols[f], pair);
                if last_matched(symbols, addresses.drop_last()) == Some(f) && before.len() > 0 {
                    before.update(
                        before.len() - 1,
                        MatchedFunction {
                            addresses: before.last().addresses.push(found),
                            ..before.last()
                        },
                    )
                } else {
                    before.push(
                        MatchedFunction {
                            object_index: symbols[f].object_index,
                            fun_name: symbols[f].name@,
                            addresses: seq![found],
                        },
                    )
                }
            },
        }
    }
}

/// The index that ends the run of functions which end at or before `address`
/// is the first function ending past it.
pub proof fn lemma_first_ending_after(
    symbols: Seq<ObjectMapSymbol>,
    address: u64,
    from: int,
    f: int,
)
    requires
        0 <= from <= f <= symbols.len(),
        forall|g: int| from <= g < f ==> symbol_end(#[trigger] symbols[g]) <= address,
        f < symbols.len() ==> address < symbol_end(symbols[f]),
    ensures
        first_ending_after(symbols, address, from) == f,
    decreases f - from,
{
    if from < f {
        assert(symbol_end(symbols[from]) <= address);
        lemma_first_ending_after(symbols, address, from + 1, f);
    }
}

/// The search for the first function ending past an address stays within
/// the functions, and passes only functions that end at or before it.
pub proof fn lemma_first_ending_after_bounds(
    symbols: Seq<ObjectMapSymbol>,
    address: u64,
    from: int,
)
    requires
        0 <= from <= symbols.len(),
    ensures
        from <= first_ending_after(symbols, address, from) <= symbols.len(),
        first_ending_after(symbols, address, from) < symbols.len() ==> address < symbol_end(
            symbols[first_ending_after(symbols, address, from)],
        ),
        forall|g: int|
            from <= g < first_ending_after(symbols, address, from) ==> symbol_end(
                #[trigger] symbols[g],
            ) <= address,
    decreases symbols.len() - from,
{
    if from < symbols.len() && !(address < symbol_end(symbols[from])) {
        lemma_first_ending_after_bounds(symbols, address, from + 1);
    }
}

/// The function that an address is assigned to contains the address.
pub proof fn lemma_matched_symbol_contains(symbols: Seq<ObjectMapSymbol>, address: u64)
    ensures
        matched_symbol(symbols, address) matches Some(f) ==> 0 <= f < symbols.len()
            && symbols[f].address <= address < symbol_end(symbols[f]),
{
    lemma_first_ending_after_bounds(symbols, address, 0);
}

/// Addresses that are assigned to no function add nothing to the matches.
proof fn lemma_unmatched_tail(symbols: Seq<ObjectMapSymbol>, addresses: Seq<AddressPair>, upto: int)
    requires
        0 <= upto <= addresses.len(),
        forall|k: int|
            upto <= k < addresses.len() ==> matched_symbol(
                symbols,
                (#[trigger] addresses[k]).address_in_this_object,
            ) is None,
    ensures
        matches_of(symbols, addresses) == matches_of(symbols, addresses.subrange(0, upto)),
    decreases addresses.len() - upto,
{
    if upto < addresses.len() {
        let shorter = addresses.drop_last();
        assert(shorter.subrange(0, upto) =~= addresses.subrange(0, upto));
        assert forall|k: int| upto <= k < shorter.len() implies matched_symbol(
            symbols,
            (#[trigger] shorter[k]).address_in_this_object,
        ) is None by {
            assert(shorter[k] == addresses[k]);
        }
        lemma_unmatched_tail(symbols, shorter, upto);
        assert(addresses.last() == addresses[addresses.len() - 1]);
    } else {
        assert(addresses.subrange(0, upto) =~= addresses);
    }
}

/// Where some address is assigned to a function, there is a record.
proof fn lemma_matches_nonempty(symbols: Seq<ObjectMapSymbol>, addresses: Seq<AddressPair>)
    ensures
        last_matched(symbols, addresses) is Some ==> matches_of(symbols, addresses).len() > 0,
    decreases addresses.len(),
{
    if addresses.len() > 0 {
        lemma_matches_nonempty(symbols, addresses.drop_last());
    }
}

/// Assigns each address to a function of the object map.
///
/// `addresses` must be sorted by `address_in_this_object`. The functions are
/// walked in the order given, in a single pass over both slices; for the
/// result to name the function that contains each address, they are sorted by
/// address and do not overlap.
pub fn match_funs_to_addresses(
    function_symbols: &[ObjectMapSymbol],
    addresses: &[AddressPair],
) -> (matches: Vec<MatchedFunctionWithAddresses>)
    requires
        sorted_by_object_address(addresses@),
    ensures
        matched_view(matches@) == matches_of(function_symbols@, addresses@),
{
    let ghost symbols = function_symbols@;
    let mut matches: Vec<MatchedFunctionWithAddresses> = Vec::new();
    let mut cur_addr: usize = 0;
    let mut cur_fun: usize = 0;
    let mut cur_fun_is_last_vec_element = false;
    assert(matched_view(matches@) =~= matches_of(symbols, addresses@.subrange(0, 0)));
    while cur_addr < addresses.len() && cur_fun < function_symbols.len()
        invariant
            0 <= cur_addr <= addresses@.len(),
            0 <= cur_fun <= symbols.len(),
            symbols == function_symbols@,
            sorted_by_object_address(addresses@),
            forall|g: int, k: int|
                0 <= g < cur_fun && cur_addr <= k < addresses@.len() ==> symbol_end(
                    #[trigger] symbols[g],
                ) <= (#[trigger] addresses@[k]).address_in_this_object,
            matched_view(matches@) == matches_of(symbols, addresses@.subrange(0, cur_addr as int)),
            last_matched(symbols, addresses@.subrange(0, cur_addr as int)) matches Some(f) ==> f
                <= cur_fun,
            cur_fun_is_last_vec_element <==> last_matched(
                symbols,
                addresses@.subrange(0, cur_addr as int),
            ) == Some(cur_fun as int),
        decreases (addresses@.len() - cur_addr) + (symbols.len() - cur_fun),
    {
        let address_pair = addresses[cur_addr];
        let fun = &function_symbols[cur_fun];
        let original_address = address_pair.original_address;
        let address_in_this_object = address_pair.address_in_this_object;
        let ghost done = addresses@.subrange(0, cur_addr as int);
        let ghost next = addresses@.subrange(0, cur_addr + 1);
        proof {
            assert(next.drop_last() =~= done);
            assert(next.last() == address_pair);
            assert forall|g: int| 0 <= g < cur_fun implies symbol_end(#[trigger] symbols[g])
                <= address_in_this_object by {
                assert(symbol_end(symbols[g]) <= addresses@[cur_addr as int].address_in_this_object);
            }
        }
        if !(fun.address <= address_in_this_object) {
            // Advance address_pair.
            proof {
                lemma_first_ending_after(symbols, address_in_this_object, 0, cur_fun as int);
            }
            cur_addr += 1;
        } else if !(address_in_this_object - fun.address < fun.size) {
            // Advance fun.
            cur_fun += 1;
            cur_fun_is_last_vec_element = false;
        } else {
            // Now the following is true:
            // fun.address <= address_in_this_object < fun.address + fun.size
            proof {
                lemma_first_ending_after(symbols, address_in_this_object, 0, cur_fun as int);
                lemma_matches_nonempty(symbols, done);
            }
            let offset_from_function_start = #[verifier::truncate]
            ((address_in_this_object - fun.address) as u32);
            let address_with_offset = AddressWithOffset {
                original_address,
                offset_from_function_start,
            };
            assert(address_with_offset == offset_into(symbols[cur_fun as int], address_pair));
            let ghost before = matches@;
            if cur_fun_is_last_vec_element {
                let last = matches.len() - 1;
                matches[last].addresses.push(address_with_offset);
                proof {
                    assert(matched_view(matches@) =~= matched_view(before).update(
                        before.len() - 1,
                        MatchedFunction {
                            addresses: matched_view(before).last().addresses.push(
                                address_with_offset,
                            ),
                            ..matched_view(before).last()
                        },
                    ));
                }
            } else {
                let mut found: Vec<AddressWithOffset> = Vec::new();
                found.push(address_with_offset);
                assert(found@ =~= seq![address_with_offset]);
                matches.push(
                    MatchedFunctionWithAddresses {
                        object_index: fun.object_index,
                        fun_name: copy_bytes(fun.name.as_slice()),
                        addresses: found,
                    },
                );
                proof {
                    assert(matched_view(matches@) =~= matched_view(before).push(
                        MatchedFunction {
                            object_index: symbols[cur_fun as int].object_index,
                            fun_name: symbols[cur_fun as int].name@,
                            addresses: seq![address_with_offset],
                        },
                    ));
                }
                cur_fun_is_last_vec_element = true;
            }
            // Advance addr.
            cur_addr += 1;
        }
    }
    proof {
        if cur_addr < addresses@.len() {
            assert forall|k: int| cur_addr <= k < addresses@.len() implies matched_symbol(
                symbols,
                (#[trigger] addresses@[k]).address_in_this_object,
            ) is None by {
                assert forall|g: int| 0 <= g < symbols.len() implies symbol_end(
                    #[trigger] symbols[g],
                ) <= addresses@[k].address_in_this_object by {}
                lemma_first_ending_after(
                    symbols,
                    addresses@[k].address_in_this_object,
                    0,
                    symbols.len() as int,
                );
            }
        }
        lemma_unmatched_tail(symbols, addresses@, cur_addr as int);
    }
    matches
}

/// Whether the address pairs are ordered by the address inside the object,
/// low to high.
pub fn pairs_are_sorted(addresses: &[AddressPair]) -> (b: bool)
    ensures
        b == sorted_by_object_address(addresses@),
{
    let mut k: usize = 1;
    while k < addresses.len()
        invariant
            1 <= k,
            forall|i: int, j: int|
                0 <= i <= j < k && j < addresses@.len() ==> addresses@[i].address_in_this_object
                    <= addresses@[j].address_in_this_object,
        decreases addresses@.len() - k,
    {
        if addresses[k - 1].address_in_this_object > addresses[k].address_in_this_object {
            return false;
        }
        assert forall|i: int, j: int|
            0 <= i <= j < k + 1 && j < addresses@.len() implies addresses@[i].address_in_this_object
            <= addresses@[j].address_in_this_object by {
            if j == k && i < k {
                assert(addresses@[i].address_in_this_object
                    <= addresses@[k - 1].address_in_this_object);
            }
        }
        k += 1;
    }
    true
}

} // verus!
