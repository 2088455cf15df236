use samply_core::macho::functions::{AddressPair, AddressWithOffset, FunctionsWithAddresses};
use samply_core::macho::matching::{
    match_funs_to_addresses, pairs_are_sorted, MatchedFunctionWithAddresses, ObjectMapSymbol,
};
use samply_core::macho::sorting::sort_by_address;

fn symbol(name: &str, address: u64, size: u64, object_index: usize) -> ObjectMapSymbol {
    ObjectMapSymbol { name: name.as_bytes().to_vec(), address, size, object_index }
}

fn pair(original_address: u32, address_in_this_object: u64) -> AddressPair {
    AddressPair { original_address, address_in_this_object }
}

fn at(original_address: u32, offset_from_function_start: u32) -> AddressWithOffset {
    AddressWithOffset { original_address, offset_from_function_start }
}

fn matched(object_index: usize, name: &str, addresses: Vec<AddressWithOffset>) -> MatchedFunctionWithAddresses {
    MatchedFunctionWithAddresses { object_index, fun_name: name.as_bytes().to_vec(), addresses }
}

/// What a binary search for one address finds: the last function that
/// starts at or before the address, if the address lies before its end.
fn bisect(symbols: &[ObjectMapSymbol], address: u64) -> Option<(usize, u64)> {
    let index = symbols.partition_point(|s| s.address <= address);
    let symbol = symbols.get(index.checked_sub(1)?)?;
    if address - symbol.address < symbol.size {
        Some((index - 1, address - symbol.address))
    } else {
        None
    }
}

#[test]
fn addresses_are_assigned_to_the_functions_that_contain_them() {
    let symbols = vec![
        symbol("first", 0x100, 0x20, 0),
        symbol("second", 0x120, 0x10, 1),
        symbol("third", 0x200, 0x40, 0),
    ];
    let addresses = vec![
        pair(1, 0x0ff),
        pair(2, 0x100),
        pair(3, 0x11f),
        pair(4, 0x120),
        pair(5, 0x12f),
        pair(6, 0x130),
        pair(7, 0x1ff),
        pair(8, 0x23f),
        pair(9, 0x240),
    ];
    assert_eq!(
        match_funs_to_addresses(&symbols, &addresses),
        vec![
            matched(0, "first", vec![at(2, 0), at(3, 0x1f)]),
            matched(1, "second", vec![at(4, 0), at(5, 0xf)]),
            matched(0, "third", vec![at(8, 0x3f)]),
        ]
    );
}

#[test]
fn address_on_a_boundary_belongs_to_the_function_that_starts_there() {
    let symbols = vec![symbol("a", 0x10, 0x10, 0), symbol("b", 0x20, 0x10, 0)];
    assert_eq!(
        match_funs_to_addresses(&symbols, &[pair(7, 0x20)]),
        vec![matched(0, "b", vec![at(7, 0)])]
    );
    assert_eq!(
        match_funs_to_addresses(&symbols, &[pair(7, 0x1f)]),
        vec![matched(0, "a", vec![at(7, 0xf)])]
    );
    assert_eq!(match_funs_to_addresses(&symbols, &[pair(7, 0x30)]), vec![]);
    assert_eq!(match_funs_to_addresses(&symbols, &[pair(7, 0x0f)]), vec![]);
}

#[test]
fn nothing_to_match_gives_no_records() {
    let symbols = vec![symbol("a", 0x10, 0x10, 0)];
    assert_eq!(match_funs_to_addresses(&symbols, &[]), vec![]);
    assert_eq!(match_funs_to_addresses(&[], &[pair(1, 0x10)]), vec![]);
    assert_eq!(match_funs_to_addresses(&[], &[]), vec![]);
    // A function without size contains nothing.
    assert_eq!(match_funs_to_addresses(&[symbol("z", 0x10, 0, 0)], &[pair(1, 0x10)]), vec![]);
}

#[test]
fn addresses_of_one_function_share_a_record() {
    let symbols = vec![symbol("only", 0, 0x1000, 3)];
    let addresses: Vec<AddressPair> =
        (0..5).map(|i| pair(100 + i, 0x10 * i as u64)).collect();
    assert_eq!(
        match_funs_to_addresses(&symbols, &addresses),
        vec![matched(3, "only", vec![at(100, 0), at(101, 0x10), at(102, 0x20), at(103, 0x30), at(104, 0x40)])]
    );
    // The same address twice stays twice.
    assert_eq!(
        match_funs_to_addresses(&symbols, &[pair(1, 8), pair(2, 8)]),
        vec![matched(3, "only", vec![at(1, 8), at(2, 8)])]
    );
}

#[test]
fn functions_at_the_top_of_the_address_space_are_matched() {
    let symbols = vec![symbol("top", u64::MAX - 0xf, 0x10, 0)];
    assert_eq!(
        match_funs_to_addresses(&symbols, &[pair(1, u64::MAX - 0x10), pair(2, u64::MAX)]),
        vec![matched(0, "top", vec![at(2, 0xf)])]
    );
    // An offset of more than 32 bits keeps its low 32 bits.
    let wide = vec![symbol("wide", 0, 0x2_0000_0000, 0)];
    assert_eq!(
        match_funs_to_addresses(&wide, &[pair(1, 0x1_0000_0005)]),
        vec![matched(0, "wide", vec![at(1, 5)])]
    );
}

#[test]
fn single_pass_agrees_with_a_binary_search_for_each_address() {
    let symbols = vec![
        symbol("f0", 0x1000, 0x40, 0),
        symbol("f1", 0x1040, 0x10, 1),
        symbol("f2", 0x1080, 0x100, 1),
        symbol("f3", 0x1180, 0, 2),
        symbol("f4", 0x1180, 0x8, 2),
        symbol("f5", 0x3000, 0x1000, 0),
    ];
    let addresses: Vec<AddressPair> = (0..0x400u32)
        .map(|i| pair(i, 0xfe0 + 0x0b * i as u64))
        .collect();
    let records = match_funs_to_addresses(&symbols, &addresses);
    let mut from_single_pass = Vec::new();
    for record in &records {
        for found in &record.addresses {
            from_single_pass.push((
                record.object_index,
                record.fun_name.clone(),
                found.original_address,
                found.offset_from_function_start,
            ));
        }
    }
    let mut from_search = Vec::new();
    for address in &addresses {
        if let Some((index, offset)) = bisect(&symbols, address.address_in_this_object) {
            from_search.push((
                symbols[index].object_index,
                symbols[index].name.clone(),
                address.original_address,
                offset as u32,
            ));
        }
    }
    assert!(!from_search.is_empty());
    assert_eq!(from_single_pass, from_search);
    // No function has two records.
    let names: Vec<&Vec<u8>> = records.iter().map(|r| &r.fun_name).collect();
    let mut unique = names.clone();
    unique.dedup();
    assert_eq!(names, unique);
}

#[test]
fn sorting_by_address_keeps_the_order_of_equal_addresses() {
    let mut pairs = vec![pair(1, 30), pair(2, 10), pair(3, 30), pair(4, 20), pair(5, 10), pair(6, 0)];
    sort_by_address(&mut pairs);
    assert_eq!(
        pairs,
        vec![pair(6, 0), pair(2, 10), pair(5, 10), pair(4, 20), pair(1, 30), pair(3, 30)]
    );
    let mut sorted = vec![pair(1, 1), pair(2, 2), pair(3, 2), pair(4, 9)];
    sort_by_address(&mut sorted);
    assert_eq!(sorted, vec![pair(1, 1), pair(2, 2), pair(3, 2), pair(4, 9)]);
    let mut empty: Vec<AddressPair> = Vec::new();
    sort_by_address(&mut empty);
    assert_eq!(empty, vec![]);
    let mut symbols = vec![symbol("b", 2, 1, 0), symbol("a", 1, 1, 0), symbol("c", 2, 5, 1)];
    sort_by_address(&mut symbols);
    assert_eq!(symbols, vec![symbol("a", 1, 1, 0), symbol("b", 2, 1, 0), symbol("c", 2, 5, 1)]);
}

#[test]
fn functions_with_addresses_files_by_name() {
    let mut functions = FunctionsWithAddresses::new();
    assert_eq!(functions.get_and_remove_addresses_for_function("f"), None);
    functions.insert(b"f", vec![at(1, 2)]);
    functions.insert(b"g", vec![at(3, 4), at(5, 6)]);
    functions.insert(b"", vec![]);
    // A later insert under the same name takes the place of the earlier.
    functions.insert(b"f", vec![at(7, 8)]);
    assert_eq!(functions.get_and_remove_addresses_for_function("g"), Some(vec![at(3, 4), at(5, 6)]));
    assert_eq!(functions.get_and_remove_addresses_for_function("g"), None);
    assert_eq!(functions.get_and_remove_addresses_for_function("f"), Some(vec![at(7, 8)]));
    assert_eq!(functions.get_and_remove_addresses_for_function("f"), None);
    assert_eq!(functions.get_and_remove_addresses_for_function(""), Some(vec![]));
    assert_eq!(functions.get_and_remove_addresses_for_function("h"), None);
    // Names are compared byte by byte.
    functions.insert("é".as_bytes(), vec![at(9, 9)]);
    assert_eq!(functions.get_and_remove_addresses_for_function("e"), None);
    assert_eq!(functions.get_and_remove_addresses_for_function("é"), Some(vec![at(9, 9)]));
}

#[test]
fn sortedness_of_address_pairs_is_recognised() {
    assert!(pairs_are_sorted(&[]));
    assert!(pairs_are_sorted(&[pair(9, 1)]));
    assert!(pairs_are_sorted(&[pair(9, 1), pair(8, 1), pair(7, 2)]));
    assert!(!pairs_are_sorted(&[pair(1, 2), pair(2, 1)]));
    assert!(!pairs_are_sorted(&[pair(1, 1), pair(2, 3), pair(3, 2), pair(4, 4)]));
}
