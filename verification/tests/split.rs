use samply_core::macho::functions::{AddressPair, AddressWithOffset, FunctionsWithAddresses};
use samply_core::macho::matching::{MatchedFunctionWithAddresses, ObjectMapSymbol};
use samply_core::macho::object_file::ObjectMap;
use samply_core::macho::object_names::{find_paren, split_archive_name, ArchiveMemberName};
use samply_core::macho::references::ObjectReference;
use samply_core::macho::split::{
    collect_debug_info_and_object_references, group_by_file, group_by_object, keep_internal,
};
use std::collections::{BTreeSet, VecDeque};

fn symbol(name: &str, address: u64, size: u64, object_index: usize) -> ObjectMapSymbol {
    ObjectMapSymbol { name: name.as_bytes().to_vec(), address, size, object_index }
}

fn pair(original_address: u32, address_in_this_object: u64) -> AddressPair {
    AddressPair { original_address, address_in_this_object }
}

fn at(original_address: u32, offset_from_function_start: u32) -> AddressWithOffset {
    AddressWithOffset { original_address, offset_from_function_start }
}

fn functions(entries: &[(&str, Vec<AddressWithOffset>)]) -> FunctionsWithAddresses {
    let mut functions = FunctionsWithAddresses::new();
    for (name, addresses) in entries {
        functions.insert(name.as_bytes(), addresses.clone());
    }
    functions
}

/// Takes what stands under each of `names` out of `functions`, and checks
/// that nothing is left under `absent`.
fn take(functions: &mut FunctionsWithAddresses, names: &[&str]) -> Vec<Option<Vec<AddressWithOffset>>> {
    names.iter().map(|name| functions.get_and_remove_addresses_for_function(name)).collect()
}

/// The original addresses that a reference asks for, for the functions `names`.
fn originals(reference: &mut ObjectReference, names: &[&str]) -> Vec<u32> {
    let mut found = Vec::new();
    match reference {
        ObjectReference::Regular { functions, .. } => {
            for list in take(functions, names).into_iter().flatten() {
                found.extend(list.iter().map(|a| a.original_address));
            }
        }
        ObjectReference::Archive { archive_info, .. } => {
            for (_member, functions) in archive_info.iter_mut() {
                for list in take(functions, names).into_iter().flatten() {
                    found.extend(list.iter().map(|a| a.original_address));
                }
            }
        }
    }
    found
}

#[test]
fn archive_member_and_object_file_get_separate_references() {
    let object_map = ObjectMap {
        symbols: vec![symbol("_bar", 0x1000, 0x100, 0), symbol("_baz", 0x2000, 0x100, 1)],
        objects: vec![b"libfoo.a(bar.o)".to_vec(), b"baz.o".to_vec()],
    };
    let addresses = [pair(0x11, 0x1010), pair(0x22, 0x1020), pair(0x33, 0x2004)];
    let mut queue = VecDeque::new();
    let internal = collect_debug_info_and_object_references(object_map, &addresses, &mut queue);
    assert_eq!(internal, vec![]);
    assert_eq!(queue.len(), 2);
    match queue.pop_front().unwrap() {
        ObjectReference::Archive { path, mut archive_info } => {
            assert_eq!(path, b"libfoo.a".to_vec());
            assert_eq!(archive_info.len(), 1);
            assert_eq!(archive_info[0].0, b"bar.o".to_vec());
            assert_eq!(
                archive_info[0].1.get_and_remove_addresses_for_function("_bar"),
                Some(vec![at(0x11, 0x10), at(0x22, 0x20)])
            );
            assert_eq!(archive_info[0].1.get_and_remove_addresses_for_function("_baz"), None);
        }
        other => panic!("unexpected reference: {:?}", other),
    }
    match queue.pop_front().unwrap() {
        ObjectReference::Regular { path, mut functions } => {
            assert_eq!(path, b"baz.o".to_vec());
            assert_eq!(
                functions.get_and_remove_addresses_for_function("_baz"),
                Some(vec![at(0x33, 4)])
            );
            assert_eq!(functions.get_and_remove_addresses_for_function("_bar"), None);
        }
        other => panic!("unexpected reference: {:?}", other),
    }
}

#[test]
fn every_address_goes_to_exactly_one_side() {
    let object_map = ObjectMap {
        // Not in the order of their addresses: the split sorts them.
        symbols: vec![
            symbol("_c", 0x3000, 0x100, 2),
            symbol("_a", 0x1000, 0x100, 0),
            symbol("_d", 0x4000, 0x100, 0),
            symbol("_b", 0x2000, 0x100, 1),
        ],
        objects: vec![b"/o/lib.a(a.o)".to_vec(), b"/o/lib.a(b.o)".to_vec(), b"/o/c.o".to_vec()],
    };
    let addresses: Vec<AddressPair> =
        (0..0x50u32).map(|i| pair(i, 0xf80 + 0x100 * i as u64 / 2)).collect();
    let mut queue = VecDeque::new();
    queue.push_back(ObjectReference::Regular {
        path: b"already/there.o".to_vec(),
        functions: functions(&[]),
    });
    let internal = collect_debug_info_and_object_references(object_map, &addresses, &mut queue);
    // What was in the queue stays at its front.
    assert_eq!(queue.len(), 3);
    assert_eq!(queue[0].path(), b"already/there.o");
    assert_eq!(queue[1].path(), b"/o/lib.a");
    assert_eq!(queue[2].path(), b"/o/c.o");
    let mut seen: Vec<u32> = internal.iter().map(|p| p.original_address).collect();
    let internal_count = seen.len();
    for reference in queue.iter_mut().skip(1) {
        seen.extend(originals(reference, &["_a", "_b", "_c", "_d"]));
    }
    assert!(internal_count > 0 && seen.len() > internal_count);
    seen.sort();
    assert_eq!(seen, (0..0x50u32).collect::<Vec<u32>>());
    // The addresses that stay are in the order in which they came.
    assert!(internal.windows(2).all(|w| w[0].address_in_this_object <= w[1].address_in_this_object));
}

#[test]
fn addresses_between_functions_stay_with_the_object() {
    let object_map = ObjectMap {
        symbols: vec![symbol("_f", 0x100, 0x10, 0)],
        objects: vec![b"f.o".to_vec()],
    };
    let addresses = [pair(1, 0xff), pair(2, 0x100), pair(3, 0x10f), pair(4, 0x110)];
    let mut queue = VecDeque::new();
    let internal = collect_debug_info_and_object_references(object_map, &addresses, &mut queue);
    assert_eq!(internal, vec![pair(1, 0xff), pair(4, 0x110)]);
    assert_eq!(queue.len(), 1);
    assert_eq!(originals(&mut queue[0], &["_f"]), vec![2, 3]);
}

#[test]
fn object_without_object_map_keeps_all_addresses() {
    let object_map = ObjectMap { symbols: vec![], objects: vec![] };
    let addresses = [pair(1, 0x10), pair(2, 0x20)];
    let mut queue = VecDeque::new();
    let internal = collect_debug_info_and_object_references(object_map, &addresses, &mut queue);
    assert_eq!(internal, addresses.to_vec());
    assert!(queue.is_empty());
    let object_map = ObjectMap {
        symbols: vec![symbol("_f", 0x100, 0x10, 0)],
        objects: vec![b"f.o".to_vec()],
    };
    assert_eq!(collect_debug_info_and_object_references(object_map, &[], &mut queue), vec![]);
    assert!(queue.is_empty());
}

#[test]
fn members_of_one_archive_share_a_reference() {
    let object_map = ObjectMap {
        symbols: vec![
            symbol("_a", 0x100, 0x10, 0),
            symbol("_x", 0x200, 0x10, 1),
            symbol("_b", 0x300, 0x10, 2),
            symbol("_a2", 0x400, 0x10, 0),
        ],
        objects: vec![b"lib.a(a.o)".to_vec(), b"x.o".to_vec(), b"lib.a(b.o)".to_vec()],
    };
    let addresses = [pair(1, 0x100), pair(2, 0x200), pair(3, 0x300), pair(4, 0x400)];
    let mut queue = VecDeque::new();
    let internal = collect_debug_info_and_object_references(object_map, &addresses, &mut queue);
    assert_eq!(internal, vec![]);
    assert_eq!(queue.len(), 2);
    match &mut queue[0] {
        ObjectReference::Archive { path, archive_info } => {
            assert_eq!(path, b"lib.a");
            let members: Vec<&[u8]> = archive_info.iter().map(|m| m.0.as_slice()).collect();
            assert_eq!(members, vec![b"a.o".as_slice(), b"b.o".as_slice()]);
            assert_eq!(
                take(&mut archive_info[0].1, &["_a", "_a2", "_b"]),
                vec![Some(vec![at(1, 0)]), Some(vec![at(4, 0)]), None]
            );
            assert_eq!(
                take(&mut archive_info[1].1, &["_a", "_a2", "_b"]),
                vec![None, None, Some(vec![at(3, 0)])]
            );
        }
        other => panic!("unexpected reference: {:?}", other),
    }
    assert_eq!(queue[1].path(), b"x.o");
}

#[test]
fn grouping_by_object_keeps_the_order_of_first_occurrence() {
    let records = vec![
        MatchedFunctionWithAddresses { object_index: 5, fun_name: b"a".to_vec(), addresses: vec![at(1, 1)] },
        MatchedFunctionWithAddresses { object_index: 2, fun_name: b"b".to_vec(), addresses: vec![at(2, 2)] },
        MatchedFunctionWithAddresses { object_index: 5, fun_name: b"c".to_vec(), addresses: vec![at(3, 3), at(4, 4)] },
        // The same function of the same object again: the later addresses
        // go behind the earlier.
        MatchedFunctionWithAddresses { object_index: 2, fun_name: b"b".to_vec(), addresses: vec![at(5, 5)] },
    ];
    let (mut groups, found) = group_by_object(records);
    assert_eq!(found, BTreeSet::from([1, 2, 3, 4, 5]));
    assert_eq!(groups.iter().map(|g| g.0).collect::<Vec<usize>>(), vec![5, 2]);
    assert_eq!(
        take(&mut groups[0].1, &["a", "b", "c"]),
        vec![Some(vec![at(1, 1)]), None, Some(vec![at(3, 3), at(4, 4)])]
    );
    assert_eq!(
        take(&mut groups[1].1, &["a", "b", "c"]),
        vec![None, Some(vec![at(2, 2), at(5, 5)]), None]
    );
    let (groups, found) = group_by_object(vec![]);
    assert!(groups.is_empty() && found.is_empty());
}

#[test]
fn grouping_by_file_tells_archives_from_object_files() {
    let objects = vec![
        b"/a/lib.a(one.o)".to_vec(),
        b"/a/plain.o".to_vec(),
        b"/a/lib.a(two.o)".to_vec(),
        b"/b/other.a(one.o)".to_vec(),
    ];
    let groups = vec![
        (1, functions(&[("p", vec![at(1, 0)])])),
        (3, functions(&[("q", vec![at(2, 0)])])),
        (0, functions(&[("r", vec![at(3, 0)])])),
        (2, functions(&[("s", vec![at(4, 0)])])),
    ];
    let (archives, regular) = group_by_file(groups, &objects);
    assert_eq!(regular.len(), 1);
    assert_eq!(regular[0].0, b"/a/plain.o".to_vec());
    let listed: Vec<(Vec<u8>, Vec<Vec<u8>>)> = archives
        .iter()
        .map(|a| (a.0.clone(), a.1.iter().map(|m| m.0.clone()).collect()))
        .collect();
    assert_eq!(
        listed,
        vec![
            (b"/b/other.a".to_vec(), vec![b"one.o".to_vec()]),
            (b"/a/lib.a".to_vec(), vec![b"one.o".to_vec(), b"two.o".to_vec()]),
        ]
    );
}

#[test]
fn internal_addresses_are_those_not_found() {
    let addresses = [pair(1, 10), pair(2, 20), pair(3, 30), pair(2, 40)];
    assert_eq!(keep_internal(&addresses, &BTreeSet::from([2])), vec![pair(1, 10), pair(3, 30)]);
    assert_eq!(keep_internal(&addresses, &BTreeSet::new()), addresses.to_vec());
    assert_eq!(keep_internal(&addresses, &BTreeSet::from([1, 2, 3])), vec![]);
    assert_eq!(keep_internal(&[], &BTreeSet::from([1])), vec![]);
}

fn parts(path: &str, name_in_archive: &str) -> Option<ArchiveMemberName> {
    Some(ArchiveMemberName {
        path: path.as_bytes().to_vec(),
        name_in_archive: name_in_archive.as_bytes().to_vec(),
    })
}

#[test]
fn archive_member_names_are_taken_apart_at_the_first_parenthesis() {
    assert_eq!(
        split_archive_name(
            b"/Users/me/obj/toolkit/library/build/../../../js/src/build/libjs_static.a(Unified_cpp_js_src13.o)"
        ),
        parts(
            "/Users/me/obj/toolkit/library/build/../../../js/src/build/libjs_static.a",
            "Unified_cpp_js_src13.o"
        )
    );
    assert_eq!(split_archive_name(b"libfoo.a(bar.o)"), parts("libfoo.a", "bar.o"));
    assert_eq!(split_archive_name(b"/o/components/sessionstore/Unified_cpp_sessionstore0.o"), None);
    assert_eq!(split_archive_name(b""), None);
    assert_eq!(split_archive_name(b"bar.o)"), None);
    // All parentheses around the member's name go.
    assert_eq!(split_archive_name(b"lib.a((x.o))"), parts("lib.a", "x.o"));
    assert_eq!(split_archive_name(b"lib.a(x.o"), parts("lib.a", "x.o"));
    assert_eq!(split_archive_name(b"lib.a(a(b).o)"), parts("lib.a", "a(b).o"));
    assert_eq!(split_archive_name(b"lib.a()"), parts("lib.a", ""));
    assert_eq!(split_archive_name(b"lib.a("), parts("lib.a", ""));
    assert_eq!(split_archive_name(b"(x.o)"), parts("", "x.o"));
    assert_eq!(split_archive_name(b"lib.a(()"), parts("lib.a", ""));
    assert_eq!(find_paren(b"ab(c(d"), Some(2));
    assert_eq!(find_paren(b"abc)"), None);
}

#[test]
fn object_map_with_a_stray_index_is_recognised() {
    let complete = ObjectMap {
        symbols: vec![symbol("a", 0, 1, 0), symbol("b", 1, 1, 1)],
        objects: vec![b"a.o".to_vec(), b"b.o".to_vec()],
    };
    assert!(complete.has_its_objects());
    let stray = ObjectMap {
        symbols: vec![symbol("a", 0, 1, 0), symbol("b", 1, 1, 2)],
        objects: vec![b"a.o".to_vec(), b"b.o".to_vec()],
    };
    assert!(!stray.has_its_objects());
    assert!(ObjectMap { symbols: vec![], objects: vec![] }.has_its_objects());
}

#[test]
fn two_functions_of_one_name_lose_no_address() {
    let object_map = ObjectMap {
        symbols: vec![symbol("f", 0x100, 0x10, 0), symbol("f", 0x110, 0x10, 0)],
        objects: vec![b"f.o".to_vec()],
    };
    let addresses = [pair(1, 0x108), pair(2, 0x118), pair(3, 0x120)];
    let mut queue = VecDeque::new();
    let internal = collect_debug_info_and_object_references(object_map, &addresses, &mut queue);
    assert_eq!(internal, vec![pair(3, 0x120)]);
    assert_eq!(queue.len(), 1);
    match queue.pop_front().unwrap() {
        ObjectReference::Regular { path, mut functions } => {
            assert_eq!(path, b"f.o".to_vec());
            assert_eq!(
                functions.get_and_remove_addresses_for_function("f"),
                Some(vec![at(1, 8), at(2, 8)])
            );
        }
        other => panic!("unexpected reference: {:?}", other),
    }
}

#[test]
fn two_objects_that_name_one_file_lose_no_address() {
    let object_map = ObjectMap {
        symbols: vec![
            symbol("a", 0x100, 0x10, 0),
            symbol("b", 0x200, 0x10, 1),
            symbol("a", 0x300, 0x10, 2),
            symbol("m", 0x400, 0x10, 3),
            symbol("m", 0x500, 0x10, 4),
            symbol("n", 0x600, 0x10, 4),
        ],
        objects: vec![
            b"same.o".to_vec(),
            b"other.o".to_vec(),
            b"same.o".to_vec(),
            b"lib.a(x.o)".to_vec(),
            b"lib.a((x.o))".to_vec(),
        ],
    };
    let addresses = [
        pair(1, 0x100),
        pair(2, 0x200),
        pair(3, 0x301),
        pair(4, 0x402),
        pair(5, 0x503),
        pair(6, 0x604),
    ];
    let mut queue = VecDeque::new();
    let internal = collect_debug_info_and_object_references(object_map, &addresses, &mut queue);
    assert_eq!(internal, vec![]);
    assert_eq!(queue.len(), 3);
    match &mut queue[0] {
        ObjectReference::Archive { path, archive_info } => {
            assert_eq!(path, b"lib.a");
            assert_eq!(archive_info.len(), 1);
            assert_eq!(archive_info[0].0, b"x.o".to_vec());
            assert_eq!(
                take(&mut archive_info[0].1, &["m", "n"]),
                vec![Some(vec![at(4, 2), at(5, 3)]), Some(vec![at(6, 4)])]
            );
        }
        other => panic!("unexpected reference: {:?}", other),
    }
    assert_eq!(queue[1].path(), b"same.o");
    assert_eq!(originals(&mut queue[1], &["a", "b"]), vec![1, 3]);
    assert_eq!(queue[2].path(), b"other.o");
    assert_eq!(originals(&mut queue[2], &["a", "b"]), vec![2]);
}

#[test]
fn functions_are_merged_name_by_name() {
    let mut first = functions(&[("f", vec![at(1, 1)]), ("g", vec![at(2, 2)])]);
    first.add(b"f", vec![at(3, 3), at(4, 4)]);
    first.add(b"h", vec![at(5, 5)]);
    first.add(b"g", vec![]);
    let second = functions(&[("h", vec![at(6, 6)]), ("i", vec![at(7, 7)]), ("f", vec![at(8, 8)])]);
    first.absorb(second);
    first.absorb(FunctionsWithAddresses::new());
    assert_eq!(
        take(&mut first, &["f", "g", "h", "i", "j"]),
        vec![
            Some(vec![at(1, 1), at(3, 3), at(4, 4), at(8, 8)]),
            Some(vec![at(2, 2)]),
            Some(vec![at(5, 5), at(6, 6)]),
            Some(vec![at(7, 7)]),
            None,
        ]
    );
}
