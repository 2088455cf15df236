use samply_core::address_order::is_sorted;
use samply_core::error::GetSymbolsError;
use samply_core::macho::functions::{AddressPair, AddressWithOffset, FunctionsWithAddresses};
use samply_core::macho::object_file::{ArchiveMember, Segment, Symbol};
use samply_core::macho::references::{find_member, pick_archive_members, ObjectReference};
use samply_core::macho::symbolication::{
    collect_from_objects, get_symbolication_result, make_address_pairs_for_root_object,
    next_reference, translate_addresses_to_object,
    traverse_object_references_and_collect_debug_info, vmaddr_of_text_segment, DebugInfoJob,
};
use std::collections::VecDeque;

/// A Mach-O file to write out for a test.
struct MachO {
    is_64: bool,
    big_endian: bool,
    uuid: Option<[u8; 16]>,
    /// Name and load address of each segment.
    segments: Vec<(&'static str, u64)>,
    /// Name, type byte and value of each entry of the symbol table.
    symbols: Vec<(&'static str, u8, u64)>,
}

const N_FUN: u8 = 0x24;
const N_SO: u8 = 0x64;
const N_OSO: u8 = 0x66;
const N_SECT_EXT: u8 = 0x0f;

impl MachO {
    fn new_64() -> MachO {
        MachO { is_64: true, big_endian: false, uuid: None, segments: vec![], symbols: vec![] }
    }

    fn u32(&self, out: &mut Vec<u8>, value: u32) {
        if self.big_endian {
            out.extend_from_slice(&value.to_be_bytes());
        } else {
            out.extend_from_slice(&value.to_le_bytes());
        }
    }

    fn word(&self, out: &mut Vec<u8>, value: u64) {
        if self.is_64 {
            if self.big_endian {
                out.extend_from_slice(&value.to_be_bytes());
            } else {
                out.extend_from_slice(&value.to_le_bytes());
            }
        } else {
            self.u32(out, value as u32);
        }
    }

    fn build(&self) -> Vec<u8> {
        let header_size = if self.is_64 { 32 } else { 28 };
        let segment_size = if self.is_64 { 72 } else { 56 };
        let nlist_size = if self.is_64 { 16 } else { 12 };
        let mut ncmds = self.segments.len() as u32;
        let mut sizeofcmds = segment_size * self.segments.len() as u32;
        if self.uuid.is_some() {
            ncmds += 1;
            sizeofcmds += 24;
        }
        if !self.symbols.is_empty() {
            ncmds += 1;
            sizeofcmds += 24;
        }
        let mut out = Vec::new();
        self.u32(&mut out, if self.is_64 { 0xfeed_facf } else { 0xfeed_face });
        self.u32(&mut out, if self.is_64 { 0x0100_0007 } else { 7 });
        self.u32(&mut out, 3);
        self.u32(&mut out, 1);
        self.u32(&mut out, ncmds);
        self.u32(&mut out, sizeofcmds);
        self.u32(&mut out, 0);
        if self.is_64 {
            self.u32(&mut out, 0);
        }
        if let Some(uuid) = self.uuid {
            self.u32(&mut out, 0x1b);
            self.u32(&mut out, 24);
            out.extend_from_slice(&uuid);
        }
        for (name, address) in &self.segments {
            self.u32(&mut out, if self.is_64 { 0x19 } else { 0x1 });
            self.u32(&mut out, segment_size);
            let mut segname = [0u8; 16];
            segname[..name.len()].copy_from_slice(name.as_bytes());
            out.extend_from_slice(&segname);
            self.word(&mut out, *address);
            self.word(&mut out, 0x1000);
            self.word(&mut out, 0);
            self.word(&mut out, 0);
            self.u32(&mut out, 7);
            self.u32(&mut out, 5);
            self.u32(&mut out, 0);
            self.u32(&mut out, 0);
        }
        if !self.symbols.is_empty() {
            let symoff = header_size + sizeofcmds;
            let stroff = symoff + nlist_size * self.symbols.len() as u32;
            let mut strings = vec![0u8];
            let mut entries = Vec::new();
            for (name, n_type, value) in &self.symbols {
                let strx = if name.is_empty() { 0 } else { strings.len() as u32 };
                if !name.is_empty() {
                    strings.extend_from_slice(name.as_bytes());
                    strings.push(0);
                }
                self.u32(&mut entries, strx);
                entries.push(*n_type);
                entries.push(if *n_type == N_SECT_EXT { 1 } else { 0 });
                entries.extend_from_slice(&[0, 0]);
                self.word(&mut entries, *value);
            }
            self.u32(&mut out, 0x2);
            self.u32(&mut out, 24);
            self.u32(&mut out, symoff);
            self.u32(&mut out, self.symbols.len() as u32);
            self.u32(&mut out, stroff);
            self.u32(&mut out, strings.len() as u32);
            assert_eq!(out.len() as u32, symoff);
            out.extend_from_slice(&entries);
            out.extend_from_slice(&strings);
        }
        // Files that are told apart by their first bytes need sixteen of them.
        while out.len() < 64 {
            out.push(0);
        }
        out
    }
}

fn pair(original_address: u32, address_in_this_object: u64) -> AddressPair {
    AddressPair { original_address, address_in_this_object }
}

fn at(original_address: u32, offset_from_function_start: u32) -> AddressWithOffset {
    AddressWithOffset { original_address, offset_from_function_start }
}

fn functions(entries: &[(&str, Vec<AddressWithOffset>)]) -> FunctionsWithAddresses {
    let mut functions = FunctionsWithAddresses::new();
    for (name, addresses) in entries {
        functions.insert(name.as_bytes(), addresses.clone());
    }
    functions
}

fn segment(name: Option<&str>, address: u64) -> Segment {
    Segment { name: name.map(str::to_string), address }
}

fn symbol(name: Option<&str>, address: u64) -> Symbol {
    Symbol { name: name.map(str::to_string), address }
}

/// A static archive with the given members.
fn archive(members: &[(&str, Vec<u8>)]) -> Vec<u8> {
    let mut out = b"!<arch>\n".to_vec();
    for (name, data) in members {
        let header = format!(
            "{:<16}{:<12}{:<6}{:<6}{:<8}{:<10}`\n",
            format!("{}/", name),
            0,
            0,
            0,
            644,
            data.len()
        );
        assert_eq!(header.len(), 60);
        out.extend_from_slice(header.as_bytes());
        out.extend_from_slice(data);
        if data.len() % 2 == 1 {
            out.push(b'\n');
        }
    }
    out
}

const UUID: [u8; 16] = [0xaa; 16];
const BUILD_ID: &str = "AAAAAAAAAAAAAAAAAAAAAAAAAAAAAAAA0";

/// An executable whose object map refers to a member of an archive and to
/// an object file.
fn executable() -> Vec<u8> {
    MachO {
        uuid: Some(UUID),
        segments: vec![("__PAGEZERO", 0), ("__TEXT", 0x1_0000_0000), ("__DATA", 0x1_0000_8000)],
        symbols: vec![
            ("_main", N_SECT_EXT, 0x1_0000_0f00),
            ("/build/", N_SO, 0),
            ("/build/libfoo.a(bar.o)", N_OSO, 0),
            ("_bar_fn", N_FUN, 0x1_0000_1000),
            ("", N_FUN, 0x100),
            ("", N_SO, 0),
            ("/build/", N_SO, 0),
            ("/build/baz.o", N_OSO, 0),
            ("_baz_fn", N_FUN, 0x1_0000_2000),
            ("", N_FUN, 0x80),
            ("", N_SO, 0),
        ],
        ..MachO::new_64()
    }
    .build()
}

/// An object file with the given functions, and no object map of its own.
fn object_file(symbols: Vec<(&'static str, u8, u64)>) -> Vec<u8> {
    MachO { segments: vec![("", 0)], symbols, ..MachO::new_64() }.build()
}

#[test]
fn root_pairs_are_moved_up_by_the_text_segment() {
    let segments =
        [segment(Some("__PAGEZERO"), 0), segment(Some("__TEXT"), 0x1_0000_0000), segment(None, 7)];
    assert_eq!(
        make_address_pairs_for_root_object(&[0x1000, 0x2000], &segments),
        Some(vec![pair(0x1000, 0x1_0000_1000), pair(0x2000, 0x1_0000_2000)])
    );
    assert_eq!(make_address_pairs_for_root_object(&[], &segments), Some(vec![]));
}

#[test]
fn text_segment_address_is_zero_without_a_text_segment() {
    assert_eq!(vmaddr_of_text_segment(&[]), 0);
    assert_eq!(vmaddr_of_text_segment(&[segment(Some("__DATA"), 0x4000), segment(None, 0x5000)]), 0);
    assert_eq!(vmaddr_of_text_segment(&[segment(Some("__text"), 0x4000)]), 0);
    assert_eq!(vmaddr_of_text_segment(&[segment(Some("__TEXT_EXEC"), 0x4000)]), 0);
    // The first segment of that name counts.
    assert_eq!(
        vmaddr_of_text_segment(&[
            segment(Some("__DATA"), 1),
            segment(Some("__TEXT"), 0x4000),
            segment(Some("__TEXT"), 0x8000),
        ]),
        0x4000
    );
    assert_eq!(
        make_address_pairs_for_root_object(&[0x10, 0x20], &[segment(Some("__LINKEDIT"), 0x9000)]),
        Some(vec![pair(0x10, 0x10), pair(0x20, 0x20)])
    );
}

#[test]
fn root_pairs_that_leave_the_address_space_are_refused() {
    let high = [segment(Some("__TEXT"), u64::MAX - 0x10)];
    assert_eq!(
        make_address_pairs_for_root_object(&[0x10], &high),
        Some(vec![pair(0x10, u64::MAX)])
    );
    assert_eq!(make_address_pairs_for_root_object(&[0x10, 0x11], &high), None);
    assert_eq!(make_address_pairs_for_root_object(&[u32::MAX], &high), None);
}

#[test]
fn translation_looks_functions_up_by_name() {
    let symbols = [
        symbol(Some("_other"), 0x10),
        symbol(Some("_b"), 0x2000),
        symbol(None, 0x3000),
        symbol(Some("_a"), 0x1000),
        // A second symbol of the same name finds nothing left.
        symbol(Some("_b"), 0x9000),
    ];
    let wanted = functions(&[
        ("_a", vec![at(1, 0x10), at(2, 0x30)]),
        ("_b", vec![at(3, 0x04)]),
        ("_missing", vec![at(4, 0)]),
    ]);
    assert_eq!(
        translate_addresses_to_object(&symbols, wanted),
        Some(vec![pair(1, 0x1010), pair(2, 0x1030), pair(3, 0x2004)])
    );
    assert_eq!(translate_addresses_to_object(&symbols, functions(&[])), Some(vec![]));
    assert_eq!(translate_addresses_to_object(&[], functions(&[("_a", vec![at(1, 0)])])), Some(vec![]));
}

#[test]
fn translation_sorts_by_the_address_inside_the_object() {
    let symbols = [symbol(Some("_late"), 0x5000), symbol(Some("_early"), 0x1000)];
    let wanted = functions(&[
        ("_early", vec![at(10, 0x20), at(11, 0x10)]),
        ("_late", vec![at(12, 0), at(13, 0)]),
    ]);
    assert_eq!(
        translate_addresses_to_object(&symbols, wanted),
        Some(vec![pair(11, 0x1010), pair(10, 0x1020), pair(12, 0x5000), pair(13, 0x5000)])
    );
}

#[test]
fn translation_that_leaves_the_address_space_is_refused() {
    let symbols = [symbol(Some("_top"), u64::MAX - 1)];
    assert_eq!(
        translate_addresses_to_object(&symbols, functions(&[("_top", vec![at(1, 1)])])),
        Some(vec![pair(1, u64::MAX)])
    );
    assert_eq!(
        translate_addresses_to_object(&symbols, functions(&[("_top", vec![at(1, 1), at(2, 2)])])),
        None
    );
    // What no symbol takes over does not count.
    assert_eq!(
        translate_addresses_to_object(&symbols, functions(&[("_else", vec![at(2, u32::MAX)])])),
        Some(vec![])
    );
}

#[test]
fn first_step_splits_the_addresses_of_the_query() {
    let file = executable();
    let mut queue = VecDeque::new();
    let outcome = get_symbolication_result(
        &file,
        None,
        BUILD_ID,
        &[0x0f00, 0x1010, 0x1020, 0x10ff, 0x1100, 0x2004, 0x5000],
        true,
        &mut queue,
    );
    // What no function of the object map contains stays with the binary,
    // at its address in the binary.
    assert_eq!(
        outcome,
        Some(Ok(vec![
            pair(0x0f00, 0x1_0000_0f00),
            pair(0x1100, 0x1_0000_1100),
            pair(0x5000, 0x1_0000_5000),
        ]))
    );
    assert_eq!(queue.len(), 2);
    match queue.pop_front().unwrap() {
        ObjectReference::Archive { path, mut archive_info } => {
            assert_eq!(path, b"/build/libfoo.a".to_vec());
            assert_eq!(archive_info.len(), 1);
            assert_eq!(archive_info[0].0, b"bar.o".to_vec());
            assert_eq!(
                archive_info[0].1.get_and_remove_addresses_for_function("_bar_fn"),
                Some(vec![at(0x1010, 0x10), at(0x1020, 0x20), at(0x10ff, 0xff)])
            );
        }
        other => panic!("unexpected reference: {:?}", other),
    }
    match queue.pop_front().unwrap() {
        ObjectReference::Regular { path, mut functions } => {
            assert_eq!(path, b"/build/baz.o".to_vec());
            assert_eq!(
                functions.get_and_remove_addresses_for_function("_baz_fn"),
                Some(vec![at(0x2004, 4)])
            );
        }
        other => panic!("unexpected reference: {:?}", other),
    }
}

#[test]
fn first_step_looks_at_the_given_range_only() {
    let mut file = vec![0xca, 0xfe, 0xba, 0xbe];
    file.resize(0x80, 0);
    let slice = executable();
    let range = (file.len() as u64, slice.len() as u64);
    file.extend_from_slice(&slice);
    file.extend_from_slice(&[0x55; 32]);
    let mut queue = VecDeque::new();
    let outcome =
        get_symbolication_result(&file, Some(range), BUILD_ID, &[0x2004, 0x5000], true, &mut queue);
    assert_eq!(outcome, Some(Ok(vec![pair(0x5000, 0x1_0000_5000)])));
    assert_eq!(queue.len(), 1);
    assert_eq!(queue[0].path(), b"/build/baz.o");
    // The whole file is a fat binary, which has no build id of its own.
    assert_eq!(get_symbolication_result(&file, None, BUILD_ID, &[0x2004], true, &mut queue), None);
    assert_eq!(queue.len(), 1);
}

#[test]
fn first_step_without_debug_info_touches_nothing_else() {
    let file = executable();
    let mut queue = VecDeque::new();
    let outcome =
        get_symbolication_result(&file, None, BUILD_ID, &[0x1010, 0x5000], false, &mut queue);
    assert_eq!(outcome, Some(Ok(vec![])));
    assert!(queue.is_empty());
}

#[test]
fn first_step_refuses_another_build_id() {
    let file = executable();
    let mut queue = VecDeque::new();
    let asked = "BBBBBBBBBBBBBBBBBBBBBBBBBBBBBBBB0";
    assert_eq!(
        get_symbolication_result(&file, None, asked, &[0x1010], true, &mut queue),
        Some(Err(GetSymbolsError::UnmatchedBuildId(BUILD_ID.to_string(), asked.to_string())))
    );
    assert!(queue.is_empty());
}

#[test]
fn first_step_reports_what_cannot_be_read() {
    let mut queue = VecDeque::new();
    let without_uuid = MachO { segments: vec![("__TEXT", 0)], ..MachO::new_64() }.build();
    assert_eq!(
        get_symbolication_result(&without_uuid, None, BUILD_ID, &[1], true, &mut queue),
        Some(Err(GetSymbolsError::InvalidInput("missing uuid")))
    );
    assert!(matches!(
        get_symbolication_result(&[0x11; 64], None, BUILD_ID, &[1], true, &mut queue),
        Some(Err(GetSymbolsError::MachOHeaderParseError(_)))
    ));
    let mut elf = vec![0x7f, b'E', b'L', b'F', 2, 1, 1, 0];
    elf.resize(64, 0);
    assert_eq!(get_symbolication_result(&elf, None, BUILD_ID, &[1], true, &mut queue), None);
    assert!(queue.is_empty());
}

#[test]
fn first_step_refuses_addresses_that_leave_the_address_space() {
    let file = MachO {
        uuid: Some(UUID),
        segments: vec![("__TEXT", u64::MAX - 0xfff)],
        ..MachO::new_64()
    }
    .build();
    let mut queue = VecDeque::new();
    assert_eq!(
        get_symbolication_result(&file, None, BUILD_ID, &[0xfff], true, &mut queue),
        Some(Ok(vec![pair(0xfff, u64::MAX)]))
    );
    assert_eq!(get_symbolication_result(&file, None, BUILD_ID, &[0x1000], true, &mut queue), None);
    assert!(queue.is_empty());
}

#[test]
fn traversal_step_looks_into_the_member_of_an_archive() {
    let member = object_file(vec![("_unrelated", N_SECT_EXT, 0), ("_bar_fn", N_SECT_EXT, 0x40)]);
    let file = archive(&[("first.o", object_file(vec![("_x", N_SECT_EXT, 0)])), ("bar.o", member.clone())]);
    let reference = ObjectReference::Archive {
        path: b"/build/libfoo.a".to_vec(),
        archive_info: vec![
            (b"gone.o".to_vec(), functions(&[("_gone", vec![at(9, 9)])])),
            (b"bar.o".to_vec(), functions(&[("_bar_fn", vec![at(0x1010, 0x10), at(0x1020, 0x20)])])),
        ],
    };
    let mut queue = VecDeque::new();
    let outcome =
        traverse_object_references_and_collect_debug_info(reference, Some(&file), &mut queue);
    let jobs = outcome.unwrap().unwrap();
    assert_eq!(jobs.len(), 1);
    assert_eq!(jobs[0].addresses, vec![pair(0x1010, 0x50), pair(0x1020, 0x60)]);
    let (start, size) = jobs[0].range;
    assert_eq!(&file[start as usize..(start + size) as usize], &member[..]);
    assert!(queue.is_empty());
}

#[test]
fn traversal_step_looks_at_a_whole_object_file() {
    let file = object_file(vec![("_baz_fn", N_SECT_EXT, 0x100), ("_main", N_SECT_EXT, 0)]);
    let reference = ObjectReference::Regular {
        path: b"/build/baz.o".to_vec(),
        functions: functions(&[("_baz_fn", vec![at(0x2004, 4)]), ("_absent", vec![at(1, 1)])]),
    };
    let mut queue = VecDeque::new();
    assert_eq!(
        traverse_object_references_and_collect_debug_info(reference, Some(&file), &mut queue),
        Some(Ok(vec![DebugInfoJob {
            range: (0, file.len() as u64),
            addresses: vec![pair(0x2004, 0x104)],
        }]))
    );
    assert!(queue.is_empty());
}

#[test]
fn traversal_step_follows_references_of_the_object() {
    // An object file that, like an executable, has an object map.
    let file = MachO {
        symbols: vec![
            ("_outer", N_SECT_EXT, 0x1000),
            ("/deep/inner.o", N_OSO, 0),
            ("_inner", N_FUN, 0x1010),
            ("", N_FUN, 0x10),
        ],
        ..MachO::new_64()
    }
    .build();
    let reference = ObjectReference::Regular {
        path: b"outer.o".to_vec(),
        functions: functions(&[("_outer", vec![at(1, 0x8), at(2, 0x18), at(3, 0x28)])]),
    };
    let mut queue = VecDeque::new();
    queue.push_back(ObjectReference::Regular { path: b"waiting.o".to_vec(), functions: functions(&[]) });
    let outcome =
        traverse_object_references_and_collect_debug_info(reference, Some(&file), &mut queue);
    assert_eq!(
        outcome,
        Some(Ok(vec![DebugInfoJob {
            range: (0, file.len() as u64),
            addresses: vec![pair(1, 0x1008), pair(3, 0x1028)],
        }]))
    );
    // The new reference waits behind what was in the queue.
    assert_eq!(queue.len(), 2);
    assert_eq!(queue[0].path(), b"waiting.o");
    match queue.pop_back().unwrap() {
        ObjectReference::Regular { path, mut functions } => {
            assert_eq!(path, b"/deep/inner.o".to_vec());
            assert_eq!(
                functions.get_and_remove_addresses_for_function("_inner"),
                Some(vec![at(2, 0x8)])
            );
        }
        other => panic!("unexpected reference: {:?}", other),
    }
}

#[test]
fn file_that_could_not_be_opened_is_passed_over() {
    let reference = ObjectReference::Regular {
        path: b"/gone.o".to_vec(),
        functions: functions(&[("_f", vec![at(1, 1)])]),
    };
    let mut queue = VecDeque::new();
    assert_eq!(
        traverse_object_references_and_collect_debug_info(reference, None, &mut queue),
        Some(Ok(vec![]))
    );
    assert!(queue.is_empty());
}

#[test]
fn files_that_cannot_be_parsed_end_the_traversal() {
    let mut queue = VecDeque::new();
    let not_an_archive = ObjectReference::Archive {
        path: b"/build/libfoo.a".to_vec(),
        archive_info: vec![(b"bar.o".to_vec(), functions(&[]))],
    };
    match traverse_object_references_and_collect_debug_info(
        not_an_archive,
        Some(&executable()),
        &mut queue,
    ) {
        Some(Err(GetSymbolsError::ArchiveParseError(path, _))) => {
            assert_eq!(path, b"/build/libfoo.a".to_vec())
        }
        other => panic!("unexpected result: {:?}", other),
    }
    let not_an_object = ObjectReference::Regular { path: b"x.o".to_vec(), functions: functions(&[]) };
    assert!(matches!(
        traverse_object_references_and_collect_debug_info(not_an_object, Some(&[0x11; 80]), &mut queue),
        Some(Err(GetSymbolsError::MachOHeaderParseError(_)))
    ));
    let member_is_no_object = ObjectReference::Archive {
        path: b"lib.a".to_vec(),
        archive_info: vec![(b"text.o".to_vec(), functions(&[]))],
    };
    let file = archive(&[("text.o", b"just some text, and not an object file at all".to_vec())]);
    assert!(matches!(
        traverse_object_references_and_collect_debug_info(member_is_no_object, Some(&file), &mut queue),
        Some(Err(GetSymbolsError::MachOHeaderParseError(_)))
    ));
    assert!(queue.is_empty());
}

#[test]
fn traversal_step_refuses_addresses_that_leave_the_address_space() {
    let file = object_file(vec![("_top", N_SECT_EXT, u64::MAX)]);
    let reference = ObjectReference::Regular {
        path: b"top.o".to_vec(),
        functions: functions(&[("_top", vec![at(1, 1)])]),
    };
    let mut queue = VecDeque::new();
    assert_eq!(
        traverse_object_references_and_collect_debug_info(reference, Some(&file), &mut queue),
        None
    );
}

#[test]
fn objects_are_looked_at_in_order_until_one_fails() {
    let good = object_file(vec![("_f", N_SECT_EXT, 0x10)]);
    let mut data = good.clone();
    data.extend_from_slice(&[0x11; 64]);
    let objects = |second: (u64, u64)| {
        vec![
            samply_core::macho::references::ObjectInFile {
                range: (0, good.len() as u64),
                functions: functions(&[("_f", vec![at(1, 1)])]),
            },
            samply_core::macho::references::ObjectInFile {
                range: second,
                functions: functions(&[("_f", vec![at(2, 2)])]),
            },
        ]
    };
    let mut queue = VecDeque::new();
    assert_eq!(
        collect_from_objects(&data, objects((0, good.len() as u64)), &mut queue),
        Some(Ok(vec![
            DebugInfoJob { range: (0, good.len() as u64), addresses: vec![pair(1, 0x11)] },
            DebugInfoJob { range: (0, good.len() as u64), addresses: vec![pair(2, 0x12)] },
        ]))
    );
    assert!(matches!(
        collect_from_objects(&data, objects((good.len() as u64, 64)), &mut queue),
        Some(Err(GetSymbolsError::MachOHeaderParseError(_)))
    ));
    assert_eq!(collect_from_objects(&data, vec![], &mut queue), Some(Ok(vec![])));
}

#[test]
fn archive_members_are_found_by_name() {
    let member = |name: &str, start: u64| {
        Some(ArchiveMember { name: name.as_bytes().to_vec(), file_range: (start, 10) })
    };
    let members = vec![member("a.o", 100), None, member("b.o", 200), member("a.o", 300)];
    // Of two members with one name, the later one is found.
    assert_eq!(find_member(&members, b"a.o"), Some((300, 10)));
    assert_eq!(find_member(&members, b"b.o"), Some((200, 10)));
    assert_eq!(find_member(&members, b"c.o"), None);
    assert_eq!(find_member(&[], b"a.o"), None);
    let info = vec![
        (b"b.o".to_vec(), functions(&[("_b", vec![at(1, 1)])])),
        (b"missing.o".to_vec(), functions(&[("_m", vec![at(2, 2)])])),
        (b"a.o".to_vec(), functions(&[("_a", vec![at(3, 3)])])),
    ];
    let mut objects = pick_archive_members(info, &members);
    assert_eq!(objects.iter().map(|o| o.range).collect::<Vec<_>>(), vec![(200, 10), (300, 10)]);
    assert_eq!(objects[0].functions.get_and_remove_addresses_for_function("_b"), Some(vec![at(1, 1)]));
    assert_eq!(objects[1].functions.get_and_remove_addresses_for_function("_a"), Some(vec![at(3, 3)]));
    assert!(pick_archive_members(vec![], &members).is_empty());
}

#[test]
fn references_open_as_the_whole_file_or_as_members() {
    let regular = ObjectReference::Regular {
        path: b"/a/b.o".to_vec(),
        functions: functions(&[("_f", vec![at(1, 2)])]),
    };
    assert_eq!(regular.path(), b"/a/b.o");
    let mut objects = regular.into_objects(&[1, 2, 3, 4, 5]).unwrap();
    assert_eq!(objects.len(), 1);
    assert_eq!(objects[0].range, (0, 5));
    assert_eq!(objects[0].functions.get_and_remove_addresses_for_function("_f"), Some(vec![at(1, 2)]));

    let file = archive(&[("one.o", vec![1, 2, 3]), ("two.o", vec![4, 5, 6, 7])]);
    let archive_reference = ObjectReference::Archive {
        path: b"/a/lib.a".to_vec(),
        archive_info: vec![
            (b"two.o".to_vec(), functions(&[])),
            (b"three.o".to_vec(), functions(&[])),
            (b"one.o".to_vec(), functions(&[])),
        ],
    };
    assert_eq!(archive_reference.path(), b"/a/lib.a");
    let objects = archive_reference.into_objects(&file).unwrap();
    let contents: Vec<&[u8]> = objects
        .iter()
        .map(|o| &file[o.range.0 as usize..(o.range.0 + o.range.1) as usize])
        .collect();
    assert_eq!(contents, vec![&[4u8, 5, 6, 7][..], &[1u8, 2, 3][..]]);
}

#[test]
fn sortedness_of_query_addresses_is_recognised() {
    assert!(is_sorted(&[]));
    assert!(is_sorted(&[5]));
    assert!(is_sorted(&[0x1000, 0x2000, 0x2000, 0x3000]));
    assert!(!is_sorted(&[0x2000, 0x1000]));
    assert!(!is_sorted(&[1, 2, 3, 2]));
}

#[test]
fn object_of_another_kind_is_a_header_parse_error() {
    let mut elf = vec![0x7f, b'E', b'L', b'F', 2, 1, 1, 0];
    elf.resize(128, 0);
    let mut fat = vec![0xca, 0xfe, 0xba, 0xbe];
    fat.resize(128, 0);
    let mut pe = b"MZ".to_vec();
    pe.resize(128, 0);
    let nested_archive = archive(&[("x.o", vec![1, 2, 3, 4])]);
    let mut queue = VecDeque::new();
    for file in [&elf, &fat, &pe, &nested_archive] {
        let reference = ObjectReference::Regular {
            path: b"other.o".to_vec(),
            functions: functions(&[("_f", vec![at(1, 1)])]),
        };
        assert!(matches!(
            traverse_object_references_and_collect_debug_info(reference, Some(file), &mut queue),
            Some(Err(GetSymbolsError::MachOHeaderParseError(_)))
        ));
    }
    // So for a member of an archive; what the members before it gave is lost
    // with it.
    let good = object_file(vec![("_g", N_SECT_EXT, 0x10)]);
    let file = archive(&[("good.o", good), ("elf.o", elf)]);
    let members = ObjectReference::Archive {
        path: b"lib.a".to_vec(),
        archive_info: ["good.o", "elf.o"]
            .iter()
            .map(|name| (name.as_bytes().to_vec(), functions(&[("_g", vec![at(2, 2)])])))
            .collect(),
    };
    assert!(matches!(
        traverse_object_references_and_collect_debug_info(members, Some(&file), &mut queue),
        Some(Err(GetSymbolsError::MachOHeaderParseError(_)))
    ));
    assert!(queue.is_empty());
}

#[test]
fn references_are_taken_from_the_front_of_the_queue() {
    let reference = |path: &str| ObjectReference::Regular {
        path: path.as_bytes().to_vec(),
        functions: functions(&[]),
    };
    let mut queue = VecDeque::new();
    assert!(next_reference(&mut queue).is_none());
    queue.push_back(reference("first.o"));
    queue.push_back(reference("second.o"));
    queue.push_back(reference("third.o"));
    assert_eq!(next_reference(&mut queue).unwrap().path(), b"first.o");
    assert_eq!(queue.len(), 2);
    assert_eq!(queue[0].path(), b"second.o");
    assert_eq!(next_reference(&mut queue).unwrap().path(), b"second.o");
    assert_eq!(next_reference(&mut queue).unwrap().path(), b"third.o");
    assert!(next_reference(&mut queue).is_none());
    assert!(queue.is_empty());
}
