use samply_core::pdb::addr2line::get_addresses_covered_by_range;

#[test]
fn covered_range_picks_the_half_open_interval() {
    let addresses = [1u32, 5, 5, 9, 12, 20];
    assert_eq!(get_addresses_covered_by_range(&addresses, 5..12), &[5, 5, 9]);
    assert_eq!(get_addresses_covered_by_range(&addresses, 0..1), &[] as &[u32]);
    assert_eq!(get_addresses_covered_by_range(&addresses, 0..2), &[1]);
    assert_eq!(get_addresses_covered_by_range(&addresses, 12..21), &[12, 20]);
    assert_eq!(get_addresses_covered_by_range(&addresses, 21..100), &[] as &[u32]);
}

#[test]
fn covered_range_is_empty_for_a_reversed_interval() {
    let addresses = [1u32, 5, 9];
    assert_eq!(get_addresses_covered_by_range(&addresses, 9..1), &[] as &[u32]);
    assert_eq!(get_addresses_covered_by_range(&addresses, 5..5), &[] as &[u32]);
}
