use rbasefind::Interval;

#[test]
#[should_panic]
fn find_matches_invalid_interval() {
    let _ = Interval::get_range(1, 1, 0x1000).unwrap();
}

#[test]
fn find_matches_single_cpu_interval_0() {
    let interval = Interval::get_range(0, 1, 0x1000).unwrap();
    assert_eq!(interval.start_addr, u32::min_value());
    assert_eq!(interval.end_addr, u32::max_value());
}

#[test]
fn find_matches_double_cpu_interval_0() {
    let interval = Interval::get_range(0, 2, 0x1000).unwrap();
    assert_eq!(interval.start_addr, u32::min_value());
    assert_eq!(interval.end_addr, 0x80000000);
}

#[test]
fn find_matches_double_cpu_interval_1() {
    let interval = Interval::get_range(1, 2, 0x1000).unwrap();
    assert_eq!(interval.start_addr, 0x80000000);
    assert_eq!(interval.end_addr, u32::max_value());
}

#[test]
fn find_matches_triple_cpu_interval_0() {
    let interval = Interval::get_range(0, 3, 0x1000).unwrap();
    assert_eq!(interval.start_addr, u32::min_value());
    assert_eq!(interval.end_addr, 0x55555000);
}

#[test]
fn find_matches_triple_cpu_interval_1() {
    let interval = Interval::get_range(1, 3, 0x1000).unwrap();
    assert_eq!(interval.start_addr, 0x55555000);
    assert_eq!(interval.end_addr, 0xAAAAA000);
}

#[test]
fn find_matches_triple_cpu_interval_2() {
    let interval = Interval::get_range(2, 3, 0x1000).unwrap();
    assert_eq!(interval.start_addr, 0xAAAAA000);
    assert_eq!(interval.end_addr, u32::max_value());
}

#[test]
fn index_beyond_the_threads_is_refused() {
    assert_eq!(Interval::get_range(3, 3, 0x1000), Err("Invalid index specified"));
    assert_eq!(Interval::get_range(0, 0, 3), Err("Invalid index specified"));
}

#[test]
fn offset_that_is_no_power_of_two_is_refused() {
    assert_eq!(Interval::get_range(0, 1, 0), Err("Invalid additive offset"));
    assert_eq!(Interval::get_range(0, 1, 0x1001), Err("Invalid additive offset"));
    for k in 0..32 {
        assert!(Interval::get_range(0, 1, 1 << k).is_ok());
        assert!(k < 2 || Interval::get_range(0, 1, (1 << k) - 1).is_err());
    }
}

#[test]
fn intervals_meet_and_span_the_address_space() {
    for threads in 1..50usize {
        let mut expected = 0u32;
        for index in 0..threads {
            let interval = Interval::get_range(index, threads, 0x100).unwrap();
            assert_eq!(interval.start_addr, expected);
            assert_eq!(interval.start_addr % 0x100, 0);
            assert!(interval.start_addr <= interval.end_addr);
            expected = interval.end_addr;
        }
        assert_eq!(expected, u32::max_value());
    }
}

#[test]
fn start_beyond_the_address_space_is_reduced() {
    let interval = Interval::get_range(999_999, 1_000_000, 1).unwrap();
    assert_eq!(interval.start_addr, 28409);
    assert_eq!(interval.end_addr, u32::max_value());
}
