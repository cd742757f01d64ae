use std::collections::HashMap;

use fnv::FnvHashSet;
use rbasefind::cpu::{cpu_search, merge};
use rbasefind::engine::{next_action, Action, Event};
use rbasefind::job::{prepare, Preparation};
use rbasefind::opencl::{
    choose_device, opencl_search_on_host, Chunk, DeviceChoice, DeviceSearch, OPENCL_CHUNK_SIZE,
};
use rbasefind::pointers::get_pointers;
use rbasefind::report::{report_lines, top_matches};
use rbasefind::run::{locate, require_strings, search_image};
use rbasefind::scan::{count_matches, find_matches, Scan};
use rbasefind::strings::{get_strings, make_pattern, span_starts};
use rbasefind::text::format_match;
use rbasefind::{run, Config, MatchHeap, SearchError};

fn config(offset: u32, threads: usize) -> Config {
    Config {
        big_endian: false,
        filename: String::new(),
        min_str_len: 0,
        max_matches: 10,
        offset,
        threads,
        opencl: true,
    }
}

fn set(values: &[u32]) -> FnvHashSet<u32> {
    values.iter().cloned().collect()
}

fn drain(mut heap: MatchHeap) -> Vec<(usize, u32)> {
    let mut out = Vec::new();
    while let Some(item) = heap.pop() {
        out.push(item);
    }
    out
}

fn heap_to_map(mut heap: MatchHeap) -> HashMap<u32, usize> {
    let mut out = HashMap::new();
    while let Some((count, addr)) = heap.pop() {
        out.insert(addr, count);
    }
    out
}

fn cpu_reference_search(
    config: &Config,
    strings: &[u32],
    pointers: &FnvHashSet<u32>,
) -> MatchHeap {
    let mut heap = MatchHeap::new();
    let mut current_addr: u32 = 0;
    loop {
        let mut count = 0usize;
        for s in strings {
            match s.checked_add(current_addr) {
                Some(add) => {
                    if pointers.contains(&add) {
                        count += 1;
                    }
                }
                None => break,
            }
        }
        if count > 0 {
            heap.push((count, current_addr));
        }

        match current_addr.checked_add(config.offset) {
            Some(next) => current_addr = next,
            None => break,
        }
    }
    heap
}

#[test]
fn opencl_matches_cpu_results() {
    let config = config(0x80000000, 2);
    let strings = vec![0x1000u32, 0x2000u32, 0x3000u32];
    let pointers_vec = vec![0x00001000u32, 0x00002000u32, 0x80001000u32, 0x11111111u32];
    let mut pointers_set = FnvHashSet::default();
    for p in &pointers_vec {
        pointers_set.insert(*p);
    }

    let cpu = cpu_reference_search(&config, &strings, &pointers_set);
    let opencl = opencl_search_on_host(&config, &strings, &pointers_vec).unwrap_or_else(|e| panic!("{}", e));
    let opencl = heap_to_map(opencl);
    assert_eq!(opencl.len(), 2);
    assert_eq!(opencl[&0], 2);
    assert_eq!(opencl[&0x80000000], 1);
    assert_eq!(heap_to_map(cpu), opencl);
    assert_eq!(heap_to_map(cpu_search(&config, &strings, &pointers_set)), opencl);
}

#[test]
fn benchmark_opencl_vs_cpu_reference() {
    let config = config(0x00020000, 4);
    let strings: Vec<u32> = (0..4000).map(|i| (i as u32) * 0x20).collect();
    let mut pointers_seed: Vec<u32> = (0..400000)
        .map(|i| ((i as u32).wrapping_mul(0x1f123bb5)).rotate_left(7))
        .collect();
    // Force some deterministic hits for candidate base 0.
    for s in strings.iter().take(2000) {
        pointers_seed.push(*s);
    }

    let mut pointers_set = FnvHashSet::default();
    for p in &pointers_seed {
        pointers_set.insert(*p);
    }
    let pointers_vec: Vec<u32> = pointers_set.iter().cloned().collect();

    let start = std::time::Instant::now();
    let cpu = cpu_reference_search(&config, &strings, &pointers_set);
    let cpu_elapsed = start.elapsed();
    let start = std::time::Instant::now();
    let opencl = opencl_search_on_host(&config, &strings, &pointers_vec).unwrap_or_else(|e| panic!("{}", e));
    let opencl_elapsed = start.elapsed();
    assert_eq!(heap_to_map(cpu), heap_to_map(opencl));
    println!("cpu={:?}, opencl={:?}", cpu_elapsed, opencl_elapsed);
}

#[test]
fn heap_gives_the_largest_first() {
    let mut heap = MatchHeap::new();
    assert_eq!(heap.pop(), None);
    let items = [(2usize, 7u32), (9, 1), (2, 8), (0, 0), (9, 1), (5, 5), (9, 0)];
    for item in items {
        heap.push(item);
    }
    assert_eq!(heap.len(), 7);
    let mut expected = items.to_vec();
    expected.sort();
    expected.reverse();
    assert_eq!(drain(heap), expected);
}

#[test]
fn append_moves_everything() {
    let mut a = MatchHeap::new();
    let mut b = MatchHeap::new();
    a.push((1, 1));
    b.push((3, 3));
    b.push((2, 2));
    a.append(&mut b);
    assert_eq!(b.len(), 0);
    assert_eq!(drain(a), vec![(3, 3), (2, 2), (1, 1)]);
}

#[test]
fn merge_keeps_repeated_matches() {
    let mut heaps = Vec::new();
    for _ in 0..3 {
        let mut heap = MatchHeap::new();
        heap.push((4, 0x1000));
        heaps.push(heap);
    }
    assert_eq!(drain(merge(heaps)), vec![(4, 0x1000); 3]);
    assert_eq!(drain(merge(Vec::new())), vec![]);
}

#[test]
fn strings_are_runs_that_a_zero_byte_ends() {
    let mut config = config(0x1000, 1);
    config.min_str_len = 3;
    let buffer = b"abc\0ab\0\x01tab\there\0\xffno end";
    assert_eq!(get_strings(&config, buffer).ok(), Some(vec![0, 8]));
    config.min_str_len = 2;
    assert_eq!(get_strings(&config, buffer).ok(), Some(vec![0, 4, 8]));
    config.min_str_len = 9;
    assert_eq!(get_strings(&config, buffer).ok(), Some(vec![]));
    assert_eq!(get_strings(&config, b"line one\r\nline two\0").ok(), Some(vec![0]));
    assert_eq!(get_strings(&config, b"").ok(), Some(vec![]));
}

#[test]
fn strings_of_no_bytes_end_at_every_zero_byte() {
    let config = config(0x1000, 1);
    assert_eq!(get_strings(&config, b"\0\0ab\0\x7f\0").ok(), Some(vec![0, 1, 2, 6]));
}

#[test]
fn bounds_of_text_bytes() {
    let mut config = config(0x1000, 1);
    config.min_str_len = 1;
    let mut expected = Vec::new();
    let mut buffer = Vec::new();
    for b in 1..=255u8 {
        if (b >= 0x20 && b <= 0x7e) || b == 9 || b == 10 || b == 13 {
            expected.push(buffer.len() as u32);
        }
        buffer.push(b);
        buffer.push(0);
    }
    assert_eq!(get_strings(&config, &buffer).ok(), Some(expected));
}

#[test]
fn positions_of_strings_ascend() {
    let config = config(0x1000, 1);
    let buffer: Vec<u8> = (0..4096u32).map(|i| (i * i / 7) as u8).collect();
    let strings = get_strings(&config, &buffer).ok().unwrap();
    assert!(strings.len() > 5);
    assert!(strings.windows(2).all(|w| w[0] < w[1]));
}

#[test]
fn longer_minimum_keeps_a_part() {
    let mut config = config(0x1000, 1);
    let buffer = b"abc\0a\0abcdef\0\x02xy\0";
    let mut before = get_strings(&config, buffer).ok().unwrap();
    assert_eq!(before, vec![0, 4, 6, 14]);
    for min in 1..8 {
        config.min_str_len = min;
        let strings = get_strings(&config, buffer).ok().unwrap();
        assert!(strings.iter().all(|s| before.contains(s)));
        before = strings;
    }
    assert!(before.is_empty());
}

#[test]
fn minimum_length_that_no_expression_holds() {
    let mut config = config(0x1000, 1);
    config.min_str_len = usize::MAX;
    assert!(matches!(get_strings(&config, b"abc\0"), Err(SearchError::Pattern(_))));
    assert!(matches!(run(&config, b"abc\0"), Err(SearchError::Pattern(_))));
}

#[test]
fn pattern_names_the_minimum_length() {
    assert_eq!(make_pattern(0), "[ -~\\t\\r\\n]{0,}\0");
    assert_eq!(make_pattern(10), "[ -~\\t\\r\\n]{10,}\0");
    assert_eq!(make_pattern(1000), "[ -~\\t\\r\\n]{1000,}\0");
}

#[test]
fn ordinary_minimum_lengths_are_never_refused() {
    let mut config = config(0x1000, 1);
    let mut long = vec![b'a'; 1000];
    long.push(0);
    for min in [0, 1, 10, 999, 1000] {
        config.min_str_len = min;
        assert_eq!(get_strings(&config, &long).ok(), Some(vec![0]));
        assert!(get_strings(&config, b"").is_ok());
        assert!(get_strings(&config, b"\xff\xfe\x00[{(").is_ok());
    }
    assert_eq!(get_strings(&config, &long[1..]).ok(), Some(vec![]));
}

#[test]
fn largest_minimum_that_compiles() {
    let largest = if usize::BITS == 64 { 119_153 } else { 187_243 };
    let mut config = config(0x1000, 1);
    config.min_str_len = largest;
    assert_eq!(get_strings(&config, b"").ok(), Some(vec![]));
    assert!(matches!(locate(&config, b"abc\0"), Err(SearchError::NoStrings)));
    for min in [largest + 1, 10 * (1 << 20), u32::MAX as usize, usize::MAX] {
        config.min_str_len = min;
        assert!(matches!(get_strings(&config, b""), Err(SearchError::Pattern(_))));
        assert!(matches!(get_strings(&config, b"abc\0"), Err(SearchError::Pattern(_))));
        assert!(matches!(locate(&config, b"abc\0"), Err(SearchError::Pattern(_))));
        assert!(matches!(run(&config, b"abc\0"), Err(SearchError::Pattern(_))));
    }
}

#[test]
fn messages_of_refusals() {
    assert_eq!(SearchError::NoStrings.message(), Some("No strings found in target binary"));
    assert_eq!(SearchError::Pattern(regex::Error::CompiledTooBig(7)).message(), None);
}

#[test]
fn device_is_a_gpu_where_there_is_one() {
    assert!(matches!(choose_device(2, None), Ok(DeviceChoice::FirstGpu)));
    assert!(matches!(choose_device(1, Some(0)), Ok(DeviceChoice::FirstGpu)));
    assert!(matches!(choose_device(0, None), Ok(DeviceChoice::ListAll)));
    assert!(matches!(choose_device(0, Some(3)), Ok(DeviceChoice::FirstOfAll)));
    assert_eq!(choose_device(0, Some(0)).err(), Some("no OpenCL devices found"));
}

#[test]
fn joined_images_keep_their_positions() {
    let mut config = config(0x1000, 1);
    config.min_str_len = 3;
    let second = b"def\0\0ghijk\0";
    for first in [&b""[..], &b"abc\0"[..], &b"x\0abc\0ab\x01"[..], &b"abc\x80"[..]] {
        let joined = [first, &second[..]].concat();
        let mut expected = get_strings(&config, first).ok().unwrap();
        let moved = get_strings(&config, second).ok().unwrap();
        assert_eq!(moved, vec![0, 5]);
        expected.extend(moved.iter().map(|p| p + first.len() as u32));
        assert_eq!(get_strings(&config, &joined).ok(), Some(expected));
    }
    assert_eq!(get_strings(&config, b"abcdef\0\0ghijk\0").ok(), Some(vec![0, 8]));
}

#[test]
fn spans_give_their_starts() {
    let found = vec![(3usize, 9usize), (0x1_0000_0007, 0x1_0000_0011)];
    assert_eq!(span_starts(Ok(found)).ok(), Some(vec![3, 7]));
    let refused = Err(regex::Error::CompiledTooBig(7));
    assert!(matches!(span_starts(refused), Err(SearchError::Pattern(_))));
}

#[test]
fn pointers_are_whole_words() {
    let mut config = config(0x1000, 1);
    let buffer = [0x78, 0x56, 0x34, 0x12, 1, 0, 0, 0, 0x78, 0x56, 0x34, 0x12, 9, 9, 9];
    assert_eq!(get_pointers(&config, &buffer), set(&[0x12345678, 1]));
    config.big_endian = true;
    assert_eq!(get_pointers(&config, &buffer), set(&[0x78563412, 0x01000000]));
    assert_eq!(get_pointers(&config, &[1, 2, 3]), set(&[]));
}

#[test]
fn count_is_of_distinct_hits_before_the_first_overflow() {
    let pointers = set(&[0x1010, 0x1020, 0xffff_ffff]);
    assert_eq!(count_matches(&vec![0x10, 0x10, 0x20, 0x30], &pointers, 0x1000), 2);
    assert_eq!(count_matches(&vec![0xffff_ffff, 0x10], &pointers, 0x1000), 0);
    assert_eq!(count_matches(&vec![0x10, 0xffff_ffff, 0x20], &pointers, 0x1000), 1);
    assert_eq!(count_matches(&vec![0xffff_efff], &pointers, 0x1000), 1);
    assert_eq!(count_matches(&vec![], &pointers, 0), 0);
}

#[test]
fn interval_matches_are_found() {
    let config = config(0x10000000, 2);
    let strings = vec![4u32, 8];
    let pointers = set(&[0x20000004, 0x20000008, 0x80000004, 0xf0000008, 0xf0000009]);
    let first = find_matches(&config, &strings, &pointers, 0).unwrap_or_else(|e| panic!("{}", e));
    assert_eq!(drain(first), vec![(2, 0x20000000), (1, 0x80000000)]);
    let second = find_matches(&config, &strings, &pointers, 1).unwrap_or_else(|e| panic!("{}", e));
    assert_eq!(drain(second), vec![(1, 0xf0000000), (1, 0x80000000)]);
    assert_eq!(
        find_matches(&config, &strings, &pointers, 2).err(),
        Some("Invalid index specified")
    );
    let mut odd = config;
    odd.offset = 0x10000001;
    assert_eq!(
        find_matches(&odd, &strings, &pointers, 1).err(),
        Some("Invalid additive offset")
    );
}

#[test]
fn scan_looks_at_each_address_of_its_interval() {
    let config = config(0x40000000, 1);
    let mut scan = Scan::new(&config, 0).unwrap_or_else(|e| panic!("{}", e));
    assert_eq!(scan.total(), 3);
    let strings = vec![0u32];
    let pointers = set(&[0x40000000]);
    let mut heap = MatchHeap::new();
    let mut advanced = 0;
    let mut seen = Vec::new();
    while !scan.finished() {
        seen.push(scan.current.unwrap());
        if scan.step(&strings, &pointers, &mut heap) {
            advanced += 1;
        }
    }
    assert_eq!(seen, vec![0, 0x40000000, 0x80000000, 0xc0000000]);
    assert_eq!(advanced, 3);
    assert_eq!(drain(heap), vec![(1, 0x40000000)]);
}

#[test]
fn address_where_intervals_meet_is_found_by_both() {
    let strings = vec![0u32];
    let pointers = set(&[0x80000000]);
    let found = cpu_search(&config(0x1000000, 2), &strings, &pointers);
    assert_eq!(drain(found), vec![(1, 0x80000000), (1, 0x80000000)]);
    let found = cpu_search(&config(0x1000000, 1), &strings, &pointers);
    assert_eq!(drain(found), vec![(1, 0x80000000)]);
    let found = cpu_search(&config(0x1000000, 0), &strings, &pointers);
    assert_eq!(drain(found), vec![]);
}

#[test]
fn number_of_threads_does_not_change_what_is_found() {
    let strings: Vec<u32> = (0..20).map(|i| i * 12).collect();
    let pointers: FnvHashSet<u32> =
        (0..500u32).map(|i| i.wrapping_mul(0x9e37_79b1) & 0xffff_00ff).collect();
    let expected = heap_to_map(cpu_search(&config(0x10000, 1), &strings, &pointers));
    assert!(expected.len() > 10);
    for threads in 2..9 {
        let found = cpu_search(&config(0x10000, threads), &strings, &pointers);
        assert_eq!(heap_to_map(found), expected);
    }
    let pointers: Vec<u32> = pointers.iter().cloned().collect();
    let found = opencl_search_on_host(&config(0x10000, 1), &strings, &pointers);
    assert_eq!(found.ok().map(heap_to_map), Some(expected));
}

#[test]
fn preparation_sorts_and_filters() {
    let config = config(0x1000, 1);
    let pointers = [0x5123, 0x3045, 0x7123, 0x5123, 0x0666];
    match prepare(&config, &[0x2045, 0x1123, 0x2045], &pointers) {
        Ok(Preparation::Ready(job)) => {
            assert_eq!(job.strings, vec![0x1123, 0x2045]);
            assert_eq!(job.pointers, vec![0x3045, 0x5123, 0x7123]);
            assert_eq!(job.ptr_min, 0x3045);
            assert_eq!(job.ptr_max, 0x7123);
            assert_eq!(job.offset, 0x1000);
            assert_eq!(job.find(0x4000, 1, 0), Some(1));
            assert_eq!(job.find(0, 5, 1), Some(1));
            assert_eq!(job.find(0, 5, 4), Some(1));
            assert_eq!(job.find(0, 5, 5), None);
            assert_eq!(job.find(0xffff_f000, 5, 1), Some(0));
        }
        _ => panic!("not ready"),
    }
}

#[test]
fn preparation_ends_early() {
    let mut config = config(0x1000, 1);
    assert!(matches!(prepare(&config, &[], &[1]), Ok(Preparation::NoStrings)));
    assert!(matches!(
        prepare(&config, &[0x10, 0x10, 0x20], &[0x11]),
        Ok(Preparation::NoPointers { strings_unique: 2 })
    ));
    assert_eq!(
        opencl_search_on_host(&config, &[0x10], &[0x11]).ok().map(drain),
        Some(vec![])
    );
    config.offset = 1;
    match prepare(&config, &[0x10], &[0x11]) {
        Ok(Preparation::Ready(job)) => assert_eq!(job.pointers, vec![0x11]),
        _ => panic!("not ready"),
    }
}

#[test]
fn device_search_goes_chunk_by_chunk() {
    let mut search = DeviceSearch::new(0x800);
    assert_eq!(search.total_candidates(), 0x200000);
    let first = search.next_chunk();
    assert_eq!(first, Some(Chunk { base_start: 0, candidate_count: OPENCL_CHUNK_SIZE }));
    let mut counts = vec![0u32; OPENCL_CHUNK_SIZE];
    counts[3] = 5;
    search.accept(&counts);
    let second = search.next_chunk();
    assert_eq!(
        second,
        Some(Chunk { base_start: 0x80000000, candidate_count: OPENCL_CHUNK_SIZE })
    );
    counts[3] = 0;
    counts[OPENCL_CHUNK_SIZE - 1] = 6;
    search.accept(&counts);
    assert_eq!(search.next_chunk(), None);
    assert_eq!(drain(search.heap), vec![(6, 0xffff_f800), (5, 0x1800)]);
}

#[test]
fn lines() {
    assert_eq!(format_match(0x1000, 7), "0x00001000: 7");
    assert_eq!(format_match(0xffff_ffff, 0), "0xffffffff: 0");
    assert_eq!(format_match(0xab_cdef, 1234567890), "0x00abcdef: 1234567890");
    let matches = vec![(1usize, 2u32), (10, 16)];
    assert_eq!(report_lines(&matches), vec!["0x00000002: 1", "0x00000010: 10"]);
}

#[test]
fn top_lists_at_most_the_number_asked_for() {
    for max in 0..5usize {
        let mut heap = MatchHeap::new();
        heap.push((1, 10));
        heap.push((3, 30));
        heap.push((2, 20));
        let expected: Vec<(usize, u32)> =
            vec![(3, 30), (2, 20), (1, 10)].into_iter().take(max).collect();
        assert_eq!(top_matches(heap, max), expected);
    }
}

#[test]
fn order_of_finding_does_not_change_the_list() {
    let items = [(1usize, 5u32), (2, 4), (2, 3), (2, 4), (7, 0)];
    let mut forward = MatchHeap::new();
    let mut backward = MatchHeap::new();
    for i in 0..items.len() {
        forward.push(items[i]);
        backward.push(items[items.len() - 1 - i]);
    }
    let listed = top_matches(forward, 4);
    assert_eq!(listed, vec![(7, 0), (2, 4), (2, 4), (2, 3)]);
    assert_eq!(top_matches(backward, 4), listed);
}

#[test]
fn base_that_explains_every_string_comes_first() {
    let strings = vec![0x10u32, 0x44, 0x80, 0x80, 0x1234];
    let base = 0x0700_0000;
    let mut pointers: FnvHashSet<u32> = strings.iter().map(|s| s + base).collect();
    pointers.insert(0x0900_0044);
    pointers.insert(0x0900_0080);
    assert_eq!(count_matches(&strings, &pointers, base), 4);
    let found = drain(cpu_search(&config(0x10_0000, 1), &strings, &pointers));
    assert_eq!(found, vec![(4, 0x0700_0000), (2, 0x0900_0000)]);
}

#[test]
fn lines_can_be_read_back() {
    for (addr, count) in [(0u32, 0usize), (0x1f, 9), (0xdead_beef, 10), (u32::MAX, usize::MAX)] {
        let line = format_match(addr, count);
        assert_eq!(u32::from_str_radix(&line[2..10], 16), Ok(addr));
        assert_eq!(line[12..].parse::<usize>(), Ok(count));
    }
}

fn image(base: u32) -> Vec<u8> {
    let mut bytes = Vec::new();
    bytes.extend_from_slice(b"hello world\0second string\0\0\0");
    bytes.extend_from_slice(&base.to_le_bytes());
    bytes.extend_from_slice(&(base + 12).to_le_bytes());
    bytes
}

#[test]
fn base_address_is_reported() {
    let mut config = config(0x01000000, 3);
    config.min_str_len = 10;
    let buffer = image(0x08000000);
    assert_eq!(run(&config, &buffer).ok(), Some(vec![String::from("0x08000000: 2")]));
    let located = locate(&config, &buffer);
    match located {
        Ok(located) => {
            assert_eq!(located.strings, vec![0, 12]);
            assert!(located.pointers.contains(&0x0800000c));
            assert_eq!(search_image(&config, &located, None), vec!["0x08000000: 2"]);
        }
        Err(_) => panic!("no strings"),
    }
    config.max_matches = 0;
    assert_eq!(run(&config, &buffer).ok(), Some(vec![]));
}

#[test]
fn settings_and_device_choose_the_engine() {
    let with = config(0x1000, 1);
    let mut without = config(0x1000, 1);
    without.opencl = false;
    assert!(matches!(next_action(&with, Event::Located), Action::SearchOnDevice));
    assert!(matches!(next_action(&without, Event::Located), Action::SearchOnCpu));
    assert!(matches!(next_action(&with, Event::DeviceFailed), Action::SearchOnCpu));
    let mut heap = MatchHeap::new();
    heap.push((3, 0x1000));
    match next_action(&with, Event::DeviceFound(heap)) {
        Action::Report(heap) => assert_eq!(drain(heap), vec![(3, 0x1000)]),
        _ => panic!("the matches of the device are final"),
    }
    let mut heap = MatchHeap::new();
    heap.push((4, 0x2000));
    match next_action(&with, Event::CpuFound(heap)) {
        Action::Report(heap) => assert_eq!(drain(heap), vec![(4, 0x2000)]),
        _ => panic!("the matches of the CPU are final"),
    }
}

#[test]
fn failed_device_gives_the_cpu_lines() {
    let mut with = config(0x1000000, 2);
    with.min_str_len = 10;
    let mut without = config(0x1000000, 2);
    without.min_str_len = 10;
    without.opencl = false;
    let buffer = image(0x80000000);
    let line = String::from("0x80000000: 2");
    assert_eq!(run(&with, &buffer).ok(), Some(vec![line.clone()]));
    assert_eq!(run(&without, &buffer).ok(), Some(vec![line.clone(), line.clone()]));
    let located = locate(&with, &buffer).ok().unwrap();
    assert_eq!(search_image(&with, &located, None), vec![line.clone(), line.clone()]);
    let mut heap = MatchHeap::new();
    heap.push((7, 0x3000000));
    assert_eq!(search_image(&with, &located, Some(heap)), vec!["0x03000000: 7"]);
    let mut heap = MatchHeap::new();
    heap.push((7, 0x3000000));
    assert_eq!(search_image(&without, &located, Some(heap)), vec![line.clone(), line]);
}

#[test]
fn image_without_strings_is_refused() {
    let mut config = config(0x01000000, 1);
    config.min_str_len = 10;
    assert!(matches!(run(&config, b"short\0"), Err(SearchError::NoStrings)));
    assert!(matches!(locate(&config, b""), Err(SearchError::NoStrings)));
    assert!(matches!(require_strings(Ok(vec![])), Err(SearchError::NoStrings)));
    assert_eq!(require_strings(Ok(vec![1])).ok(), Some(vec![1]));
}
