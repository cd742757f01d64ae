//! From the bytes of an image to the lines that report its likely base addresses.

use vstd::multiset::Multiset;
use vstd::prelude::*;

use crate::bits;
use crate::config::Config;
use crate::cpu;
use crate::engine;
use crate::engine::{Action, Event};
use crate::heap::MatchHeap;
use crate::job;
use crate::opencl;
use crate::parse;
use crate::pointers;
use crate::report;
use crate::scan;
use crate::strings;
use crate::strings::SearchError;
use crate::text;
use crate::value_set;

verus! {

/// What of an image a search needs.
pub struct Image {
    pub strings: Vec<u32>,
    pub pointers: fnv::FnvHashSet<u32>,
}

/// A search needs at least one string.
pub fn require_strings(found: Result<Vec<u32>, SearchError>) -> (r: Result<Vec<u32>, SearchError>)
    ensures
        match found {
            Ok(strings) => if strings@.len() == 0 {
                r == Err::<Vec<u32>, SearchError>(SearchError::NoStrings)
            } else {
                r == found
            },
            Err(_) => r == found,
        },
{
    match found {
        Ok(strings) => if strings.len() == 0 {
            Err(SearchError::NoStrings)
        } else {
            Ok(strings)
        },
        Err(e) => Err(e),
    }
}

/// The pointers of an image.
pub open spec fn pointer_values(buffer: Seq<u8>, big_endian: bool) -> Set<u32> {
    pointers::words(buffer, big_endian, buffer.len() as int / 4)
}

/// Locates the strings and the pointers of an image.
pub fn locate(config: &Config, buffer: &[u8]) -> (r: Result<Image, SearchError>)
    ensures
        match r {
            Ok(image) => {
                &&& strings::minimum_compiles(config.min_str_len as nat)
                &&& image.strings@ == strings::string_positions(buffer@, config.min_str_len as nat)
                &&& image.strings@.len() > 0
                &&& image.pointers@ == pointer_values(buffer@, config.big_endian)
            },
            Err(SearchError::NoStrings) => {
                &&& strings::minimum_compiles(config.min_str_len as nat)
                &&& strings::string_positions(buffer@, config.min_str_len as nat).len() == 0
            },
            Err(SearchError::Pattern(_)) => !strings::minimum_compiles(config.min_str_len as nat),
        },
{
    match require_strings(strings::get_strings(config, buffer)) {
        Ok(strings) => {
            let pointers = pointers::get_pointers(config, buffer);
            Ok(Image { strings, pointers })
        },
        Err(e) => Err(e),
    }
}

/// The matches that a search over the intervals of all threads finds in an image.
pub open spec fn cpu_matches_in(config: Config, buffer: Seq<u8>) -> Multiset<(usize, u32)> {
    scan::all_matches(
        scan::counts(
            strings::string_positions(buffer, config.min_str_len as nat),
            pointer_values(buffer, config.big_endian),
        ),
        config.threads as int,
        config.offset as int,
        config.threads as nat,
    )
}

/// The matches that a search on a device finds in an image, if it can take the image.
pub open spec fn device_matches_in(config: Config, buffer: Seq<u8>) -> Option<
    Multiset<(usize, u32)>,
> {
    opencl::device_matches(
        strings::string_positions(buffer, config.min_str_len as nat).to_set(),
        pointer_values(buffer, config.big_endian),
        config.offset,
    )
}

/// Whether the CPU can search with these settings: every interval can be split off.
pub open spec fn cpu_can_search(config: Config) -> bool {
    config.threads > 0 ==> bits::is_power_of_two(config.offset) && config.threads + u32::MAX
        <= u64::MAX
}

/// Whether `lines` report the best `max` of all matches, best first.
pub open spec fn reports_top(
    all: Multiset<(usize, u32)>,
    max: nat,
    lines: Seq<String>,
) -> bool {
    exists|top: Seq<(usize, u32)>| #[trigger]
        report::is_top(all, max, top) && lines.len() == top.len() && forall|i: int|
            0 <= i < lines.len() ==> (#[trigger] lines[i])@ == text::report_line(
                top[i].1,
                top[i].0,
            )
}

/// Searches for the base address of an image and reports the best matches. `device` is what
/// the search on a device found, and `None` where it failed; it counts only where the
/// settings ask for the device. The CPU searches on the calling thread.
pub fn search_image(config: &Config, image: &Image, device: Option<MatchHeap>) -> (r: Vec<String>)
    requires
        cpu_can_search(*config) || config.opencl && device is Some,
    ensures
        reports_top(
            engine::chosen(
                config.opencl,
                engine::outcome(device),
                scan::all_matches(
                    scan::counts(image.strings@, image.pointers@),
                    config.threads as int,
                    config.offset as int,
                    config.threads as nat,
                ),
            ),
            config.max_matches as nat,
            r@,
        ),
{
    let mut action: Action = engine::next_action(config, Event::Located);
    if let Action::SearchOnDevice = action {
        let event: Event = match device {
            Some(heap) => Event::DeviceFound(heap),
            None => Event::DeviceFailed,
        };
        action = engine::next_action(config, event);
    }
    let found: MatchHeap = match action {
        Action::Report(heap) => heap,
        _ => cpu::cpu_search(config, &image.strings, &image.pointers),
    };
    let top: Vec<(usize, u32)> = report::top_matches(found, config.max_matches);
    report::report_lines(&top)
}

/// Locates the strings and the pointers of an image and searches for its base address, on
/// the calling thread, the work of a device included.
pub fn run(config: &Config, buffer: &[u8]) -> (r: Result<Vec<String>, SearchError>)
    requires
        cpu_can_search(*config),
        config.opencl ==> config.threads > 0 || config.offset > 0,
    ensures
        match r {
            Ok(lines) => {
                &&& strings::minimum_compiles(config.min_str_len as nat)
                &&& strings::string_positions(buffer@, config.min_str_len as nat).len() > 0
                &&& reports_top(
                    engine::chosen(
                        config.opencl,
                        device_matches_in(*config, buffer@),
                        cpu_matches_in(*config, buffer@),
                    ),
                    config.max_matches as nat,
                    lines@,
                )
            },
            Err(SearchError::NoStrings) => {
                &&& strings::minimum_compiles(config.min_str_len as nat)
                &&& strings::string_positions(buffer@, config.min_str_len as nat).len() == 0
            },
            Err(SearchError::Pattern(_)) => !strings::minimum_compiles(config.min_str_len as nat),
        },
{
    let image: Image = match locate(config, buffer) {
        Ok(image) => image,
        Err(e) => return Err(e),
    };
    proof {
        if config.threads > 0 {
            bits::lemma_power_of_two_divides(config.offset);
        }
    }
    let device: Option<MatchHeap> = if config.opencl {
        let values: Vec<u32> = value_set::values(&image.pointers);
        match opencl::opencl_search_on_host(config, image.strings.as_slice(), values.as_slice()) {
            Ok(heap) => Some(heap),
            Err(_) => None,
        }
    } else {
        None
    };
    Ok(search_image(config, &image, device))
}

/// Where the device fails, the lines are those of the same settings without the device.
pub proof fn failed_device_gives_the_cpu_lines(
    asked: Config,
    plain: Config,
    buffer: Seq<u8>,
    device: Option<Multiset<(usize, u32)>>,
    fallen_back: Seq<String>,
    without: Seq<String>,
)
    requires
        asked.opencl,
        plain == (Config { opencl: false, ..asked }),
        reports_top(
            engine::chosen(asked.opencl, None, cpu_matches_in(asked, buffer)),
            asked.max_matches as nat,
            fallen_back,
        ),
        reports_top(
            engine::chosen(plain.opencl, device, cpu_matches_in(plain, buffer)),
            plain.max_matches as nat,
            without,
        ),
    ensures
        fallen_back.len() == without.len(),
        forall|i: int|
            0 <= i < without.len() ==> (#[trigger] fallen_back[i])@ == (#[trigger] without[i])@,
{
    lines_are_determined(
        cpu_matches_in(asked, buffer),
        asked.max_matches as nat,
        fallen_back,
        without,
    );
}

/// The matches and the number of them to list decide the lines.
pub proof fn lines_are_determined(
    all: Multiset<(usize, u32)>,
    max: nat,
    a: Seq<String>,
    b: Seq<String>,
)
    requires
        reports_top(all, max, a),
        reports_top(all, max, b),
    ensures
        a.len() == b.len(),
        forall|i: int| 0 <= i < a.len() ==> (#[trigger] a[i])@ == (#[trigger] b[i])@,
{
    let top_a = choose|top: Seq<(usize, u32)>| #[trigger]
        report::is_top(all, max, top) && a.len() == top.len() && forall|i: int|
            0 <= i < a.len() ==> (#[trigger] a[i])@ == text::report_line(top[i].1, top[i].0);
    let top_b = choose|top: Seq<(usize, u32)>| #[trigger]
        report::is_top(all, max, top) && b.len() == top.len() && forall|i: int|
            0 <= i < b.len() ==> (#[trigger] b[i])@ == text::report_line(top[i].1, top[i].0);
    report::top_is_determined(all, max, top_a, top_b);
}

/// A device can take every image whose length 32 bits can count.
pub proof fn device_takes_every_image(config: Config, buffer: Seq<u8>)
    requires
        buffer.len() <= u32::MAX,
    ensures
        device_matches_in(config, buffer) is Some,
{
    let min = config.min_str_len as nat;
    let positions = strings::string_positions(buffer, min);
    Seq::new(buffer.len(), |i: int| i).lemma_filter_len(
        |start: int| strings::string_starts_at(buffer, min, start),
    );
    positions.lemma_cardinality_of_set();
    let values = pointer_values(buffer, config.big_endian);
    lemma_words_fit(buffer, config.big_endian);
    let kept = job::kept_pointers(positions.to_set(), config.offset, values);
    vstd::set_lib::lemma_len_subset(kept, values);
}

/// In an image that 32-bit positions can address, the search on a device finds the same
/// matches as the search over the intervals of the threads, and each of them once.
pub proof fn engines_agree_on_an_image(config: Config, buffer: Seq<u8>, x: (usize, u32))
    requires
        config.wf(),
        buffer.len() <= 0x1_0000_0000,
    ensures
        device_matches_in(config, buffer) matches Some(found) ==> {
            &&& found.contains(x) <==> cpu_matches_in(config, buffer).contains(x)
            &&& found.count(x) <= 1
            &&& config.threads == 1 ==> found.count(x) == cpu_matches_in(config, buffer).count(x)
        },
{
    let min = config.min_str_len as nat;
    let positions = strings::string_positions(buffer, min);
    let values = pointer_values(buffer, config.big_endian);
    strings::strings_ascend(buffer, min);
    opencl::device_search_agrees_with_cpu_search(
        positions,
        values,
        config.threads as int,
        config.offset,
        x,
    );
}

/// The pointers of an image are its words, the last of which lies wholly inside it.
pub proof fn pointer_values_are_the_words(buffer: Seq<u8>, big_endian: bool, value: u32)
    ensures
        pointer_values(buffer, big_endian).contains(value) <==> exists|at: int|
            0 <= at && at % 4 == 0 && at + 4 <= buffer.len() && value as int == if big_endian {
                0x100_0000 * #[trigger] buffer[at] + 0x1_0000 * buffer[at + 1] + 0x100 * buffer[at
                    + 2] + buffer[at + 3]
            } else {
                buffer[at] + 0x100 * buffer[at + 1] + 0x1_0000 * buffer[at + 2] + 0x100_0000
                    * buffer[at + 3]
            },
{
    pointers::pointers_are_the_words(buffer, big_endian, value);
}

/// What a search finds in an image that 32-bit positions can address: the multiples of the
/// offset at which some string lies where a pointer points, each with the number of strings
/// that do. This is so for the search on the CPU, however many threads there are, and for that
/// on a device.
pub proof fn candidates_found_explain_strings(
    config: Config,
    buffer: Seq<u8>,
    count: usize,
    addr: u32,
)
    requires
        config.wf(),
        buffer.len() <= 0x1_0000_0000,
    ensures
        ({
            let positions = strings::string_positions(buffer, config.min_str_len as nat);
            let values = pointer_values(buffer, config.big_endian);
            let explained = Set::new(
                |p: u32|
                    positions.contains(p) && p + addr <= u32::MAX && values.contains(
                        (p + addr) as u32,
                    ),
            );
            let expected = addr as int % config.offset as int == 0 && count > 0 && count
                == explained.len();
            &&& cpu_matches_in(config, buffer).contains((count, addr)) <==> expected
            &&& device_matches_in(config, buffer) matches Some(found) ==> (found.contains(
                (count, addr),
            ) <==> expected)
        }),
{
    let min = config.min_str_len as nat;
    let positions = strings::string_positions(buffer, min);
    let values = pointer_values(buffer, config.big_endian);
    let explained = Set::new(
        |p: u32|
            positions.contains(p) && p + addr <= u32::MAX && values.contains((p + addr) as u32),
    );
    let f = scan::counts(positions, values);
    cpu::search_finds_the_multiples_with_hits(
        f,
        config.threads as int,
        config.offset,
        count,
        addr,
    );
    strings::strings_ascend(buffer, min);
    scan::ordered_strings_all_count(positions, values, addr);
    scan::hits_are_the_strings_at_pointers(positions.to_set(), values, addr);
    assert(explained =~= positions.to_set().filter(
        |s: u32| s + addr <= u32::MAX && values.contains((s + addr) as u32),
    ));
    scan::hits_are_bounded(positions.to_set(), values, addr);
    lemma_words_fit(buffer, config.big_endian);
    engines_agree_on_an_image(config, buffer, (count, addr));
}

/// An image that 32-bit positions can address has fewer pointers than 32 bits can count.
proof fn lemma_words_fit(buffer: Seq<u8>, big_endian: bool)
    requires
        buffer.len() <= 0x1_0000_0000,
    ensures
        pointer_values(buffer, big_endian).finite(),
        pointer_values(buffer, big_endian).len() <= u32::MAX,
{
    let n = buffer.len() as int / 4;
    let listed = Seq::new(n as nat, |i: int| pointers::word(buffer, big_endian, i));
    let values = pointer_values(buffer, big_endian);
    listed.lemma_cardinality_of_set();
    assert(listed.to_set() =~= values) by {
        assert forall|v: u32| values.contains(v) implies listed.contains(v) by {
            let i = choose|i: int|
                0 <= i < n && v == #[trigger] pointers::word(buffer, big_endian, i);
            assert(listed[i] == v);
        }
    }
}

/// The lines report as many matches as were asked for, or all there are, with the most hits
/// first and none left out that has more. Each line reads back: eight hexadecimal digits behind
/// `0x` give the address, and the decimal digits at the end give the hits.
pub proof fn lines_report_the_most_hits(
    all: Multiset<(usize, u32)>,
    max: nat,
    lines: Seq<String>,
) -> (top: Seq<(usize, u32)>)
    requires
        reports_top(all, max, lines),
    ensures
        top.len() == lines.len(),
        max <= all.len() ==> lines.len() == max,
        max >= all.len() ==> lines.len() == all.len(),
        forall|x: (usize, u32)| #[trigger] top.to_multiset().count(x) <= all.count(x),
        forall|i: int, j: int|
            0 <= i < j < top.len() ==> (#[trigger] top[i]).0 > (#[trigger] top[j]).0 || (top[i].0
                == top[j].0 && top[i].1 >= top[j].1),
        forall|x: (usize, u32), i: int|
            all.count(x) > #[trigger] top.to_multiset().count(x) && 0 <= i < top.len() ==> (
            #[trigger] top[i]).0 > x.0 || (top[i].0 == x.0 && top[i].1 >= x.1),
        forall|i: int|
            0 <= i < lines.len() ==> {
                let line = (#[trigger] lines[i])@;
                &&& line.len() > 12
                &&& line.take(2) == seq!['0', 'x']
                &&& parse::digits_value(line.subrange(2, 10), 16) == Some(top[i].1 as nat)
                &&& line.subrange(10, 12) == seq![':', ' ']
                &&& parse::digits_value(line.skip(12), 10) == Some(top[i].0 as nat)
            },
{
    let top = choose|top: Seq<(usize, u32)>| #[trigger]
        report::is_top(all, max, top) && lines.len() == top.len() && forall|i: int|
            0 <= i < lines.len() ==> (#[trigger] lines[i])@ == text::report_line(
                top[i].1,
                top[i].0,
            );
    report::top_lists_the_most_hits(all, max, top);
    assert forall|i: int| 0 <= i < lines.len() implies {
        let line = (#[trigger] lines[i])@;
        &&& line.len() > 12
        &&& line.take(2) == seq!['0', 'x']
        &&& parse::digits_value(line.subrange(2, 10), 16) == Some(top[i].1 as nat)
        &&& line.subrange(10, 12) == seq![':', ' ']
        &&& parse::digits_value(line.skip(12), 10) == Some(top[i].0 as nat)
    } by {
        text::line_reads_back(top[i].1, top[i].0);
    }
    top
}

/// The CPU can search with all settings that are right, as long as the last address and the
/// number of threads add up in 64 bits, and with no thread at all.
pub proof fn right_settings_can_be_searched(config: Config)
    ensures
        config.offset > 0 && config.offset & ((config.offset - 1) as u32) == 0 && config.threads
            + u32::MAX <= u64::MAX ==> cpu_can_search(config),
        config.threads == 0 ==> cpu_can_search(config),
{
    bits::power_of_two_clears_with_its_predecessor(config.offset);
}

} // verus!
