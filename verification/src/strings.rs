//! The strings of the image: runs of printable bytes that a zero byte ends.

use vstd::prelude::*;
use vstd::string::StringExecFns;

use crate::config::Config;
use crate::parse;
use crate::text;

verus! {

/// A byte that a string may hold: printable ASCII, tab, carriage return or line feed.
pub open spec fn is_text_byte(b: u8) -> bool {
    0x20 <= b <= 0x7e || b == 0x09 || b == 0x0d || b == 0x0a
}

/// Whether `image[start..end]` is at least `min` text bytes followed by one zero byte.
pub open spec fn is_match(image: Seq<u8>, min: nat, start: int, end: int) -> bool {
    &&& 0 <= start
    &&& start + min < end <= image.len()
    &&& forall|i: int| start <= i < end - 1 ==> is_text_byte(#[trigger] image[i])
    &&& image[end - 1] == 0
}

/// Whether a string of at least `min` bytes starts at `start`: the bytes from there up to
/// some zero byte are text, and the byte before is not.
pub open spec fn string_starts_at(image: Seq<u8>, min: nat, start: int) -> bool {
    &&& exists|end: int| is_match(image, min, start, end)
    &&& start > 0 ==> !is_text_byte(image[start - 1])
}

/// Where the strings of at least `min` bytes start, in ascending order.
pub open spec fn string_starts(image: Seq<u8>, min: nat) -> Seq<int> {
    Seq::new(image.len(), |i: int| i).filter(|start: int| string_starts_at(image, min, start))
}

/// The low 32 bits of a position in the image.
pub open spec fn low_bits(position: int) -> u32 {
    (position % 0x1_0000_0000) as u32
}

/// The positions at which the strings of at least `min` bytes start, as 32-bit numbers.
pub open spec fn string_positions(image: Seq<u8>, min: nat) -> Seq<u32> {
    string_starts(image, min).map_values(|start: int| low_bits(start))
}

/// The regular expression for a string of at least `min` bytes with its final zero byte.
pub open spec fn string_pattern(min: nat) -> Seq<char> {
    "[ -~\\t\\r\\n]{"@ + text::decimal(min) + ",}\0"@
}

/// How many bytes the expression for strings of at least `min` bytes takes while it compiles.
///
/// Each byte of the minimum takes two states, an empty one and a sparse one with three ranges
/// of eight bytes each; a minimum of zero takes as much as one of one. Eight more states go
/// with them: three that skip to the start of a match, the two ends of the match, the loop,
/// the zero byte and the final state. Their lists take another 24 bytes: the range that skips,
/// and two successors of four bytes each for the skip and for the loop. A state takes four
/// machine words.
pub open spec fn compiled_size(min: nat) -> nat {
    let state: nat = if usize::BITS == 64 {
        32
    } else {
        16
    };
    let copies: nat = if min == 0 {
        1
    } else {
        min
    };
    (2 * copies + 8) * state + 24 * copies + 24
}

/// Whether the expression for strings of at least `min` bytes compiles: its program fits into
/// ten mebibytes.
pub open spec fn minimum_compiles(min: nat) -> bool {
    compiled_size(min) <= 10 * 0x10_0000
}

/// The minimum lengths that compile are those up to a largest one, which depends only on the
/// width of the machine's words.
pub proof fn largest_minimum(min: nat)
    ensures
        minimum_compiles(min) <==> min <= if usize::BITS == 64 {
            119_153nat
        } else {
            187_243nat
        },
{
}

/// Where the search for match `k` begins: where the match before it ended.
pub open spec fn resume_at(spans: Seq<(usize, usize)>, k: int) -> int {
    if k <= 0 {
        0
    } else {
        spans[k - 1].1 as int
    }
}

/// Whether `spans` are the successive matches that do not overlap: each is the first match
/// that starts at or after the end of the one before, and none follows the last.
pub open spec fn successive_matches(image: Seq<u8>, min: nat, spans: Seq<(usize, usize)>) -> bool {
    &&& forall|k: int|
        0 <= k < spans.len() ==> #[trigger] resume_at(spans, k) <= spans[k].0
    &&& forall|k: int|
        0 <= k < spans.len() ==> is_match(
            image,
            min,
            (#[trigger] spans[k]).0 as int,
            spans[k].1 as int,
        )
    &&& forall|k: int, start: int, end: int|
        0 <= k <= spans.len() && #[trigger] resume_at(spans, k) <= start && (k < spans.len()
            ==> start < spans[k].0) ==> !#[trigger] is_match(image, min, start, end)
}

/// Why no strings can be searched for.
pub enum SearchError {
    /// The minimum length makes a regular expression that cannot be compiled.
    Pattern(regex::Error),
    /// The image holds no string.
    NoStrings,
}

impl SearchError {
    /// What to tell the user, where there is more to tell than the error of the expression
    /// itself.
    pub fn message(&self) -> (r: Option<&'static str>)
        ensures
            match *self {
                SearchError::Pattern(_) => r is None,
                SearchError::NoStrings => r is Some && r->Some_0@
                    == "No strings found in target binary"@,
            },
    {
        match self {
            SearchError::Pattern(_) => None,
            SearchError::NoStrings => Some("No strings found in target binary"),
        }
    }
}

/// The error with which a regular expression is refused.
#[verifier::external_type_specification]
#[verifier::external_body]
pub struct ExRegexError(regex::Error);

/// `regex::bytes::Regex::new` and `Regex::find_iter`, on the expression for strings: where the
/// expression compiles, the iterator yields the successive matches that do not overlap, each
/// one the first from the end of the one before. At a given start the expression can match in
/// one way only, since its repeated class does not hold the zero byte that must follow.
/// The expression is refused exactly where its program is above the default limit of ten
/// mebibytes, measured while the program for the forward search is built: the one for the
/// backward search is the same but for the two ends of the match, and what else is built is
/// left out where it is too large. A minimum above `u32::MAX` is refused before that, as a
/// repetition count that does not fit. What the image holds does not matter.
#[verifier::external_body]
fn find_spans(pattern: &str, image: &[u8]) -> (r: Result<Vec<(usize, usize)>, regex::Error>)
    requires
        exists|min: nat| pattern@ == #[trigger] string_pattern(min),
    ensures
        r matches Ok(spans) ==> forall|min: nat|
            pattern@ == #[trigger] string_pattern(min) ==> successive_matches(
                image@,
                min,
                spans@,
            ),
        forall|min: nat|
            pattern@ == #[trigger] string_pattern(min) ==> (r is Ok <==> minimum_compiles(min)),
{
    let expression = regex::bytes::Regex::new(pattern)?;
    Ok(expression.find_iter(image).map(|m| (m.start(), m.end())).collect())
}

spec fn increasing(s: Seq<int>) -> bool {
    forall|i: int, j: int| 0 <= i < j < s.len() ==> s[i] < s[j]
}

/// Two increasing sequences with the same elements are the same.
proof fn lemma_increasing_unique(a: Seq<int>, b: Seq<int>)
    requires
        increasing(a),
        increasing(b),
        forall|x: int| a.contains(x) <==> b.contains(x),
    ensures
        a == b,
    decreases a.len(),
{
    if a.len() == 0 {
        if b.len() > 0 {
            assert(b.contains(b[0]));
        }
        assert(a =~= b);
    } else {
        assert(a.contains(a.last()));
        let at = choose|i: int| 0 <= i < b.len() && b[i] == a.last();
        assert(b.contains(b.last()));
        let back = choose|i: int| 0 <= i < a.len() && a[i] == b.last();
        assert(a.last() == b.last());
        let c = a.drop_last();
        let d = b.drop_last();
        assert forall|x: int| c.contains(x) <==> d.contains(x) by {
            if c.contains(x) {
                let i = choose|i: int| 0 <= i < c.len() && c[i] == x;
                assert(a[i] == x);
                assert(b.contains(x));
                let j = choose|j: int| 0 <= j < b.len() && b[j] == x;
                assert(d[j] == x);
            }
            if d.contains(x) {
                let i = choose|i: int| 0 <= i < d.len() && d[i] == x;
                assert(b[i] == x);
                assert(a.contains(x));
                let j = choose|j: int| 0 <= j < a.len() && a[j] == x;
                assert(c[j] == x);
            }
        }
        lemma_increasing_unique(c, d);
        assert(a =~= c.push(a.last()));
        assert(b =~= d.push(b.last()));
    }
}

/// The starts of the strings ascend, and they are all the places where a string starts.
proof fn lemma_string_starts(image: Seq<u8>, min: nat)
    ensures
        increasing(string_starts(image, min)),
        forall|s: int|
            #[trigger] string_starts(image, min).contains(s) <==> string_starts_at(image, min, s),
{
    let all = Seq::new(image.len(), |i: int| i);
    let pred = |start: int| string_starts_at(image, min, start);
    lemma_filter_increasing(all, pred);
    assert forall|s: int|
        #[trigger] string_starts(image, min).contains(s) <==> string_starts_at(image, min, s) by {
        if string_starts_at(image, min, s) {
            assert(all[s] == s);
            all.lemma_filter_contains(pred, s);
        }
        if string_starts(image, min).contains(s) {
            let f = all.filter(pred);
            let i = choose|i: int| 0 <= i < f.len() && f[i] == s;
            all.lemma_filter_pred(pred, i);
        }
    }
}

proof fn lemma_filter_increasing(s: Seq<int>, pred: spec_fn(int) -> bool)
    requires
        increasing(s),
    ensures
        increasing(s.filter(pred)),
    decreases s.len(),
{
    reveal(Seq::filter);
    if s.len() > 0 {
        let init = s.drop_last();
        lemma_filter_increasing(init, pred);
        let f = init.filter(pred);
        assert forall|i: int| 0 <= i < f.len() implies f[i] < s.last() by {
            assert(f.contains(f[i]));
            init.lemma_filter_contains_rev(pred, f[i]);
            let j = choose|j: int| 0 <= j < init.len() && init[j] == f[i];
            assert(s[j] < s[s.len() - 1]);
        }
    }
}

/// A place where a string starts is the start of a span from `k` on, if the search resumes
/// at or before it.
proof fn lemma_start_is_found(
    image: Seq<u8>,
    min: nat,
    spans: Seq<(usize, usize)>,
    start: int,
    k: int,
) -> (found: int)
    requires
        successive_matches(image, min, spans),
        string_starts_at(image, min, start),
        0 <= k <= spans.len(),
        resume_at(spans, k) <= start,
    ensures
        0 <= found < spans.len(),
        spans[found].0 == start,
    decreases spans.len() - k,
{
    let end = choose|end: int| is_match(image, min, start, end);
    assert(is_match(image, min, start, end));
    if k == spans.len() || start < spans[k].0 {
        assert(false);
        0
    } else if spans[k].0 == start {
        k
    } else {
        if start < spans[k].1 {
            assert(is_match(image, min, spans[k].0 as int, spans[k].1 as int));
            assert(is_text_byte(image[start - 1]));
        }
        assert(resume_at(spans, k + 1) <= start);
        lemma_start_is_found(image, min, spans, start, k + 1)
    }
}

/// The successive matches start exactly where the strings start.
pub proof fn matches_start_at_strings(image: Seq<u8>, min: nat, spans: Seq<(usize, usize)>)
    requires
        successive_matches(image, min, spans),
    ensures
        spans.map_values(|m: (usize, usize)| m.0 as int) == string_starts(image, min),
{
    let starts = spans.map_values(|m: (usize, usize)| m.0 as int);
    assert forall|i: int, j: int| 0 <= i < j < starts.len() implies starts[i] < starts[j] by {
        lemma_spans_ascend(image, min, spans, i, j);
    }
    assert forall|s: int| starts.contains(s) <==> string_starts_at(image, min, s) by {
        if starts.contains(s) {
            let k = choose|k: int| 0 <= k < starts.len() && starts[k] == s;
            assert(resume_at(spans, k) <= spans[k].0);
            let end = spans[k].1 as int;
            assert(is_match(image, min, s, end));
            if s > 0 && is_text_byte(image[s - 1]) {
                if k > 0 {
                    assert(is_match(image, min, spans[k - 1].0 as int, spans[k - 1].1 as int));
                }
                assert(resume_at(spans, k) <= s - 1);
                assert(is_match(image, min, s - 1, end));
            }
        }
        if string_starts_at(image, min, s) {
            let k = lemma_start_is_found(image, min, spans, s, 0);
            assert(starts[k] == s);
        }
    }
    lemma_string_starts(image, min);
    assert forall|x: int| starts.contains(x) <==> string_starts(image, min).contains(x) by {}
    lemma_increasing_unique(starts, string_starts(image, min));
}

proof fn lemma_spans_ascend(
    image: Seq<u8>,
    min: nat,
    spans: Seq<(usize, usize)>,
    i: int,
    j: int,
)
    requires
        successive_matches(image, min, spans),
        0 <= i < j < spans.len(),
    ensures
        spans[i].1 <= spans[j].0,
        spans[i].0 < spans[j].0,
    decreases j - i,
{
    assert(is_match(image, min, spans[i].0 as int, spans[i].1 as int));
    if j == i + 1 {
        assert(resume_at(spans, j) <= spans[j].0);
    } else {
        lemma_spans_ascend(image, min, spans, i, j - 1);
        lemma_spans_ascend(image, min, spans, j - 1, j);
    }
}

/// The 32-bit positions at which the spans found in an image start, or the reason why there
/// are none.
pub fn span_starts(found: Result<Vec<(usize, usize)>, regex::Error>) -> (r: Result<
    Vec<u32>,
    SearchError,
>)
    ensures
        match found {
            Ok(spans) => r is Ok && r->Ok_0@ == spans@.map_values(
                |m: (usize, usize)| low_bits(m.0 as int),
            ),
            Err(e) => r == Err::<Vec<u32>, SearchError>(SearchError::Pattern(e)),
        },
{
    let spans: Vec<(usize, usize)> = match found {
        Ok(spans) => spans,
        Err(e) => return Err(SearchError::Pattern(e)),
    };
    let mut strings: Vec<u32> = Vec::new();
    for i in 0..spans.len()
        invariant
            strings@ == spans@.take(i as int).map_values(
                |m: (usize, usize)| low_bits(m.0 as int),
            ),
    {
        let position: u64 = spans[i].0 as u64;
        assert(position as u32 == position % 0x1_0000_0000) by (bit_vector);
        strings.push(#[verifier::truncate] (position as u32));
        assert(spans@.take(i + 1) =~= spans@.take(i as int).push(spans@[i as int]));
        assert(strings@ =~= spans@.take(i + 1).map_values(
            |m: (usize, usize)| low_bits(m.0 as int),
        ));
    }
    assert(spans@.take(spans@.len() as int) =~= spans@);
    Ok(strings)
}

/// The regular expression for a string of at least `min` bytes with its final zero byte.
pub fn make_pattern(min: usize) -> (r: String)
    ensures
        r@ == string_pattern(min as nat),
{
    let mut pattern: String = String::new();
    pattern.append("[ -~\\t\\r\\n]{");
    text::append_decimal(&mut pattern, min);
    pattern.append(",}\0");
    assert(pattern@ =~= string_pattern(min as nat));
    pattern
}

/// The positions of the strings in the image, in ascending order, as 32-bit numbers. Only the
/// minimum length can be refused, never what the image holds.
pub fn get_strings(config: &Config, buffer: &[u8]) -> (r: Result<Vec<u32>, SearchError>)
    ensures
        match r {
            Ok(strings) => strings@ == string_positions(buffer@, config.min_str_len as nat),
            Err(e) => e is Pattern,
        },
        r is Ok <==> minimum_compiles(config.min_str_len as nat),
{
    let pattern: String = make_pattern(config.min_str_len);
    let found = find_spans(pattern.as_str(), buffer);
    proof {
        if found is Ok {
            let spans = found->Ok_0@;
            matches_start_at_strings(buffer@, config.min_str_len as nat, spans);
            assert(string_positions(buffer@, config.min_str_len as nat) =~= spans.map_values(
                |m: (usize, usize)| low_bits(m.0 as int),
            ));
        }
    }
    span_starts(found)
}

/// In an image that 32-bit positions can address, the strings found ascend strictly.
pub proof fn strings_ascend(image: Seq<u8>, min: nat)
    requires
        image.len() <= 0x1_0000_0000,
    ensures
        forall|i: int, j: int|
            0 <= i < j < string_starts(image, min).len() ==> low_bits(string_starts(image, min)[i])
                < low_bits(string_starts(image, min)[j]),
{
    lemma_string_starts(image, min);
    let starts = string_starts(image, min);
    assert forall|i: int| 0 <= i < starts.len() implies low_bits(#[trigger] starts[i])
        == starts[i] by {
        assert(starts.contains(starts[i]));
    }
}

/// Asking for longer strings finds no string that asking for shorter ones does not find.
pub proof fn longer_minimum_finds_fewer(image: Seq<u8>, shorter: nat, longer: nat, start: int)
    requires
        shorter <= longer,
        string_starts(image, longer).contains(start),
    ensures
        string_starts(image, shorter).contains(start),
{
    lemma_string_starts(image, shorter);
    lemma_string_starts(image, longer);
    let end = choose|end: int| is_match(image, longer, start, end);
    assert(is_match(image, shorter, start, end));
}

/// Whether no string can cross the end of an image: it is empty or its last byte is no text.
pub open spec fn ends_outside_text(image: Seq<u8>) -> bool {
    image.len() == 0 || !is_text_byte(image.last())
}

/// Joining images keeps their strings: where no string can cross the border, the strings of
/// the joined image are those of the first, then those of the second, moved by the length of
/// the first.
pub proof fn joined_images_keep_their_strings(a: Seq<u8>, b: Seq<u8>, min: nat)
    requires
        ends_outside_text(a),
    ensures
        string_starts(a + b, min) == string_starts(a, min) + string_starts(b, min).map_values(
            |start: int| start + a.len(),
        ),
{
    let whole = string_starts(a + b, min);
    let first = string_starts(a, min);
    let second = string_starts(b, min);
    let moved = second.map_values(|start: int| start + a.len());
    lemma_string_starts(a, min);
    lemma_string_starts(b, min);
    lemma_string_starts(a + b, min);
    assert forall|i: int, j: int| 0 <= i < j < (first + moved).len() implies (first + moved)[i]
        < (first + moved)[j] by {
        if i < first.len() {
            assert(first.contains(first[i]));
        }
        if j >= first.len() {
            assert(second.contains(second[j - first.len()]));
        }
    }
    assert forall|s: int| whole.contains(s) <==> (first + moved).contains(s) by {
        lemma_joined_start(a, b, min, s);
        if first.contains(s) {
            let i = choose|i: int| 0 <= i < first.len() && first[i] == s;
            assert((first + moved)[i] == s);
        }
        if second.contains(s - a.len()) {
            let i = choose|i: int| 0 <= i < second.len() && second[i] == s - a.len();
            assert((first + moved)[first.len() + i] == s);
        }
        if (first + moved).contains(s) {
            let i = choose|i: int| 0 <= i < (first + moved).len() && (first + moved)[i] == s;
            if i < first.len() {
                assert(first.contains(first[i]));
            } else {
                assert(second.contains(second[i - first.len()]));
            }
        }
    }
    lemma_increasing_unique(whole, first + moved);
}

/// A string of the joined image starts where one of the first image does, or one of the
/// second after the move.
proof fn lemma_joined_start(a: Seq<u8>, b: Seq<u8>, min: nat, s: int)
    requires
        ends_outside_text(a),
    ensures
        string_starts_at(a + b, min, s) <==> string_starts_at(a, min, s) || string_starts_at(
            b,
            min,
            s - a.len(),
        ),
{
    let n = a.len() as int;
    let t = s - n;
    if string_starts_at(a + b, min, s) {
        let end = choose|end: int| is_match(a + b, min, s, end);
        if s < n {
            if end > n {
                assert(!is_text_byte((a + b)[n - 1]));
            }
            assert forall|i: int| s <= i < end - 1 implies is_text_byte(#[trigger] a[i]) by {
                assert((a + b)[i] == a[i]);
            }
            assert(is_match(a, min, s, end));
        } else {
            assert forall|i: int| s - n <= i < end - n - 1 implies is_text_byte(
                #[trigger] b[i],
            ) by {
                assert((a + b)[i + n] == b[i]);
            }
            assert(is_match(b, min, t, end - n));
        }
    }
    if string_starts_at(a, min, s) {
        let end = choose|end: int| is_match(a, min, s, end);
        assert(is_match(a + b, min, s, end));
    }
    if string_starts_at(b, min, t) {
        let end = choose|end: int| is_match(b, min, t, end);
        assert forall|i: int| s <= i < end + n - 1 implies is_text_byte(
            #[trigger] (a + b)[i],
        ) by {
            assert((a + b)[i] == b[i - n]);
        }
        assert(is_match(a + b, min, s, end + n));
        if s > n {
            assert((a + b)[s - 1] == b[s - n - 1]);
        } else if s > 0 {
            assert((a + b)[s - 1] == a.last());
        }
    }
}

/// The same of the positions found: those of the second image are moved by the length of the
/// first, in 32 bits, and without wrapping where 32-bit positions can address the joined
/// image.
pub proof fn joined_images_keep_their_positions(a: Seq<u8>, b: Seq<u8>, min: nat)
    requires
        ends_outside_text(a),
    ensures
        string_positions(a + b, min) == string_positions(a, min) + string_positions(
            b,
            min,
        ).map_values(|p: u32| low_bits(p + a.len())),
        a.len() + b.len() <= 0x1_0000_0000 ==> string_positions(a + b, min) == string_positions(
            a,
            min,
        ) + string_positions(b, min).map_values(|p: u32| (p + a.len()) as u32),
{
    joined_images_keep_their_strings(a, b, min);
    lemma_string_starts(b, min);
    let n = a.len() as int;
    let second = string_starts(b, min);
    let positions = string_positions(b, min);
    assert forall|i: int| 0 <= i < second.len() implies #[trigger] low_bits(positions[i] + n)
        == low_bits(second[i] + n) by {
        assert(second.contains(second[i]));
        vstd::arithmetic::div_mod::lemma_add_mod_noop(second[i], n, 0x1_0000_0000);
        vstd::arithmetic::div_mod::lemma_add_mod_noop(
            second[i] % 0x1_0000_0000,
            n,
            0x1_0000_0000,
        );
    }
    assert(string_positions(a + b, min) =~= string_positions(a, min) + positions.map_values(
        |p: u32| low_bits(p + a.len()),
    ));
    if n + b.len() <= 0x1_0000_0000 {
        assert forall|i: int| 0 <= i < positions.len() implies #[trigger] low_bits(
            positions[i] + n,
        ) == positions[i] + n by {
            assert(second.contains(second[i]));
        }
        assert(positions.map_values(|p: u32| low_bits(p + a.len())) =~= positions.map_values(
            |p: u32| (p + a.len()) as u32,
        ));
    }
}

/// A string starts exactly where text begins that a zero byte ends after at least `min` bytes:
/// the byte before, if there is one, is no text. Text is what lies from the space to the tilde,
/// and tab, line feed and carriage return.
pub proof fn strings_are_text_up_to_a_zero_byte(image: Seq<u8>, min: nat, start: int)
    ensures
        ({
            let text = |b: u8| 0x20 <= b <= 0x7e || b == 0x09 || b == 0x0a || b == 0x0d;
            string_starts(image, min).contains(start) <==> {
                &&& 0 <= start
                &&& start == 0 || !text(image[start - 1])
                &&& exists|zero: int|
                    start + min <= zero < image.len() && #[trigger] image[zero] == 0 && forall|
                        i: int,
                    |
                        start <= i < zero ==> text(#[trigger] image[i])
            }
        }),
{
    let text = |b: u8| 0x20 <= b <= 0x7e || b == 0x09 || b == 0x0a || b == 0x0d;
    lemma_string_starts(image, min);
    if string_starts_at(image, min, start) {
        let end = choose|end: int| is_match(image, min, start, end);
        let zero = end - 1;
        assert(image[zero] == 0);
        assert forall|i: int| start <= i < zero implies text(#[trigger] image[i]) by {
            assert(is_text_byte(image[i]));
        }
    }
    if 0 <= start && (start == 0 || !text(image[start - 1])) && exists|zero: int|
        start + min <= zero < image.len() && #[trigger] image[zero] == 0 && forall|i: int|
            start <= i < zero ==> text(#[trigger] image[i]) {
        let zero = choose|zero: int|
            start + min <= zero < image.len() && #[trigger] image[zero] == 0 && forall|i: int|
                start <= i < zero ==> text(#[trigger] image[i]);
        assert forall|i: int| start <= i < zero + 1 - 1 implies is_text_byte(
            #[trigger] image[i],
        ) by {
            assert(text(image[i]));
        }
        assert(is_match(image, min, start, zero + 1));
    }
}

/// The starts of the strings ascend, and a position is the start it stands for, up to a
/// multiple of 2^32.
pub proof fn positions_are_the_starts_in_order(image: Seq<u8>, min: nat)
    ensures
        string_positions(image, min).len() == string_starts(image, min).len(),
        forall|i: int, j: int|
            0 <= i < j < string_starts(image, min).len() ==> string_starts(image, min)[i]
                < string_starts(image, min)[j],
        forall|i: int|
            0 <= i < string_starts(image, min).len() ==> 0 <= #[trigger] string_starts(
                image,
                min,
            )[i] && string_positions(image, min)[i] == string_starts(image, min)[i]
                % 0x1_0000_0000,
{
    lemma_string_starts(image, min);
    let starts = string_starts(image, min);
    assert forall|i: int| 0 <= i < starts.len() implies 0 <= #[trigger] starts[i]
        && string_positions(image, min)[i] == starts[i] % 0x1_0000_0000 by {
        assert(starts.contains(starts[i]));
    }
}

/// The character that a backslash and a letter stand for in a class.
pub open spec fn escaped(letter: char) -> char {
    if letter == 't' {
        '\t'
    } else if letter == 'r' {
        '\r'
    } else if letter == 'n' {
        '\n'
    } else {
        letter
    }
}

/// Whether a class of a regular expression holds a character. `body` is what stands between its
/// brackets: escaped characters, ranges and single characters, one behind the other.
pub open spec fn class_holds(body: Seq<char>, c: char) -> bool
    decreases body.len(),
{
    if body.len() == 0 {
        false
    } else if body[0] == '\\' && body.len() >= 2 {
        escaped(body[1]) == c || class_holds(body.skip(2), c)
    } else if body.len() >= 3 && body[1] == '-' {
        body[0] <= c <= body[2] || class_holds(body.skip(3), c)
    } else {
        body[0] == c || class_holds(body.skip(1), c)
    }
}

/// Whether a regular expression is a class that is repeated a number of times or more, and
/// then one character.
pub open spec fn is_repeated_class(
    expression: Seq<char>,
    body: Seq<char>,
    digits: Seq<char>,
    last: char,
) -> bool {
    &&& expression == seq!['['] + body + seq![']', '{'] + digits + seq![',', '}', last]
    &&& !body.contains(']')
}

/// Whether a regular expression of a repeated class and one character matches the bytes.
pub open spec fn matches_bytes(expression: Seq<char>, bytes: Seq<u8>) -> bool {
    exists|body: Seq<char>, digits: Seq<char>, last: char| #[trigger]
        is_repeated_class(expression, body, digits, last) && parse::digits_value(digits, 10)
            is Some && bytes.len() > parse::digits_value(digits, 10)->Some_0 && bytes.last()
            == last as u8 && forall|i: int|
            0 <= i < bytes.len() - 1 ==> class_holds(body, (#[trigger] bytes[i]) as char)
}

/// The class of the expression: what stands between its brackets.
proof fn lemma_class(c: char) -> (body: Seq<char>)
    ensures
        body == seq![' ', '-', '~', '\\', 't', '\\', 'r', '\\', 'n'],
        !body.contains(']'),
        class_holds(body, c) <==> 0x20 <= c as int <= 0x7e || c as int == 0x09 || c as int == 0x0a
            || c as int == 0x0d,
{
    let body = seq![' ', '-', '~', '\\', 't', '\\', 'r', '\\', 'n'];
    reveal_with_fuel(class_holds, 5);
    assert(body.skip(3) =~= seq!['\\', 't', '\\', 'r', '\\', 'n']);
    assert(body.skip(3).skip(2) =~= seq!['\\', 'r', '\\', 'n']);
    assert(body.skip(3).skip(2).skip(2) =~= seq!['\\', 'n']);
    assert(body.skip(3).skip(2).skip(2).skip(2) =~= Seq::<char>::empty());
    body
}

/// The expression for strings is a class, repeated, and a zero. The class holds the characters
/// from the space to the tilde, tab, line feed and carriage return, and no other; the number of
/// repetitions is the minimum length, in decimal digits.
pub proof fn pattern_is_a_repeated_class_of_text(min: nat, c: char) -> (parts: (
    Seq<char>,
    Seq<char>,
))
    ensures
        is_repeated_class(string_pattern(min), parts.0, parts.1, '\0'),
        class_holds(parts.0, c) <==> 0x20 <= c as int <= 0x7e || c as int == 0x09 || c as int
            == 0x0a || c as int == 0x0d,
        parse::digits_value(parts.1, 10) == Some(min),
        parts.1.len() > 0,
{
    reveal_strlit("[ -~\\t\\r\\n]{");
    reveal_strlit(",}\0");
    let body = lemma_class(c);
    let digits = text::decimal(min);
    text::count_reads_back(min);
    text::decimal_grows_by_its_last_digit(min);
    assert(string_pattern(min) =~= seq!['['] + body + seq![']', '{'] + digits + seq![
        ',',
        '}',
        '\0',
    ]);
    (body, digits)
}

/// What an expression repeats, how often and what follows is read off its text in one way only.
proof fn lemma_parts_are_determined(
    expression: Seq<char>,
    body: Seq<char>,
    digits: Seq<char>,
    last: char,
    other_body: Seq<char>,
    other_digits: Seq<char>,
    other_last: char,
)
    requires
        is_repeated_class(expression, body, digits, last),
        is_repeated_class(expression, other_body, other_digits, other_last),
    ensures
        body == other_body,
        digits == other_digits,
        last == other_last,
{
    let m = body.len() as int;
    let n = other_body.len() as int;
    assert(expression[1 + m] == ']');
    assert(expression[1 + n] == ']');
    if m < n {
        assert(other_body[m] == expression[1 + m]);
    }
    if n < m {
        assert(body[n] == expression[1 + n]);
    }
    assert forall|i: int| 0 <= i < m implies body[i] == other_body[i] by {
        assert(body[i] == expression[1 + i]);
        assert(other_body[i] == expression[1 + i]);
    }
    assert(body =~= other_body);
    assert(expression.len() == m + digits.len() + 6);
    assert(expression.len() == n + other_digits.len() + 6);
    assert forall|i: int| 0 <= i < digits.len() implies digits[i] == other_digits[i] by {
        assert(digits[i] == expression[m + 3 + i]);
        assert(other_digits[i] == expression[m + 3 + i]);
    }
    assert(digits =~= other_digits);
    assert(expression.last() == last);
    assert(expression.last() == other_last);
}

/// Read as a regular expression, the expression for strings matches exactly what is a match in
/// the image.
pub proof fn pattern_matches_strings(min: nat, image: Seq<u8>, start: int, end: int)
    requires
        0 <= start <= end <= image.len(),
    ensures
        matches_bytes(string_pattern(min), image.subrange(start, end)) <==> is_match(
            image,
            min,
            start,
            end,
        ),
{
    let bytes = image.subrange(start, end);
    let expression = string_pattern(min);
    let body = lemma_class(' ');
    let digits = text::decimal(min);
    text::count_reads_back(min);
    assert(is_repeated_class(expression, body, digits, '\0')) by {
        reveal_strlit("[ -~\\t\\r\\n]{");
        reveal_strlit(",}\0");
        assert(expression =~= seq!['['] + body + seq![']', '{'] + digits + seq![',', '}', '\0']);
    }
    assert forall|b: u8| class_holds(body, b as char) <==> is_text_byte(b) by {
        let same = lemma_class(b as char);
    }
    if matches_bytes(expression, bytes) {
        let (b, d, l) = choose|b: Seq<char>, d: Seq<char>, l: char| #[trigger]
            is_repeated_class(expression, b, d, l) && parse::digits_value(d, 10) is Some
                && bytes.len() > parse::digits_value(d, 10)->Some_0 && bytes.last() == l as u8
                && forall|i: int|
                0 <= i < bytes.len() - 1 ==> class_holds(b, (#[trigger] bytes[i]) as char);
        lemma_parts_are_determined(expression, body, digits, '\0', b, d, l);
        assert forall|i: int| start <= i < end - 1 implies is_text_byte(#[trigger] image[i]) by {
            assert(bytes[i - start] == image[i]);
            assert(class_holds(body, bytes[i - start] as char));
        }
        assert(bytes.last() == image[end - 1]);
    }
    if is_match(image, min, start, end) {
        assert(bytes.last() == image[end - 1]);
        assert forall|i: int| 0 <= i < bytes.len() - 1 implies class_holds(
            body,
            (#[trigger] bytes[i]) as char,
        ) by {
            assert(bytes[i] == image[start + i]);
            assert(is_text_byte(image[start + i]));
        }
        assert(is_repeated_class(expression, body, digits, '\0'));
        assert('\0' as u8 == 0);
    }
}

} // verus!
