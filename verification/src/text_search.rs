//! Search of known route names inside a document.
use vstd::prelude::*;
use vstd::string::StringSliceAdditionalSpecFns;
use vstd::utf8::{
    char_is_scalar, decode_utf8, decode_utf8_encode_utf8, encode_scalar, encode_utf8, encode_utf8_decode_utf8,
    encode_utf8_first_scalar, encode_utf8_valid_utf8, has_width_1_encoding, has_width_2_encoding,
    has_width_3_encoding, is_char_boundary, is_char_boundary_iff_not_is_continuation_byte,
    is_char_boundary_start_end_of_seq, is_continuation_byte, length_of_first_scalar, pop_first_scalar,
    valid_first_scalar, valid_utf8, valid_utf8_split,
};

use aho_corasick::{AhoCorasick, MatchKind};

use crate::protocol::{LineCol, MatchPosition, RouteInfo, TextMatch};
use crate::route_index::{string_views, RouteIndex};

verus! {

/// Byte value of a line feed.
pub const LINE_FEED: u8 = 10;

/// Byte value of a single quote.
pub const SINGLE_QUOTE: u8 = 39;

/// Byte value of a double quote.
pub const DOUBLE_QUOTE: u8 = 34;

/// Number of line feeds among the first `k` bytes of `b`: the 0-indexed
/// line that byte offset `k` lies on.
pub open spec fn newline_count(b: Seq<u8>, k: int) -> nat
    decreases k,
{
    if k <= 0 {
        0
    } else {
        newline_count(b, k - 1) + if b[k - 1] == LINE_FEED { 1nat } else { 0nat }
    }
}

/// Byte offset at which the line holding offset `k` starts: one past the
/// last line feed before `k`, or 0 when there is none.
pub open spec fn line_start(b: Seq<u8>, k: int) -> int
    decreases k,
{
    if k <= 0 {
        0
    } else if b[k - 1] == LINE_FEED {
        k
    } else {
        line_start(b, k - 1)
    }
}

/// UTF-16 code units that byte `x` of a UTF-8 text stands for: none for a
/// continuation byte, two for the first byte of a four-byte sequence (a
/// character outside the Basic Multilingual Plane, a surrogate pair in
/// UTF-16), one for any other first byte.
pub open spec fn utf16_units_of_byte(x: u8) -> nat {
    if 0x80 <= x < 0xC0 {
        0
    } else if 0xF0 <= x {
        2
    } else {
        1
    }
}

/// Number of UTF-16 code units of the text whose UTF-8 bytes are `b`.
pub open spec fn utf16_units(b: Seq<u8>) -> nat
    decreases b.len(),
{
    if b.len() == 0 {
        0
    } else {
        utf16_units(b.drop_last()) + utf16_units_of_byte(b.last())
    }
}

/// Number of UTF-16 code units of the characters `cs`: two for a character
/// outside the Basic Multilingual Plane, one for any other.
pub open spec fn utf16_len(cs: Seq<char>) -> nat
    decreases cs.len(),
{
    if cs.len() == 0 {
        0
    } else {
        (if cs[0] as u32 >= 0x10000 { 2nat } else { 1nat }) + utf16_len(cs.drop_first())
    }
}

/// The UTF-16 code units of two byte sequences put together add up.
pub proof fn lemma_utf16_units_concat(a: Seq<u8>, c: Seq<u8>)
    ensures
        utf16_units(a + c) == utf16_units(a) + utf16_units(c),
    decreases c.len(),
{
    if c.len() == 0 {
        assert(a + c =~= a);
    } else {
        lemma_utf16_units_concat(a, c.drop_last());
        assert((a + c).drop_last() =~= a + c.drop_last());
        assert((a + c).last() == c.last());
    }
}

/// The UTF-8 bytes of one character count as the character's UTF-16 code
/// units.
proof fn lemma_utf16_units_of_char(c: char)
    ensures
        utf16_units(encode_scalar(c as u32)) == if c as u32 >= 0x10000 { 2nat } else { 1nat },
{
    let s = c as u32;
    char_is_scalar(c);
    let e = encode_scalar(s);
    reveal_with_fuel(utf16_units, 5);
    if has_width_1_encoding(s) {
        assert(((s & 0x7F) as u8) < 0x80) by (bit_vector)
            requires
                s <= 0x7F,
        ;
        assert(e.drop_last() =~= Seq::<u8>::empty());
    } else if has_width_2_encoding(s) {
        assert(0xC0 <= (0xC0u8 | ((s >> 6u32) & 0x1F) as u8) < 0xF0) by (bit_vector);
        assert(0x80 <= (0x80u8 | (s & 0x3F) as u8) < 0xC0) by (bit_vector);
        assert(e.drop_last().drop_last() =~= Seq::<u8>::empty());
    } else if has_width_3_encoding(s) {
        assert(0xC0 <= (0xE0u8 | ((s >> 12u32) & 0x0F) as u8) < 0xF0) by (bit_vector);
        assert(0x80 <= (0x80u8 | ((s >> 6u32) & 0x3F) as u8) < 0xC0) by (bit_vector);
        assert(0x80 <= (0x80u8 | (s & 0x3F) as u8) < 0xC0) by (bit_vector);
        assert(e.drop_last().drop_last().drop_last() =~= Seq::<u8>::empty());
    } else {
        assert(0xF0 <= (0xF0u8 | ((s >> 18u32) & 0x7) as u8)) by (bit_vector);
        assert(0x80 <= (0x80u8 | ((s >> 12u32) & 0x3F) as u8) < 0xC0) by (bit_vector);
        assert(0x80 <= (0x80u8 | ((s >> 6u32) & 0x3F) as u8) < 0xC0) by (bit_vector);
        assert(0x80 <= (0x80u8 | (s & 0x3F) as u8) < 0xC0) by (bit_vector);
        assert(e.drop_last().drop_last().drop_last().drop_last() =~= Seq::<u8>::empty());
    }
}

/// Law: counted over the UTF-8 bytes of a text, the UTF-16 code units are
/// those of the text's characters.
pub proof fn law_utf16_units_of_text(cs: Seq<char>)
    ensures
        utf16_units(encode_utf8(cs)) == utf16_len(cs),
    decreases cs.len(),
{
    if cs.len() > 0 {
        law_utf16_units_of_text(cs.drop_first());
        lemma_utf16_units_of_char(cs[0]);
        lemma_utf16_units_concat(encode_scalar(cs[0] as u32), encode_utf8(cs.drop_first()));
    }
}

/// Law: the UTF-16 code units counted over valid UTF-8 bytes are those of
/// the characters that the bytes encode.
pub proof fn law_utf16_units_of_valid_bytes(b: Seq<u8>)
    requires
        valid_utf8(b),
    ensures
        utf16_units(b) == utf16_len(decode_utf8(b)),
{
    decode_utf8_encode_utf8(b);
    law_utf16_units_of_text(decode_utf8(b));
}

/// A line that does not start the text starts just after a line feed.
proof fn lemma_line_start_after_line_feed(b: Seq<u8>, k: int)
    requires
        0 <= k <= b.len(),
    ensures
        0 <= line_start(b, k) <= k,
        line_start(b, k) > 0 ==> b[line_start(b, k) - 1] == LINE_FEED,
    decreases k,
{
    if k > 0 && b[k - 1] != LINE_FEED {
        lemma_line_start_after_line_feed(b, k - 1);
    }
}

/// Valid UTF-8 that begins with the encoding of some characters goes on with
/// valid UTF-8.
proof fn lemma_valid_after_encoded(cs: Seq<char>, r: Seq<u8>)
    requires
        valid_utf8(encode_utf8(cs) + r),
    ensures
        valid_utf8(r),
    decreases cs.len(),
{
    if cs.len() == 0 {
        assert(encode_utf8(cs) + r =~= r);
    } else {
        let e = encode_utf8(cs);
        let x = e + r;
        encode_utf8_first_scalar(cs);
        assert(x[0] == e[0]);
        assert(length_of_first_scalar(x) == length_of_first_scalar(e));
        assert(e == encode_scalar(cs[0] as u32) + encode_utf8(cs.drop_first()));
        assert(pop_first_scalar(x) =~= encode_utf8(cs.drop_first()) + r);
        lemma_valid_after_encoded(cs.drop_first(), r);
    }
}

/// In valid UTF-8, the bytes from `i` on begin with a character when they are
/// valid UTF-8 themselves and not empty: `i` is then a character boundary.
proof fn lemma_boundary_before_valid_rest(b: Seq<u8>, i: int)
    requires
        valid_utf8(b),
        0 <= i <= b.len(),
        valid_utf8(b.subrange(i, b.len() as int)),
    ensures
        is_char_boundary(b, i),
{
    if i == b.len() {
        is_char_boundary_start_end_of_seq(b);
    } else {
        let w = b.subrange(i, b.len() as int);
        assert(valid_first_scalar(w));
        assert(w[0] == b[i]);
        is_char_boundary_iff_not_is_continuation_byte(b, i);
    }
}

/// The span of an occurrence of non-empty characters in valid UTF-8 starts
/// and ends on character boundaries.
proof fn lemma_occurrence_boundaries(b: Seq<u8>, start: int, end: int, cs: Seq<char>)
    requires
        valid_utf8(b),
        0 <= start <= end <= b.len(),
        b.subrange(start, end) == encode_utf8(cs),
        cs.len() > 0,
    ensures
        is_char_boundary(b, start),
        is_char_boundary(b, end),
{
    encode_utf8_first_scalar(cs);
    assert(b[start] == encode_utf8(cs)[0]);
    is_char_boundary_iff_not_is_continuation_byte(b, start);
    valid_utf8_split(b, start);
    let w = b.subrange(start, b.len() as int);
    assert(w =~= encode_utf8(cs) + b.subrange(end, b.len() as int));
    lemma_valid_after_encoded(cs, b.subrange(end, b.len() as int));
    lemma_boundary_before_valid_rest(b, end);
}

/// In valid UTF-8, every line starts on a character boundary.
proof fn lemma_line_start_boundary(b: Seq<u8>, k: int)
    requires
        valid_utf8(b),
        0 <= k <= b.len(),
    ensures
        is_char_boundary(b, line_start(b, k)),
{
    lemma_line_start_after_line_feed(b, k);
    let ls = line_start(b, k);
    if ls == 0 {
        is_char_boundary_start_end_of_seq(b);
    } else {
        is_char_boundary_iff_not_is_continuation_byte(b, ls - 1);
        valid_utf8_split(b, ls - 1);
        let w = b.subrange(ls - 1, b.len() as int);
        assert(w[0] == LINE_FEED);
        assert(valid_first_scalar(w));
        assert(pop_first_scalar(w) =~= b.subrange(ls, b.len() as int));
        lemma_boundary_before_valid_rest(b, ls);
    }
}

/// The bytes between two character boundaries of valid UTF-8 are valid UTF-8.
proof fn lemma_valid_between_boundaries(b: Seq<u8>, i: int, j: int)
    requires
        valid_utf8(b),
        0 <= i <= j <= b.len(),
        is_char_boundary(b, i),
        is_char_boundary(b, j),
    ensures
        valid_utf8(b.subrange(i, j)),
{
    if i == j {
        assert(b.subrange(i, j) =~= Seq::<u8>::empty());
    } else {
        valid_utf8_split(b, j);
        let p = b.subrange(0, j);
        is_char_boundary_iff_not_is_continuation_byte(b, i);
        assert(p[i] == b[i]);
        is_char_boundary_iff_not_is_continuation_byte(p, i);
        valid_utf8_split(p, i);
        assert(p.subrange(i, j) =~= b.subrange(i, j));
    }
}

/// Law: in a text, the column of a non-empty occurrence's start and of its
/// end is the number of UTF-16 code units of the characters before it on its
/// line: the occurrence and the line start lie on character boundaries.
pub proof fn law_occurrence_columns_count_characters(content: Seq<char>, start: int, end: int, cs: Seq<char>)
    requires
        0 <= start <= end <= encode_utf8(content).len(),
        encode_utf8(content).subrange(start, end) == encode_utf8(cs),
        cs.len() > 0,
    ensures
        ({
            let b = encode_utf8(content);
            &&& is_char_boundary(b, start)
            &&& is_char_boundary(b, end)
            &&& utf16_units(b.subrange(line_start(b, start), start)) == utf16_len(
                decode_utf8(b.subrange(line_start(b, start), start)),
            )
            &&& utf16_units(b.subrange(line_start(b, end), end)) == utf16_len(
                decode_utf8(b.subrange(line_start(b, end), end)),
            )
        }),
{
    let b = encode_utf8(content);
    encode_utf8_valid_utf8(content);
    lemma_occurrence_boundaries(b, start, end, cs);
    lemma_line_start_boundary(b, start);
    lemma_line_start_boundary(b, end);
    lemma_line_start_after_line_feed(b, start);
    lemma_line_start_after_line_feed(b, end);
    lemma_valid_between_boundaries(b, line_start(b, start), start);
    lemma_valid_between_boundaries(b, line_start(b, end), end);
    law_utf16_units_of_valid_bytes(b.subrange(line_start(b, start), start));
    law_utf16_units_of_valid_bytes(b.subrange(line_start(b, end), end));
}

/// Number of UTF-16 code units of the text in bytes `from..to` of `bytes`.
/// A byte stands for at most two units, so the count fits in 128 bits.
pub fn utf16_units_between(bytes: &[u8], from: usize, to: usize) -> (n: u128)
    requires
        from <= to <= bytes@.len(),
    ensures
        n == utf16_units(bytes@.subrange(from as int, to as int)),
{
    let mut n: u128 = 0;
    let mut j: usize = from;
    while j < to
        invariant
            from <= j <= to <= bytes@.len(),
            n == utf16_units(bytes@.subrange(from as int, j as int)),
            n <= 2 * (j - from),
        decreases to - j,
    {
        let x = bytes[j];
        assert(bytes@.subrange(from as int, j + 1).drop_last() =~= bytes@.subrange(from as int, j as int));
        if x < 0x80 || x >= 0xC0 {
            if x >= 0xF0 {
                n = n + 2;
            } else {
                n = n + 1;
            }
        }
        j = j + 1;
    }
    n
}

/// The start offsets of the lines of the first `n` bytes of `b`: 0, then one
/// past every line feed, in increasing order.
pub open spec fn line_starts_upto(b: Seq<u8>, n: int) -> Seq<int>
    decreases n,
{
    if n <= 0 {
        seq![0int]
    } else if b[n - 1] == LINE_FEED {
        line_starts_upto(b, n - 1).push(n)
    } else {
        line_starts_upto(b, n - 1)
    }
}

/// The start offsets of all lines of `b`.
pub open spec fn line_starts(b: Seq<u8>) -> Seq<int> {
    line_starts_upto(b, b.len() as int)
}

/// Every element is smaller than the next one.
pub open spec fn strictly_increasing(s: Seq<usize>) -> bool {
    forall|i: int, j: int| 0 <= i < j < s.len() ==> s[i] < s[j]
}

/// Every element is at most the next one.
pub open spec fn non_decreasing(s: Seq<usize>) -> bool {
    forall|i: int, j: int| 0 <= i < j < s.len() ==> s[i] <= s[j]
}

/// `line` is the index of the last element of `starts` that is at most
/// `offset`, or 0 when no element is.
pub open spec fn is_line_of(starts: Seq<usize>, offset: int, line: int) -> bool {
    if starts.len() > 0 && starts[0] <= offset {
        &&& 0 <= line < starts.len()
        &&& starts[line] <= offset
        &&& line + 1 < starts.len() ==> offset < starts[line + 1]
    } else {
        line == 0
    }
}

/// The bytes just before `start` and at `end` are the same quote character,
/// either both `'` or both `"`.
pub open spec fn is_quoted(b: Seq<u8>, start: int, end: int) -> bool {
    &&& 0 < start
    &&& end < b.len()
    &&& {
        ||| b[start - 1] == SINGLE_QUOTE && b[end] == SINGLE_QUOTE
        ||| b[start - 1] == DOUBLE_QUOTE && b[end] == DOUBLE_QUOTE
    }
}

/// The line starts of a prefix are strictly increasing, begin at 0, end at
/// most at the prefix's length, and there is one more of them than there are
/// line feeds.
pub proof fn lemma_line_starts_shape(b: Seq<u8>, n: int)
    requires
        0 <= n <= b.len(),
    ensures
        line_starts_upto(b, n).len() == newline_count(b, n) + 1,
        line_starts_upto(b, n)[0] == 0,
        forall|i: int| 0 <= i < line_starts_upto(b, n).len() ==> 0 <= #[trigger] line_starts_upto(b, n)[i] <= n,
        forall|i: int, j: int|
            0 <= i < j < line_starts_upto(b, n).len() ==> line_starts_upto(b, n)[i] < line_starts_upto(b, n)[j],
    decreases n,
{
    if n > 0 {
        lemma_line_starts_shape(b, n - 1);
    }
}

/// The line start at index `newline_count(b, k)` is the start of the line
/// that holds offset `k`, and the following line start lies past `k`.
pub proof fn lemma_line_of_offset(b: Seq<u8>, n: int, k: int)
    requires
        0 <= k <= n <= b.len(),
    ensures
        line_starts_upto(b, n)[newline_count(b, k) as int] == line_start(b, k),
        newline_count(b, k) + 1 < line_starts_upto(b, n).len() ==> k < line_starts_upto(
            b,
            n,
        )[newline_count(b, k) + 1int],
        newline_count(b, k) < line_starts_upto(b, n).len(),
    decreases n,
{
    lemma_line_starts_shape(b, n);
    if k < n {
        lemma_line_of_offset(b, n - 1, k);
        lemma_line_starts_shape(b, n - 1);
    } else if n > 0 {
        lemma_line_of_offset(b, n - 1, n - 1);
        lemma_line_starts_shape(b, n - 1);
    }
}

/// Law: looking an offset of a text up in the text's line starts gives the
/// number of line feeds before the offset, and the line start found is the
/// offset just past the last of those line feeds.
pub proof fn law_line_of_offset_counts_line_feeds(b: Seq<u8>, starts: Seq<usize>, k: int, line: int)
    requires
        0 <= k <= b.len(),
        starts.len() == line_starts(b).len(),
        forall|i: int| 0 <= i < starts.len() ==> starts[i] == #[trigger] line_starts(b)[i],
        is_line_of(starts, k, line),
    ensures
        line == newline_count(b, k),
        starts[line] == line_start(b, k),
{
    let n = b.len() as int;
    lemma_line_starts_shape(b, n);
    lemma_line_of_offset(b, n, k);
    let c = newline_count(b, k) as int;
    assert(starts[0] == 0);
    assert(starts[c] <= k) by {
        lemma_line_start_le(b, k);
    }
    let ls = line_starts_upto(b, n);
    assert(ls == line_starts(b));
    if line < c {
        if line + 1 < c {
            assert(ls[line + 1] < ls[c]);
        }
        assert(starts[line + 1] <= starts[c]);
    } else if line > c {
        if c + 1 < line {
            assert(ls[c + 1] < ls[line]);
        }
        assert(starts[c + 1] <= starts[line]);
    }
}

/// A line starts at or before every offset in it.
pub proof fn lemma_line_start_le(b: Seq<u8>, k: int)
    requires
        0 <= k,
    ensures
        0 <= line_start(b, k) <= k,
    decreases k,
{
    if k > 0 {
        lemma_line_start_le(b, k - 1);
    }
}

/// Returns the byte offset of the start of each line (0-indexed).
pub fn compute_line_starts(text: &str) -> (starts: Vec<usize>)
    ensures
        starts@.len() == line_starts(text.spec_bytes()).len(),
        forall|i: int| 0 <= i < starts@.len() ==> starts@[i] == #[trigger] line_starts(text.spec_bytes())[i],
{
    let bytes = text.as_bytes();
    let ghost b = bytes@;
    let mut starts: Vec<usize> = Vec::new();
    starts.push(0);
    let mut i: usize = 0;
    while i < bytes.len()
        invariant
            b == bytes@,
            b == text.spec_bytes(),
            i <= bytes@.len(),
            starts@.len() == line_starts_upto(b, i as int).len(),
            forall|j: int| 0 <= j < starts@.len() ==> starts@[j] == #[trigger] line_starts_upto(b, i as int)[j],
        decreases bytes@.len() - i,
    {
        if bytes[i] == LINE_FEED {
            starts.push(i + 1);
        }
        i = i + 1;
    }
    starts
}

/// Binary search of `x` in `s` (`slice::binary_search`). For a sorted slice
/// it is believed, as the documentation says, that `Ok(i)` gives an index
/// holding `x`, and that `Err(i)` gives the index where `x` would be
/// inserted: everything before it is smaller, everything from it on larger.
/// Which of several equal elements is found is left unsaid, and so is
/// anything about an unsorted slice, for which the documentation calls the
/// result unspecified.
#[verifier::external_body]
fn search_sorted(s: &[usize], x: usize) -> (r: Result<usize, usize>)
    ensures
        non_decreasing(s@) ==> match r {
            Ok(i) => i < s@.len() && s@[i as int] == x,
            Err(i) => {
                &&& i <= s@.len()
                &&& forall|j: int| 0 <= j < i ==> s@[j] < x
                &&& forall|j: int| i <= j < s@.len() ==> x < s@[j]
            },
        },
{
    s.binary_search(&x)
}

/// Binary-search for the (0-indexed) line that contains `offset`.
///
/// For sorted line starts the result is the index of a line start at or
/// before `offset` whose successor, if any, is not before `offset`; it is 0
/// when there are no line starts or `offset` comes before the first. For
/// strictly increasing line starts it is the index of the last line start at
/// or before `offset`.
pub fn line_for_offset(line_starts: &[usize], offset: usize) -> (line: usize)
    ensures
        non_decreasing(line_starts@) ==> {
            &&& line_starts@.len() > 0 ==> line < line_starts@.len()
            &&& (line_starts@.len() == 0 || offset < line_starts@[0]) ==> line == 0
            &&& (line_starts@.len() > 0 && line_starts@[0] <= offset) ==> {
                &&& line_starts@[line as int] <= offset
                &&& line + 1 < line_starts@.len() ==> offset <= line_starts@[line + 1]
            }
        },
        strictly_increasing(line_starts@) ==> is_line_of(line_starts@, offset as int, line as int),
{
    match search_sorted(line_starts, offset) {
        Ok(line) => line,
        Err(next) => {
            if next == 0 {
                0
            } else {
                next - 1
            }
        },
    }
}

/// Returns `true` when the byte slice around `[start..end]` is bounded by
/// matching single (`'`) or double (`"`) quotes: `'route_name'` or
/// `"route_name"`. Mixed quotes (`'route_name"`) are rejected.
pub fn is_quote_bounded(bytes: &[u8], start: usize, end: usize) -> (r: bool)
    requires
        start <= bytes@.len() || end >= bytes@.len(),
    ensures
        r == is_quoted(bytes@, start as int, end as int),
{
    if start == 0 || end >= bytes.len() {
        return false;
    }
    let before = bytes[start - 1];
    let after = bytes[end];
    (before == SINGLE_QUOTE && after == SINGLE_QUOTE) || (before == DOUBLE_QUOTE && after
        == DOUBLE_QUOTE)
}


/// One match reported by the automaton: the index of the pattern that
/// matched and the byte span `[start, end)` of the match in the haystack.
#[derive(Debug, Clone, Copy)]
pub struct Hit {
    pub pattern: usize,
    pub start: usize,
    pub end: usize,
}

/// The automaton type of `aho_corasick`, opaque here.
#[verifier::external_type_specification]
#[verifier::external_body]
pub struct ExAhoCorasick(AhoCorasick);

/// The patterns, in order, that a leftmost-longest automaton was built from.
pub uninterp spec fn automaton_patterns(automaton: AhoCorasick) -> Seq<Seq<char>>;

/// Whether the automaton was built for leftmost-longest matching
/// (`AhoCorasick::match_kind` is `MatchKind::LeftmostLongest`).
pub uninterp spec fn uses_leftmost_longest(automaton: AhoCorasick) -> bool;

/// Whether a leftmost-longest automaton can be built from `patterns` within
/// the automaton's size limits.
pub uninterp spec fn leftmost_longest_buildable(patterns: Seq<Seq<char>>) -> bool;

/// The non-overlapping leftmost-longest matches of `patterns` in `haystack`,
/// in the order the automaton reports them.
pub uninterp spec fn leftmost_longest_matches(patterns: Seq<Seq<char>>, haystack: Seq<char>) -> Seq<Hit>;

/// Pattern `p` occurs in `b` at byte offset `at`.
pub open spec fn occurs_at(b: Seq<u8>, at: int, p: Seq<char>) -> bool {
    &&& 0 <= at
    &&& at + encode_utf8(p).len() <= b.len()
    &&& b.subrange(at, at + encode_utf8(p).len()) == encode_utf8(p)
}

/// No pattern that occurs where hit `h` starts is longer than the pattern
/// reported by `h`.
#[verifier::opaque]
pub open spec fn longest_at_start(patterns: Seq<Seq<char>>, b: Seq<u8>, h: Hit) -> bool {
    forall|p: int|
        0 <= p < patterns.len() && occurs_at(b, h.start as int, #[trigger] patterns[p])
            ==> encode_utf8(patterns[p]).len() <= h.end - h.start
}

/// Each hit names a pattern, lies within the haystack's bytes, and spans a
/// copy of its pattern's bytes; no pattern that also occurs at a hit's start
/// is longer than the pattern reported there; hits do not overlap and come
/// in increasing order.
pub open spec fn hits_fit(patterns: Seq<Seq<char>>, haystack: Seq<u8>, hits: Seq<Hit>) -> bool {
    &&& forall|i: int|
        0 <= i < hits.len() ==> {
            &&& (#[trigger] hits[i]).pattern < patterns.len()
            &&& hits[i].start <= hits[i].end <= haystack.len()
            &&& haystack.subrange(hits[i].start as int, hits[i].end as int) == encode_utf8(
                patterns[hits[i].pattern as int],
            )
            &&& longest_at_start(patterns, haystack, hits[i])
        }
    &&& forall|i: int| 0 <= i < hits.len() - 1 ==> (#[trigger] hits[i]).end <= hits[i + 1].start
}

/// Where the scan for hit `i` of `hits` starts: the end of the hit before,
/// or the start of the haystack for the first hit. For `i == hits.len()`,
/// where the scan after the last hit starts.
pub open spec fn scan_start(hits: Seq<Hit>, i: int) -> int {
    if i <= 0 {
        0
    } else {
        hits[i - 1].end as int
    }
}

/// No occurrence of a non-empty pattern was passed over: none starts where
/// the scan for a hit starts or between there and the hit's start, nor at or
/// after the end of the last hit. (Leftmost matching reports, from where the
/// scan starts, the earliest occurrence.)
pub open spec fn none_skipped(patterns: Seq<Seq<char>>, haystack: Seq<u8>, hits: Seq<Hit>) -> bool {
    forall|p: int, at: int, i: int|
        #![trigger occurs_at(haystack, at, patterns[p]), scan_start(hits, i)]
        0 <= p < patterns.len() && patterns[p].len() > 0 && occurs_at(haystack, at, patterns[p]) && 0 <= i
            <= hits.len() && scan_start(hits, i) <= at ==> i < hits.len() && hits[i].start <= at
}

/// Builds the automaton with leftmost-longest match semantics
/// (`AhoCorasickBuilder::build`). It is believed that the result is an
/// automaton exactly when the patterns fit the automaton's limits, and that
/// such an automaton holds the given patterns in the given order.
#[verifier::external_body]
fn build_leftmost_longest(patterns: &Vec<String>) -> (r: Option<AhoCorasick>)
    ensures
        r is Some == leftmost_longest_buildable(string_views(patterns@)),
        r matches Some(a) ==> automaton_patterns(a) == string_views(patterns@) && uses_leftmost_longest(a),
{
    AhoCorasick::builder().match_kind(MatchKind::LeftmostLongest).build(patterns).ok()
}

/// All non-overlapping matches of a leftmost-longest automaton in
/// `haystack` (`AhoCorasick::find_iter`). It is believed that the matches are
/// the named leftmost-longest matches of the automaton's patterns, that they
/// fit the haystack as `hits_fit` says, and that no occurrence of a
/// non-empty pattern was passed over, as `none_skipped` says. Which of two
/// equally long patterns is reported, and where empty patterns match, is
/// left unsaid.
#[verifier::external_body]
fn find_leftmost_longest(automaton: &AhoCorasick, haystack: &str) -> (hits: Vec<Hit>)
    requires
        uses_leftmost_longest(*automaton),
    ensures
        hits@ == leftmost_longest_matches(automaton_patterns(*automaton), haystack@),
        hits_fit(automaton_patterns(*automaton), haystack.spec_bytes(), hits@),
        none_skipped(automaton_patterns(*automaton), haystack.spec_bytes(), hits@),
{
    automaton.find_iter(haystack).map(
        |m| Hit { pattern: m.pattern().as_usize(), start: m.start(), end: m.end() },
    ).collect()
}

/// The hits whose span is enclosed in matching quotes, in order.
pub open spec fn quoted_hits(b: Seq<u8>, hits: Seq<Hit>) -> Seq<Hit>
    decreases hits.len(),
{
    if hits.len() == 0 {
        Seq::empty()
    } else {
        let rest = quoted_hits(b, hits.drop_last());
        if is_quoted(b, hits.last().start as int, hits.last().end as int) {
            rest.push(hits.last())
        } else {
            rest
        }
    }
}

/// The line and column of byte offset `k` of `b`, both 0-indexed and
/// truncated to 32 bits. The column counts UTF-16 code units from the start
/// of the line, as editor positions do.
pub open spec fn line_col_at(b: Seq<u8>, k: int) -> (u32, u32) {
    (newline_count(b, k) as u32, utf16_units(b.subrange(line_start(b, k), k)) as u32)
}

/// `m` reports hit `h` of the document `b`: its route is the hit's pattern,
/// its position is that of the hit's span, and its location is the one the
/// route has in `routes`.
pub open spec fn reports_hit(
    m: TextMatch,
    names: Seq<Seq<char>>,
    routes: Map<Seq<char>, RouteInfo>,
    b: Seq<u8>,
    h: Hit,
) -> bool {
    &&& m.route@ == names[h.pattern as int]
    &&& (m.position.start.line, m.position.start.col) == line_col_at(b, h.start as int)
    &&& (m.position.end.line, m.position.end.col) == line_col_at(b, h.end as int)
    &&& m.file == routes[names[h.pattern as int]]
}

/// `out` reports, one for one and in order, the quoted hits among `hits`.
pub open spec fn reports_quoted_hits(
    out: Seq<TextMatch>,
    names: Seq<Seq<char>>,
    routes: Map<Seq<char>, RouteInfo>,
    b: Seq<u8>,
    hits: Seq<Hit>,
) -> bool {
    &&& out.len() == quoted_hits(b, hits).len()
    &&& forall|i: int|
        0 <= i < out.len() ==> reports_hit(#[trigger] out[i], names, routes, b, quoted_hits(b, hits)[i])
}

/// Every hit names one of `n` patterns and lies within `len` bytes.
pub open spec fn hits_within(n: nat, len: nat, hits: Seq<Hit>) -> bool {
    forall|i: int|
        0 <= i < hits.len() ==> (#[trigger] hits[i]).pattern < n && hits[i].start <= hits[i].end
            <= len
}

/// Pre-compiled search engine that can be reused across multiple documents.
pub struct RouteSearcher {
    automaton: AhoCorasick,
    /// Route names in the same order as the patterns of the automaton.
    patterns: Vec<String>,
    route_info: RouteIndex,
}

impl RouteSearcher {
    #[verifier::type_invariant]
    spec fn inv(self) -> bool {
        &&& automaton_patterns(self.automaton) == string_views(self.patterns@)
        &&& uses_leftmost_longest(self.automaton)
        &&& string_views(self.patterns@).no_duplicates()
        &&& string_views(self.patterns@).to_set() == self.route_info@.dom()
    }

    /// The route names, in the order of the automaton's patterns.
    pub closed spec fn route_names(&self) -> Seq<Seq<char>> {
        string_views(self.patterns@)
    }

    /// The routes and their locations.
    pub closed spec fn routes(&self) -> Map<Seq<char>, RouteInfo> {
        self.route_info@
    }

    /// Builds the automaton from the current route index. Returns `None` when
    /// the index is empty or when the automaton cannot be built.
    pub fn new(route_index: &RouteIndex) -> (r: Option<RouteSearcher>)
        ensures
            r is None <==> (route_index@.len() == 0 || !leftmost_longest_buildable(route_index.names())),
            r matches Some(s) ==> s.routes() == route_index@ && s.route_names() == route_index.names(),
    {
        if route_index.is_empty() {
            return None;
        }
        let patterns = route_index.route_names();
        match build_leftmost_longest(&patterns) {
            Some(automaton) => {
                let route_info = route_index.duplicate();
                Some(RouteSearcher { automaton, patterns, route_info })
            },
            None => None,
        }
    }

    /// Finds every occurrence of any known route name inside `content` and
    /// returns one [`TextMatch`] per occurrence (same route may appear many
    /// times).
    pub fn search(&self, content: &str) -> (r: Vec<TextMatch>)
        ensures
            reports_quoted_hits(
                r@,
                self.route_names(),
                self.routes(),
                content.spec_bytes(),
                leftmost_longest_matches(self.route_names(), content@),
            ),
            hits_fit(
                self.route_names(),
                content.spec_bytes(),
                leftmost_longest_matches(self.route_names(), content@),
            ),
            none_skipped(
                self.route_names(),
                content.spec_bytes(),
                leftmost_longest_matches(self.route_names(), content@),
            ),
            self.route_names().to_set() == self.routes().dom(),
    {
        proof {
            use_type_invariant(self);
        }
        let hits = find_leftmost_longest(&self.automaton, content);
        self.report_hits(content, hits.as_slice())
    }

    /// Turns the hits of the automaton in `content` into matches: keeps the
    /// quoted ones, in order, and gives each its route, position and location.
    pub fn report_hits(&self, content: &str, hits: &[Hit]) -> (r: Vec<TextMatch>)
        requires
            hits_within(self.route_names().len(), content.spec_bytes().len(), hits@),
        ensures
            reports_quoted_hits(r@, self.route_names(), self.routes(), content.spec_bytes(), hits@),
    {
        proof {
            use_type_invariant(self);
        }
        let bytes = content.as_bytes();
        let ghost b = bytes@;
        let starts = compute_line_starts(content);
        proof {
            lemma_line_starts_shape(b, b.len() as int);
            assert forall|x: int, y: int| 0 <= x < y < starts@.len() implies starts@[x] < starts@[y] by {
                assert(starts@[x] == line_starts(b)[x]);
                assert(starts@[y] == line_starts(b)[y]);
            }
            assert(starts@[0] == line_starts(b)[0]);
        }
        let mut matches: Vec<TextMatch> = Vec::new();
        let mut i: usize = 0;
        while i < hits.len()
            invariant
                b == bytes@,
                b == content.spec_bytes(),
                i <= hits@.len(),
                hits_within(self.route_names().len(), b.len(), hits@),
                starts@.len() == line_starts(b).len(),
                forall|j: int| 0 <= j < starts@.len() ==> starts@[j] == #[trigger] line_starts(b)[j],
                strictly_increasing(starts@),
                starts@.len() > 0,
                starts@[0] == 0,
                string_views(self.patterns@).to_set() == self.route_info@.dom(),
                reports_quoted_hits(matches@, self.route_names(), self.routes(), b, hits@.take(i as int)),
            decreases hits@.len() - i,
        {
            let hit = hits[i];
            assert(hits@.take(i + 1).drop_last() =~= hits@.take(i as int));
            assert(hits@.take(i + 1).last() == hit);
            let route_name = &self.patterns[hit.pattern];
            assert(string_views(self.patterns@)[hit.pattern as int] == route_name@);
            assert(string_views(self.patterns@).to_set().contains(route_name@));
            match self.route_info.get(route_name.as_str()) {
                Some(info) => {
                    if is_quote_bounded(bytes, hit.start, hit.end) {
                        let start_line = line_for_offset(starts.as_slice(), hit.start);
                        proof {
                            law_line_of_offset_counts_line_feeds(b, starts@, hit.start as int, start_line as int);
                            lemma_line_start_le(b, hit.start as int);
                        }
                        let start_col = utf16_units_between(bytes, starts[start_line], hit.start);
                        let end_line = line_for_offset(starts.as_slice(), hit.end);
                        proof {
                            law_line_of_offset_counts_line_feeds(b, starts@, hit.end as int, end_line as int);
                            lemma_line_start_le(b, hit.end as int);
                        }
                        let end_col = utf16_units_between(bytes, starts[end_line], hit.end);
                        let m = TextMatch {
                            route: route_name.clone(),
                            position: MatchPosition {
                                start: LineCol { line: start_line as u32, col: start_col as u32 },
                                end: LineCol { line: end_line as u32, col: end_col as u32 },
                            },
                            file: info.duplicate(),
                        };
                        let ghost before = matches@;
                        matches.push(m);
                        assert(matches@ == before.push(m));
                    }
                },
                None => {},
            }
            i = i + 1;
        }
        assert(hits@.take(i as int) =~= hits@);
        matches
    }
}


/// Consecutive hits that do not overlap make all hits ordered: an earlier
/// hit ends at or before a later one starts.
pub proof fn lemma_hits_ordered(names: Seq<Seq<char>>, b: Seq<u8>, hits: Seq<Hit>)
    requires
        hits_fit(names, b, hits),
    ensures
        forall|j: int, k: int| 0 <= j < k < hits.len() ==> hits[j].end <= hits[k].start,
{
    assert forall|j: int, k: int| 0 <= j < k < hits.len() implies hits[j].end <= hits[k].start by {
        lemma_hits_ordered_from(names, b, hits, j, k);
    }
}

proof fn lemma_hits_ordered_from(names: Seq<Seq<char>>, b: Seq<u8>, hits: Seq<Hit>, j: int, k: int)
    requires
        hits_fit(names, b, hits),
        0 <= j < k < hits.len(),
    ensures
        hits[j].end <= hits[k].start,
    decreases k - j,
{
    assert(hits[j].end <= hits[j + 1].start);
    if j + 1 < k {
        lemma_hits_ordered_from(names, b, hits, j + 1, k);
        assert(hits[j + 1].start <= hits[j + 1].end);
    }
}

/// The quoted hits are quoted hits taken from `hits`.
pub proof fn lemma_quoted_hits_members(b: Seq<u8>, hits: Seq<Hit>)
    ensures
        forall|i: int|
            0 <= i < quoted_hits(b, hits).len() ==> #[trigger] hits.contains(quoted_hits(b, hits)[i])
                && is_quoted(b, quoted_hits(b, hits)[i].start as int, quoted_hits(b, hits)[i].end as int),
    decreases hits.len(),
{
    if hits.len() > 0 {
        let prefix = hits.drop_last();
        lemma_quoted_hits_members(b, prefix);
        let q = quoted_hits(b, hits);
        let qp = quoted_hits(b, prefix);
        assert forall|i: int| 0 <= i < q.len() implies #[trigger] hits.contains(q[i]) && is_quoted(
            b,
            q[i].start as int,
            q[i].end as int,
        ) by {
            if i < qp.len() {
                assert(prefix.contains(qp[i]));
                let j = choose|j: int| 0 <= j < prefix.len() && prefix[j] == qp[i];
                assert(hits[j] == q[i]);
            } else {
                assert(hits[hits.len() - 1] == q[i]);
            }
        }
    }
}

/// The quoted hits keep the order of `hits` when that is ordered.
pub proof fn lemma_quoted_hits_ordered(b: Seq<u8>, hits: Seq<Hit>)
    requires
        forall|j: int, k: int| 0 <= j < k < hits.len() ==> hits[j].end <= hits[k].start,
    ensures
        forall|j: int, k: int|
            0 <= j < k < quoted_hits(b, hits).len() ==> quoted_hits(b, hits)[j].end <= quoted_hits(
                b,
                hits,
            )[k].start,
    decreases hits.len(),
{
    if hits.len() > 0 {
        let prefix = hits.drop_last();
        lemma_quoted_hits_ordered(b, prefix);
        lemma_quoted_hits_members(b, prefix);
        let q = quoted_hits(b, hits);
        let qp = quoted_hits(b, prefix);
        assert forall|j: int, k: int| 0 <= j < k < q.len() implies q[j].end <= q[k].start by {
            if k < qp.len() {
            } else {
                assert(prefix.contains(qp[j]));
                let x = choose|x: int| 0 <= x < prefix.len() && prefix[x] == qp[j];
                assert(hits[x] == q[j]);
                assert(q[k] == hits[hits.len() - 1]);
            }
        }
    }
}

/// Hit `h` is a quoted occurrence of the route name of `m` in `b`, at the
/// position that `m` reports.
pub open spec fn is_reported_occurrence(b: Seq<u8>, h: Hit, m: TextMatch) -> bool {
    &&& is_quoted(b, h.start as int, h.end as int)
    &&& b.subrange(h.start as int, h.end as int) == encode_utf8(m.route@)
    &&& (m.position.start.line, m.position.start.col) == line_col_at(b, h.start as int)
    &&& (m.position.end.line, m.position.end.col) == line_col_at(b, h.end as int)
}

/// Law: every reported match is an occurrence of its route name in the
/// document, enclosed in matching quotes, and its position is the position
/// of that occurrence.
pub proof fn law_matches_are_quoted_occurrences(
    names: Seq<Seq<char>>,
    routes: Map<Seq<char>, RouteInfo>,
    b: Seq<u8>,
    hits: Seq<Hit>,
    out: Seq<TextMatch>,
)
    requires
        hits_fit(names, b, hits),
        reports_quoted_hits(out, names, routes, b, hits),
    ensures
        forall|i: int|
            0 <= i < out.len() ==> hits.contains(quoted_hits(b, hits)[i]) && is_reported_occurrence(
                b,
                quoted_hits(b, hits)[i],
                #[trigger] out[i],
            ),
{
    lemma_quoted_hits_members(b, hits);
    assert forall|i: int| 0 <= i < out.len() implies hits.contains(quoted_hits(b, hits)[i])
        && is_reported_occurrence(b, quoted_hits(b, hits)[i], #[trigger] out[i]) by {
        let h = quoted_hits(b, hits)[i];
        assert(hits.contains(h));
        let j = choose|j: int| 0 <= j < hits.len() && hits[j] == h;
        assert(reports_hit(out[i], names, routes, b, h));
        assert(hits[j].pattern < names.len());
    }
}

/// Law: the route reported for an occurrence is the longest route name that
/// occurs at the occurrence's start.
pub proof fn law_longest_route_wins(
    names: Seq<Seq<char>>,
    routes: Map<Seq<char>, RouteInfo>,
    b: Seq<u8>,
    hits: Seq<Hit>,
    out: Seq<TextMatch>,
)
    requires
        hits_fit(names, b, hits),
        reports_quoted_hits(out, names, routes, b, hits),
    ensures
        forall|i: int, p: int|
            #![trigger out[i], names[p]]
            0 <= i < out.len() && 0 <= p < names.len() && occurs_at(
                b,
                quoted_hits(b, hits)[i].start as int,
                names[p],
            ) ==> encode_utf8(names[p]).len() <= encode_utf8(out[i].route@).len(),
{
    lemma_quoted_hits_members(b, hits);
    assert forall|i: int, p: int|
        #![trigger out[i], names[p]]
        0 <= i < out.len() && 0 <= p < names.len() && occurs_at(
            b,
            quoted_hits(b, hits)[i].start as int,
            names[p],
        ) implies encode_utf8(names[p]).len() <= encode_utf8(out[i].route@).len() by {
        let h = quoted_hits(b, hits)[i];
        assert(hits.contains(h));
        let j = choose|j: int| 0 <= j < hits.len() && hits[j] == h;
        assert(reports_hit(out[i], names, routes, b, h));
        assert(longest_at_start(names, b, hits[j]));
        reveal(longest_at_start);
        assert(b.subrange(h.start as int, h.end as int) == encode_utf8(names[h.pattern as int]));
        assert(b.subrange(h.start as int, h.end as int).len() == h.end - h.start);
    }
}

/// Law: reported occurrences do not overlap and come in document order.
pub proof fn law_matches_in_document_order(
    names: Seq<Seq<char>>,
    routes: Map<Seq<char>, RouteInfo>,
    b: Seq<u8>,
    hits: Seq<Hit>,
    out: Seq<TextMatch>,
)
    requires
        hits_fit(names, b, hits),
        reports_quoted_hits(out, names, routes, b, hits),
    ensures
        forall|j: int, k: int|
            0 <= j < k < out.len() ==> quoted_hits(b, hits)[j].end <= quoted_hits(b, hits)[k].start,
{
    lemma_hits_ordered(names, b, hits);
    lemma_quoted_hits_ordered(b, hits);
}


/// The characters `cs` include neither a single nor a double quote.
pub open spec fn quote_free(cs: Seq<char>) -> bool {
    !cs.contains('\'') && !cs.contains('"')
}

/// No byte of the UTF-8 encoding of a character other than a quote is a
/// quote byte.
proof fn lemma_char_bytes_quote_free(c: char)
    requires
        c != '\'',
        c != '"',
    ensures
        forall|j: int|
            0 <= j < encode_scalar(c as u32).len() ==> #[trigger] encode_scalar(c as u32)[j] != SINGLE_QUOTE
                && encode_scalar(c as u32)[j] != DOUBLE_QUOTE,
{
    let s = c as u32;
    char_is_scalar(c);
    if has_width_1_encoding(s) {
        assert(((s & 0x7F) as u8) == s) by (bit_vector)
            requires
                s <= 0x7F,
        ;
    } else if has_width_2_encoding(s) {
        assert(0xC0 <= (0xC0u8 | ((s >> 6u32) & 0x1F) as u8)) by (bit_vector);
        assert(0x80 <= (0x80u8 | (s & 0x3F) as u8)) by (bit_vector);
    } else if has_width_3_encoding(s) {
        assert(0xC0 <= (0xE0u8 | ((s >> 12u32) & 0x0F) as u8)) by (bit_vector);
        assert(0x80 <= (0x80u8 | ((s >> 6u32) & 0x3F) as u8)) by (bit_vector);
        assert(0x80 <= (0x80u8 | (s & 0x3F) as u8)) by (bit_vector);
    } else {
        assert(0xF0 <= (0xF0u8 | ((s >> 18u32) & 0x7) as u8)) by (bit_vector);
        assert(0x80 <= (0x80u8 | ((s >> 12u32) & 0x3F) as u8)) by (bit_vector);
        assert(0x80 <= (0x80u8 | ((s >> 6u32) & 0x3F) as u8)) by (bit_vector);
        assert(0x80 <= (0x80u8 | (s & 0x3F) as u8)) by (bit_vector);
    }
}

/// The UTF-8 encoding of characters without quotes holds no quote byte.
proof fn lemma_quote_free_bytes(cs: Seq<char>)
    requires
        quote_free(cs),
    ensures
        forall|j: int|
            0 <= j < encode_utf8(cs).len() ==> #[trigger] encode_utf8(cs)[j] != SINGLE_QUOTE
                && encode_utf8(cs)[j] != DOUBLE_QUOTE,
    decreases cs.len(),
{
    if cs.len() > 0 {
        let rest = cs.drop_first();
        assert forall|k: int| 0 <= k < rest.len() implies rest[k] != '\'' && rest[k] != '"' by {
            assert(rest[k] == cs[k + 1]);
        }
        lemma_quote_free_bytes(rest);
        assert(cs[0] != '\'' && cs[0] != '"');
        lemma_char_bytes_quote_free(cs[0]);
        let e = encode_scalar(cs[0] as u32);
        assert forall|j: int| 0 <= j < encode_utf8(cs).len() implies #[trigger] encode_utf8(cs)[j]
            != SINGLE_QUOTE && encode_utf8(cs)[j] != DOUBLE_QUOTE by {
            assert(encode_utf8(cs) == e + encode_utf8(rest));
            if j >= e.len() {
                assert(encode_utf8(cs)[j] == encode_utf8(rest)[j - e.len()]);
            } else {
                assert(encode_utf8(cs)[j] == e[j]);
            }
        }
    }
}

/// Every quoted hit among `hits` is one of the quoted hits.
proof fn lemma_quoted_hits_complete(b: Seq<u8>, hits: Seq<Hit>, j: int)
    requires
        0 <= j < hits.len(),
        is_quoted(b, hits[j].start as int, hits[j].end as int),
    ensures
        quoted_hits(b, hits).contains(hits[j]),
    decreases hits.len(),
{
    let q = quoted_hits(b, hits);
    if j == hits.len() - 1 {
        assert(q[q.len() - 1] == hits[j]);
    } else {
        let prefix = hits.drop_last();
        assert(prefix[j] == hits[j]);
        lemma_quoted_hits_complete(b, prefix, j);
        let qp = quoted_hits(b, prefix);
        let x = choose|x: int| 0 <= x < qp.len() && qp[x] == hits[j];
        assert(q[x] == hits[j]);
    }
}

/// A non-empty pattern that occurs where no occurrence is passed over lies
/// in a hit that starts at or before it and ends after its start.
proof fn lemma_covering_hit(patterns: Seq<Seq<char>>, b: Seq<u8>, hits: Seq<Hit>, p: int, at: int, i: int) -> (k: int)
    requires
        none_skipped(patterns, b, hits),
        0 <= p < patterns.len(),
        patterns[p].len() > 0,
        occurs_at(b, at, patterns[p]),
        0 <= i <= hits.len(),
        scan_start(hits, i) <= at,
    ensures
        0 <= k < hits.len(),
        hits[k].start <= at < hits[k].end,
    decreases hits.len() - i,
{
    assert(i < hits.len() && hits[i].start <= at);
    if at < hits[i].end {
        i
    } else {
        assert(scan_start(hits, i + 1) == hits[i].end);
        lemma_covering_hit(patterns, b, hits, p, at, i + 1)
    }
}

/// Law: when no route name is empty or holds a quote character, every
/// occurrence of a route name in the document that is enclosed in matching
/// quotes is reported, with that route name and at its position.
pub proof fn law_quoted_occurrences_are_reported(
    names: Seq<Seq<char>>,
    routes: Map<Seq<char>, RouteInfo>,
    b: Seq<u8>,
    hits: Seq<Hit>,
    out: Seq<TextMatch>,
    p: int,
    at: int,
)
    requires
        forall|q: int| 0 <= q < names.len() ==> #[trigger] names[q].len() > 0 && quote_free(names[q]),
        hits_fit(names, b, hits),
        none_skipped(names, b, hits),
        reports_quoted_hits(out, names, routes, b, hits),
        0 <= p < names.len(),
        occurs_at(b, at, names[p]),
        is_quoted(b, at, at + encode_utf8(names[p]).len()),
    ensures
        exists|k: int|
            #![trigger out[k]]
            0 <= k < out.len() && quoted_hits(b, hits)[k].start == at && quoted_hits(b, hits)[k].end == at
                + encode_utf8(names[p]).len() && out[k].route@ == names[p] && is_reported_occurrence(
                b,
                quoted_hits(b, hits)[k],
                out[k],
            ),
{
    let len = encode_utf8(names[p]).len() as int;
    assert(names[p].len() > 0);
    let k = lemma_covering_hit(names, b, hits, p, at, 0);
    let h = hits[k];
    let hp = h.pattern as int;
    assert(hits[k].pattern < names.len());
    let e = encode_utf8(names[hp]);
    assert(b.subrange(h.start as int, h.end as int) == e);
    assert(names[hp].len() > 0 && quote_free(names[hp]));
    lemma_quote_free_bytes(names[hp]);
    if (h.start as int) < at {
        assert(b[at - 1] == e[at - 1 - h.start]);
        assert(false);
    }
    assert(longest_at_start(names, b, h));
    reveal(longest_at_start);
    assert(len <= h.end - h.start);
    if h.end > at + len {
        assert(b[at + len] == e[len]);
        assert(false);
    }
    assert(b.subrange(at, at + len) == encode_utf8(names[p]));
    encode_utf8_decode_utf8(names[p]);
    encode_utf8_decode_utf8(names[hp]);
    assert(names[hp] == names[p]);
    lemma_quoted_hits_complete(b, hits, k);
    let q = quoted_hits(b, hits);
    let x = choose|x: int| 0 <= x < q.len() && q[x] == h;
    assert(reports_hit(out[x], names, routes, b, q[x]));
}


/// `m` reports the quoted occurrence `h` of its route in the text `content`:
/// the occurrence spells the route, is enclosed in matching quotes, the route
/// is one of `names` and `m` carries its location from `routes`, the lines
/// count the line feeds before each end of the occurrence, and the columns
/// count the UTF-16 code units of the characters before each end on its line.
pub open spec fn reports_occurrence(
    m: TextMatch,
    names: Seq<Seq<char>>,
    routes: Map<Seq<char>, RouteInfo>,
    content: Seq<char>,
    h: Hit,
) -> bool {
    let b = encode_utf8(content);
    &&& is_quoted(b, h.start as int, h.end as int)
    &&& b.subrange(h.start as int, h.end as int) == encode_utf8(m.route@)
    &&& names.contains(m.route@)
    &&& m.file == routes[m.route@]
    &&& m.position.start.line == newline_count(b, h.start as int) as u32
    &&& m.position.end.line == newline_count(b, h.end as int) as u32
    &&& m.position.start.col == utf16_len(decode_utf8(b.subrange(line_start(b, h.start as int), h.start as int))) as u32
    &&& m.position.end.col == utf16_len(decode_utf8(b.subrange(line_start(b, h.end as int), h.end as int))) as u32
}

/// Law: when no route name is empty or holds a quote character, the matches
/// of a search are exactly the quoted occurrences of route names in the
/// text, in document order: each match reports a quoted occurrence of its
/// route, every quoted occurrence of a route name is reported with that
/// name, and the reported occurrences come one after another.
pub proof fn law_search_reports_exactly_the_quoted_occurrences(
    names: Seq<Seq<char>>,
    routes: Map<Seq<char>, RouteInfo>,
    content: Seq<char>,
    hits: Seq<Hit>,
    out: Seq<TextMatch>,
)
    requires
        forall|q: int| 0 <= q < names.len() ==> #[trigger] names[q].len() > 0 && quote_free(names[q]),
        hits_fit(names, encode_utf8(content), hits),
        none_skipped(names, encode_utf8(content), hits),
        reports_quoted_hits(out, names, routes, encode_utf8(content), hits),
    ensures
        out.len() == quoted_hits(encode_utf8(content), hits).len(),
        forall|k: int|
            0 <= k < out.len() ==> reports_occurrence(
                #[trigger] out[k],
                names,
                routes,
                content,
                quoted_hits(encode_utf8(content), hits)[k],
            ),
        forall|p: int, at: int|
            #![trigger occurs_at(encode_utf8(content), at, names[p])]
            0 <= p < names.len() && occurs_at(encode_utf8(content), at, names[p]) && is_quoted(
                encode_utf8(content),
                at,
                at + encode_utf8(names[p]).len(),
            ) ==> exists|k: int|
                #![trigger out[k]]
                0 <= k < out.len() && quoted_hits(encode_utf8(content), hits)[k].start == at
                    && out[k].route@ == names[p],
        forall|j: int, k: int|
            0 <= j < k < out.len() ==> quoted_hits(encode_utf8(content), hits)[j].end <= quoted_hits(
                encode_utf8(content),
                hits,
            )[k].start,
{
    let b = encode_utf8(content);
    let q = quoted_hits(b, hits);
    lemma_quoted_hits_members(b, hits);
    assert forall|k: int| 0 <= k < out.len() implies reports_occurrence(
        #[trigger] out[k],
        names,
        routes,
        content,
        q[k],
    ) by {
        let h = q[k];
        assert(hits.contains(h));
        let j = choose|j: int| 0 <= j < hits.len() && hits[j] == h;
        assert(hits[j].pattern < names.len());
        assert(reports_hit(out[k], names, routes, b, h));
        let name = names[h.pattern as int];
        assert(name.len() > 0);
        law_occurrence_columns_count_characters(content, h.start as int, h.end as int, name);
        assert(names.contains(name));
    }
    assert forall|p: int, at: int|
        0 <= p < names.len() && #[trigger] occurs_at(b, at, names[p]) && is_quoted(
            b,
            at,
            at + encode_utf8(names[p]).len(),
        ) implies exists|k: int|
        #![trigger out[k]]
        0 <= k < out.len() && q[k].start == at && out[k].route@ == names[p] by {
        law_quoted_occurrences_are_reported(names, routes, b, hits, out, p, at);
    }
    lemma_hits_ordered(names, b, hits);
    lemma_quoted_hits_ordered(b, hits);
}

} // verus!
