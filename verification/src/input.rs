//! Lines that are typed in: tasks with their dates, projects, tags and links, and commands.
use vstd::prelude::*;

use crate::calendar::{self, Date, Time};
use crate::commands::task::{FilterModel, TaskFilter};
use crate::error::{self, Error, ErrorModel};
use crate::frontmatter;
use crate::model;
use crate::patterns;
use crate::recurrence;
use crate::text;
use crate::url;

verus! {

/// What stands between whitespace.
pub const TOKENS: &'static str = "\\S+";

/// Words. Marks belong to the word that they stand in, so that accents may be written apart.
pub const WORDS: &'static str = "[\\p{L}\\p{N}\\p{M}_]+";

/// What looks like a clock time, all of it, so that no valid part of an invalid one is taken.
pub const CLOCKS: &'static str = "(?i)[0-9]+(?::[0-9]+)+(?:[ \\t]*[ap]m[\\p{L}\\p{N}\\p{M}_]*)?|[0-9]+[ \\t]*[ap]m[\\p{L}\\p{N}\\p{M}_]*";

/// Clock times: two digits each, or with `am` or `pm`.
pub const VALID_CLOCK: &'static str = "(?i)\\A(?:([0-9]{2}):([0-9]{2})|([0-9]{1,2})(?::([0-9]{2}))?[ \\t]*(am|pm))\\z";

/// What looks like a web link.
pub const URLS: &'static str = "(?i)https?://[^\\s<>\"`]+";

/// A character that may be left out beside a date or a time.
pub const SEPARATOR: &'static str = "\\A[\\s\\p{P}]\\z";

/// What looks like a clock time: where it stands, and the groups of [`VALID_CLOCK`] in it.
#[derive(Debug)]
pub struct Clock {
    pub span: (usize, usize),
    pub groups: Option<Vec<Option<String>>>,
}

/// What the patterns find in a line, by the places of characters: what stands between
/// whitespace, with the web links in each of these by places of its own; words; clock times; and
/// of each character whether it can stand in a word, and whether it may be left out.
#[derive(Debug)]
pub struct Scan {
    pub tokens: Vec<(usize, usize)>,
    pub urls: Vec<Vec<(usize, usize)>>,
    pub words: Vec<(usize, usize)>,
    pub clocks: Vec<Clock>,
    pub word_chars: Vec<bool>,
    pub separators: Vec<bool>,
}

/// What looks like a clock time.
#[verifier::ext_equal]
pub struct ClockModel {
    pub span: (int, int),
    pub groups: Option<Seq<Option<Seq<char>>>>,
}

/// What the patterns find in a line.
#[verifier::ext_equal]
pub struct ScanModel {
    pub tokens: Seq<(int, int)>,
    pub urls: Seq<Seq<(int, int)>>,
    pub words: Seq<(int, int)>,
    pub clocks: Seq<ClockModel>,
    pub word_chars: Seq<bool>,
    pub separators: Seq<bool>,
}

/// Spans as mathematical numbers.
pub open spec fn spans(v: Seq<(usize, usize)>) -> Seq<(int, int)> {
    v.map_values(|span: (usize, usize)| (span.0 as int, span.1 as int))
}

/// Lists of spans as mathematical numbers.
pub open spec fn all_spans(v: Seq<Vec<(usize, usize)>>) -> Seq<Seq<(int, int)>> {
    v.map_values(|list: Vec<(usize, usize)>| spans(list@))
}

impl View for Clock {
    type V = ClockModel;

    open spec fn view(&self) -> ClockModel {
        ClockModel {
            span: (self.span.0 as int, self.span.1 as int),
            groups: patterns::opt_groups(self.groups),
        }
    }
}

/// What clock times are.
pub open spec fn clock_models(clocks: Seq<Clock>) -> Seq<ClockModel> {
    clocks.map_values(|clock: Clock| clock@)
}

impl View for Scan {
    type V = ScanModel;

    open spec fn view(&self) -> ScanModel {
        ScanModel {
            tokens: spans(self.tokens@),
            urls: all_spans(self.urls@),
            words: spans(self.words@),
            clocks: clock_models(self.clocks@),
            word_chars: self.word_chars@,
            separators: self.separators@,
        }
    }
}

/// Whether a span lies in a text of the given length.
pub open spec fn span_fits(span: (int, int), length: int) -> bool {
    0 <= span.0 <= span.1 <= length
}

/// Whether spans lie in a text of the given length.
pub open spec fn spans_fit(v: Seq<(int, int)>, length: int) -> bool {
    forall|i: int| 0 <= i < v.len() ==> span_fits(#[trigger] v[i], length)
}

impl ScanModel {
    /// Whether all that was found lies in a text of the given length.
    pub open spec fn fits(self, length: int) -> bool {
        &&& spans_fit(self.tokens, length)
        &&& self.urls.len() == self.tokens.len()
        &&& forall|i: int|
            0 <= i < self.urls.len() ==> spans_fit(
                #[trigger] self.urls[i],
                self.tokens[i].1 - self.tokens[i].0,
            )
        &&& spans_fit(self.words, length)
        &&& forall|i: int|
            0 <= i < self.clocks.len() ==> span_fits((#[trigger] self.clocks[i]).span, length)
        &&& self.word_chars.len() == length
        &&& self.separators.len() == length
    }
}

/// The error where a pattern is not taken.
pub open spec fn pattern_error(words: Seq<char>) -> ErrorModel {
    ErrorModel::validation("invalid_pattern"@, words)
}

/// Ranges of bytes as spans of characters.
pub open spec fn in_chars(s: Seq<char>, ranges: Seq<(usize, usize)>) -> Seq<(int, int)> {
    ranges.map_values(
        |range: (usize, usize)|
            (
                text::chars_in(s, range.0 as int, 0)->0,
                text::chars_in(s, range.1 as int, 0)->0,
            ),
    )
}

/// Where a pattern is found in a text.
pub open spec fn found_spans(pattern: Seq<char>, s: Seq<char>) -> Result<
    Seq<(int, int)>,
    ErrorModel,
> {
    match patterns::pattern_ranges(pattern, s) {
        Ok(ranges) => Ok(in_chars(s, ranges)),
        Err(words) => Err(pattern_error(words)),
    }
}

/// The result of finding, as values.
pub open spec fn spans_outcome(r: Result<Vec<(usize, usize)>, Error>) -> Result<
    Seq<(int, int)>,
    ErrorModel,
> {
    match r {
        Ok(v) => Ok(spans(v@)),
        Err(e) => Err(e@),
    }
}

/// More bytes hold no fewer characters.
proof fn lemma_chars_in_grow(s: Seq<char>, a: int, b: int, i: int)
    requires
        0 <= i <= s.len(),
        0 <= a <= b,
        text::chars_in(s, a, i) is Some,
        text::chars_in(s, b, i) is Some,
    ensures
        i <= text::chars_in(s, a, i)->0 <= text::chars_in(s, b, i)->0 <= s.len(),
    decreases s.len() - i,
{
    if a == 0 {
        if b > 0 {
            lemma_chars_in_grow(s, 0, b - text::width(s[i]), i + 1);
        }
    } else {
        lemma_chars_in_grow(s, a - text::width(s[i]), b - text::width(s[i]), i + 1);
    }
}

fn find_spans(pattern: &str, s: &str) -> (r: Result<Vec<(usize, usize)>, Error>)
    ensures
        spans_outcome(r) == found_spans(pattern@, s@),
        r matches Ok(v) ==> spans_fit(spans(v@), s@.len() as int),
{
    let ranges = match patterns::find_iter(pattern, s) {
        Ok(ranges) => ranges,
        Err(words) => {
            return Err(Error::validation("invalid_pattern", words.as_str()));
        },
    };
    let chars = text::chars(s);
    let mut r: Vec<(usize, usize)> = Vec::new();
    let mut i: usize = 0;
    while i < ranges.len()
        invariant
            i <= ranges@.len(),
            chars@ == s@,
            patterns::in_turn(ranges@, s@),
            r@.len() == i,
            forall|k: int|
                0 <= k < i ==> ((#[trigger] r@[k]).0 as int, r@[k].1 as int) == in_chars(
                    s@,
                    ranges@,
                )[k] && span_fits((r@[k].0 as int, r@[k].1 as int), s@.len() as int),
        decreases ranges.len() - i,
    {
        let range = ranges[i];
        proof {
            assert(range == ranges@[i as int]);
            lemma_chars_in_grow(s@, range.0 as int, range.1 as int, 0);
        }
        let start: usize = match text::char_offset(&chars, range.0) {
            Some(start) => start,
            None => 0,
        };
        let end: usize = match text::char_offset(&chars, range.1) {
            Some(end) => end,
            None => 0,
        };
        r.push((start, end));
        i += 1;
    }
    assert(spans(r@) =~= in_chars(s@, ranges@));
    assert(spans_fit(spans(r@), s@.len() as int)) by {
        assert forall|k: int| 0 <= k < spans(r@).len() implies span_fits(
            #[trigger] spans(r@)[k],
            s@.len() as int,
        ) by {
            assert(spans(r@)[k] == (r@[k].0 as int, r@[k].1 as int));
        }
    }
    Ok(r)
}

/// Of the characters from the `i`-th on, after those looked at, whether a pattern is found in
/// each.
pub open spec fn char_flags(pattern: Seq<char>, s: Seq<char>, i: int, found: Seq<bool>) -> Result<
    Seq<bool>,
    ErrorModel,
>
    decreases s.len() - i,
{
    if i >= s.len() {
        Ok(found)
    } else {
        match patterns::pattern_matches(pattern, seq![s[i]]) {
            Ok(flag) => char_flags(pattern, s, i + 1, found.push(flag)),
            Err(words) => Err(pattern_error(words)),
        }
    }
}

/// The result of looking at characters, as values.
pub open spec fn flags_outcome(r: Result<Vec<bool>, Error>) -> Result<Seq<bool>, ErrorModel> {
    match r {
        Ok(v) => Ok(v@),
        Err(e) => Err(e@),
    }
}

fn find_flags(pattern: &str, s: &str) -> (r: Result<Vec<bool>, Error>)
    ensures
        flags_outcome(r) == char_flags(pattern@, s@, 0, seq![]),
        r matches Ok(v) ==> v@.len() == s@.len(),
{
    let chars = text::chars(s);
    let mut r: Vec<bool> = Vec::new();
    let mut i: usize = 0;
    while i < chars.len()
        invariant
            i <= chars@.len(),
            chars@ == s@,
            r@.len() == i,
            char_flags(pattern@, s@, 0, seq![]) == char_flags(pattern@, s@, i as int, r@),
        decreases chars.len() - i,
    {
        let one = text::string(&text::cut(&chars, i, i + 1));
        assert(one@ =~= seq![s@[i as int]]);
        match patterns::is_match(pattern, one.as_str()) {
            Ok(flag) => {
                r.push(flag);
            },
            Err(words) => {
                return Err(Error::validation("invalid_pattern", words.as_str()));
            },
        }
        i += 1;
    }
    Ok(r)
}

/// The web links in the spans from the `i`-th on, after those found.
pub open spec fn urls_from(
    s: Seq<char>,
    tokens: Seq<(int, int)>,
    i: int,
    found: Seq<Seq<(int, int)>>,
) -> Result<Seq<Seq<(int, int)>>, ErrorModel>
    decreases tokens.len() - i,
{
    if i >= tokens.len() {
        Ok(found)
    } else {
        match found_spans(URLS@, s.subrange(tokens[i].0, tokens[i].1)) {
            Ok(urls) => urls_from(s, tokens, i + 1, found.push(urls)),
            Err(e) => Err(e),
        }
    }
}

/// The clock times from the `i`-th on, after those found.
pub open spec fn clocks_from(
    s: Seq<char>,
    found_at: Seq<(int, int)>,
    i: int,
    found: Seq<ClockModel>,
) -> Result<Seq<ClockModel>, ErrorModel>
    decreases found_at.len() - i,
{
    if i >= found_at.len() {
        Ok(found)
    } else {
        match patterns::pattern_groups(
            VALID_CLOCK@,
            s.subrange(found_at[i].0, found_at[i].1),
        ) {
            Ok(groups) => clocks_from(
                s,
                found_at,
                i + 1,
                found.push(ClockModel { span: found_at[i], groups }),
            ),
            Err(words) => Err(pattern_error(words)),
        }
    }
}

/// What the patterns find in a line.
pub open spec fn scanned(s: Seq<char>) -> Result<ScanModel, ErrorModel> {
    match found_spans(TOKENS@, s) {
        Err(e) => Err(e),
        Ok(tokens) => match urls_from(s, tokens, 0, seq![]) {
            Err(e) => Err(e),
            Ok(urls) => match found_spans(WORDS@, s) {
                Err(e) => Err(e),
                Ok(words) => match found_spans(CLOCKS@, s) {
                    Err(e) => Err(e),
                    Ok(found_at) => match clocks_from(s, found_at, 0, seq![]) {
                        Err(e) => Err(e),
                        Ok(clocks) => match char_flags(WORDS@, s, 0, seq![]) {
                            Err(e) => Err(e),
                            Ok(word_chars) => match char_flags(SEPARATOR@, s, 0, seq![]) {
                                Err(e) => Err(e),
                                Ok(separators) => Ok(
                                    ScanModel {
                                        tokens,
                                        urls,
                                        words,
                                        clocks,
                                        word_chars,
                                        separators,
                                    },
                                ),
                            },
                        },
                    },
                },
            },
        },
    }
}

/// The result of finding web links, as values.
pub open spec fn urls_outcome(r: Result<Vec<Vec<(usize, usize)>>, Error>) -> Result<
    Seq<Seq<(int, int)>>,
    ErrorModel,
> {
    match r {
        Ok(v) => Ok(all_spans(v@)),
        Err(e) => Err(e@),
    }
}

fn find_urls(s: &Vec<char>, tokens: &Vec<(usize, usize)>) -> (r: Result<
    Vec<Vec<(usize, usize)>>,
    Error,
>)
    requires
        spans_fit(spans(tokens@), s@.len() as int),
    ensures
        urls_outcome(r) == urls_from(s@, spans(tokens@), 0, seq![]),
        r matches Ok(v) ==> v@.len() == tokens@.len() && forall|k: int|
            0 <= k < v@.len() ==> spans_fit(
                #[trigger] all_spans(v@)[k],
                spans(tokens@)[k].1 - spans(tokens@)[k].0,
            ),
{
    let ghost all = spans(tokens@);
    let mut r: Vec<Vec<(usize, usize)>> = Vec::new();
    let mut i: usize = 0;
    assert(all_spans(r@) =~= Seq::<Seq<(int, int)>>::empty());
    while i < tokens.len()
        invariant
            i <= tokens@.len(),
            all == spans(tokens@),
            spans_fit(all, s@.len() as int),
            r@.len() == i,
            urls_from(s@, all, 0, seq![]) == urls_from(s@, all, i as int, all_spans(r@)),
            forall|k: int|
                0 <= k < i ==> spans_fit(#[trigger] all_spans(r@)[k], all[k].1 - all[k].0),
        decreases tokens.len() - i,
    {
        let token = tokens[i];
        assert(all[i as int] == (token.0 as int, token.1 as int));
        assert(span_fits(all[i as int], s@.len() as int));
        let value = text::string(&text::cut(s, token.0, token.1));
        match find_spans(URLS, value.as_str()) {
            Ok(urls) => {
                let ghost had = all_spans(r@);
                r.push(urls);
                assert(all_spans(r@) =~= had.push(spans(urls@)));
                assert forall|k: int| 0 <= k < i + 1 implies spans_fit(
                    #[trigger] all_spans(r@)[k],
                    all[k].1 - all[k].0,
                ) by {
                    if k < i {
                        assert(had[k] == all_spans(r@)[k]);
                    }
                }
            },
            Err(e) => {
                return Err(e);
            },
        }
        i += 1;
    }
    Ok(r)
}

/// The result of finding clock times, as values.
pub open spec fn clocks_outcome(r: Result<Vec<Clock>, Error>) -> Result<
    Seq<ClockModel>,
    ErrorModel,
> {
    match r {
        Ok(v) => Ok(clock_models(v@)),
        Err(e) => Err(e@),
    }
}

fn find_clocks(s: &Vec<char>, found_at: &Vec<(usize, usize)>) -> (r: Result<Vec<Clock>, Error>)
    requires
        spans_fit(spans(found_at@), s@.len() as int),
    ensures
        clocks_outcome(r) == clocks_from(s@, spans(found_at@), 0, seq![]),
        r matches Ok(v) ==> forall|k: int|
            0 <= k < v@.len() ==> span_fits((#[trigger] clock_models(v@)[k]).span, s@.len() as int),
{
    let ghost all = spans(found_at@);
    let mut r: Vec<Clock> = Vec::new();
    let mut i: usize = 0;
    assert(clock_models(r@) =~= Seq::<ClockModel>::empty());
    while i < found_at.len()
        invariant
            i <= found_at@.len(),
            all == spans(found_at@),
            spans_fit(all, s@.len() as int),
            r@.len() == i,
            clocks_from(s@, all, 0, seq![]) == clocks_from(
                s@,
                all,
                i as int,
                clock_models(r@),
            ),
            forall|k: int|
                0 <= k < i ==> span_fits(
                    (#[trigger] clock_models(r@)[k]).span,
                    s@.len() as int,
                ),
        decreases found_at.len() - i,
    {
        let span = found_at[i];
        assert(all[i as int] == (span.0 as int, span.1 as int));
        assert(span_fits(all[i as int], s@.len() as int));
        let value = text::string(&text::cut(s, span.0, span.1));
        match patterns::captures(VALID_CLOCK, value.as_str()) {
            Ok(groups) => {
                let ghost had = clock_models(r@);
                let clock = Clock { span, groups };
                r.push(clock);
                assert(clock_models(r@) =~= had.push(clock@));
                assert forall|k: int| 0 <= k < i + 1 implies span_fits(
                    (#[trigger] clock_models(r@)[k]).span,
                    s@.len() as int,
                ) by {
                    if k < i {
                        assert(had[k] == clock_models(r@)[k]);
                    }
                }
            },
            Err(words) => {
                return Err(Error::validation("invalid_pattern", words.as_str()));
            },
        }
        i += 1;
    }
    Ok(r)
}

impl Scan {
    /// What the patterns find in a line.
    pub fn of(line: &str) -> (r: Result<Scan, Error>)
        ensures
            error::viewed(r) == scanned(line@),
            r matches Ok(scan) ==> scan@.fits(line@.len() as int),
    {
        let s = text::chars(line);
        let tokens = match find_spans(TOKENS, line) {
            Ok(tokens) => tokens,
            Err(e) => {
                return Err(e);
            },
        };
        let urls = match find_urls(&s, &tokens) {
            Ok(urls) => urls,
            Err(e) => {
                return Err(e);
            },
        };
        let words = match find_spans(WORDS, line) {
            Ok(words) => words,
            Err(e) => {
                return Err(e);
            },
        };
        let found_at = match find_spans(CLOCKS, line) {
            Ok(found_at) => found_at,
            Err(e) => {
                return Err(e);
            },
        };
        let clocks = match find_clocks(&s, &found_at) {
            Ok(clocks) => clocks,
            Err(e) => {
                return Err(e);
            },
        };
        let word_chars = match find_flags(WORDS, line) {
            Ok(word_chars) => word_chars,
            Err(e) => {
                return Err(e);
            },
        };
        let separators = match find_flags(SEPARATOR, line) {
            Ok(separators) => separators,
            Err(e) => {
                return Err(e);
            },
        };
        Ok(Scan { tokens, urls, words, clocks, word_chars, separators })
    }
}

/// Whether a span overlaps one of the others.
pub open spec fn overlaps(span: (int, int), others: Seq<(int, int)>) -> bool {
    exists|i: int|
        0 <= i < others.len() && span.0 < (#[trigger] others[i]).1 && others[i].0 < span.1
}

fn overlaps_any(span: (usize, usize), others: &Vec<(usize, usize)>) -> (r: bool)
    ensures
        r == overlaps((span.0 as int, span.1 as int), spans(others@)),
{
    let ghost all = spans(others@);
    let mut i: usize = 0;
    while i < others.len()
        invariant
            i <= others@.len(),
            all == spans(others@),
            forall|k: int|
                0 <= k < i ==> !(span.0 < (#[trigger] all[k]).1 && all[k].0 < span.1),
        decreases others.len() - i,
    {
        assert(all[i as int] == (others@[i as int].0 as int, others@[i as int].1 as int));
        if span.0 < others[i].1 && others[i].0 < span.1 {
            return true;
        }
        i += 1;
    }
    false
}

/// Whether there is whitespace, and nothing else, between two places.
pub open spec fn space_between(s: Seq<char>, start: int, end: int) -> bool {
    start < end && text::blank(s.subrange(start, end))
}

fn whitespace_between(s: &Vec<char>, start: usize, end: usize) -> (r: bool)
    requires
        end <= s@.len(),
    ensures
        r == space_between(s@, start as int, end as int),
{
    start < end && text::is_blank(&text::cut(s, start, end))
}

/// Whether what stands beside a word makes it part of a name or a number.
pub open spec fn in_identifier(s: Seq<char>, span: (int, int)) -> bool {
    let n = s.len();
    ||| span.0 > 0 && (s[span.0 - 1] == '-' || s[span.0 - 1] == '+' || s[span.0 - 1] == '.'
        || s[span.0 - 1] == ':' || s[span.0 - 1] == '\\')
    ||| span.1 < n && (s[span.1] == '-' || s[span.1] == '+' || s[span.1] == '_' || s[span.1]
        == '\\')
    ||| span.1 + 1 < n && (s[span.1] == '.' || s[span.1] == ':') && text::alphanumeric(
        s[span.1 + 1],
    )
}

fn identifier_boundary(s: &Vec<char>, span: (usize, usize)) -> (r: bool)
    requires
        span.0 <= span.1 <= s@.len(),
    ensures
        r == in_identifier(s@, (span.0 as int, span.1 as int)),
{
    let n: usize = s.len();
    if span.0 > 0 {
        let before = s[span.0 - 1];
        if before == '-' || before == '+' || before == '.' || before == ':' || before == '\\' {
            return true;
        }
    }
    if span.1 < n {
        let next = s[span.1];
        if next == '-' || next == '+' || next == '_' || next == '\\' {
            return true;
        }
        if n - span.1 > 1 && (next == '.' || next == ':') {
            return text::is_alphanumeric(s[span.1 + 1]);
        }
    }
    false
}

/// The number from 1 on that digits write, where it has a signed 64-bit form.
pub open spec fn positive(s: Seq<char>) -> Option<u64> {
    if s.len() > 0 && text::all_digits(s) && 0 < text::number(s) <= i64::MAX {
        Some(text::number(s) as u64)
    } else {
        None
    }
}

fn positive_integer(s: &Vec<char>) -> (r: Option<u64>)
    ensures
        r == positive(s@),
{
    match text::parse_number(s) {
        Some(v) => if 0 < v && v <= i64::MAX as u64 {
            Some(v)
        } else {
            None
        },
        None => None,
    }
}

/// The day of the week that a word names, from Monday.
pub open spec fn weekday_named(s: Seq<char>) -> Option<u32> {
    if s == "monday"@ || s == "mon"@ {
        Some(0u32)
    } else if s == "tuesday"@ || s == "tue"@ || s == "tues"@ {
        Some(1u32)
    } else if s == "wednesday"@ || s == "wed"@ {
        Some(2u32)
    } else if s == "thursday"@ || s == "thu"@ || s == "thur"@ || s == "thurs"@ {
        Some(3u32)
    } else if s == "friday"@ || s == "fri"@ {
        Some(4u32)
    } else if s == "saturday"@ || s == "sat"@ {
        Some(5u32)
    } else if s == "sunday"@ || s == "sun"@ {
        Some(6u32)
    } else {
        None
    }
}

fn weekday(s: &Vec<char>) -> (r: Option<u32>)
    ensures
        r == weekday_named(s@),
{
    if text::spells(s, "monday") || text::spells(s, "mon") {
        Some(0)
    } else if text::spells(s, "tuesday") || text::spells(s, "tue") || text::spells(s, "tues") {
        Some(1)
    } else if text::spells(s, "wednesday") || text::spells(s, "wed") {
        Some(2)
    } else if text::spells(s, "thursday") || text::spells(s, "thu") || text::spells(s, "thur")
        || text::spells(s, "thurs") {
        Some(3)
    } else if text::spells(s, "friday") || text::spells(s, "fri") {
        Some(4)
    } else if text::spells(s, "saturday") || text::spells(s, "sat") {
        Some(5)
    } else if text::spells(s, "sunday") || text::spells(s, "sun") {
        Some(6)
    } else {
        None
    }
}

/// What a phrase says of a date.
#[derive(Debug, Clone, Copy, PartialEq, Eq, Structural)]
pub enum DateMeaning {
    Days(u64),
    Weeks(u64),
    Months(u64),
    Weekday(u32),
    Resolved(Date),
}

/// The error for a date that the calendar does not have.
pub open spec fn resolution_error() -> ErrorModel {
    ErrorModel::validation(
        "invalid_date"@,
        "The detected due date is outside the supported calendar range"@,
    ).with_field("due_date"@)
}

fn unresolved() -> (r: Error)
    ensures
        r@ == resolution_error(),
{
    Error::validation(
        "invalid_date",
        "The detected due date is outside the supported calendar range",
    ).with_field("due_date")
}

/// The date with a number.
pub open spec fn day_at(number: int) -> Date {
    choose|date: Date| date.valid() && date.number() == number
}

/// The date with a number, where there is one.
pub open spec fn day_within(number: int) -> Option<Date> {
    if number <= calendar::last_number() {
        Some(day_at(number))
    } else {
        None
    }
}

proof fn lemma_day_at(date: Date)
    requires
        date.valid(),
    ensures
        day_at(date.number()) == date,
{
    let other = day_at(date.number());
    assert(date.valid() && date.number() == date.number());
    calendar::lemma_date_order(date, other);
}

/// The same day so many months later, or the last day of that month where it is shorter.
pub open spec fn months_later(date: Date, months: int) -> Option<Date> {
    let index = date.month_index() + months;
    let year = index / 12;
    let month = index % 12 + 1;
    if months > u32::MAX || year > calendar::MAX_YEAR {
        None
    } else {
        Some(
            Date::of(
                year,
                month,
                if date.d() <= calendar::month_days(year, month) {
                    date.d()
                } else {
                    calendar::month_days(year, month)
                },
            ),
        )
    }
}

/// The days to the next such day of the week, from 1 to 7.
pub open spec fn days_to(weekday: u32, today: Date) -> int {
    let distance = (weekday as int + 7 - today.weekday_index()) % 7;
    if distance == 0 {
        7
    } else {
        distance
    }
}

/// The date that a phrase means, counted from today.
pub open spec fn meant_date(meaning: DateMeaning, today: Date) -> Option<Date> {
    match meaning {
        DateMeaning::Days(days) => day_within(today.number() + days),
        DateMeaning::Weeks(weeks) => day_within(today.number() + 7 * weeks),
        DateMeaning::Months(months) => months_later(today, months as int),
        DateMeaning::Weekday(weekday) => day_within(today.number() + days_to(weekday, today)),
        DateMeaning::Resolved(date) => Some(date),
    }
}

/// The date that a phrase means, where it can be written.
pub open spec fn resolved_date(meaning: DateMeaning, today: Date) -> Result<Date, ErrorModel> {
    match meant_date(meaning, today) {
        None => Err(resolution_error()),
        Some(date) => match recurrence::check_date(date, "due_date"@) {
            Err(e) => Err(e),
            Ok(_) => Ok(date),
        },
    }
}

fn days_later(today: Date, days: u64) -> (r: Option<Date>)
    ensures
        r == day_within(today.number() + days),
{
    let r = today.checked_add_days(days);
    proof {
        if let Some(date) = r {
            lemma_day_at(date);
        }
    }
    r
}

fn add_months(today: Date, months: u64) -> (r: Option<Date>)
    ensures
        r == months_later(today, months as int),
{
    if months > u32::MAX as u64 {
        return None;
    }
    let r = today.checked_add_months(months as u32);
    proof {
        use_type_invariant(&today);
        if let Some(date) = r {
            let wanted = months_later(today, months as int)->0;
            assert(calendar::MIN_YEAR <= today.y());
            calendar::lemma_date_of(date.y(), date.m(), date.d());
            calendar::lemma_same_date(date, wanted);
        }
    }
    r
}

/// The date that a phrase means, counted from today.
pub fn resolve_date(meaning: DateMeaning, today: Date) -> (r: Result<Date, Error>)
    requires
        meaning matches DateMeaning::Weekday(weekday) ==> weekday < 7,
    ensures
        error::outcome(r) == resolved_date(meaning, today),
{
    let date = match meaning {
        DateMeaning::Days(days) => days_later(today, days),
        DateMeaning::Weeks(weeks) => {
            proof {
                use_type_invariant(&today);
                calendar::lemma_number_range(today);
                assert(calendar::first_number() > -100_000_000 && calendar::last_number()
                    < 100_000_000) by {
                    reveal_with_fuel(calendar::days_before_month, 13);
                }
            }
            match weeks.checked_mul(7) {
                Some(days) => days_later(today, days),
                None => None,
            }
        },
        DateMeaning::Months(months) => add_months(today, months),
        DateMeaning::Weekday(weekday) => {
            let distance: u32 = (weekday + 7 - today.num_days_from_monday()) % 7;
            days_later(
                today,
                if distance == 0 {
                    7
                } else {
                    distance as u64
                },
            )
        },
        DateMeaning::Resolved(date) => Some(date),
    };
    match date {
        None => Err(unresolved()),
        Some(date) => match recurrence::validate_date_value(date, "due_date") {
            Ok(_) => Ok(date),
            Err(e) => Err(e),
        },
    }
}

/// How many seconds may pass at most: what a duration in milliseconds of 64 bits holds.
pub const MAX_SECONDS: u64 = 9223372036854775;

/// What the clock shows after some time has passed: on a clock that is never set back or forth,
/// from a date and time; or by a table from seconds to what it shows, where it is.
#[derive(Debug)]
pub enum Later {
    Civil { date: Date, time: Time },
    Given(Vec<(u64, Option<(Date, Time)>)>),
}

/// What a clock that is never set back or forth shows after so many seconds.
pub open spec fn civil_later(date: Date, time: Time, seconds: int) -> Option<(Date, Time)> {
    let total = time.h() * 3600 + time.min() * 60 + time.s() + seconds;
    if seconds > MAX_SECONDS {
        None
    } else {
        match day_within(date.number() + total / 86400) {
            None => None,
            Some(day) => {
                let rest = total % 86400;
                Some(
                    (
                        day,
                        Time::of(
                            rest / 3600,
                            rest / 60 % 60,
                            rest % 60,
                            time.nanos() % 1_000_000_000,
                        ),
                    ),
                )
            },
        }
    }
}

/// What a table, from the `i`-th row on, has for so many seconds.
pub open spec fn row_for(
    rows: Seq<(u64, Option<(Date, Time)>)>,
    seconds: int,
    i: int,
) -> Option<(Date, Time)>
    decreases rows.len() - i,
{
    if i >= rows.len() {
        None
    } else if rows[i].0 == seconds {
        rows[i].1
    } else {
        row_for(rows, seconds, i + 1)
    }
}

impl Later {
    /// What the clock shows after so many seconds.
    pub open spec fn after(self, seconds: int) -> Option<(Date, Time)> {
        match self {
            Later::Civil { date, time } => civil_later(date, time, seconds),
            Later::Given(rows) => row_for(rows@, seconds, 0),
        }
    }

    /// What the clock shows after so many seconds.
    pub fn look(&self, seconds: u64) -> (r: Option<(Date, Time)>)
        ensures
            r == self.after(seconds as int),
    {
        match self {
            Later::Civil { date, time } => {
                if seconds > MAX_SECONDS {
                    return None;
                }
                let total: u64 = time.hour() as u64 * 3600 + time.minute() as u64 * 60
                    + time.second() as u64 + seconds;
                let rest: u32 = (total % 86400) as u32;
                let nanosecond: u32 = time.nanosecond() % 1_000_000_000;
                match days_later(*date, total / 86400) {
                    None => None,
                    Some(day) => {
                        let hour: u32 = rest / 3600;
                        let minute: u32 = rest / 60 % 60;
                        let second: u32 = rest % 60;
                        proof {
                            assert(rest < 86400);
                            assert(hour < 24);
                        }
                        match Time::new(hour, minute, second, nanosecond) {
                            None => None,
                            Some(shown) => {
                                proof {
                                    calendar::lemma_time_of(
                                        hour as int,
                                        minute as int,
                                        second as int,
                                        nanosecond as int,
                                    );
                                    calendar::lemma_same_time(
                                        shown,
                                        Time::of(
                                            hour as int,
                                            minute as int,
                                            second as int,
                                            nanosecond as int,
                                        ),
                                    );
                                }
                                Some((day, shown))
                            },
                        }
                    },
                }
            },
            Later::Given(rows) => {
                let mut i: usize = 0;
                while i < rows.len()
                    invariant
                        i <= rows@.len(),
                        *self == Later::Given(*rows),
                        row_for(rows@, seconds as int, 0) == row_for(
                            rows@,
                            seconds as int,
                            i as int,
                        ),
                    decreases rows.len() - i,
                {
                    if rows[i].0 == seconds {
                        return rows[i].1;
                    }
                    i += 1;
                }
                None
            },
        }
    }
}

/// The date and the minute at which some time has passed. What remains of a minute counts as a
/// whole one.
pub open spec fn elapsed(later: Later, amount: int, unit: int) -> Result<(Date, Time), ErrorModel> {
    let seconds = amount * unit;
    let first = if seconds > MAX_SECONDS {
        None
    } else {
        later.after(seconds)
    };
    let shown = match first {
        None => None,
        Some((date, time)) => if time.s() > 0 || time.nanos() > 0 {
            later.after(seconds + 60)
        } else {
            Some((date, time))
        },
    };
    match shown {
        None => Err(resolution_error()),
        Some((date, time)) => match recurrence::check_date(date, "due_date"@) {
            Err(e) => Err(e),
            Ok(_) => Ok((date, Time::of(time.h(), time.min(), 0, 0))),
        },
    }
}

fn relative_time(later: &Later, amount: u64, unit: u64) -> (r: Result<(Date, Time), Error>)
    requires
        unit == 60 || unit == 3600,
    ensures
        error::outcome(r) == elapsed(*later, amount as int, unit as int),
{
    let seconds: u64 = match amount.checked_mul(unit) {
        Some(seconds) => seconds,
        None => {
            assert(amount * unit > u64::MAX);
            return Err(unresolved());
        },
    };
    assert(seconds == amount * unit);
    if seconds > MAX_SECONDS {
        return Err(unresolved());
    }
    let (date, time) = match later.look(seconds) {
        Some(shown) => shown,
        None => {
            return Err(unresolved());
        },
    };
    let (date, time) = if time.second() > 0 || time.nanosecond() > 0 {
        match later.look(seconds + 60) {
            Some(shown) => shown,
            None => {
                return Err(unresolved());
            },
        }
    } else {
        (date, time)
    };
    if let Err(e) = recurrence::validate_date_value(date, "due_date") {
        return Err(e);
    }
    let hour: u32 = time.hour();
    let minute: u32 = time.minute();
    match Time::new(hour, minute, 0, 0) {
        Some(whole) => {
            proof {
                calendar::lemma_time_of(hour as int, minute as int, 0, 0);
                calendar::lemma_same_time(whole, Time::of(hour as int, minute as int, 0, 0));
            }
            Ok((date, whole))
        },
        None => Err(unresolved()),
    }
}

/// The text of a group.
pub open spec fn group(groups: Seq<Option<Seq<char>>>, i: int) -> Option<Seq<char>> {
    if 0 <= i < groups.len() {
        groups[i]
    } else {
        None
    }
}

/// The number below 100 that the digits of a group write.
pub open spec fn group_number(s: Option<Seq<char>>) -> Option<int> {
    match s {
        Some(s) => if s.len() > 0 && text::all_digits(s) && text::number(s) < 100 {
            Some(text::number(s) as int)
        } else {
            None
        },
        None => None,
    }
}

/// The hour and minute that the groups of a clock time write: two digits each, or an hour from 1
/// to 12, perhaps a minute, and `am` or `pm`.
pub open spec fn clock_numbers(groups: Seq<Option<Seq<char>>>) -> Option<(int, int)> {
    if group(groups, 1) is Some && group(groups, 2) is Some {
        match (group_number(group(groups, 1)), group_number(group(groups, 2))) {
            (Some(hour), Some(minute)) => Some((hour, minute)),
            _ => None,
        }
    } else {
        let minute = if group(groups, 4) is None {
            Some(0int)
        } else {
            group_number(group(groups, 4))
        };
        match (group_number(group(groups, 3)), minute, group(groups, 5)) {
            (Some(hour), Some(minute), Some(half)) => if 1 <= hour <= 12 {
                let pm: int = if text::lower(half) == "pm"@ {
                    12
                } else {
                    0
                };
                Some((hour % 12 + pm, minute))
            } else {
                None
            },
            _ => None,
        }
    }
}

/// The time that the groups of a clock time write.
pub open spec fn clock_time(groups: Option<Seq<Option<Seq<char>>>>) -> Option<Time> {
    match groups {
        None => None,
        Some(groups) => match clock_numbers(groups) {
            Some((hour, minute)) => if hour < 24 && minute < 60 {
                Some(Time::of(hour, minute, 0, 0))
            } else {
                None
            },
            None => None,
        },
    }
}

fn get_group(groups: &Vec<Option<String>>, i: usize) -> (r: Option<String>)
    ensures
        text::opt(r) == group(patterns::opt_strings(groups@), i as int),
{
    if i < groups.len() {
        assert(patterns::opt_strings(groups@)[i as int] == text::opt(groups@[i as int]));
        text::clone_opt(&groups[i])
    } else {
        None
    }
}

fn small_number(s: &Option<String>) -> (r: Option<u32>)
    ensures
        (match r {
            Some(n) => Some(n as int),
            None => None,
        }) == group_number(text::opt(*s)),
        r matches Some(n) ==> n < 100,
{
    match s {
        Some(s) => match text::parse_number(&text::chars(s.as_str())) {
            Some(n) => if n < 100 {
                Some(n as u32)
            } else {
                None
            },
            None => None,
        },
        None => None,
    }
}

fn numbers_of(groups: &Vec<Option<String>>) -> (r: Option<(u32, u32)>)
    ensures
        (match r {
            Some((hour, minute)) => Some((hour as int, minute as int)),
            None => None,
        }) == clock_numbers(patterns::opt_strings(groups@)),
{
    let first = get_group(groups, 1);
    let second = get_group(groups, 2);
    if first.is_some() && second.is_some() {
        return match (small_number(&first), small_number(&second)) {
            (Some(hour), Some(minute)) => Some((hour, minute)),
            _ => None,
        };
    }
    let fourth = get_group(groups, 4);
    let minute = if fourth.is_none() {
        Some(0u32)
    } else {
        small_number(&fourth)
    };
    match (small_number(&get_group(groups, 3)), minute, get_group(groups, 5)) {
        (Some(hour), Some(minute), Some(half)) => {
            if hour < 1 || hour > 12 {
                return None;
            }
            let pm = text::spells(&text::to_lower(&text::chars(half.as_str())), "pm");
            Some(
                (
                    hour % 12 + if pm {
                        12
                    } else {
                        0
                    },
                    minute,
                ),
            )
        },
        _ => None,
    }
}

fn time_of(groups: &Option<Vec<Option<String>>>) -> (r: Option<Time>)
    ensures
        r == clock_time(patterns::opt_groups(*groups)),
{
    match groups {
        None => None,
        Some(groups) => match numbers_of(groups) {
            None => None,
            Some((hour, minute)) => match Time::new(hour, minute, 0, 0) {
                Some(time) => {
                    proof {
                        calendar::lemma_time_of(hour as int, minute as int, 0, 0);
                        calendar::lemma_same_time(
                            time,
                            Time::of(hour as int, minute as int, 0, 0),
                        );
                    }
                    Some(time)
                },
                None => None,
            },
        },
    }
}

/// Whether a character beside a clock time makes it part of something else.
pub open spec fn clock_breaker(s: Seq<char>, word_chars: Seq<bool>, at: int) -> bool {
    let c = s[at];
    text::alphanumeric(c) || c == '_' || c == ':' || c == '/' || c == '\\' || c == '-' || c == '+'
        || c == '@' || c == '#' || word_chars[at]
}

/// Whether a clock time stands by itself.
pub open spec fn clock_stands(s: Seq<char>, word_chars: Seq<bool>, span: (int, int)) -> bool {
    let n = s.len();
    &&& span.0 > 0 ==> !clock_breaker(s, word_chars, span.0 - 1) && s[span.0 - 1] != '.'
    &&& span.1 < n ==> !clock_breaker(s, word_chars, span.1)
    &&& !(span.1 + 1 < n && s[span.1] == '.' && text::alphanumeric(s[span.1 + 1]))
}

fn is_clock_breaker(s: &Vec<char>, word_chars: &Vec<bool>, at: usize) -> (r: bool)
    requires
        at < s@.len() == word_chars@.len(),
    ensures
        r == clock_breaker(s@, word_chars@, at as int),
{
    let c = s[at];
    text::is_alphanumeric(c) || c == '_' || c == ':' || c == '/' || c == '\\' || c == '-' || c
        == '+' || c == '@' || c == '#' || word_chars[at]
}

fn clock_boundaries(s: &Vec<char>, word_chars: &Vec<bool>, span: (usize, usize)) -> (r: bool)
    requires
        span.0 <= span.1 <= s@.len() == word_chars@.len(),
    ensures
        r == clock_stands(s@, word_chars@, (span.0 as int, span.1 as int)),
{
    let n: usize = s.len();
    if span.0 > 0 && (is_clock_breaker(s, word_chars, span.0 - 1) || s[span.0 - 1] == '.') {
        return false;
    }
    if span.1 < n {
        if is_clock_breaker(s, word_chars, span.1) {
            return false;
        }
        if n - span.1 > 1 && s[span.1] == '.' && text::is_alphanumeric(s[span.1 + 1]) {
            return false;
        }
    }
    true
}

/// How many more of one character than of another a text has.
pub open spec fn balance(s: Seq<char>, open: char, close: char) -> int
    decreases s.len(),
{
    if s.len() == 0 {
        0
    } else {
        balance(s.drop_last(), open, close) + if s.last() == open {
            1int
        } else if s.last() == close {
            -1int
        } else {
            0int
        }
    }
}

/// Whether the last character of a web link is punctuation of the sentence around it.
pub open spec fn loose_end(s: Seq<char>) -> bool {
    let c = s.last();
    ||| c == ')' && balance(s, '(', ')') < 0
    ||| c == ']' && balance(s, '[', ']') < 0
    ||| c == '}' && balance(s, '{', '}') < 0
    ||| c == '.'
    ||| c == ','
    ||| c == ';'
    ||| c == ':'
    ||| c == '!'
    ||| c == '?'
    ||| c == '\''
}

/// A web link without the punctuation of the sentence around it.
pub open spec fn bare_link(s: Seq<char>) -> Seq<char>
    decreases s.len(),
{
    if s.len() > 0 && loose_end(s) {
        bare_link(s.drop_last())
    } else {
        s
    }
}

fn count_balance(s: &Vec<char>, n: usize, open: char, close: char) -> (r: i128)
    requires
        n <= s@.len(),
        open != close,
    ensures
        r == balance(s@.take(n as int), open, close),
{
    let mut r: i128 = 0;
    let mut i: usize = 0;
    assert(balance(s@.take(0), open, close) == 0);
    while i < n
        invariant
            i <= n <= s@.len(),
            -i <= r <= i,
            r == balance(s@.take(i as int), open, close),
        decreases n - i,
    {
        assert(s@.take(i + 1).drop_last() =~= s@.take(i as int));
        if s[i] == open {
            r += 1;
        } else if s[i] == close {
            r -= 1;
        }
        i += 1;
    }
    r
}

fn is_loose_end(s: &Vec<char>, n: usize) -> (r: bool)
    requires
        0 < n <= s@.len(),
    ensures
        r == loose_end(s@.take(n as int)),
{
    let c = s[n - 1];
    if c == ')' {
        count_balance(s, n, '(', ')') < 0
    } else if c == ']' {
        count_balance(s, n, '[', ']') < 0
    } else if c == '}' {
        count_balance(s, n, '{', '}') < 0
    } else {
        c == '.' || c == ',' || c == ';' || c == ':' || c == '!' || c == '?' || c == '\''
    }
}

fn trim_link(s: &Vec<char>) -> (r: Vec<char>)
    ensures
        r@ == bare_link(s@),
{
    let mut n: usize = s.len();
    assert(s@.take(n as int) =~= s@);
    while n > 0 && is_loose_end(s, n)
        invariant
            n <= s@.len(),
            bare_link(s@) == bare_link(s@.take(n as int)),
        decreases n,
    {
        assert(s@.take(n as int).drop_last() =~= s@.take(n - 1));
        n -= 1;
    }
    let r = text::cut(s, 0, n);
    assert(r@ =~= s@.take(n as int));
    r
}

/// Whether a web link may begin behind a character.
pub open spec fn link_opener(c: char) -> bool {
    c == '(' || c == '[' || c == '{' || c == '<' || c == '"' || c == '\''
}

/// The first of the web links from the `i`-th on that is one, and is not part of an address, a
/// name or another link.
pub open spec fn link_from(token: Seq<char>, found: Seq<(int, int)>, i: int) -> Option<Seq<char>>
    decreases found.len() - i,
{
    if i >= found.len() {
        None
    } else {
        let value = bare_link(token.subrange(found[i].0, found[i].1));
        if (found[i].0 > 0 && !link_opener(token[found[i].0 - 1])) || !url::web_url(value) {
            link_from(token, found, i + 1)
        } else {
            Some(value)
        }
    }
}

fn first_url(token: &Vec<char>, found: &Vec<(usize, usize)>) -> (r: Option<String>)
    requires
        spans_fit(spans(found@), token@.len() as int),
    ensures
        text::opt(r) == link_from(token@, spans(found@), 0),
{
    let ghost all = spans(found@);
    let mut i: usize = 0;
    while i < found.len()
        invariant
            i <= found@.len(),
                all == spans(found@),
            spans_fit(all, token@.len() as int),
            link_from(token@, all, 0) == link_from(token@, all, i as int),
        decreases found.len() - i,
    {
        let span = found[i];
        assert(all[i as int] == (span.0 as int, span.1 as int));
        assert(span_fits(all[i as int], token@.len() as int));
        let mut embedded = false;
        if span.0 > 0 {
            let c = token[span.0 - 1];
            embedded = !(c == '(' || c == '[' || c == '{' || c == '<' || c == '"' || c == '\'');
        }
        if !embedded {
            let value = text::string(&trim_link(&text::cut(token, span.0, span.1)));
            if let Ok(_) = url::validate_url(Some(value.as_str())) {
                return Some(value);
            }
        }
        i += 1;
    }
    None
}

/// What the words between whitespace say: projects, tags and a web link; what is taken out of
/// the line, and what is not looked at for dates and times.
#[verifier::ext_equal]
pub struct Metadata {
    pub projects: Seq<Seq<char>>,
    pub tags: Seq<Seq<char>>,
    pub url: Option<Seq<char>>,
    pub removals: Seq<(int, int)>,
    pub protected: Seq<(int, int)>,
}

/// A list with one more text, unless it is there.
pub open spec fn with_one(list: Seq<Seq<char>>, s: Seq<char>) -> Seq<Seq<char>> {
    if list.contains(s) {
        list
    } else {
        list.push(s)
    }
}

/// Whether what stands between whitespace is an address, a path, or an assignment.
pub open spec fn address_like(token: Seq<char>) -> bool {
    token.contains('/') || token.contains('\\') || token.contains('@') || token.contains('=')
        || token.contains('#')
}

/// What has been said, with one more thing between whitespace.
pub open spec fn with_token(
    token: Seq<char>,
    span: (int, int),
    urls: Seq<(int, int)>,
    said: Metadata,
) -> Result<Metadata, ErrorModel> {
    let rest = token.subrange(1, token.len() as int);
    if text::begins(token, "#"@) {
        if model::slug(rest) {
            Ok(
                Metadata {
                    projects: with_one(said.projects, rest),
                    removals: said.removals.push(span),
                    protected: said.protected.push(span),
                    ..said
                },
            )
        } else {
            Err(model::slug_error(rest))
        }
    } else if text::begins(token, "@"@) {
        if model::tag(rest) {
            Ok(
                Metadata {
                    tags: with_one(said.tags, rest),
                    removals: said.removals.push(span),
                    protected: said.protected.push(span),
                    ..said
                },
            )
        } else {
            Err(model::tag_error(rest))
        }
    } else {
        Ok(
            Metadata {
                protected: if address_like(token) {
                    said.protected.push(span)
                } else {
                    said.protected
                },
                url: if said.url is None {
                    link_from(token, urls, 0)
                } else {
                    said.url
                },
                ..said
            },
        )
    }
}

/// What has been said, with all between whitespace from the `i`-th on.
pub open spec fn with_tokens(
    s: Seq<char>,
    tokens: Seq<(int, int)>,
    urls: Seq<Seq<(int, int)>>,
    i: int,
    said: Metadata,
) -> Result<Metadata, ErrorModel>
    decreases tokens.len() - i,
{
    if i >= tokens.len() {
        Ok(said)
    } else {
        match with_token(s.subrange(tokens[i].0, tokens[i].1), tokens[i], urls[i], said) {
            Err(e) => Err(e),
            Ok(said) => with_tokens(s, tokens, urls, i + 1, said),
        }
    }
}

/// Nothing said.
pub open spec fn unsaid() -> Metadata {
    Metadata {
        projects: seq![],
        tags: seq![],
        url: None,
        removals: seq![],
        protected: seq![],
    }
}

/// What has been said, in code.
struct Said {
    projects: Vec<String>,
    tags: Vec<String>,
    url: Option<String>,
    removals: Vec<(usize, usize)>,
    protected: Vec<(usize, usize)>,
}

impl View for Said {
    type V = Metadata;

    closed spec fn view(&self) -> Metadata {
        Metadata {
            projects: text::strings(self.projects@),
            tags: text::strings(self.tags@),
            url: text::opt(self.url),
            removals: spans(self.removals@),
            protected: spans(self.protected@),
        }
    }
}

fn push_one(list: &mut Vec<String>, s: String)
    ensures
        text::strings(final(list)@) == with_one(text::strings(old(list)@), s@),
{
    if !text::is_listed(list.as_slice(), s.as_str()) {
        let ghost had = text::strings(list@);
        list.push(s);
        assert(text::strings(list@) =~= had.push(s@));
    }
}

fn push_span(list: &mut Vec<(usize, usize)>, span: (usize, usize))
    ensures
        spans(final(list)@) == spans(old(list)@).push((span.0 as int, span.1 as int)),
        final(list)@ == old(list)@.push(span),
{
    let ghost had = spans(list@);
    list.push(span);
    assert(spans(list@) =~= had.push((span.0 as int, span.1 as int)));
}

impl Said {
    fn add_token(
        &mut self,
        token: &Vec<char>,
        span: (usize, usize),
        urls: &Vec<(usize, usize)>,
    ) -> (r: Result<(), Error>)
        requires
                spans_fit(spans(urls@), token@.len() as int),
        ensures
            (match r {
                Ok(_) => Ok(final(self)@),
                Err(e) => Err(e@),
            }) == with_token(
                token@,
                (span.0 as int, span.1 as int),
                spans(urls@),
                old(self)@,
            ),
    {
        proof {
            reveal_strlit("#");
            reveal_strlit("@");
            assert("#"@.len() == 1 && "@"@.len() == 1);
        }
        if text::is_at(token, "#", 0) {
            let project = text::string(&text::cut(token, 1, token.len()));
            if let Err(e) = model::validate_project_slug(project.as_str()) {
                return Err(e);
            }
            push_one(&mut self.projects, project);
            push_span(&mut self.removals, span);
            push_span(&mut self.protected, span);
        } else if text::is_at(token, "@", 0) {
            let tag = text::string(&text::cut(token, 1, token.len()));
            if let Err(e) = model::validate_tag(tag.as_str()) {
                return Err(e);
            }
            push_one(&mut self.tags, tag);
            push_span(&mut self.removals, span);
            push_span(&mut self.protected, span);
        } else {
            if text::has(token, '/') || text::has(token, '\\') || text::has(token, '@')
                || text::has(token, '=') || text::has(token, '#') {
                push_span(&mut self.protected, span);
            }
            if self.url.is_none() {
                self.url = first_url(token, urls);
            }
        }
        Ok(())
    }
}

/// The word at a span, in small letters.
pub open spec fn word(s: Seq<char>, span: (int, int)) -> Seq<char> {
    text::lower(s.subrange(span.0, span.1))
}

/// Whether a word may be part of a date or a time.
pub open spec fn free_word(s: Seq<char>, span: (int, int), protected: Seq<(int, int)>) -> bool {
    !overlaps(span, protected) && !in_identifier(s, span)
}

/// A phrase that says a date: where it ends, what it means, and the time that it says, if any.
#[verifier::ext_equal]
pub struct Phrase {
    pub end: int,
    pub meaning: DateMeaning,
    pub time: Option<Time>,
}

/// The phrase that `next` begins.
pub open spec fn next_phrase(
    s: Seq<char>,
    words: Seq<(int, int)>,
    i: int,
    protected: Seq<(int, int)>,
) -> Option<Phrase> {
    if i + 1 < words.len() && space_between(s, words[i].1, words[i + 1].0) && free_word(
        s,
        words[i + 1],
        protected,
    ) {
        let unit = word(s, words[i + 1]);
        let end = words[i + 1].1;
        if unit == "week"@ {
            Some(Phrase { end, meaning: DateMeaning::Weeks(1), time: None })
        } else if unit == "month"@ {
            Some(Phrase { end, meaning: DateMeaning::Months(1), time: None })
        } else {
            None
        }
    } else {
        None
    }
}

/// A unit of time, without the ending of the plural.
pub open spec fn singular(unit: Seq<char>) -> Seq<char> {
    if unit.len() > 0 && unit.last() == 's' {
        unit.drop_last()
    } else {
        unit
    }
}

/// The phrase that `in` begins.
pub open spec fn in_phrase(
    s: Seq<char>,
    words: Seq<(int, int)>,
    i: int,
    protected: Seq<(int, int)>,
    later: Later,
) -> Result<Option<Phrase>, ErrorModel> {
    if i + 2 < words.len() && space_between(s, words[i].1, words[i + 1].0) && space_between(
        s,
        words[i + 1].1,
        words[i + 2].0,
    ) && !overlaps((words[i + 1].0, words[i + 2].1), protected) && !in_identifier(
        s,
        words[i + 2],
    ) {
        let end = words[i + 2].1;
        let unit = singular(word(s, words[i + 2]));
        match positive(s.subrange(words[i + 1].0, words[i + 1].1)) {
            None => Ok(None),
            Some(amount) => if unit == "day"@ {
                Ok(Some(Phrase { end, meaning: DateMeaning::Days(amount), time: None }))
            } else if unit == "week"@ {
                Ok(Some(Phrase { end, meaning: DateMeaning::Weeks(amount), time: None }))
            } else if unit == "month"@ {
                Ok(Some(Phrase { end, meaning: DateMeaning::Months(amount), time: None }))
            } else if unit == "hour"@ || unit == "minute"@ {
                let seconds: int = if unit == "hour"@ {
                    3600
                } else {
                    60
                };
                match elapsed(later, amount as int, seconds) {
                    Err(e) => Err(e),
                    Ok((date, time)) => Ok(
                        Some(
                            Phrase {
                                end,
                                meaning: DateMeaning::Resolved(date),
                                time: Some(time),
                            },
                        ),
                    ),
                }
            } else {
                Ok(None)
            },
        }
    } else {
        Ok(None)
    }
}

/// The phrase that the `i`-th word begins.
pub open spec fn phrase_at(
    s: Seq<char>,
    words: Seq<(int, int)>,
    i: int,
    protected: Seq<(int, int)>,
    later: Later,
) -> Result<Option<Phrase>, ErrorModel> {
    let name = word(s, words[i]);
    let end = words[i].1;
    if !free_word(s, words[i], protected) {
        Ok(None)
    } else if name == "today"@ || name == "tod"@ {
        Ok(Some(Phrase { end, meaning: DateMeaning::Days(0), time: None }))
    } else if name == "tomorrow"@ || name == "tom"@ {
        Ok(Some(Phrase { end, meaning: DateMeaning::Days(1), time: None }))
    } else if name == "next"@ {
        Ok(next_phrase(s, words, i, protected))
    } else if name == "in"@ {
        in_phrase(s, words, i, protected, later)
    } else {
        match weekday_named(name) {
            Some(day) => Ok(Some(Phrase { end, meaning: DateMeaning::Weekday(day), time: None })),
            None => Ok(None),
        }
    }
}

/// A date or a time that has been found: where it stands, and what it is.
pub type FoundDate = Option<((int, int), DateMeaning)>;

/// See [`FoundDate`].
pub type FoundTime = Option<((int, int), Time)>;

/// The last date and the last time that phrases say, from the `i`-th word on.
pub open spec fn phrases_from(
    s: Seq<char>,
    words: Seq<(int, int)>,
    i: int,
    protected: Seq<(int, int)>,
    later: Later,
    date: FoundDate,
    time: FoundTime,
) -> Result<(FoundDate, FoundTime), ErrorModel>
    decreases words.len() - i,
{
    if i >= words.len() {
        Ok((date, time))
    } else {
        match phrase_at(s, words, i, protected, later) {
            Err(e) => Err(e),
            Ok(None) => phrases_from(s, words, i + 1, protected, later, date, time),
            Ok(Some(phrase)) => {
                let span = (words[i].0, phrase.end);
                phrases_from(
                    s,
                    words,
                    i + 1,
                    protected,
                    later,
                    Some((span, phrase.meaning)),
                    match phrase.time {
                        Some(said) => Some((span, said)),
                        None => time,
                    },
                )
            },
        }
    }
}

/// The last word among the first `n` that ends before a place, or at it.
pub open spec fn word_before(words: Seq<(int, int)>, at: int, n: int) -> Option<int>
    decreases n,
{
    if n <= 0 {
        None
    } else if words[n - 1].1 <= at {
        Some(n - 1)
    } else {
        word_before(words, at, n - 1)
    }
}

/// Where the phrase of a clock time begins: at the word `at` before it, if there is one.
pub open spec fn clock_start(
    s: Seq<char>,
    words: Seq<(int, int)>,
    protected: Seq<(int, int)>,
    start: int,
) -> int {
    match word_before(words, start, words.len() as int) {
        Some(k) => if word(s, words[k]) == "at"@ && space_between(s, words[k].1, start)
            && free_word(s, words[k], protected) {
            words[k].0
        } else {
            start
        },
        None => start,
    }
}

/// Where a time that has been found begins; before the line where there is none.
pub open spec fn time_start(time: FoundTime) -> int {
    match time {
        Some((span, _)) => span.0,
        None => -1,
    }
}

/// The last time that has been found, with the clock times from the `i`-th on.
pub open spec fn clocks_last(
    s: Seq<char>,
    scan: ScanModel,
    protected: Seq<(int, int)>,
    i: int,
    time: FoundTime,
) -> FoundTime
    decreases scan.clocks.len() - i,
{
    if i >= scan.clocks.len() {
        time
    } else {
        let span = scan.clocks[i].span;
        let start = clock_start(s, scan.words, protected, span.0);
        let next = if overlaps(span, protected) || !clock_stands(s, scan.word_chars, span) {
            time
        } else {
            match clock_time(scan.clocks[i].groups) {
                None => time,
                Some(said) => if start > time_start(time) {
                    Some(((start, span.1), said))
                } else {
                    time
                },
            }
        };
        clocks_last(s, scan, protected, i + 1, next)
    }
}

/// Whether a character beside a date or a time is taken out with it.
pub open spec fn phrase_separator(s: Seq<char>, separators: Seq<bool>, at: int) -> bool {
    s[at] != '/' && s[at] != '\\' && s[at] != '#' && s[at] != '@' && s[at] != '_'
        && separators[at]
}

/// Where what is taken out with a phrase begins.
pub open spec fn widened_start(
    s: Seq<char>,
    separators: Seq<bool>,
    protected: Seq<(int, int)>,
    start: int,
) -> int
    decreases start,
{
    if start > 0 && phrase_separator(s, separators, start - 1) && !overlaps(
        (start - 1, start),
        protected,
    ) {
        widened_start(s, separators, protected, start - 1)
    } else {
        start
    }
}

/// Where what is taken out with a phrase ends.
pub open spec fn widened_end(
    s: Seq<char>,
    separators: Seq<bool>,
    protected: Seq<(int, int)>,
    end: int,
) -> int
    decreases s.len() - end,
{
    if end < s.len() && phrase_separator(s, separators, end) && !overlaps(
        (end, end + 1),
        protected,
    ) {
        widened_end(s, separators, protected, end + 1)
    } else {
        end
    }
}

/// What is taken out with a phrase: the whitespace and punctuation around it too.
pub open spec fn widened(
    s: Seq<char>,
    separators: Seq<bool>,
    protected: Seq<(int, int)>,
    span: (int, int),
) -> (int, int) {
    (
        widened_start(s, separators, protected, span.0),
        widened_end(s, separators, protected, span.1),
    )
}

/// The line with spaces in the place of what is taken out.
pub open spec fn cleared(s: Seq<char>, removals: Seq<(int, int)>) -> Seq<char> {
    Seq::new(
        s.len(),
        |i: int|
            if overlaps((i, i + 1), removals) {
                ' '
            } else {
                s[i]
            },
    )
}

/// Where the next word begins, from a place on.
pub open spec fn word_start(s: Seq<char>, i: int) -> int
    decreases s.len() - i,
{
    if i < s.len() && text::is_whitespace(s[i]) {
        word_start(s, i + 1)
    } else {
        i
    }
}

/// Where the word that begins at a place ends.
pub open spec fn word_stop(s: Seq<char>, i: int) -> int
    decreases s.len() - i,
{
    if i < s.len() && !text::is_whitespace(s[i]) {
        word_stop(s, i + 1)
    } else {
        i
    }
}

/// Where a word begins and ends is in range.
pub proof fn lemma_word_bounds(s: Seq<char>, i: int)
    requires
        0 <= i <= s.len(),
    ensures
        i <= word_start(s, i) <= s.len(),
        word_start(s, i) < s.len() ==> !text::is_whitespace(s[word_start(s, i)]),
        i <= word_stop(s, i) <= s.len(),
        i < s.len() && !text::is_whitespace(s[i]) ==> i < word_stop(s, i),
    decreases s.len() - i,
{
    if i < s.len() {
        lemma_word_bounds(s, i + 1);
    }
}

/// The words between whitespace, from a place on.
pub open spec fn words_from(s: Seq<char>, i: int) -> Seq<Seq<char>>
    decreases s.len() - i,
    when 0 <= i
{
    if i >= s.len() {
        seq![]
    } else {
        proof {
            lemma_word_bounds(s, i);
            lemma_word_bounds(s, word_start(s, i));
        }
        let start = word_start(s, i);
        if start >= s.len() {
            seq![]
        } else {
            seq![s.subrange(start, word_stop(s, start))] + words_from(s, word_stop(s, start))
        }
    }
}

/// The words of a line between whitespace.
fn split_words(s: &Vec<char>) -> (r: Vec<String>)
    ensures
        text::strings(r@) == words_from(s@, 0),
{
    let n: usize = s.len();
    let mut r: Vec<String> = Vec::new();
    let mut i: usize = 0;
    assert(text::strings(r@) + words_from(s@, 0) =~= words_from(s@, 0));
    while i < n
        invariant
            i <= n == s@.len(),
            words_from(s@, 0) == text::strings(r@) + words_from(s@, i as int),
        decreases n - i,
    {
        let ghost had = text::strings(r@);
        proof {
            lemma_word_bounds(s@, i as int);
            lemma_word_bounds(s@, word_start(s@, i as int));
        }
        let mut start: usize = i;
        while start < n && text::is_whitespace(s[start])
            invariant
                i <= start <= n == s@.len(),
                word_start(s@, i as int) == word_start(s@, start as int),
            decreases n - start,
        {
            start += 1;
        }
        if start >= n {
            assert(had + Seq::<Seq<char>>::empty() =~= had);
            return r;
        }
        let mut stop: usize = start;
        while stop < n && !text::is_whitespace(s[stop])
            invariant
                start <= stop <= n == s@.len(),
                word_stop(s@, start as int) == word_stop(s@, stop as int),
            decreases n - stop,
        {
            stop += 1;
        }
        let one = text::string(&text::cut(s, start, stop));
        r.push(one);
        proof {
            assert(text::strings(r@) =~= had.push(one@));
            assert(had.push(one@) + words_from(s@, stop as int) =~= had + (seq![one@]
                + words_from(s@, stop as int)));
        }
        i = stop;
    }
    assert(text::strings(r@) + Seq::<Seq<char>>::empty() =~= text::strings(r@));
    r
}

/// The name that is left of a line.
pub open spec fn name_left(s: Seq<char>, removals: Seq<(int, int)>) -> Seq<char> {
    text::joined(words_from(cleared(s, removals), 0), " "@)
}

fn remove_spans(s: &Vec<char>, removals: &Vec<(usize, usize)>) -> (r: String)
    ensures
        r@ == name_left(s@, spans(removals@)),
{
    let n: usize = s.len();
    let mut kept: Vec<char> = Vec::new();
    let mut i: usize = 0;
    while i < n
        invariant
            i <= n == s@.len(),
            kept@.len() == i,
            forall|k: int| 0 <= k < i ==> #[trigger] kept@[k] == cleared(s@, spans(removals@))[k],
        decreases n - i,
    {
        if overlaps_any((i, i + 1), removals) {
            kept.push(' ');
        } else {
            kept.push(s[i]);
        }
        i += 1;
    }
    assert(kept@ =~= cleared(s@, spans(removals@)));
    text::join(&split_words(&kept), " ")
}

/// What a line says of a task.
#[verifier::ext_equal]
pub struct InputModel {
    pub name: Seq<char>,
    pub projects: Seq<Seq<char>>,
    pub tags: Seq<Seq<char>>,
    pub url: Option<Seq<char>>,
    pub due_date: Option<Date>,
    pub due_time: Option<Time>,
}

/// A task that a line says.
#[derive(Debug, PartialEq, Eq)]
pub struct ParsedTaskInput {
    pub name: String,
    pub projects: Vec<String>,
    pub tags: Vec<String>,
    pub url: Option<String>,
    pub due_date: Option<Date>,
    pub due_time: Option<Time>,
}

impl View for ParsedTaskInput {
    type V = InputModel;

    open spec fn view(&self) -> InputModel {
        InputModel {
            name: self.name@,
            projects: text::strings(self.projects@),
            tags: text::strings(self.tags@),
            url: text::opt(self.url),
            due_date: self.due_date,
            due_time: self.due_time,
        }
    }
}

/// The due date: the date that was found, or today where only a time was.
pub open spec fn due_of(date: FoundDate, time: FoundTime, today: Date) -> Result<
    Option<Date>,
    ErrorModel,
> {
    match date {
        Some((_, meaning)) => match resolved_date(meaning, today) {
            Ok(date) => Ok(Some(date)),
            Err(e) => Err(e),
        },
        None => if time is Some {
            match recurrence::check_date(today, "due_date"@) {
                Ok(_) => Ok(Some(today)),
                Err(e) => Err(e),
            }
        } else {
            Ok(None)
        },
    }
}

/// What is taken out of the line.
pub open spec fn all_removals(
    s: Seq<char>,
    separators: Seq<bool>,
    said: Metadata,
    date: FoundDate,
    time: FoundTime,
) -> Seq<(int, int)> {
    let first = match date {
        Some((span, _)) => said.removals.push(widened(s, separators, said.protected, span)),
        None => said.removals,
    };
    match time {
        Some((span, _)) => first.push(widened(s, separators, said.protected, span)),
        None => first,
    }
}

/// The task that a line says, by what the patterns find in it: projects and tags, the first web
/// link, the last date and the last time; the name is what is left.
pub open spec fn task_said(s: Seq<char>, scan: ScanModel, today: Date, later: Later) -> Result<
    InputModel,
    ErrorModel,
> {
    match with_tokens(s, scan.tokens, scan.urls, 0, unsaid()) {
        Err(e) => Err(e),
        Ok(said) => match phrases_from(s, scan.words, 0, said.protected, later, None, None) {
            Err(e) => Err(e),
            Ok((date, spoken)) => {
                let time = clocks_last(s, scan, said.protected, 0, spoken);
                match due_of(date, time, today) {
                    Err(e) => Err(e),
                    Ok(due_date) => {
                        let name = name_left(
                            s,
                            all_removals(s, scan.separators, said, date, time),
                        );
                        match model::check_name(name, "name"@) {
                            Err(e) => Err(e),
                            Ok(_) => Ok(
                                InputModel {
                                    name,
                                    projects: said.projects,
                                    tags: said.tags,
                                    url: said.url,
                                    due_date,
                                    due_time: match time {
                                        Some((_, time)) => Some(time),
                                        None => None,
                                    },
                                },
                            ),
                        }
                    },
                }
            },
        },
    }
}

/// A phrase, in code: where it ends, what it means, and the time that it says, if any.
struct SaidPhrase {
    end: usize,
    meaning: DateMeaning,
    time: Option<Time>,
}

impl View for SaidPhrase {
    type V = Phrase;

    closed spec fn view(&self) -> Phrase {
        Phrase { end: self.end as int, meaning: self.meaning, time: self.time }
    }
}

/// What an optional phrase is.
spec fn opt_phrase(phrase: Option<SaidPhrase>) -> Option<Phrase> {
    match phrase {
        Some(phrase) => Some(phrase@),
        None => None,
    }
}

/// Whether a phrase ends in the line, and names a day of the week where it means one.
spec fn phrase_fits(phrase: Option<SaidPhrase>, start: int, length: int) -> bool {
    phrase matches Some(phrase) ==> start <= phrase.end <= length && (
    phrase.meaning matches DateMeaning::Weekday(day) ==> day < 7)
}

/// The result of reading a phrase, as values.
spec fn phrase_outcome(r: Result<Option<SaidPhrase>, Error>) -> Result<Option<Phrase>, ErrorModel> {
    match r {
        Ok(phrase) => Ok(opt_phrase(phrase)),
        Err(e) => Err(e@),
    }
}

fn word_at(s: &Vec<char>, span: (usize, usize)) -> (r: Vec<char>)
    requires
        span.0 <= span.1 <= s@.len(),
    ensures
        r@ == word(s@, (span.0 as int, span.1 as int)),
{
    text::to_lower(&text::cut(s, span.0, span.1))
}

fn is_free_word(s: &Vec<char>, span: (usize, usize), protected: &Vec<(usize, usize)>) -> (r: bool)
    requires
        span.0 <= span.1 <= s@.len(),
    ensures
        r == free_word(s@, (span.0 as int, span.1 as int), spans(protected@)),
{
    !overlaps_any(span, protected) && !identifier_boundary(s, span)
}

fn read_next(
    s: &Vec<char>,
    words: &Vec<(usize, usize)>,
    i: usize,
    protected: &Vec<(usize, usize)>,
) -> (r: Option<SaidPhrase>)
    requires
        i < words@.len(),
        spans_fit(spans(words@), s@.len() as int),
    ensures
        opt_phrase(r) == next_phrase(s@, spans(words@), i as int, spans(protected@)),
        phrase_fits(r, 0, s@.len() as int),
{
    let n: usize = words.len();
    let ghost all = spans(words@);
    assert(all[i as int] == (words@[i as int].0 as int, words@[i as int].1 as int));
    assert(span_fits(all[i as int], s@.len() as int));
    if n - i <= 1 {
        return None;
    }
    let next = words[i + 1];
    assert(all[i + 1] == (next.0 as int, next.1 as int));
    assert(span_fits(all[i + 1], s@.len() as int));
    if !whitespace_between(s, words[i].1, next.0) || !is_free_word(s, next, protected) {
        return None;
    }
    let unit = word_at(s, next);
    if text::spells(&unit, "week") {
        Some(SaidPhrase { end: next.1, meaning: DateMeaning::Weeks(1), time: None })
    } else if text::spells(&unit, "month") {
        Some(SaidPhrase { end: next.1, meaning: DateMeaning::Months(1), time: None })
    } else {
        None
    }
}

fn without_plural(unit: Vec<char>) -> (r: Vec<char>)
    ensures
        r@ == singular(unit@),
{
    let n: usize = unit.len();
    if n > 0 && unit[n - 1] == 's' {
        let r = text::cut(&unit, 0, n - 1);
        assert(r@ =~= unit@.drop_last());
        r
    } else {
        unit
    }
}

fn read_in(
    s: &Vec<char>,
    words: &Vec<(usize, usize)>,
    i: usize,
    protected: &Vec<(usize, usize)>,
    later: &Later,
) -> (r: Result<Option<SaidPhrase>, Error>)
    requires
        i < words@.len(),
        spans_fit(spans(words@), s@.len() as int),
    ensures
        phrase_outcome(r) == in_phrase(
            s@,
            spans(words@),
            i as int,
            spans(protected@),
            *later,
        ),
        r matches Ok(phrase) ==> phrase_fits(phrase, 0, s@.len() as int),
{
    let n: usize = words.len();
    let ghost all = spans(words@);
    assert(all[i as int] == (words@[i as int].0 as int, words@[i as int].1 as int));
    assert(span_fits(all[i as int], s@.len() as int));
    if n - i <= 2 {
        return Ok(None);
    }
    let amount_at = words[i + 1];
    let unit_at = words[i + 2];
    assert(all[i + 1] == (amount_at.0 as int, amount_at.1 as int));
    assert(all[i + 2] == (unit_at.0 as int, unit_at.1 as int));
    assert(span_fits(all[i + 1], s@.len() as int));
    assert(span_fits(all[i + 2], s@.len() as int));
    if !whitespace_between(s, words[i].1, amount_at.0) || !whitespace_between(
        s,
        amount_at.1,
        unit_at.0,
    ) || overlaps_any((amount_at.0, unit_at.1), protected) || identifier_boundary(s, unit_at) {
        return Ok(None);
    }
    let amount = match positive_integer(&text::cut(s, amount_at.0, amount_at.1)) {
        Some(amount) => amount,
        None => {
            return Ok(None);
        },
    };
    let end: usize = unit_at.1;
    let unit = without_plural(word_at(s, unit_at));
    if text::spells(&unit, "day") {
        Ok(Some(SaidPhrase { end, meaning: DateMeaning::Days(amount), time: None }))
    } else if text::spells(&unit, "week") {
        Ok(Some(SaidPhrase { end, meaning: DateMeaning::Weeks(amount), time: None }))
    } else if text::spells(&unit, "month") {
        Ok(Some(SaidPhrase { end, meaning: DateMeaning::Months(amount), time: None }))
    } else {
        let hour = text::spells(&unit, "hour");
        if !hour && !text::spells(&unit, "minute") {
            return Ok(None);
        }
        let seconds: u64 = if hour {
            3600
        } else {
            60
        };
        match relative_time(later, amount, seconds) {
            Ok((date, time)) => Ok(
                Some(
                    SaidPhrase {
                        end,
                        meaning: DateMeaning::Resolved(date),
                        time: Some(time),
                    },
                ),
            ),
            Err(e) => Err(e),
        }
    }
}

fn read_phrase(
    s: &Vec<char>,
    words: &Vec<(usize, usize)>,
    i: usize,
    protected: &Vec<(usize, usize)>,
    later: &Later,
) -> (r: Result<Option<SaidPhrase>, Error>)
    requires
        i < words@.len(),
        spans_fit(spans(words@), s@.len() as int),
    ensures
        phrase_outcome(r) == phrase_at(
            s@,
            spans(words@),
            i as int,
            spans(protected@),
            *later,
        ),
        r matches Ok(phrase) ==> phrase_fits(phrase, 0, s@.len() as int),
{
    let span = words[i];
    let ghost all = spans(words@);
    assert(all[i as int] == (span.0 as int, span.1 as int));
    assert(span_fits(all[i as int], s@.len() as int));
    if !is_free_word(s, span, protected) {
        return Ok(None);
    }
    let name = word_at(s, span);
    let end: usize = span.1;
    if text::spells(&name, "today") || text::spells(&name, "tod") {
        Ok(Some(SaidPhrase { end, meaning: DateMeaning::Days(0), time: None }))
    } else if text::spells(&name, "tomorrow") || text::spells(&name, "tom") {
        Ok(Some(SaidPhrase { end, meaning: DateMeaning::Days(1), time: None }))
    } else if text::spells(&name, "next") {
        Ok(read_next(s, words, i, protected))
    } else if text::spells(&name, "in") {
        read_in(s, words, i, protected, later)
    } else {
        match weekday(&name) {
            Some(day) => Ok(
                Some(SaidPhrase { end, meaning: DateMeaning::Weekday(day), time: None }),
            ),
            None => Ok(None),
        }
    }
}

/// A date that has been found, as values.
spec fn found_date(date: Option<((usize, usize), DateMeaning)>) -> FoundDate {
    match date {
        Some((span, meaning)) => Some(((span.0 as int, span.1 as int), meaning)),
        None => None,
    }
}

/// A time that has been found, as values.
spec fn found_time(time: Option<((usize, usize), Time)>) -> FoundTime {
    match time {
        Some((span, said)) => Some(((span.0 as int, span.1 as int), said)),
        None => None,
    }
}

/// Whether a date that has been found lies in the line.
spec fn date_fits(date: Option<((usize, usize), DateMeaning)>, length: int) -> bool {
    date matches Some((span, meaning)) ==> span.0 <= length && span.1 <= length && (
    meaning matches DateMeaning::Weekday(day) ==> day < 7)
}

/// Whether a time that has been found lies in the line.
spec fn time_fits(time: Option<((usize, usize), Time)>, length: int) -> bool {
    time matches Some((span, _)) ==> span.0 <= length && span.1 <= length
}

/// What phrases say, in code.
type SaidDates = (Option<((usize, usize), DateMeaning)>, Option<((usize, usize), Time)>);

/// The result of reading phrases, as values.
spec fn phrases_outcome(r: Result<SaidDates, Error>) -> Result<(FoundDate, FoundTime), ErrorModel> {
    match r {
        Ok((date, time)) => Ok((found_date(date), found_time(time))),
        Err(e) => Err(e@),
    }
}

fn read_phrases(
    s: &Vec<char>,
    words: &Vec<(usize, usize)>,
    protected: &Vec<(usize, usize)>,
    later: &Later,
) -> (r: Result<SaidDates, Error>)
    requires
        spans_fit(spans(words@), s@.len() as int),
    ensures
        phrases_outcome(r) == phrases_from(
            s@,
            spans(words@),
            0,
            spans(protected@),
            *later,
            None,
            None,
        ),
        r matches Ok((date, time)) ==> date_fits(date, s@.len() as int) && time_fits(
            time,
            s@.len() as int,
        ),
{
    let ghost all = spans(words@);
    let ghost kept = spans(protected@);
    let mut date: Option<((usize, usize), DateMeaning)> = None;
    let mut time: Option<((usize, usize), Time)> = None;
    let mut i: usize = 0;
    while i < words.len()
        invariant
            i <= words@.len(),
            all == spans(words@),
            kept == spans(protected@),
            spans_fit(all, s@.len() as int),
            date_fits(date, s@.len() as int),
            time_fits(time, s@.len() as int),
            phrases_from(s@, all, 0, kept, *later, None, None) == phrases_from(
                s@,
                all,
                i as int,
                kept,
                *later,
                found_date(date),
                found_time(time),
            ),
        decreases words.len() - i,
    {
        let start: usize = words[i].0;
        assert(all[i as int] == (words@[i as int].0 as int, words@[i as int].1 as int));
        assert(span_fits(all[i as int], s@.len() as int));
        match read_phrase(s, words, i, protected, later) {
            Err(e) => {
                return Err(e);
            },
            Ok(None) => {},
            Ok(Some(phrase)) => {
                date = Some(((start, phrase.end), phrase.meaning));
                if let Some(said) = phrase.time {
                    time = Some(((start, phrase.end), said));
                }
            },
        }
        i += 1;
    }
    Ok((date, time))
}

fn start_of_clock(
    s: &Vec<char>,
    words: &Vec<(usize, usize)>,
    protected: &Vec<(usize, usize)>,
    start: usize,
) -> (r: usize)
    requires
        start <= s@.len(),
        spans_fit(spans(words@), s@.len() as int),
    ensures
        r == clock_start(s@, spans(words@), spans(protected@), start as int),
        r <= s@.len(),
{
    let ghost all = spans(words@);
    let mut n: usize = words.len();
    while n > 0 && words[n - 1].1 > start
        invariant
            n <= words@.len(),
            all == spans(words@),
            word_before(all, start as int, all.len() as int) == word_before(
                all,
                start as int,
                n as int,
            ),
        decreases n,
    {
        assert(all[n - 1] == (words@[n - 1].0 as int, words@[n - 1].1 as int));
        n -= 1;
    }
    if n == 0 {
        return start;
    }
    let span = words[n - 1];
    assert(all[n - 1] == (span.0 as int, span.1 as int));
    assert(span_fits(all[n - 1], s@.len() as int));
    if text::spells(&word_at(s, span), "at") && whitespace_between(s, span.1, start)
        && is_free_word(s, span, protected) {
        span.0
    } else {
        start
    }
}

fn read_clocks(
    s: &Vec<char>,
    scan: &Scan,
    protected: &Vec<(usize, usize)>,
    spoken: Option<((usize, usize), Time)>,
) -> (r: Option<((usize, usize), Time)>)
    requires
        scan@.fits(s@.len() as int),
        time_fits(spoken, s@.len() as int),
    ensures
        found_time(r) == clocks_last(s@, scan@, spans(protected@), 0, found_time(spoken)),
        time_fits(r, s@.len() as int),
{
    let ghost models = scan@.clocks;
    let ghost kept = spans(protected@);
    let mut time = spoken;
    let mut i: usize = 0;
    while i < scan.clocks.len()
        invariant
            i <= scan.clocks@.len(),
            models == scan@.clocks,
            models == clock_models(scan.clocks@),
            kept == spans(protected@),
            scan@.fits(s@.len() as int),
            time_fits(time, s@.len() as int),
            clocks_last(s@, scan@, kept, 0, found_time(spoken)) == clocks_last(
                s@,
                scan@,
                kept,
                i as int,
                found_time(time),
            ),
        decreases scan.clocks.len() - i,
    {
        let clock = &scan.clocks[i];
        assert(models[i as int] == clock@);
        assert(span_fits(models[i as int].span, s@.len() as int));
        let span = clock.span;
        if !overlaps_any(span, protected) && clock_boundaries(s, &scan.word_chars, span) {
            if let Some(said) = time_of(&clock.groups) {
                let start: usize = start_of_clock(s, &scan.words, protected, span.0);
                let later = match time {
                    Some((before, _)) => start > before.0,
                    None => true,
                };
                if later {
                    time = Some(((start, span.1), said));
                }
            }
        }
        i += 1;
    }
    time
}

fn is_phrase_separator(s: &Vec<char>, separators: &Vec<bool>, at: usize) -> (r: bool)
    requires
        at < s@.len() == separators@.len(),
    ensures
        r == phrase_separator(s@, separators@, at as int),
{
    let c = s[at];
    c != '/' && c != '\\' && c != '#' && c != '@' && c != '_' && separators[at]
}

fn expand_phrase(
    s: &Vec<char>,
    separators: &Vec<bool>,
    protected: &Vec<(usize, usize)>,
    span: (usize, usize),
) -> (r: (usize, usize))
    requires
        span.0 <= s@.len() == separators@.len(),
        span.1 <= s@.len(),
    ensures
        (r.0 as int, r.1 as int) == widened(
            s@,
            separators@,
            spans(protected@),
            (span.0 as int, span.1 as int),
        ),
{
    let n: usize = s.len();
    let mut start: usize = span.0;
    while start > 0 && is_phrase_separator(s, separators, start - 1) && !overlaps_any(
        (start - 1, start),
        protected,
    )
        invariant
            start <= s@.len() == separators@.len(),
            widened_start(s@, separators@, spans(protected@), span.0 as int) == widened_start(
                s@,
                separators@,
                spans(protected@),
                start as int,
            ),
        decreases start,
    {
        start -= 1;
    }
    let mut end: usize = span.1;
    while end < n && is_phrase_separator(s, separators, end) && !overlaps_any(
        (end, end + 1),
        protected,
    )
        invariant
            end <= n == s@.len() == separators@.len(),
            widened_end(s@, separators@, spans(protected@), span.1 as int) == widened_end(
                s@,
                separators@,
                spans(protected@),
                end as int,
            ),
        decreases n - end,
    {
        end += 1;
    }
    (start, end)
}

fn read_tokens(s: &Vec<char>, scan: &Scan) -> (r: Result<Said, Error>)
    requires
        scan@.fits(s@.len() as int),
    ensures
        error::viewed(r) == with_tokens(s@, scan@.tokens, scan@.urls, 0, unsaid()),
{
    let ghost tokens = scan@.tokens;
    let ghost urls = scan@.urls;
    let mut said = Said {
        projects: Vec::new(),
        tags: Vec::new(),
        url: None,
        removals: Vec::new(),
        protected: Vec::new(),
    };
    assert(said@ =~= unsaid());
    let mut i: usize = 0;
    while i < scan.tokens.len()
        invariant
            i <= scan.tokens@.len(),
            tokens == scan@.tokens,
            tokens == spans(scan.tokens@),
            urls == scan@.urls,
            urls == all_spans(scan.urls@),
            scan@.fits(s@.len() as int),
            with_tokens(s@, tokens, urls, 0, unsaid()) == with_tokens(
                s@,
                tokens,
                urls,
                i as int,
                said@,
            ),
        decreases scan.tokens.len() - i,
    {
        let span = scan.tokens[i];
        assert(tokens[i as int] == (span.0 as int, span.1 as int));
        assert(span_fits(tokens[i as int], s@.len() as int));
        assert(urls[i as int] == spans(scan.urls@[i as int]@));
        let token = text::cut(s, span.0, span.1);
        if let Err(e) = said.add_token(&token, span, &scan.urls[i]) {
            return Err(e);
        }
        i += 1;
    }
    Ok(said)
}

/// The task that a line says, by what the patterns find in it. See [`task_said`].
pub fn read_task(line: &str, scan: &Scan, today: Date, later: &Later) -> (r: Result<
    ParsedTaskInput,
    Error,
>)
    requires
        scan@.fits(line@.len() as int),
    ensures
        error::viewed(r) == task_said(line@, scan@, today, *later),
{
    let s = text::chars(line);
    let said = match read_tokens(&s, scan) {
        Ok(said) => said,
        Err(e) => {
            return Err(e);
        },
    };
    let (date, spoken) = match read_phrases(&s, &scan.words, &said.protected, later) {
        Ok(found) => found,
        Err(e) => {
            return Err(e);
        },
    };
    let time = read_clocks(&s, scan, &said.protected, spoken);
    let due_date = match date {
        Some((_, meaning)) => match resolve_date(meaning, today) {
            Ok(date) => Some(date),
            Err(e) => {
                return Err(e);
            },
        },
        None => if time.is_some() {
            if let Err(e) = recurrence::validate_date_value(today, "due_date") {
                return Err(e);
            }
            Some(today)
        } else {
            None
        },
    };
    let mut removals = said.removals;
    if let Some((span, _)) = date {
        push_span(
            &mut removals,
            expand_phrase(&s, &scan.separators, &said.protected, span),
        );
    }
    if let Some((span, _)) = time {
        push_span(
            &mut removals,
            expand_phrase(&s, &scan.separators, &said.protected, span),
        );
    }
    let name = remove_spans(&s, &removals);
    if let Err(e) = model::validate_name(name.as_str(), "name") {
        return Err(e);
    }
    let due_time = match time {
        Some((_, said)) => Some(said),
        None => None,
    };
    Ok(
        ParsedTaskInput {
            name,
            projects: said.projects,
            tags: said.tags,
            url: said.url,
            due_date,
            due_time,
        },
    )
}

/// The error for a filter that is none.
pub open spec fn filter_error(token: Seq<char>) -> ErrorModel {
    ErrorModel::usage(
        "invalid_input_filter"@,
        "Invalid list filter "@ + text::debug_text(token)
            + "; use #project, @tag, !state, or due:"@,
    ).with_field("input"@)
}

/// The error for two filters for due dates.
pub open spec fn due_error(token: Seq<char>) -> ErrorModel {
    ErrorModel::usage(
        "invalid_input_filter"@,
        "Conflicting list filter "@ + text::debug_text(token) + "; use one due: filter"@,
    ).with_field("input"@)
}

/// The filter with what one of `due:today`, `due:tomorrow`, `due:overdue` and `due:none` asks
/// for.
pub open spec fn with_due(filter: FilterModel, token: Seq<char>, today: Date) -> Result<
    FilterModel,
    ErrorModel,
> {
    if token == "due:today"@ {
        Ok(FilterModel { due_on: Some(today), ..filter })
    } else if token == "due:tomorrow"@ {
        match day_within(today.number() + 1) {
            Some(date) => Ok(FilterModel { due_on: Some(date), ..filter }),
            None => Err(resolution_error()),
        }
    } else if token == "due:overdue"@ {
        Ok(FilterModel { overdue: true, ..filter })
    } else if token == "due:none"@ {
        Ok(FilterModel { undated: true, ..filter })
    } else {
        Err(filter_error(token))
    }
}

/// The filter with what the words from the `i`-th on ask for. `due` is the filter for due dates
/// that was met, if any.
pub open spec fn filter_from(
    tokens: Seq<Seq<char>>,
    i: int,
    filter: FilterModel,
    due: Option<Seq<char>>,
    today: Date,
) -> Result<FilterModel, ErrorModel>
    decreases tokens.len() - i,
{
    if i >= tokens.len() {
        Ok(filter)
    } else {
        let token = tokens[i];
        let rest = token.subrange(1, token.len() as int);
        if text::begins(token, "#"@) {
            if model::slug(rest) {
                filter_from(
                    tokens,
                    i + 1,
                    FilterModel { projects: with_one(filter.projects, rest), ..filter },
                    due,
                    today,
                )
            } else {
                Err(model::slug_error(rest))
            }
        } else if text::begins(token, "@"@) {
            if model::tag(rest) {
                filter_from(
                    tokens,
                    i + 1,
                    FilterModel { tags: with_one(filter.tags, rest), ..filter },
                    due,
                    today,
                )
            } else {
                Err(model::tag_error(rest))
            }
        } else if text::begins(token, "!"@) && token.len() > 1 {
            filter_from(
                tokens,
                i + 1,
                FilterModel { states: with_one(filter.states, rest), ..filter },
                due,
                today,
            )
        } else {
            match with_due(filter, token, today) {
                Err(e) => Err(e),
                Ok(next) => if due is Some && due->0 != token {
                    Err(due_error(token))
                } else {
                    filter_from(tokens, i + 1, next, Some(token), today)
                },
            }
        }
    }
}

fn add_due(filter: &mut TaskFilter, token: &str, today: Date) -> (r: Result<(), Error>)
    ensures
        (match r {
            Ok(_) => Ok(final(filter)@),
            Err(e) => Err(e@),
        }) == with_due(old(filter)@, token@, today),
{
    if text::same(token, "due:today") {
        filter.due_on = Some(today);
    } else if text::same(token, "due:tomorrow") {
        match days_later(today, 1) {
            Some(date) => {
                filter.due_on = Some(date);
            },
            None => {
                return Err(unresolved());
            },
        }
    } else if text::same(token, "due:overdue") {
        filter.overdue = true;
    } else if text::same(token, "due:none") {
        filter.undated = true;
    } else {
        return Err(
            Error::usage(
                "invalid_input_filter",
                text::join3(
                    "Invalid list filter ",
                    text::debug(token).as_str(),
                    "; use #project, @tag, !state, or due:",
                ).as_str(),
            ).with_field("input"),
        );
    }
    Ok(())
}

/// A filter that lets all tasks through.
pub open spec fn everything() -> FilterModel {
    FilterModel { include_terminal: true, ..FilterModel::none() }
}

fn read_filter(tokens: &Vec<String>, today: Date) -> (r: Result<TaskFilter, Error>)
    requires
        tokens@.len() > 0,
    ensures
        error::viewed(r) == filter_from(
            text::strings(tokens@),
            1,
            everything(),
            None,
            today,
        ),
{
    let ghost all = text::strings(tokens@);
    let mut filter = TaskFilter::default();
    filter.include_terminal = true;
    assert(filter@ =~= everything());
    let mut due: Option<String> = None;
    let mut i: usize = 1;
    while i < tokens.len()
        invariant
            1 <= i <= tokens@.len(),
            all == text::strings(tokens@),
            filter_from(all, 1, everything(), None, today) == filter_from(
                all,
                i as int,
                filter@,
                text::opt(due),
                today,
            ),
        decreases tokens.len() - i,
    {
        assert(all[i as int] == tokens@[i as int]@);
        proof {
            reveal_strlit("#");
            reveal_strlit("@");
            reveal_strlit("!");
            assert("#"@.len() == 1 && "@"@.len() == 1 && "!"@.len() == 1);
        }
        let token = text::chars(tokens[i].as_str());
        if text::is_at(&token, "#", 0) {
            let project = text::string(&text::cut(&token, 1, token.len()));
            if let Err(e) = model::validate_project_slug(project.as_str()) {
                return Err(e);
            }
            push_one(&mut filter.projects, project);
        } else if text::is_at(&token, "@", 0) {
            let tag = text::string(&text::cut(&token, 1, token.len()));
            if let Err(e) = model::validate_tag(tag.as_str()) {
                return Err(e);
            }
            push_one(&mut filter.tags, tag);
        } else if text::is_at(&token, "!", 0) && token.len() > 1 {
            let state = text::string(&text::cut(&token, 1, token.len()));
            push_one(&mut filter.states, state);
        } else {
            if let Err(e) = add_due(&mut filter, tokens[i].as_str(), today) {
                return Err(e);
            }
            if let Some(other) = &due {
                if !text::same(other.as_str(), tokens[i].as_str()) {
                    return Err(
                        Error::usage(
                            "invalid_input_filter",
                            text::join3(
                                "Conflicting list filter ",
                                text::debug(tokens[i].as_str()).as_str(),
                                "; use one due: filter",
                            ).as_str(),
                        ).with_field("input"),
                    );
                }
            }
            due = Some(tokens[i].clone());
        }
        i += 1;
    }
    Ok(filter)
}

/// What a line says: a task, or a command.
#[derive(Debug)]
pub enum ParsedInput {
    Task(ParsedTaskInput),
    List(TaskFilter),
    Sync(Option<SyncPolicy>),
}

/// Which side wins where local and remote edits conflict: the local one, or the remote one.
#[derive(Debug, Clone, Copy, PartialEq, Eq, Structural)]
pub enum SyncPolicy {
    Ours,
    Theirs,
}

/// What a line says.
pub enum ParsedModel {
    Task(InputModel),
    List(FilterModel),
    Sync(Option<SyncPolicy>),
}

impl View for ParsedInput {
    type V = ParsedModel;

    open spec fn view(&self) -> ParsedModel {
        match *self {
            ParsedInput::Task(task) => ParsedModel::Task(task@),
            ParsedInput::List(filter) => ParsedModel::List(filter@),
            ParsedInput::Sync(policy) => ParsedModel::Sync(policy),
        }
    }
}

/// The policy that a word names.
pub open spec fn policy_of(word: Seq<char>) -> Option<SyncPolicy> {
    if word == "ours"@ {
        Some(SyncPolicy::Ours)
    } else if word == "theirs"@ {
        Some(SyncPolicy::Theirs)
    } else {
        None
    }
}

/// The error for a word that has no place behind `/sync`.
pub open spec fn sync_error(word: Seq<char>) -> ErrorModel {
    ErrorModel::usage(
        "invalid_sync_option"@,
        "Invalid sync option "@ + text::debug_text(word) + "; use ours or theirs"@,
    ).with_field("input"@)
}

/// What `/sync` says: at most one policy stands behind it.
pub open spec fn sync_said(tokens: Seq<Seq<char>>) -> Result<Option<SyncPolicy>, ErrorModel> {
    if tokens.len() <= 1 {
        Ok(None)
    } else if policy_of(tokens[1]) is None {
        Err(sync_error(tokens[1]))
    } else if tokens.len() > 2 {
        Err(sync_error(tokens[2]))
    } else {
        Ok(policy_of(tokens[1]))
    }
}

fn invalid_sync(word: &str) -> (r: Error)
    ensures
        r@ == sync_error(word@),
{
    Error::usage(
        "invalid_sync_option",
        text::join3("Invalid sync option ", text::debug(word).as_str(), "; use ours or theirs").as_str(),
    ).with_field("input")
}

fn read_sync(tokens: &Vec<String>) -> (r: Result<Option<SyncPolicy>, Error>)
    ensures
        error::outcome(r) == sync_said(text::strings(tokens@)),
{
    if tokens.len() <= 1 {
        return Ok(None);
    }
    let ghost all = text::strings(tokens@);
    assert(all[1] == tokens@[1]@);
    let policy = if text::same(tokens[1].as_str(), "ours") {
        SyncPolicy::Ours
    } else if text::same(tokens[1].as_str(), "theirs") {
        SyncPolicy::Theirs
    } else {
        return Err(invalid_sync(tokens[1].as_str()));
    };
    if tokens.len() > 2 {
        assert(all[2] == tokens@[2]@);
        return Err(invalid_sync(tokens[2].as_str()));
    }
    Ok(Some(policy))
}

/// Whether a character breaks a line, or is a control character.
pub open spec fn line_breaker(c: char) -> bool {
    text::is_control(c) || c == '\u{2028}' || c == '\u{2029}'
}

fn has_line_breaker(s: &Vec<char>) -> (r: bool)
    ensures
        r == exists|i: int| 0 <= i < s@.len() && line_breaker(#[trigger] s@[i]),
{
    let mut i: usize = 0;
    while i < s.len()
        invariant
            i <= s@.len(),
            forall|k: int| 0 <= k < i ==> !line_breaker(#[trigger] s@[k]),
        decreases s.len() - i,
    {
        if text::is_control(s[i]) || s[i] == '\u{2028}' || s[i] == '\u{2029}' {
            assert(line_breaker(s@[i as int]));
            return true;
        }
        i += 1;
    }
    false
}

/// What a line says. One that begins with `/` is a command.
pub open spec fn line_said(s: Seq<char>, today: Date, later: Later) -> Result<
    ParsedModel,
    ErrorModel,
> {
    let tokens = words_from(s, 0);
    if exists|i: int| 0 <= i < s.len() && line_breaker(#[trigger] s[i]) {
        Err(
            ErrorModel::validation(
                "invalid_input"@,
                "Input must be a single line without control characters"@,
            ).with_field("input"@),
        )
    } else if tokens.len() > 0 && text::begins(tokens[0], "/"@) {
        if tokens[0] == "/sync"@ {
            match sync_said(tokens) {
                Err(e) => Err(e),
                Ok(policy) => Ok(ParsedModel::Sync(policy)),
            }
        } else if tokens[0] != "/list"@ {
            Err(
                ErrorModel::usage(
                    "unknown_input_command"@,
                    "Unknown input command "@ + text::debug_text(tokens[0]) + "; use /list"@,
                ).with_field("input"@),
            )
        } else {
            match filter_from(tokens, 1, everything(), None, today) {
                Err(e) => Err(e),
                Ok(filter) => Ok(ParsedModel::List(filter)),
            }
        }
    } else {
        match model::check_name(s, "name"@) {
            Err(e) => Err(e),
            Ok(_) => match scanned(s) {
                Err(e) => Err(e),
                Ok(scan) => match task_said(s, scan, today, later) {
                    Err(e) => Err(e),
                    Ok(task) => Ok(ParsedModel::Task(task)),
                },
            },
        }
    }
}

/// What a line says: a task with projects (`#`), tags (`@`), a web link, a date and a time; or
/// `/list`, with filters for projects, tags, states (`!`) and due dates (`due:`); or `/sync`,
/// perhaps with a policy. An unknown command is an error.
pub fn parse_line(line: &str, today: Date, later: &Later) -> (r: Result<ParsedInput, Error>)
    ensures
        error::viewed(r) == line_said(line@, today, *later),
{
    let s = text::chars(line);
    if has_line_breaker(&s) {
        return Err(
            Error::validation(
                "invalid_input",
                "Input must be a single line without control characters",
            ).with_field("input"),
        );
    }
    let tokens = split_words(&s);
    let ghost all = text::strings(tokens@);
    assert(all.len() == tokens@.len());
    if tokens.len() > 0 && text::is_at(&text::chars(tokens[0].as_str()), "/", 0) {
        assert(all[0] == tokens@[0]@);
        if text::same(tokens[0].as_str(), "/sync") {
            return match read_sync(&tokens) {
                Ok(policy) => Ok(ParsedInput::Sync(policy)),
                Err(e) => Err(e),
            };
        }
        if !text::same(tokens[0].as_str(), "/list") {
            return Err(
                Error::usage(
                    "unknown_input_command",
                    text::join3(
                        "Unknown input command ",
                        text::debug(tokens[0].as_str()).as_str(),
                        "; use /list",
                    ).as_str(),
                ).with_field("input"),
            );
        }
        return match read_filter(&tokens, today) {
            Ok(filter) => Ok(ParsedInput::List(filter)),
            Err(e) => Err(e),
        };
    }
    if tokens.len() > 0 {
        assert(all[0] == tokens@[0]@);
    }
    if let Err(e) = model::validate_name(line, "name") {
        return Err(e);
    }
    let scan = match Scan::of(line) {
        Ok(scan) => scan,
        Err(e) => {
            return Err(e);
        },
    };
    match read_task(line, &scan, today, later) {
        Ok(task) => Ok(ParsedInput::Task(task)),
        Err(e) => Err(e),
    }
}

/// How many bytes a line of input has at most, with its end.
pub const MAX_LINE_BYTES: usize = 16384;

/// A line without its end, `\n` or `\r\n`.
pub open spec fn without_end(s: Seq<char>) -> Seq<char> {
    let line = if s.len() > 0 && s.last() == '\n' {
        s.drop_last()
    } else {
        s
    };
    if line.len() > 0 && line.last() == '\r' {
        line.drop_last()
    } else {
        line
    }
}

/// The text of a line of input, or nothing where it is blank.
pub open spec fn raw_line(bytes: Seq<u8>) -> Result<Option<Seq<char>>, ErrorModel> {
    if bytes.len() > MAX_LINE_BYTES {
        Err(
            ErrorModel::validation(
                "invalid_input"@,
                "Input lines are limited to 16384 bytes"@,
            ).with_field("input"@),
        )
    } else if !vstd::utf8::valid_utf8(bytes) {
        Err(
            ErrorModel::validation(
                "invalid_input"@,
                "Input must be UTF-8: "@ + text::utf8_fault(bytes),
            ).with_field("input"@),
        )
    } else {
        let line = without_end(vstd::utf8::decode_utf8(bytes));
        if text::blank(line) {
            Ok(None)
        } else {
            Ok(Some(line))
        }
    }
}

/// The text of a line of input, which ends in `\n`, `\r\n` or with the input, or nothing where it
/// is blank.
pub fn read_line(bytes: &[u8]) -> (r: Result<Option<String>, Error>)
    ensures
        frontmatter::opt_outcome(r) == raw_line(bytes@),
{
    if bytes.len() > MAX_LINE_BYTES {
        return Err(
            Error::validation(
                "invalid_input",
                "Input lines are limited to 16384 bytes",
            ).with_field("input"),
        );
    }
    let source = match text::decode(bytes) {
        Ok(source) => source,
        Err(message) => {
            return Err(
                Error::validation(
                    "invalid_input",
                    text::join2("Input must be UTF-8: ", message.as_str()).as_str(),
                ).with_field("input"),
            );
        },
    };
    let chars = text::chars(source);
    let mut end: usize = chars.len();
    if end > 0 && chars[end - 1] == '\n' {
        end -= 1;
    }
    assert(chars@.subrange(0, end as int) =~= if source@.len() > 0 && source@.last() == '\n' {
        source@.drop_last()
    } else {
        source@
    });
    if end > 0 && chars[end - 1] == '\r' {
        end -= 1;
    }
    let line = text::cut(&chars, 0, end);
    assert(line@ =~= without_end(source@));
    if text::is_blank(&line) {
        Ok(None)
    } else {
        Ok(Some(text::string(&line)))
    }
}

} // verus!
