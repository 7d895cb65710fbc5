//! What holds of the values of a record: slugs, tags, IDs, times and bodies.
use crate::calendar::{self, Date, Time};
use crate::error::ErrorModel;
use crate::model;
use crate::recurrence;
use crate::text;
use vstd::prelude::*;

verus! {

/// Nothing is no slug. One character is a slug where it is a small letter or a digit, and a
/// slug stays one with just these and hyphens behind it.
pub proof fn slugs_are_small_letters_digits_and_hyphens(s: Seq<char>, c: char)
    ensures
        !model::slug(Seq::<char>::empty()),
        model::slug(seq![c]) <==> 'a' <= c <= 'z' || '0' <= c <= '9',
        s.len() > 0 ==> (model::slug(s.push(c)) <==> model::slug(s) && ('a' <= c <= 'z' || '0' <= c
            <= '9' || c == '-')),
{
    let one = seq![c];
    assert(one[0] == c);
    if s.len() > 0 {
        let longer = s.push(c);
        assert(longer[0] == s[0]);
        assert(longer[s.len() as int] == c);
        assert(forall|i: int| 0 <= i < s.len() ==> longer[i] == s[i]);
        if model::slug(longer) {
            assert forall|i: int| 0 <= i < s.len() implies text::is_lower(#[trigger] s[i])
                || text::is_digit(s[i]) || s[i] == '-' by {
                assert(longer[i] == s[i]);
            }
        }
    }
}

/// Nothing is no tag, and none begins with `#`. What breaks a tag, a comma, a bracket or a
/// brace, whitespace or a control character, is in none, wherever it stands; and a tag stays one
/// with any other character behind it.
pub proof fn tags_stay_tags_until_they_are_broken(s: Seq<char>, c: char)
    ensures
        !model::tag(Seq::<char>::empty()),
        !model::tag(seq!['#'] + s),
        model::tag(s) ==> forall|i: int|
            0 <= i < s.len() ==> (#[trigger] s[i]) != ',' && s[i] != '[' && s[i] != ']' && s[i]
                != '{' && s[i] != '}' && s[i] != '\n' && s[i] != ' ' && s[i] != '\t',
        model::tag(s) && 'a' <= c <= 'z' ==> model::tag(s.push(c)),
        model::tag(s) && ('A' <= c <= 'Z' || '0' <= c <= '9' || c == '/' || c == '-' || c == '_')
            ==> model::tag(s.push(c)),
        model::tag(s) ==> model::tag(s.push('#')),
        model::tag(s.push(c)) && s.len() > 0 ==> model::tag(s),
        model::tag(s.push(c)) ==> !text::is_whitespace(c) && !text::is_control(c),
        model::tag(s) && !text::is_whitespace(c) && !text::is_control(c) && c != ',' && c != '['
            && c != ']' && c != '{' && c != '}' ==> model::tag(s.push(c)),
{
    let marked = seq!['#'] + s;
    assert(marked[0] == '#');
    let longer = s.push(c);
    assert(longer[s.len() as int] == c);
    assert(forall|i: int| 0 <= i < s.len() ==> longer[i] == s[i]);
    if model::tag(longer) && s.len() > 0 {
        assert forall|i: int| 0 <= i < s.len() implies !model::is_tag_breaker(#[trigger] s[i]) by {
            assert(longer[i] == s[i]);
        }
        assert(longer[0] == s[0]);
    }
    if model::tag(s) {
        let hashed = s.push('#');
        assert(forall|i: int| 0 <= i < s.len() ==> hashed[i] == s[i]);
        assert(hashed[s.len() as int] == '#');
    }
}

/// Whether a character is a digit, or a letter other than I, L, O and U.
pub open spec fn unmistakable(c: char) -> bool {
    ||| '0' <= c <= '9'
    ||| 'A' <= c <= 'Z' && c != 'I' && c != 'L' && c != 'O' && c != 'U'
    ||| 'a' <= c <= 'z' && c != 'i' && c != 'l' && c != 'o' && c != 'u'
}

/// An ID has twenty-six characters, each a digit or a letter that cannot be mistaken for
/// another, and the first a digit that is not eight or nine. A beginning of an ID has at least
/// six of them.
pub proof fn ids_have_unmistakable_characters(value: Seq<char>)
    ensures
        model::id_prefix(value) <==> 6 <= value.len() <= 26 && '0' <= value[0] <= '7' && (forall|
            i: int,
        |
            0 <= i < value.len() ==> unmistakable(#[trigger] value[i])),
        model::task_id(value) <==> value.len() == 26 && model::id_prefix(value),
{
    assert forall|c: char| #[trigger] model::ulid_char(c) <==> unmistakable(c) by {
        lemma_capital(c);
    }
    if value.len() > 0 && model::ulid_chars(value) {
        assert(model::ulid_char(value[0]));
    }
    if forall|i: int| 0 <= i < value.len() ==> unmistakable(#[trigger] value[i]) {
        assert forall|i: int| 0 <= i < value.len() implies model::ulid_char(#[trigger] value[i]) by {
            assert(unmistakable(value[i]));
        }
    } else {
        let i = choose|i: int| 0 <= i < value.len() && !unmistakable(#[trigger] value[i]);
        assert(!model::ulid_char(value[i]));
    }
}

proof fn lemma_capital(c: char)
    ensures
        'a' <= c <= 'z' ==> text::upper_char(c) as int == c as int - 32,
        !('a' <= c <= 'z') ==> text::upper_char(c) == c,
{
}

/// IDs of parents and beginnings of IDs are read in capitals: as they were written, but for
/// small letters, which come thirty-two places behind their capitals.
pub proof fn ids_are_read_in_capitals(value: Seq<char>)
    ensures
        model::parent_id(value) is Ok <==> model::task_id(value),
        model::check_id_prefix(value) is Ok <==> model::id_prefix(value),
        model::check_id_prefix(value) matches Ok(read) ==> {
            &&& read.len() == value.len()
            &&& forall|i: int|
                0 <= i < value.len() ==> !('a' <= #[trigger] read[i] <= 'z') && (read[i] == value[i]
                    || ('a' <= value[i] <= 'z' && value[i] as int == read[i] as int + 32))
        },
        model::parent_id(value) matches Ok(read) ==> model::check_id_prefix(value) == Ok::<
            Seq<char>,
            ErrorModel,
        >(read),
{
    if let Ok(read) = model::check_id_prefix(value) {
        assert forall|i: int| 0 <= i < value.len() implies !('a' <= #[trigger] read[i] <= 'z') && (
        read[i] == value[i] || ('a' <= value[i] <= 'z' && value[i] as int == read[i] as int
            + 32)) by {
            lemma_capital(value[i]);
            assert(read[i] == text::upper_char(value[i]));
        }
    }
}

/// Whether a text is two digits that write a number.
pub open spec fn writes_two_digits(s: Seq<char>, n: int) -> bool {
    &&& s.len() == 2
    &&& '0' <= s[0] <= '9'
    &&& '0' <= s[1] <= '9'
    &&& s[0] as int - '0' as int == n / 10
    &&& s[1] as int - '0' as int == n % 10
}

/// A text is read as a time just where it is two digits for the hour, a colon, and two digits
/// for the minute of a time that has no seconds.
pub proof fn times_are_read_as_they_are_written(value: Seq<char>, time: Time)
    requires
        time.valid(),
    ensures
        model::read_time(value) == Ok::<Time, ErrorModel>(time) <==> {
            &&& value.len() == 5
            &&& value[2] == ':'
            &&& writes_two_digits(value.take(2), time.h())
            &&& writes_two_digits(value.skip(3), time.min())
            &&& time.s() == 0 && time.nanos() == 0
        },
        model::read_time(value) matches Ok(read) ==> 0 <= read.h() < 24 && 0 <= read.min() < 60
            && read.s() == 0 && read.nanos() == 0,
{
    if value.len() == 5 {
        let (a, b) = (value.take(2), value.skip(3));
        assert(a[0] == value[0] && a[1] == value[1] && b[0] == value[3] && b[1] == value[4]);
        let (h, m) = (model::pair(value[0], value[1]), model::pair(value[3], value[4]));
        if model::time_shape(value) && h < 24 && m < 60 {
            calendar::lemma_time_of(h, m, 0, 0);
            if time.h() == h && time.min() == m && time.s() == 0 && time.nanos() == 0 {
                calendar::lemma_same_time(time, Time::of(h, m, 0, 0));
            }
        }
    }
}

/// A name is one line that is not blank: trimmed, something is left of it.
pub proof fn names_are_lines_that_are_not_blank(value: Seq<char>, field: Seq<char>)
    ensures
        model::check_name(value, field) is Ok <==> text::trim(value).len() > 0 && (forall|i: int|
            0 <= i < value.len() ==> (#[trigger] value[i]) != '\n' && value[i] != '\r'),
{
    text::lemma_skip_space(value, 0);
    let rest = text::trim_start(value);
    text::lemma_drop_space(rest, rest.len() as int);
    let at = text::skip_space(value, 0);
    if at < value.len() {
        assert(rest[0] == value[at]);
        if text::trim(value).len() == 0 {
            assert(text::is_whitespace(rest[0]));
        }
    }
}

/// A body is kept as it is written but for its end: the line feeds there become one, and one is
/// put there where there was none.
pub proof fn bodies_keep_their_text(s: Seq<char>)
    requires
        s.len() > 0,
        !s.contains('\r'),
    ensures
        model::body(s).len() - 1 <= s.len(),
        forall|i: int|
            0 <= i < model::body(s).len() - 1 ==> #[trigger] model::body(s)[i] == s[i],
        forall|i: int| model::body(s).len() - 1 <= i < s.len() ==> #[trigger] s[i] == '\n',
        model::body(s).last() == '\n',
{
    lemma_plain_feeds(s, 0);
    assert(s.subrange(0, s.len() as int) =~= s);
    lemma_feeds_end(s, s.len() as int);
}

/// Each end of a line, a carriage return with or without a line feed behind it, becomes a line
/// feed.
pub proof fn ends_of_lines_become_line_feeds(a: Seq<char>, b: Seq<char>)
    requires
        !a.contains('\r'),
    ensures
        model::body(a + seq!['\r', '\n'] + b) == model::body(a + seq!['\n'] + b),
        b.len() == 0 || b[0] != '\n' ==> model::body(a + seq!['\r'] + b) == model::body(
            a + seq!['\n'] + b,
        ),
{
    let feed = seq!['\n'] + b;
    lemma_feeds_after(a, feed);
    assert(a + seq!['\n'] + b =~= a + feed);
    let both = seq!['\r', '\n'] + b;
    lemma_feeds_after(a, both);
    assert(a + seq!['\r', '\n'] + b =~= a + both);
    lemma_feeds_shift(seq!['\r', '\n'], b, 0);
    lemma_feeds_shift(seq!['\n'], b, 0);
    assert(model::line_feeds(both, 0) == seq!['\n'] + model::line_feeds(both, 2));
    assert(feed[0] == '\n');
    assert(model::line_feeds(feed, 0) == seq![feed[0]] + model::line_feeds(feed, 1));
    if b.len() == 0 || b[0] != '\n' {
        let bare = seq!['\r'] + b;
        lemma_feeds_after(a, bare);
        assert(a + seq!['\r'] + b =~= a + bare);
        lemma_feeds_shift(seq!['\r'], b, 0);
        assert(bare[0] == '\r');
        assert(b.len() > 0 ==> bare[1] == b[0]);
        assert(model::line_feeds(bare, 0) == seq!['\n'] + model::line_feeds(bare, 1));
    }
}

proof fn lemma_feeds_shift(a: Seq<char>, b: Seq<char>, i: int)
    requires
        0 <= i <= b.len(),
    ensures
        model::line_feeds(a + b, a.len() + i) == model::line_feeds(b, i),
    decreases b.len() - i,
{
    if i < b.len() {
        assert((a + b)[a.len() + i] == b[i]);
        if i + 1 < b.len() {
            assert((a + b)[a.len() + i + 1] == b[i + 1]);
            lemma_feeds_shift(a, b, i + 2);
        }
        lemma_feeds_shift(a, b, i + 1);
    }
}

proof fn lemma_feeds_after(a: Seq<char>, b: Seq<char>)
    requires
        !a.contains('\r'),
    ensures
        model::line_feeds(a + b, 0) == a + model::line_feeds(b, 0),
    decreases a.len(),
{
    if a.len() == 0 {
        assert(a + b =~= b);
        assert(a + model::line_feeds(b, 0) =~= model::line_feeds(b, 0));
    } else {
        let rest = a.drop_first();
        assert forall|i: int| 0 <= i < rest.len() implies rest[i] != '\r' by {
            assert(rest[i] == a[i + 1]);
            assert(a.contains(a[i + 1]));
        }
        lemma_feeds_after(rest, b);
        assert(a.contains(a[0]));
        assert((a + b)[0] == a[0]);
        assert(a + b =~= seq![a[0]] + (rest + b));
        lemma_feeds_shift(seq![a[0]], rest + b, 0);
        assert(seq![a[0]] + (rest + model::line_feeds(b, 0)) =~= a + model::line_feeds(b, 0));
    }
}

proof fn lemma_plain_feeds(s: Seq<char>, i: int)
    requires
        0 <= i <= s.len(),
        !s.contains('\r'),
    ensures
        model::line_feeds(s, i) == s.subrange(i, s.len() as int),
    decreases s.len() - i,
{
    if i < s.len() {
        lemma_plain_feeds(s, i + 1);
        assert(s.contains(s[i]));
        assert(seq![s[i]] + s.subrange(i + 1, s.len() as int) =~= s.subrange(i, s.len() as int));
    } else {
        assert(s.subrange(i, s.len() as int) =~= Seq::<char>::empty());
    }
}

proof fn lemma_feeds_end(s: Seq<char>, to: int)
    requires
        0 <= to <= s.len(),
    ensures
        0 <= model::last_line(s, to) <= to,
        forall|i: int| model::last_line(s, to) <= i < to ==> #[trigger] s[i] == '\n',
    decreases to,
{
    if to > 0 && s[to - 1] == '\n' {
        lemma_feeds_end(s, to - 1);
    }
}

/// Whether there is a day with the number in a month of a year: the months have thirty-one days,
/// but for April, June, September and November, which have thirty, and February, which has
/// twenty-eight, and one more every four years, but not at the turn of a century unless that is
/// the fourth.
pub open spec fn in_month(year: int, month: int, day: int) -> bool {
    &&& 1 <= month <= 12
    &&& 1 <= day <= 31
    &&& month == 4 || month == 6 || month == 9 || month == 11 ==> day <= 30
    &&& month == 2 ==> day <= 29
    &&& month == 2 && year % 4 != 0 ==> day <= 28
    &&& month == 2 && year % 100 == 0 && year % 400 != 0 ==> day <= 28
}

/// The days follow each other as they do in the calendar: behind each day comes the next of its
/// month, behind the last of a month the first of the next, and behind the last of a year the
/// first of the next year. The days of the week go on with them, by sevens.
pub proof fn days_follow_each_other(date: Date, next: Date)
    requires
        date.valid(),
        next.valid(),
    ensures
        in_month(date.y(), date.m(), date.d()),
        next.number() == date.number() + 1 <==> {
            ||| next.y() == date.y() && next.m() == date.m() && next.d() == date.d() + 1
            ||| next.y() == date.y() && next.m() == date.m() + 1 && next.d() == 1 && !in_month(
                date.y(),
                date.m(),
                date.d() + 1,
            )
            ||| next.y() == date.y() + 1 && next.m() == 1 && next.d() == 1 && date.m() == 12
                && date.d() == 31
        },
        next.number() == date.number() + 1 ==> next.weekday_index() == (date.weekday_index() + 1)
            % 7,
{
    let (y, m, d) = (date.y(), date.m(), date.d());
    calendar::lemma_date_order(date, next);
    calendar::lemma_date_order(next, date);
    reveal_with_fuel(calendar::days_before_month, 13);
    assert(calendar::days_before_year(y + 1) == calendar::days_before_year(y)
        + calendar::days_before_month(y, 12) + 31) by {
        calendar::lemma_year_step(y);
    }
    assert(in_month(y, m, d + 1) <==> d + 1 <= calendar::month_days(y, m));
    if next.number() == date.number() + 1 {
        let wanted = if d < calendar::month_days(y, m) {
            (y, m, d + 1)
        } else if m < 12 {
            (y, m + 1, 1)
        } else {
            (y + 1, 1, 1)
        };
        assert(calendar::day_number(wanted.0, wanted.1, wanted.2) == date.number() + 1);
        lemma_number_tells(next.y(), next.m(), next.d(), wanted.0, wanted.1, wanted.2);
    }
}

proof fn lemma_number_tells(y: int, m: int, d: int, y2: int, m2: int, d2: int)
    requires
        calendar::is_day(y, m, d),
        calendar::is_day(y2, m2, d2),
        calendar::day_number(y, m, d) == calendar::day_number(y2, m2, d2),
    ensures
        y == y2 && m == m2 && d == d2,
{
    if calendar::ymd_less((y, m, d), (y2, m2, d2)) {
        calendar::lemma_numbers_grow(y, m, d, y2, m2, d2);
    } else if calendar::ymd_less((y2, m2, d2), (y, m, d)) {
        calendar::lemma_numbers_grow(y2, m2, d2, y, m, d);
    }
}

/// A text is read as a date just where it is four digits for the year, two for the month and two
/// for the day of a date, with hyphens between them.
pub proof fn dates_are_read_as_they_are_written(value: Seq<char>, field: Seq<char>, date: Date)
    requires
        date.valid(),
    ensures
        recurrence::read_date(value, field) == Ok::<Date, ErrorModel>(date) <==> {
            &&& value.len() == 10
            &&& value[4] == '-' && value[7] == '-'
            &&& 0 <= date.y() <= 9999
            &&& writes_two_digits(value.subrange(0, 2), date.y() / 100)
            &&& writes_two_digits(value.subrange(2, 4), date.y() % 100)
            &&& writes_two_digits(value.subrange(5, 7), date.m())
            &&& writes_two_digits(value.subrange(8, 10), date.d())
        },
        recurrence::read_date(value, field) matches Ok(read) ==> in_month(
            read.y(),
            read.m(),
            read.d(),
        ),
{
    if value.len() == 10 {
        let (a, b) = (value.subrange(0, 2), value.subrange(2, 4));
        let (c, e) = (value.subrange(5, 7), value.subrange(8, 10));
        assert(a[0] == value[0] && a[1] == value[1] && b[0] == value[2] && b[1] == value[3]);
        assert(c[0] == value[5] && c[1] == value[6] && e[0] == value[8] && e[1] == value[9]);
        let whole = value.subrange(0, 4);
        assert(whole.drop_last().drop_last() =~= a);
        assert(whole[2] == value[2] && whole[3] == value[3]);
        reveal_with_fuel(text::number, 5);
        let (y, m, d) = (text::number(whole) as int, text::number(c) as int, text::number(e) as int);
        if recurrence::date_shape(value) {
            assert(y == (value[0] as int - 48) * 1000 + (value[1] as int - 48) * 100 + (
            value[2] as int - 48) * 10 + (value[3] as int - 48));
            assert(m == (value[5] as int - 48) * 10 + (value[6] as int - 48));
            assert(d == (value[8] as int - 48) * 10 + (value[9] as int - 48));
            if calendar::is_date(y, m, d) {
                calendar::lemma_date_of(y, m, d);
                if date.y() == y && date.m() == m && date.d() == d {
                    calendar::lemma_same_date(date, Date::of(y, m, d));
                }
            }
        }
        if writes_two_digits(a, date.y() / 100) && writes_two_digits(b, date.y() % 100)
            && writes_two_digits(c, date.m()) && writes_two_digits(e, date.d()) && value[4] == '-'
            && value[7] == '-' && 0 <= date.y() <= 9999 {
            assert forall|i: int| 0 <= i < 10 && i != 4 && i != 7 implies text::is_digit(
                #[trigger] value[i],
            ) by {}
            assert(recurrence::date_shape(value));
            assert(date.y() == y);
        }
    }
}

} // verus!
