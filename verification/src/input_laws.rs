//! What a line of input means: the dates and times that its words name, the projects, tags and
//! filters that it asks for, and what is left for the name.
use vstd::prelude::*;

use crate::calendar::{self, Date, Time};
use crate::commands::task::FilterModel;
use crate::error::ErrorModel;
use crate::input::{self, DateMeaning, FoundDate, FoundTime, Later, Metadata, Phrase};
use crate::model;
use crate::schedule_laws;
use crate::text;

verus! {

/// The day so many days from today, where the calendar has it.
proof fn lemma_day_within(today: Date, days: int)
    requires
        today.valid(),
        days >= 0,
    ensures
        input::day_within(today.number() + days) matches Some(date) ==> date.valid()
            && date.number() == today.number() + days,
        input::day_within(today.number() + days) is Some <==> today.number() + days
            <= calendar::last_number(),
{
    if today.number() + days <= calendar::last_number() {
        let date = schedule_laws::lemma_day_after(today, days);
        assert(date.valid() && date.number() == today.number() + days);
    }
}

/// What a phrase says of a date is that date: so many days or weeks from today; the same day so many
/// months later, or the last of that month where it is shorter; or the next day of the week,
/// strictly after today and within a week.
pub proof fn phrases_count_from_today(meaning: DateMeaning, today: Date, date: Date)
    requires
        today.valid(),
        meaning matches DateMeaning::Weekday(weekday) ==> weekday < 7,
        input::resolved_date(meaning, today) == Ok::<Date, ErrorModel>(date),
    ensures
        meaning matches DateMeaning::Days(days) ==> date.number() == today.number() + days,
        meaning matches DateMeaning::Weeks(weeks) ==> date.number() == today.number() + 7 * weeks,
        meaning matches DateMeaning::Months(months) ==> {
            &&& date.valid()
            &&& schedule_laws::months_between(today, date) == months
            &&& date.d() == today.d() || (date.d() < today.d() && date.d() == calendar::month_days(
                date.y(),
                date.m(),
            ))
        },
        meaning matches DateMeaning::Weekday(weekday) ==> {
            &&& date.weekday_index() == weekday
            &&& today.number() < date.number() <= today.number() + 7
        },
        meaning matches DateMeaning::Resolved(said) ==> date == said,
{
    match meaning {
        DateMeaning::Days(days) => {
            lemma_day_within(today, days as int);
        },
        DateMeaning::Weeks(weeks) => {
            lemma_day_within(today, 7 * weeks);
        },
        DateMeaning::Months(months) => {
            let index = today.month_index() + months;
            let (y, m) = (index / 12, index % 12 + 1);
            let d = if today.d() <= calendar::month_days(y, m) {
                today.d()
            } else {
                calendar::month_days(y, m)
            };
            assert(calendar::MIN_YEAR <= y);
            calendar::lemma_date_of(y, m, d);
            assert(date == Date::of(y, m, d));
            assert(y * 12 + m - 1 == index);
        },
        DateMeaning::Weekday(weekday) => {
            lemma_day_within(today, input::days_to(weekday, today));
        },
        DateMeaning::Resolved(said) => {},
    }
}

/// A day of the week that is named is always found, but at the end of the years that can be
/// written.
pub proof fn weekdays_are_always_found(weekday: u32, today: Date)
    requires
        today.valid(),
        weekday < 7,
        0 <= today.y() <= 9998,
    ensures
        input::resolved_date(DateMeaning::Weekday(weekday), today) is Ok,
{
    let days = input::days_to(weekday, today);
    calendar::lemma_date_of(9999, 12, 31);
    calendar::lemma_date_of(0, 1, 1);
    let (first, last) = (Date::of(0, 1, 1), Date::of(9999, 12, 31));
    assert(last.number() >= today.number() + 7) by {
        reveal_with_fuel(calendar::days_before_month, 13);
        calendar::lemma_days_of_year(today.y(), today.m(), today.d());
        calendar::lemma_years_grow(today.y(), 9999);
    }
    assert(calendar::last_number() >= last.number()) by {
        calendar::lemma_number_range(last);
    }
    lemma_day_within(today, days);
    let date = input::day_within(today.number() + days)->0;
    calendar::lemma_date_order(last, date);
    calendar::lemma_date_order(date, first);
    calendar::lemma_date_order(today, first);
}

/// Whether a word names a day of the week: with it, whatever day it is today, the date is whole
/// weeks away from the given one.
pub open spec fn names_weekday(word: Seq<char>, known: Date) -> bool {
    &&& input::weekday_named(word) matches Some(weekday) && weekday < 7
    &&& forall|today: Date|
        #![trigger input::resolved_date(DateMeaning::Weekday(input::weekday_named(word)->0), today)]
        today.valid() ==> (input::resolved_date(
            DateMeaning::Weekday(input::weekday_named(word)->0),
            today,
        ) matches Ok(date) ==> (date.number() - known.number()) % 7 == 0)
}

/// The names of the days of the week, in full and short, are those of the days of the week from
/// Monday 2026-09-07; and nothing else names one.
pub proof fn weekday_names_mean_their_days(word: Seq<char>)
    ensures
        names_weekday("monday"@, Date::of(2026, 9, 7)),
        names_weekday("mon"@, Date::of(2026, 9, 7)),
        names_weekday("tuesday"@, Date::of(2026, 9, 8)),
        names_weekday("tue"@, Date::of(2026, 9, 8)),
        names_weekday("tues"@, Date::of(2026, 9, 8)),
        names_weekday("wednesday"@, Date::of(2026, 9, 9)),
        names_weekday("wed"@, Date::of(2026, 9, 9)),
        names_weekday("thursday"@, Date::of(2026, 9, 10)),
        names_weekday("thu"@, Date::of(2026, 9, 10)),
        names_weekday("thur"@, Date::of(2026, 9, 10)),
        names_weekday("thurs"@, Date::of(2026, 9, 10)),
        names_weekday("friday"@, Date::of(2026, 9, 11)),
        names_weekday("fri"@, Date::of(2026, 9, 11)),
        names_weekday("saturday"@, Date::of(2026, 9, 12)),
        names_weekday("sat"@, Date::of(2026, 9, 12)),
        names_weekday("sunday"@, Date::of(2026, 9, 13)),
        names_weekday("sun"@, Date::of(2026, 9, 13)),
        input::weekday_named(word) is Some ==> weekday_word(word),
{
    reveal_strlit("monday");
    reveal_strlit("mon");
    reveal_strlit("tuesday");
    reveal_strlit("tue");
    reveal_strlit("tues");
    reveal_strlit("wednesday");
    reveal_strlit("wed");
    reveal_strlit("thursday");
    reveal_strlit("thu");
    reveal_strlit("thur");
    reveal_strlit("thurs");
    reveal_strlit("friday");
    reveal_strlit("fri");
    reveal_strlit("saturday");
    reveal_strlit("sat");
    reveal_strlit("sunday");
    reveal_strlit("sun");
    assert("monday"@[0] == 'm' && "mon"@[0] == 'm');
    assert("tuesday"@[1] == 'u' && "tue"@[1] == 'u' && "tues"@[1] == 'u' && "tue"@[0] == 't'
        && "tues"@[0] == 't' && "tuesday"@[0] == 't');
    assert("wednesday"@[0] == 'w' && "wed"@[0] == 'w');
    assert("thursday"@[1] == 'h' && "thu"@[1] == 'h' && "thur"@[1] == 'h' && "thurs"@[1] == 'h'
        && "thursday"@[0] == 't' && "thu"@[0] == 't' && "thur"@[0] == 't' && "thurs"@[0] == 't');
    assert("friday"@[0] == 'f' && "fri"@[0] == 'f');
    assert("saturday"@[1] == 'a' && "sat"@[1] == 'a' && "saturday"@[0] == 's' && "sat"@[0] == 's');
    assert("sunday"@[1] == 'u' && "sun"@[1] == 'u' && "sunday"@[0] == 's' && "sun"@[0] == 's');
    schedule_laws::lemma_week_of_2026();
    lemma_names_weekday("monday"@, 0, Date::of(2026, 9, 7));
    lemma_names_weekday("mon"@, 0, Date::of(2026, 9, 7));
    lemma_names_weekday("tuesday"@, 1, Date::of(2026, 9, 8));
    lemma_names_weekday("tue"@, 1, Date::of(2026, 9, 8));
    lemma_names_weekday("tues"@, 1, Date::of(2026, 9, 8));
    lemma_names_weekday("wednesday"@, 2, Date::of(2026, 9, 9));
    lemma_names_weekday("wed"@, 2, Date::of(2026, 9, 9));
    lemma_names_weekday("thursday"@, 3, Date::of(2026, 9, 10));
    lemma_names_weekday("thu"@, 3, Date::of(2026, 9, 10));
    lemma_names_weekday("thur"@, 3, Date::of(2026, 9, 10));
    lemma_names_weekday("thurs"@, 3, Date::of(2026, 9, 10));
    lemma_names_weekday("friday"@, 4, Date::of(2026, 9, 11));
    lemma_names_weekday("fri"@, 4, Date::of(2026, 9, 11));
    lemma_names_weekday("saturday"@, 5, Date::of(2026, 9, 12));
    lemma_names_weekday("sat"@, 5, Date::of(2026, 9, 12));
    lemma_names_weekday("sunday"@, 6, Date::of(2026, 9, 13));
    lemma_names_weekday("sun"@, 6, Date::of(2026, 9, 13));
}

/// The words for days of the week.
pub open spec fn weekday_word(word: Seq<char>) -> bool {
    word == "monday"@ || word == "mon"@ || word == "tuesday"@ || word == "tue"@ || word == "tues"@
        || word == "wednesday"@ || word == "wed"@ || word == "thursday"@ || word == "thu"@ || word
        == "thur"@ || word == "thurs"@ || word == "friday"@ || word == "fri"@ || word
        == "saturday"@ || word == "sat"@ || word == "sunday"@ || word == "sun"@
}

proof fn lemma_names_weekday(word: Seq<char>, day: u32, known: Date)
    requires
        input::weekday_named(word) == Some(day),
        day < 7,
        known.weekday_index() == day,
    ensures
        names_weekday(word, known),
{
    assert forall|today: Date| today.valid() implies (#[trigger] input::resolved_date(
        DateMeaning::Weekday(day),
        today,
    ) matches Ok(date) ==> (date.number() - known.number()) % 7 == 0) by {
        if let Ok(date) = input::resolved_date(DateMeaning::Weekday(day), today) {
            phrases_count_from_today(DateMeaning::Weekday(day), today, date);
        }
    }
}

/// What the words of a phrase mean, counted from today.
pub open spec fn means(
    s: Seq<char>,
    words: Seq<(int, int)>,
    i: int,
    phrase: Phrase,
    today: Date,
    date: Date,
) -> bool {
    let first = text::lower(s.subrange(words[i].0, words[i].1));
    let second = text::lower(s.subrange(words[i + 1].0, words[i + 1].1));
    let third = text::lower(s.subrange(words[i + 2].0, words[i + 2].1));
    let amount = text::number(s.subrange(words[i + 1].0, words[i + 1].1));
    ||| (first == "today"@ || first == "tod"@) && date.number() == today.number() && phrase.end
        == words[i].1
    ||| (first == "tomorrow"@ || first == "tom"@) && date.number() == today.number() + 1
        && phrase.end == words[i].1
    ||| weekday_word(first) && input::weekday_named(first) == Some(date.weekday_index() as u32)
        && today.number() < date.number() <= today.number() + 7 && phrase.end == words[i].1
    ||| first == "next"@ && phrase.end == words[i + 1].1 && {
        ||| second == "week"@ && date.number() == today.number() + 7
        ||| second == "month"@ && schedule_laws::months_between(today, date) == 1
    }
    ||| first == "in"@ && phrase.end == words[i + 2].1 && amount > 0 && {
        ||| (third == "day"@ || third == "days"@) && date.number() == today.number() + amount
        ||| (third == "week"@ || third == "weeks"@) && date.number() == today.number() + 7 * amount
        ||| (third == "month"@ || third == "months"@) && schedule_laws::months_between(today, date)
            == amount
        ||| third == "hour"@ || third == "hours"@ || third == "minute"@ || third == "minutes"@
    }
}

/// A phrase with a date means what its words say, and there is no other kind: `today`, `tomorrow`, a
/// day of the week, `next week`, `next month`, or `in` with a number of days, weeks, months, hours or
/// minutes.
pub proof fn phrases_mean_what_they_say(
    s: Seq<char>,
    words: Seq<(int, int)>,
    i: int,
    protected: Seq<(int, int)>,
    later: Later,
    phrase: Phrase,
    today: Date,
    date: Date,
)
    requires
        today.valid(),
        input::phrase_at(s, words, i, protected, later) == Ok::<Option<Phrase>, ErrorModel>(
            Some(phrase),
        ),
        input::resolved_date(phrase.meaning, today) == Ok::<Date, ErrorModel>(date),
    ensures
        means(s, words, i, phrase, today, date),
{
    let first = text::lower(s.subrange(words[i].0, words[i].1));
    weekday_names_mean_their_days(first);
    phrases_count_from_today(phrase.meaning, today, date);
    lemma_units(text::lower(s.subrange(words[i + 2].0, words[i + 2].1)));
}

/// The units of time, and their plurals.
proof fn lemma_units(unit: Seq<char>)
    ensures
        input::singular(unit) == "day"@ ==> unit == "day"@ || unit == "days"@,
        input::singular(unit) == "week"@ ==> unit == "week"@ || unit == "weeks"@,
        input::singular(unit) == "month"@ ==> unit == "month"@ || unit == "months"@,
        input::singular(unit) == "hour"@ ==> unit == "hour"@ || unit == "hours"@,
        input::singular(unit) == "minute"@ ==> unit == "minute"@ || unit == "minutes"@,
{
    reveal_strlit("day");
    reveal_strlit("days");
    reveal_strlit("week");
    reveal_strlit("weeks");
    reveal_strlit("month");
    reveal_strlit("months");
    reveal_strlit("hour");
    reveal_strlit("hours");
    reveal_strlit("minute");
    reveal_strlit("minutes");
    assert("days"@ =~= "day"@.push('s'));
    assert("weeks"@ =~= "week"@.push('s'));
    assert("months"@ =~= "month"@.push('s'));
    assert("hours"@ =~= "hour"@.push('s'));
    assert("minutes"@ =~= "minute"@.push('s'));
    if unit.len() > 0 && unit.last() == 's' {
        assert(unit =~= unit.drop_last().push('s'));
    }
}

/// A free word for a date, or a phrase of free words with nothing but whitespace between them, is
/// always taken for that date; `in` with hours or minutes is, or is refused.
pub proof fn words_for_dates_are_taken(
    s: Seq<char>,
    words: Seq<(int, int)>,
    i: int,
    protected: Seq<(int, int)>,
    later: Later,
)
    requires
        0 <= i < words.len(),
        input::free_word(s, words[i], protected),
    ensures
        ({
            let first = text::lower(s.subrange(words[i].0, words[i].1));
            let outcome = input::phrase_at(s, words, i, protected, later);
            first == "today"@ || first == "tod"@ || first == "tomorrow"@ || first == "tom"@
                || weekday_word(first) ==> taken(outcome)
        }),
        ({
            let first = text::lower(s.subrange(words[i].0, words[i].1));
            let second = text::lower(s.subrange(words[i + 1].0, words[i + 1].1));
            let outcome = input::phrase_at(s, words, i, protected, later);
            first == "next"@ && i + 1 < words.len() && (second == "week"@ || second == "month"@)
                && input::space_between(s, words[i].1, words[i + 1].0) && input::free_word(
                s,
                words[i + 1],
                protected,
            ) ==> taken(outcome)
        }),
        ({
            let first = text::lower(s.subrange(words[i].0, words[i].1));
            let amount = s.subrange(words[i + 1].0, words[i + 1].1);
            let third = text::lower(s.subrange(words[i + 2].0, words[i + 2].1));
            let outcome = input::phrase_at(s, words, i, protected, later);
            first == "in"@ && i + 2 < words.len() && amount.len() > 0 && text::all_digits(amount) && 0
                < text::number(amount) <= i64::MAX && input::space_between(
                s,
                words[i].1,
                words[i + 1].0,
            ) && input::space_between(s, words[i + 1].1, words[i + 2].0) && !input::overlaps(
                (words[i + 1].0, words[i + 2].1),
                protected,
            ) && !input::in_identifier(s, words[i + 2]) ==> {
                &&& third == "day"@ || third == "days"@ || third == "week"@ || third == "weeks"@
                    || third == "month"@ || third == "months"@ ==> taken(outcome)
                &&& third == "hour"@ || third == "hours"@ || third == "minute"@ || third
                    == "minutes"@ ==> outcome is Err || taken(outcome)
            }
        }),
{
    let first = text::lower(s.subrange(words[i].0, words[i].1));
    let third = text::lower(s.subrange(words[i + 2].0, words[i + 2].1));
    weekday_names_mean_their_days(first);
    lemma_first_words();
    lemma_plurals();
}

/// Whether a phrase was found.
pub open spec fn taken(outcome: Result<Option<Phrase>, ErrorModel>) -> bool {
    outcome is Ok && outcome->Ok_0 is Some
}

/// The first words of phrases differ.
proof fn lemma_first_words()
    ensures
        "next"@ != "today"@ && "next"@ != "tod"@ && "next"@ != "tomorrow"@ && "next"@ != "tom"@,
        "in"@ != "today"@ && "in"@ != "tod"@ && "in"@ != "tomorrow"@ && "in"@ != "tom"@,
        "in"@ != "next"@,
        !weekday_word("next"@),
        !weekday_word("in"@),
{
    reveal_strlit("next");
    reveal_strlit("in");
    reveal_strlit("today");
    reveal_strlit("tod");
    reveal_strlit("tomorrow");
    reveal_strlit("tom");
    reveal_strlit("monday");
    reveal_strlit("mon");
    reveal_strlit("tuesday");
    reveal_strlit("tue");
    reveal_strlit("tues");
    reveal_strlit("wednesday");
    reveal_strlit("wed");
    reveal_strlit("thursday");
    reveal_strlit("thu");
    reveal_strlit("thur");
    reveal_strlit("thurs");
    reveal_strlit("friday");
    reveal_strlit("fri");
    reveal_strlit("saturday");
    reveal_strlit("sat");
    reveal_strlit("sunday");
    reveal_strlit("sun");
    assert("next"@[0] == 'n' && "in"@[0] == 'i' && "today"@[0] == 't' && "tod"@[0] == 't'
        && "tomorrow"@[0] == 't' && "tom"@[0] == 't');
    assert("tues"@[0] == 't' && "thur"@[0] == 't' && "thu"@[0] == 't' && "tue"@[0] == 't');
}

/// The units of time without the ending of the plural.
proof fn lemma_plurals()
    ensures
        input::singular("day"@) == "day"@ && input::singular("days"@) == "day"@,
        input::singular("week"@) == "week"@ && input::singular("weeks"@) == "week"@,
        input::singular("month"@) == "month"@ && input::singular("months"@) == "month"@,
        input::singular("hour"@) == "hour"@ && input::singular("hours"@) == "hour"@,
        input::singular("minute"@) == "minute"@ && input::singular("minutes"@) == "minute"@,
{
    reveal_strlit("day");
    reveal_strlit("days");
    reveal_strlit("week");
    reveal_strlit("weeks");
    reveal_strlit("month");
    reveal_strlit("months");
    reveal_strlit("hour");
    reveal_strlit("hours");
    reveal_strlit("minute");
    reveal_strlit("minutes");
    assert("days"@.drop_last() =~= "day"@);
    assert("weeks"@.drop_last() =~= "week"@);
    assert("months"@.drop_last() =~= "month"@);
    assert("hours"@.drop_last() =~= "hour"@);
    assert("minutes"@.drop_last() =~= "minute"@);
}

/// Of the phrases in a line the last one counts; where there is none, no date is said.
pub proof fn the_last_date_counts(
    s: Seq<char>,
    words: Seq<(int, int)>,
    protected: Seq<(int, int)>,
    later: Later,
    k: int,
    phrase: Phrase,
    date: FoundDate,
    time: FoundTime,
)
    requires
        input::phrases_from(s, words, 0, protected, later, None, None) == Ok::<
            (FoundDate, FoundTime),
            ErrorModel,
        >((date, time)),
        0 <= k < words.len() ==> input::phrase_at(s, words, k, protected, later) == Ok::<
            Option<Phrase>,
            ErrorModel,
        >(Some(phrase)),
        -1 <= k < words.len(),
        forall|j: int|
            k < j < words.len() ==> #[trigger] input::phrase_at(s, words, j, protected, later)
                == Ok::<Option<Phrase>, ErrorModel>(None),
    ensures
        k >= 0 ==> date == Some(((words[k].0, phrase.end), phrase.meaning)),
        k >= 0 && phrase.time is Some ==> time == Some(((words[k].0, phrase.end), phrase.time->0)),
        k == -1 ==> date is None && time is None,
{
    lemma_last_date(s, words, 0, protected, later, None, None, k, phrase);
}

proof fn lemma_last_date(
    s: Seq<char>,
    words: Seq<(int, int)>,
    i: int,
    protected: Seq<(int, int)>,
    later: Later,
    date: FoundDate,
    time: FoundTime,
    k: int,
    phrase: Phrase,
)
    requires
        0 <= i <= words.len(),
        input::phrases_from(s, words, i, protected, later, date, time) is Ok,
        0 <= k < words.len() ==> input::phrase_at(s, words, k, protected, later) == Ok::<
            Option<Phrase>,
            ErrorModel,
        >(Some(phrase)),
        -1 <= k < words.len(),
        forall|j: int|
            k < j < words.len() ==> #[trigger] input::phrase_at(s, words, j, protected, later)
                == Ok::<Option<Phrase>, ErrorModel>(None),
    ensures
        ({
            let found = input::phrases_from(s, words, i, protected, later, date, time)->Ok_0;
            &&& i <= k ==> found.0 == Some(((words[k].0, phrase.end), phrase.meaning)) && (
            phrase.time is Some ==> found.1 == Some(((words[k].0, phrase.end), phrase.time->0)))
            &&& i > k ==> found == (date, time)
        }),
    decreases words.len() - i,
{
    if i < words.len() {
        match input::phrase_at(s, words, i, protected, later)->Ok_0 {
            None => {
                lemma_last_date(s, words, i + 1, protected, later, date, time, k, phrase);
            },
            Some(other) => {
                let span = (words[i].0, other.end);
                let said = match other.time {
                    Some(said) => Some((span, said)),
                    None => time,
                };
                lemma_last_date(
                    s,
                    words,
                    i + 1,
                    protected,
                    later,
                    Some((span, other.meaning)),
                    said,
                    k,
                    phrase,
                );
            },
        }
    }
}

/// A time with `am` or `pm` is on the clock of twelve hours: 12 am is midnight, 12 pm is noon, and
/// the other hours after noon are twelve more. Without it, the hour and minute are as written. No
/// time has an hour or a minute that a clock does not show.
pub proof fn clock_times_are_those_of_the_clock(
    groups: Seq<Option<Seq<char>>>,
    time: Time,
)
    requires
        groups.len() == 6,
        input::clock_time(Some(groups)) == Some(time),
    ensures
        time.s() == 0 && time.nanos() == 0,
        0 <= time.h() < 24 && 0 <= time.min() < 60,
        groups[1] is Some && groups[2] is Some ==> time.h() == text::number(groups[1]->0)
            && time.min() == text::number(groups[2]->0),
        !(groups[1] is Some && groups[2] is Some) ==> {
            let hour = text::number(groups[3]->0);
            let pm = text::lower(groups[5]->0) == "pm"@;
            &&& groups[3] is Some && groups[5] is Some && 1 <= hour <= 12
            &&& hour == 12 && !pm ==> time.h() == 0
            &&& hour == 12 && pm ==> time.h() == 12
            &&& hour < 12 && !pm ==> time.h() == hour
            &&& hour < 12 && pm ==> time.h() == hour + 12
            &&& groups[4] is None ==> time.min() == 0
            &&& groups[4] is Some ==> time.min() == text::number(groups[4]->0)
        },
{
    if let Some((hour, minute)) = input::clock_numbers(groups) {
        assert(hour >= 0 && minute >= 0);
        calendar::lemma_time_of(hour, minute, 0, 0);
    }
}

/// The seconds from the day before 0001-01-01 to a minute of a day.
pub open spec fn seconds_to(date: Date, time: Time) -> int {
    date.number() * 86400 + time.h() * 3600 + time.min() * 60 + time.s()
}

/// After so many hours or minutes, on a clock that is never set, it is the first whole minute that
/// does not come before that moment.
#[verifier::spinoff_prover]
#[verifier::rlimit(60)]
pub proof fn time_passes_to_the_next_whole_minute(
    date: Date,
    time: Time,
    amount: int,
    unit: int,
    later: (Date, Time),
)
    requires
        date.valid(),
        time.valid(),
        amount >= 0,
        unit == 60 || unit == 3600,
        input::elapsed(Later::Civil { date, time }, amount, unit) == Ok::<(Date, Time), ErrorModel>(
            later,
        ),
    ensures
        later.1.s() == 0 && later.1.nanos() == 0,
        ({
            let moment = seconds_to(date, time) + amount * unit;
            let shown = seconds_to(later.0, later.1);
            if time.s() == 0 && time.nanos() % 1_000_000_000 == 0 {
                shown == moment
            } else {
                moment < shown <= moment + 60
            }
        }),
{
    let seconds = amount * unit;
    assert(seconds >= 0 && seconds % 60 == 0) by (nonlinear_arith)
        requires
            seconds == amount * unit,
            amount >= 0,
            unit == 60 || unit == 3600,
    ;
    lemma_civil(date, time, seconds);
    lemma_civil(date, time, seconds + 60);
    let first = input::civil_later(date, time, seconds)->0;
    let shown = if first.1.s() > 0 || first.1.nanos() > 0 {
        input::civil_later(date, time, seconds + 60)->0
    } else {
        first
    };
    calendar::lemma_time_of(shown.1.h(), shown.1.min(), 0, 0);
}

/// What a clock that is never set shows after some seconds.
proof fn lemma_civil(date: Date, time: Time, seconds: int)
    requires
        date.valid(),
        time.valid(),
        seconds >= 0,
    ensures
        input::civil_later(date, time, seconds) matches Some(later) ==> {
            &&& seconds_to(later.0, later.1) == seconds_to(date, time) + seconds
            &&& 0 <= later.1.s() < 60
            &&& later.1.s() == (time.s() + seconds) % 60
            &&& later.1.nanos() == time.nanos() % 1_000_000_000
            &&& 0 <= later.1.h() < 24
            &&& 0 <= later.1.min() < 60
        },
{
    let total = time.h() * 3600 + time.min() * 60 + time.s() + seconds;
    lemma_day_within(date, total / 86400);
    let rest = total % 86400;
    calendar::lemma_time_of(rest / 3600, rest / 60 % 60, rest % 60, time.nanos() % 1_000_000_000);
    assert(rest % 60 == total % 60);
}

/// Whether something between whitespace is the mark and the text.
pub open spec fn marked(
    s: Seq<char>,
    tokens: Seq<(int, int)>,
    mark: char,
    value: Seq<char>,
) -> bool {
    exists|i: int|
        0 <= i < tokens.len() && s.subrange((#[trigger] tokens[i]).0, tokens[i].1) == seq![mark]
            + value
}

/// The projects that a line says are what stands behind `#`, and its tags what stands behind `@`,
/// each once; and each has to be a slug or a tag.
pub proof fn marks_say_projects_and_tags(
    s: Seq<char>,
    tokens: Seq<(int, int)>,
    urls: Seq<Seq<(int, int)>>,
    said: Metadata,
    value: Seq<char>,
)
    requires
        input::with_tokens(s, tokens, urls, 0, input::unsaid()) == Ok::<Metadata, ErrorModel>(said),
    ensures
        said.projects.contains(value) <==> marked(s, tokens, '#', value),
        said.tags.contains(value) <==> marked(s, tokens, '@', value),
        said.projects.no_duplicates(),
        said.tags.no_duplicates(),
        marked(s, tokens, '#', value) ==> model::slug(value),
        marked(s, tokens, '@', value) ==> model::tag(value),
{
    lemma_tokens(s, tokens, urls, 0, input::unsaid(), value);
    assert(tokens.subrange(0, tokens.len() as int) =~= tokens);
}

/// What one more token adds.
proof fn lemma_token(
    token: Seq<char>,
    span: (int, int),
    urls: Seq<(int, int)>,
    said: Metadata,
    value: Seq<char>,
)
    requires
        said.projects.no_duplicates(),
        said.tags.no_duplicates(),
    ensures
        input::with_token(token, span, urls, said) matches Ok(next) ==> {
            &&& next.projects.contains(value) <==> said.projects.contains(value) || token == seq![
                '#',
            ] + value
            &&& next.tags.contains(value) <==> said.tags.contains(value) || token == seq!['@']
                + value
            &&& next.projects.no_duplicates()
            &&& next.tags.no_duplicates()
            &&& token == seq!['#'] + value ==> model::slug(value)
            &&& token == seq!['@'] + value ==> model::tag(value)
        },
{
    reveal_strlit("#");
    reveal_strlit("@");
    assert("#"@ =~= seq!['#'] && "@"@ =~= seq!['@']);
    let rest = token.subrange(1, token.len() as int);
    lemma_with_one(said.projects, rest, value);
    lemma_with_one(said.tags, rest, value);
    lemma_mark(token, '#', value);
    lemma_mark(token, '@', value);
    if text::begins(token, "#"@) {
        assert(token.subrange(0, 1)[0] == '#');
        assert(token[0] == '#');
    }
    if text::begins(token, "@"@) {
        assert(token.subrange(0, 1)[0] == '@');
        assert(token[0] == '@');
    }
}

proof fn lemma_mark(token: Seq<char>, mark: char, value: Seq<char>)
    ensures
        token == seq![mark] + value <==> text::begins(token, seq![mark]) && token.subrange(
            1,
            token.len() as int,
        ) == value,
{
    if token == seq![mark] + value {
        assert(token.subrange(0, 1) =~= seq![mark]);
        assert(token.subrange(1, token.len() as int) =~= value);
    }
    if text::begins(token, seq![mark]) && token.subrange(1, token.len() as int) == value {
        assert(token.subrange(0, 1)[0] == mark);
        assert(token =~= seq![mark] + value);
    }
}

proof fn lemma_with_one(list: Seq<Seq<char>>, s: Seq<char>, value: Seq<char>)
    requires
        list.no_duplicates(),
    ensures
        input::with_one(list, s).contains(value) <==> list.contains(value) || value == s,
        input::with_one(list, s).no_duplicates(),
{
    let more = list.push(s);
    if !list.contains(s) {
        if list.contains(value) {
            assert(more[list.index_of(value)] == value);
        }
        assert(more[list.len() as int] == s);
    }
}

proof fn lemma_tokens(
    s: Seq<char>,
    tokens: Seq<(int, int)>,
    urls: Seq<Seq<(int, int)>>,
    i: int,
    said: Metadata,
    value: Seq<char>,
)
    requires
        0 <= i <= tokens.len(),
        said.projects.no_duplicates(),
        said.tags.no_duplicates(),
    ensures
        input::with_tokens(s, tokens, urls, i, said) matches Ok(all) ==> {
            let rest = tokens.subrange(i, tokens.len() as int);
            &&& all.projects.contains(value) <==> said.projects.contains(value) || marked(
                s,
                rest,
                '#',
                value,
            )
            &&& all.tags.contains(value) <==> said.tags.contains(value) || marked(
                s,
                rest,
                '@',
                value,
            )
            &&& all.projects.no_duplicates()
            &&& all.tags.no_duplicates()
            &&& marked(s, rest, '#', value) ==> model::slug(value)
            &&& marked(s, rest, '@', value) ==> model::tag(value)
        },
    decreases tokens.len() - i,
{
    if i < tokens.len() {
        let token = s.subrange(tokens[i].0, tokens[i].1);
        lemma_token(token, tokens[i], urls[i], said, value);
        if let Ok(next) = input::with_token(token, tokens[i], urls[i], said) {
            lemma_tokens(s, tokens, urls, i + 1, next, value);
            lemma_marked_first(s, tokens, i, '#', value);
            lemma_marked_first(s, tokens, i, '@', value);
        }
    }
}

proof fn lemma_marked_first(
    s: Seq<char>,
    tokens: Seq<(int, int)>,
    i: int,
    mark: char,
    value: Seq<char>,
)
    requires
        0 <= i < tokens.len(),
    ensures
        marked(s, tokens.subrange(i, tokens.len() as int), mark, value) <==> s.subrange(
            tokens[i].0,
            tokens[i].1,
        ) == seq![mark] + value || marked(
            s,
            tokens.subrange(i + 1, tokens.len() as int),
            mark,
            value,
        ),
{
    let rest = tokens.subrange(i, tokens.len() as int);
    let next = tokens.subrange(i + 1, tokens.len() as int);
    assert(rest[0] == tokens[i]);
    if marked(s, next, mark, value) {
        let k = choose|k: int|
            0 <= k < next.len() && s.subrange((#[trigger] next[k]).0, next[k].1) == seq![mark]
                + value;
        assert(rest[k + 1] == next[k]);
    }
    if marked(s, rest, mark, value) && s.subrange(tokens[i].0, tokens[i].1) != seq![mark] + value {
        let k = choose|k: int|
            0 <= k < rest.len() && s.subrange((#[trigger] rest[k]).0, rest[k].1) == seq![mark]
                + value;
        assert(rest[k] == next[k - 1]);
    }
}

/// The characters of a text that are no whitespace.
pub open spec fn solid(s: Seq<char>) -> Seq<char> {
    s.filter(|c: char| !text::is_whitespace(c))
}

/// The characters of a text that no span covers.
pub open spec fn uncovered(s: Seq<char>, removals: Seq<(int, int)>) -> Seq<char>
    decreases s.len(),
{
    if s.len() == 0 {
        seq![]
    } else if input::overlaps((s.len() - 1, s.len() as int), removals) {
        uncovered(s.drop_last(), removals)
    } else {
        uncovered(s.drop_last(), removals).push(s.last())
    }
}

/// The name that is left of a line has, whitespace aside, the characters that are not taken out, in
/// order; it has single spaces between its words, and none around them.
pub proof fn the_name_is_what_is_not_taken_out(s: Seq<char>, removals: Seq<(int, int)>)
    ensures
        solid(input::name_left(s, removals)) == solid(uncovered(s, removals)),
        ({
            let name = input::name_left(s, removals);
            &&& name.len() > 0 ==> !text::is_whitespace(name[0]) && !text::is_whitespace(
                name.last(),
            )
            &&& forall|i: int|
                0 < i < name.len() && text::is_whitespace(#[trigger] name[i]) ==> name[i] == ' '
                    && !text::is_whitespace(name[i - 1])
        }),
{
    let clear = input::cleared(s, removals);
    let words = input::words_from(clear, 0);
    lemma_words_solid(clear, 0);
    assert(clear.subrange(0, clear.len() as int) =~= clear);
    reveal_strlit(" ");
    assert(" "@ =~= seq![' ']);
    lemma_joined_words(words);
    lemma_cleared_solid(s, removals);
}

/// Texts, one after the other.
spec fn run_together(words: Seq<Seq<char>>) -> Seq<char>
    decreases words.len(),
{
    if words.len() == 0 {
        seq![]
    } else {
        run_together(words.drop_last()) + words.last()
    }
}

/// Whether a text is a word: not empty, and without whitespace.
spec fn is_word(s: Seq<char>) -> bool {
    s.len() > 0 && forall|i: int| 0 <= i < s.len() ==> !text::is_whitespace(#[trigger] s[i])
}

/// What filtering does to a sum.
proof fn lemma_solid_add(a: Seq<char>, b: Seq<char>)
    ensures
        solid(a + b) == solid(a) + solid(b),
    decreases b.len(),
{
    let pred = |c: char| !text::is_whitespace(c);
    reveal(Seq::filter);
    if b.len() == 0 {
        assert(a + b =~= a);
        assert(solid(b) =~= Seq::<char>::empty());
        assert(solid(a) + solid(b) =~= solid(a));
    } else {
        assert((a + b).drop_last() =~= a + b.drop_last());
        lemma_solid_add(a, b.drop_last());
        assert((a + b).last() == b.last());
        if pred(b.last()) {
            assert(solid(a + b) =~= solid(a + b.drop_last()).push(b.last()));
            assert(solid(b) =~= solid(b.drop_last()).push(b.last()));
            assert(solid(a) + solid(b.drop_last()).push(b.last()) =~= (solid(a) + solid(
                b.drop_last(),
            )).push(b.last()));
        } else {
            assert(solid(a + b) =~= solid(a + b.drop_last()));
            assert(solid(b) =~= solid(b.drop_last()));
        }
    }
}

/// A word is all solid; whitespace is not solid at all.
proof fn lemma_solid_one(s: Seq<char>)
    ensures
        (forall|i: int| 0 <= i < s.len() ==> !text::is_whitespace(#[trigger] s[i])) ==> solid(s)
            == s,
        text::blank(s) ==> solid(s).len() == 0,
    decreases s.len(),
{
    reveal(Seq::filter);
    if s.len() > 0 {
        lemma_solid_one(s.drop_last());
        let before = s.drop_last();
        if forall|i: int| 0 <= i < s.len() ==> !text::is_whitespace(#[trigger] s[i]) {
            assert forall|i: int| 0 <= i < before.len() implies !text::is_whitespace(
                #[trigger] before[i],
            ) by {
                assert(before[i] == s[i]);
            }
            assert(!text::is_whitespace(s[s.len() - 1]));
            assert(solid(s) =~= solid(before).push(s.last()));
            assert(before.push(s.last()) =~= s);
        }
        if text::blank(s) {
            assert forall|i: int| 0 <= i < before.len() implies text::is_whitespace(
                #[trigger] before[i],
            ) by {
                assert(before[i] == s[i]);
            }
            assert(text::is_whitespace(s[s.len() - 1]));
        }
    } else {
        assert(solid(s) =~= s);
    }
}

/// The words of a text have its solid characters, in order.
proof fn lemma_words_solid(s: Seq<char>, i: int)
    requires
        0 <= i <= s.len(),
    ensures
        run_together(input::words_from(s, i)) == solid(s.subrange(i, s.len() as int)),
        forall|k: int|
            0 <= k < input::words_from(s, i).len() ==> is_word(
                #[trigger] input::words_from(s, i)[k],
            ),
    decreases s.len() - i,
{
    let all = s.subrange(i, s.len() as int);
    reveal(Seq::filter);
    if i >= s.len() {
        assert(all =~= Seq::<char>::empty());
        assert(solid(all) =~= Seq::<char>::empty());
    } else {
        input::lemma_word_bounds(s, i);
        let start = input::word_start(s, i);
        input::lemma_word_bounds(s, start);
        let gap = s.subrange(i, start);
        lemma_gap(s, i);
        lemma_solid_one(gap);
        assert(solid(gap) =~= Seq::<char>::empty());
        if start >= s.len() {
            assert(all =~= gap);
        } else {
            let stop = input::word_stop(s, start);
            let one = s.subrange(start, stop);
            let rest = s.subrange(stop, s.len() as int);
            lemma_word(s, start);
            lemma_solid_one(one);
            lemma_words_solid(s, stop);
            let others = input::words_from(s, stop);
            assert(input::words_from(s, i) == seq![one] + others);
            lemma_run_first(one, others);
            assert(all =~= gap + (one + rest));
            lemma_solid_add(gap, one + rest);
            lemma_solid_add(one, rest);
            assert(Seq::<char>::empty() + solid(one + rest) =~= solid(one + rest));
            assert forall|k: int| 0 <= k < (seq![one] + others).len() implies is_word(
                #[trigger] (seq![one] + others)[k],
            ) by {
                if k > 0 {
                    assert((seq![one] + others)[k] == others[k - 1]);
                }
            }
        }
    }
}

proof fn lemma_run_first(one: Seq<char>, others: Seq<Seq<char>>)
    ensures
        run_together(seq![one] + others) == one + run_together(others),
    decreases others.len(),
{
    let all = seq![one] + others;
    if others.len() == 0 {
        assert(all.drop_last() =~= Seq::<Seq<char>>::empty());
        assert(all.last() == one);
        assert(run_together(all.drop_last()) + one =~= one + run_together(others));
    } else {
        assert(all.drop_last() =~= seq![one] + others.drop_last());
        assert(all.last() == others.last());
        lemma_run_first(one, others.drop_last());
        assert((one + run_together(others.drop_last())) + others.last() =~= one + (run_together(
            others.drop_last(),
        ) + others.last()));
    }
}

/// What stands before a word is whitespace.
proof fn lemma_gap(s: Seq<char>, i: int)
    requires
        0 <= i <= s.len(),
    ensures
        text::blank(s.subrange(i, input::word_start(s, i))),
    decreases s.len() - i,
{
    input::lemma_word_bounds(s, i);
    let gap = s.subrange(i, input::word_start(s, i));
    if i < s.len() && text::is_whitespace(s[i]) {
        lemma_gap(s, i + 1);
        input::lemma_word_bounds(s, i + 1);
        let rest = s.subrange(i + 1, input::word_start(s, i));
        assert forall|k: int| 0 <= k < gap.len() implies text::is_whitespace(#[trigger] gap[k]) by {
            if k > 0 {
                assert(gap[k] == rest[k - 1]);
            }
        }
    }
}

/// What stands from the start of a word to its end is a word.
proof fn lemma_word(s: Seq<char>, i: int)
    requires
        0 <= i <= s.len(),
    ensures
        forall|k: int|
            0 <= k < s.subrange(i, input::word_stop(s, i)).len() ==> !text::is_whitespace(
                #[trigger] s.subrange(i, input::word_stop(s, i))[k],
            ),
    decreases s.len() - i,
{
    input::lemma_word_bounds(s, i);
    let word = s.subrange(i, input::word_stop(s, i));
    if i < s.len() && !text::is_whitespace(s[i]) {
        lemma_word(s, i + 1);
        input::lemma_word_bounds(s, i + 1);
        let rest = s.subrange(i + 1, input::word_stop(s, i));
        assert forall|k: int| 0 <= k < word.len() implies !text::is_whitespace(
            #[trigger] word[k],
        ) by {
            if k > 0 {
                assert(word[k] == rest[k - 1]);
            }
        }
    }
}

/// Words joined by spaces are, but for single spaces between them, those words.
proof fn lemma_joined_words(words: Seq<Seq<char>>)
    requires
        forall|k: int| 0 <= k < words.len() ==> is_word(#[trigger] words[k]),
    ensures
        solid(text::joined(words, seq![' '])) == run_together(words),
        ({
            let name = text::joined(words, seq![' ']);
            &&& name.len() > 0 ==> !text::is_whitespace(name[0]) && !text::is_whitespace(
                name.last(),
            )
            &&& words.len() > 0 ==> name.len() > 0
            &&& forall|i: int|
                0 < i < name.len() && text::is_whitespace(#[trigger] name[i]) ==> name[i] == ' '
                    && !text::is_whitespace(name[i - 1])
        }),
    decreases words.len(),
{
    let name = text::joined(words, seq![' ']);
    reveal(Seq::filter);
    if words.len() == 0 {
        assert(solid(name) =~= Seq::<char>::empty());
    } else {
        let last = words.last();
        let others = words.drop_last();
        assert(is_word(words[words.len() - 1]));
        assert forall|k: int| 0 <= k < others.len() implies is_word(#[trigger] others[k]) by {
            assert(others[k] == words[k]);
        }
        lemma_joined_words(others);
        lemma_solid_one(last);
        let before = text::joined(others, seq![' ']);
        if words.len() == 1 {
            assert(run_together(others) =~= Seq::<char>::empty());
            assert(run_together(words) =~= last);
            assert(name =~= last);
        } else {
            assert(name == before + seq![' '] + last);
            lemma_solid_add(before + seq![' '], last);
            lemma_solid_add(before, seq![' ']);
            lemma_solid_one(seq![' ']);
            assert(solid(seq![' ']) =~= Seq::<char>::empty());
            assert(solid(before) + Seq::<char>::empty() =~= solid(before));
            assert(name[0] == before[0]);
            assert(name.last() == last.last());
            assert forall|i: int|
                0 < i < name.len() && text::is_whitespace(#[trigger] name[i]) implies name[i] == ' '
                && !text::is_whitespace(name[i - 1]) by {
                if i < before.len() {
                    assert(name[i] == before[i] && name[i - 1] == before[i - 1]);
                } else if i == before.len() {
                    assert(name[i - 1] == before.last());
                } else {
                    assert(name[i] == last[i - before.len() - 1]);
                }
            }
        }
    }
}

/// What is cleared has the solid characters that are not covered.
proof fn lemma_cleared_solid(s: Seq<char>, removals: Seq<(int, int)>)
    ensures
        solid(input::cleared(s, removals)) == solid(uncovered(s, removals)),
    decreases s.len(),
{
    let clear = input::cleared(s, removals);
    reveal(Seq::filter);
    if s.len() == 0 {
        assert(clear =~= uncovered(s, removals));
    } else {
        let before = s.drop_last();
        lemma_cleared_solid(before, removals);
        assert(clear.drop_last() =~= input::cleared(before, removals));
        let n = s.len() - 1;
        if input::overlaps((n, n + 1), removals) {
            assert(clear.last() == ' ');
            assert(solid(clear) =~= solid(clear.drop_last()));
        } else {
            assert(clear.last() == s.last());
            let left = uncovered(before, removals);
            assert(uncovered(s, removals) == left.push(s.last()));
            assert(left.push(s.last()).drop_last() =~= left);
            if !text::is_whitespace(s.last()) {
                assert(solid(clear) =~= solid(clear.drop_last()).push(s.last()));
                assert(solid(left.push(s.last())) =~= solid(left).push(s.last()));
            } else {
                assert(solid(clear) =~= solid(clear.drop_last()));
                assert(solid(left.push(s.last())) =~= solid(left));
            }
        }
    }
}

/// Whether a word of a list command is the mark and the text.
pub open spec fn asked(tokens: Seq<Seq<char>>, mark: char, value: Seq<char>) -> bool {
    exists|i: int| 1 <= i < tokens.len() && #[trigger] tokens[i] == seq![mark] + value
}

/// `/list` asks for the projects behind `#`, the tags behind `@` and the states behind `!`; for
/// tasks due today or the day after with `due:today` and `due:tomorrow`, overdue ones with
/// `due:overdue`, and those without a date with `due:none`; and for nothing that is not said.
pub proof fn list_commands_ask_for_what_they_say(
    tokens: Seq<Seq<char>>,
    today: Date,
    filter: FilterModel,
    value: Seq<char>,
)
    requires
        today.valid(),
        tokens.len() > 0,
        input::filter_from(tokens, 1, input::everything(), None, today) == Ok::<
            FilterModel,
            ErrorModel,
        >(filter),
    ensures
        filter.projects.contains(value) <==> asked(tokens, '#', value),
        filter.tags.contains(value) <==> asked(tokens, '@', value),
        value.len() > 0 ==> (filter.states.contains(value) <==> asked(tokens, '!', value)),
        filter.overdue <==> said_word(tokens, 1, "due:overdue"@),
        filter.undated <==> said_word(tokens, 1, "due:none"@),
        said_word(tokens, 1, "due:today"@) ==> filter.due_on == Some(today),
        said_word(tokens, 1, "due:tomorrow"@) ==> (filter.due_on matches Some(day) && day.number()
            == today.number() + 1),
        filter.due_on is Some ==> said_word(tokens, 1, "due:today"@) || said_word(
            tokens,
            1,
            "due:tomorrow"@,
        ),
        filter.include_terminal,
        filter.due_before is None && filter.due_after is None,
        !filter.recurring && !filter.non_recurring && !filter.roots,
        filter.parent is None && filter.query is None,
{
    reveal_strlit("due:today");
    reveal_strlit("due:tomorrow");
    reveal_strlit("due:overdue");
    reveal_strlit("due:none");
    assert("due:today"@.len() == 9 && "due:tomorrow"@.len() == 12 && "due:overdue"@.len() == 11
        && "due:none"@.len() == 8);
    lemma_filter(tokens, 1, input::everything(), None, today, value);
}

/// Whether a word from the `i`-th on is the given one.
pub open spec fn said_word(tokens: Seq<Seq<char>>, i: int, word: Seq<char>) -> bool {
    exists|k: int| i <= k < tokens.len() && #[trigger] tokens[k] == word
}

/// Whether a word from the `i`-th on is the mark and the text.
spec fn asked_from(tokens: Seq<Seq<char>>, i: int, mark: char, value: Seq<char>) -> bool {
    exists|k: int| i <= k < tokens.len() && #[trigger] tokens[k] == seq![mark] + value
}

/// Whether a filter for due dates says the same as the word for it.
spec fn due_said(filter: FilterModel, due: Option<Seq<char>>, today: Date) -> bool {
    &&& filter.overdue <==> due == Some("due:overdue"@)
    &&& filter.undated <==> due == Some("due:none"@)
    &&& due == Some("due:today"@) ==> filter.due_on == Some(today)
    &&& due == Some("due:tomorrow"@) ==> (filter.due_on matches Some(day) && day.number()
        == today.number() + 1)
    &&& filter.due_on is Some ==> due == Some("due:today"@) || due == Some("due:tomorrow"@)
    &&& due is Some ==> due == Some("due:today"@) || due == Some("due:tomorrow"@) || due == Some(
        "due:overdue"@,
    ) || due == Some("due:none"@)
}

proof fn lemma_filter(
    tokens: Seq<Seq<char>>,
    i: int,
    filter: FilterModel,
    due: Option<Seq<char>>,
    today: Date,
    value: Seq<char>,
)
    requires
        1 <= i <= tokens.len(),
        today.valid(),
        due_said(filter, due, today),
        filter.projects.no_duplicates(),
        filter.tags.no_duplicates(),
        filter.states.no_duplicates(),
        "due:today"@.len() == 9 && "due:tomorrow"@.len() == 12 && "due:overdue"@.len() == 11
            && "due:none"@.len() == 8,
        "due:today"@[0] == 'd' && "due:tomorrow"@[0] == 'd' && "due:overdue"@[0] == 'd'
            && "due:none"@[0] == 'd',
    ensures
        input::filter_from(tokens, i, filter, due, today) matches Ok(all) ==> {
            &&& all.projects.contains(value) <==> filter.projects.contains(value) || asked_from(
                tokens,
                i,
                '#',
                value,
            )
            &&& all.tags.contains(value) <==> filter.tags.contains(value) || asked_from(
                tokens,
                i,
                '@',
                value,
            )
            &&& value.len() > 0 ==> (all.states.contains(value) <==> filter.states.contains(value)
                || asked_from(tokens, i, '!', value))
            &&& exists|last: Option<Seq<char>>| #[trigger]
                due_said(all, last, today) && (last is Some <==> due is Some || (exists|k: int|
                    i <= k < tokens.len() && due_word(#[trigger] tokens[k]))) && (forall|k: int|
                    i <= k < tokens.len() && due_word(#[trigger] tokens[k]) ==> last == Some(
                        tokens[k],
                    )) && (due is Some ==> last == due) && (last is Some && due is None
                    ==> said_word(tokens, i, last->0))
            &&& all.include_terminal == filter.include_terminal
            &&& all.due_before == filter.due_before && all.due_after == filter.due_after
            &&& all.recurring == filter.recurring && all.non_recurring == filter.non_recurring
            &&& all.roots == filter.roots && all.parent == filter.parent && all.query
                == filter.query
        },
    decreases tokens.len() - i,
{
    reveal_strlit("#");
    reveal_strlit("@");
    reveal_strlit("!");
    assert("#"@ =~= seq!['#'] && "@"@ =~= seq!['@'] && "!"@ =~= seq!['!']);
    if i >= tokens.len() {
        assert(due_said(filter, due, today));
    } else {
        let token = tokens[i];
        let rest = token.subrange(1, token.len() as int);
        lemma_mark(token, '#', value);
        lemma_mark(token, '@', value);
        lemma_mark(token, '!', value);
        lemma_with_one(filter.projects, rest, value);
        lemma_with_one(filter.tags, rest, value);
        lemma_with_one(filter.states, rest, value);
        lemma_asked_first(tokens, i, '#', value);
        lemma_asked_first(tokens, i, '@', value);
        lemma_asked_first(tokens, i, '!', value);
        lemma_day_within(today, 1);
        let outcome = input::filter_from(tokens, i, filter, due, today);
        if text::begins(token, "#"@) || text::begins(token, "@"@) || (text::begins(token, "!"@)
            && token.len() > 1) {
            let (next, mark) = if text::begins(token, "#"@) {
                (
                    FilterModel { projects: input::with_one(filter.projects, rest), ..filter },
                    '#',
                )
            } else if text::begins(token, "@"@) {
                (FilterModel { tags: input::with_one(filter.tags, rest), ..filter }, '@')
            } else {
                (FilterModel { states: input::with_one(filter.states, rest), ..filter }, '!')
            };
            assert(token.subrange(0, 1)[0] == mark);
            assert(token[0] == mark);
            assert(!due_word(token));
            lemma_filter(tokens, i + 1, next, due, today, value);
            if let Ok(all) = outcome {
                let last = choose|last: Option<Seq<char>>| #[trigger]
                    due_said(all, last, today) && (last is Some <==> due is Some || (exists|k: int|
                        i + 1 <= k < tokens.len() && due_word(#[trigger] tokens[k]))) && (forall|
                        k: int,
                    |
                        i + 1 <= k < tokens.len() && due_word(#[trigger] tokens[k]) ==> last == Some(
                            tokens[k],
                        )) && (due is Some ==> last == due) && (last is Some && due is None
                        ==> said_word(tokens, i + 1, last->0));
                assert(due_said(all, last, today));
            }
        } else {
            if let Ok(next) = input::with_due(filter, token, today) {
                assert(due_word(token));
                if due is None || due->0 == token {
                    assert(due_said(next, Some(token), today));
                    lemma_filter(tokens, i + 1, next, Some(token), today, value);
                    if let Ok(all) = outcome {
                        assert(due_said(all, Some(token), today));
                        assert(said_word(tokens, i, token));
                    }
                }
                assert(token[0] == 'd');
                assert(token != seq!['#'] + value && token != seq!['@'] + value && token
                    != seq!['!'] + value) by {
                    assert((seq!['#'] + value)[0] == '#');
                    assert((seq!['@'] + value)[0] == '@');
                    assert((seq!['!'] + value)[0] == '!');
                }
            }
        }
    }
}

/// Whether a word is one of those for due dates.
pub open spec fn due_word(token: Seq<char>) -> bool {
    token == "due:today"@ || token == "due:tomorrow"@ || token == "due:overdue"@ || token
        == "due:none"@
}

proof fn lemma_asked_first(tokens: Seq<Seq<char>>, i: int, mark: char, value: Seq<char>)
    requires
        0 <= i < tokens.len(),
    ensures
        asked_from(tokens, i, mark, value) <==> tokens[i] == seq![mark] + value || asked_from(
            tokens,
            i + 1,
            mark,
            value,
        ),
{
}

/// `in` with a number of hours or minutes is the moment when they have passed, an hour being
/// sixty minutes.
pub proof fn hours_are_sixty_minutes(
    s: Seq<char>,
    words: Seq<(int, int)>,
    i: int,
    protected: Seq<(int, int)>,
    later: Later,
    phrase: Phrase,
    amount: u64,
)
    requires
        input::in_phrase(s, words, i, protected, later) == Ok::<Option<Phrase>, ErrorModel>(
            Some(phrase),
        ),
        input::positive(s.subrange(words[i + 1].0, words[i + 1].1)) == Some(amount),
    ensures
        ({
            let unit = text::lower(s.subrange(words[i + 2].0, words[i + 2].1));
            let minutes = if unit == "hour"@ || unit == "hours"@ {
                60 * amount
            } else {
                amount as int
            };
            unit == "hour"@ || unit == "hours"@ || unit == "minute"@ || unit == "minutes"@ ==> {
                &&& phrase.time is Some
                &&& phrase.meaning is Resolved
                &&& input::elapsed(later, minutes, 60) == Ok::<(Date, Time), ErrorModel>(
                    (phrase.meaning->Resolved_0, phrase.time->0),
                )
            }
        }),
{
    let unit = text::lower(s.subrange(words[i + 2].0, words[i + 2].1));
    lemma_units(unit);
    reveal_strlit("hour");
    reveal_strlit("hours");
    reveal_strlit("minute");
    reveal_strlit("minutes");
    reveal_strlit("day");
    reveal_strlit("week");
    reveal_strlit("month");
    assert("hours"@.drop_last() =~= "hour"@);
    assert("minutes"@.drop_last() =~= "minute"@);
    assert("hour"@.last() == 'r' && "minute"@.last() == 'e');
    assert("hour"@.len() == 4 && "minute"@.len() == 6 && "hours"@.len() == 5 && "minutes"@.len()
        == 7);
    assert("week"@[0] == 'w' && "hour"@[0] == 'h');
    assert("day"@.len() == 3 && "week"@.len() == 4 && "month"@.len() == 5);
    assert(amount as int * 3600 == (60 * amount) * 60);
}

/// A time alone is meant for today; a date is meant as it is said, whether or not a time is said
/// too; and without either nothing is due.
pub proof fn a_time_alone_is_for_today(date: FoundDate, time: FoundTime, today: Date)
    requires
        today.valid(),
        0 <= today.y() <= 9999,
    ensures
        date is None && time is None ==> input::due_of(date, time, today) == Ok::<
            Option<Date>,
            ErrorModel,
        >(None),
        date is None && time is Some ==> input::due_of(date, time, today) == Ok::<
            Option<Date>,
            ErrorModel,
        >(Some(today)),
        date matches Some((_, meaning)) ==> (input::due_of(date, time, today) matches Ok(due)
            ==> due is Some && input::resolved_date(meaning, today) == Ok::<Date, ErrorModel>(
            due->0,
        )),
        date matches Some((_, meaning)) ==> (input::due_of(date, time, today) is Ok
            <==> input::resolved_date(meaning, today) is Ok),
{
}

/// A web link is left as it is but for its end, where the punctuation of a sentence is taken off,
/// all of it: a dot, a comma, a colon and the like, and a bracket that nothing in the link opens.
pub proof fn links_lose_punctuation_at_their_end(s: Seq<char>)
    ensures
        text::begins(s, input::bare_link(s)),
        forall|i: int|
            input::bare_link(s).len() <= i < s.len() ==> (#[trigger] s[i]) == '.' || s[i] == ','
                || s[i] == ';' || s[i] == ':' || s[i] == '!' || s[i] == '?' || s[i] == '\'' || s[i]
                == ')' || s[i] == ']' || s[i] == '}',
        input::bare_link(s).len() > 0 ==> {
            let end = input::bare_link(s).last();
            end != '.' && end != ',' && end != ';' && end != ':' && end != '!' && end != '?' && end
                != '\''
        },
        !s.contains('(') && !s.contains('[') && !s.contains('{') && input::bare_link(s).len() > 0
            ==> {
            let end = input::bare_link(s).last();
            end != ')' && end != ']' && end != '}'
        },
    decreases s.len(),
{
    if s.len() > 0 && input::loose_end(s) {
        let rest = s.drop_last();
        links_lose_punctuation_at_their_end(rest);
        let left = input::bare_link(s);
        assert(rest.subrange(0, left.len() as int) =~= s.subrange(0, left.len() as int));
        assert forall|i: int| left.len() <= i < s.len() implies (#[trigger] s[i]) == '.' || s[i]
            == ',' || s[i] == ';' || s[i] == ':' || s[i] == '!' || s[i] == '?' || s[i] == '\''
            || s[i] == ')' || s[i] == ']' || s[i] == '}' by {
            if i < rest.len() {
                assert(rest[i] == s[i]);
            } else {
                assert(s[i] == s.last());
            }
        }
        assert(!s.contains('(') ==> !rest.contains('('));
        assert(!s.contains('[') ==> !rest.contains('['));
        assert(!s.contains('{') ==> !rest.contains('{'));
    } else {
        assert(s.subrange(0, s.len() as int) =~= s);
        if s.len() > 0 {
            lemma_unopened(s, '(', ')');
            lemma_unopened(s, '[', ']');
            lemma_unopened(s, '{', '}');
        }
    }
}

proof fn lemma_unopened(s: Seq<char>, open: char, close: char)
    requires
        open != close,
    ensures
        !s.contains(open) ==> input::balance(s, open, close) <= 0,
        !s.contains(open) && s.len() > 0 && s.last() == close ==> input::balance(s, open, close)
            < 0,
    decreases s.len(),
{
    if s.len() > 0 {
        lemma_unopened(s.drop_last(), open, close);
        assert(!s.contains(open) ==> !s.drop_last().contains(open));
        assert(s.contains(s.last()));
    }
}

} // verus!
