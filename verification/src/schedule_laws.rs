//! What recurrence rules mean: the days that a written rule selects, and the one that comes next.
use vstd::arithmetic::div_mod::{lemma_fundamental_div_mod, lemma_mod_multiples_basic};
use vstd::prelude::*;

use crate::calendar::{self, Date};
use crate::error::ErrorModel;
use crate::recurrence::{self, Clauses, Frequency, Listed, RecurrenceMode, RuleModel};
use crate::text;

verus! {

/// Whether a text writes a weekly rule that selects, whatever it is counted from, the days that are
/// whole weeks away from the given one, each of them, and no others.
pub open spec fn writes_weekday(source: Seq<char>, known: Date) -> bool {
    &&& recurrence::parse_rule(source) is Ok
    &&& forall|date: Date|
        #![trigger recurrence::parse_rule(source)->Ok_0.matches(date)]
        recurrence::parse_rule(source)->Ok_0.matches(date) <==> (date.number() - known.number()) % 7
            == 0
    &&& forall|anchor: Date, date: Date|
        #![trigger recurrence::parse_rule(source)->Ok_0.occurs(anchor, date)]
        anchor.number() <= date.number() ==> (recurrence::parse_rule(source)->Ok_0.occurs(
            anchor,
            date,
        ) <==> (date.number() - known.number()) % 7 == 0)
    &&& forall|anchor: Date, threshold: Date, date: Date|
        #![trigger recurrence::parse_rule(source)->Ok_0.next(anchor, threshold, date)]
        anchor.valid() && anchor.number() <= threshold.number()
            && recurrence::parse_rule(source)->Ok_0.next(anchor, threshold, date) ==> (date.number()
            - known.number()) % 7 == 0 && threshold.number() < date.number() <= threshold.number()
            + 7
}

/// Each code of a day of the week selects that day: `MO` those that are whole weeks away from Monday
/// 2026-09-07, and so on to `SU` for Sunday 2026-09-13; and the next one is within a week.
pub proof fn codes_select_their_weekdays()
    ensures
        writes_weekday("FREQ=WEEKLY;BYDAY=MO"@, Date::of(2026, 9, 7)),
        writes_weekday("FREQ=WEEKLY;BYDAY=TU"@, Date::of(2026, 9, 8)),
        writes_weekday("FREQ=WEEKLY;BYDAY=WE"@, Date::of(2026, 9, 9)),
        writes_weekday("FREQ=WEEKLY;BYDAY=TH"@, Date::of(2026, 9, 10)),
        writes_weekday("FREQ=WEEKLY;BYDAY=FR"@, Date::of(2026, 9, 11)),
        writes_weekday("FREQ=WEEKLY;BYDAY=SA"@, Date::of(2026, 9, 12)),
        writes_weekday("FREQ=WEEKLY;BYDAY=SU"@, Date::of(2026, 9, 13)),
{
    reveal_strlit("FREQ=WEEKLY;BYDAY=MO");
    reveal_strlit("FREQ=WEEKLY;BYDAY=TU");
    reveal_strlit("FREQ=WEEKLY;BYDAY=WE");
    reveal_strlit("FREQ=WEEKLY;BYDAY=TH");
    reveal_strlit("FREQ=WEEKLY;BYDAY=FR");
    reveal_strlit("FREQ=WEEKLY;BYDAY=SA");
    reveal_strlit("FREQ=WEEKLY;BYDAY=SU");
    lemma_codes();
    lemma_week_of_2026();
    let head = weekly_head();
    assert("FREQ=WEEKLY;BYDAY=MO"@ =~= head + "MO"@);
    assert("FREQ=WEEKLY;BYDAY=TU"@ =~= head + "TU"@);
    assert("FREQ=WEEKLY;BYDAY=WE"@ =~= head + "WE"@);
    assert("FREQ=WEEKLY;BYDAY=TH"@ =~= head + "TH"@);
    assert("FREQ=WEEKLY;BYDAY=FR"@ =~= head + "FR"@);
    assert("FREQ=WEEKLY;BYDAY=SA"@ =~= head + "SA"@);
    assert("FREQ=WEEKLY;BYDAY=SU"@ =~= head + "SU"@);
    lemma_code_selects("MO"@, 0, Date::of(2026, 9, 7));
    lemma_code_selects("TU"@, 1, Date::of(2026, 9, 8));
    lemma_code_selects("WE"@, 2, Date::of(2026, 9, 9));
    lemma_code_selects("TH"@, 3, Date::of(2026, 9, 10));
    lemma_code_selects("FR"@, 4, Date::of(2026, 9, 11));
    lemma_code_selects("SA"@, 5, Date::of(2026, 9, 12));
    lemma_code_selects("SU"@, 6, Date::of(2026, 9, 13));
}

/// How a weekly rule with days begins.
spec fn weekly_head() -> Seq<char> {
    seq!['F', 'R', 'E', 'Q', '=', 'W', 'E', 'E', 'K', 'L', 'Y', ';', 'B', 'Y', 'D', 'A', 'Y', '=']
}

/// The codes are two capitals each, and stand for the days from Monday on.
proof fn lemma_codes()
    ensures
        "MO"@ == seq!['M', 'O'],
        "TU"@ == seq!['T', 'U'],
        "WE"@ == seq!['W', 'E'],
        "TH"@ == seq!['T', 'H'],
        "FR"@ == seq!['F', 'R'],
        "SA"@ == seq!['S', 'A'],
        "SU"@ == seq!['S', 'U'],
        recurrence::weekday_of("MO"@) == Some(0int),
        recurrence::weekday_of("TU"@) == Some(1int),
        recurrence::weekday_of("WE"@) == Some(2int),
        recurrence::weekday_of("TH"@) == Some(3int),
        recurrence::weekday_of("FR"@) == Some(4int),
        recurrence::weekday_of("SA"@) == Some(5int),
        recurrence::weekday_of("SU"@) == Some(6int),
        forall|s: Seq<char>| #[trigger]
            recurrence::weekday_of(s) is Some ==> s == "MO"@ || s == "TU"@ || s == "WE"@ || s
                == "TH"@ || s == "FR"@ || s == "SA"@ || s == "SU"@,
{
    reveal_strlit("MO");
    reveal_strlit("TU");
    reveal_strlit("WE");
    reveal_strlit("TH");
    reveal_strlit("FR");
    reveal_strlit("SA");
    reveal_strlit("SU");
    assert("MO"@ =~= seq!['M', 'O']);
    assert("TU"@ =~= seq!['T', 'U']);
    assert("WE"@ =~= seq!['W', 'E']);
    assert("TH"@ =~= seq!['T', 'H']);
    assert("FR"@ =~= seq!['F', 'R']);
    assert("SA"@ =~= seq!['S', 'A']);
    assert("SU"@ =~= seq!['S', 'U']);
    assert("MO"@[0] == 'M' && "WE"@[0] == 'W' && "FR"@[0] == 'F');
    assert("TU"@[1] == 'U' && "TH"@[1] == 'H');
    assert("SA"@[1] == 'A' && "SU"@[1] == 'U' && "SA"@[0] == 'S' && "TU"@[0] == 'T');
}

/// The week from Monday 2026-09-07.
pub(crate) proof fn lemma_week_of_2026()
    ensures
        forall|d: int|
            7 <= d <= 13 ==> (#[trigger] Date::of(2026, 9, d)).valid() && Date::of(
                2026,
                9,
                d,
            ).weekday_index() == d - 7,
{
    assert forall|d: int| 7 <= d <= 13 implies (#[trigger] Date::of(2026, 9, d)).valid() && Date::of(
        2026,
        9,
        d,
    ).weekday_index() == d - 7 by {
        calendar::lemma_date_of(2026, 9, d);
        reveal_with_fuel(calendar::days_before_month, 10);
    }
}

/// A weekly rule with one code is read as a rule with that day.
proof fn lemma_code_rule(code: Seq<char>, day: int)
    requires
        code.len() == 2,
        text::is_upper(code[0]),
        text::is_upper(code[1]),
        recurrence::weekday_of(code) == Some(day),
        0 <= day <= 6,
    ensures
        recurrence::parse_rule(
            weekly_head() + code,
        ) == Ok::<RuleModel, ErrorModel>(
            RuleModel {
                frequency: Frequency::Weekly,
                interval: 1,
                by_day: seq![day],
                by_month_day: seq![],
                by_month: seq![],
            },
        ),
{
    reveal_strlit("FREQ");
    reveal_strlit("INTERVAL");
    reveal_strlit("BYDAY");
    reveal_strlit("WEEKLY");
    reveal_strlit("DAILY");
    let first = seq!['F', 'R', 'E', 'Q', '=', 'W', 'E', 'E', 'K', 'L', 'Y'];
    let second = seq!['B', 'Y', 'D', 'A', 'Y', '='] + code;
    let source = weekly_head() + code;
    assert(source =~= first + seq![';'] + second);
    assert(!first.contains(';'));
    assert(!second.contains(';')) by {
        assert forall|i: int| 0 <= i < second.len() implies second[i] != ';' by {
            if i >= 6 {
                assert(second[i] == code[i - 6]);
            }
        }
    }
    text::lemma_split_first(first, ';', second);
    text::lemma_split_whole(second, ';');
    assert(text::split(source, ';') =~= seq![first, second]);
    let k0 = recurrence::no_clauses();
    assert("FREQ"@ =~= seq!['F', 'R', 'E', 'Q']);
    assert("WEEKLY"@ =~= seq!['W', 'E', 'E', 'K', 'L', 'Y']);
    assert("BYDAY"@ =~= seq!['B', 'Y', 'D', 'A', 'Y']);
    assert(first =~= "FREQ"@ + seq!['='] + "WEEKLY"@);
    assert(second =~= "BYDAY"@ + seq!['='] + code);
    lemma_clause(k0, "FREQ"@, "WEEKLY"@);
    assert("DAILY"@.len() == 5);
    let k1 = Clauses { names: seq!["FREQ"@], frequency: Some(Frequency::Weekly), ..k0 };
    assert(k0.names.push("FREQ"@) =~= k1.names);
    assert(recurrence::with_clause(k0, first) == Ok::<Clauses, ErrorModel>(k1));
    assert("FREQ"@.len() == 4 && "BYDAY"@.len() == 5 && "INTERVAL"@.len() == 8);
    lemma_clause(k1, "BYDAY"@, code);
    assert(!code.contains(','));
    text::lemma_split_whole(code, ',');
    assert(Seq::<int>::empty().push(day) =~= seq![day]);
    reveal_with_fuel(recurrence::listed_numbers, 3);
    assert(recurrence::listed_numbers(Listed::Days, "BYDAY"@, seq![code], 0, seq![]) == Ok::<
        Seq<int>,
        ErrorModel,
    >(seq![day]));
    lemma_one_in_order(day, 0, 6);
    reveal_with_fuel(recurrence::with_clauses, 3);
}

proof fn lemma_one_in_order(day: int, k: int, hi: int)
    requires
        day <= hi,
    ensures
        k <= day ==> recurrence::in_order(seq![day], k, hi) == seq![day],
        k > day ==> recurrence::in_order(seq![day], k, hi) == Seq::<int>::empty(),
    decreases hi - k + 1,
{
    assert(seq![day].contains(k) <==> k == day) by {
        assert(seq![day][0] == day);
    }
    if k <= hi {
        lemma_one_in_order(day, k + 1, hi);
        assert(seq![day] + Seq::<int>::empty() =~= seq![day]);
    }
}

/// A clause in capitals is taken apart at its `=`.
proof fn lemma_clause(seen: Clauses, name: Seq<char>, value: Seq<char>)
    requires
        name.len() > 0,
        value.len() > 0,
        forall|i: int| 0 <= i < name.len() ==> text::is_upper(#[trigger] name[i]),
        forall|i: int| 0 <= i < value.len() ==> text::is_upper(#[trigger] value[i]),
        !seen.names.contains(name),
    ensures
        recurrence::with_clause(seen, name + seq!['='] + value) == recurrence::with_value(
            seen,
            name,
            value,
        ),
{
    lemma_clause_parts(name, value);
    assert(text::upper(name) =~= name);
    assert(text::upper(value) =~= value);
    assert(!value.contains('='));
}

/// Where the name of a clause ends.
proof fn lemma_clause_parts(name: Seq<char>, value: Seq<char>)
    requires
        !name.contains('='),
    ensures
        ({
            let clause = name + seq!['='] + value;
            &&& text::find_from(clause, '=', 0) == name.len()
            &&& clause.subrange(0, name.len() as int) == name
            &&& clause.subrange(name.len() as int + 1, clause.len() as int) == value
        }),
{
    let clause = name + seq!['='] + value;
    text::lemma_find_from(clause, '=', 0);
    let at = text::find_from(clause, '=', 0);
    assert(clause[name.len() as int] == '=');
    if at < name.len() {
        assert(clause[at] == name[at]);
    }
    assert(clause.subrange(0, name.len() as int) =~= name);
    assert(clause.subrange(name.len() as int + 1, clause.len() as int) =~= value);
}

/// A weekly rule with one code selects the days that are whole weeks away from one that has its
/// place in the week.
proof fn lemma_code_selects(code: Seq<char>, day: int, known: Date)
    requires
        code.len() == 2,
        text::is_upper(code[0]),
        text::is_upper(code[1]),
        recurrence::weekday_of(code) == Some(day),
        0 <= day <= 6,
        known.weekday_index() == day,
    ensures
        writes_weekday(
            weekly_head() + code,
            known,
        ),
{
    lemma_code_rule(code, day);
    let rule = RuleModel {
        frequency: Frequency::Weekly,
        interval: 1,
        by_day: seq![day],
        by_month_day: seq![],
        by_month: seq![],
    };
    assert(rule.by_day[0] == day);
    assert forall|date: Date| rule.matches(date) <==> (date.number() - known.number()) % 7 == 0 by {
        assert(seq![day].contains(date.weekday_index()) <==> date.weekday_index() == day);
    }
    assert forall|anchor: Date, date: Date|
        anchor.number() <= date.number() implies (rule.occurs(anchor, date) <==> (date.number()
        - known.number()) % 7 == 0) by {
        assert(seq![day].contains(date.weekday_index()) <==> date.weekday_index() == day);
        assert(recurrence::week(anchor) <= recurrence::week(date));
    }
    assert forall|anchor: Date, threshold: Date, date: Date|
        anchor.valid() && anchor.number() <= threshold.number() && rule.next(
            anchor,
            threshold,
            date,
        ) implies (date.number() - known.number()) % 7 == 0 && threshold.number() < date.number()
        <= threshold.number() + 7 by {
        assert(rule.occurs(anchor, date));
        if date.number() > threshold.number() + 7 {
            calendar::lemma_number_range(anchor);
            let sooner = lemma_day_before(date, 7);
            assert(rule.occurs(anchor, sooner));
        }
    }
}

/// The day so many days before a date, where it is not before the first there is.
proof fn lemma_day_before(date: Date, days: int) -> (r: Date)
    requires
        date.valid(),
        days >= 0,
        date.number() - days >= calendar::first_number(),
    ensures
        r.valid(),
        r.number() == date.number() - days,
    decreases days,
{
    if days == 0 {
        date
    } else {
        let (y, m, d) = (date.y(), date.m(), date.d());
        let (y2, m2, d2) = if d > 1 {
            (y, m, d - 1)
        } else if m > 1 {
            (y, m - 1, calendar::month_days(y, m - 1))
        } else {
            (y - 1, 12int, 31int)
        };
        if d == 1 && m == 1 {
            calendar::lemma_year_step(y - 1);
            calendar::lemma_months_grow(y - 1, 12, 13);
            if y == calendar::MIN_YEAR {
                assert(date.number() == calendar::first_number());
            }
        }
        calendar::lemma_date_of(y2, m2, d2);
        let before = Date::of(y2, m2, d2);
        assert(before.number() == date.number() - 1);
        lemma_day_before(before, days - 1)
    }
}

/// Whether a list in a clause has an item that is the number.
pub open spec fn lists_number(value: Seq<char>, n: int) -> bool {
    exists|k: int|
        0 <= k < text::split(value, ',').len() && text::number(#[trigger] text::split(value, ',')[k])
            == n
}

/// What a rule says by a clause with the name and value, in capitals.
pub open spec fn says(rule: RuleModel, name: Seq<char>, value: Seq<char>) -> bool {
    let items = text::split(value, ',');
    &&& name == "FREQ"@ ==> {
        ||| value == "DAILY"@ && rule.frequency == Frequency::Daily
        ||| value == "WEEKLY"@ && rule.frequency == Frequency::Weekly
        ||| value == "MONTHLY"@ && rule.frequency == Frequency::Monthly
        ||| value == "YEARLY"@ && rule.frequency == Frequency::Yearly
    }
    &&& name == "INTERVAL"@ ==> text::all_digits(value) && rule.interval == text::number(value)
        && rule.interval > 0
    &&& name == "BYDAY"@ ==> {
        &&& rule.by_day.contains(0) <==> items.contains("MO"@)
        &&& rule.by_day.contains(1) <==> items.contains("TU"@)
        &&& rule.by_day.contains(2) <==> items.contains("WE"@)
        &&& rule.by_day.contains(3) <==> items.contains("TH"@)
        &&& rule.by_day.contains(4) <==> items.contains("FR"@)
        &&& rule.by_day.contains(5) <==> items.contains("SA"@)
        &&& rule.by_day.contains(6) <==> items.contains("SU"@)
        &&& rule.by_day.len() == items.len()
    }
    &&& name == "BYMONTHDAY"@ ==> rule.by_month_day.len() == items.len() && forall|n: int| #[trigger]
        rule.by_month_day.contains(n) <==> 1 <= n <= 31 && lists_number(value, n)
    &&& name == "BYMONTH"@ ==> rule.by_month.len() == items.len() && forall|n: int| #[trigger]
        rule.by_month.contains(n) <==> 1 <= n <= 12 && lists_number(value, n)
    &&& name == "FREQ"@ || name == "INTERVAL"@ || name == "BYDAY"@ || name == "BYMONTHDAY"@ || name
        == "BYMONTH"@
}

/// A rule says what each clause of its text says: the frequency that is named, the interval and the
/// numbers that are written, and the days of the week by their codes.
pub proof fn rules_say_what_their_clauses_say(
    source: Seq<char>,
    i: int,
    name: Seq<char>,
    value: Seq<char>,
)
    requires
        recurrence::parse_rule(source) is Ok,
        0 <= i < text::split(source, ';').len(),
        !name.contains('='),
        text::split(source, ';')[i] == name + seq!['='] + value,
    ensures
        says(recurrence::parse_rule(source)->Ok_0, text::upper(name), text::upper(value)),
{
    let clauses = text::split(source, ';');
    let none = recurrence::no_clauses();
    lemma_clauses_say(none, clauses, 0, i, name, value);
}

/// Without a clause for it a rule has the interval 1, and no days, days of the month or months; it
/// always has a clause for its frequency.
pub proof fn rules_say_no_more_than_their_clauses(source: Seq<char>, name: Seq<char>)
    requires
        recurrence::parse_rule(source) is Ok,
        forall|i: int|
            0 <= i < text::split(source, ';').len() ==> !is_clause(
                #[trigger] text::split(source, ';')[i],
                name,
            ),
    ensures
        name != "FREQ"@,
        name == "INTERVAL"@ ==> recurrence::parse_rule(source)->Ok_0.interval == 1,
        name == "BYDAY"@ ==> recurrence::parse_rule(source)->Ok_0.by_day.len() == 0,
        name == "BYMONTHDAY"@ ==> recurrence::parse_rule(source)->Ok_0.by_month_day.len() == 0,
        name == "BYMONTH"@ ==> recurrence::parse_rule(source)->Ok_0.by_month.len() == 0,
{
    let clauses = text::split(source, ';');
    lemma_unsaid(recurrence::no_clauses(), clauses, 0, name);
}

/// Whether a clause has the name, in whatever letters.
pub open spec fn is_clause(clause: Seq<char>, name: Seq<char>) -> bool {
    exists|head: Seq<char>, value: Seq<char>|
        text::upper(head) == name && clause == #[trigger] (head + seq!['='] + value)
}

/// What clauses say of one that is not among them.
proof fn lemma_unsaid(seen: Clauses, clauses: Seq<Seq<char>>, i: int, name: Seq<char>)
    requires
        0 <= i <= clauses.len(),
        forall|k: int| 0 <= k < clauses.len() ==> !is_clause(#[trigger] clauses[k], name),
    ensures
        recurrence::with_clauses(seen, clauses, i) matches Ok(all) ==> kept(seen, all, name),
    decreases clauses.len() - i,
{
    if i < clauses.len() {
        let clause = clauses[i];
        if let Ok(next) = recurrence::with_clause(seen, clause) {
            lemma_unsaid(next, clauses, i + 1, name);
            text::lemma_find_from(clause, '=', 0);
            let at = text::find_from(clause, '=', 0);
            let head = clause.subrange(0, at);
            let value = clause.subrange(at + 1, clause.len() as int);
            assert(clause =~= head + seq!['='] + value);
            if text::upper(head) == name {
                assert(is_clause(clause, name));
            }
            lemma_with_value_keeps(seen, text::upper(head), text::upper(value), name);
        }
    }
}

/// Whether two readings agree on what a clause of the name says.
spec fn kept(a: Clauses, b: Clauses, name: Seq<char>) -> bool {
    &&& name == "FREQ"@ ==> a.frequency == b.frequency
    &&& name == "INTERVAL"@ ==> a.interval == b.interval
    &&& name == "BYDAY"@ ==> a.by_day == b.by_day
    &&& name == "BYMONTHDAY"@ ==> a.by_month_day == b.by_month_day
    &&& name == "BYMONTH"@ ==> a.by_month == b.by_month
}

/// A clause leaves what others say, and is seen from then on.
proof fn lemma_with_value_keeps(
    seen: Clauses,
    name: Seq<char>,
    value: Seq<char>,
    other: Seq<char>,
)
    ensures
        recurrence::with_value(seen, name, value) matches Ok(next) ==> {
            &&& other != name ==> kept(seen, next, other)
            &&& next.names == seen.names.push(name)
        },
{
    reveal_strlit("FREQ");
    reveal_strlit("INTERVAL");
    reveal_strlit("BYDAY");
    reveal_strlit("BYMONTHDAY");
    reveal_strlit("BYMONTH");
    assert("FREQ"@.len() == 4 && "INTERVAL"@.len() == 8 && "BYDAY"@.len() == 5
        && "BYMONTHDAY"@.len() == 10 && "BYMONTH"@.len() == 7);
}

/// What has been said by a clause stays, however many follow.
proof fn lemma_said_stays(seen: Clauses, clauses: Seq<Seq<char>>, i: int, name: Seq<char>)
    requires
        0 <= i <= clauses.len(),
        seen.names.contains(name),
    ensures
        recurrence::with_clauses(seen, clauses, i) matches Ok(all) ==> kept(seen, all, name),
    decreases clauses.len() - i,
{
    if i < clauses.len() {
        let clause = clauses[i];
        if let Ok(next) = recurrence::with_clause(seen, clause) {
            let at = text::find_from(clause, '=', 0);
            let head = clause.subrange(0, at);
            let value = clause.subrange(at + 1, clause.len() as int);
            lemma_with_value_keeps(seen, text::upper(head), text::upper(value), name);
            let k = seen.names.index_of(name);
            assert(next.names[k] == name);
            lemma_said_stays(next, clauses, i + 1, name);
        }
    }
}

/// What a clause says is what all clauses together say of it.
proof fn lemma_clauses_say(
    seen: Clauses,
    clauses: Seq<Seq<char>>,
    i: int,
    j: int,
    name: Seq<char>,
    value: Seq<char>,
)
    requires
        0 <= i <= j < clauses.len(),
        !name.contains('='),
        clauses[j] == name + seq!['='] + value,
        recurrence::with_clauses(seen, clauses, i) is Ok,
        recurrence::rule_of(recurrence::with_clauses(seen, clauses, i)->Ok_0) is Ok,
    ensures
        says(
            recurrence::rule_of(recurrence::with_clauses(seen, clauses, i)->Ok_0)->Ok_0,
            text::upper(name),
            text::upper(value),
        ),
    decreases j - i,
{
    let next = recurrence::with_clause(seen, clauses[i])->Ok_0;
    if i < j {
        lemma_clauses_say(next, clauses, i + 1, j, name, value);
    } else {
        lemma_clause_parts(name, value);
        let (n, v) = (text::upper(name), text::upper(value));
        assert(recurrence::with_value(seen, n, v) == Ok::<Clauses, ErrorModel>(next));
        lemma_with_value_keeps(seen, n, v, n);
        assert(next.names.last() == n);
        assert(next.names.contains(n));
        lemma_said_stays(next, clauses, i + 1, n);
        lemma_value_says(seen, n, v, next);
    }
}

/// What one clause says.
proof fn lemma_value_says(seen: Clauses, name: Seq<char>, value: Seq<char>, next: Clauses)
    requires
        recurrence::with_value(seen, name, value) == Ok::<Clauses, ErrorModel>(next),
    ensures
        forall|rule: RuleModel|
            (name == "FREQ"@ ==> Some(rule.frequency) == next.frequency) && (name == "INTERVAL"@
                ==> rule.interval == next.interval) && (name == "BYDAY"@ ==> rule.by_day
                == next.by_day) && (name == "BYMONTHDAY"@ ==> rule.by_month_day
                == next.by_month_day) && (name == "BYMONTH"@ ==> rule.by_month == next.by_month)
                ==> #[trigger] says(rule, name, value),
{
    reveal_strlit("FREQ");
    reveal_strlit("INTERVAL");
    reveal_strlit("BYDAY");
    reveal_strlit("BYMONTHDAY");
    reveal_strlit("BYMONTH");
    assert("FREQ"@.len() == 4 && "INTERVAL"@.len() == 8 && "BYDAY"@.len() == 5
        && "BYMONTHDAY"@.len() == 10 && "BYMONTH"@.len() == 7);
    lemma_codes();
    if name == "BYDAY"@ {
        lemma_list(Listed::Days, name, value, next.by_day);
        let items = text::split(value, ',');
        lemma_code_listed(items, next.by_day, "MO"@, 0);
        lemma_code_listed(items, next.by_day, "TU"@, 1);
        lemma_code_listed(items, next.by_day, "WE"@, 2);
        lemma_code_listed(items, next.by_day, "TH"@, 3);
        lemma_code_listed(items, next.by_day, "FR"@, 4);
        lemma_code_listed(items, next.by_day, "SA"@, 5);
        lemma_code_listed(items, next.by_day, "SU"@, 6);
    } else if name == "BYMONTHDAY"@ {
        lemma_list(Listed::Numbers { lo: 1, hi: 31 }, name, value, next.by_month_day);
        lemma_numbers_listed(1, 31, name, value, next.by_month_day);
    } else if name == "BYMONTH"@ {
        lemma_list(Listed::Numbers { lo: 1, hi: 12 }, name, value, next.by_month);
        lemma_numbers_listed(1, 12, name, value, next.by_month);
    }
}

/// Whether a number is that of an item.
spec fn item_is(listed: Listed, clause: Seq<char>, items: Seq<Seq<char>>, n: int) -> bool {
    exists|k: int|
        0 <= k < items.len() && recurrence::item_number(listed, clause, #[trigger] items[k]) == Ok::<
            int,
            ErrorModel,
        >(n)
}

/// A list has the numbers of its items, and no others.
proof fn lemma_list(listed: Listed, clause: Seq<char>, value: Seq<char>, list: Seq<int>)
    requires
        recurrence::parse_list(listed, clause, value) == Ok::<Seq<int>, ErrorModel>(list),
        listed is Days || (listed matches Listed::Numbers { lo, hi } && lo <= hi),
    ensures
        forall|n: int| #[trigger]
            list.contains(n) <==> item_is(listed, clause, text::split(value, ','), n),
        list.len() == text::split(value, ',').len(),
        forall|k: int|
            0 <= k < text::split(value, ',').len() ==> recurrence::item_number(
                listed,
                clause,
                #[trigger] text::split(value, ',')[k],
            ) is Ok,
{
    let items = text::split(value, ',');
    let none = Seq::<int>::empty();
    let found = recurrence::listed_numbers(listed, clause, items, 0, none)->Ok_0;
    lemma_listed(listed, clause, items, 0, none);
    assert(items.subrange(0, items.len() as int) =~= items);
    let (lo, hi) = match listed {
        Listed::Days => (0int, 6int),
        Listed::Numbers { lo, hi } => (lo as int, hi as int),
    };
    assert forall|n: int| found.contains(n) implies lo <= n <= hi by {
        let k = choose|k: int|
            0 <= k < items.len() && recurrence::item_number(listed, clause, #[trigger] items[k])
                == Ok::<int, ErrorModel>(n);
        lemma_item_range(listed, clause, items[k]);
    }
    lemma_in_order_contains(found, lo, hi);
    assert forall|n: int| #[trigger] list.contains(n) <==> item_is(listed, clause, items, n) by {
        assert(found.contains(n) <==> item_is(listed, clause, items, n));
    }
    lemma_in_order_len(found, lo, hi);
}

/// The number of an item is in range.
proof fn lemma_item_range(listed: Listed, clause: Seq<char>, item: Seq<char>)
    ensures
        recurrence::item_number(listed, clause, item) matches Ok(n) ==> match listed {
            Listed::Days => 0 <= n <= 6,
            Listed::Numbers { lo, hi } => lo <= n <= hi,
        },
{
}

/// What is found are the numbers of the items, each once.
proof fn lemma_listed(
    listed: Listed,
    clause: Seq<char>,
    items: Seq<Seq<char>>,
    i: int,
    had: Seq<int>,
)
    requires
        0 <= i <= items.len(),
        had.no_duplicates(),
    ensures
        recurrence::listed_numbers(listed, clause, items, i, had) matches Ok(found) ==> {
            &&& found.no_duplicates()
            &&& found.len() == had.len() + items.len() - i
            &&& forall|n: int| #[trigger]
                found.contains(n) <==> had.contains(n) || item_is(
                    listed,
                    clause,
                    items.subrange(i, items.len() as int),
                    n,
                )
            &&& forall|k: int|
                i <= k < items.len() ==> recurrence::item_number(
                    listed,
                    clause,
                    #[trigger] items[k],
                ) is Ok
        },
    decreases items.len() - i,
{
    let rest = items.subrange(i, items.len() as int);
    if i < items.len() {
        if let Ok(n) = recurrence::item_number(listed, clause, items[i]) {
            if items[i].len() > 0 && !had.contains(n) {
                let more = had.push(n);
                assert(more.no_duplicates());
                lemma_listed(listed, clause, items, i + 1, more);
                if let Ok(found) = recurrence::listed_numbers(listed, clause, items, i, had) {
                    let next = items.subrange(i + 1, items.len() as int);
                    assert forall|m: int| #[trigger]
                        found.contains(m) <==> had.contains(m) || item_is(
                            listed,
                            clause,
                            rest,
                            m,
                        ) by {
                        assert(more.contains(m) <==> had.contains(m) || m == n) by {
                            if had.contains(m) {
                                assert(more[had.index_of(m)] == m);
                            }
                            assert(more[had.len() as int] == n);
                        }
                        assert(rest[0] == items[i]);
                        if item_is(listed, clause, next, m) {
                            let k = choose|k: int|
                                0 <= k < next.len() && recurrence::item_number(
                                    listed,
                                    clause,
                                    #[trigger] next[k],
                                ) == Ok::<int, ErrorModel>(m);
                            assert(rest[k + 1] == next[k]);
                        }
                        if item_is(listed, clause, rest, m) && m != n {
                            let k = choose|k: int|
                                0 <= k < rest.len() && recurrence::item_number(
                                    listed,
                                    clause,
                                    #[trigger] rest[k],
                                ) == Ok::<int, ErrorModel>(m);
                            assert(rest[k] == next[k - 1]);
                        }
                    }
                }
            }
        }
    }
}

/// What is in order are the values between the bounds.
proof fn lemma_in_order_contains(values: Seq<int>, k: int, hi: int)
    ensures
        forall|n: int| #[trigger]
            recurrence::in_order(values, k, hi).contains(n) <==> k <= n <= hi && values.contains(n),
    decreases hi - k + 1,
{
    let all = recurrence::in_order(values, k, hi);
    if k <= hi {
        lemma_in_order_contains(values, k + 1, hi);
        let rest = recurrence::in_order(values, k + 1, hi);
        if values.contains(k) {
            assert forall|n: int| #[trigger] all.contains(n) <==> k <= n <= hi && values.contains(
                n,
            ) by {
                assert(all[0] == k);
                if rest.contains(n) {
                    assert(all[rest.index_of(n) + 1] == n);
                }
                if all.contains(n) && n != k {
                    assert(rest[all.index_of(n) - 1] == n);
                }
            }
        }
    }
}

/// As many values are in order as there are, where all are in range and different.
proof fn lemma_in_order_len(values: Seq<int>, k: int, hi: int)
    requires
        values.no_duplicates(),
        forall|n: int| #[trigger] values.contains(n) ==> k <= n <= hi,
    ensures
        recurrence::in_order(values, k, hi).len() == values.len(),
{
    let all = recurrence::in_order(values, k, hi);
    lemma_in_order_contains(values, k, hi);
    lemma_in_order_distinct(values, k, hi);
    values.unique_seq_to_set();
    all.unique_seq_to_set();
    assert(all.to_set() =~= values.to_set()) by {
        assert forall|n: int| all.to_set().contains(n) <==> values.to_set().contains(n) by {
            assert(all.contains(n) <==> values.contains(n));
        }
    }
}

proof fn lemma_in_order_distinct(values: Seq<int>, k: int, hi: int)
    ensures
        recurrence::in_order(values, k, hi).no_duplicates(),
    decreases hi - k + 1,
{
    if k <= hi {
        let rest = recurrence::in_order(values, k + 1, hi);
        lemma_in_order_distinct(values, k + 1, hi);
        lemma_in_order_contains(values, k + 1, hi);
        let all = recurrence::in_order(values, k, hi);
        if values.contains(k) {
            assert forall|a: int, b: int| 0 <= a < b < all.len() implies all[a] != all[b] by {
                assert(all[b] == rest[b - 1]);
                assert(rest.contains(rest[b - 1]));
                if a > 0 {
                    assert(all[a] == rest[a - 1]);
                }
            }
        }
    }
}

/// A day is in the list where its code is among the items.
proof fn lemma_code_listed(items: Seq<Seq<char>>, list: Seq<int>, code: Seq<char>, day: int)
    requires
        recurrence::weekday_of(code) == Some(day),
        forall|s: Seq<char>| #[trigger] recurrence::weekday_of(s) == Some(day) ==> s == code,
        forall|n: int| #[trigger]
            list.contains(n) <==> item_is(Listed::Days, "BYDAY"@, items, n),
    ensures
        list.contains(day) <==> items.contains(code),
{
    if items.contains(code) {
        let k = items.index_of(code);
        assert(recurrence::item_number(Listed::Days, "BYDAY"@, items[k]) == Ok::<int, ErrorModel>(
            day,
        ));
    }
    if list.contains(day) {
        let k = choose|k: int|
            0 <= k < items.len() && recurrence::item_number(
                Listed::Days,
                "BYDAY"@,
                #[trigger] items[k],
            ) == Ok::<int, ErrorModel>(day);
        assert(recurrence::weekday_of(items[k]) == Some(day));
    }
}

/// A number is in the list where an item writes it.
proof fn lemma_numbers_listed(
    lo: u32,
    hi: u32,
    clause: Seq<char>,
    value: Seq<char>,
    list: Seq<int>,
)
    requires
        forall|n: int| #[trigger]
            list.contains(n) <==> item_is(
                Listed::Numbers { lo, hi },
                clause,
                text::split(value, ','),
                n,
            ),
        forall|k: int|
            0 <= k < text::split(value, ',').len() ==> recurrence::item_number(
                Listed::Numbers { lo, hi },
                clause,
                #[trigger] text::split(value, ',')[k],
            ) is Ok,
    ensures
        forall|n: int| #[trigger] list.contains(n) <==> lo <= n <= hi && lists_number(value, n),
{
    let items = text::split(value, ',');
    let listed = Listed::Numbers { lo, hi };
    assert forall|n: int| #[trigger] list.contains(n) <==> lo <= n <= hi && lists_number(value, n) by {
        if list.contains(n) {
            let k = choose|k: int|
                0 <= k < items.len() && recurrence::item_number(listed, clause, #[trigger] items[k])
                    == Ok::<int, ErrorModel>(n);
            assert(text::number(items[k]) == n);
        }
        if lists_number(value, n) {
            let k = choose|k: int|
                0 <= k < text::split(value, ',').len() && text::number(
                    #[trigger] text::split(value, ',')[k],
                ) == n;
            assert(recurrence::item_number(listed, clause, items[k]) == Ok::<int, ErrorModel>(n));
        }
    }
}

/// The date of a day that comes so many days after a date, where it is not after the last there is.
pub(crate) proof fn lemma_day_after(date: Date, days: int) -> (r: Date)
    requires
        date.valid(),
        days >= 0,
        date.number() + days <= calendar::last_number(),
    ensures
        r.valid(),
        r.number() == date.number() + days,
    decreases days,
{
    if days == 0 {
        date
    } else {
        let (y, m, d) = (date.y(), date.m(), date.d());
        let (y2, m2, d2) = if d < calendar::month_days(y, m) {
            (y, m, d + 1)
        } else if m < 12 {
            (y, m + 1, 1int)
        } else {
            (y + 1, 1int, 1int)
        };
        if d == calendar::month_days(y, m) && m == 12 {
            calendar::lemma_year_step(y);
            calendar::lemma_months_grow(y, 12, 13);
            if y == calendar::MAX_YEAR {
                assert(date.number() == calendar::last_number());
            }
        }
        calendar::lemma_date_of(y2, m2, d2);
        let after = Date::of(y2, m2, d2);
        assert(after.number() == date.number() + 1);
        lemma_day_after(after, days - 1)
    }
}

/// Where a rule selects any day after the threshold, it has a next date: the first of them.
pub proof fn rules_that_go_on_have_a_next_date(
    rule: RuleModel,
    anchor: Date,
    threshold: Date,
    other: Date,
)
    requires
        anchor.valid(),
        other.valid(),
        rule.occurs(anchor, other),
        threshold.number() < other.number(),
        anchor.number() >= calendar::first_number() + 6,
    ensures
        rule.next_outcome(anchor, threshold) matches Ok(date) && date.valid() && rule.occurs(
            anchor,
            date,
        ) && threshold.number() < date.number() <= other.number(),
    decreases other.number() - threshold.number(),
{
    reveal(recurrence::early_week);
    if exists|sooner: Date|
        sooner.valid() && #[trigger] rule.occurs(anchor, sooner) && threshold.number()
            < sooner.number() < other.number() {
        let sooner = choose|sooner: Date|
            sooner.valid() && #[trigger] rule.occurs(anchor, sooner) && threshold.number()
                < sooner.number() < other.number();
        rules_that_go_on_have_a_next_date(rule, anchor, threshold, sooner);
    } else {
        assert(rule.next(anchor, threshold, other));
        let date = choose|date: Date| rule.next(anchor, threshold, date);
        recurrence::next_is_unique(rule, anchor, threshold, date, other);
    }
}

/// The next date of a rule, where it has one, comes after the day of completion and, by the
/// schedule, after the due date; and no day between them is one that the rule selects.
pub proof fn the_next_date_is_the_first(
    rule: RuleModel,
    due: Date,
    completed: Date,
    mode: RecurrenceMode,
    date: Date,
    other: Date,
)
    requires
        other.valid(),
        rule.next_outcome(
            recurrence::anchor_of(due, completed, mode),
            recurrence::threshold_of(due, completed, mode),
        ) == Ok::<Date, ErrorModel>(date),
        mode == RecurrenceMode::Schedule ==> rule.occurs(due, other) && due.number()
            < other.number(),
        mode == RecurrenceMode::Completion ==> rule.occurs(completed, other),
        completed.number() < other.number(),
    ensures
        date.valid(),
        completed.number() < date.number() <= other.number(),
        mode == RecurrenceMode::Schedule ==> due.number() < date.number() && rule.occurs(due, date),
        mode == RecurrenceMode::Completion ==> rule.occurs(completed, date),
{
    let anchor = recurrence::anchor_of(due, completed, mode);
    let threshold = recurrence::threshold_of(due, completed, mode);
    assert(rule.next(anchor, threshold, date));
    assert(rule.occurs(anchor, other));
}

/// A daily rule, from completion, is next due so many days after completion as its interval says;
/// by the schedule, a whole number of intervals after the due date, and the first such day that
/// comes after both the due date and completion.
pub proof fn daily_rules_count_days(
    rule: RuleModel,
    due: Date,
    completed: Date,
    mode: RecurrenceMode,
    date: Date,
)
    requires
        rule.well_formed(),
        rule.frequency == Frequency::Daily,
        due.valid(),
        completed.valid(),
        rule.next_outcome(
            recurrence::anchor_of(due, completed, mode),
            recurrence::threshold_of(due, completed, mode),
        ) == Ok::<Date, ErrorModel>(date),
    ensures
        mode == RecurrenceMode::Completion ==> date.number() == completed.number() + rule.interval,
        mode == RecurrenceMode::Schedule ==> {
            &&& (date.number() - due.number()) % rule.interval == 0
            &&& due.number() < date.number()
            &&& completed.number() < date.number()
            &&& date.number() - rule.interval <= due.number() || date.number() - rule.interval
                <= completed.number()
        },
{
    let anchor = recurrence::anchor_of(due, completed, mode);
    let threshold = recurrence::threshold_of(due, completed, mode);
    let n = rule.interval;
    assert(rule.next(anchor, threshold, date));
    let e = date.number() - anchor.number();
    assert(e % n == 0 && e > 0);
    lemma_whole(e, n);
    calendar::lemma_number_range(anchor);
    if date.number() - n > threshold.number() {
        let sooner = lemma_day_before(date, n);
        lemma_less_one(e, n);
        assert(rule.occurs(anchor, sooner));
    }
}

/// A multiple is at least one interval.
proof fn lemma_whole(e: int, n: int)
    requires
        n > 0,
        e > 0,
        e % n == 0,
    ensures
        e >= n,
{
    if e < n {
        vstd::arithmetic::div_mod::lemma_small_mod(e as nat, n as nat);
    }
}

/// One interval less is a multiple too.
proof fn lemma_less_one(e: int, n: int)
    requires
        n > 0,
        e % n == 0,
    ensures
        (e - n) % n == 0,
{
    lemma_fundamental_div_mod(e, n);
    let q = e / n;
    assert(e - n == (q - 1) * n) by (nonlinear_arith)
        requires
            e == n * q,
    ;
    lemma_mod_multiples_basic(q - 1, n);
}

/// The Monday of the week that a date is in, by its number.
pub open spec fn monday(date: Date) -> int {
    date.number() - date.weekday_index()
}

/// A weekly rule without days keeps the day of the week that it is counted from, and is due whole
/// intervals of weeks later: from completion exactly one. With days, it is due on one of them, in a
/// week that is whole intervals of weeks after the one that it is counted from.
pub proof fn weekly_rules_count_weeks(
    rule: RuleModel,
    due: Date,
    completed: Date,
    mode: RecurrenceMode,
    date: Date,
)
    requires
        rule.well_formed(),
        rule.frequency == Frequency::Weekly,
        due.valid(),
        completed.valid(),
        rule.next_outcome(
            recurrence::anchor_of(due, completed, mode),
            recurrence::threshold_of(due, completed, mode),
        ) == Ok::<Date, ErrorModel>(date),
    ensures
        rule.by_day.len() == 0 && mode == RecurrenceMode::Completion ==> date.number()
            == completed.number() + 7 * rule.interval,
        rule.by_day.len() == 0 && mode == RecurrenceMode::Schedule ==> {
            &&& (date.number() - due.number()) % (7 * rule.interval) == 0
            &&& due.number() < date.number()
            &&& completed.number() < date.number()
            &&& date.number() - 7 * rule.interval <= due.number() || date.number() - 7
                * rule.interval <= completed.number()
        },
        rule.by_day.len() > 0 ==> rule.by_day.contains(date.weekday_index()),
        mode == RecurrenceMode::Schedule ==> (monday(date) - monday(due)) % (7 * rule.interval) == 0,
        mode == RecurrenceMode::Completion ==> (monday(date) - monday(completed)) % (7
            * rule.interval) == 0,
{
    let anchor = recurrence::anchor_of(due, completed, mode);
    let threshold = recurrence::threshold_of(due, completed, mode);
    let n = rule.interval;
    assert(rule.next(anchor, threshold, date));
    let w = recurrence::week(date) - recurrence::week(anchor);
    assert(monday(date) - monday(anchor) == 7 * w);
    lemma_sevenfold(w, n);
    if rule.by_day.len() == 0 {
        assert(rule.weekdays(anchor) =~= seq![anchor.weekday_index()]);
        let k = rule.weekdays(anchor).index_of(date.weekday_index());
        assert(date.weekday_index() == anchor.weekday_index());
        let e = date.number() - anchor.number();
        assert(e == 7 * w && e > 0);
        lemma_whole(e, 7 * n);
        calendar::lemma_number_range(anchor);
        if e - 7 * n > threshold.number() - anchor.number() {
            let sooner = lemma_day_before(date, 7 * n);
            lemma_less_one(w, n);
            assert(recurrence::week(sooner) == recurrence::week(date) - n);
            assert(sooner.weekday_index() == date.weekday_index());
            assert(w - n >= 0);
            assert(rule.weekdays(anchor)[0] == sooner.weekday_index());
            assert(rule.occurs(anchor, sooner));
        }
    }
}

/// Seven times a multiple is a multiple of seven times as much.
proof fn lemma_sevenfold(w: int, n: int)
    requires
        n > 0,
        w % n == 0,
    ensures
        (7 * w) % (7 * n) == 0,
{
    lemma_fundamental_div_mod(w, n);
    let q = w / n;
    assert(7 * w == q * (7 * n)) by (nonlinear_arith)
        requires
            w == n * q,
    ;
    lemma_mod_multiples_basic(q, 7 * n);
}

/// The months from one date to another, by year and month alone.
pub open spec fn months_between(a: Date, b: Date) -> int {
    (b.y() - a.y()) * 12 + (b.m() - a.m())
}

/// A monthly rule is due on a day of the month that it lists, or else on that of the date it is
/// counted from, and whole intervals of months after that date.
pub proof fn monthly_rules_count_months(
    rule: RuleModel,
    due: Date,
    completed: Date,
    mode: RecurrenceMode,
    date: Date,
)
    requires
        rule.well_formed(),
        rule.frequency == Frequency::Monthly,
        due.valid(),
        completed.valid(),
        rule.next_outcome(
            recurrence::anchor_of(due, completed, mode),
            recurrence::threshold_of(due, completed, mode),
        ) == Ok::<Date, ErrorModel>(date),
    ensures
        rule.by_month_day.len() > 0 ==> rule.by_month_day.contains(date.d()),
        mode == RecurrenceMode::Schedule ==> {
            &&& rule.by_month_day.len() == 0 ==> date.d() == due.d()
            &&& months_between(due, date) % rule.interval == 0
            &&& due.number() < date.number()
            &&& completed.number() < date.number()
        },
        mode == RecurrenceMode::Completion ==> {
            &&& rule.by_month_day.len() == 0 ==> date.d() == completed.d()
            &&& months_between(completed, date) % rule.interval == 0
            &&& completed.number() < date.number()
        },
{
    let anchor = recurrence::anchor_of(due, completed, mode);
    let threshold = recurrence::threshold_of(due, completed, mode);
    assert(rule.next(anchor, threshold, date));
    assert(months_between(anchor, date) == date.month_index() - anchor.month_index());
}

/// A yearly rule is due in a month and on a day that it lists, or else in those of the date it is
/// counted from, and whole intervals of years after that date.
pub proof fn yearly_rules_count_years(
    rule: RuleModel,
    due: Date,
    completed: Date,
    mode: RecurrenceMode,
    date: Date,
)
    requires
        rule.well_formed(),
        rule.frequency == Frequency::Yearly,
        due.valid(),
        completed.valid(),
        rule.next_outcome(
            recurrence::anchor_of(due, completed, mode),
            recurrence::threshold_of(due, completed, mode),
        ) == Ok::<Date, ErrorModel>(date),
    ensures
        rule.by_month_day.len() > 0 ==> rule.by_month_day.contains(date.d()),
        rule.by_month.len() > 0 ==> rule.by_month.contains(date.m()),
        mode == RecurrenceMode::Schedule ==> {
            &&& rule.by_month_day.len() == 0 ==> date.d() == due.d()
            &&& rule.by_month.len() == 0 ==> date.m() == due.m()
            &&& (date.y() - due.y()) % rule.interval == 0
            &&& due.number() < date.number()
            &&& completed.number() < date.number()
        },
        mode == RecurrenceMode::Completion ==> {
            &&& rule.by_month_day.len() == 0 ==> date.d() == completed.d()
            &&& rule.by_month.len() == 0 ==> date.m() == completed.m()
            &&& (date.y() - completed.y()) % rule.interval == 0
            &&& completed.number() < date.number()
        },
{
    let anchor = recurrence::anchor_of(due, completed, mode);
    let threshold = recurrence::threshold_of(due, completed, mode);
    assert(rule.next(anchor, threshold, date));
}

/// A rule selects every day that has what its lists ask for, and that lies whole intervals of its
/// unit after the day that it is counted from: days, weeks from Monday, months or years.
pub proof fn rules_select_all_that_their_lists_ask_for(rule: RuleModel, anchor: Date, date: Date)
    requires
        rule.well_formed(),
        anchor.valid(),
        date.valid(),
        anchor.number() <= date.number(),
    ensures
        rule.frequency == Frequency::Daily ==> (rule.occurs(anchor, date) <==> (date.number()
            - anchor.number()) % rule.interval == 0),
        rule.frequency == Frequency::Weekly ==> (rule.occurs(anchor, date) <==> (monday(date)
            - monday(anchor)) / 7 % rule.interval == 0 && if rule.by_day.len() == 0 {
            (date.number() - anchor.number()) % 7 == 0
        } else {
            rule.by_day.contains(date.weekday_index())
        }),
        rule.frequency == Frequency::Monthly ==> (rule.occurs(anchor, date) <==> months_between(
            anchor,
            date,
        ) % rule.interval == 0 && if rule.by_month_day.len() == 0 {
            date.d() == anchor.d()
        } else {
            rule.by_month_day.contains(date.d())
        }),
        rule.frequency == Frequency::Yearly ==> (rule.occurs(anchor, date) <==> (date.y()
            - anchor.y()) % rule.interval == 0 && (if rule.by_month.len() == 0 {
            date.m() == anchor.m()
        } else {
            rule.by_month.contains(date.m())
        }) && (if rule.by_month_day.len() == 0 {
            date.d() == anchor.d()
        } else {
            rule.by_month_day.contains(date.d())
        })),
{
    calendar::lemma_date_order(date, anchor);
    assert(months_between(anchor, date) == date.month_index() - anchor.month_index());
    assert(monday(date) - monday(anchor) == 7 * (recurrence::week(date) - recurrence::week(
        anchor,
    )));
    assert(seq![anchor.weekday_index()][0] == anchor.weekday_index());
    assert(seq![anchor.d()][0] == anchor.d());
    assert(seq![anchor.m()][0] == anchor.m());
    assert(seq![anchor.weekday_index()].contains(date.weekday_index()) <==> date.weekday_index()
        == anchor.weekday_index());
    assert(seq![anchor.d()].contains(date.d()) <==> date.d() == anchor.d());
    assert(seq![anchor.m()].contains(date.m()) <==> date.m() == anchor.m());
}

/// A date fits a rule, so that a task may be due on it, where it has what each list of the rule asks
/// for.
pub proof fn due_dates_fit_where_they_are_listed(rule: RuleModel, date: Date)
    requires
        rule.well_formed(),
    ensures
        rule.matches(date) <==> {
            &&& rule.by_day.len() == 0 || rule.by_day.contains(date.weekday_index())
            &&& rule.by_month_day.len() == 0 || rule.by_month_day.contains(date.d())
            &&& rule.by_month.len() == 0 || rule.by_month.contains(date.m())
        },
{
}

} // verus!
