//! Recurrence rules: how they are written, which days they select, and the next one.
use vstd::arithmetic::div_mod::{
    lemma_div_is_ordered, lemma_fundamental_div_mod, lemma_mod_multiples_basic,
};
use vstd::prelude::*;

use crate::calendar::{self, Date};
use crate::error::{self, Error, ErrorModel};
use crate::text;

verus! {

/// The unit in which a rule counts.
#[derive(Debug, Clone, Copy, PartialEq, Eq, Structural)]
pub enum Frequency {
    Daily,
    Weekly,
    Monthly,
    Yearly,
}

/// What the next date is counted from.
#[derive(Debug, Clone, Copy, PartialEq, Eq, Structural)]
pub enum RecurrenceMode {
    Schedule,
    Completion,
}

/// The word for a mode.
pub open spec fn mode_word(mode: RecurrenceMode) -> Seq<char> {
    match mode {
        RecurrenceMode::Schedule => "schedule"@,
        RecurrenceMode::Completion => "completion"@,
    }
}

/// The mode that a word names.
pub open spec fn parse_mode(value: Seq<char>) -> Result<RecurrenceMode, ErrorModel> {
    if value == "schedule"@ {
        Ok(RecurrenceMode::Schedule)
    } else if value == "completion"@ {
        Ok(RecurrenceMode::Completion)
    } else {
        Err(
            ErrorModel::validation(
                "invalid_recurrence_mode"@,
                "recurrence_from must be 'schedule' or 'completion'"@,
            ).with_field("recurrence_from"@),
        )
    }
}

/// The word for a mode names that mode.
pub proof fn mode_words_parse(mode: RecurrenceMode)
    ensures
        parse_mode(mode_word(mode)) == Ok::<RecurrenceMode, ErrorModel>(mode),
{
    reveal_strlit("schedule");
    reveal_strlit("completion");
    assert("schedule"@.len() == 8);
    assert("completion"@.len() == 10);
}

impl RecurrenceMode {
    /// The mode that a word names.
    pub fn parse(value: &str) -> (r: Result<Self, Error>)
        ensures
            error::outcome(r) == parse_mode(value@),
    {
        if text::same(value, "schedule") {
            Ok(RecurrenceMode::Schedule)
        } else if text::same(value, "completion") {
            Ok(RecurrenceMode::Completion)
        } else {
            Err(
                Error::validation(
                    "invalid_recurrence_mode",
                    "recurrence_from must be 'schedule' or 'completion'",
                ).with_field("recurrence_from"),
            )
        }
    }

    /// The word for the mode.
    #[must_use]
    pub fn as_str(self) -> (r: &'static str)
        ensures
            r@ == mode_word(self),
    {
        match self {
            RecurrenceMode::Schedule => "schedule",
            RecurrenceMode::Completion => "completion",
        }
    }
}

/// A day of the week.
#[derive(Debug, Clone, Copy, PartialEq, Eq, Structural)]
pub enum Weekday {
    Mon,
    Tue,
    Wed,
    Thu,
    Fri,
    Sat,
    Sun,
}

/// The days from Monday to the given day of the week.
pub open spec fn weekday_number(day: Weekday) -> int {
    match day {
        Weekday::Mon => 0,
        Weekday::Tue => 1,
        Weekday::Wed => 2,
        Weekday::Thu => 3,
        Weekday::Fri => 4,
        Weekday::Sat => 5,
        Weekday::Sun => 6,
    }
}

impl Weekday {
    /// The days from Monday to this day of the week.
    #[must_use]
    pub fn num_days_from_monday(self) -> (r: u32)
        ensures
            r == weekday_number(self),
    {
        match self {
            Weekday::Mon => 0,
            Weekday::Tue => 1,
            Weekday::Wed => 2,
            Weekday::Thu => 3,
            Weekday::Fri => 4,
            Weekday::Sat => 5,
            Weekday::Sun => 6,
        }
    }
}

/// The two letters for a day of the week.
pub open spec fn weekday_letters(number: int) -> Seq<char> {
    if number == 0 {
        "MO"@
    } else if number == 1 {
        "TU"@
    } else if number == 2 {
        "WE"@
    } else if number == 3 {
        "TH"@
    } else if number == 4 {
        "FR"@
    } else if number == 5 {
        "SA"@
    } else {
        "SU"@
    }
}

/// The day of the week that two letters name.
pub open spec fn weekday_of(letters: Seq<char>) -> Option<int> {
    if letters == "MO"@ {
        Some(0)
    } else if letters == "TU"@ {
        Some(1)
    } else if letters == "WE"@ {
        Some(2)
    } else if letters == "TH"@ {
        Some(3)
    } else if letters == "FR"@ {
        Some(4)
    } else if letters == "SA"@ {
        Some(5)
    } else if letters == "SU"@ {
        Some(6)
    } else {
        None
    }
}

/// The word for a frequency.
pub open spec fn frequency_word(frequency: Frequency) -> Seq<char> {
    match frequency {
        Frequency::Daily => "DAILY"@,
        Frequency::Weekly => "WEEKLY"@,
        Frequency::Monthly => "MONTHLY"@,
        Frequency::Yearly => "YEARLY"@,
    }
}

/// A recurrence rule.
#[derive(Debug, PartialEq, Eq)]
pub struct RecurrenceRule {
    frequency: Frequency,
    interval: u64,
    by_day: Vec<Weekday>,
    by_month_day: Vec<u32>,
    by_month: Vec<u32>,
}

/// What a recurrence rule says. The days of the week are counted from Monday; an empty list
/// stands for the day or month that the rule is counted from.
#[verifier::ext_equal]
pub struct RuleModel {
    pub frequency: Frequency,
    pub interval: int,
    pub by_day: Seq<int>,
    pub by_month_day: Seq<int>,
    pub by_month: Seq<int>,
}

/// Whether the numbers strictly grow.
pub open spec fn ascending(s: Seq<int>) -> bool {
    forall|i: int, j: int| 0 <= i < j < s.len() ==> #[trigger] s[i] < #[trigger] s[j]
}

/// Whether the numbers strictly grow, from `lo` to `hi` at most.
pub open spec fn selection(s: Seq<int>, lo: int, hi: int) -> bool {
    ascending(s) && forall|i: int| 0 <= i < s.len() ==> lo <= #[trigger] s[i] <= hi
}

/// The numbers of the days of the week.
pub open spec fn day_numbers(v: Seq<Weekday>) -> Seq<int> {
    v.map_values(|d: Weekday| weekday_number(d))
}

/// The numbers, as mathematical integers.
pub open spec fn ints(v: Seq<u32>) -> Seq<int> {
    v.map_values(|x: u32| x as int)
}

impl RuleModel {
    /// Whether a rule can say so: a positive interval, each list sorted and in range, and
    /// used only with a frequency that allows it.
    pub open spec fn well_formed(self) -> bool {
        &&& 0 < self.interval <= u64::MAX
        &&& selection(self.by_day, 0, 6)
        &&& selection(self.by_month_day, 1, 31)
        &&& selection(self.by_month, 1, 12)
        &&& self.by_day.len() > 0 ==> self.frequency == Frequency::Weekly
        &&& self.by_month_day.len() > 0 ==> self.frequency == Frequency::Monthly || self.frequency
            == Frequency::Yearly
        &&& self.by_month.len() > 0 ==> self.frequency == Frequency::Yearly
    }

    /// The days of the week that the rule selects, counted from `anchor`.
    pub open spec fn weekdays(self, anchor: Date) -> Seq<int> {
        if self.by_day.len() == 0 {
            seq![anchor.weekday_index()]
        } else {
            self.by_day
        }
    }

    /// The days of the month that the rule selects, counted from `anchor`.
    pub open spec fn days(self, anchor: Date) -> Seq<int> {
        if self.by_month_day.len() == 0 {
            seq![anchor.d()]
        } else {
            self.by_month_day
        }
    }

    /// The months that the rule selects, counted from `anchor`.
    pub open spec fn months(self, anchor: Date) -> Seq<int> {
        if self.by_month.len() == 0 {
            seq![anchor.m()]
        } else {
            self.by_month
        }
    }

    /// Whether so many units after the anchor a period begins.
    pub open spec fn on_period(self, elapsed: int) -> bool {
        elapsed >= 0 && elapsed % self.interval == 0
    }

    /// Whether the rule, counted from `anchor`, selects the date.
    pub open spec fn occurs(self, anchor: Date, date: Date) -> bool {
        match self.frequency {
            Frequency::Daily => self.on_period(date.number() - anchor.number()),
            Frequency::Weekly => self.on_period(week(date) - week(anchor)) && self.weekdays(
                anchor,
            ).contains(date.weekday_index()),
            Frequency::Monthly => self.on_period(date.month_index() - anchor.month_index())
                && self.days(anchor).contains(date.d()),
            Frequency::Yearly => self.on_period(date.y() - anchor.y()) && self.months(
                anchor,
            ).contains(date.m()) && self.days(anchor).contains(date.d()),
        }
    }

    /// Whether `date` is the first date after `threshold` that the rule selects.
    pub open spec fn next(self, anchor: Date, threshold: Date, date: Date) -> bool {
        &&& date.valid()
        &&& self.occurs(anchor, date)
        &&& threshold.number() < date.number()
        &&& forall|other: Date|
            other.valid() && #[trigger] self.occurs(anchor, other) && threshold.number()
                < other.number() ==> date.number() <= other.number()
    }

    /// Whether the rule selects no date after `threshold`.
    pub open spec fn ends(self, anchor: Date, threshold: Date) -> bool {
        forall|other: Date|
            other.valid() && #[trigger] self.occurs(anchor, other) ==> other.number()
                <= threshold.number()
    }

    /// Whether the search for the next date runs through a whole cycle of the calendar, so
    /// that it can tell that the rule's selections never meet a date.
    pub open spec fn full_search(self, anchor: Date, threshold: Date) -> bool {
        match self.frequency {
            Frequency::Daily => false,
            Frequency::Weekly => false,
            Frequency::Monthly => {
                let first = (threshold.month_index() - anchor.month_index()) / self.interval;
                let last = (first + 4800int / gcd_of(self.interval, 4800)) * self.interval;
                anchor.month_index() + last <= calendar::MAX_YEAR * 12 + 11
            },
            Frequency::Yearly => {
                let first = (threshold.y() - anchor.y()) / self.interval;
                let last = (first + 400int / gcd_of(self.interval, 400)) * self.interval;
                last <= i32::MAX && anchor.y() + last <= i32::MAX
            },
        }
    }

    /// The first date after `threshold` that the rule selects, counted from `anchor`.
    ///
    /// Where the rule selects no such date, the error says whether a whole cycle of the
    /// calendar was searched. A weekly rule also fails where the week that it is counted from
    /// begins before the first date there is.
    pub open spec fn next_outcome(self, anchor: Date, threshold: Date) -> Result<
        Date,
        ErrorModel,
    > {
        if self.frequency == Frequency::Weekly && early_week(anchor) {
            Err(overflow())
        } else if exists|date: Date| self.next(anchor, threshold, date) {
            Ok(choose|date: Date| self.next(anchor, threshold, date))
        } else if self.full_search(anchor, threshold) {
            Err(never())
        } else {
            Err(overflow())
        }
    }

    /// Whether the date has a day of the week, day and month that the rule lists.
    pub open spec fn matches(self, date: Date) -> bool {
        match self.frequency {
            Frequency::Daily => true,
            Frequency::Weekly => self.by_day.len() == 0 || self.by_day.contains(
                date.weekday_index(),
            ),
            Frequency::Monthly => self.by_month_day.len() == 0 || self.by_month_day.contains(
                date.d(),
            ),
            Frequency::Yearly => (self.by_month.len() == 0 || self.by_month.contains(date.m()))
                && (self.by_month_day.len() == 0 || self.by_month_day.contains(date.d())),
        }
    }
}

/// The weeks, from Monday, since the one that 0001-01-01 begins.
pub open spec fn week(date: Date) -> int {
    (date.number() - 1) / 7
}

/// The greatest common divisor, by division with remainder.
pub open spec fn gcd_of(a: int, b: int) -> int
    decreases b,
{
    if b <= 0 {
        a
    } else {
        gcd_of(b, a % b)
    }
}

impl View for RecurrenceRule {
    type V = RuleModel;

    closed spec fn view(&self) -> RuleModel {
        RuleModel {
            frequency: self.frequency,
            interval: self.interval as int,
            by_day: day_numbers(self.by_day@),
            by_month_day: ints(self.by_month_day@),
            by_month: ints(self.by_month@),
        }
    }
}

/// The error for a rule that is not well formed.
pub open spec fn invalid_rule(message: Seq<char>) -> ErrorModel {
    ErrorModel::validation("invalid_recurrence"@, message).with_field("recurrence"@)
}

/// The error for a rule that asks for more than is supported.
pub open spec fn unsupported_rule(message: Seq<char>) -> ErrorModel {
    ErrorModel::unsupported("unsupported_recurrence"@, message).with_field("recurrence"@)
}

/// The error for a next date past the last date there is.
pub open spec fn overflow() -> ErrorModel {
    ErrorModel::validation(
        "recurrence_date_overflow"@,
        "Recurrence has no next date in the supported calendar range"@,
    ).with_field("recurrence"@)
}

/// The error for a rule that selects no date.
pub open spec fn never() -> ErrorModel {
    ErrorModel::validation(
        "recurrence_has_no_occurrence"@,
        "Recurrence selections never produce a valid calendar date"@,
    ).with_field("recurrence"@)
}

/// What a clause of a rule lists: days of the week, or numbers from `lo` to `hi`.
pub enum Listed {
    Days,
    Numbers { lo: u32, hi: u32 },
}

/// The number that an item of a list stands for.
pub open spec fn item_number(listed: Listed, clause: Seq<char>, item: Seq<char>) -> Result<
    int,
    ErrorModel,
> {
    match listed {
        Listed::Days => match weekday_of(item) {
            Some(n) => Ok(n),
            None => Err(
                unsupported_rule(
                    "Unsupported BYDAY value "@ + text::debug_text(item)
                        + "; ordinal weekdays are not supported"@,
                ),
            ),
        },
        Listed::Numbers { lo, hi } => if text::begins(item, seq!['-']) {
            Err(unsupported_rule(clause + " does not support negative values in v1"@))
        } else if item.len() > 0 && text::all_digits(item) && lo <= text::number(item) <= hi {
            Ok(text::number(item) as int)
        } else {
            Err(
                invalid_rule(
                    clause + " values must be integers from "@ + text::decimal(lo as nat)
                        + " through "@ + text::decimal(hi as nat),
                ),
            )
        },
    }
}

/// The numbers that the items from the `i`-th on stand for, after those in `found`. No item
/// may be empty, and no number may come twice.
pub open spec fn listed_numbers(
    listed: Listed,
    clause: Seq<char>,
    items: Seq<Seq<char>>,
    i: int,
    found: Seq<int>,
) -> Result<Seq<int>, ErrorModel>
    decreases items.len() - i,
{
    if i >= items.len() {
        Ok(found)
    } else if items[i].len() == 0 {
        Err(invalid_rule(clause + " contains an empty item"@))
    } else {
        match item_number(listed, clause, items[i]) {
            Err(error) => Err(error),
            Ok(n) => if found.contains(n) {
                Err(
                    invalid_rule(
                        clause + " contains duplicate value "@ + text::debug_text(items[i]),
                    ),
                )
            } else {
                listed_numbers(listed, clause, items, i + 1, found.push(n))
            },
        }
    }
}

/// The numbers from `k` to `hi` that are among the values, in order.
pub open spec fn in_order(values: Seq<int>, k: int, hi: int) -> Seq<int>
    decreases hi - k + 1,
{
    if k > hi {
        seq![]
    } else if values.contains(k) {
        seq![k] + in_order(values, k + 1, hi)
    } else {
        in_order(values, k + 1, hi)
    }
}

/// The numbers that a list stands for, in order.
pub open spec fn parse_list(listed: Listed, clause: Seq<char>, value: Seq<char>) -> Result<
    Seq<int>,
    ErrorModel,
> {
    match listed_numbers(listed, clause, text::split(value, ','), 0, seq![]) {
        Err(error) => Err(error),
        Ok(found) => Ok(
            match listed {
                Listed::Days => in_order(found, 0, 6),
                Listed::Numbers { lo, hi } => in_order(found, lo as int, hi as int),
            },
        ),
    }
}

/// What the clauses read so far say.
#[verifier::ext_equal]
pub struct Clauses {
    pub names: Seq<Seq<char>>,
    pub frequency: Option<Frequency>,
    pub interval: int,
    pub by_day: Seq<int>,
    pub by_month_day: Seq<int>,
    pub by_month: Seq<int>,
}

/// The frequency that a word names.
pub open spec fn parse_frequency(value: Seq<char>) -> Result<Frequency, ErrorModel> {
    if value == "DAILY"@ {
        Ok(Frequency::Daily)
    } else if value == "WEEKLY"@ {
        Ok(Frequency::Weekly)
    } else if value == "MONTHLY"@ {
        Ok(Frequency::Monthly)
    } else if value == "YEARLY"@ {
        Ok(Frequency::Yearly)
    } else {
        Err(
            unsupported_rule("Unsupported recurrence frequency "@ + text::debug_text(value)),
        )
    }
}

/// What the clauses say with one more of them, whose name is new.
pub open spec fn with_value(seen: Clauses, name: Seq<char>, value: Seq<char>) -> Result<
    Clauses,
    ErrorModel,
> {
    let seen = Clauses { names: seen.names.push(name), ..seen };
    if name == "FREQ"@ {
        match parse_frequency(value) {
            Ok(frequency) => Ok(Clauses { frequency: Some(frequency), ..seen }),
            Err(error) => Err(error),
        }
    } else if name == "INTERVAL"@ {
        if value.len() > 0 && text::all_digits(value) && 0 < text::number(value) <= u64::MAX {
            Ok(Clauses { interval: text::number(value) as int, ..seen })
        } else {
            Err(invalid_rule("INTERVAL must be a positive integer"@))
        }
    } else if name == "BYDAY"@ {
        match parse_list(Listed::Days, "BYDAY"@, value) {
            Ok(list) => Ok(Clauses { by_day: list, ..seen }),
            Err(error) => Err(error),
        }
    } else if name == "BYMONTHDAY"@ {
        match parse_list(Listed::Numbers { lo: 1, hi: 31 }, "BYMONTHDAY"@, value) {
            Ok(list) => Ok(Clauses { by_month_day: list, ..seen }),
            Err(error) => Err(error),
        }
    } else if name == "BYMONTH"@ {
        match parse_list(Listed::Numbers { lo: 1, hi: 12 }, "BYMONTH"@, value) {
            Ok(list) => Ok(Clauses { by_month: list, ..seen }),
            Err(error) => Err(error),
        }
    } else {
        Err(unsupported_rule("Unsupported recurrence clause "@ + name))
    }
}

/// What the clauses say with one more of them.
pub open spec fn with_clause(seen: Clauses, clause: Seq<char>) -> Result<Clauses, ErrorModel> {
    let at = text::find_from(clause, '=', 0);
    if at >= clause.len() {
        Err(
            invalid_rule(
                "Recurrence clause "@ + text::debug_text(clause) + " must contain '='"@,
            ),
        )
    } else {
        let name = clause.subrange(0, at);
        let value = clause.subrange(at + 1, clause.len() as int);
        if name.len() == 0 || value.len() == 0 || value.contains('=') {
            Err(
                invalid_rule(
                    "Recurrence clause "@ + text::debug_text(clause)
                        + " has an empty or malformed value"@,
                ),
            )
        } else if seen.names.contains(text::upper(name)) {
            Err(
                invalid_rule(
                    "Recurrence clause "@ + text::upper(name) + " appears more than once"@,
                ),
            )
        } else {
            with_value(seen, text::upper(name), text::upper(value))
        }
    }
}

/// What the clauses say with those from the `i`-th on.
pub open spec fn with_clauses(seen: Clauses, clauses: Seq<Seq<char>>, i: int) -> Result<
    Clauses,
    ErrorModel,
>
    decreases clauses.len() - i,
{
    if i >= clauses.len() {
        Ok(seen)
    } else {
        match with_clause(seen, clauses[i]) {
            Ok(seen) => with_clauses(seen, clauses, i + 1),
            Err(error) => Err(error),
        }
    }
}

/// What is known before any clause is read: the interval is 1 unless a clause sets it.
pub open spec fn no_clauses() -> Clauses {
    Clauses {
        names: seq![],
        frequency: None,
        interval: 1,
        by_day: seq![],
        by_month_day: seq![],
        by_month: seq![],
    }
}

/// The rule that the clauses amount to.
pub open spec fn rule_of(seen: Clauses) -> Result<RuleModel, ErrorModel> {
    match seen.frequency {
        None => Err(invalid_rule("FREQ is required"@)),
        Some(frequency) => if seen.by_day.len() > 0 && frequency != Frequency::Weekly {
            Err(invalid_rule("BYDAY is allowed only with FREQ=WEEKLY"@))
        } else if seen.by_month_day.len() > 0 && frequency != Frequency::Monthly && frequency
            != Frequency::Yearly {
            Err(
                invalid_rule("BYMONTHDAY is allowed only with FREQ=MONTHLY or FREQ=YEARLY"@),
            )
        } else if seen.by_month.len() > 0 && frequency != Frequency::Yearly {
            Err(invalid_rule("BYMONTH is allowed only with FREQ=YEARLY"@))
        } else {
            Ok(
                RuleModel {
                    frequency,
                    interval: seen.interval,
                    by_day: seen.by_day,
                    by_month_day: seen.by_month_day,
                    by_month: seen.by_month,
                },
            )
        },
    }
}

/// The rule that a text writes.
pub open spec fn parse_rule(source: Seq<char>) -> Result<RuleModel, ErrorModel> {
    if source.len() == 0 {
        Err(invalid_rule("Recurrence rule cannot be empty"@))
    } else {
        match with_clauses(no_clauses(), text::split(source, ';'), 0) {
            Ok(seen) => rule_of(seen),
            Err(error) => Err(error),
        }
    }
}

fn invalid(message: &str) -> (r: Error)
    ensures
        r@ == invalid_rule(message@),
{
    Error::validation("invalid_recurrence", message).with_field("recurrence")
}

fn unsupported(message: &str) -> (r: Error)
    ensures
        r@ == unsupported_rule(message@),
{
    Error::unsupported("unsupported_recurrence", message).with_field("recurrence")
}

fn date_overflow() -> (r: Error)
    ensures
        r@ == overflow(),
{
    Error::validation(
        "recurrence_date_overflow",
        "Recurrence has no next date in the supported calendar range",
    ).with_field("recurrence")
}

fn no_occurrence() -> (r: Error)
    ensures
        r@ == never(),
{
    Error::validation(
        "recurrence_has_no_occurrence",
        "Recurrence selections never produce a valid calendar date",
    ).with_field("recurrence")
}

fn weekday_at(number: u32) -> (r: Weekday)
    requires
        number < 7,
    ensures
        weekday_number(r) == number,
{
    match number {
        0 => Weekday::Mon,
        1 => Weekday::Tue,
        2 => Weekday::Wed,
        3 => Weekday::Thu,
        4 => Weekday::Fri,
        5 => Weekday::Sat,
        _ => Weekday::Sun,
    }
}

fn weekday_name(number: u32) -> (r: &'static str)
    ensures
        r@ == weekday_letters(number as int),
{
    match number {
        0 => "MO",
        1 => "TU",
        2 => "WE",
        3 => "TH",
        4 => "FR",
        5 => "SA",
        _ => "SU",
    }
}

fn parse_weekday(value: &Vec<char>) -> (r: Option<u32>)
    ensures
        (match r {
            Some(n) => Some(n as int),
            None => None::<int>,
        }) == weekday_of(value@),
        r matches Some(n) ==> n < 7,
{
    if text::spells(value, "MO") {
        Some(0)
    } else if text::spells(value, "TU") {
        Some(1)
    } else if text::spells(value, "WE") {
        Some(2)
    } else if text::spells(value, "TH") {
        Some(3)
    } else if text::spells(value, "FR") {
        Some(4)
    } else if text::spells(value, "SA") {
        Some(5)
    } else if text::spells(value, "SU") {
        Some(6)
    } else {
        None
    }
}

/// The result of reading a number, as a mathematical integer.
spec fn int_outcome(r: Result<u32, Error>) -> Result<int, ErrorModel> {
    match r {
        Ok(n) => Ok(n as int),
        Err(error) => Err(error@),
    }
}

/// The result of reading numbers, as mathematical integers.
spec fn ints_outcome(r: Result<Vec<u32>, Error>) -> Result<Seq<int>, ErrorModel> {
    match r {
        Ok(v) => Ok(ints(v@)),
        Err(error) => Err(error@),
    }
}

fn parse_item(listed: &Listed, clause: &str, item: &Vec<char>) -> (r: Result<u32, Error>)
    ensures
        int_outcome(r) == item_number(*listed, clause@, item@),
{
    match listed {
        Listed::Days => match parse_weekday(item) {
            Some(n) => Ok(n),
            None => Err(
                unsupported(
                    text::join3(
                        "Unsupported BYDAY value ",
                        text::debug(text::string(item).as_str()).as_str(),
                        "; ordinal weekdays are not supported",
                    ).as_str(),
                ),
            ),
        },
        Listed::Numbers { lo, hi } => {
            let negative = item.len() > 0 && item[0] == '-';
            assert(negative == text::begins(item@, seq!['-'])) by {
                if item@.len() > 0 {
                    assert(item@.subrange(0, 1) =~= seq![item@[0]]);
                    assert(seq!['-'][0] == '-');
                    assert(item@.subrange(0, 1)[0] == item@[0]);
                }
            }
            if negative {
                return Err(
                    unsupported(
                        text::join2(clause, " does not support negative values in v1").as_str(),
                    ),
                );
            }
            match text::parse_number(item) {
                Some(n) if *lo as u64 <= n && n <= *hi as u64 => Ok(n as u32),
                _ => Err(
                    invalid(
                        text::join5(
                            clause,
                            " values must be integers from ",
                            text::format_number(*lo as u64).as_str(),
                            " through ",
                            text::format_number(*hi as u64).as_str(),
                        ).as_str(),
                    ),
                ),
            }
        },
    }
}

/// Whether a number is in a list.
fn has_number(v: &Vec<u32>, n: u32) -> (r: bool)
    ensures
        r == ints(v@).contains(n as int),
{
    let mut i: usize = 0;
    while i < v.len()
        invariant
            i <= v.len(),
            forall|k: int| 0 <= k < i ==> #[trigger] v@[k] != n,
        decreases v.len() - i,
    {
        if v[i] == n {
            assert(ints(v@)[i as int] == n);
            return true;
        }
        i += 1;
    }
    assert forall|k: int| 0 <= k < ints(v@).len() implies ints(v@)[k] != n by {
        assert(v@[k] != n);
    }
    false
}

/// What [`in_order`] lists grows and is in range.
pub proof fn lemma_in_order(values: Seq<int>, k: int, hi: int)
    ensures
        selection(in_order(values, k, hi), k, hi),
    decreases hi - k + 1,
{
    if k <= hi {
        lemma_in_order(values, k + 1, hi);
    }
}

fn sorted_numbers(values: &Vec<u32>, lo: u32, hi: u32) -> (r: Vec<u32>)
    requires
        hi < 1000,
    ensures
        ints(r@) == in_order(ints(values@), lo as int, hi as int),
{
    let mut r: Vec<u32> = Vec::new();
    let mut k: u32 = lo;
    while k <= hi
        invariant
            hi < 1000,
            ints(r@) + in_order(ints(values@), k as int, hi as int) == in_order(
                ints(values@),
                lo as int,
                hi as int,
            ),
        decreases hi - k + 1,
    {
        if has_number(values, k) {
            let ghost before = ints(r@);
            let ghost rest = in_order(ints(values@), k + 1, hi as int);
            r.push(k);
            assert(ints(r@) == before.push(k as int));
            assert(before.push(k as int) + rest == before + (seq![k as int] + rest));
        }
        k += 1;
    }
    assert(ints(r@) + Seq::<int>::empty() == ints(r@));
    r
}

fn parse_numbers(listed: &Listed, clause: &str, value: &Vec<char>) -> (r: Result<
    Vec<u32>,
    Error,
>)
    requires
        listed matches Listed::Numbers { lo, hi } ==> hi < 1000,
    ensures
        ints_outcome(r) == parse_list(*listed, clause@, value@),
{
    let items = text::split_on(value, ',');
    let ghost all = text::split(value@, ',');
    let mut found: Vec<u32> = Vec::new();
    assert(ints(found@) == Seq::<int>::empty());
    let mut i: usize = 0;
    while i < items.len()
        invariant
            i <= items.len(),
            text::texts(items@) == all,
            listed_numbers(*listed, clause@, all, 0, seq![]) == listed_numbers(
                *listed,
                clause@,
                all,
                i as int,
                ints(found@),
            ),
            listed matches Listed::Numbers { lo, hi } ==> hi < 1000,
            all == text::split(value@, ','),
        decreases items.len() - i,
    {
        assert(all[i as int] == items@[i as int]@);
        if items[i].len() == 0 {
            return Err(invalid(text::join2(clause, " contains an empty item").as_str()));
        }
        match parse_item(listed, clause, &items[i]) {
            Err(error) => {
                return Err(error);
            },
            Ok(n) => {
                if has_number(&found, n) {
                    return Err(
                        invalid(
                            text::join3(
                                clause,
                                " contains duplicate value ",
                                text::debug(text::string(&items[i]).as_str()).as_str(),
                            ).as_str(),
                        ),
                    );
                }
                let ghost before = ints(found@);
                found.push(n);
                assert(ints(found@) == before.push(n as int));
            },
        }
        i += 1;
    }
    match listed {
        Listed::Days => Ok(sorted_numbers(&found, 0, 6)),
        Listed::Numbers { lo, hi } => Ok(sorted_numbers(&found, *lo, *hi)),
    }
}

/// The clauses read so far.
struct Draft {
    names: Vec<Vec<char>>,
    frequency: Option<Frequency>,
    interval: u64,
    by_day: Vec<u32>,
    by_month_day: Vec<u32>,
    by_month: Vec<u32>,
}

impl View for Draft {
    type V = Clauses;

    closed spec fn view(&self) -> Clauses {
        Clauses {
            names: text::texts(self.names@),
            frequency: self.frequency,
            interval: self.interval as int,
            by_day: ints(self.by_day@),
            by_month_day: ints(self.by_month_day@),
            by_month: ints(self.by_month@),
        }
    }
}

impl Clauses {
    /// Whether the interval is positive and each list sorted and in range.
    pub open spec fn well_formed(self) -> bool {
        &&& 0 < self.interval <= u64::MAX
        &&& selection(self.by_day, 0, 6)
        &&& selection(self.by_month_day, 1, 31)
        &&& selection(self.by_month, 1, 12)
    }
}

/// What clauses say stays well formed with one more of them.
proof fn lemma_with_value(seen: Clauses, name: Seq<char>, value: Seq<char>)
    requires
        seen.well_formed(),
    ensures
        with_value(seen, name, value) matches Ok(next) ==> next.well_formed(),
{
    if let Ok(found) = listed_numbers(Listed::Days, "BYDAY"@, text::split(value, ','), 0, seq![]) {
        lemma_in_order(found, 0, 6);
    }
    if let Ok(found) = listed_numbers(
        Listed::Numbers { lo: 1, hi: 31 },
        "BYMONTHDAY"@,
        text::split(value, ','),
        0,
        seq![],
    ) {
        lemma_in_order(found, 1, 31);
    }
    if let Ok(found) = listed_numbers(
        Listed::Numbers { lo: 1, hi: 12 },
        "BYMONTH"@,
        text::split(value, ','),
        0,
        seq![],
    ) {
        lemma_in_order(found, 1, 12);
    }
}

fn has_name(names: &Vec<Vec<char>>, name: &Vec<char>) -> (r: bool)
    ensures
        r == text::texts(names@).contains(name@),
{
    let mut i: usize = 0;
    while i < names.len()
        invariant
            i <= names.len(),
            forall|k: int| 0 <= k < i ==> #[trigger] text::texts(names@)[k] != name@,
        decreases names.len() - i,
    {
        if text::equal(&names[i], name) {
            assert(text::texts(names@)[i as int] == name@);
            return true;
        }
        i += 1;
    }
    false
}

impl Draft {
    fn set(self, name: Vec<char>, value: &Vec<char>) -> (r: Result<Draft, Error>)
        requires
            self@.well_formed(),
        ensures
            error::viewed(r) == with_value(self@, name@, value@),
            r matches Ok(next) ==> next@.well_formed(),
    {
        proof {
            lemma_with_value(self@, name@, value@);
        }
        let mut next = self;
        let is_frequency = text::spells(&name, "FREQ");
        let is_interval = text::spells(&name, "INTERVAL");
        let is_day = text::spells(&name, "BYDAY");
        let is_month_day = text::spells(&name, "BYMONTHDAY");
        let is_month = text::spells(&name, "BYMONTH");
        let ghost named = name@;
        if is_frequency {
            next.frequency =
            if text::spells(value, "DAILY") {
                Some(Frequency::Daily)
            } else if text::spells(value, "WEEKLY") {
                Some(Frequency::Weekly)
            } else if text::spells(value, "MONTHLY") {
                Some(Frequency::Monthly)
            } else if text::spells(value, "YEARLY") {
                Some(Frequency::Yearly)
            } else {
                return Err(
                    unsupported(
                        text::join2(
                            "Unsupported recurrence frequency ",
                            text::debug(text::string(value).as_str()).as_str(),
                        ).as_str(),
                    ),
                );
            };
        } else if is_interval {
            match text::parse_number(value) {
                Some(n) if n > 0 => {
                    next.interval = n;
                },
                _ => {
                    return Err(invalid("INTERVAL must be a positive integer"));
                },
            }
        } else if is_day {
            match parse_numbers(&Listed::Days, "BYDAY", value) {
                Ok(list) => {
                    next.by_day = list;
                },
                Err(error) => {
                    return Err(error);
                },
            }
        } else if is_month_day {
            match parse_numbers(&Listed::Numbers { lo: 1, hi: 31 }, "BYMONTHDAY", value) {
                Ok(list) => {
                    next.by_month_day = list;
                },
                Err(error) => {
                    return Err(error);
                },
            }
        } else if is_month {
            match parse_numbers(&Listed::Numbers { lo: 1, hi: 12 }, "BYMONTH", value) {
                Ok(list) => {
                    next.by_month = list;
                },
                Err(error) => {
                    return Err(error);
                },
            }
        } else {
            return Err(
                unsupported(
                    text::join2(
                        "Unsupported recurrence clause ",
                        text::string(&name).as_str(),
                    ).as_str(),
                ),
            );
        }
        next.names.push(name);
        assert(text::texts(next.names@) == text::texts(self.names@).push(named));
        Ok(next)
    }

    fn add(self, clause: &Vec<char>) -> (r: Result<Draft, Error>)
        requires
            self@.well_formed(),
        ensures
            error::viewed(r) == with_clause(self@, clause@),
            r matches Ok(next) ==> next@.well_formed(),
    {
        let at: usize = text::find_char(clause, '=', 0);
        if at >= clause.len() {
            return Err(
                invalid(
                    text::join3(
                        "Recurrence clause ",
                        text::debug(text::string(clause).as_str()).as_str(),
                        " must contain '='",
                    ).as_str(),
                ),
            );
        }
        let name = text::cut(clause, 0, at);
        let value = text::cut(clause, at + 1, clause.len());
        if name.len() == 0 || value.len() == 0 || text::has(&value, '=') {
            return Err(
                invalid(
                    text::join3(
                        "Recurrence clause ",
                        text::debug(text::string(clause).as_str()).as_str(),
                        " has an empty or malformed value",
                    ).as_str(),
                ),
            );
        }
        let name = text::to_upper(&name);
        if has_name(&self.names, &name) {
            return Err(
                invalid(
                    text::join3(
                        "Recurrence clause ",
                        text::string(&name).as_str(),
                        " appears more than once",
                    ).as_str(),
                ),
            );
        }
        let value = text::to_upper(&value);
        self.set(name, &value)
    }
}

fn weekdays_at(numbers: &Vec<u32>) -> (r: Vec<Weekday>)
    requires
        forall|i: int| 0 <= i < numbers@.len() ==> #[trigger] numbers@[i] < 7,
    ensures
        day_numbers(r@) == ints(numbers@),
{
    let mut r: Vec<Weekday> = Vec::new();
    let mut i: usize = 0;
    while i < numbers.len()
        invariant
            i <= numbers.len(),
            forall|i: int| 0 <= i < numbers@.len() ==> #[trigger] numbers@[i] < 7,
            day_numbers(r@) == ints(numbers@).take(i as int),
        decreases numbers.len() - i,
    {
        let ghost before = day_numbers(r@);
        let day = weekday_at(numbers[i]);
        r.push(day);
        assert(day_numbers(r@) == before.push(weekday_number(day)));
        i += 1;
    }
    assert(ints(numbers@).take(i as int) == ints(numbers@));
    r
}

impl RecurrenceRule {
    /// Whether the rule is well formed. It holds of every rule that code makes.
    #[verifier::type_invariant]
    pub open spec fn valid(self) -> bool {
        self@.well_formed()
    }

    /// The rule that a text writes.
    pub fn parse(source: &str) -> (r: Result<Self, Error>)
        ensures
            error::viewed(r) == parse_rule(source@),
    {
        if source.is_empty() {
            return Err(invalid("Recurrence rule cannot be empty"));
        }
        let chars = text::chars(source);
        let clauses = text::split_on(&chars, ';');
        let ghost all = text::split(source@, ';');
        let mut draft = Draft {
            names: Vec::new(),
            frequency: None,
            interval: 1,
            by_day: Vec::new(),
            by_month_day: Vec::new(),
            by_month: Vec::new(),
        };
        assert(draft@ =~= no_clauses());
        let mut i: usize = 0;
        while i < clauses.len()
            invariant
                i <= clauses.len(),
                text::texts(clauses@) == all,
                draft@.well_formed(),
                with_clauses(no_clauses(), all, 0) == with_clauses(draft@, all, i as int),
                source@.len() > 0,
                all == text::split(source@, ';'),
            decreases clauses.len() - i,
        {
            assert(all[i as int] == clauses@[i as int]@);
            match draft.add(&clauses[i]) {
                Ok(next) => {
                    draft = next;
                },
                Err(error) => {
                    return Err(error);
                },
            }
            i += 1;
        }
        let frequency = match draft.frequency {
            Some(frequency) => frequency,
            None => {
                return Err(invalid("FREQ is required"));
            },
        };
        if draft.by_day.len() > 0 && frequency != Frequency::Weekly {
            return Err(invalid("BYDAY is allowed only with FREQ=WEEKLY"));
        }
        if draft.by_month_day.len() > 0 && frequency != Frequency::Monthly && frequency
            != Frequency::Yearly {
            return Err(invalid("BYMONTHDAY is allowed only with FREQ=MONTHLY or FREQ=YEARLY"));
        }
        if draft.by_month.len() > 0 && frequency != Frequency::Yearly {
            return Err(invalid("BYMONTH is allowed only with FREQ=YEARLY"));
        }
        assert forall|i: int| 0 <= i < draft.by_day@.len() implies #[trigger] draft.by_day@[i]
            < 7 by {
            assert(ints(draft.by_day@)[i] == draft.by_day@[i]);
        }
        let by_day = weekdays_at(&draft.by_day);
        Ok(
            RecurrenceRule {
                frequency,
                interval: draft.interval,
                by_day,
                by_month_day: draft.by_month_day,
                by_month: draft.by_month,
            },
        )
    }

    /// The unit in which the rule counts.
    #[must_use]
    pub fn frequency(&self) -> (r: Frequency)
        ensures
            r == self@.frequency,
            self@.well_formed(),
    {
        proof {
            use_type_invariant(self);
        }
        self.frequency
    }

    /// How many units lie between one period and the next.
    #[must_use]
    pub fn interval(&self) -> (r: u64)
        ensures
            r == self@.interval,
            r > 0,
    {
        proof {
            use_type_invariant(self);
        }
        self.interval
    }

    /// The days of the week that the rule lists.
    #[must_use]
    pub fn by_day(&self) -> (r: &Vec<Weekday>)
        ensures
            day_numbers(r@) == self@.by_day,
    {
        &self.by_day
    }

    /// The days of the month that the rule lists.
    #[must_use]
    pub fn by_month_day(&self) -> (r: &Vec<u32>)
        ensures
            ints(r@) == self@.by_month_day,
    {
        &self.by_month_day
    }

    /// The months that the rule lists.
    #[must_use]
    pub fn by_month(&self) -> (r: &Vec<u32>)
        ensures
            ints(r@) == self@.by_month,
    {
        &self.by_month
    }
}

impl Clone for RecurrenceRule {
    fn clone(&self) -> (r: Self)
        ensures
            r@ == self@,
    {
        proof {
            use_type_invariant(self);
        }
        let by_day = self.by_day.clone();
        let by_month_day = self.by_month_day.clone();
        let by_month = self.by_month.clone();
        assert(by_day@ =~= self.by_day@);
        assert(by_month_day@ =~= self.by_month_day@);
        assert(by_month@ =~= self.by_month@);
        RecurrenceRule {
            frequency: self.frequency,
            interval: self.interval,
            by_day,
            by_month_day,
            by_month,
        }
    }
}

/// The divisor divides both numbers.
pub proof fn lemma_gcd_divides(a: int, b: int)
    requires
        a > 0,
        b >= 0,
    ensures
        gcd_of(a, b) > 0,
        a % gcd_of(a, b) == 0,
        b % gcd_of(a, b) == 0,
    decreases b,
{
    if b > 0 {
        let g = gcd_of(a, b);
        if a % b == 0 {
            assert(gcd_of(b, 0) == b);
            assert(b % b == 0) by (nonlinear_arith)
                requires
                    b > 0,
            ;
        } else {
            lemma_gcd_divides(b, a % b);
            lemma_fundamental_div_mod(a, b);
            lemma_fundamental_div_mod(b, g);
            lemma_fundamental_div_mod(a % b, g);
            let (x, y, q) = (b / g, (a % b) / g, a / b);
            assert(a == g * (x * q + y)) by (nonlinear_arith)
                requires
                    a == b * q + a % b,
                    b == g * x,
                    a % b == g * y,
            ;
            lemma_mod_multiples_basic(x * q + y, g);
            assert((x * q + y) * g == g * (x * q + y)) by (nonlinear_arith);
        }
    } else {
        assert(a % a == 0) by (nonlinear_arith)
            requires
                a > 0,
        ;
        assert(0int % a == 0) by (nonlinear_arith)
            requires
                a > 0,
        ;
    }
}

/// So many periods make a whole number of cycles.
proof fn lemma_cycle(interval: int, cycle: int) -> (k: int)
    requires
        interval > 0,
        cycle > 0,
    ensures
        k > 0,
        cycle / gcd_of(interval, cycle) > 0,
        (cycle / gcd_of(interval, cycle)) * interval == cycle * k,
{
    lemma_gcd_divides(interval, cycle);
    let g = gcd_of(interval, cycle);
    lemma_fundamental_div_mod(interval, g);
    lemma_fundamental_div_mod(cycle, g);
    let (k, n) = (interval / g, cycle / g);
    assert(n * interval == cycle * k) by (nonlinear_arith)
        requires
            interval == g * k,
            cycle == g * n,
    ;
    assert(n > 0) by (nonlinear_arith)
        requires
            cycle == g * n,
            cycle > 0,
            g > 0,
    ;
    assert(k > 0) by (nonlinear_arith)
        requires
            interval == g * k,
            interval > 0,
            g > 0,
    ;
    k
}

fn gcd(left: u64, right: u64) -> (r: u64)
    requires
        left > 0,
    ensures
        r == gcd_of(left as int, right as int),
        r > 0,
{
    let mut a: u64 = left;
    let mut b: u64 = right;
    while b != 0
        invariant
            a > 0,
            gcd_of(left as int, right as int) == gcd_of(a as int, b as int),
        decreases b,
    {
        let rest: u64 = a % b;
        a = b;
        b = rest;
    }
    a
}

/// A multiple of the interval is its period's number times the interval.
proof fn lemma_period(elapsed: int, interval: int)
    requires
        interval > 0,
        elapsed >= 0,
    ensures
        (elapsed / interval) * interval <= elapsed < (elapsed / interval + 1) * interval,
        elapsed / interval >= 0,
        elapsed % interval == 0 ==> elapsed == (elapsed / interval) * interval,
{
    lemma_fundamental_div_mod(elapsed, interval);
    let q = elapsed / interval;
    assert(interval * q == q * interval) by (nonlinear_arith);
    assert((q + 1) * interval == q * interval + interval) by (nonlinear_arith);
    assert(q >= 0) by (nonlinear_arith)
        requires
            elapsed == interval * q + elapsed % interval,
            elapsed % interval < interval,
            elapsed >= 0,
            interval > 0,
    ;
}

/// Later periods begin later, by the interval at least.
proof fn lemma_periods_grow(p: int, q: int, interval: int)
    requires
        p < q,
        interval > 0,
    ensures
        p * interval + interval <= q * interval,
{
    assert(p * interval + interval <= q * interval) by (nonlinear_arith)
        requires
            p + 1 <= q,
            interval > 0,
    ;
}

impl RecurrenceRule {
    /// Whether the date has a day of the week, day and month that the rule lists.
    #[must_use]
    pub fn matches_date(&self, date: Date) -> (r: bool)
        ensures
            r == self@.matches(date),
    {
        match self.frequency {
            Frequency::Daily => true,
            Frequency::Weekly => {
                if self.by_day.len() == 0 {
                    return true;
                }
                let today: u32 = date.num_days_from_monday();
                let mut i: usize = 0;
                while i < self.by_day.len()
                    invariant
                        i <= self.by_day.len(),
                        today == date.weekday_index(),
                        self@.frequency == Frequency::Weekly,
                        self.by_day@.len() > 0,
                        forall|k: int| 0 <= k < i ==> #[trigger] self@.by_day[k] != today,
                    decreases self.by_day.len() - i,
                {
                    if self.by_day[i].num_days_from_monday() == today {
                        assert(self@.by_day[i as int] == today);
                        return true;
                    }
                    i += 1;
                }
                false
            },
            Frequency::Monthly => self.by_month_day.len() == 0 || has_number(
                &self.by_month_day,
                date.day(),
            ),
            Frequency::Yearly => (self.by_month.len() == 0 || has_number(
                &self.by_month,
                date.month(),
            )) && (self.by_month_day.len() == 0 || has_number(&self.by_month_day, date.day())),
        }
    }

    fn next_daily(&self, anchor: Date, threshold: Date) -> (r: Result<Date, Error>)
        requires
            self@.frequency == Frequency::Daily,
            anchor.number() <= threshold.number(),
        ensures
            r matches Ok(date) ==> self@.next(anchor, threshold, date),
            r matches Err(e) ==> e@ == overflow() && self@.ends(anchor, threshold),
    {
        proof {
            use_type_invariant(self);
            use_type_invariant(&anchor);
            use_type_invariant(&threshold);
        }
        let elapsed: u64 = threshold.days_since(anchor) as u64;
        let ghost n = self.interval as int;
        let ghost p = elapsed as int / n;
        proof {
            lemma_period(elapsed as int, n);
            lemma_periods_grow(p, p + 1, n);
            lemma_mod_multiples_basic(p + 1, n);
            calendar::lemma_number_range(anchor);
            assert forall|other: Date|
                other.valid() && #[trigger] self@.occurs(anchor, other) && threshold.number()
                    < other.number() implies anchor.number() + (p + 1) * n <= other.number() by {
                let x = other.number() - anchor.number();
                lemma_period(x, n);
                lemma_div_is_ordered(elapsed as int, x, n);
                if x / n == p {
                } else {
                    lemma_periods_grow(p, x / n, n);
                    assert(p * n + n == (p + 1) * n) by (nonlinear_arith);
                }
                calendar::lemma_number_range(other);
            }
            assert(p <= elapsed) by (nonlinear_arith)
                requires
                    p * n <= elapsed,
                    n > 0,
                    p >= 0,
            ;
        }
        let periods: u64 = elapsed / self.interval + 1;
        let days: u64 = match periods.checked_mul(self.interval) {
            Some(days) => days,
            None => {
                proof {
                    assert forall|other: Date|
                        other.valid() && #[trigger] self@.occurs(
                            anchor,
                            other,
                        ) implies other.number() <= threshold.number() by {
                        calendar::lemma_number_range(other);
                        lemma_range();
                    }
                }
                return Err(date_overflow());
            },
        };
        match anchor.checked_add_days(days) {
            Some(date) => Ok(date),
            None => {
                proof {
                    assert forall|other: Date|
                        other.valid() && #[trigger] self@.occurs(
                            anchor,
                            other,
                        ) implies other.number() <= threshold.number() by {
                        calendar::lemma_number_range(other);
                    }
                }
                Err(date_overflow())
            },
        }
    }
}

/// The dates that can be stood for span less than a million years.
proof fn lemma_range()
    ensures
        -100_000_000 < calendar::first_number() < calendar::last_number() < 100_000_000,
{
    reveal_with_fuel(calendar::days_before_month, 13);
}

fn weekday_numbers(days: &Vec<Weekday>) -> (r: Vec<u32>)
    ensures
        ints(r@) == day_numbers(days@),
{
    let mut r: Vec<u32> = Vec::new();
    let mut i: usize = 0;
    while i < days.len()
        invariant
            i <= days.len(),
            ints(r@) == day_numbers(days@).take(i as int),
        decreases days.len() - i,
    {
        let ghost before = ints(r@);
        let n: u32 = days[i].num_days_from_monday();
        r.push(n);
        assert(ints(r@) == before.push(n as int));
        i += 1;
    }
    assert(day_numbers(days@).take(i as int) == day_numbers(days@));
    r
}

/// The given number alone, where the list is empty, else the list.
fn listed_or(list: &Vec<u32>, single: u32) -> (r: Vec<u32>)
    ensures
        ints(r@) == if list@.len() == 0 {
            seq![single as int]
        } else {
            ints(list@)
        },
{
    if list.len() == 0 {
        let mut r: Vec<u32> = Vec::new();
        r.push(single);
        assert(ints(r@) =~= seq![single as int]);
        r
    } else {
        let r = list.clone();
        assert(r@ =~= list@);
        r
    }
}

/// Whether the week of a date begins before the first date there is.
#[verifier::opaque]
pub open spec fn early_week(anchor: Date) -> bool {
    anchor.number() - anchor.weekday_index() < calendar::first_number()
}

impl RecurrenceRule {
    fn next_weekly(&self, anchor: Date, threshold: Date) -> (r: Result<Date, Error>)
        requires
            self@.frequency == Frequency::Weekly,
            anchor.number() <= threshold.number(),
        ensures
            r matches Ok(date) ==> self@.next(anchor, threshold, date),
            r matches Err(e) ==> e@ == overflow() && (self@.ends(anchor, threshold) || early_week(
                anchor,
            )),
            early_week(anchor) ==> r is Err,
    {
        proof {
            use_type_invariant(self);
            use_type_invariant(&anchor);
            use_type_invariant(&threshold);
            lemma_range();
            calendar::lemma_number_range(anchor);
            calendar::lemma_number_range(threshold);
        }
        let default_weekday: u32 = anchor.num_days_from_monday();
        let listed = weekday_numbers(&self.by_day);
        let weekdays = listed_or(&listed, default_weekday);
        let ghost days = self@.weekdays(anchor);
        assert(ints(weekdays@) == days);
        assert(selection(days, 0, 6));
        assert(early_week(anchor) == (anchor.number() - anchor.weekday_index()
            < calendar::first_number())) by {
            reveal(early_week);
        }
        let anchor_week = match anchor.checked_sub_days(default_weekday as u64) {
            Some(date) => date,
            None => {
                return Err(date_overflow());
            },
        };
        let ghost n = self.interval as int;
        let ghost start = week(anchor);
        let elapsed_weeks: u64 = (threshold.days_since(anchor_week) / 7) as u64;
        let ghost first = elapsed_weeks as int / n;
        let mut period: u64 = elapsed_weeks / self.interval;
        proof {
            assert(anchor_week.number() == 7 * start + 1);
            assert(elapsed_weeks == week(threshold) - start);
            lemma_period(elapsed_weeks as int, n);
            assert forall|other: Date|
                other.valid() && #[trigger] self@.occurs(anchor, other) && threshold.number()
                    < other.number() implies first <= (week(other) - start) / n by {
                lemma_div_is_ordered(elapsed_weeks as int, week(other) - start, n);
            }
            assert(first <= elapsed_weeks) by (nonlinear_arith)
                requires
                    first * n <= elapsed_weeks,
                    n > 0,
                    first >= 0,
            ;
        }
        let mut round: u32 = 0;
        while round < 2
            invariant
                !early_week(anchor),
                self@.frequency == Frequency::Weekly,
                n == self.interval,
                n > 0,
                self.interval == self@.interval,
                start == week(anchor),
                anchor_week.number() == 7 * start + 1,
                anchor.number() <= threshold.number(),
                threshold.number() < 100_000_000,
                anchor.number() > -100_000_000,
                calendar::last_number() < 100_000_000,
                days == self@.weekdays(anchor),
                ints(weekdays@) == days,
                selection(days, 0, 6),
                days.len() > 0,
                first >= 0,
                first * n <= week(threshold) - start < (first + 1) * n,
                period == first + round,
                round <= 1,
                first < 100_000_000,
                forall|other: Date|
                    other.valid() && #[trigger] self@.occurs(anchor, other) && threshold.number()
                        < other.number() ==> period <= (week(other) - start) / n,
            decreases 2 - round,
        {
            proof {
                assert forall|other: Date|
                    other.valid() && #[trigger] self@.occurs(anchor, other) && threshold.number()
                        < other.number() implies period * n <= week(other) - start && ((week(other)
                    - start) / n > period ==> period * n + n <= week(other) - start) by {
                    let q = (week(other) - start) / n;
                    lemma_period(week(other) - start, n);
                    if q > period {
                        lemma_periods_grow(period as int, q, n);
                    }
                }
                lemma_mod_multiples_basic(period as int, n);
                assert(period * n >= 0) by (nonlinear_arith)
                    requires
                        period >= 0,
                        n > 0,
                ;
                assert(round == 1 ==> period * n > week(threshold) - start);
            }
            let week_offset: u64 = match period.checked_mul(self.interval) {
                Some(weeks) => match weeks.checked_mul(7) {
                    Some(days) => days,
                    None => {
                        proof {
                            assert forall|other: Date|
                                other.valid() && #[trigger] self@.occurs(
                                    anchor,
                                    other,
                                ) implies other.number() <= threshold.number() by {
                                calendar::lemma_number_range(other);
                            }
                        }
                        return Err(date_overflow());
                    },
                },
                None => {
                    proof {
                        assert forall|other: Date|
                            other.valid() && #[trigger] self@.occurs(
                                anchor,
                                other,
                            ) implies other.number() <= threshold.number() by {
                            calendar::lemma_number_range(other);
                        }
                    }
                    return Err(date_overflow());
                },
            };
            let week_start = match anchor_week.checked_add_days(week_offset) {
                Some(date) => date,
                None => {
                    proof {
                        assert forall|other: Date|
                            other.valid() && #[trigger] self@.occurs(
                                anchor,
                                other,
                            ) implies other.number() <= threshold.number() by {
                            calendar::lemma_number_range(other);
                        }
                    }
                    return Err(date_overflow());
                },
            };
            let ghost here = start + period * n;
            assert(week_start.number() == 7 * here + 1);
            let mut i: usize = 0;
            while i < weekdays.len()
                invariant
                    !early_week(anchor),
                    self@.frequency == Frequency::Weekly,
                    n == self@.interval,
                    n > 0,
                    start == week(anchor),
                    days == self@.weekdays(anchor),
                    ints(weekdays@) == days,
                    selection(days, 0, 6),
                    i <= weekdays.len(),
                    week_start.number() == 7 * here + 1,
                    here == start + period * n,
                    period * n >= 0,
                    (period * n) % n == 0,
                    anchor.number() <= threshold.number(),
                    forall|k: int|
                        0 <= k < i ==> 7 * here + 1 + #[trigger] days[k] <= threshold.number(),
                    forall|other: Date|
                        other.valid() && #[trigger] self@.occurs(anchor, other)
                            && threshold.number() < other.number() ==> here <= week(other) && ((
                        week(other) - start) / n > period ==> here + n <= week(other)) && period
                            <= (week(other) - start) / n,
                decreases weekdays.len() - i,
            {
                let weekday: u32 = weekdays[i];
                assert(days[i as int] == weekday);
                proof {
                    assert forall|other: Date|
                        other.valid() && #[trigger] self@.occurs(anchor, other)
                            && threshold.number() < other.number() implies 7 * here + 1 + weekday
                        <= other.number() by {
                        if (week(other) - start) / n == period {
                            lemma_period(week(other) - start, n);
                            assert(week(other) == here);
                            let k = days.index_of(other.weekday_index());
                            assert(days[k] == other.weekday_index());
                            assert(other.number() == 7 * here + 1 + days[k]);
                        }
                    }
                }
                let candidate = match week_start.checked_add_days(weekday as u64) {
                    Some(date) => date,
                    None => {
                        proof {
                            assert forall|other: Date|
                                other.valid() && #[trigger] self@.occurs(
                                    anchor,
                                    other,
                                ) implies other.number() <= threshold.number() by {
                                calendar::lemma_number_range(other);
                            }
                        }
                        return Err(date_overflow());
                    },
                };
                if threshold.is_before(&candidate) {
                    proof {
                        assert(week(candidate) == here);
                        assert(candidate.weekday_index() == weekday);
                        assert(days.contains(weekday as int));
                        assert(week(candidate) - start == period * n);
                        assert(self@.on_period(week(candidate) - start));
                        assert(self@.occurs(anchor, candidate));
                    }
                    return Ok(candidate);
                }
                i += 1;
            }
            proof {
                assert(days[0] <= 6);
                assert(7 * here + 1 + days[0] <= threshold.number());
                assert forall|other: Date|
                    other.valid() && #[trigger] self@.occurs(anchor, other) && threshold.number()
                        < other.number() implies period + 1 <= (week(other) - start) / n by {
                    if (week(other) - start) / n == period {
                        lemma_period(week(other) - start, n);
                        let k = days.index_of(other.weekday_index());
                        assert(days[k] == other.weekday_index());
                        assert(7 * here + 1 + days[k] <= threshold.number());
                        assert(other.number() == 7 * here + 1 + days[k]);
                    }
                }
                lemma_period(week(threshold) - start, n);
                assert((first + 1) * n == first * n + n) by (nonlinear_arith);
            }
            period = period + 1;
            round += 1;
        }
        Err(no_occurrence())
    }
}

/// A later month comes after an earlier one.
proof fn lemma_month_order(a: Date, b: Date)
    requires
        a.valid(),
        b.valid(),
    ensures
        a.month_index() < b.month_index() ==> a.number() < b.number(),
        a.number() <= b.number() ==> a.month_index() <= b.month_index(),
        a.number() <= b.number() ==> a.y() <= b.y(),
        a.y() < b.y() ==> a.number() < b.number(),
        a.month_index() == b.month_index() ==> a.y() == b.y() && a.m() == b.m(),
        a.y() == b.y() && a.m() == b.m() ==> (a.number() <= b.number() <==> a.d() <= b.d()),
        a.y() == b.y() && a.m() < b.m() ==> a.number() < b.number(),
{
    calendar::lemma_date_order(a, b);
    calendar::lemma_date_order(b, a);
}

/// The calendar repeats after so many times 400 years.
proof fn lemma_calendar_repeats(year: int, k: int, month: int)
    ensures
        calendar::month_days(year - 400 * k, month) == calendar::month_days(year, month),
{
    assert((year - 400 * k) % 4 == year % 4);
    assert((year - 400 * k) % 100 == year % 100);
    assert((year - 400 * k) % 400 == year % 400);
}

/// Where the rule selects no day in a whole cycle of months after the threshold, it selects
/// none at all.
proof fn lemma_monthly_cycle(
    rule: RuleModel,
    anchor: Date,
    threshold: Date,
    first: int,
    other: Date,
)
    requires
        rule.well_formed(),
        rule.frequency == Frequency::Monthly,
        anchor.valid(),
        threshold.valid(),
        threshold.month_index() - anchor.month_index() < (first + 1) * rule.interval,
        other.valid(),
        rule.occurs(anchor, other),
        first >= 0,
        forall|date: Date|
            date.valid() && #[trigger] rule.occurs(anchor, date) && threshold.number()
                < date.number() ==> first + 4800int / gcd_of(rule.interval, 4800) < (
            date.month_index() - anchor.month_index()) / rule.interval,
    ensures
        other.number() <= threshold.number(),
    decreases (other.month_index() - anchor.month_index()) / rule.interval,
{
    if threshold.number() < other.number() {
        let n = rule.interval;
        let rounds = 4800int / gcd_of(n, 4800);
        let k = lemma_cycle(n, 4800);
        let elapsed = other.month_index() - anchor.month_index();
        let q = elapsed / n;
        lemma_period(elapsed, n);
        lemma_calendar_repeats(other.y(), k, other.m());
        let x = q - rounds;
        assert(x * n == elapsed - 4800 * k) by (nonlinear_arith)
            requires
                q * n == elapsed,
                rounds * n == 4800 * k,
                x == q - rounds,
        ;
        if first + 1 < x {
            lemma_periods_grow(first + 1, x, n);
        }
        let year = other.y() - 400 * k;
        assert(12 * year + other.m() - 1 > threshold.month_index());
        calendar::lemma_date_of(year, other.m(), other.d());
        let date = Date::of(year, other.m(), other.d());
        assert(date.month_index() - anchor.month_index() == x * n);
        lemma_mod_multiples_basic(x, n);
        assert(0 <= x * n) by (nonlinear_arith)
            requires
                n > 0,
                x >= 0,
        ;
        assert(rule.occurs(anchor, date));
        lemma_month_order(threshold, date);
        assert((x * n) / n == x) by (nonlinear_arith)
            requires
                n > 0,
        ;
        lemma_monthly_cycle(rule, anchor, threshold, first, date);
    }
}

impl RecurrenceRule {
    #[verifier::rlimit(40)]
    fn next_monthly(&self, anchor: Date, threshold: Date) -> (r: Result<Date, Error>)
        requires
            self@.frequency == Frequency::Monthly,
            anchor.number() <= threshold.number(),
        ensures
            r matches Ok(date) ==> self@.next(anchor, threshold, date),
            r matches Err(e) ==> {
                &&& self@.ends(anchor, threshold)
                &&& e@ == if self@.full_search(anchor, threshold) {
                    never()
                } else {
                    overflow()
                }
            },
    {
        proof {
            use_type_invariant(self);
            use_type_invariant(&anchor);
            use_type_invariant(&threshold);
            lemma_month_order(anchor, threshold);
        }
        let days = listed_or(&self.by_month_day, anchor.day());
        let ghost list = self@.days(anchor);
        assert(ints(days@) == list);
        assert(ascending(list));
        let to: i64 = threshold.year() as i64 * 12 + threshold.month() as i64;
        let from: i64 = anchor.year() as i64 * 12 + anchor.month() as i64;
        let elapsed: u64 = (to - from) as u64;
        let ghost n = self.interval as int;
        let ghost base = anchor.month_index();
        let ghost first = elapsed as int / n;
        let ghost rounds = 4800int / gcd_of(n, 4800);
        let mut period: u64 = elapsed / self.interval;
        let divisor: u64 = gcd(self.interval, 4_800);
        proof {
            let _ = lemma_cycle(n, 4800);
            lemma_period(elapsed as int, n);
            assert forall|other: Date|
                other.valid() && #[trigger] self@.occurs(anchor, other) && threshold.number()
                    < other.number() implies first <= (other.month_index() - base) / n by {
                lemma_month_order(threshold, other);
                lemma_div_is_ordered(elapsed as int, other.month_index() - base, n);
            }
            assert(first <= elapsed) by (nonlinear_arith)
                requires
                    first * n <= elapsed,
                    n > 0,
                    first >= 0,
            ;
            assert(rounds <= 4800) by (nonlinear_arith)
                requires
                    rounds == 4800int / gcd_of(n, 4800),
                    gcd_of(n, 4800) > 0,
            ;
        }
        let cycle: u64 = 4_800 / divisor + 1;
        let mut round: u64 = 0;
        while round < cycle
            invariant
                self@.well_formed(),
                self@.frequency == Frequency::Monthly,
                n == self.interval,
                n == self@.interval,
                base == anchor.month_index(),
                anchor.valid(),
                threshold.valid(),
                anchor.number() <= threshold.number(),
                list == self@.days(anchor),
                ints(days@) == list,
                ascending(list),
                rounds == 4800int / gcd_of(n, 4800),
                first == (threshold.month_index() - base) / n,
                0 <= first < 100_000_000,
                threshold.month_index() - base < (first + 1) * n,
                cycle == rounds + 1,
                0 < rounds <= 4800,
                round <= cycle,
                period == first + round,
                round > 0 ==> base + (period - 1) * n <= calendar::MAX_YEAR * 12 + 11,
                forall|other: Date|
                    other.valid() && #[trigger] self@.occurs(anchor, other) && threshold.number()
                        < other.number() ==> period <= (other.month_index() - base) / n,
            decreases cycle - round,
        {
            proof {
                assert forall|other: Date|
                    other.valid() && #[trigger] self@.occurs(anchor, other) && threshold.number()
                        < other.number() implies base + period * n <= other.month_index() && ((
                other.month_index() - base) / n > period ==> base + period * n
                    < other.month_index()) by {
                    let q = (other.month_index() - base) / n;
                    lemma_period(other.month_index() - base, n);
                    if q > period {
                        lemma_periods_grow(period as int, q, n);
                    }
                }
                lemma_mod_multiples_basic(period as int, n);
                assert(period * n >= 0) by (nonlinear_arith)
                    requires
                        period >= 0,
                        n > 0,
                ;
                if period < first + rounds {
                    lemma_periods_grow(period as int, first + rounds, n);
                }
                assert(base + period * n > calendar::MAX_YEAR * 12 + 11 ==> !self@.full_search(
                    anchor,
                    threshold,
                ) && self@.ends(anchor, threshold));
            }
            let month_offset: u64 = match period.checked_mul(self.interval) {
                Some(months) => months,
                None => {
                    return Err(date_overflow());
                },
            };
            if month_offset > u32::MAX as u64 {
                return Err(date_overflow());
            }
            let first_day = match anchor.with_day(1) {
                Some(date) => date,
                None => {
                    return Err(date_overflow());
                },
            };
            let month = match first_day.checked_add_months(month_offset as u32) {
                Some(date) => date,
                None => {
                    return Err(date_overflow());
                },
            };
            assert(month.month_index() == base + period * n);
            let mut i: usize = 0;
            while i < days.len()
                invariant
                    self@.frequency == Frequency::Monthly,
                    n == self@.interval,
                    n > 0,
                    base == anchor.month_index(),
                    threshold.valid(),
                    month.valid(),
                    list == self@.days(anchor),
                    ints(days@) == list,
                    ascending(list),
                    i <= days.len(),
                    month.month_index() == base + period * n,
                    period * n >= 0,
                    (period * n) % n == 0,
                    forall|k: int|
                        0 <= k < i && calendar::is_day(month.y(), month.m(), #[trigger] list[k])
                            ==> calendar::day_number(month.y(), month.m(), list[k])
                            <= threshold.number(),
                    forall|other: Date|
                        other.valid() && #[trigger] self@.occurs(anchor, other)
                            && threshold.number() < other.number() ==> period <= (
                        other.month_index() - base) / n && month.month_index()
                            <= other.month_index() && ((other.month_index() - base) / n > period
                            ==> month.month_index() < other.month_index()),
                decreases days.len() - i,
            {
                let day: u32 = days[i];
                assert(list[i as int] == day);
                if let Some(candidate) = month.with_day(day) {
                    if threshold.is_before(&candidate) {
                        proof {
                            assert(candidate.month_index() - base == period * n);
                            assert(list.contains(day as int));
                            assert(self@.occurs(anchor, candidate));
                            assert forall|other: Date|
                                other.valid() && #[trigger] self@.occurs(anchor, other)
                                    && threshold.number()
                                    < other.number() implies candidate.number()
                                <= other.number() by {
                                lemma_month_order(candidate, other);
                                if (other.month_index() - base) / n == period {
                                    lemma_period(other.month_index() - base, n);
                                    let k = list.index_of(other.d());
                                    assert(list[k] == other.d());
                                    assert(other.month_index() == month.month_index());
                                    lemma_month_order(month, other);
                                    assert(calendar::is_day(month.y(), month.m(), list[k]));
                                }
                            }
                        }
                        return Ok(candidate);
                    }
                }
                i += 1;
            }
            proof {
                assert forall|other: Date|
                    other.valid() && #[trigger] self@.occurs(anchor, other) && threshold.number()
                        < other.number() implies period + 1 <= (other.month_index() - base) / n by {
                    if (other.month_index() - base) / n == period {
                        lemma_period(other.month_index() - base, n);
                        let k = list.index_of(other.d());
                        assert(list[k] == other.d());
                        lemma_month_order(month, other);
                        assert(calendar::is_day(month.y(), month.m(), list[k]));
                    }
                }
            }
            period = period + 1;
            round += 1;
        }
        proof {
            assert forall|other: Date|
                other.valid() && #[trigger] self@.occurs(anchor, other) implies other.number()
                <= threshold.number() by {
                lemma_monthly_cycle(self@, anchor, threshold, first, other);
            }
        }
        Err(no_occurrence())
    }
}

/// Where the rule selects no day in a whole cycle of years after the threshold, it selects
/// none at all.
proof fn lemma_yearly_cycle(
    rule: RuleModel,
    anchor: Date,
    threshold: Date,
    first: int,
    other: Date,
)
    requires
        rule.well_formed(),
        rule.frequency == Frequency::Yearly,
        anchor.valid(),
        threshold.valid(),
        threshold.y() - anchor.y() < (first + 1) * rule.interval,
        other.valid(),
        rule.occurs(anchor, other),
        first >= 0,
        forall|date: Date|
            date.valid() && #[trigger] rule.occurs(anchor, date) && threshold.number()
                < date.number() ==> first + 400int / gcd_of(rule.interval, 400) < (date.y()
                - anchor.y()) / rule.interval,
    ensures
        other.number() <= threshold.number(),
    decreases (other.y() - anchor.y()) / rule.interval,
{
    if threshold.number() < other.number() {
        let n = rule.interval;
        let rounds = 400int / gcd_of(n, 400);
        let k = lemma_cycle(n, 400);
        let elapsed = other.y() - anchor.y();
        let q = elapsed / n;
        lemma_period(elapsed, n);
        lemma_calendar_repeats(other.y(), k, other.m());
        let x = q - rounds;
        assert(x * n == elapsed - 400 * k) by (nonlinear_arith)
            requires
                q * n == elapsed,
                rounds * n == 400 * k,
                x == q - rounds,
        ;
        if first + 1 < x {
            lemma_periods_grow(first + 1, x, n);
        }
        let year = other.y() - 400 * k;
        assert(year > threshold.y());
        calendar::lemma_date_of(year, other.m(), other.d());
        let date = Date::of(year, other.m(), other.d());
        assert(date.y() - anchor.y() == x * n);
        lemma_mod_multiples_basic(x, n);
        assert((first + 1) * n <= x * n);
        assert(0 <= x * n) by (nonlinear_arith)
            requires
                n > 0,
                x >= 0,
        ;
        assert(rule.occurs(anchor, date));
        lemma_month_order(threshold, date);
        assert((x * n) / n == x) by (nonlinear_arith)
            requires
                n > 0,
        ;
        lemma_yearly_cycle(rule, anchor, threshold, first, date);
    }
}

impl RecurrenceRule {
    #[verifier::rlimit(60)]
    fn next_yearly(&self, anchor: Date, threshold: Date) -> (r: Result<Date, Error>)
        requires
            self@.frequency == Frequency::Yearly,
            anchor.number() <= threshold.number(),
        ensures
            r matches Ok(date) ==> self@.next(anchor, threshold, date),
            r matches Err(e) ==> {
                &&& self@.ends(anchor, threshold)
                &&& e@ == if self@.full_search(anchor, threshold) {
                    never()
                } else {
                    overflow()
                }
            },
    {
        proof {
            use_type_invariant(self);
            use_type_invariant(&anchor);
            use_type_invariant(&threshold);
            lemma_month_order(anchor, threshold);
        }
        let months = listed_or(&self.by_month, anchor.month());
        let days = listed_or(&self.by_month_day, anchor.day());
        let ghost month_list = self@.months(anchor);
        let ghost day_list = self@.days(anchor);
        assert(ints(months@) == month_list);
        assert(ints(days@) == day_list);
        assert(ascending(month_list));
        assert(ascending(day_list));
        let elapsed: u64 = (threshold.year() - anchor.year()) as u64;
        let ghost n = self.interval as int;
        let ghost first = elapsed as int / n;
        let ghost rounds = 400int / gcd_of(n, 400);
        let mut period: u64 = elapsed / self.interval;
        let divisor: u64 = gcd(self.interval, 400);
        proof {
            let _ = lemma_cycle(n, 400);
            lemma_period(elapsed as int, n);
            assert forall|other: Date|
                other.valid() && #[trigger] self@.occurs(anchor, other) && threshold.number()
                    < other.number() implies first <= (other.y() - anchor.y()) / n by {
                lemma_month_order(threshold, other);
                lemma_div_is_ordered(elapsed as int, other.y() - anchor.y(), n);
            }
            assert(first <= elapsed) by (nonlinear_arith)
                requires
                    first * n <= elapsed,
                    n > 0,
                    first >= 0,
            ;
            assert(rounds <= 400) by (nonlinear_arith)
                requires
                    rounds == 400int / gcd_of(n, 400),
                    gcd_of(n, 400) > 0,
            ;
        }
        let cycle: u64 = 400 / divisor + 1;
        let mut round: u64 = 0;
        while round < cycle
            invariant
                self@.well_formed(),
                self@.frequency == Frequency::Yearly,
                n == self.interval,
                n == self@.interval,
                anchor.valid(),
                threshold.valid(),
                anchor.number() <= threshold.number(),
                month_list == self@.months(anchor),
                ints(months@) == month_list,
                ascending(month_list),
                day_list == self@.days(anchor),
                ints(days@) == day_list,
                ascending(day_list),
                rounds == 400int / gcd_of(n, 400),
                first == (threshold.y() - anchor.y()) / n,
                0 <= first < 100_000_000,
                threshold.y() - anchor.y() < (first + 1) * n,
                cycle == rounds + 1,
                0 < rounds <= 400,
                round <= cycle,
                period == first + round,
                round > 0 ==> (period - 1) * n <= i32::MAX && anchor.y() + (period - 1) * n
                    <= i32::MAX,
                forall|other: Date|
                    other.valid() && #[trigger] self@.occurs(anchor, other) && threshold.number()
                        < other.number() ==> period <= (other.y() - anchor.y()) / n,
            decreases cycle - round,
        {
            proof {
                assert forall|other: Date|
                    other.valid() && #[trigger] self@.occurs(anchor, other) && threshold.number()
                        < other.number() implies anchor.y() + period * n <= other.y() && ((
                other.y() - anchor.y()) / n > period ==> anchor.y() + period * n < other.y()) by {
                    let q = (other.y() - anchor.y()) / n;
                    lemma_period(other.y() - anchor.y(), n);
                    if q > period {
                        lemma_periods_grow(period as int, q, n);
                    }
                }
                lemma_mod_multiples_basic(period as int, n);
                assert(period * n >= 0) by (nonlinear_arith)
                    requires
                        period >= 0,
                        n > 0,
                ;
                if period < first + rounds {
                    lemma_periods_grow(period as int, first + rounds, n);
                }
                assert(period * n > i32::MAX || anchor.y() + period * n > i32::MAX
                    ==> !self@.full_search(anchor, threshold) && self@.ends(anchor, threshold));
            }
            let years: u64 = match period.checked_mul(self.interval) {
                Some(years) => years,
                None => {
                    return Err(date_overflow());
                },
            };
            if years > i32::MAX as u64 {
                return Err(date_overflow());
            }
            let year: i32 = match anchor.year().checked_add(years as i32) {
                Some(year) => year,
                None => {
                    return Err(date_overflow());
                },
            };
            assert(year == anchor.y() + period * n);
            let mut i: usize = 0;
            while i < months.len()
                invariant
                    self@.frequency == Frequency::Yearly,
                    n == self@.interval,
                    n > 0,
                    threshold.valid(),
                    month_list == self@.months(anchor),
                    ints(months@) == month_list,
                    ascending(month_list),
                    day_list == self@.days(anchor),
                    ints(days@) == day_list,
                    ascending(day_list),
                    i <= months.len(),
                    year == anchor.y() + period * n,
                    period * n >= 0,
                    (period * n) % n == 0,
                    forall|a: int, b: int|
                        0 <= a < i && 0 <= b < day_list.len() && calendar::is_date(
                            year as int,
                            #[trigger] month_list[a],
                            #[trigger] day_list[b],
                        ) ==> calendar::day_number(year as int, month_list[a], day_list[b])
                            <= threshold.number(),
                    forall|other: Date|
                        other.valid() && #[trigger] self@.occurs(anchor, other)
                            && threshold.number() < other.number() ==> period <= (other.y()
                            - anchor.y()) / n && year <= other.y() && ((other.y() - anchor.y())
                            / n > period ==> year < other.y()),
                decreases months.len() - i,
            {
                let month: u32 = months[i];
                assert(month_list[i as int] == month);
                let mut j: usize = 0;
                while j < days.len()
                    invariant
                        self@.frequency == Frequency::Yearly,
                        n == self@.interval,
                        n > 0,
                        threshold.valid(),
                        month_list == self@.months(anchor),
                        ints(months@) == month_list,
                        ascending(month_list),
                        day_list == self@.days(anchor),
                        ints(days@) == day_list,
                        ascending(day_list),
                        i < months.len(),
                        j <= days.len(),
                        month == month_list[i as int],
                        year == anchor.y() + period * n,
                        period * n >= 0,
                        (period * n) % n == 0,
                        forall|a: int, b: int|
                            0 <= a < i && 0 <= b < day_list.len() && calendar::is_date(
                                year as int,
                                #[trigger] month_list[a],
                                #[trigger] day_list[b],
                            ) ==> calendar::day_number(year as int, month_list[a], day_list[b])
                                <= threshold.number(),
                        forall|b: int|
                            0 <= b < j && calendar::is_date(
                                year as int,
                                month as int,
                                #[trigger] day_list[b],
                            ) ==> calendar::day_number(year as int, month as int, day_list[b])
                                <= threshold.number(),
                        forall|other: Date|
                            other.valid() && #[trigger] self@.occurs(anchor, other)
                                && threshold.number() < other.number() ==> period <= (other.y()
                                - anchor.y()) / n && year <= other.y() && ((other.y()
                                - anchor.y()) / n > period ==> year < other.y()),
                    decreases days.len() - j,
                {
                    let day: u32 = days[j];
                    assert(day_list[j as int] == day);
                    if let Some(candidate) = Date::from_ymd_opt(year, month, day) {
                        if threshold.is_before(&candidate) {
                            proof {
                                assert(candidate.y() - anchor.y() == period * n);
                                assert(month_list.contains(month as int));
                                assert(day_list.contains(day as int));
                                assert(self@.occurs(anchor, candidate));
                                assert forall|other: Date|
                                    other.valid() && #[trigger] self@.occurs(anchor, other)
                                        && threshold.number()
                                        < other.number() implies candidate.number()
                                    <= other.number() by {
                                    lemma_month_order(candidate, other);
                                    if (other.y() - anchor.y()) / n == period {
                                        lemma_period(other.y() - anchor.y(), n);
                                        let a = month_list.index_of(other.m());
                                        let b = day_list.index_of(other.d());
                                        assert(month_list[a] == other.m());
                                        assert(day_list[b] == other.d());
                                    }
                                }
                            }
                            return Ok(candidate);
                        }
                    }
                    j += 1;
                }
                i += 1;
            }
            proof {
                assert forall|other: Date|
                    other.valid() && #[trigger] self@.occurs(anchor, other) && threshold.number()
                        < other.number() implies period + 1 <= (other.y() - anchor.y()) / n by {
                    if (other.y() - anchor.y()) / n == period {
                        lemma_period(other.y() - anchor.y(), n);
                        let a = month_list.index_of(other.m());
                        let b = day_list.index_of(other.d());
                        assert(month_list[a] == other.m());
                        assert(day_list[b] == other.d());
                    }
                }
            }
            period = period + 1;
            round += 1;
        }
        proof {
            assert forall|other: Date|
                other.valid() && #[trigger] self@.occurs(anchor, other) implies other.number()
                <= threshold.number() by {
                lemma_yearly_cycle(self@, anchor, threshold, first, other);
            }
        }
        Err(no_occurrence())
    }

    /// The first date after the due date, or the day of completion where that is later, that
    /// the rule selects, counted from the due date; or, with the mode `completion`, the first
    /// one after the day of completion, counted from there.
    ///
    /// See [`RuleModel::next_outcome`].
    pub fn next_due(
        &self,
        current_due: Date,
        completed_on: Date,
        mode: RecurrenceMode,
    ) -> (r: Result<Date, Error>)
        ensures
            error::outcome(r) == self@.next_outcome(
                anchor_of(current_due, completed_on, mode),
                threshold_of(current_due, completed_on, mode),
            ),
    {
        let anchor = match mode {
            RecurrenceMode::Schedule => current_due,
            RecurrenceMode::Completion => completed_on,
        };
        let threshold = match mode {
            RecurrenceMode::Schedule => if current_due.is_before(&completed_on) {
                completed_on
            } else {
                current_due
            },
            RecurrenceMode::Completion => completed_on,
        };
        let r = match self.frequency {
            Frequency::Daily => self.next_daily(anchor, threshold),
            Frequency::Weekly => self.next_weekly(anchor, threshold),
            Frequency::Monthly => self.next_monthly(anchor, threshold),
            Frequency::Yearly => self.next_yearly(anchor, threshold),
        };
        proof {
            if let Ok(date) = r {
                assert(self@.next(anchor, threshold, date));
                let next = choose|next: Date| self@.next(anchor, threshold, next);
                next_is_unique(self@, anchor, threshold, date, next);
            } else if self@.ends(anchor, threshold) {
                assert forall|next: Date| !self@.next(anchor, threshold, next) by {}
            }
        }
        r
    }
}

/// The date that the next one is counted from.
pub open spec fn anchor_of(due: Date, completed: Date, mode: RecurrenceMode) -> Date {
    match mode {
        RecurrenceMode::Schedule => due,
        RecurrenceMode::Completion => completed,
    }
}

/// The date that the next one comes after.
pub open spec fn threshold_of(due: Date, completed: Date, mode: RecurrenceMode) -> Date {
    match mode {
        RecurrenceMode::Schedule => if due.number() < completed.number() {
            completed
        } else {
            due
        },
        RecurrenceMode::Completion => completed,
    }
}

/// A date that a rule selects next is later than both the day of completion and, counted
/// from the schedule, the due date; and it meets the rule's lists.
pub proof fn next_is_later_and_matches(
    rule: RuleModel,
    due: Date,
    completed: Date,
    mode: RecurrenceMode,
    date: Date,
)
    requires
        rule.next(anchor_of(due, completed, mode), threshold_of(due, completed, mode), date),
    ensures
        completed.number() < date.number(),
        mode == RecurrenceMode::Schedule ==> due.number() < date.number(),
        rule.matches(date),
{
}

/// There is at most one next date.
pub proof fn next_is_unique(rule: RuleModel, anchor: Date, threshold: Date, a: Date, b: Date)
    requires
        rule.next(anchor, threshold, a),
        rule.next(anchor, threshold, b),
    ensures
        a == b,
{
    calendar::lemma_date_order(a, b);
}

/// A rule that lists nothing selects, however often it is followed from the schedule, dates
/// that keep to the same series: what it selects from a selected date it selects from the
/// first.
pub proof fn daily_series_keeps_alignment(rule: RuleModel, anchor: Date, a: Date, b: Date)
    requires
        rule.well_formed(),
        rule.frequency == Frequency::Daily,
        rule.occurs(anchor, a),
        rule.occurs(a, b),
    ensures
        rule.occurs(anchor, b),
{
    let n = rule.interval;
    let (x, y) = (a.number() - anchor.number(), b.number() - a.number());
    lemma_period(x, n);
    lemma_period(y, n);
    let q = x / n + y / n;
    assert(q * n == x + y) by (nonlinear_arith)
        requires
            x == (x / n) * n,
            y == (y / n) * n,
            q == x / n + y / n,
    ;
    lemma_mod_multiples_basic(q, n);
}

/// The numbers, written out.
pub open spec fn number_texts(numbers: Seq<int>) -> Seq<Seq<char>> {
    numbers.map_values(|n: int| text::decimal(n as nat))
}

/// The days of the week, written out.
pub open spec fn day_texts(numbers: Seq<int>) -> Seq<Seq<char>> {
    numbers.map_values(|n: int| weekday_letters(n))
}

/// A clause with a list, or nothing where the list is empty.
pub open spec fn list_clause(name: Seq<char>, items: Seq<Seq<char>>) -> Seq<char> {
    if items.len() == 0 {
        seq![]
    } else {
        ";"@ + name + "="@ + text::joined(items, ","@)
    }
}

/// A rule as it is written.
pub open spec fn rule_text(rule: RuleModel) -> Seq<char> {
    "FREQ="@ + frequency_word(rule.frequency) + ";INTERVAL="@ + text::decimal(
        rule.interval as nat,
    ) + list_clause("BYDAY"@, day_texts(rule.by_day)) + list_clause(
        "BYMONTHDAY"@,
        number_texts(rule.by_month_day),
    ) + list_clause("BYMONTH"@, number_texts(rule.by_month))
}

fn push_list(s: &mut String, name: &str, items: &Vec<String>)
    ensures
        final(s)@ == old(s)@ + list_clause(name@, text::strings(items@)),
{
    if items.len() > 0 {
        let ghost before = s@;
        s.append(";");
        s.append(name);
        s.append("=");
        let list = text::join(items, ",");
        s.append(list.as_str());
        assert(s@ =~= before + (";"@ + name@ + "="@ + list@));
    } else {
        assert(s@ =~= s@ + Seq::<char>::empty());
    }
}

fn written_numbers(numbers: &Vec<u32>) -> (r: Vec<String>)
    ensures
        text::strings(r@) == number_texts(ints(numbers@)),
{
    let mut r: Vec<String> = Vec::new();
    let mut i: usize = 0;
    while i < numbers.len()
        invariant
            i <= numbers.len(),
            text::strings(r@) == number_texts(ints(numbers@)).take(i as int),
        decreases numbers.len() - i,
    {
        let ghost before = text::strings(r@);
        let item = text::format_number(numbers[i] as u64);
        r.push(item);
        assert(text::strings(r@) == before.push(item@));
        i += 1;
    }
    assert(number_texts(ints(numbers@)).take(i as int) == number_texts(ints(numbers@)));
    r
}

fn written_days(days: &Vec<Weekday>) -> (r: Vec<String>)
    ensures
        text::strings(r@) == day_texts(day_numbers(days@)),
{
    let mut r: Vec<String> = Vec::new();
    let mut i: usize = 0;
    while i < days.len()
        invariant
            i <= days.len(),
            text::strings(r@) == day_texts(day_numbers(days@)).take(i as int),
        decreases days.len() - i,
    {
        let ghost before = text::strings(r@);
        let item = weekday_name(days[i].num_days_from_monday()).to_owned();
        r.push(item);
        assert(text::strings(r@) == before.push(item@));
        i += 1;
    }
    assert(day_texts(day_numbers(days@)).take(i as int) == day_texts(day_numbers(days@)));
    r
}

impl RecurrenceRule {
    /// The rule as it is written.
    #[must_use]
    pub fn to_string(&self) -> (r: String)
        ensures
            r@ == rule_text(self@),
    {
        let frequency = match self.frequency {
            Frequency::Daily => "DAILY",
            Frequency::Weekly => "WEEKLY",
            Frequency::Monthly => "MONTHLY",
            Frequency::Yearly => "YEARLY",
        };
        let mut r = text::join4(
            "FREQ=",
            frequency,
            ";INTERVAL=",
            text::format_number(self.interval).as_str(),
        );
        push_list(&mut r, "BYDAY", &written_days(&self.by_day));
        push_list(&mut r, "BYMONTHDAY", &written_numbers(&self.by_month_day));
        push_list(&mut r, "BYMONTH", &written_numbers(&self.by_month));
        r
    }
}

/// Whether a text has the shape `YYYY-MM-DD`.
pub open spec fn date_shape(value: Seq<char>) -> bool {
    &&& value.len() == 10
    &&& value[4] == '-'
    &&& value[7] == '-'
    &&& forall|i: int|
        0 <= i < 10 && i != 4 && i != 7 ==> text::is_digit(#[trigger] value[i])
}

/// The date that a text writes, where the calendar has it.
pub open spec fn read_date(value: Seq<char>, field: Seq<char>) -> Result<Date, ErrorModel> {
    let year = text::number(value.subrange(0, 4)) as int;
    let month = text::number(value.subrange(5, 7)) as int;
    let day = text::number(value.subrange(8, 10)) as int;
    if !date_shape(value) {
        Err(
            ErrorModel::validation(
                "invalid_date"@,
                field + " must be a date in YYYY-MM-DD format"@,
            ).with_field(field),
        )
    } else if calendar::is_date(year, month, day) {
        Ok(Date::of(year, month, day))
    } else {
        Err(
            ErrorModel::validation(
                "invalid_date"@,
                field + " is not a valid Gregorian calendar date"@,
            ).with_field(field),
        )
    }
}

fn has_date_shape(value: &Vec<char>) -> (r: bool)
    ensures
        r == date_shape(value@),
{
    if value.len() != 10 || value[4] != '-' || value[7] != '-' {
        return false;
    }
    let mut i: usize = 0;
    while i < 10
        invariant
            i <= 10,
            value@.len() == 10,
            forall|k: int|
                0 <= k < i && k != 4 && k != 7 ==> text::is_digit(#[trigger] value@[k]),
        decreases 10 - i,
    {
        if i != 4 && i != 7 && !text::is_digit(value[i]) {
            return false;
        }
        i += 1;
    }
    true
}

/// The date that a text writes.
pub fn parse_date(value: &str, field: &str) -> (r: Result<Date, Error>)
    ensures
        error::outcome(r) == read_date(value@, field@),
{
    let chars = text::chars(value);
    if !has_date_shape(&chars) {
        return Err(
            Error::validation(
                "invalid_date",
                text::join2(field, " must be a date in YYYY-MM-DD format").as_str(),
            ).with_field(field),
        );
    }
    match calendar::parse_ymd(value) {
        Some(date) => Ok(date),
        None => Err(
            Error::validation(
                "invalid_date",
                text::join2(field, " is not a valid Gregorian calendar date").as_str(),
            ).with_field(field),
        ),
    }
}

/// Whether a date can be written as `YYYY-MM-DD`, with a four-digit year.
pub open spec fn writable(date: Date) -> bool {
    0 <= date.y() <= 9999
}

/// The error for a date that `YYYY-MM-DD` cannot write.
pub open spec fn check_date(date: Date, field: Seq<char>) -> Result<(), ErrorModel> {
    if writable(date) {
        Ok(())
    } else {
        Err(
            ErrorModel::validation(
                "invalid_date"@,
                field + " is outside the supported calendar range"@,
            ).with_field(field),
        )
    }
}

/// Refuse a date that `YYYY-MM-DD` cannot write.
pub fn validate_date_value(date: Date, field: &str) -> (r: Result<(), Error>)
    ensures
        error::outcome(r) == check_date(date, field@),
{
    let year: i32 = date.year();
    if 0 <= year && year <= 9999 {
        Ok(())
    } else {
        Err(
            Error::validation(
                "invalid_date",
                text::join2(field, " is outside the supported calendar range").as_str(),
            ).with_field(field),
        )
    }
}

proof fn lemma_two_digits(n: int)
    requires
        0 <= n < 100,
    ensures
        text::number(calendar::two_digits(n)) == n,
        calendar::two_digits(n).len() == 2,
        text::is_digit(calendar::two_digits(n)[0]),
        text::is_digit(calendar::two_digits(n)[1]),
{
    let s = calendar::two_digits(n);
    assert(s.drop_last() =~= seq![s[0]]);
    assert(s.drop_last().drop_last() =~= Seq::<char>::empty());
    assert(text::number(s.drop_last().drop_last()) == 0);
    assert(text::number(s.drop_last()) == n / 10);
}

/// A date that is written as `YYYY-MM-DD` is read back as it was.
pub proof fn written_dates_are_read_back(date: Date, field: Seq<char>)
    requires
        date.valid(),
        writable(date),
    ensures
        read_date(calendar::date_text(date.y(), date.m(), date.d()), field) == Ok::<
            Date,
            ErrorModel,
        >(date),
{
    let (y, m, d) = (date.y(), date.m(), date.d());
    let (a, b) = (calendar::two_digits(y / 100), calendar::two_digits(y % 100));
    let (c, e) = (calendar::two_digits(m), calendar::two_digits(d));
    lemma_two_digits(y / 100);
    lemma_two_digits(y % 100);
    lemma_two_digits(m);
    lemma_two_digits(d);
    let s = calendar::date_text(y, m, d);
    assert(s =~= a + b + seq!['-'] + c + seq!['-'] + e);
    assert(s.subrange(5, 7) =~= c);
    assert(s.subrange(8, 10) =~= e);
    let year = s.subrange(0, 4);
    assert(year =~= a + b);
    assert(year.drop_last() =~= a.push(b[0]));
    assert(year.drop_last().drop_last() =~= a);
    assert(b.drop_last() =~= seq![b[0]]);
    assert(b.drop_last().drop_last() =~= Seq::<char>::empty());
    assert(text::number(b.drop_last().drop_last()) == 0);
    let (b0, b1) = (b[0] as int - '0' as int, b[1] as int - '0' as int);
    assert(text::number(b.drop_last()) == b0);
    assert(text::number(b) == b0 * 10 + b1);
    assert(text::number(year.drop_last()) == text::number(a) * 10 + b0);
    assert(year.last() == b[1]);
    assert(text::number(year) == (text::number(a) * 10 + b0) * 10 + b1);
    assert(text::number(year) == y);
    assert(date_shape(s));
    calendar::lemma_date_of(y, m, d);
    calendar::lemma_same_date(date, Date::of(y, m, d));
}

/// A list that grows is what is in order in it.
proof fn lemma_in_order_is_list(s: Seq<int>, k: int, hi: int, at: int)
    requires
        ascending(s),
        0 <= at <= s.len(),
        forall|i: int| 0 <= i < at ==> #[trigger] s[i] < k,
        forall|i: int| at <= i < s.len() ==> k <= #[trigger] s[i] <= hi,
    ensures
        in_order(s, k, hi) == s.subrange(at, s.len() as int),
    decreases hi - k + 1,
{
    if k <= hi {
        if at < s.len() && s[at] == k {
            lemma_in_order_is_list(s, k + 1, hi, at + 1);
            assert(s.contains(k));
            assert(seq![k] + s.subrange(at + 1, s.len() as int) =~= s.subrange(
                at,
                s.len() as int,
            ));
        } else {
            if s.contains(k) {
                let i = s.index_of(k);
                assert(s[i] == k);
            }
            lemma_in_order_is_list(s, k + 1, hi, at);
        }
    } else {
        if at < s.len() {
            assert(k <= s[at] <= hi);
        }
        assert(s.subrange(at, s.len() as int) =~= Seq::<int>::empty());
    }
}

/// Items that are written from numbers stand for those numbers.
proof fn lemma_listed_back(
    listed: Listed,
    clause: Seq<char>,
    items: Seq<Seq<char>>,
    numbers: Seq<int>,
    i: int,
)
    requires
        items.len() == numbers.len(),
        ascending(numbers),
        0 <= i <= numbers.len(),
        forall|k: int|
            0 <= k < numbers.len() ==> (#[trigger] items[k]).len() > 0 && item_number(
                listed,
                clause,
                items[k],
            ) == Ok::<int, ErrorModel>(numbers[k]),
    ensures
        listed_numbers(listed, clause, items, i, numbers.take(i)) == Ok::<Seq<int>, ErrorModel>(
            numbers,
        ),
    decreases numbers.len() - i,
{
    if i < numbers.len() {
        assert(!numbers.take(i).contains(numbers[i]));
        assert(numbers.take(i).push(numbers[i]) == numbers.take(i + 1));
        assert(items[i].len() > 0);
        lemma_listed_back(listed, clause, items, numbers, i + 1);
    } else {
        assert(numbers.take(i) == numbers);
    }
}

/// Text without small letters is its own capital form.
proof fn lemma_upper_same(s: Seq<char>)
    requires
        forall|i: int| 0 <= i < s.len() ==> !text::is_lower(#[trigger] s[i]),
    ensures
        text::upper(s) == s,
{
    assert(text::upper(s) =~= s);
}

/// Whether a text holds nothing but capitals, digits and commas.
spec fn plain(s: Seq<char>) -> bool {
    forall|i: int|
        0 <= i < s.len() ==> text::is_upper(#[trigger] s[i]) || text::is_digit(s[i]) || s[i] == ','
}

proof fn lemma_plain_joined(items: Seq<Seq<char>>)
    requires
        forall|i: int| 0 <= i < items.len() ==> plain(#[trigger] items[i]),
        items.len() > 0,
        forall|i: int| 0 <= i < items.len() ==> (#[trigger] items[i]).len() > 0,
    ensures
        plain(text::joined(items, seq![','])),
        text::joined(items, seq![',']).len() > 0,
    decreases items.len(),
{
    if items.len() > 1 {
        lemma_plain_joined(items.drop_last());
        assert(plain(items.last()));
    }
}

proof fn lemma_comma()
    ensures
        ","@ == seq![','],
        ";"@ == seq![';'],
        "="@ == seq!['='],
{
    reveal_strlit(",");
    reveal_strlit(";");
    reveal_strlit("=");
    assert(","@ =~= seq![',']);
    assert(";"@ =~= seq![';']);
    assert("="@ =~= seq!['=']);
}

proof fn lemma_weekday_letters(n: int)
    requires
        0 <= n <= 6,
    ensures
        weekday_of(weekday_letters(n)) == Some(n),
        weekday_letters(n).len() == 2,
        text::is_upper(weekday_letters(n)[0]),
        text::is_upper(weekday_letters(n)[1]),
{
    reveal_strlit("MO");
    reveal_strlit("TU");
    reveal_strlit("WE");
    reveal_strlit("TH");
    reveal_strlit("FR");
    reveal_strlit("SA");
    reveal_strlit("SU");
    assert("MO"@[0] == 'M');
    assert("TU"@[0] == 'T' && "TU"@[1] == 'U');
    assert("WE"@[0] == 'W');
    assert("TH"@[0] == 'T' && "TH"@[1] == 'H');
    assert("FR"@[0] == 'F');
    assert("SA"@[0] == 'S' && "SA"@[1] == 'A');
    assert("SU"@[0] == 'S' && "SU"@[1] == 'U');
}

/// A written list of days is read back as it was.
proof fn lemma_days_read_back(numbers: Seq<int>)
    requires
        selection(numbers, 0, 6),
        numbers.len() > 0,
    ensures
        parse_list(Listed::Days, "BYDAY"@, text::joined(day_texts(numbers), ","@)) == Ok::<
            Seq<int>,
            ErrorModel,
        >(numbers),
        plain(text::joined(day_texts(numbers), ","@)),
        text::joined(day_texts(numbers), ","@).len() > 0,
{
    lemma_comma();
    let items = day_texts(numbers);
    assert forall|k: int| 0 <= k < numbers.len() implies (#[trigger] items[k]).len() > 0
        && item_number(Listed::Days, "BYDAY"@, items[k]) == Ok::<int, ErrorModel>(numbers[k])
        && plain(items[k]) && !items[k].contains(',') by {
        lemma_weekday_letters(numbers[k]);
        assert(items[k] == weekday_letters(numbers[k]));
    }
    lemma_plain_joined(items);
    text::lemma_split_joined(items, ',');
    lemma_listed_back(Listed::Days, "BYDAY"@, items, numbers, 0);
    assert(numbers.take(0) =~= Seq::<int>::empty());
    lemma_in_order_is_list(numbers, 0, 6, 0);
    assert(numbers.subrange(0, numbers.len() as int) =~= numbers);
}

/// A written list of numbers is read back as it was.
proof fn lemma_numbers_read_back(numbers: Seq<int>, lo: u32, hi: u32, clause: Seq<char>)
    requires
        selection(numbers, lo as int, hi as int),
        numbers.len() > 0,
    ensures
        parse_list(
            Listed::Numbers { lo, hi },
            clause,
            text::joined(number_texts(numbers), ","@),
        ) == Ok::<Seq<int>, ErrorModel>(numbers),
        plain(text::joined(number_texts(numbers), ","@)),
        text::joined(number_texts(numbers), ","@).len() > 0,
{
    lemma_comma();
    let items = number_texts(numbers);
    let listed = Listed::Numbers { lo, hi };
    assert forall|k: int| 0 <= k < numbers.len() implies (#[trigger] items[k]).len() > 0
        && item_number(listed, clause, items[k]) == Ok::<int, ErrorModel>(numbers[k]) && plain(
        items[k],
    ) && !items[k].contains(',') by {
        text::lemma_decimal(numbers[k] as nat);
        assert(items[k] == text::decimal(numbers[k] as nat));
        assert(text::is_digit(items[k][0]));
        if text::begins(items[k], seq!['-']) {
            assert(items[k].subrange(0, 1)[0] == '-');
        }
        assert forall|j: int| 0 <= j < items[k].len() implies items[k][j] != ',' by {
            assert(text::is_digit(items[k][j]));
        }
    }
    lemma_plain_joined(items);
    text::lemma_split_joined(items, ',');
    lemma_listed_back(listed, clause, items, numbers, 0);
    assert(numbers.take(0) =~= Seq::<int>::empty());
    lemma_in_order_is_list(numbers, lo as int, hi as int, 0);
    assert(numbers.subrange(0, numbers.len() as int) =~= numbers);
}

/// A clause made of a capital name and a plain value is read as that name and value.
proof fn lemma_clause_read(seen: Clauses, name: Seq<char>, value: Seq<char>)
    requires
        name.len() > 0,
        forall|i: int| 0 <= i < name.len() ==> text::is_upper(#[trigger] name[i]),
        plain(value),
        value.len() > 0,
        !seen.names.contains(name),
    ensures
        with_clause(seen, name + seq!['='] + value) == with_value(seen, name, value),
        !(name + seq!['='] + value).contains(';'),
{
    let clause = name + seq!['='] + value;
    text::lemma_find_from(clause, '=', 0);
    let at = text::find_from(clause, '=', 0);
    assert(clause[name.len() as int] == '=');
    if at < name.len() {
        assert(clause[at] == name[at]);
    }
    assert(at == name.len());
    assert(clause.subrange(0, at) =~= name);
    assert(clause.subrange(at + 1, clause.len() as int) =~= value);
    assert forall|i: int| 0 <= i < value.len() implies value[i] != '=' by {}
    lemma_upper_same(name);
    lemma_upper_same(value);
    assert forall|i: int| 0 <= i < clause.len() implies clause[i] != ';' by {
        if i < name.len() {
            assert(clause[i] == name[i]);
        } else if i > name.len() {
            assert(clause[i] == value[i - name.len() - 1]);
        }
    }
}

proof fn lemma_clause_names()
    ensures
        "FREQ"@.len() == 4,
        "INTERVAL"@.len() == 8,
        "BYDAY"@.len() == 5,
        "BYMONTHDAY"@.len() == 10,
        "BYMONTH"@.len() == 7,
        forall|i: int| 0 <= i < 4 ==> text::is_upper(#[trigger] "FREQ"@[i]),
        forall|i: int| 0 <= i < 8 ==> text::is_upper(#[trigger] "INTERVAL"@[i]),
        forall|i: int| 0 <= i < 5 ==> text::is_upper(#[trigger] "BYDAY"@[i]),
        forall|i: int| 0 <= i < 10 ==> text::is_upper(#[trigger] "BYMONTHDAY"@[i]),
        forall|i: int| 0 <= i < 7 ==> text::is_upper(#[trigger] "BYMONTH"@[i]),
        "FREQ="@ == "FREQ"@ + seq!['='],
        ";INTERVAL="@ == seq![';'] + "INTERVAL"@ + seq!['='],
{
    reveal_strlit("FREQ");
    reveal_strlit("INTERVAL");
    reveal_strlit("BYDAY");
    reveal_strlit("BYMONTHDAY");
    reveal_strlit("BYMONTH");
    reveal_strlit("FREQ=");
    reveal_strlit(";INTERVAL=");
    assert("FREQ="@ =~= "FREQ"@ + seq!['=']);
    assert(";INTERVAL="@ =~= seq![';'] + "INTERVAL"@ + seq!['=']);
}

proof fn lemma_frequency_word(frequency: Frequency)
    ensures
        parse_frequency(frequency_word(frequency)) == Ok::<Frequency, ErrorModel>(frequency),
        frequency_word(frequency).len() > 0,
        plain(frequency_word(frequency)),
{
    reveal_strlit("DAILY");
    reveal_strlit("WEEKLY");
    reveal_strlit("MONTHLY");
    reveal_strlit("YEARLY");
    assert("DAILY"@.len() == 5);
    assert("WEEKLY"@.len() == 6 && "WEEKLY"@[0] == 'W');
    assert("MONTHLY"@.len() == 7);
    assert("YEARLY"@.len() == 6 && "YEARLY"@[0] == 'Y');
}

/// The clauses that a rule is written with.
spec fn rule_clauses(rule: RuleModel) -> Seq<Seq<char>> {
    let first = seq![
        "FREQ"@ + seq!['='] + frequency_word(rule.frequency),
        "INTERVAL"@ + seq!['='] + text::decimal(rule.interval as nat),
    ];
    let days = if rule.by_day.len() == 0 {
        seq![]
    } else {
        seq!["BYDAY"@ + seq!['='] + text::joined(day_texts(rule.by_day), ","@)]
    };
    let month_days = if rule.by_month_day.len() == 0 {
        seq![]
    } else {
        seq!["BYMONTHDAY"@ + seq!['='] + text::joined(number_texts(rule.by_month_day), ","@)]
    };
    let months = if rule.by_month.len() == 0 {
        seq![]
    } else {
        seq!["BYMONTH"@ + seq!['='] + text::joined(number_texts(rule.by_month), ","@)]
    };
    first + days + month_days + months
}

/// Joining one more text adds the separator and the text.
proof fn lemma_joined_push(items: Seq<Seq<char>>, item: Seq<char>, separator: Seq<char>)
    requires
        items.len() > 0,
    ensures
        text::joined(items.push(item), separator) == text::joined(items, separator) + separator
            + item,
{
    assert(items.push(item).drop_last() =~= items);
}

/// A written rule is its clauses joined.
proof fn lemma_rule_text_joined(rule: RuleModel)
    ensures
        rule_text(rule) == text::joined(rule_clauses(rule), seq![';']),
{
    lemma_comma();
    lemma_clause_names();
    let semi = seq![';'];
    let c0 = "FREQ"@ + seq!['='] + frequency_word(rule.frequency);
    let c1 = "INTERVAL"@ + seq!['='] + text::decimal(rule.interval as nat);
    let s0 = seq![c0];
    assert(text::joined(s0, semi) == c0);
    let s1 = s0.push(c1);
    lemma_joined_push(s0, c1, semi);
    let t1 = "FREQ="@ + frequency_word(rule.frequency) + ";INTERVAL="@ + text::decimal(
        rule.interval as nat,
    );
    assert(text::joined(s1, semi) =~= t1);
    let d = "BYDAY"@ + seq!['='] + text::joined(day_texts(rule.by_day), ","@);
    let s2 = if rule.by_day.len() == 0 {
        s1
    } else {
        s1.push(d)
    };
    lemma_joined_push(s1, d, semi);
    let t2 = t1 + list_clause("BYDAY"@, day_texts(rule.by_day));
    assert(text::joined(s2, semi) =~= t2);
    let md = "BYMONTHDAY"@ + seq!['='] + text::joined(number_texts(rule.by_month_day), ","@);
    let s3 = if rule.by_month_day.len() == 0 {
        s2
    } else {
        s2.push(md)
    };
    lemma_joined_push(s2, md, semi);
    let t3 = t2 + list_clause("BYMONTHDAY"@, number_texts(rule.by_month_day));
    assert(text::joined(s3, semi) =~= t3);
    let mo = "BYMONTH"@ + seq!['='] + text::joined(number_texts(rule.by_month), ","@);
    let s4 = if rule.by_month.len() == 0 {
        s3
    } else {
        s3.push(mo)
    };
    lemma_joined_push(s3, mo, semi);
    let t4 = t3 + list_clause("BYMONTH"@, number_texts(rule.by_month));
    assert(text::joined(s4, semi) =~= t4);
    assert(s4 =~= rule_clauses(rule));
}

/// A rule that is written out is read back as it was.
pub proof fn written_rules_are_read_back(rule: RuleModel)
    requires
        rule.well_formed(),
    ensures
        parse_rule(rule_text(rule)) == Ok::<RuleModel, ErrorModel>(rule),
{
    lemma_comma();
    lemma_clause_names();
    lemma_frequency_word(rule.frequency);
    let number = text::decimal(rule.interval as nat);
    text::lemma_decimal(rule.interval as nat);
    assert(plain(number)) by {
        assert forall|i: int| 0 <= i < number.len() implies text::is_digit(#[trigger] number[i]) by {}
    }
    let all = rule_clauses(rule);
    let k0 = no_clauses();
    lemma_clause_read(k0, "FREQ"@, frequency_word(rule.frequency));
    let k1 = Clauses {
        names: seq!["FREQ"@],
        frequency: Some(rule.frequency),
        ..k0
    };
    assert(k0.names.push("FREQ"@) =~= k1.names);
    assert(with_clause(k0, all[0]) == Ok::<Clauses, ErrorModel>(k1));
    lemma_clause_read(k1, "INTERVAL"@, number);
    let k2 = Clauses { names: seq!["FREQ"@, "INTERVAL"@], interval: rule.interval, ..k1 };
    assert(k1.names.push("INTERVAL"@) =~= k2.names);
    assert(with_clause(k1, all[1]) == Ok::<Clauses, ErrorModel>(k2));
    let days = text::joined(day_texts(rule.by_day), ","@);
    let month_days = text::joined(number_texts(rule.by_month_day), ","@);
    let months = text::joined(number_texts(rule.by_month), ","@);
    if rule.by_day.len() > 0 {
        lemma_days_read_back(rule.by_day);
        lemma_clause_read(k2, "BYDAY"@, days);
    }
    let k3 = Clauses { names: k2.names.push("BYDAY"@), by_day: rule.by_day, ..k2 };
    let k4 = Clauses {
        names: k2.names.push("BYMONTHDAY"@),
        by_month_day: rule.by_month_day,
        ..k2
    };
    if rule.by_month_day.len() > 0 {
        lemma_numbers_read_back(rule.by_month_day, 1, 31, "BYMONTHDAY"@);
        lemma_clause_read(k2, "BYMONTHDAY"@, month_days);
    }
    if rule.by_month.len() > 0 {
        lemma_numbers_read_back(rule.by_month, 1, 12, "BYMONTH"@);
        lemma_clause_read(k2, "BYMONTH"@, months);
        if rule.by_month_day.len() > 0 {
            lemma_clause_read(k4, "BYMONTH"@, months);
        }
    }
    lemma_rule_text_joined(rule);
    assert forall|i: int| 0 <= i < all.len() implies !(#[trigger] all[i]).contains(';') by {}
    text::lemma_split_joined(all, ';');
    reveal_with_fuel(with_clauses, 5);
    assert(rule_text(rule).len() > 0) by {
        assert(rule_text(rule)[0] == "FREQ="@[0]);
    }
    assert(rule.by_day.len() == 0 ==> rule.by_day =~= Seq::<int>::empty());
    assert(rule.by_month_day.len() == 0 ==> rule.by_month_day =~= Seq::<int>::empty());
    assert(rule.by_month.len() == 0 ==> rule.by_month =~= Seq::<int>::empty());
}

} // verus!
