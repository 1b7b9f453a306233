//! Calendar days: dates, the stored text of a meal slot, and the assembly of a
//! gap-free run of days from the days that are stored.

use vstd::prelude::*;
use chrono::Datelike;
use crate::decimal::{
    Quantity, int_text, quantity_text, parsed_id, parsed_quantity, parse_id,
    parse_quantity_chars, push_int, push_quantity, lemma_int_text, lemma_quantity_text,
};
use crate::food::{Food, FoodView};
use crate::text::{
    join, split_at, split_at_char, contains_seq, lemma_free_of_char, lemma_split_of_join,
    chars_of, string_of, push_all,
};

verus! {

/// The day number of the first date that can be represented.
pub const MIN_DAY: i32 = -95746129;

/// The day number of the last date that can be represented.
pub const MAX_DAY: i32 = 95745399;

/// A calendar date, held as its day number: 0001-01-01 is day 1.
#[derive(Debug, Clone, Copy, PartialEq, Eq, Structural)]
pub struct Date {
    day: i32,
}

impl View for Date {
    type V = int;

    closed spec fn view(&self) -> int {
        self.day as int
    }
}

impl Date {
    #[verifier::type_invariant]
    spec fn in_range(self) -> bool {
        MIN_DAY <= self.day <= MAX_DAY
    }

    /// The date with the given day number, where there is one.
    pub fn from_day_number(n: i32) -> (r: Option<Date>)
        ensures
            r is Some <==> MIN_DAY <= n <= MAX_DAY,
            r matches Some(d) ==> d@ == n,
    {
        if MIN_DAY <= n && n <= MAX_DAY {
            Some(Date { day: n })
        } else {
            None
        }
    }

    /// The day number: 0001-01-01 is day 1.
    pub fn day_number(&self) -> (r: i32)
        ensures
            r == self@,
            MIN_DAY <= r <= MAX_DAY,
    {
        proof {
            use_type_invariant(self);
        }
        self.day
    }
}

impl Date {
    /// The date `k` days later (earlier for a negative `k`), where there is one.
    pub fn add_days(self, k: i32) -> (r: Option<Date>)
        ensures
            r is Some <==> MIN_DAY <= self@ + k <= MAX_DAY,
            r matches Some(d) ==> d@ == self@ + k,
    {
        let n = self.day_number() as i64 + k as i64;
        if MIN_DAY as i64 <= n && n <= MAX_DAY as i64 {
            Some(Date { day: n as i32 })
        } else {
            None
        }
    }
}

/// The weekday of day number `n`, counted from Monday (0) to Sunday (6);
/// 0001-01-01 was a Monday.
pub open spec fn weekday_of(n: int) -> int {
    (n + 6) % 7
}

/// Relies on chrono's `Datelike::weekday` and `Weekday::num_days_from_monday`:
/// the weekday of a date, counted from Monday.
#[verifier::external_body]
fn weekday(d: Date) -> (r: u32)
    ensures
        r == weekday_of(d@),
{
    match chrono::NaiveDate::from_num_days_from_ce_opt(d.day) {
        Some(n) => n.weekday().num_days_from_monday(),
        None => 0,
    }
}

pub uninterp spec fn iso_text_of(n: int) -> Seq<char>;

/// Relies on chrono's `NaiveDate::format` with `"%Y-%m-%d"`: the text depends on
/// the date alone.
#[verifier::external_body]
fn iso_text(d: Date) -> (r: String)
    ensures
        r@ == iso_text_of(d@),
{
    match chrono::NaiveDate::from_num_days_from_ce_opt(d.day) {
        Some(n) => n.format("%Y-%m-%d").to_string(),
        None => String::new(),
    }
}

/// The Saturday that follows `today` (a week later when `today` is a
/// Saturday), where there is one.
pub fn get_next_saturday(today: Date) -> (r: Option<Date>)
    ensures
        r is Some <==> today@ + 7 - weekday_of(today@ + 2) <= MAX_DAY,
        r matches Some(s) ==> {
            &&& weekday_of(s@) == 5
            &&& today@ < s@ <= today@ + 7
            &&& forall|n: int| today@ < n < s@ ==> weekday_of(n) != 5
        },
{
    let _ = today.day_number();
    let w = weekday(today);
    // Days to the next Saturday: 1 to 7.
    let ahead: i32 = if w == 5 {
        7
    } else if w < 5 {
        (5 - w) as i32
    } else {
        (12 - w) as i32
    };
    assert(ahead == 7 - weekday_of(today@ + 2));
    today.add_days(ahead)
}

/// The Monday of the week of `d`, where there is one.
pub fn week_start(d: Date) -> (r: Option<Date>)
    ensures
        r is Some <==> MIN_DAY <= d@ - weekday_of(d@),
        r matches Some(m) ==> m@ == d@ - weekday_of(d@) && weekday_of(m@) == 0,
{
    let _ = d.day_number();
    let w = weekday(d);
    d.add_days(-(w as i32))
}

/// The dates of the seven days from `first` on as `YYYY-MM-DD`, as far as
/// dates go.
pub fn week_to_day_strings(first: Date) -> (r: Vec<String>)
    ensures
        r@.len() == (if first@ + 6 <= MAX_DAY {
            7
        } else {
            MAX_DAY - first@ + 1
        }),
        forall|k: int| 0 <= k < r@.len() ==> (#[trigger] r@[k])@ == iso_text_of(first@ + k),
{
    let _ = first.day_number();
    let mut r: Vec<String> = Vec::new();
    let mut k: i32 = 0;
    while k < 7
        invariant
            0 <= k <= 7,
            r@.len() == k,
            forall|j: int| 0 <= j < k ==> (#[trigger] r@[j])@ == iso_text_of(first@ + j),
            first@ + k - 1 <= MAX_DAY,
            MIN_DAY <= first@ <= MAX_DAY,
        decreases 7 - k,
    {
        match first.add_days(k) {
            Some(d) => {
                r.push(iso_text(d));
            },
            None => {
                return r;
            },
        }
        k = k + 1;
    }
    r
}

/// The three weeks the calendar shows around `today`: from the Monday of the
/// week before to the Monday three weeks after it (excluded).
pub fn calendar_window(today: Date) -> (r: Option<(Date, Date)>)
    ensures
        r matches Some((from, to)) ==> {
            &&& from@ == today@ - weekday_of(today@) - 7
            &&& to@ == from@ + 21
        },
        r is None ==> !(MIN_DAY <= today@ - weekday_of(today@) - 7 && today@ - weekday_of(today@)
            + 14 <= MAX_DAY),
{
    let monday = match week_start(today) {
        Some(m) => m,
        None => return None,
    };
    let from = match monday.add_days(-7) {
        Some(d) => d,
        None => return None,
    };
    let to = match monday.add_days(14) {
        Some(d) => d,
        None => return None,
    };
    Some((from, to))
}

/// How many portions a meal needs: the recipe's portions times the factor,
/// in thousandths of a portion.
pub fn mult_portions(portions: &i32, factor: &Quantity) -> (r: i128)
    ensures
        r == *portions as int * factor.thousandths as int,
{
    let p = *portions as i128;
    let f = factor.thousandths as i128;
    assert(-2147483648 * 18446744073709551615 <= p * f <= 2147483647 * 18446744073709551615) by (nonlinear_arith)
        requires
            -2147483648 <= p <= 2147483647,
            0 <= f <= 18446744073709551615,
    ;
    p * f
}

pub uninterp spec fn iso_date_of(s: Seq<char>) -> Option<int>;

/// Relies on chrono's `NaiveDate::parse_from_str` with `"%Y-%m-%d"`: whether the
/// text is a date, and which, depends on the text alone.
#[verifier::external_body]
fn parse_iso_date(s: &str) -> (r: Option<Date>)
    ensures
        match r {
            Some(d) => iso_date_of(s@) == Some(d@),
            None => iso_date_of(s@) is None,
        },
{
    match chrono::NaiveDate::parse_from_str(s, "%Y-%m-%d") {
        Ok(n) => Some(Date { day: n.num_days_from_ce() }),
        Err(_) => None,
    }
}

/// Why a shopping list request cannot be served.
#[derive(Debug, Clone, Copy, PartialEq, Eq, Structural)]
pub enum ParamError {
    NoDefault,
    NoDate,
    BadDate,
}

/// Reads the query of a shopping list request: whether to start from the
/// default items, and the last date whose meals count.
pub fn shopping_list_request(params: &crate::shopping::ShoppingListParams) -> (r: Result<(bool, Date), ParamError>)
    ensures
        params.default is None ==> r == Err::<(bool, Date), ParamError>(ParamError::NoDefault),
        params.default is Some && params.date is None ==> r == Err::<(bool, Date), ParamError>(ParamError::NoDate),
        match (params.default, params.date) {
            (Some(b), Some(t)) => match r {
                Ok((b2, d)) => b2 == b && iso_date_of(t@) == Some(d@),
                Err(e) => e == ParamError::BadDate && iso_date_of(t@) is None,
            },
            _ => true,
        },
{
    let default = match params.default {
        Some(b) => b,
        None => return Err(ParamError::NoDefault),
    };
    let text = match &params.date {
        Some(t) => t,
        None => return Err(ParamError::NoDate),
    };
    match parse_iso_date(text.as_str()) {
        Some(d) => Ok((default, d)),
        None => Err(ParamError::BadDate),
    }
}

/// Relies on chrono's `NaiveDate::succ_opt`: the next date has the next day number
/// (`num_days_from_ce`), and the last date that chrono represents has none.
#[verifier::external_body]
fn next_day(d: Date) -> (r: Option<Date>)
    ensures
        d@ < MAX_DAY ==> r == Some(Date { day: (d@ + 1) as i32 }),
        d@ == MAX_DAY ==> r is None,
{
    chrono::NaiveDate::from_num_days_from_ce_opt(d.day).and_then(|n| n.succ_opt()).map(
        |n| Date { day: n.num_days_from_ce() },
    )
}

/// One calendar day with the foods planned for lunch and dinner, each with the
/// factor by which its recipe is scaled.
#[derive(Debug)]
pub struct Day {
    pub id: Option<i32>,
    pub date: Date,
    pub lunch: Vec<(Food, Quantity)>,
    pub dinner: Vec<(Food, Quantity)>,
}

/// A day as clients send it: the foods of each slot by identity.
#[derive(Debug, Clone)]
pub struct ResponseDay {
    pub id: Option<i32>,
    pub date: Date,
    pub lunch: Vec<(i32, Quantity)>,
    pub dinner: Vec<(i32, Quantity)>,
}

/// A day that is not stored: no identity, nothing planned.
pub open spec fn is_placeholder(d: Day, date: Date) -> bool {
    &&& d.id is None
    &&& d.date == date
    &&& d.lunch@.len() == 0
    &&& d.dinner@.len() == 0
}

impl Day {
    /// An empty day for `date`.
    pub fn new(date: Date) -> (r: Day)
        ensures
            is_placeholder(r, date),
    {
        Day { id: None, date, lunch: Vec::new(), dinner: Vec::new() }
    }
}

/// The days are in strictly ascending order of date, and every date lies in `[from, to)`.
pub open spec fn ordered_within(days: Seq<Day>, from: int, to: int) -> bool {
    &&& forall|i: int, j: int| 0 <= i < j < days.len() ==> days[i].date@ < days[j].date@
    &&& forall|i: int| 0 <= i < days.len() ==> from <= #[trigger] days[i].date@ < to
}

/// Some stored day has the day number `n`.
pub open spec fn stored_on(days: Seq<Day>, n: int) -> bool {
    exists|i: int| 0 <= i < days.len() && days[i].date@ == n
}

/// Whether the days are in strictly ascending order of date, all in `[from, to)`.
pub fn days_ordered_within(days: &Vec<Day>, from: Date, to: Date) -> (r: bool)
    ensures
        r == ordered_within(days@, from@, to@),
{
    let mut i: usize = 0;
    while i < days.len()
        invariant
            i <= days@.len(),
            forall|a: int, b: int| 0 <= a < b < i ==> days@[a].date@ < days@[b].date@,
            forall|a: int| 0 <= a < i ==> from@ <= #[trigger] days@[a].date@ < to@,
        decreases days@.len() - i,
    {
        let n = days[i].date.day_number();
        if n < from.day_number() || n >= to.day_number() {
            return false;
        }
        if i > 0 && days[i - 1].date.day_number() >= n {
            return false;
        }
        i = i + 1;
    }
    true
}

/// Assembles the days from `from` up to `to` (excluded), one per date in
/// ascending order: a stored day where there is one, unchanged, and an empty
/// placeholder elsewhere.
pub fn assemble_days(existing: Vec<Day>, from: Date, to: Date) -> (r: Vec<Day>)
    requires
        ordered_within(existing@, from@, to@),
    ensures
        r@.len() == (if from@ < to@ {
            to@ - from@
        } else {
            0
        }),
        forall|k: int| 0 <= k < r@.len() ==> (#[trigger] r@[k]).date@ == from@ + k,
        forall|i: int|
            0 <= i < existing@.len() ==> r@[#[trigger] existing@[i].date@ - from@]
                == existing@[i],
        forall|k: int|
            0 <= k < r@.len() && !stored_on(existing@, from@ + k) ==> is_placeholder(
                #[trigger] r@[k],
                r@[k].date,
            ),
{
    let ghost orig = existing@;
    let ghost n = orig.len();
    let mut existing = existing;
    // Reverse, so that the earliest stored day is the last element.
    let mut rest: Vec<Day> = Vec::new();
    while existing.len() > 0
        invariant
            n == orig.len(),
            existing@.len() <= n,
            existing@ == orig.subrange(0, existing@.len() as int),
            rest@.len() == n - existing@.len(),
            forall|j: int| 0 <= j < rest@.len() ==> #[trigger] rest@[j] == orig[n - 1 - j],
        decreases existing@.len(),
    {
        let ghost len = existing@.len();
        let d = existing.pop().unwrap();
        assert(d == orig[len - 1]);
        rest.push(d);
        assert(existing@ =~= orig.subrange(0, existing@.len() as int));
    }
    let mut out: Vec<Day> = Vec::new();
    let mut cursor = from;
    let ghost mut c: int = 0;
    let last = to.day_number();
    while cursor.day_number() < to.day_number()
        invariant
            0 <= c <= n,
            n == orig.len(),
            ordered_within(orig, from@, to@),
            to@ <= MAX_DAY,
            from@ <= cursor@,
            from@ < to@ ==> cursor@ <= to@,
            from@ >= to@ ==> cursor@ == from@,
            out@.len() == cursor@ - from@,
            rest@.len() == n - c,
            forall|j: int| 0 <= j < rest@.len() ==> #[trigger] rest@[j] == orig[n - 1 - j],
            forall|i: int| 0 <= i < c ==> (#[trigger] orig[i]).date@ < cursor@,
            forall|i: int| c <= i < n ==> (#[trigger] orig[i]).date@ >= cursor@,
            forall|k: int| 0 <= k < out@.len() ==> (#[trigger] out@[k]).date@ == from@ + k,
            forall|i: int| 0 <= i < c ==> out@[#[trigger] orig[i].date@ - from@] == orig[i],
            forall|k: int|
                0 <= k < out@.len() && !stored_on(orig, from@ + k) ==> is_placeholder(
                    #[trigger] out@[k],
                    out@[k].date,
                ),
        decreases to@ - cursor@,
    {
        let take = rest.len() > 0 && rest[rest.len() - 1].date.day_number() == cursor.day_number();
        let ghost before = out@;
        if take {
            let d = rest.pop().unwrap();
            assert(d == orig[c]);
            out.push(d);
            proof {
                assert forall|i: int| c + 1 <= i < n implies (#[trigger] orig[i]).date@ >= cursor@ + 1 by {
                    assert(orig[c].date@ < orig[i].date@);
                }
                c = c + 1;
            }
        } else {
            proof {
                assert(!stored_on(orig, cursor@)) by {
                    if stored_on(orig, cursor@) {
                        let i = choose|i: int| 0 <= i < orig.len() && orig[i].date@ == cursor@;
                        if i > c {
                            assert(orig[c].date@ < orig[i].date@);
                        }
                        if i == c {
                            assert(rest@[rest@.len() - 1] == orig[c]);
                        }
                    }
                }
                assert forall|i: int| c <= i < n implies (#[trigger] orig[i]).date@ >= cursor@ + 1 by {
                    assert(orig[i].date@ != cursor@);
                }
            }
            out.push(Day::new(cursor));
        }
        proof {
            assert forall|i: int| 0 <= i < c implies out@[#[trigger] orig[i].date@ - from@] == orig[i] by {
                if orig[i].date@ - from@ < before.len() {
                    assert(out@[orig[i].date@ - from@] == before[orig[i].date@ - from@]);
                }
            }
            assert forall|k: int| 0 <= k < out@.len() && !stored_on(orig, from@ + k) implies is_placeholder(
                #[trigger] out@[k],
                out@[k].date,
            ) by {
                if k < before.len() {
                    assert(out@[k] == before[k]);
                } else if take {
                    assert(orig[c - 1].date@ == from@ + k);
                }
            }
        }
        cursor = match next_day(cursor) {
            Some(next) => next,
            None => {
                return out;
            },
        };
    }
    proof {
        if c < n {
            assert(orig[c].date@ >= cursor@);
        }
    }
    out
}

/// One slot entry as stored: identity, `,`, factor (`"3,1.5"`).
pub open spec fn entry_text(e: (i32, Quantity)) -> Seq<char> {
    int_text(e.0 as int) + seq![','] + quantity_text(e.1.thousandths as nat)
}

/// A slot as stored: its entries separated by `;`; no entry is the empty text.
pub open spec fn slot_text(entries: Seq<(i32, Quantity)>) -> Seq<char> {
    join(entries.map_values(|e: (i32, Quantity)| entry_text(e)), seq![';'])
}

/// The entry that a stored entry text denotes, if it is one.
pub open spec fn parsed_entry(t: Seq<char>) -> Option<(i32, Quantity)> {
    let p = split_at_char(t, ',');
    if p.len() == 2 && parsed_id(p[0]) is Some && parsed_quantity(p[1]) is Some {
        Some((parsed_id(p[0])->0, parsed_quantity(p[1])->0))
    } else {
        None
    }
}

/// The entries that a stored slot text denotes, if it is one.
pub open spec fn parsed_slot(s: Seq<char>) -> Option<Seq<(i32, Quantity)>> {
    if s.len() == 0 {
        Some(Seq::empty())
    } else {
        let parts = split_at_char(s, ';');
        if forall|k: int| 0 <= k < parts.len() ==> (#[trigger] parsed_entry(parts[k])) is Some {
            Some(parts.map_values(|t: Seq<char>| parsed_entry(t)->0))
        } else {
            None
        }
    }
}

fn entry_chars(e: (i32, Quantity)) -> (r: Vec<char>)
    ensures
        r@ == entry_text(e),
{
    let mut acc: Vec<char> = Vec::new();
    push_int(&mut acc, e.0);
    acc.push(',');
    push_quantity(&mut acc, e.1);
    assert(acc@ =~= entry_text(e));
    acc
}

/// Writes a slot for storage: `"3,1.5;7,2"`; no entries give the empty text.
pub fn foods_to_db_string(pairs: &Vec<(i32, Quantity)>) -> (r: String)
    ensures
        r@ == slot_text(pairs@),
{
    let ghost texts = pairs@.map_values(|e: (i32, Quantity)| entry_text(e));
    let mut acc: Vec<char> = Vec::new();
    let mut k: usize = 0;
    while k < pairs.len()
        invariant
            k <= pairs@.len(),
            texts == pairs@.map_values(|e: (i32, Quantity)| entry_text(e)),
            acc@ == join(texts.subrange(0, k as int), seq![';']),
        decreases pairs@.len() - k,
    {
        let ghost prev = texts.subrange(0, k as int);
        let t = entry_chars(pairs[k]);
        if k > 0 {
            acc.push(';');
        }
        push_all(&mut acc, &t);
        proof {
            let next = texts.subrange(0, k + 1);
            assert(next.drop_last() =~= prev);
            assert(next.last() == t@);
            if k > 0 {
                assert(prev.drop_last() =~= texts.subrange(0, k - 1));
                assert(acc@ =~= join(next, seq![';']));
            } else {
                assert(acc@ =~= join(next, seq![';']));
            }
        }
        k = k + 1;
    }
    assert(texts.subrange(0, pairs@.len() as int) =~= texts);
    string_of(&acc)
}

fn parse_entry(t: &Vec<char>) -> (r: Option<(i32, Quantity)>)
    ensures
        r == parsed_entry(t@),
{
    let parts = split_at(t, ',');
    let ghost pv = parts@.map_values(|p: Vec<char>| p@);
    if parts.len() != 2 {
        return None;
    }
    assert(pv[0] == parts@[0]@ && pv[1] == parts@[1]@);
    let id = match parse_id(&parts[0]) {
        Some(x) => x,
        None => return None,
    };
    let q = match parse_quantity_chars(&parts[1]) {
        Some(x) => x,
        None => return None,
    };
    Some((id, q))
}

/// Reads a stored slot; `None` where the text is not one (`"3,1.5;7,2"`, or empty).
pub fn db_string_to_foods(s: &str) -> (r: Option<Vec<(i32, Quantity)>>)
    ensures
        match r {
            Some(v) => parsed_slot(s@) == Some(v@),
            None => parsed_slot(s@) is None,
        },
{
    if s.is_empty() {
        let v: Vec<(i32, Quantity)> = Vec::new();
        assert(v@ =~= Seq::<(i32, Quantity)>::empty());
        return Some(v);
    }
    let cs = chars_of(s);
    let parts = split_at(&cs, ';');
    let ghost pv = parts@.map_values(|p: Vec<char>| p@);
    let mut out: Vec<(i32, Quantity)> = Vec::new();
    let mut k: usize = 0;
    while k < parts.len()
        invariant
            k <= parts@.len(),
            pv == parts@.map_values(|p: Vec<char>| p@),
            pv == split_at_char(s@, ';'),
            s@.len() != 0,
            out@.len() == k,
            forall|j: int| 0 <= j < k ==> (#[trigger] parsed_entry(pv[j])) == Some(out@[j]),
        decreases parts@.len() - k,
    {
        assert(pv[k as int] == parts@[k as int]@);
        match parse_entry(&parts[k]) {
            Some(e) => {
                out.push(e);
            },
            None => {
                assert(parsed_entry(pv[k as int]) is None);
                assert(s@.len() != 0);
                assert(parsed_slot(s@) is None);
                return None;
            },
        }
        k = k + 1;
    }
    assert(out@ =~= pv.map_values(|t: Seq<char>| parsed_entry(t)->0));
    Some(out)
}

proof fn lemma_entry_round_trip(e: (i32, Quantity))
    ensures
        parsed_entry(entry_text(e)) == Some(e),
        !contains_seq(entry_text(e), seq![';']),
        entry_text(e).len() >= 1,
{
    let a = int_text(e.0 as int);
    let b = quantity_text(e.1.thousandths as nat);
    lemma_int_text(e.0);
    lemma_quantity_text(e.1.thousandths);
    lemma_free_of_char(a, ',');
    lemma_free_of_char(b, ',');
    let parts = seq![a, b];
    assert forall|k: int| 0 <= k < parts.len() implies !contains_seq(#[trigger] parts[k], seq![',']) by {
        if k == 0 {
            assert(parts[k] == a);
        } else {
            assert(parts[k] == b);
        }
    }
    lemma_split_of_join(parts, ',');
    assert(parts.drop_last() =~= seq![a]);
    assert(seq![a].drop_last() =~= Seq::<Seq<char>>::empty());
    assert(crate::text::join_prefix(Seq::<Seq<char>>::empty(), seq![',']) =~= Seq::<char>::empty());
    assert(crate::text::join_prefix(seq![a], seq![',']) =~= a + seq![',']);
    assert(join(parts, seq![',']) =~= entry_text(e));
    let t = entry_text(e);
    assert forall|k: int| 0 <= k < t.len() implies t[k] != ';' by {
        if k < a.len() {
            assert(t[k] == a[k]);
        } else if k > a.len() {
            assert(t[k] == b[k - a.len() - 1]);
        }
    }
    lemma_free_of_char(t, ';');
}

/// Reading back what a slot was written as gives the same entries.
pub proof fn lemma_slot_round_trip(entries: Seq<(i32, Quantity)>)
    ensures
        parsed_slot(slot_text(entries)) == Some(entries),
{
    let texts = entries.map_values(|e: (i32, Quantity)| entry_text(e));
    if entries.len() == 0 {
        assert(slot_text(entries).len() == 0);
        assert(Seq::<(i32, Quantity)>::empty() =~= entries);
    } else {
        assert forall|k: int| 0 <= k < texts.len() implies !contains_seq(#[trigger] texts[k], seq![';']) by {
            lemma_entry_round_trip(entries[k]);
        }
        lemma_split_of_join(texts, ';');
        lemma_entry_round_trip(entries.last());
        assert(slot_text(entries).len() >= 1);
        let parts = split_at_char(slot_text(entries), ';');
        assert(parts == texts);
        assert forall|k: int| 0 <= k < parts.len() implies (#[trigger] parsed_entry(parts[k])) is Some by {
            lemma_entry_round_trip(entries[k]);
        }
        assert forall|k: int| 0 <= k < entries.len() implies parts.map_values(|t: Seq<char>| parsed_entry(t)->0)[k] == entries[k] by {
            lemma_entry_round_trip(entries[k]);
        }
        assert(parts.map_values(|t: Seq<char>| parsed_entry(t)->0) =~= entries);
    }
}

/// `j` is the position of the first food with identity `id`.
pub open spec fn is_food_index(foods: Seq<Food>, id: i32, j: int) -> bool {
    &&& 0 <= j < foods.len()
    &&& foods[j].id == Some(id)
    &&& forall|i: int| 0 <= i < j ==> foods[i].id != Some(id)
}

pub open spec fn has_food(foods: Seq<Food>, id: i32) -> bool {
    exists|j: int| 0 <= j < foods.len() && foods[j].id == Some(id)
}

/// The foods of a slot: each entry whose identity some food has becomes the
/// first such food with the entry's factor; the other entries are left out.
pub open spec fn resolved(entries: Seq<(i32, Quantity)>, foods: Seq<Food>) -> Seq<(FoodView, Quantity)>
    decreases entries.len(),
{
    if entries.len() == 0 {
        Seq::empty()
    } else {
        let rest = resolved(entries.drop_last(), foods);
        let (id, factor) = entries.last();
        if has_food(foods, id) {
            let j = choose|j: int| is_food_index(foods, id, j);
            rest.push((foods[j]@, factor))
        } else {
            rest
        }
    }
}

pub open spec fn food_views(v: Seq<(Food, Quantity)>) -> Seq<(FoodView, Quantity)> {
    v.map_values(|p: (Food, Quantity)| (p.0@, p.1))
}

fn find_food(foods: &Vec<Food>, id: i32) -> (r: Option<usize>)
    ensures
        match r {
            Some(j) => is_food_index(foods@, id, j as int),
            None => !has_food(foods@, id),
        },
{
    let mut j: usize = 0;
    while j < foods.len()
        invariant
            j <= foods@.len(),
            forall|i: int| 0 <= i < j ==> foods@[i].id != Some(id),
        decreases foods@.len() - j,
    {
        if foods[j].id == Some(id) {
            return Some(j);
        }
        j = j + 1;
    }
    None
}

/// Replaces the identities of a slot's entries by the foods that have them.
pub fn resolve_slot(entries: &Vec<(i32, Quantity)>, foods: &Vec<Food>) -> (r: Vec<(Food, Quantity)>)
    ensures
        food_views(r@) == resolved(entries@, foods@),
{
    let mut r: Vec<(Food, Quantity)> = Vec::new();
    let mut k: usize = 0;
    while k < entries.len()
        invariant
            k <= entries@.len(),
            food_views(r@) == resolved(entries@.subrange(0, k as int), foods@),
        decreases entries@.len() - k,
    {
        let (id, factor) = entries[k];
        let ghost prev = r@;
        let ghost sub = entries@.subrange(0, k + 1);
        assert(sub.drop_last() =~= entries@.subrange(0, k as int));
        assert(sub.last() == (id, factor));
        match find_food(foods, id) {
            Some(j) => {
                let f = foods[j].copy();
                r.push((f, factor));
                proof {
                    let c = choose|c: int| is_food_index(foods@, id, c);
                    if c < j {
                        assert(foods@[c].id == Some(id));
                    } else if j < c {
                        assert(foods@[j as int].id == Some(id));
                    }
                    assert(food_views(r@) =~= food_views(prev).push((foods@[j as int]@, factor)));
                }
            },
            None => {},
        }
        k = k + 1;
    }
    assert(entries@.subrange(0, entries@.len() as int) =~= entries@);
    r
}

/// A stored day, from the values of its row and the foods that its slots name;
/// `None` where a slot's text is not one.
pub fn row_to_day(id: i32, date: Date, lunch: &str, dinner: &str, foods: &Vec<Food>) -> (r: Option<Day>)
    ensures
        (r is Some) <==> (parsed_slot(lunch@) is Some && parsed_slot(dinner@) is Some),
        r matches Some(d) ==> {
            &&& d.id == Some(id)
            &&& d.date == date
            &&& food_views(d.lunch@) == resolved(parsed_slot(lunch@)->0, foods@)
            &&& food_views(d.dinner@) == resolved(parsed_slot(dinner@)->0, foods@)
        },
{
    let l = match db_string_to_foods(lunch) {
        Some(v) => v,
        None => return None,
    };
    let d = match db_string_to_foods(dinner) {
        Some(v) => v,
        None => return None,
    };
    Some(Day { id: Some(id), date, lunch: resolve_slot(&l, foods), dinner: resolve_slot(&d, foods) })
}

/// Which stored day to update when a day is saved: the one with the given
/// identity, else the one already stored for its date; `None` means insert.
pub fn day_write_target(given: Option<i32>, stored_for_date: Option<i32>) -> (r: Option<i32>)
    ensures
        r == (if given is Some {
            given
        } else {
            stored_for_date
        }),
{
    match given {
        Some(id) => Some(id),
        None => stored_for_date,
    }
}

/// The identities of the foods that a slot names, in order.
pub fn entry_ids(entries: &Vec<(i32, Quantity)>) -> (r: Vec<i32>)
    ensures
        r@ == entries@.map_values(|e: (i32, Quantity)| e.0),
{
    let mut r: Vec<i32> = Vec::new();
    let mut k: usize = 0;
    while k < entries.len()
        invariant
            k <= entries@.len(),
            r@ == entries@.subrange(0, k as int).map_values(|e: (i32, Quantity)| e.0),
        decreases entries@.len() - k,
    {
        let (id, _) = entries[k];
        r.push(id);
        k = k + 1;
        assert(r@ =~= entries@.subrange(0, k as int).map_values(|e: (i32, Quantity)| e.0));
    }
    assert(entries@.subrange(0, entries@.len() as int) =~= entries@);
    r
}

} // verus!
