use chrono::{Datelike, NaiveDate, Weekday};
use rssesplaner::calendar::{
    assemble_days, calendar_window, day_write_target, get_next_saturday, week_start,
    week_to_day_strings, mult_portions, shopping_list_request, ParamError, days_ordered_within, db_string_to_foods, entry_ids,
    foods_to_db_string, resolve_slot, row_to_day, Date, Day, MAX_DAY, MIN_DAY,
};
use rssesplaner::decimal::Quantity;
use rssesplaner::food::{Food, Ingredient};
use rssesplaner::shopping::ShoppingListParams;

fn date(y: i32, m: u32, d: u32) -> Date {
    let n = NaiveDate::from_ymd_opt(y, m, d).unwrap().num_days_from_ce();
    Date::from_day_number(n).unwrap()
}

fn q(thousandths: u64) -> Quantity {
    Quantity { thousandths }
}

fn food(id: i32, name: &str) -> Food {
    Food {
        id: Some(id),
        name: name.to_string(),
        tags: vec![],
        details: String::new(),
        portions: 4,
        ingredients: vec![Ingredient {
            id: Some(id * 10),
            name: "Flour".to_string(),
            amount: Some((q(500), "g".to_string())),
            optional: false,
        }],
    }
}

fn stored(id: i32, d: Date) -> Day {
    Day { id: Some(id), date: d, lunch: vec![(food(3, "Pasta"), q(1500))], dinner: vec![] }
}

#[test]
fn day_bounds_match_chrono() {
    assert_eq!(NaiveDate::MAX.num_days_from_ce(), MAX_DAY);
    assert_eq!(NaiveDate::MIN.num_days_from_ce(), MIN_DAY);
    assert!(Date::from_day_number(MAX_DAY).is_some());
    assert!(Date::from_day_number(MAX_DAY + 1).is_none());
    assert!(Date::from_day_number(MIN_DAY - 1).is_none());
}

#[test]
fn assemble_fills_gaps_around_a_stored_day() {
    let from = date(2024, 1, 1);
    let to = date(2024, 1, 4);
    let existing = vec![stored(7, date(2024, 1, 2))];
    assert!(days_ordered_within(&existing, from, to));
    let days = assemble_days(existing, from, to);
    assert_eq!(days.len(), 3);
    assert_eq!(days[0].date, date(2024, 1, 1));
    assert_eq!(days[0].id, None);
    assert!(days[0].lunch.is_empty() && days[0].dinner.is_empty());
    assert_eq!(days[1].date, date(2024, 1, 2));
    assert_eq!(days[1].id, Some(7));
    assert_eq!(days[1].lunch.len(), 1);
    assert_eq!(days[1].lunch[0].0.name, "Pasta");
    assert_eq!(days[1].lunch[0].1, q(1500));
    assert_eq!(days[2].date, date(2024, 1, 3));
    assert_eq!(days[2].id, None);
}

#[test]
fn assemble_length_is_the_number_of_days() {
    let from = date(2023, 12, 25);
    let to = date(2024, 1, 15);
    let existing = vec![stored(1, date(2023, 12, 31)), stored(2, date(2024, 1, 1))];
    let days = assemble_days(existing, from, to);
    assert_eq!(days.len(), 21);
    for (k, d) in days.iter().enumerate() {
        assert_eq!(d.date.day_number(), from.day_number() + k as i32);
    }
    assert_eq!(days[6].id, Some(1));
    assert_eq!(days[7].id, Some(2));
    assert_eq!(days.iter().filter(|d| d.id.is_none()).count(), 19);
}

#[test]
fn assemble_of_an_empty_range_is_empty() {
    let d = date(2024, 5, 5);
    assert!(assemble_days(vec![], d, d).is_empty());
    assert!(assemble_days(vec![], date(2024, 5, 6), d).is_empty());
}

#[test]
fn assemble_up_to_the_last_date() {
    let to = Date::from_day_number(MAX_DAY).unwrap();
    let from = Date::from_day_number(MAX_DAY - 2).unwrap();
    let days = assemble_days(vec![], from, to);
    assert_eq!(days.len(), 2);
    assert_eq!(days[1].date.day_number(), MAX_DAY - 1);
}

#[test]
fn ordering_check_rejects_bad_input() {
    let from = date(2024, 1, 1);
    let to = date(2024, 1, 4);
    let unsorted = vec![stored(1, date(2024, 1, 3)), stored(2, date(2024, 1, 2))];
    assert!(!days_ordered_within(&unsorted, from, to));
    let outside = vec![stored(1, date(2024, 1, 4))];
    assert!(!days_ordered_within(&outside, from, to));
    let twice = vec![stored(1, date(2024, 1, 2)), stored(2, date(2024, 1, 2))];
    assert!(!days_ordered_within(&twice, from, to));
}

#[test]
fn slot_text_round_trip() {
    let pairs = vec![(3, q(1500)), (7, q(2000)), (-4, q(125)), (0, q(0))];
    let text = foods_to_db_string(&pairs);
    assert_eq!(text, "3,1.5;7,2;-4,0.125;0,0");
    assert_eq!(db_string_to_foods(&text), Some(pairs));
}

#[test]
fn empty_slot_text() {
    assert_eq!(foods_to_db_string(&vec![]), "");
    assert_eq!(db_string_to_foods(""), Some(vec![]));
}

#[test]
fn slot_text_is_read() {
    assert_eq!(db_string_to_foods("1,1.5;2,2.0"), Some(vec![(1, q(1500)), (2, q(2000))]));
    assert_eq!(db_string_to_foods("12,0.25"), Some(vec![(12, q(250))]));
}

#[test]
fn malformed_slot_text_is_refused() {
    assert_eq!(db_string_to_foods("1"), None);
    assert_eq!(db_string_to_foods("1,2,3"), None);
    assert_eq!(db_string_to_foods("a,1"), None);
    assert_eq!(db_string_to_foods("1,1.2345"), None);
    assert_eq!(db_string_to_foods("1,1;"), None);
    assert_eq!(db_string_to_foods("99999999999,1"), None);
}

#[test]
fn slot_entries_resolve_to_foods() {
    let foods = vec![food(3, "Pasta"), food(5, "Soup")];
    let slot = vec![(5, q(1000)), (9, q(1000)), (3, q(500))];
    let resolved = resolve_slot(&slot, &foods);
    assert_eq!(resolved.len(), 2);
    assert_eq!(resolved[0].0.name, "Soup");
    assert_eq!(resolved[0].1, q(1000));
    assert_eq!(resolved[1].0.name, "Pasta");
    assert_eq!(resolved[1].0.ingredients.len(), 1);
    assert_eq!(resolved[1].1, q(500));
    assert_eq!(entry_ids(&slot), vec![5, 9, 3]);
}

#[test]
fn row_becomes_a_day() {
    let foods = vec![food(3, "Pasta")];
    let d = row_to_day(4, date(2024, 2, 29), "3,2", "", &foods).unwrap();
    assert_eq!(d.id, Some(4));
    assert_eq!(d.date, date(2024, 2, 29));
    assert_eq!(d.lunch.len(), 1);
    assert_eq!(d.lunch[0].1, q(2000));
    assert!(d.dinner.is_empty());
    assert!(row_to_day(4, date(2024, 2, 29), "3;2", "", &foods).is_none());
}

#[test]
fn saving_a_day_targets_the_right_row() {
    assert_eq!(day_write_target(Some(3), Some(9)), Some(3));
    assert_eq!(day_write_target(None, Some(9)), Some(9));
    assert_eq!(day_write_target(None, None), None);
}

#[test]
fn next_saturday_is_within_a_week() {
    // 2024-01-03 is a Wednesday, 2024-01-06 a Saturday.
    assert_eq!(get_next_saturday(date(2024, 1, 3)), Some(date(2024, 1, 6)));
    assert_eq!(get_next_saturday(date(2024, 1, 6)), Some(date(2024, 1, 13)));
    assert_eq!(get_next_saturday(date(2024, 1, 7)), Some(date(2024, 1, 13)));
    assert_eq!(get_next_saturday(date(2024, 1, 5)), Some(date(2024, 1, 6)));
    assert_eq!(get_next_saturday(Date::from_day_number(MAX_DAY).unwrap()), None);
}

#[test]
fn weeks_start_on_monday() {
    assert_eq!(week_start(date(2024, 1, 3)), Some(date(2024, 1, 1)));
    assert_eq!(week_start(date(2024, 1, 1)), Some(date(2024, 1, 1)));
    assert_eq!(week_start(date(2024, 1, 7)), Some(date(2024, 1, 1)));
    assert_eq!(week_start(date(1, 1, 1)), Some(date(1, 1, 1)));
    for d in [date(-5, 3, 2), date(1600, 2, 29), date(1969, 12, 31)] {
        let m = week_start(d).unwrap();
        let nd = NaiveDate::from_num_days_from_ce_opt(m.day_number()).unwrap();
        assert_eq!(nd.weekday(), Weekday::Mon);
        assert!(d.day_number() - m.day_number() < 7);
    }
}

#[test]
fn week_days_as_text() {
    let days = week_to_day_strings(date(2023, 12, 28));
    assert_eq!(
        days,
        vec!["2023-12-28", "2023-12-29", "2023-12-30", "2023-12-31", "2024-01-01", "2024-01-02", "2024-01-03"]
    );
    let last = week_to_day_strings(Date::from_day_number(MAX_DAY - 1).unwrap());
    assert_eq!(last.len(), 2);
}

#[test]
fn calendar_shows_three_weeks_from_the_monday_before() {
    let (from, to) = calendar_window(date(2024, 1, 10)).unwrap();
    assert_eq!(from, date(2024, 1, 1));
    assert_eq!(to, date(2024, 1, 22));
}

#[test]
fn adding_days_stays_in_range() {
    assert_eq!(date(2024, 2, 28).add_days(2), Some(date(2024, 3, 1)));
    assert_eq!(date(2024, 3, 1).add_days(-1), Some(date(2024, 2, 29)));
    assert_eq!(Date::from_day_number(MAX_DAY).unwrap().add_days(1), None);
    assert_eq!(Date::from_day_number(MIN_DAY).unwrap().add_days(-1), None);
}

#[test]
fn shopping_list_query_is_read() {
    let p = ShoppingListParams { default: Some(true), date: Some("2024-03-09".to_string()) };
    assert_eq!(shopping_list_request(&p), Ok((true, date(2024, 3, 9))));
    let p = ShoppingListParams { default: None, date: Some("2024-03-09".to_string()) };
    assert_eq!(shopping_list_request(&p), Err(ParamError::NoDefault));
    let p = ShoppingListParams { default: Some(false), date: None };
    assert_eq!(shopping_list_request(&p), Err(ParamError::NoDate));
    let p = ShoppingListParams { default: Some(false), date: Some("2024-02-30".to_string()) };
    assert_eq!(shopping_list_request(&p), Err(ParamError::BadDate));
    let p = ShoppingListParams { default: Some(false), date: Some("09.03.2024".to_string()) };
    assert_eq!(shopping_list_request(&p), Err(ParamError::BadDate));
}

#[test]
fn portions_needed() {
    assert_eq!(mult_portions(&4, &Quantity { thousandths: 1500 }), 6000);
    assert_eq!(mult_portions(&-2, &Quantity { thousandths: 250 }), -500);
}
