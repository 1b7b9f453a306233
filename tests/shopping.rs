use rssesplaner::decimal::Quantity;
use rssesplaner::shopping::{compress_items, EditItem, FinalItem, Item};

fn item(name: &str, amount: Option<(u64, &str)>, order: i32) -> Item {
    Item {
        id: None,
        name: name.to_string(),
        amount: amount.map(|(t, u)| (Quantity { thousandths: t }, u.to_string())),
        order,
    }
}

fn pairs(r: &[FinalItem]) -> Vec<(String, Option<String>, i32)> {
    r.iter().map(|f| (f.name.clone(), f.amount.clone(), f.order)).collect()
}

#[test]
fn same_name_after_trimming_is_summed() {
    let r = compress_items(&vec![item("milk", Some((1000, "l")), 3), item(" milk ", Some((500, "l")), 1)]);
    assert_eq!(pairs(&r), vec![("milk".to_string(), Some("1.5 l".to_string()), 1)]);
    assert!(r[0].id.is_none());
}

#[test]
fn names_differing_in_case_stay_apart() {
    // Grouping is case-sensitive: "Milk" and " milk " are two names.
    let r = compress_items(&vec![item("Milk", Some((1000, "l")), 3), item(" milk ", Some((500, "l")), 1)]);
    assert_eq!(
        pairs(&r),
        vec![
            ("milk".to_string(), Some("0.5 l".to_string()), 1),
            ("Milk".to_string(), Some("1 l".to_string()), 3),
        ]
    );
}

#[test]
fn units_are_kept_apart_in_order_of_first_occurrence() {
    let r = compress_items(&vec![
        item("Flour", Some((200, "kg")), 0),
        item("Flour", Some((500, " g")), 1),
        item("Flour", Some((300, "kg ")), 2),
        item("Flour", Some((7000, "")), 3),
    ]);
    assert_eq!(pairs(&r), vec![("Flour".to_string(), Some("0.5 kg, 0.5 g".to_string()), 0)]);
}

#[test]
fn items_without_units_have_no_amount() {
    let r = compress_items(&vec![item("Salt", None, 2), item("Salt", Some((1000, "  ")), 5)]);
    assert_eq!(pairs(&r), vec![("Salt".to_string(), None, 2)]);
}

#[test]
fn output_follows_the_least_order() {
    let r = compress_items(&vec![
        item("Eggs", Some((6000, "pcs")), 5),
        item("Bread", None, 2),
        item("Eggs", Some((4000, "pcs")), 0),
        item("Butter", None, 2),
    ]);
    assert_eq!(
        pairs(&r),
        vec![
            ("Eggs".to_string(), Some("10 pcs".to_string()), 0),
            ("Bread".to_string(), None, 2),
            ("Butter".to_string(), None, 2),
        ]
    );
}

#[test]
fn empty_list_aggregates_to_nothing() {
    assert!(compress_items(&vec![]).is_empty());
}

#[test]
fn large_totals_are_written_exactly() {
    let r = compress_items(&vec![
        item("Rice", Some((u64::MAX, "g")), 0),
        item("Rice", Some((u64::MAX, "g")), 1),
    ]);
    assert_eq!(r[0].amount, Some("36893488147419103.23 g".to_string()));
}

#[test]
fn aggregating_an_aggregated_list_keeps_it() {
    let first = compress_items(&vec![
        item("Milk", Some((1000, "l")), 0),
        item("Milk ", Some((250, "l")), 1),
        item("Egg", Some((2000, "pcs")), 2),
        item("Milk", Some((100, "kg")), 3),
    ]);
    assert_eq!(
        pairs(&first),
        vec![
            ("Milk".to_string(), Some("1.25 l, 0.1 kg".to_string()), 0),
            ("Egg".to_string(), Some("2 pcs".to_string()), 2),
        ]
    );
    // One entry per name and unit, as the totals stand.
    let again = compress_items(&vec![
        item("Milk", Some((1250, "l")), 0),
        item("Egg", Some((2000, "pcs")), 2),
        item("Milk", Some((100, "kg")), 0),
    ]);
    assert_eq!(pairs(&again), pairs(&first));
}

#[test]
fn items_become_edit_items() {
    let e = EditItem::from(item("Tea", Some((50, "g")), 4));
    assert_eq!(e.name, "Tea");
    assert_eq!(e.order, 4);
    assert_eq!(e.amount, Some((Quantity { thousandths: 50 }, "g".to_string())));
}

fn food_with(id: i32, ingredients: Vec<(&str, Option<(u64, &str)>)>) -> rssesplaner::food::Food {
    rssesplaner::food::Food {
        id: Some(id),
        name: format!("Food {id}"),
        tags: vec![],
        details: String::new(),
        portions: 4,
        ingredients: ingredients
            .into_iter()
            .map(|(n, a)| rssesplaner::food::Ingredient {
                id: None,
                name: n.to_string(),
                amount: a.map(|(t, u)| (Quantity { thousandths: t }, u.to_string())),
                optional: false,
            })
            .collect(),
    }
}

fn day_on(n: i32, lunch: Vec<(rssesplaner::food::Food, u64)>, dinner: Vec<(rssesplaner::food::Food, u64)>) -> rssesplaner::calendar::Day {
    rssesplaner::calendar::Day {
        id: Some(n),
        date: rssesplaner::calendar::Date::from_day_number(738886 + n).unwrap(),
        lunch: lunch.into_iter().map(|(f, t)| (f, Quantity { thousandths: t })).collect(),
        dinner: dinner.into_iter().map(|(f, t)| (f, Quantity { thousandths: t })).collect(),
    }
}

#[test]
fn meals_expand_into_scaled_entries_after_the_defaults() {
    let defaults = vec![item("Coffee", Some((500, "g")), 40), item("Milk", None, 41)];
    let days = vec![
        day_on(0, vec![(food_with(1, vec![("Flour", Some((200, "g"))), ("Salt", None)]), 1500)], vec![]),
        day_on(1, vec![], vec![(food_with(2, vec![("Milk", Some((1000, "l")))]), 333)]),
    ];
    let items = rssesplaner::shopping::shopping_items(&defaults, &days).unwrap();
    let got: Vec<(String, Option<(u64, String)>, i32)> = items
        .iter()
        .map(|i| (i.name.clone(), i.amount.clone().map(|(q, u)| (q.thousandths, u)), i.order))
        .collect();
    assert_eq!(
        got,
        vec![
            ("Coffee".to_string(), Some((500, "g".to_string())), 0),
            ("Milk".to_string(), None, 1),
            ("Flour".to_string(), Some((300, "g".to_string())), 2),
            ("Salt".to_string(), None, 3),
            ("Milk".to_string(), Some((333, "l".to_string())), 4),
        ]
    );
    let list = compress_items(&items);
    assert_eq!(
        pairs(&list),
        vec![
            ("Coffee".to_string(), Some("0.5 g".to_string()), 0),
            ("Milk".to_string(), Some("0.333 l".to_string()), 1),
            ("Flour".to_string(), Some("0.3 g".to_string()), 2),
            ("Salt".to_string(), None, 3),
        ]
    );
}

#[test]
fn scaling_rounds_half_up() {
    let days = vec![day_on(0, vec![(food_with(1, vec![("Egg", Some((1, "pcs")))]), 500)], vec![])];
    let items = rssesplaner::shopping::shopping_items(&vec![], &days).unwrap();
    assert_eq!(items[0].amount, Some((Quantity { thousandths: 1 }, "pcs".to_string())));
    let days = vec![day_on(0, vec![(food_with(1, vec![("Egg", Some((1, "pcs")))]), 499)], vec![])];
    let items = rssesplaner::shopping::shopping_items(&vec![], &days).unwrap();
    assert_eq!(items[0].amount, Some((Quantity { thousandths: 0 }, "pcs".to_string())));
}

#[test]
fn scaled_quantity_that_does_not_fit_is_refused() {
    let days = vec![day_on(0, vec![(food_with(1, vec![("Rice", Some((u64::MAX, "g")))]), 2000)], vec![])];
    assert!(rssesplaner::shopping::shopping_items(&vec![], &days).is_none());
}

#[test]
fn no_days_and_no_defaults_give_no_entries() {
    assert!(rssesplaner::shopping::shopping_items(&vec![], &vec![]).unwrap().is_empty());
}
