use rssesplaner::db::Config;
use rssesplaner::decimal::{parse_id, parse_quantity, render_quantity, Quantity};
use rssesplaner::food::{EditFood, EditIngredient, Food, Ingredient};
use rssesplaner::utils::{amount_unit_to_string, string_to_amount_unit, string_to_vec, vec_to_string, AmountError};

#[test]
fn tags_are_read() {
    let r = string_to_vec(&"vegan;  quick ; ; dessert".to_string());
    assert_eq!(r, vec!["vegan".to_string(), "quick".to_string(), "dessert".to_string()]);
    assert!(string_to_vec(&String::new()).is_empty());
    assert_eq!(string_to_vec(&"a;b".to_string()), vec!["a;b".to_string()]);
}

#[test]
fn tags_are_written() {
    let v = vec!["vegan".to_string(), "quick".to_string()];
    assert_eq!(vec_to_string(&v), "vegan; quick");
    assert_eq!(vec_to_string(&vec![]), "");
    assert_eq!(string_to_vec(&vec_to_string(&v)), v);
}

#[test]
fn quantities_are_written() {
    assert_eq!(render_quantity(Quantity { thousandths: 1500 }), "1.5");
    assert_eq!(render_quantity(Quantity { thousandths: 2000 }), "2");
    assert_eq!(render_quantity(Quantity { thousandths: 0 }), "0");
    assert_eq!(render_quantity(Quantity { thousandths: 1005 }), "1.005");
    assert_eq!(render_quantity(Quantity { thousandths: 120 }), "0.12");
}

#[test]
fn quantities_are_read() {
    assert_eq!(parse_quantity("1.5"), Some(Quantity { thousandths: 1500 }));
    assert_eq!(parse_quantity("007"), Some(Quantity { thousandths: 7000 }));
    assert_eq!(parse_quantity("0.125"), Some(Quantity { thousandths: 125 }));
    assert_eq!(parse_quantity("1.0"), Some(Quantity { thousandths: 1000 }));
    assert_eq!(parse_quantity(""), None);
    assert_eq!(parse_quantity("1."), None);
    assert_eq!(parse_quantity(".5"), None);
    assert_eq!(parse_quantity("1.2.3"), None);
    assert_eq!(parse_quantity("-1"), None);
    assert_eq!(parse_quantity("18446744073709552"), None);
    assert_eq!(parse_quantity("18446744073709551.615"), Some(Quantity { thousandths: u64::MAX }));
}

#[test]
fn identities_are_read() {
    assert_eq!(parse_id(&"42".chars().collect()), Some(42));
    assert_eq!(parse_id(&"-7".chars().collect()), Some(-7));
    assert_eq!(parse_id(&"-2147483648".chars().collect()), Some(i32::MIN));
    assert_eq!(parse_id(&"2147483648".chars().collect()), None);
    assert_eq!(parse_id(&"-".chars().collect()), None);
    assert_eq!(parse_id(&"".chars().collect()), None);
}

#[test]
fn amounts_are_read() {
    assert_eq!(
        string_to_amount_unit(&Some("1.0; kg".to_string())),
        Ok(Some((Quantity { thousandths: 1000 }, "kg".to_string())))
    );
    assert_eq!(
        string_to_amount_unit(&Some("2; tea; spoons".to_string())),
        Ok(Some((Quantity { thousandths: 2000 }, "tea; spoons".to_string())))
    );
    assert_eq!(string_to_amount_unit(&None), Ok(None));
    assert_eq!(string_to_amount_unit(&Some("1 kg".to_string())), Err(AmountError::NoSeparator));
    assert_eq!(string_to_amount_unit(&Some("lots; kg".to_string())), Err(AmountError::BadQuantity));
}

#[test]
fn amounts_are_written() {
    let a = Some((Quantity { thousandths: 1000 }, "kg".to_string()));
    assert_eq!(amount_unit_to_string(&a), Some("1; kg".to_string()));
    assert_eq!(amount_unit_to_string(&None), None);
    assert_eq!(string_to_amount_unit(&amount_unit_to_string(&a)), Ok(a));
}

#[test]
fn database_connection_string() {
    let c = Config {
        host: "localhost".to_string(),
        port: 5432,
        user: "planner".to_string(),
        password: "secret".to_string(),
        dbname: "meals".to_string(),
    };
    assert_eq!(c.to_config_string(), "host=localhost port=5432 user=planner password=secret dbname=meals");
}

#[test]
fn new_food_edit_view() {
    let e = EditFood::create(vec!["Salt".to_string()], vec!["quick".to_string()]);
    assert_eq!(e.id, None);
    assert_eq!(e.name, "");
    assert_eq!(e.portions, 4);
    assert!(e.edit_ingredients.is_empty());
    assert_eq!(e.existing_items, vec!["Salt".to_string()]);
    assert_eq!(e.existing_tags, vec!["quick".to_string()]);
}

#[test]
fn food_edit_view_round_trip() {
    let food = Food {
        id: Some(3),
        name: "Soup".to_string(),
        tags: vec!["warm".to_string()],
        details: "Boil.".to_string(),
        portions: 2,
        ingredients: vec![
            Ingredient { id: Some(1), name: "Water".to_string(), amount: Some((Quantity { thousandths: 1000 }, "l".to_string())), optional: false },
            Ingredient { id: None, name: "Salt".to_string(), amount: None, optional: true },
        ],
    };
    let e = EditFood::edit_food(food, vec![], vec![]);
    assert_eq!(e.edit_ingredients.len(), 2);
    assert_eq!(e.edit_ingredients[0].name, "Water");
    assert!(e.edit_ingredients[1].optional);
    let back = e.into_food();
    assert_eq!(back.name, "Soup");
    assert_eq!(back.ingredients[0].id, Some(1));
    assert_eq!(back.ingredients[1].name, "Salt");
    let i: Ingredient = EditIngredient { id: None, name: "X".to_string(), amount: None, optional: false }.into();
    assert_eq!(i.name, "X");
}

#[test]
fn food_copy_is_equal() {
    let food = Food {
        id: Some(3),
        name: "Soup".to_string(),
        tags: vec!["warm".to_string()],
        details: "Boil.".to_string(),
        portions: 2,
        ingredients: vec![Ingredient { id: Some(1), name: "Water".to_string(), amount: None, optional: false }],
    };
    let c = food.copy();
    assert_eq!(c.name, food.name);
    assert_eq!(c.tags, food.tags);
    assert_eq!(c.ingredients.len(), 1);
    assert_eq!(c.ingredients[0].name, "Water");
}

#[test]
fn ingredients_are_paired_with_their_food() {
    let ing = |id: i32, name: &str| Ingredient { id: Some(id), name: name.to_string(), amount: None, optional: false };
    let pairs = vec![(1, ing(10, "Flour")), (2, ing(11, "Water")), (1, ing(12, "Egg"))];
    let of_one = rssesplaner::food::ingredients_for(&pairs, 1);
    let names: Vec<&str> = of_one.iter().map(|i| i.name.as_str()).collect();
    assert_eq!(names, vec!["Flour", "Egg"]);
    assert_eq!(of_one[1].id, Some(12));
    assert!(rssesplaner::food::ingredients_for(&pairs, 3).is_empty());
}
