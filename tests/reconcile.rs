use rssesplaner::decimal::Quantity;
use rssesplaner::food::{Food, Ingredient};
use rssesplaner::reconcile::{reconcile, ReconcileError};
use rssesplaner::shopping::{item_ids, EditItem};

fn ingredient(id: Option<i32>, name: &str) -> Ingredient {
    Ingredient { id, name: name.to_string(), amount: None, optional: false }
}

#[test]
fn food_ingredients_are_reconciled() {
    let food = Food {
        id: Some(1),
        name: "Cake".to_string(),
        tags: vec![],
        details: String::new(),
        portions: 4,
        ingredients: vec![ingredient(Some(1), "Flour"), ingredient(None, "Sugar")],
    };
    let ids = food.ingredient_ids();
    assert_eq!(ids, vec![Some(1), None]);
    let plan = reconcile(&ids, &vec![1, 2]).unwrap();
    assert_eq!(plan.updates, vec![0]);
    assert_eq!(food.ingredients[plan.updates[0]].id, Some(1));
    assert_eq!(plan.inserts, vec![1]);
    assert_eq!(food.ingredients[plan.inserts[0]].name, "Sugar");
    assert_eq!(plan.deletes, vec![2]);
}

#[test]
fn duplicate_identity_is_refused() {
    let r = reconcile(&vec![Some(4), None, Some(4)], &vec![4, 5]);
    assert_eq!(r, Err(ReconcileError::DuplicateIdentity(4)));
}

#[test]
fn duplicate_is_reported_before_missing() {
    let r = reconcile(&vec![Some(8), Some(4), Some(4)], &vec![4]);
    assert_eq!(r, Err(ReconcileError::DuplicateIdentity(4)));
}

#[test]
fn vanished_identity_is_not_found() {
    let r = reconcile(&vec![Some(1), Some(3)], &vec![1, 2]);
    assert_eq!(r, Err(ReconcileError::NotFound(3)));
}

#[test]
fn empty_desired_deletes_everything_once() {
    let plan = reconcile(&vec![], &vec![5, 6, 5]).unwrap();
    assert!(plan.updates.is_empty());
    assert!(plan.inserts.is_empty());
    assert_eq!(plan.deletes, vec![5, 6]);
}

#[test]
fn only_new_entries_are_inserted() {
    let plan = reconcile(&vec![None, None], &vec![]).unwrap();
    assert_eq!(plan.inserts, vec![0, 1]);
    assert!(plan.updates.is_empty());
    assert!(plan.deletes.is_empty());
}

#[test]
fn stored_ids_after_apply_are_the_desired_ones() {
    // Desired keeps 2 and 3, adds one; stored are 1, 2, 3.
    let desired = vec![Some(3), None, Some(2)];
    let persisted = vec![1, 2, 3];
    let plan = reconcile(&desired, &persisted).unwrap();
    let mut after: Vec<i32> = persisted.iter().copied().filter(|x| !plan.deletes.contains(x)).collect();
    after.push(10);
    after.sort();
    assert_eq!(after, vec![2, 3, 10]);
}

#[test]
fn shopping_items_are_reconciled() {
    let items = vec![
        EditItem { id: Some(2), name: "Milk".to_string(), amount: Some((Quantity { thousandths: 1000 }, "l".to_string())), order: 0 },
        EditItem { id: None, name: "Bread".to_string(), amount: None, order: 1 },
    ];
    let ids = item_ids(&items);
    let plan = reconcile(&ids, &vec![2, 9]).unwrap();
    assert_eq!(plan.updates, vec![0]);
    assert_eq!(plan.inserts, vec![1]);
    assert_eq!(plan.deletes, vec![9]);
}
