//! Foods (recipes) and their ingredients.

use vstd::prelude::*;
use crate::decimal::Quantity;
use crate::text::views;

verus! {

/// How much of an ingredient: a quantity and its unit.
pub type Amount = (Quantity, String);

/// A food card of the overview. For editing a food see `EditFood`.
#[derive(Debug)]
pub struct Food {
    pub id: Option<i32>,
    pub name: String,
    pub tags: Vec<String>,
    pub details: String,
    pub portions: i32,
    pub ingredients: Vec<Ingredient>,
}

/// An ingredient as it is stored.
#[derive(Debug)]
pub struct Ingredient {
    pub id: Option<i32>,
    pub name: String,
    pub amount: Option<Amount>,
    pub optional: bool,
}

/// An ingredient in the edit view: a new one, or one to change.
#[derive(Debug)]
pub struct EditIngredient {
    pub id: Option<i32>,
    pub name: String,
    pub amount: Option<Amount>,
    pub optional: bool,
}

/// The edit view of a food: a new one, or one to change, with the names and
/// tags that are known for completion.
#[derive(Debug)]
pub struct EditFood {
    pub id: Option<i32>,
    pub name: String,
    pub tags: Vec<String>,
    pub details: String,
    pub portions: i32,
    pub edit_ingredients: Vec<EditIngredient>,
    pub existing_items: Vec<String>,
    pub existing_tags: Vec<String>,
}

/// A food as plain values.
pub struct FoodView {
    pub id: Option<i32>,
    pub name: Seq<char>,
    pub tags: Seq<Seq<char>>,
    pub details: Seq<char>,
    pub portions: i32,
    pub ingredients: Seq<Ingredient>,
}

impl View for Food {
    type V = FoodView;

    open spec fn view(&self) -> FoodView {
        FoodView {
            id: self.id,
            name: self.name@,
            tags: views(self.tags@),
            details: self.details@,
            portions: self.portions,
            ingredients: self.ingredients@,
        }
    }
}

/// The stored ingredient that an edited one becomes.
pub open spec fn ingredient_of(e: EditIngredient) -> Ingredient {
    Ingredient { id: e.id, name: e.name, amount: e.amount, optional: e.optional }
}

/// The edited ingredient that a stored one becomes.
pub open spec fn edit_ingredient_of(i: Ingredient) -> EditIngredient {
    EditIngredient { id: i.id, name: i.name, amount: i.amount, optional: i.optional }
}

impl From<Ingredient> for EditIngredient {
    fn from(ingredient: Ingredient) -> (r: EditIngredient) {
        EditIngredient {
            id: ingredient.id,
            name: ingredient.name,
            amount: ingredient.amount,
            optional: ingredient.optional,
        }
    }
}

impl vstd::std_specs::convert::FromSpecImpl<Ingredient> for EditIngredient {
    open spec fn obeys_from_spec() -> bool {
        true
    }

    open spec fn from_spec(v: Ingredient) -> EditIngredient {
        edit_ingredient_of(v)
    }
}

impl From<EditIngredient> for Ingredient {
    fn from(e: EditIngredient) -> (r: Ingredient) {
        Ingredient { id: e.id, name: e.name, amount: e.amount, optional: e.optional }
    }
}

impl vstd::std_specs::convert::FromSpecImpl<EditIngredient> for Ingredient {
    open spec fn obeys_from_spec() -> bool {
        true
    }

    open spec fn from_spec(v: EditIngredient) -> Ingredient {
        ingredient_of(v)
    }
}

pub(crate) fn copy_amount(a: &Option<Amount>) -> (r: Option<Amount>)
    ensures
        r == *a,
{
    match a {
        Some((q, u)) => Some((*q, u.clone())),
        None => None,
    }
}

impl Ingredient {
    /// A copy of the ingredient.
    pub fn copy(&self) -> (r: Ingredient)
        ensures
            r == *self,
    {
        Ingredient {
            id: self.id,
            name: self.name.clone(),
            amount: copy_amount(&self.amount),
            optional: self.optional,
        }
    }
}

/// A copy of a list of strings.
pub(crate) fn copy_strings(v: &Vec<String>) -> (r: Vec<String>)
    ensures
        r@ == v@,
{
    let mut r: Vec<String> = Vec::new();
    let mut i: usize = 0;
    while i < v.len()
        invariant
            i <= v@.len(),
            r@ == v@.subrange(0, i as int),
        decreases v@.len() - i,
    {
        r.push(v[i].clone());
        i = i + 1;
        assert(r@ =~= v@.subrange(0, i as int));
    }
    assert(v@.subrange(0, v@.len() as int) =~= v@);
    r
}

impl Food {
    /// A copy of the food.
    pub fn copy(&self) -> (r: Food)
        ensures
            r@ == self@,
    {
        let mut ingredients: Vec<Ingredient> = Vec::new();
        let mut i: usize = 0;
        while i < self.ingredients.len()
            invariant
                i <= self.ingredients@.len(),
                ingredients@ == self.ingredients@.subrange(0, i as int),
            decreases self.ingredients@.len() - i,
        {
            ingredients.push(self.ingredients[i].copy());
            i = i + 1;
            assert(ingredients@ =~= self.ingredients@.subrange(0, i as int));
        }
        assert(self.ingredients@.subrange(0, self.ingredients@.len() as int) =~= self.ingredients@);
        Food {
            id: self.id,
            name: self.name.clone(),
            tags: copy_strings(&self.tags),
            details: self.details.clone(),
            portions: self.portions,
            ingredients,
        }
    }

    /// The identities of the food's ingredients, in order (`None` for a new one).
    pub fn ingredient_ids(&self) -> (r: Vec<Option<i32>>)
        ensures
            r@.len() == self.ingredients@.len(),
            forall|k: int| 0 <= k < r@.len() ==> r@[k] == (#[trigger] self.ingredients@[k]).id,
    {
        let mut r: Vec<Option<i32>> = Vec::new();
        let mut i: usize = 0;
        while i < self.ingredients.len()
            invariant
                i <= self.ingredients@.len(),
                r@.len() == i,
                forall|k: int| 0 <= k < i ==> r@[k] == (#[trigger] self.ingredients@[k]).id,
            decreases self.ingredients@.len() - i,
        {
            r.push(self.ingredients[i].id);
            i = i + 1;
        }
        r
    }
}

/// Moves each element of `v`, in order, into a new list through `edit_ingredient_of`.
fn to_edit_ingredients(v: Vec<Ingredient>) -> (r: Vec<EditIngredient>)
    ensures
        r@ == v@.map_values(|i: Ingredient| edit_ingredient_of(i)),
{
    let ghost orig = v@;
    let mut v = v;
    let mut rev: Vec<EditIngredient> = Vec::new();
    while v.len() > 0
        invariant
            v@ == orig.subrange(0, v@.len() as int),
            v@.len() <= orig.len(),
            rev@.len() == orig.len() - v@.len(),
            forall|j: int| 0 <= j < rev@.len() ==> #[trigger] rev@[j] == edit_ingredient_of(orig[orig.len() - 1 - j]),
        decreases v@.len(),
    {
        let ghost len = v@.len();
        let x = v.pop().unwrap();
        rev.push(EditIngredient::from(x));
        assert(v@ =~= orig.subrange(0, v@.len() as int));
    }
    let mut r: Vec<EditIngredient> = Vec::new();
    while rev.len() > 0
        invariant
            rev@.len() <= orig.len(),
            r@.len() == orig.len() - rev@.len(),
            forall|j: int| 0 <= j < rev@.len() ==> #[trigger] rev@[j] == edit_ingredient_of(orig[orig.len() - 1 - j]),
            forall|j: int| 0 <= j < r@.len() ==> #[trigger] r@[j] == edit_ingredient_of(orig[j]),
        decreases rev@.len(),
    {
        let x = rev.pop().unwrap();
        r.push(x);
    }
    assert(r@ =~= orig.map_values(|i: Ingredient| edit_ingredient_of(i)));
    r
}

/// Moves each element of `v`, in order, into a new list through `ingredient_of`.
fn to_ingredients(v: Vec<EditIngredient>) -> (r: Vec<Ingredient>)
    ensures
        r@ == v@.map_values(|e: EditIngredient| ingredient_of(e)),
{
    let ghost orig = v@;
    let mut v = v;
    let mut rev: Vec<Ingredient> = Vec::new();
    while v.len() > 0
        invariant
            v@ == orig.subrange(0, v@.len() as int),
            v@.len() <= orig.len(),
            rev@.len() == orig.len() - v@.len(),
            forall|j: int| 0 <= j < rev@.len() ==> #[trigger] rev@[j] == ingredient_of(orig[orig.len() - 1 - j]),
        decreases v@.len(),
    {
        let x = v.pop().unwrap();
        rev.push(Ingredient::from(x));
        assert(v@ =~= orig.subrange(0, v@.len() as int));
    }
    let mut r: Vec<Ingredient> = Vec::new();
    while rev.len() > 0
        invariant
            rev@.len() <= orig.len(),
            r@.len() == orig.len() - rev@.len(),
            forall|j: int| 0 <= j < rev@.len() ==> #[trigger] rev@[j] == ingredient_of(orig[orig.len() - 1 - j]),
            forall|j: int| 0 <= j < r@.len() ==> #[trigger] r@[j] == ingredient_of(orig[j]),
        decreases rev@.len(),
    {
        let x = rev.pop().unwrap();
        r.push(x);
    }
    assert(r@ =~= orig.map_values(|e: EditIngredient| ingredient_of(e)));
    r
}

impl EditFood {
    /// The edit view of a new food: no identity, empty texts, four portions.
    pub fn create(existing_items: Vec<String>, existing_tags: Vec<String>) -> (r: EditFood)
        ensures
            r.id is None,
            r.name@.len() == 0,
            r.tags@.len() == 0,
            r.details@.len() == 0,
            r.portions == 4,
            r.edit_ingredients@.len() == 0,
            r.existing_items == existing_items,
            r.existing_tags == existing_tags,
    {
        EditFood {
            id: None,
            name: String::new(),
            tags: Vec::new(),
            details: String::new(),
            portions: 4,
            edit_ingredients: Vec::new(),
            existing_items,
            existing_tags,
        }
    }

    /// The edit view of an existing food.
    pub fn edit_food(food: Food, existing_items: Vec<String>, existing_tags: Vec<String>) -> (r: EditFood)
        ensures
            r.id == food.id,
            r.name == food.name,
            r.tags == food.tags,
            r.details == food.details,
            r.portions == food.portions,
            r.edit_ingredients@ == food.ingredients@.map_values(|i: Ingredient| edit_ingredient_of(i)),
            r.existing_items == existing_items,
            r.existing_tags == existing_tags,
    {
        EditFood {
            id: food.id,
            name: food.name,
            tags: food.tags,
            details: food.details,
            portions: food.portions,
            edit_ingredients: to_edit_ingredients(food.ingredients),
            existing_items,
            existing_tags,
        }
    }

    /// The food that the edit view describes.
    pub fn into_food(self) -> (r: Food)
        ensures
            r.id == self.id,
            r.name == self.name,
            r.tags == self.tags,
            r.details == self.details,
            r.portions == self.portions,
            r.ingredients@ == self.edit_ingredients@.map_values(|e: EditIngredient| ingredient_of(e)),
    {
        Food {
            id: self.id,
            name: self.name,
            tags: self.tags,
            details: self.details,
            portions: self.portions,
            ingredients: to_ingredients(self.edit_ingredients),
        }
    }
}

/// The ingredients of food `id` among ingredients paired with the identity of
/// their food, in order.
pub open spec fn ingredients_of(pairs: Seq<(i32, Ingredient)>, id: i32) -> Seq<Ingredient>
    decreases pairs.len(),
{
    if pairs.len() == 0 {
        Seq::empty()
    } else {
        let rest = ingredients_of(pairs.drop_last(), id);
        if pairs.last().0 == id {
            rest.push(pairs.last().1)
        } else {
            rest
        }
    }
}

/// Copies out the ingredients that belong to food `id`, in order.
pub fn ingredients_for(pairs: &Vec<(i32, Ingredient)>, id: i32) -> (r: Vec<Ingredient>)
    ensures
        r@ == ingredients_of(pairs@, id),
{
    let mut r: Vec<Ingredient> = Vec::new();
    let mut k: usize = 0;
    while k < pairs.len()
        invariant
            k <= pairs@.len(),
            r@ == ingredients_of(pairs@.subrange(0, k as int), id),
        decreases pairs@.len() - k,
    {
        assert(pairs@.subrange(0, k + 1).drop_last() =~= pairs@.subrange(0, k as int));
        if pairs[k].0 == id {
            r.push(pairs[k].1.copy());
        }
        k = k + 1;
    }
    assert(pairs@.subrange(0, pairs@.len() as int) =~= pairs@);
    r
}

} // verus!
