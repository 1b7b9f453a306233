//! Shopping items, and their aggregation into one entry per name with the
//! quantities of each unit summed.

use vstd::prelude::*;
use crate::decimal::{quantity_text, push_thousandths};
use crate::food::{Amount, Food, Ingredient, copy_amount};
use crate::calendar::Day;
use crate::decimal::Quantity;
use crate::text::{trim, trim_of, join, string_of, chars_of, push_all};

verus! {

/// An item of the shopping list as it is edited.
#[derive(Debug)]
pub struct EditItem {
    pub id: Option<i32>,
    pub name: String,
    pub amount: Option<Amount>,
    pub order: i32,
}

/// An item as it is stored; the default shopping list is made of these.
#[derive(Debug)]
pub struct Item {
    pub id: Option<i32>,
    pub name: String,
    pub amount: Option<Amount>,
    pub order: i32,
}

/// A request to add items to a remote shopping list.
#[derive(Debug)]
pub struct AddItemsRequest {
    pub list_id: String,
    pub items: Vec<BringItem>,
}

/// An item as the remote shopping list takes it: a name and a free-text amount.
#[derive(Debug)]
pub struct BringItem {
    pub name: String,
    pub amount: Option<String>,
}

/// The query of a shopping list request: whether to start from the default
/// items, and the last date (`YYYY-MM-DD`) whose meals count.
#[derive(Debug)]
pub struct ShoppingListParams {
    pub default: Option<bool>,
    pub date: Option<String>,
}

impl From<Item> for EditItem {
    fn from(item: Item) -> (r: EditItem) {
        EditItem { id: item.id, name: item.name, amount: item.amount, order: item.order }
    }
}

impl vstd::std_specs::convert::FromSpecImpl<Item> for EditItem {
    open spec fn obeys_from_spec() -> bool {
        true
    }

    open spec fn from_spec(v: Item) -> EditItem {
        EditItem { id: v.id, name: v.name, amount: v.amount, order: v.order }
    }
}

/// The identities of the items, in order (`None` for a new one).
pub fn item_ids(items: &Vec<EditItem>) -> (r: Vec<Option<i32>>)
    ensures
        r@.len() == items@.len(),
        forall|k: int| 0 <= k < r@.len() ==> r@[k] == (#[trigger] items@[k]).id,
{
    let mut r: Vec<Option<i32>> = Vec::new();
    let mut i: usize = 0;
    while i < items.len()
        invariant
            i <= items@.len(),
            r@.len() == i,
            forall|k: int| 0 <= k < i ==> r@[k] == (#[trigger] items@[k]).id,
        decreases items@.len() - i,
    {
        r.push(items[i].id);
        i = i + 1;
    }
    r
}

/// One entry of an aggregated shopping list.
#[derive(Debug)]
pub struct FinalItem {
    pub id: Option<i32>,
    pub name: String,
    pub amount: Option<String>,
    pub order: i32,
}

/// The name under which an item is grouped: its name trimmed.
pub open spec fn name_key(it: Item) -> Seq<char> {
    trim_of(it.name@)
}

/// The unit of an item's amount, trimmed (empty when it has none).
pub open spec fn unit_key(it: Item) -> Seq<char> {
    match it.amount {
        Some((_, u)) => trim_of(u@),
        None => Seq::empty(),
    }
}

/// The thousandths of an item's amount (zero when it has none).
pub open spec fn thousandths_of(it: Item) -> nat {
    match it.amount {
        Some((q, _)) => q.thousandths as nat,
        None => 0,
    }
}

/// The item adds its quantity to the total of name `n` in unit `u`.
pub open spec fn counts_toward(it: Item, n: Seq<char>, u: Seq<char>) -> bool {
    &&& name_key(it) == n
    &&& it.amount is Some
    &&& unit_key(it) == u
    &&& u.len() > 0
}

/// The summed thousandths of the first `k` items of name `n` in unit `u`.
pub open spec fn unit_total(s: Seq<Item>, k: int, n: Seq<char>, u: Seq<char>) -> nat
    decreases k,
{
    if k <= 0 {
        0
    } else {
        unit_total(s, k - 1, n, u) + if counts_toward(s[k - 1], n, u) {
            thousandths_of(s[k - 1])
        } else {
            0
        }
    }
}

/// One of the first `k` items has the name `n`.
pub open spec fn named_in(s: Seq<Item>, k: int, n: Seq<char>) -> bool {
    exists|i: int| 0 <= i < k && name_key(s[i]) == n
}

/// One of the first `k` items counts toward name `n` in unit `u`.
pub open spec fn has_unit(s: Seq<Item>, k: int, n: Seq<char>, u: Seq<char>) -> bool {
    exists|i: int| 0 <= i < k && counts_toward(s[i], n, u)
}

/// `f` is the position of the first item of name `n`.
pub open spec fn is_first_of(s: Seq<Item>, n: Seq<char>, f: int) -> bool {
    &&& 0 <= f < s.len()
    &&& name_key(s[f]) == n
    &&& forall|i: int| 0 <= i < f ==> name_key(s[i]) != n
}

pub open spec fn first_of(s: Seq<Item>, n: Seq<char>) -> int {
    choose|f: int| is_first_of(s, n, f)
}

/// `f` is the position of the first item that counts toward name `n` in unit `u`.
pub open spec fn is_first_unit(s: Seq<Item>, n: Seq<char>, u: Seq<char>, f: int) -> bool {
    &&& 0 <= f < s.len()
    &&& counts_toward(s[f], n, u)
    &&& forall|i: int| 0 <= i < f ==> !counts_toward(s[i], n, u)
}

pub open spec fn first_unit(s: Seq<Item>, n: Seq<char>, u: Seq<char>) -> int {
    choose|f: int| is_first_unit(s, n, u, f)
}

/// `o` is the least order among the first `k` items of name `n`.
pub open spec fn is_least_order(s: Seq<Item>, k: int, n: Seq<char>, o: i32) -> bool {
    &&& exists|i: int| 0 <= i < k && name_key(s[i]) == n && s[i].order == o
    &&& forall|i: int| 0 <= i < k && name_key(s[i]) == n ==> o <= s[i].order
}

/// `us` are the units of name `n`, each once, in the order of their first occurrence.
pub open spec fn is_unit_list(s: Seq<Item>, n: Seq<char>, us: Seq<Seq<char>>) -> bool {
    &&& forall|u: Seq<char>| us.contains(u) <==> has_unit(s, s.len() as int, n, u)
    &&& forall|a: int, b: int|
        0 <= a < b < us.len() ==> first_unit(s, n, us[a]) < first_unit(s, n, us[b])
}

/// The text of one unit total: `"<sum> <unit>"`.
pub open spec fn unit_text(s: Seq<Item>, n: Seq<char>, u: Seq<char>) -> Seq<char> {
    quantity_text(unit_total(s, s.len() as int, n, u)) + seq![' '] + u
}

/// The unit totals of a list of units, separated by `", "`.
pub open spec fn amount_text(s: Seq<Item>, n: Seq<char>, us: Seq<Seq<char>>) -> Seq<char> {
    join(us.map_values(|u: Seq<char>| unit_text(s, n, u)), seq![',', ' '])
}

/// Entry `a` of the output comes before entry `b`: by least order, then by first occurrence.
pub open spec fn comes_before(s: Seq<Item>, a: FinalItem, b: FinalItem) -> bool {
    a.order < b.order || (a.order == b.order && first_of(s, a.name@) < first_of(s, b.name@))
}

/// What aggregation states of its output `r` for the items `s`.
pub open spec fn is_aggregate(s: Seq<Item>, r: Seq<FinalItem>) -> bool {
    &&& forall|n: Seq<char>| named_in(s, s.len() as int, n) <==> exists|k: int|
        0 <= k < r.len() && (#[trigger] r[k]).name@ == n
    &&& forall|k: int, l: int| 0 <= k < l < r.len() ==> comes_before(s, r[k], r[l])
    &&& forall|k: int|
        0 <= k < r.len() ==> {
            let e = #[trigger] r[k];
            &&& e.id is None
            &&& is_least_order(s, s.len() as int, e.name@, e.order)
            &&& amount_ok(s, e.name@, e.amount)
        }
}

/// `a` is the amount text of name `n`: absent when no item of the name has a
/// unit, else the total of each unit in the order of first occurrence.
pub open spec fn amount_ok(s: Seq<Item>, n: Seq<char>, a: Option<String>) -> bool {
    match a {
        None => forall|u: Seq<char>| !has_unit(s, s.len() as int, n, u),
        Some(a) => exists|us: Seq<Seq<char>>|
            us.len() > 0 && is_unit_list(s, n, us) && a@ == amount_text(s, n, us),
    }
}

struct GroupAcc {
    name: String,
    order: i32,
    first: usize,
}

struct UnitAcc {
    group: usize,
    unit: String,
    first: usize,
    total: u128,
}

proof fn lemma_unit_total_step(s: Seq<Item>, k: int, n: Seq<char>, u: Seq<char>)
    requires
        0 <= k,
    ensures
        unit_total(s, k + 1, n, u) == unit_total(s, k, n, u) + if counts_toward(s[k], n, u) {
            thousandths_of(s[k])
        } else {
            0
        },
{
}

proof fn lemma_unit_total_bound(s: Seq<Item>, k: int, n: Seq<char>, u: Seq<char>)
    requires
        0 <= k,
    ensures
        unit_total(s, k, n, u) <= k * (u64::MAX as int),
    decreases k,
{
    if k > 0 {
        lemma_unit_total_bound(s, k - 1, n, u);
    }
}

/// Finds the group with the given name.
fn find_group(groups: &Vec<GroupAcc>, name: &String) -> (r: Option<usize>)
    ensures
        match r {
            Some(g) => g < groups@.len() && groups@[g as int].name@ == name@,
            None => forall|g: int| 0 <= g < groups@.len() ==> groups@[g].name@ != name@,
        },
{
    let mut g: usize = 0;
    while g < groups.len()
        invariant
            g <= groups@.len(),
            forall|j: int| 0 <= j < g ==> groups@[j].name@ != name@,
        decreases groups@.len() - g,
    {
        if groups[g].name == *name {
            return Some(g);
        }
        g = g + 1;
    }
    None
}

/// Finds the entry of the given group and unit.
fn find_unit(units: &Vec<UnitAcc>, group: usize, unit: &String) -> (r: Option<usize>)
    ensures
        match r {
            Some(e) => e < units@.len() && units@[e as int].group == group && units@[e as int].unit@
                == unit@,
            None => forall|e: int|
                0 <= e < units@.len() ==> !(units@[e].group == group && units@[e].unit@ == unit@),
        },
{
    let mut e: usize = 0;
    while e < units.len()
        invariant
            e <= units@.len(),
            forall|j: int| 0 <= j < e ==> !(units@[j].group == group && units@[j].unit@ == unit@),
        decreases units@.len() - e,
    {
        if units[e].group == group && units[e].unit == *unit {
            return Some(e);
        }
        e = e + 1;
    }
    None
}

spec fn groups_ok(s: Seq<Item>, k: int, groups: Seq<GroupAcc>) -> bool {
    &&& forall|g: int|
        0 <= g < groups.len() ==> {
            let a = #[trigger] groups[g];
            &&& (a.first as int) < k
            &&& is_first_of(s, a.name@, a.first as int)
            &&& is_least_order(s, k, a.name@, a.order)
        }
    &&& forall|g: int, h: int| 0 <= g < h < groups.len() ==> groups[g].first < groups[h].first
    &&& forall|i: int| 0 <= i < k ==> #[trigger] has_group(groups, name_key(s[i]))
}

spec fn has_group(groups: Seq<GroupAcc>, n: Seq<char>) -> bool {
    exists|g: int| 0 <= g < groups.len() && (#[trigger] groups[g]).name@ == n
}

spec fn has_entry(groups: Seq<GroupAcc>, units: Seq<UnitAcc>, n: Seq<char>, u: Seq<char>) -> bool {
    exists|e: int|
        0 <= e < units.len() && groups[(#[trigger] units[e]).group as int].name@ == n
            && units[e].unit@ == u
}

spec fn units_ok(s: Seq<Item>, k: int, groups: Seq<GroupAcc>, units: Seq<UnitAcc>) -> bool {
    &&& forall|e: int|
        0 <= e < units.len() ==> {
            let x = #[trigger] units[e];
            &&& x.group < groups.len()
            &&& (x.first as int) < k
            &&& is_first_unit(s, groups[x.group as int].name@, x.unit@, x.first as int)
            &&& x.total == unit_total(s, k, groups[x.group as int].name@, x.unit@)
        }
    &&& forall|e: int, f: int| 0 <= e < f < units.len() ==> units[e].first < units[f].first
    &&& forall|i: int|
        0 <= i < k && s[i].amount is Some && unit_key(s[i]).len() > 0 ==> #[trigger] has_entry(
            groups,
            units,
            name_key(s[i]),
            unit_key(s[i]),
        )
}

proof fn lemma_group_unique(s: Seq<Item>, k: int, groups: Seq<GroupAcc>, g: int, h: int)
    requires
        groups_ok(s, k, groups),
        0 <= g < groups.len(),
        0 <= h < groups.len(),
        groups[g].name@ == groups[h].name@,
    ensures
        g == h,
{
    let a = groups[g];
    let b = groups[h];
    if g < h {
        assert(name_key(s[a.first as int]) == a.name@);
    } else if h < g {
        assert(name_key(s[b.first as int]) == b.name@);
    }
}

proof fn lemma_unit_unique(
    s: Seq<Item>,
    k: int,
    groups: Seq<GroupAcc>,
    units: Seq<UnitAcc>,
    e: int,
    f: int,
)
    requires
        units_ok(s, k, groups, units),
        0 <= e < units.len(),
        0 <= f < units.len(),
        groups[units[e].group as int].name@ == groups[units[f].group as int].name@,
        units[e].unit@ == units[f].unit@,
    ensures
        e == f,
{
    let a = units[e];
    let b = units[f];
    if e < f {
        assert(counts_toward(s[a.first as int], groups[a.group as int].name@, a.unit@));
    } else if f < e {
        assert(counts_toward(s[b.first as int], groups[b.group as int].name@, b.unit@));
    }
}

/// Puts item `k` into its group, adding the group if it is new.
fn group_step(groups: &mut Vec<GroupAcc>, items: &Vec<Item>, k: usize) -> (g: usize)
    requires
        k < items@.len(),
        groups_ok(items@, k as int, old(groups)@),
    ensures
        groups_ok(items@, k + 1, final(groups)@),
        g < final(groups)@.len(),
        final(groups)@[g as int].name@ == name_key(items@[k as int]),
        final(groups)@.len() >= old(groups)@.len(),
        forall|h: int| 0 <= h < old(groups)@.len() ==> (#[trigger] final(groups)@[h]).name@ == old(groups)@[h].name@,
{
    let ghost s = items@;
    let it = &items[k];
    let tn = trim(it.name.as_str());
    assert(tn@ == name_key(s[k as int]));
    let ghost g_before = groups@;
    match find_group(&groups, &tn) {
            Some(g) => {
                if it.order < groups[g].order {
                    let old_g = groups.remove(g);
                    groups.insert(g, GroupAcc { name: old_g.name, order: it.order, first: old_g.first });
                    assert(groups@ =~= g_before.update(g as int, groups@[g as int]));
                }
                proof {
                    assert forall|h: int| 0 <= h < groups@.len() implies {
                        let a = #[trigger] groups@[h];
                        &&& (a.first as int) < k + 1
                        &&& is_first_of(s, a.name@, a.first as int)
                        &&& is_least_order(s, k + 1, a.name@, a.order)
                    } by {
                        let a = groups@[h];
                        if h == g {
                            if it.order < g_before[g as int].order {
                                assert(s[k as int].order == a.order);
                            } else {
                                let w = choose|i: int| 0 <= i < k && name_key(s[i]) == a.name@ && s[i].order == g_before[g as int].order;
                                assert(s[w].order == a.order);
                            }
                        } else {
                            assert(a == g_before[h]);
                            if a.name@ == tn@ {
                                lemma_group_unique(s, k as int, g_before, g as int, h);
                            }
                            let w = choose|i: int| 0 <= i < k && name_key(s[i]) == a.name@ && s[i].order == a.order;
                            assert(0 <= w < k + 1 && name_key(s[w]) == a.name@ && s[w].order == a.order);
                        }
                    }
                    assert forall|i: int| 0 <= i < k + 1 implies #[trigger] has_group(groups@, name_key(s[i])) by {
                        if i == k {
                            assert(groups@[g as int].name@ == name_key(s[i]));
                        } else {
                            assert(has_group(g_before, name_key(s[i])));
                            let h = choose|h: int| 0 <= h < g_before.len() && (#[trigger] g_before[h]).name@ == name_key(s[i]);
                            assert(groups@[h].name@ == g_before[h].name@);
                        }
                    }
                }
                g
            },
            None => {
                let ng = groups.len();
                groups.push(GroupAcc { name: tn, order: it.order, first: k });
                proof {
                    assert forall|i: int| #![trigger s[i]] 0 <= i < k implies name_key(s[i]) != tn@ by {
                        assert(has_group(g_before, name_key(s[i])));
                            assert(has_group(g_before, name_key(s[i])));
                        let h = choose|h: int| 0 <= h < g_before.len() && (#[trigger] g_before[h]).name@ == name_key(s[i]);
                    }
                    assert forall|h: int| 0 <= h < groups@.len() implies {
                        let a = #[trigger] groups@[h];
                        &&& (a.first as int) < k + 1
                        &&& is_first_of(s, a.name@, a.first as int)
                        &&& is_least_order(s, k + 1, a.name@, a.order)
                    } by {
                        let a = groups@[h];
                        if h == ng {
                            assert(s[k as int].order == a.order);
                        } else {
                            assert(a == g_before[h]);
                            let w = choose|i: int| 0 <= i < k && name_key(s[i]) == a.name@ && s[i].order == a.order;
                            assert(0 <= w < k + 1 && name_key(s[w]) == a.name@ && s[w].order == a.order);
                        }
                    }
                    assert forall|i: int| 0 <= i < k + 1 implies #[trigger] has_group(groups@, name_key(s[i])) by {
                        if i == k {
                            assert(groups@[ng as int].name@ == name_key(s[i]));
                        } else {
                            assert(has_group(g_before, name_key(s[i])));
                            let h = choose|h: int| 0 <= h < g_before.len() && (#[trigger] g_before[h]).name@ == name_key(s[i]);
                            assert(groups@[h] == g_before[h]);
                        }
                    }
                }
                ng
            },
        }
}

proof fn lemma_units_regroup(
    s: Seq<Item>,
    k: int,
    g_old: Seq<GroupAcc>,
    g_new: Seq<GroupAcc>,
    units: Seq<UnitAcc>,
)
    requires
        units_ok(s, k, g_old, units),
        g_new.len() >= g_old.len(),
        forall|h: int| 0 <= h < g_old.len() ==> (#[trigger] g_new[h]).name@ == g_old[h].name@,
    ensures
        units_ok(s, k, g_new, units),
{
    assert forall|e: int| 0 <= e < units.len() implies g_new[(#[trigger] units[e]).group as int].name@
        == g_old[units[e].group as int].name@ by {
    }
    assert forall|i: int|
        0 <= i < k && s[i].amount is Some && unit_key(s[i]).len() > 0 implies #[trigger] has_entry(g_new, units, name_key(s[i]), unit_key(s[i])) by {
        assert(has_entry(g_old, units, name_key(s[i]), unit_key(s[i])));
        let e = choose|e: int| 0 <= e < units.len() && g_old[(#[trigger] units[e]).group as int].name@ == name_key(s[i]) && units[e].unit@ == unit_key(s[i]);
        assert(g_new[units[e].group as int].name@ == g_old[units[e].group as int].name@);
    }
}

proof fn lemma_units_unchanged(s: Seq<Item>, k: int, groups: Seq<GroupAcc>, units: Seq<UnitAcc>)
    requires
        0 <= k < s.len(),
        units_ok(s, k, groups, units),
        !(s[k].amount is Some && unit_key(s[k]).len() > 0),
    ensures
        units_ok(s, k + 1, groups, units),
{
    assert forall|e: int| 0 <= e < units.len() implies (#[trigger] units[e]).total == unit_total(
        s,
        k + 1,
        groups[units[e].group as int].name@,
        units[e].unit@,
    ) by {
        lemma_unit_total_step(s, k, groups[units[e].group as int].name@, units[e].unit@);
    }
}

proof fn lemma_units_add(
    s: Seq<Item>,
    k: int,
    groups: Seq<GroupAcc>,
    before: Seq<UnitAcc>,
    after: Seq<UnitAcc>,
    e: int,
)
    requires
        0 <= k < s.len(),
        groups_ok(s, k + 1, groups),
        units_ok(s, k, groups, before),
        0 <= e < before.len(),
        s[k].amount is Some,
        unit_key(s[k]).len() > 0,
        groups[before[e].group as int].name@ == name_key(s[k]),
        before[e].unit@ == unit_key(s[k]),
        before[e].total + thousandths_of(s[k]) <= u128::MAX,
        after == before.update(
            e,
            UnitAcc {
                group: before[e].group,
                unit: before[e].unit,
                first: before[e].first,
                total: (before[e].total + thousandths_of(s[k])) as u128,
            },
        ),
    ensures
        units_ok(s, k + 1, groups, after),
{
    assert forall|f: int| 0 <= f < after.len() implies (#[trigger] after[f]).total == unit_total(
        s,
        k + 1,
        groups[after[f].group as int].name@,
        after[f].unit@,
    ) by {
        let x = before[f];
        let xn = groups[x.group as int].name@;
        lemma_unit_total_step(s, k, xn, x.unit@);
        if f != e && counts_toward(s[k], xn, x.unit@) {
            lemma_unit_unique(s, k, groups, before, e, f);
        }
    }
    assert forall|i: int|
        0 <= i < k + 1 && s[i].amount is Some && unit_key(s[i]).len() > 0 implies #[trigger] has_entry(
        groups,
        after,
        name_key(s[i]),
        unit_key(s[i]),
    ) by {
        if i < k {
            assert(has_entry(groups, before, name_key(s[i]), unit_key(s[i])));
            let f = choose|f: int|
                0 <= f < before.len() && groups[(#[trigger] before[f]).group as int].name@
                    == name_key(s[i]) && before[f].unit@ == unit_key(s[i]);
            assert(after[f].group == before[f].group && after[f].unit == before[f].unit);
        } else {
            assert(after[e].group == before[e].group && after[e].unit == before[e].unit);
        }
    }
    assert forall|f1: int, f2: int| 0 <= f1 < f2 < after.len() implies after[f1].first
        < after[f2].first by {
        assert(after[f1].first == before[f1].first);
        assert(after[f2].first == before[f2].first);
    }
}

proof fn lemma_units_new(
    s: Seq<Item>,
    k: int,
    groups: Seq<GroupAcc>,
    before: Seq<UnitAcc>,
    after: Seq<UnitAcc>,
    g: int,
    x: UnitAcc,
)
    requires
        0 <= k < s.len(),
        groups_ok(s, k + 1, groups),
        units_ok(s, k, groups, before),
        0 <= g < groups.len(),
        s[k].amount is Some,
        unit_key(s[k]).len() > 0,
        groups[g].name@ == name_key(s[k]),
        forall|f: int| 0 <= f < before.len() ==> !(before[f].group == g && before[f].unit@ == unit_key(s[k])),
        x.group == g,
        x.unit@ == unit_key(s[k]),
        x.first == k,
        x.total == thousandths_of(s[k]),
        after == before.push(x),
    ensures
        units_ok(s, k + 1, groups, after),
{
    let n = name_key(s[k]);
    let u = unit_key(s[k]);
    assert forall|i: int| 0 <= i < k implies !counts_toward(#[trigger] s[i], n, u) by {
        if counts_toward(s[i], n, u) {
            assert(has_entry(groups, before, name_key(s[i]), unit_key(s[i])));
            let f = choose|f: int|
                0 <= f < before.len() && groups[(#[trigger] before[f]).group as int].name@
                    == name_key(s[i]) && before[f].unit@ == unit_key(s[i]);
            lemma_group_unique(s, k + 1, groups, g, before[f].group as int);
        }
    }
    assert(is_first_unit(s, n, u, k));
    assert(unit_total(s, k, n, u) == 0) by {
        lemma_unit_total_zero(s, k, n, u);
    }
    assert forall|f: int| 0 <= f < after.len() implies (#[trigger] after[f]).total == unit_total(
        s,
        k + 1,
        groups[after[f].group as int].name@,
        after[f].unit@,
    ) by {
        let y = after[f];
        let yn = groups[y.group as int].name@;
        lemma_unit_total_step(s, k, yn, y.unit@);
        if f < before.len() && counts_toward(s[k], yn, y.unit@) {
            lemma_group_unique(s, k + 1, groups, g, y.group as int);
        }
    }
    assert forall|i: int|
        0 <= i < k + 1 && s[i].amount is Some && unit_key(s[i]).len() > 0 implies #[trigger] has_entry(
        groups,
        after,
        name_key(s[i]),
        unit_key(s[i]),
    ) by {
        if i < k {
            assert(has_entry(groups, before, name_key(s[i]), unit_key(s[i])));
            let f = choose|f: int|
                0 <= f < before.len() && groups[(#[trigger] before[f]).group as int].name@
                    == name_key(s[i]) && before[f].unit@ == unit_key(s[i]);
            assert(after[f] == before[f]);
        } else {
            assert(after[before.len() as int] == x);
        }
    }
    assert forall|f: int| 0 <= f < after.len() implies {
        let y = #[trigger] after[f];
        &&& y.group < groups.len()
        &&& (y.first as int) < k + 1
        &&& is_first_unit(s, groups[y.group as int].name@, y.unit@, y.first as int)
    } by {
        if f < before.len() {
            assert(after[f] == before[f]);
        }
    }
}

proof fn lemma_unit_total_zero(s: Seq<Item>, k: int, n: Seq<char>, u: Seq<char>)
    requires
        0 <= k <= s.len(),
        forall|i: int| 0 <= i < k ==> !counts_toward(#[trigger] s[i], n, u),
    ensures
        unit_total(s, k, n, u) == 0,
    decreases k,
{
    if k > 0 {
        lemma_unit_total_zero(s, k - 1, n, u);
    }
}

/// Adds the amount of item `k`, if it has a unit, to the total of its group and unit.
fn unit_step(units: &mut Vec<UnitAcc>, groups: &Vec<GroupAcc>, items: &Vec<Item>, k: usize, g: usize)
    requires
        k < items@.len(),
        groups_ok(items@, k + 1, groups@),
        units_ok(items@, k as int, groups@, old(units)@),
        g < groups@.len(),
        groups@[g as int].name@ == name_key(items@[k as int]),
    ensures
        units_ok(items@, k + 1, groups@, final(units)@),
{
    let ghost s = items@;
    let ghost before = units@;
    let it = &items[k];
    match &it.amount {
        Some((qty, unit)) => {
            let tu = trim(unit.as_str());
            assert(tu@ == unit_key(s[k as int]));
            if tu.as_str().is_empty() {
                proof {
                    lemma_units_unchanged(s, k as int, groups@, units@);
                }
                return;
            }
            let q = qty.thousandths as u128;
            assert(q == thousandths_of(s[k as int]));
            match find_unit(units, g, &tu) {
                Some(e) => {
                    proof {
                        let x = before[e as int];
                        lemma_unit_total_bound(s, k as int, groups@[x.group as int].name@, x.unit@);
                        assert((k + 1) * 18446744073709551615 <= 340282366920938463463374607431768211455)
                            by (nonlinear_arith)
                            requires
                                k + 1 <= 18446744073709551616,
                        ;
                    }
                    let old_u = units.remove(e);
                    units.insert(
                        e,
                        UnitAcc {
                            group: old_u.group,
                            unit: old_u.unit,
                            first: old_u.first,
                            total: old_u.total + q,
                        },
                    );
                    proof {
                        assert(units@ =~= before.update(e as int, units@[e as int]));
                        lemma_units_add(s, k as int, groups@, before, units@, e as int);
                    }
                },
                None => {
                    let x = UnitAcc { group: g, unit: tu, first: k, total: q };
                    let ghost xg = x;
                    units.push(x);
                    proof {
                        lemma_units_new(s, k as int, groups@, before, units@, g as int, xg);
                    }
                },
            }
        },
        None => {
            proof {
                lemma_units_unchanged(s, k as int, groups@, units@);
            }
        },
    }
}

/// Groups the items by trimmed name, and sums their quantities per trimmed unit.
fn accumulate(items: &Vec<Item>) -> (r: (Vec<GroupAcc>, Vec<UnitAcc>))
    ensures
        groups_ok(items@, items@.len() as int, r.0@),
        units_ok(items@, items@.len() as int, r.0@, r.1@),
{
    let ghost s = items@;
    let mut groups: Vec<GroupAcc> = Vec::new();
    let mut units: Vec<UnitAcc> = Vec::new();
    let mut k: usize = 0;
    while k < items.len()
        invariant
            s == items@,
            k <= s.len(),
            groups_ok(s, k as int, groups@),
            units_ok(s, k as int, groups@, units@),
        decreases s.len() - k,
    {
        let ghost g_old = groups@;
        let g = group_step(&mut groups, items, k);
        proof {
            lemma_units_regroup(s, k as int, g_old, groups@, units@);
        }
        unit_step(&mut units, &groups, items, k, g);
        k = k + 1;
    }
    (groups, units)
}

spec fn key_lt(a: GroupAcc, b: GroupAcc) -> bool {
    a.order < b.order || (a.order == b.order && a.first < b.first)
}

/// The positions of the groups, ordered by least order, then by first occurrence.
fn sort_groups(groups: &Vec<GroupAcc>) -> (idx: Vec<usize>)
    requires
        forall|g: int, h: int| 0 <= g < h < groups@.len() ==> groups@[g].first < groups@[h].first,
    ensures
        idx@.len() == groups@.len(),
        forall|t: int| 0 <= t < idx@.len() ==> idx@[t] < groups@.len(),
        forall|g: usize| g < groups@.len() ==> #[trigger] idx@.contains(g),
        forall|t1: int, t2: int|
            0 <= t1 < t2 < idx@.len() ==> key_lt(groups@[idx@[t1] as int], groups@[idx@[t2] as int]),
{
    let mut idx: Vec<usize> = Vec::new();
    let mut g: usize = 0;
    while g < groups.len()
        invariant
            g <= groups@.len(),
            forall|a: int, b: int| 0 <= a < b < groups@.len() ==> groups@[a].first < groups@[b].first,
            idx@.len() == g,
            forall|t: int| 0 <= t < idx@.len() ==> idx@[t] < g,
            forall|x: usize| x < g ==> #[trigger] idx@.contains(x),
            forall|t1: int, t2: int|
                0 <= t1 < t2 < idx@.len() ==> key_lt(groups@[idx@[t1] as int], groups@[idx@[t2] as int]),
        decreases groups@.len() - g,
    {
        let mut p: usize = 0;
        while p < idx.len() && (groups[idx[p]].order < groups[g].order || (groups[idx[p]].order
            == groups[g].order && groups[idx[p]].first < groups[g].first))
            invariant
                p <= idx@.len(),
                g < groups@.len(),
                forall|t: int| 0 <= t < idx@.len() ==> idx@[t] < g,
                forall|t: int| 0 <= t < p ==> key_lt(groups@[idx@[t] as int], groups@[g as int]),
            decreases idx@.len() - p,
        {
            p = p + 1;
        }
        let ghost before = idx@;
        idx.insert(p, g);
        proof {
            assert forall|t: int| p < t < idx@.len() implies key_lt(groups@[g as int], groups@[idx@[t] as int]) by {
                let a = groups@[before[p as int] as int];
                let b = groups@[g as int];
                assert(a.first != b.first);
                if t > p + 1 {
                    assert(key_lt(a, groups@[before[t - 1] as int]));
                }
            }
            assert forall|x: usize| x < g + 1 implies #[trigger] idx@.contains(x) by {
                if x == g {
                    assert(idx@[p as int] == x);
                } else {
                    assert(before.contains(x));
                    let t = choose|t: int| 0 <= t < before.len() && before[t] == x;
                    if t < p {
                        assert(idx@[t] == x);
                    } else {
                        assert(idx@[t + 1] == x);
                    }
                }
            }
            assert forall|t1: int, t2: int|
                0 <= t1 < t2 < idx@.len() implies key_lt(groups@[idx@[t1] as int], groups@[idx@[t2] as int]) by {
                if t1 < p && t2 > p {
                    assert(key_lt(groups@[idx@[t1] as int], groups@[g as int]));
                    assert(key_lt(groups@[g as int], groups@[idx@[t2] as int]));
                } else if t1 < p && t2 < p {
                    assert(idx@[t1] == before[t1] && idx@[t2] == before[t2]);
                } else if t1 > p {
                    assert(idx@[t1] == before[t1 - 1] && idx@[t2] == before[t2 - 1]);
                } else if t2 < p {
                } else if t1 < p {
                    assert(idx@[t1] == before[t1]);
                }
            }
        }
        g = g + 1;
    }
    idx
}

proof fn lemma_first_unit_is(s: Seq<Item>, n: Seq<char>, u: Seq<char>, f: int)
    requires
        is_first_unit(s, n, u, f),
    ensures
        first_unit(s, n, u) == f,
{
    let c = first_unit(s, n, u);
    assert(is_first_unit(s, n, u, c));
    if c < f {
        assert(counts_toward(s[c], n, u));
    } else if f < c {
        assert(counts_toward(s[f], n, u));
    }
}

proof fn lemma_first_of_is(s: Seq<Item>, n: Seq<char>, f: int)
    requires
        is_first_of(s, n, f),
    ensures
        first_of(s, n) == f,
{
    let c = first_of(s, n);
    assert(is_first_of(s, n, c));
    if c < f {
        assert(name_key(s[c]) == n);
    } else if f < c {
        assert(name_key(s[f]) == n);
    }
}

/// The amount text of group `g`: its unit totals, in the order of the entries.
fn amount_of(groups: &Vec<GroupAcc>, units: &Vec<UnitAcc>, items: &Vec<Item>, g: usize) -> (r: Option<String>)
    requires
        groups_ok(items@, items@.len() as int, groups@),
        units_ok(items@, items@.len() as int, groups@, units@),
        g < groups@.len(),
    ensures
        amount_ok(items@, groups@[g as int].name@, r),
{
    let ghost s = items@;
    let ghost n = groups@[g as int].name@;
    let ghost sep = seq![',', ' '];
    let mut acc: Vec<char> = Vec::new();
    let ghost mut us: Seq<Seq<char>> = Seq::empty();
    let ghost mut fs: Seq<int> = Seq::empty();
    let mut any = false;
    let mut e: usize = 0;
    while e < units.len()
        invariant
            s == items@,
            n == groups@[g as int].name@,
            sep == seq![',', ' '],
            g < groups@.len(),
            groups_ok(s, s.len() as int, groups@),
            units_ok(s, s.len() as int, groups@, units@),
            e <= units@.len(),
            any == (us.len() > 0),
            us.len() == fs.len(),
            forall|a: int| 0 <= a < fs.len() ==> 0 <= #[trigger] fs[a] < e && units@[fs[a]].group == g
                && us[a] == units@[fs[a]].unit@,
            forall|a: int, b: int| 0 <= a < b < fs.len() ==> fs[a] < fs[b],
            forall|f: int| 0 <= f < e && #[trigger] units@[f].group == g ==> us.contains(units@[f].unit@),
            acc@ == amount_text(s, n, us),
        decreases units@.len() - e,
    {
        if units[e].group == g {
            let ghost prev = us;
            let ghost texts = prev.map_values(|u: Seq<char>| unit_text(s, n, u));
            if any {
                acc.push(',');
                acc.push(' ');
            }
            push_thousandths(&mut acc, units[e].total);
            acc.push(' ');
            let uc = chars_of(units[e].unit.as_str());
            push_all(&mut acc, &uc);
            proof {
                let x = units@[e as int];
                us = prev.push(x.unit@);
                fs = fs.push(e as int);
                let nt = us.map_values(|u: Seq<char>| unit_text(s, n, u));
                assert(nt.drop_last() =~= texts);
                assert(nt.last() == unit_text(s, n, x.unit@));
                if prev.len() > 0 {
                    assert(texts.drop_last() =~= prev.drop_last().map_values(|u: Seq<char>| unit_text(s, n, u)));
                    assert(crate::text::join_prefix(texts, sep) =~= crate::text::join_prefix(texts.drop_last(), sep) + texts.last() + sep);
                    assert(acc@ =~= amount_text(s, n, us));
                } else {
                    assert(nt.drop_last() =~= Seq::<Seq<char>>::empty());
                    assert(crate::text::join_prefix(Seq::<Seq<char>>::empty(), sep) =~= Seq::<char>::empty());
                    assert(acc@ =~= amount_text(s, n, us));
                }
                assert forall|f: int| 0 <= f < e + 1 && #[trigger] units@[f].group == g implies us.contains(units@[f].unit@) by {
                    if f < e {
                        assert(prev.contains(units@[f].unit@));
                        let j = choose|j: int| 0 <= j < prev.len() && prev[j] == units@[f].unit@;
                        assert(us[j] == prev[j]);
                    } else {
                        assert(us[us.len() - 1] == x.unit@);
                    }
                }
            }
            any = true;
        }
        e = e + 1;
    }
    proof {
        assert forall|u: Seq<char>| us.contains(u) <==> has_unit(s, s.len() as int, n, u) by {
            if us.contains(u) {
                let a = choose|a: int| 0 <= a < us.len() && us[a] == u;
                let x = units@[fs[a]];
                assert(counts_toward(s[x.first as int], n, u));
            }
            if has_unit(s, s.len() as int, n, u) {
                let i = choose|i: int| 0 <= i < s.len() && counts_toward(s[i], n, u);
                assert(has_entry(groups@, units@, name_key(s[i]), unit_key(s[i])));
                let f = choose|f: int|
                    0 <= f < units@.len() && groups@[(#[trigger] units@[f]).group as int].name@
                        == name_key(s[i]) && units@[f].unit@ == unit_key(s[i]);
                lemma_group_unique(s, s.len() as int, groups@, g as int, units@[f].group as int);
            }
        }
        assert forall|a: int, b: int| 0 <= a < b < us.len() implies first_unit(s, n, us[a]) < first_unit(s, n, us[b]) by {
            lemma_first_unit_is(s, n, us[a], units@[fs[a]].first as int);
            lemma_first_unit_is(s, n, us[b], units@[fs[b]].first as int);
        }
        assert forall|a: int| 0 <= a < us.len() implies unit_total(s, s.len() as int, n, us[a]) == units@[fs[a]].total by {
        }
    }
    if any {
        let r = string_of(&acc);
        assert(is_unit_list(s, n, us) && us.len() > 0 && r@ == amount_text(s, n, us));
        Some(r)
    } else {
        assert forall|u: Seq<char>| !has_unit(s, s.len() as int, n, u) by {
            if has_unit(s, s.len() as int, n, u) {
                assert(us.contains(u));
            }
        }
        None
    }
}

/// Aggregates items into a shopping list: one entry per trimmed name, ordered
/// by the least order among its items (then by first occurrence), with the
/// quantities of each trimmed, non-empty unit summed and written as
/// `"<sum> <unit>"`, joined by `", "` in the order in which the units first
/// occur; an entry whose items carry no unit has no amount.
pub fn compress_items(items: &Vec<Item>) -> (r: Vec<FinalItem>)
    ensures
        is_aggregate(items@, r@),
{
    let ghost s = items@;
    let (groups, units) = accumulate(items);
    let idx = sort_groups(&groups);
    let mut out: Vec<FinalItem> = Vec::new();
    let mut t: usize = 0;
    while t < idx.len()
        invariant
            s == items@,
            groups_ok(s, s.len() as int, groups@),
            units_ok(s, s.len() as int, groups@, units@),
            idx@.len() == groups@.len(),
            forall|j: int| 0 <= j < idx@.len() ==> idx@[j] < groups@.len(),
            forall|t1: int, t2: int|
                0 <= t1 < t2 < idx@.len() ==> key_lt(groups@[idx@[t1] as int], groups@[idx@[t2] as int]),
            t <= idx@.len(),
            out@.len() == t,
            forall|j: int|
                0 <= j < t ==> {
                    let e = #[trigger] out@[j];
                    let a = groups@[idx@[j] as int];
                    &&& e.name@ == a.name@
                    &&& e.order == a.order
                    &&& e.id is None
                    &&& amount_ok(s, e.name@, e.amount)
                },
        decreases idx@.len() - t,
    {
        let g = idx[t];
        let amount = amount_of(&groups, &units, items, g);
        let name = groups[g].name.clone();
        out.push(FinalItem { id: None, name, amount, order: groups[g].order });
        t = t + 1;
    }
    proof {
        let r = out@;
        assert forall|j: int| 0 <= j < r.len() implies is_first_of(s, r[j].name@, groups@[idx@[j] as int].first as int) && is_least_order(s, s.len() as int, r[j].name@, r[j].order) by {
            let a = groups@[idx@[j] as int];
            assert(r[j].name@ == a.name@);
        }
        assert forall|n: Seq<char>| named_in(s, s.len() as int, n) <==> exists|k: int|
            0 <= k < r.len() && (#[trigger] r[k]).name@ == n by {
            if named_in(s, s.len() as int, n) {
                let i = choose|i: int| 0 <= i < s.len() && name_key(s[i]) == n;
                assert(has_group(groups@, name_key(s[i])));
                let g = choose|g: int| 0 <= g < groups@.len() && (#[trigger] groups@[g]).name@ == n;
                assert(idx@.contains(g as usize));
                let k = choose|k: int| 0 <= k < idx@.len() && idx@[k] == g as usize;
                assert(r[k].name@ == n);
            }
            if exists|k: int| 0 <= k < r.len() && (#[trigger] r[k]).name@ == n {
                let k = choose|k: int| 0 <= k < r.len() && (#[trigger] r[k]).name@ == n;
                let a = groups@[idx@[k] as int];
                assert(name_key(s[a.first as int]) == n);
            }
        }
        assert forall|k: int, l: int| 0 <= k < l < r.len() implies comes_before(s, r[k], r[l]) by {
            let a = groups@[idx@[k] as int];
            let b = groups@[idx@[l] as int];
            lemma_first_of_is(s, r[k].name@, a.first as int);
            lemma_first_of_is(s, r[l].name@, b.first as int);
            assert(key_lt(a, b));
        }
    }
    out
}

/// `q` thousandths scaled by a factor of `f` thousandths, rounded half up.
pub open spec fn scaled(q: nat, f: nat) -> nat {
    (q * f + 500) / 1000
}

/// The ingredients of a food, each with the factor of the meal.
pub open spec fn food_uses(food: Food, factor: Quantity) -> Seq<(Ingredient, Quantity)> {
    food.ingredients@.map_values(|i: Ingredient| (i, factor))
}

/// The ingredients that a meal slot uses, food by food.
pub open spec fn slot_uses(slot: Seq<(Food, Quantity)>) -> Seq<(Ingredient, Quantity)>
    decreases slot.len(),
{
    if slot.len() == 0 {
        Seq::empty()
    } else {
        slot_uses(slot.drop_last()) + food_uses(slot.last().0, slot.last().1)
    }
}

/// The ingredients that the days use, day by day, lunch before dinner.
pub open spec fn day_uses(days: Seq<Day>) -> Seq<(Ingredient, Quantity)>
    decreases days.len(),
{
    if days.len() == 0 {
        Seq::empty()
    } else {
        day_uses(days.drop_last()) + slot_uses(days.last().lunch@) + slot_uses(days.last().dinner@)
    }
}

/// The use can become an item at position `pos`: the position fits an order,
/// and the scaled quantity fits.
pub open spec fn fits_at(u: (Ingredient, Quantity), pos: int) -> bool {
    &&& pos <= i32::MAX
    &&& match u.0.amount {
        Some((q, _)) => scaled(q.thousandths as nat, u.1.thousandths as nat) <= u64::MAX,
        None => true,
    }
}

/// The item that a use becomes at position `pos`: the ingredient's name, its
/// quantity scaled by the factor (unit unchanged), and the position as order.
pub open spec fn used_item(u: (Ingredient, Quantity), pos: int) -> Item {
    Item {
        id: None,
        name: u.0.name,
        amount: match u.0.amount {
            Some((q, unit)) => Some(
                (Quantity { thousandths: scaled(q.thousandths as nat, u.1.thousandths as nat) as u64 }, unit),
            ),
            None => None,
        },
        order: pos as i32,
    }
}

pub open spec fn used_items(us: Seq<(Ingredient, Quantity)>, base: int) -> Seq<Item> {
    Seq::new(us.len(), |k: int| used_item(us[k], base + k))
}

pub open spec fn all_fit(us: Seq<(Ingredient, Quantity)>, base: int) -> bool {
    forall|k: int| 0 <= k < us.len() ==> fits_at(#[trigger] us[k], base + k)
}

/// A default item placed at position `pos`: its order becomes the position.
pub open spec fn placed(it: Item, pos: int) -> Item {
    Item { id: it.id, name: it.name, amount: it.amount, order: pos as i32 }
}

proof fn lemma_slot_uses_prefix(s: Seq<(Food, Quantity)>, j: int)
    requires
        0 <= j <= s.len(),
    ensures
        slot_uses(s.subrange(0, j)).len() <= slot_uses(s).len(),
        slot_uses(s).subrange(0, slot_uses(s.subrange(0, j)).len() as int) == slot_uses(
            s.subrange(0, j),
        ),
    decreases s.len(),
{
    if j == s.len() {
        assert(s.subrange(0, j) =~= s);
        assert(slot_uses(s).subrange(0, slot_uses(s).len() as int) =~= slot_uses(s));
    } else {
        lemma_slot_uses_prefix(s.drop_last(), j);
        assert(s.drop_last().subrange(0, j) =~= s.subrange(0, j));
        let a = slot_uses(s.subrange(0, j));
        assert(slot_uses(s).subrange(0, a.len() as int) =~= slot_uses(s.drop_last()).subrange(0, a.len() as int));
    }
}

proof fn lemma_day_uses_prefix(s: Seq<Day>, j: int)
    requires
        0 <= j <= s.len(),
    ensures
        day_uses(s.subrange(0, j)).len() <= day_uses(s).len(),
        day_uses(s).subrange(0, day_uses(s.subrange(0, j)).len() as int) == day_uses(
            s.subrange(0, j),
        ),
    decreases s.len(),
{
    if j == s.len() {
        assert(s.subrange(0, j) =~= s);
        assert(day_uses(s).subrange(0, day_uses(s).len() as int) =~= day_uses(s));
    } else {
        lemma_day_uses_prefix(s.drop_last(), j);
        assert(s.drop_last().subrange(0, j) =~= s.subrange(0, j));
        let a = day_uses(s.subrange(0, j));
        assert(day_uses(s).subrange(0, a.len() as int) =~= day_uses(s.drop_last()).subrange(0, a.len() as int));
    }
}

/// Appends the items that a food's ingredients become; `false`, with `out`
/// unspecified, where one does not fit.
fn push_food(out: &mut Vec<Item>, food: &Food, factor: Quantity) -> (ok: bool)
    ensures
        ok ==> all_fit(food_uses(*food, factor), old(out)@.len() as int),
        ok ==> final(out)@ == old(out)@ + used_items(food_uses(*food, factor), old(out)@.len() as int),
        !ok ==> !all_fit(food_uses(*food, factor), old(out)@.len() as int),
{
    let ghost base = old(out)@;
    let ghost us = food_uses(*food, factor);
    let mut i: usize = 0;
    while i < food.ingredients.len()
        invariant
            us == food_uses(*food, factor),
            base == old(out)@,
            i <= us.len(),
            out@ == base + used_items(us.subrange(0, i as int), base.len() as int),
            all_fit(us.subrange(0, i as int), base.len() as int),
        decreases us.len() - i,
    {
        let ing = &food.ingredients[i];
        let pos = out.len();
        assert(us[i as int] == (*ing, factor));
        assert(out@.len() == base.len() + i);
        if pos > 2147483647 {
            assert(!fits_at(us[i as int], base.len() + i));
            assert(!all_fit(us, base.len() as int));
            assert(!all_fit(food_uses(*food, factor), old(out)@.len() as int));
            return false;
        }
        let amount: Option<Amount> = match &ing.amount {
            Some((q, unit)) => {
                let a: u128 = q.thousandths as u128;
                let b: u128 = factor.thousandths as u128;
                assert(a * b <= 18446744073709551615 * 18446744073709551615) by (nonlinear_arith)
                    requires
                        a <= 18446744073709551615,
                        b <= 18446744073709551615,
                ;
                let p: u128 = (a * b + 500) / 1000;
                if p > 18446744073709551615 {
                    assert(!fits_at(us[i as int], base.len() + i));
                    assert(!all_fit(us, base.len() as int));
                    return false;
                }
                Some((Quantity { thousandths: p as u64 }, unit.clone()))
            },
            None => None,
        };
        let item = Item { id: None, name: ing.name.clone(), amount, order: pos as i32 };
        let ghost before = out@;
        out.push(item);
        proof {
            assert(item == used_item(us[i as int], base.len() + i));
            assert(used_items(us.subrange(0, i + 1), base.len() as int) =~= used_items(
                us.subrange(0, i as int),
                base.len() as int,
            ).push(used_item(us[i as int], base.len() + i)));
            assert(out@ =~= base + used_items(us.subrange(0, i + 1), base.len() as int));
            assert forall|k: int| 0 <= k < i + 1 implies fits_at(#[trigger] us.subrange(0, i + 1)[k], base.len() + k) by {
                if k < i {
                    assert(us.subrange(0, i + 1)[k] == us.subrange(0, i as int)[k]);
                }
            }
        }
        i = i + 1;
    }
    assert(us.subrange(0, us.len() as int) =~= us);
    true
}

/// Appends the items that a meal slot's ingredients become.
fn push_slot(out: &mut Vec<Item>, slot: &Vec<(Food, Quantity)>) -> (ok: bool)
    ensures
        ok ==> all_fit(slot_uses(slot@), old(out)@.len() as int),
        ok ==> final(out)@ == old(out)@ + used_items(slot_uses(slot@), old(out)@.len() as int),
        !ok ==> !all_fit(slot_uses(slot@), old(out)@.len() as int),
{
    let ghost base = old(out)@;
    let mut j: usize = 0;
    while j < slot.len()
        invariant
            base == old(out)@,
            j <= slot@.len(),
            out@ == base + used_items(slot_uses(slot@.subrange(0, j as int)), base.len() as int),
            all_fit(slot_uses(slot@.subrange(0, j as int)), base.len() as int),
        decreases slot@.len() - j,
    {
        let ghost pre = slot_uses(slot@.subrange(0, j as int));
        let ghost mid = out@;
        let ok = push_food(out, &slot[j].0, slot[j].1);
        let ghost fu = food_uses(slot@[j as int].0, slot@[j as int].1);
        assert(!ok ==> !all_fit(slot_uses(slot@), base.len() as int)) by {
            let sub = slot@.subrange(0, j + 1);
            assert(sub.drop_last() =~= slot@.subrange(0, j as int));
            assert(slot_uses(sub) == pre + fu);
            lemma_slot_uses_prefix(slot@, j + 1);
            assert(mid.len() == base.len() + pre.len());
            if !ok {
                let k = choose|k: int| 0 <= k < fu.len() && !fits_at(#[trigger] fu[k], mid.len() + k);
                let whole = slot_uses(slot@);
                assert(whole.subrange(0, (pre + fu).len() as int)[pre.len() + k] == whole[pre.len() + k]);
                assert(whole[pre.len() + k] == (pre + fu)[pre.len() + k]);
                assert(!fits_at(whole[pre.len() + k], base.len() + (pre.len() + k)));
            }
        }
        proof {
            let sub = slot@.subrange(0, j + 1);
            assert(sub.drop_last() =~= slot@.subrange(0, j as int));
            assert(slot_uses(sub) == pre + fu);
            lemma_slot_uses_prefix(slot@, j + 1);
            assert(mid.len() == base.len() + pre.len());
            if !ok {
                let k = choose|k: int| 0 <= k < fu.len() && !fits_at(#[trigger] fu[k], mid.len() + k);
                let whole = slot_uses(slot@);
                assert(whole.subrange(0, (pre + fu).len() as int)[pre.len() + k] == whole[pre.len() + k]);
                assert(whole[pre.len() + k] == (pre + fu)[pre.len() + k]);
                assert(!fits_at(whole[pre.len() + k], base.len() + (pre.len() + k)));
                assert(!all_fit(whole, base.len() as int));
            } else {
                assert(used_items(pre + fu, base.len() as int) =~= used_items(pre, base.len() as int) + used_items(fu, mid.len() as int));
                assert(out@ =~= base + used_items(slot_uses(sub), base.len() as int));
                assert forall|k: int| 0 <= k < (pre + fu).len() implies fits_at(#[trigger] (pre + fu)[k], base.len() + k) by {
                    if k < pre.len() {
                        assert(fits_at(pre[k], base.len() + k));
                    } else {
                        assert(fits_at(fu[k - pre.len()], mid.len() + (k - pre.len())));
                    }
                }
            }
        }
        if !ok {
            return false;
        }
        j = j + 1;
    }
    assert(slot@.subrange(0, slot@.len() as int) =~= slot@);
    true
}

/// The raw entries of a shopping list: the default items first, then, day by
/// day and lunch before dinner, each ingredient of each planned food with its
/// quantity scaled by the meal's factor. Every entry's order is its position.
/// `None` exactly where a position does not fit an order or a scaled quantity
/// does not fit.
pub fn shopping_items(defaults: &Vec<Item>, days: &Vec<Day>) -> (r: Option<Vec<Item>>)
    ensures
        r matches Some(v) ==> {
            &&& v@.len() == defaults@.len() + day_uses(days@).len()
            &&& forall|k: int| 0 <= k < defaults@.len() ==> v@[k] == placed(#[trigger] defaults@[k], k)
            &&& v@.subrange(defaults@.len() as int, v@.len() as int) == used_items(
                day_uses(days@),
                defaults@.len() as int,
            )
        },
        r is None ==> (defaults@.len() > i32::MAX + 1 || !all_fit(day_uses(days@), defaults@.len() as int)),
{
    let mut out: Vec<Item> = Vec::new();
    let mut k: usize = 0;
    while k < defaults.len()
        invariant
            k <= defaults@.len(),
            out@.len() == k,
            forall|j: int| 0 <= j < k ==> out@[j] == placed(#[trigger] defaults@[j], j),
        decreases defaults@.len() - k,
    {
        if k > 2147483647 {
            return None;
        }
        let d = &defaults[k];
        out.push(Item { id: d.id, name: d.name.clone(), amount: copy_amount(&d.amount), order: k as i32 });
        k = k + 1;
    }
    let ghost base = out@;
    let mut di: usize = 0;
    while di < days.len()
        invariant
            base.len() == defaults@.len(),
            forall|j: int| 0 <= j < base.len() ==> base[j] == placed(#[trigger] defaults@[j], j),
            di <= days@.len(),
            out@ == base + used_items(day_uses(days@.subrange(0, di as int)), base.len() as int),
            all_fit(day_uses(days@.subrange(0, di as int)), base.len() as int),
        decreases days@.len() - di,
    {
        let ghost pre = day_uses(days@.subrange(0, di as int));
        let ghost m1 = out@;
        let ok1 = push_slot(&mut out, &days[di].lunch);
        let ghost lu = slot_uses(days@[di as int].lunch@);
        let ghost m2 = out@;
        assert(!ok1 ==> !all_fit(day_uses(days@), base.len() as int)) by {
            let sub = days@.subrange(0, di + 1);
            assert(sub.drop_last() =~= days@.subrange(0, di as int));
            lemma_day_uses_prefix(days@, di + 1);
            assert(m1.len() == base.len() + pre.len());
            if !ok1 {
                let k = choose|k: int| 0 <= k < lu.len() && !fits_at(#[trigger] lu[k], m1.len() + k);
                let whole = day_uses(days@);
                assert(day_uses(sub) == pre + lu + slot_uses(days@[di as int].dinner@));
                assert(whole.subrange(0, day_uses(sub).len() as int)[pre.len() + k] == whole[pre.len() + k]);
                assert(whole[pre.len() + k] == day_uses(sub)[pre.len() + k]);
                assert(!fits_at(whole[pre.len() + k], base.len() + (pre.len() + k)));
            }
        }
        if !ok1 {
            return None;
        }
        let ok2 = push_slot(&mut out, &days[di].dinner);
        let ghost du = slot_uses(days@[di as int].dinner@);
        assert(!ok2 ==> !all_fit(day_uses(days@), base.len() as int)) by {
            let sub = days@.subrange(0, di + 1);
            assert(sub.drop_last() =~= days@.subrange(0, di as int));
            assert(day_uses(sub) == pre + lu + du);
            lemma_day_uses_prefix(days@, di + 1);
            assert(m1.len() == base.len() + pre.len());
            assert(m2.len() == m1.len() + lu.len());
            if !ok2 {
                let k = choose|k: int| 0 <= k < du.len() && !fits_at(#[trigger] du[k], m2.len() + k);
                let whole = day_uses(days@);
                assert(whole.subrange(0, day_uses(sub).len() as int)[pre.len() + lu.len() + k] == whole[pre.len() + lu.len() + k]);
                assert(whole[pre.len() + lu.len() + k] == day_uses(sub)[pre.len() + lu.len() + k]);
                assert(!fits_at(whole[pre.len() + lu.len() + k], base.len() + (pre.len() + lu.len() + k)));
            }
        }
        proof {
            let sub = days@.subrange(0, di + 1);
            assert(sub.drop_last() =~= days@.subrange(0, di as int));
            assert(day_uses(sub) == pre + lu + du);
            if ok2 {
                assert(used_items(pre + lu + du, base.len() as int) =~= used_items(pre, base.len() as int)
                    + used_items(lu, m1.len() as int) + used_items(du, m2.len() as int));
                assert(out@ =~= base + used_items(day_uses(sub), base.len() as int));
                assert forall|k: int| 0 <= k < (pre + lu + du).len() implies fits_at(#[trigger] (pre + lu + du)[k], base.len() + k) by {
                    if k < pre.len() {
                        assert(fits_at(pre[k], base.len() + k));
                    } else if k < pre.len() + lu.len() {
                        assert(fits_at(lu[k - pre.len()], m1.len() + (k - pre.len())));
                    } else {
                        assert(fits_at(du[k - pre.len() - lu.len()], m2.len() + (k - pre.len() - lu.len())));
                    }
                }
            }
        }
        if !ok2 {
            return None;
        }
        di = di + 1;
    }
    assert(days@.subrange(0, days@.len() as int) =~= days@);
    assert(out@.subrange(base.len() as int, out@.len() as int) =~= used_items(day_uses(days@), base.len() as int));
    Some(out)
}

/// `s2` states the same per-name unit totals as `s`: the same names, the same
/// units for each name with the same totals, and the units of each name in the
/// same order of first occurrence. A list with one entry per name and unit,
/// holding the totals that aggregating `s` gives, is such a list.
pub open spec fn same_totals(s: Seq<Item>, s2: Seq<Item>) -> bool {
    &&& forall|n: Seq<char>| named_in(s, s.len() as int, n) <==> named_in(s2, s2.len() as int, n)
    &&& forall|n: Seq<char>, u: Seq<char>|
        has_unit(s, s.len() as int, n, u) <==> has_unit(s2, s2.len() as int, n, u)
    &&& forall|n: Seq<char>, u: Seq<char>|
        unit_total(s, s.len() as int, n, u) == unit_total(s2, s2.len() as int, n, u)
    &&& forall|n: Seq<char>, u1: Seq<char>, u2: Seq<char>|
        has_unit(s, s.len() as int, n, u1) && has_unit(s, s.len() as int, n, u2) ==> (first_unit(
            s,
            n,
            u1,
        ) < first_unit(s, n, u2) <==> first_unit(s2, n, u1) < first_unit(s2, n, u2))
}

/// Some entry of `r` has the name `n`.
pub open spec fn lists_name(r: Seq<FinalItem>, n: Seq<char>) -> bool {
    exists|k: int| 0 <= k < r.len() && (#[trigger] r[k]).name@ == n
}

pub open spec fn amount_view(a: Option<String>) -> Option<Seq<char>> {
    match a {
        Some(t) => Some(t@),
        None => None,
    }
}

/// Two lists of units of name `n`, each in strictly ascending order of first
/// occurrence in `s`, that hold the same units, are the same list.
proof fn lemma_unit_lists_equal(s: Seq<Item>, n: Seq<char>, a: Seq<Seq<char>>, b: Seq<Seq<char>>)
    requires
        forall|u: Seq<char>| a.contains(u) <==> b.contains(u),
        forall|u: Seq<char>| a.contains(u) ==> has_unit(s, s.len() as int, n, u),
        forall|x: int, y: int| 0 <= x < y < a.len() ==> first_unit(s, n, a[x]) < first_unit(s, n, a[y]),
        forall|x: int, y: int| 0 <= x < y < b.len() ==> first_unit(s, n, b[x]) < first_unit(s, n, b[y]),
    ensures
        a == b,
    decreases a.len(),
{
    if a.len() == 0 {
        if b.len() > 0 {
            assert(b.contains(b[0]));
        }
        assert(a =~= b);
    } else {
        assert(a.contains(a[0]));
        let j = choose|j: int| 0 <= j < b.len() && b[j] == a[0];
        assert(b.contains(b[0]));
        let i = choose|i: int| 0 <= i < a.len() && a[i] == b[0];
        if j > 0 {
            if i > 0 {
                assert(first_unit(s, n, a[0]) < first_unit(s, n, a[i]));
                assert(first_unit(s, n, b[0]) < first_unit(s, n, b[j]));
            } else {
                assert(first_unit(s, n, b[0]) < first_unit(s, n, b[j]));
            }
        }
        assert(b[0] == a[0]);
        let a1 = a.drop_first();
        let b1 = b.drop_first();
        assert forall|u: Seq<char>| a1.contains(u) <==> b1.contains(u) by {
            if a1.contains(u) {
                let x = choose|x: int| 0 <= x < a1.len() && a1[x] == u;
                assert(a[x + 1] == u);
                assert(first_unit(s, n, a[0]) < first_unit(s, n, a[x + 1]));
                assert(b.contains(u));
                let y = choose|y: int| 0 <= y < b.len() && b[y] == u;
                assert(y != 0);
                assert(b1[y - 1] == u);
            }
            if b1.contains(u) {
                let y = choose|y: int| 0 <= y < b1.len() && b1[y] == u;
                assert(b[y + 1] == u);
                assert(first_unit(s, n, b[0]) < first_unit(s, n, b[y + 1]));
                assert(a.contains(u));
                let x = choose|x: int| 0 <= x < a.len() && a[x] == u;
                assert(x != 0);
                assert(a1[x - 1] == u);
            }
        }
        assert forall|u: Seq<char>| a1.contains(u) implies has_unit(s, s.len() as int, n, u) by {
            let x = choose|x: int| 0 <= x < a1.len() && a1[x] == u;
            assert(a[x + 1] == u);
            assert(a.contains(u));
        }
        assert forall|x: int, y: int| 0 <= x < y < a1.len() implies first_unit(s, n, a1[x]) < first_unit(s, n, a1[y]) by {
            assert(a1[x] == a[x + 1] && a1[y] == a[y + 1]);
        }
        assert forall|x: int, y: int| 0 <= x < y < b1.len() implies first_unit(s, n, b1[x]) < first_unit(s, n, b1[y]) by {
            assert(b1[x] == b[x + 1] && b1[y] == b[y + 1]);
        }
        lemma_unit_lists_equal(s, n, a1, b1);
        assert(a =~= seq![a[0]] + a1);
        assert(b =~= seq![b[0]] + b1);
    }
}

/// Aggregating again a list that already states the totals of an aggregation
/// (one entry per name and unit) changes no name and no amount: the two
/// aggregates hold the same names, each with the same amount.
pub proof fn lemma_aggregate_again(
    s: Seq<Item>,
    s2: Seq<Item>,
    r: Seq<FinalItem>,
    r2: Seq<FinalItem>,
)
    requires
        same_totals(s, s2),
        is_aggregate(s, r),
        is_aggregate(s2, r2),
    ensures
        forall|n: Seq<char>| #[trigger] lists_name(r, n) <==> lists_name(r2, n),
        forall|k: int, l: int|
            0 <= k < r.len() && 0 <= l < r2.len() && (#[trigger] r[k]).name@ == (#[trigger] r2[l]).name@
                ==> amount_view(r[k].amount) == amount_view(r2[l].amount),
{
    assert forall|n: Seq<char>| #[trigger] lists_name(r, n) <==> lists_name(r2, n) by {
        assert(named_in(s, s.len() as int, n) <==> named_in(s2, s2.len() as int, n));
    }
    assert forall|k: int, l: int|
        0 <= k < r.len() && 0 <= l < r2.len() && (#[trigger] r[k]).name@ == (#[trigger] r2[l]).name@
            implies amount_view(r[k].amount) == amount_view(r2[l].amount) by {
        let n = r[k].name@;
        let e = r[k];
        let e2 = r2[l];
        assert(amount_ok(s, n, e.amount));
        assert(amount_ok(s2, n, e2.amount));
        match (e.amount, e2.amount) {
            (Some(a), Some(a2)) => {
                let us = choose|us: Seq<Seq<char>>|
                    us.len() > 0 && is_unit_list(s, n, us) && a@ == amount_text(s, n, us);
                let us2 = choose|us2: Seq<Seq<char>>|
                    us2.len() > 0 && is_unit_list(s2, n, us2) && a2@ == amount_text(s2, n, us2);
                assert forall|u: Seq<char>| us.contains(u) <==> us2.contains(u) by {}
                assert forall|x: int, y: int| 0 <= x < y < us2.len() implies first_unit(s, n, us2[x]) < first_unit(s, n, us2[y]) by {
                    assert(us2.contains(us2[x]) && us2.contains(us2[y]));
                    assert(first_unit(s2, n, us2[x]) < first_unit(s2, n, us2[y]));
                }
                lemma_unit_lists_equal(s, n, us, us2);
                assert(us.map_values(|u: Seq<char>| unit_text(s, n, u)) =~= us2.map_values(
                    |u: Seq<char>| unit_text(s2, n, u),
                ));
            },
            (Some(a), None) => {
                let us = choose|us: Seq<Seq<char>>|
                    us.len() > 0 && is_unit_list(s, n, us) && a@ == amount_text(s, n, us);
                assert(us.contains(us[0]));
                assert(!has_unit(s2, s2.len() as int, n, us[0]));
            },
            (None, Some(a2)) => {
                let us2 = choose|us2: Seq<Seq<char>>|
                    us2.len() > 0 && is_unit_list(s2, n, us2) && a2@ == amount_text(s2, n, us2);
                assert(us2.contains(us2[0]));
                assert(!has_unit(s, s.len() as int, n, us2[0]));
            },
            (None, None) => {},
        }
    }
}

} // verus!
