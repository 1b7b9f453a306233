//! Synchronising a desired list of child entities with the identities that are
//! stored for their parent: which rows to update, which to insert, which to delete.

use vstd::prelude::*;

verus! {

/// Why a desired list cannot be reconciled.
#[derive(Debug, Clone, Copy, PartialEq, Eq, Structural)]
pub enum ReconcileError {
    /// Two desired entries carry this identity.
    DuplicateIdentity(i32),
    /// A desired entry carries this identity, but nothing with it is stored.
    NotFound(i32),
}

/// What to do to bring the stored children in line with the desired list.
/// `updates` and `inserts` are positions in the desired list, in ascending order.
#[derive(Debug, Clone, PartialEq, Eq)]
pub struct ReconcilePlan {
    pub updates: Vec<usize>,
    pub inserts: Vec<usize>,
    pub deletes: Vec<i32>,
}

/// The identities that the desired entries carry.
pub open spec fn identified(desired: Seq<Option<i32>>) -> Set<i32> {
    Set::new(|x: i32| exists|i: int| 0 <= i < desired.len() && desired[i] == Some(x))
}

/// Two desired entries carry the identity `x`.
pub open spec fn carried_twice(desired: Seq<Option<i32>>, x: i32) -> bool {
    exists|i: int, j: int|
        0 <= i < j < desired.len() && desired[i] == Some(x) && desired[j] == Some(x)
}

pub open spec fn has_duplicate(desired: Seq<Option<i32>>) -> bool {
    exists|x: i32| carried_twice(desired, x)
}

/// The positions of the entries that carry an identity, ascending.
pub open spec fn update_positions(desired: Seq<Option<i32>>) -> Seq<usize>
    decreases desired.len(),
{
    if desired.len() == 0 {
        Seq::empty()
    } else {
        let rest = update_positions(desired.drop_last());
        if desired.last() is Some {
            rest.push((desired.len() - 1) as usize)
        } else {
            rest
        }
    }
}

/// The positions of the entries that carry no identity, ascending.
pub open spec fn insert_positions(desired: Seq<Option<i32>>) -> Seq<usize>
    decreases desired.len(),
{
    if desired.len() == 0 {
        Seq::empty()
    } else {
        let rest = insert_positions(desired.drop_last());
        if desired.last() is None {
            rest.push((desired.len() - 1) as usize)
        } else {
            rest
        }
    }
}

/// `plan` updates every identified entry, inserts every other one, and deletes
/// each stored identity that no entry carries, once.
pub open spec fn is_plan_for(
    desired: Seq<Option<i32>>,
    persisted: Seq<i32>,
    plan: ReconcilePlan,
) -> bool {
    &&& plan.updates@ == update_positions(desired)
    &&& plan.inserts@ == insert_positions(desired)
    &&& plan.deletes@.to_set() == persisted.to_set().difference(identified(desired))
    &&& plan.deletes@.no_duplicates()
}

/// The stored identities once a plan is carried out: the deleted ones are gone,
/// and those that storage gave to the inserted entries are there.
pub open spec fn ids_after(persisted: Set<i32>, deletes: Set<i32>, assigned: Set<i32>) -> Set<i32> {
    persisted.difference(deletes).union(assigned)
}

proof fn lemma_push_contains<T>(s: Seq<T>, v: T, x: T)
    ensures
        s.push(v).contains(x) <==> (s.contains(x) || x == v),
{
    if s.push(v).contains(x) {
        let j = choose|j: int| 0 <= j < s.push(v).len() && s.push(v)[j] == x;
        if j < s.len() {
            assert(s[j] == x);
        }
    }
    if s.contains(x) {
        let j = choose|j: int| 0 <= j < s.len() && s[j] == x;
        assert(s.push(v)[j] == x);
    }
    if x == v {
        assert(s.push(v)[s.len() as int] == x);
    }
}

fn contains_id(v: &Vec<i32>, x: i32) -> (r: bool)
    ensures
        r == v@.contains(x),
{
    let mut i: usize = 0;
    while i < v.len()
        invariant
            i <= v@.len(),
            forall|j: int| 0 <= j < i ==> v@[j] != x,
        decreases v@.len() - i,
    {
        if v[i] == x {
            return true;
        }
        i = i + 1;
    }
    false
}

/// Works out how to reconcile the desired entries (each given by the identity it
/// carries, if any) with the identities stored for their parent. Fails if two
/// entries carry the same identity, or, failing that, if an entry carries an
/// identity that is not stored.
pub fn reconcile(desired: &Vec<Option<i32>>, persisted: &Vec<i32>) -> (r: Result<
    ReconcilePlan,
    ReconcileError,
>)
    ensures
        r is Ok <==> (!has_duplicate(desired@) && identified(desired@).subset_of(
            persisted@.to_set(),
        )),
        has_duplicate(desired@) ==> r matches Err(ReconcileError::DuplicateIdentity(_)),
        match r {
            Ok(plan) => is_plan_for(desired@, persisted@, plan),
            Err(ReconcileError::DuplicateIdentity(x)) => carried_twice(desired@, x),
            Err(ReconcileError::NotFound(x)) => {
                &&& !has_duplicate(desired@)
                &&& identified(desired@).contains(x)
                &&& !persisted@.contains(x)
            },
        },
{
    let ghost d = desired@;
    // Duplicates first, over the whole list.
    let mut seen: Vec<i32> = Vec::new();
    let mut i: usize = 0;
    while i < desired.len()
        invariant
            d == desired@,
            i <= d.len(),
            forall|x: i32| seen@.contains(x) <==> identified(d.subrange(0, i as int)).contains(x),
            !has_duplicate(d.subrange(0, i as int)),
        decreases d.len() - i,
    {
        let ghost pre = d.subrange(0, i as int);
        let ghost next = d.subrange(0, i + 1);
        assert forall|x: i32| identified(next).contains(x) <==> (identified(pre).contains(x) || d[i as int] == Some(x)) by {
            if identified(next).contains(x) {
                let j = choose|j: int| 0 <= j < next.len() && next[j] == Some(x);
                if j < i {
                    assert(pre[j] == Some(x));
                }
            }
            if identified(pre).contains(x) {
                let j = choose|j: int| 0 <= j < pre.len() && pre[j] == Some(x);
                assert(next[j] == Some(x));
            }
            if d[i as int] == Some(x) {
                assert(next[i as int] == Some(x));
            }
        }
        if let Some(id) = desired[i] {
            if contains_id(&seen, id) {
                proof {
                    assert(identified(pre).contains(id));
                    let j = choose|j: int| 0 <= j < pre.len() && pre[j] == Some(id);
                    assert(d[j] == Some(id) && d[i as int] == Some(id));
                    assert(carried_twice(d, id));
                }
                return Err(ReconcileError::DuplicateIdentity(id));
            }
            let ghost seen_before = seen@;
            seen.push(id);
            assert forall|x: i32| seen@.contains(x) <==> identified(next).contains(x) by {
                lemma_push_contains(seen_before, id, x);
            }
            assert forall|x: i32| !carried_twice(next, x) by {
                if carried_twice(next, x) {
                    let (a, b) = choose|a: int, b: int|
                        0 <= a < b < next.len() && next[a] == Some(x) && next[b] == Some(x);
                    if b < i {
                        assert(pre[a] == Some(x) && pre[b] == Some(x));
                        assert(carried_twice(pre, x));
                    } else {
                        assert(pre[a] == Some(x));
                        assert(identified(pre).contains(id));
                    }
                }
            }
        } else {
            assert forall|x: i32| !carried_twice(next, x) by {
                if carried_twice(next, x) {
                    let (a, b) = choose|a: int, b: int|
                        0 <= a < b < next.len() && next[a] == Some(x) && next[b] == Some(x);
                    assert(pre[a] == Some(x) && pre[b] == Some(x));
                    assert(carried_twice(pre, x));
                }
            }
        }
        i = i + 1;
    }
    assert(d.subrange(0, d.len() as int) =~= d);
    // Every carried identity must be stored.
    let mut updates: Vec<usize> = Vec::new();
    let mut inserts: Vec<usize> = Vec::new();
    let mut k: usize = 0;
    while k < desired.len()
        invariant
            d == desired@,
            k <= d.len(),
            !has_duplicate(d),
            forall|x: i32| seen@.contains(x) <==> identified(d).contains(x),
            identified(d.subrange(0, k as int)).subset_of(persisted@.to_set()),
            updates@ == update_positions(d.subrange(0, k as int)),
            inserts@ == insert_positions(d.subrange(0, k as int)),
        decreases d.len() - k,
    {
        let ghost pre = d.subrange(0, k as int);
        let ghost next = d.subrange(0, k + 1);
        assert(next.drop_last() =~= pre);
        match desired[k] {
            Some(id) => {
                if !contains_id(persisted, id) {
                    assert(identified(d).contains(id)) by {
                        assert(d[k as int] == Some(id));
                    }
                    return Err(ReconcileError::NotFound(id));
                }
                updates.push(k);
            },
            None => {
                inserts.push(k);
            },
        }
        assert forall|x: i32| identified(next).contains(x) implies persisted@.to_set().contains(x) by {
            let j = choose|j: int| 0 <= j < next.len() && next[j] == Some(x);
            if j < k {
                assert(pre[j] == Some(x));
                assert(identified(pre).contains(x));
            } else {
                assert(persisted@.contains(x));
            }
        }
        k = k + 1;
    }
    assert(d.subrange(0, d.len() as int) =~= d);
    // Every stored identity that no entry carries goes, once.
    let mut deletes: Vec<i32> = Vec::new();
    let mut m: usize = 0;
    while m < persisted.len()
        invariant
            d == desired@,
            m <= persisted@.len(),
            forall|x: i32| seen@.contains(x) <==> identified(d).contains(x),
            deletes@.no_duplicates(),
            forall|x: i32|
                deletes@.contains(x) <==> (persisted@.subrange(0, m as int).contains(x)
                    && !identified(d).contains(x)),
        decreases persisted@.len() - m,
    {
        let p = persisted[m];
        let ghost before = deletes@;
        let ghost upto = persisted@.subrange(0, m as int);
        let ghost upto_next = persisted@.subrange(0, m + 1);
        assert forall|x: i32| upto_next.contains(x) <==> (upto.contains(x) || x == p) by {
            if upto_next.contains(x) {
                let j = choose|j: int| 0 <= j < upto_next.len() && upto_next[j] == x;
                if j < m {
                    assert(upto[j] == x);
                }
            }
            if upto.contains(x) {
                let j = choose|j: int| 0 <= j < upto.len() && upto[j] == x;
                assert(upto_next[j] == x);
            }
            if x == p {
                assert(upto_next[m as int] == x);
            }
        }
        let identified_p = contains_id(&seen, p);
        let already = contains_id(&deletes, p);
        if !identified_p && !already {
            deletes.push(p);
        }
        assert forall|x: i32|
            deletes@.contains(x) <==> (upto_next.contains(x) && !identified(d).contains(x)) by {
            lemma_push_contains(before, p, x);
        }
        m = m + 1;
    }
    assert(persisted@.subrange(0, persisted@.len() as int) =~= persisted@);
    let plan = ReconcilePlan { updates, inserts, deletes };
    assert(plan.deletes@.to_set() =~= persisted@.to_set().difference(identified(d)));
    Ok(plan)
}

/// Carrying out a plan of `reconcile` leaves stored exactly the identities that
/// the desired entries carry and those given to the inserted ones: no stored
/// identity that no entry carries survives.
pub proof fn lemma_reconcile_leaves_desired(
    desired: Seq<Option<i32>>,
    persisted: Seq<i32>,
    plan: ReconcilePlan,
    assigned: Set<i32>,
)
    requires
        identified(desired).subset_of(persisted.to_set()),
        is_plan_for(desired, persisted, plan),
        assigned.disjoint(persisted.to_set()),
    ensures
        ids_after(persisted.to_set(), plan.deletes@.to_set(), assigned) == identified(
            desired,
        ).union(assigned),
        forall|x: i32|
            persisted.contains(x) && !identified(desired).contains(x) ==> !ids_after(
                persisted.to_set(),
                plan.deletes@.to_set(),
                assigned,
            ).contains(x),
{
    assert(ids_after(persisted.to_set(), plan.deletes@.to_set(), assigned) =~= identified(
        desired,
    ).union(assigned));
}

} // verus!
