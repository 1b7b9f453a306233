//! Stored text formats: tag lists (`"a; b"`) and amounts (`"1.5; kg"`).

use vstd::prelude::*;
use crate::text::{
    chars_of, is_split, join, join_chars, split_chars, string_of, trim, trim_of, views,
    occurs_at, find_first, head_of, tail_of, push_all,
};
use crate::decimal::{Quantity, parsed_quantity, parse_quantity_chars, push_quantity, quantity_text};
use crate::food::Amount;

verus! {

/// The separator between the tags of a list.
pub open spec fn tag_sep() -> Seq<char> {
    seq![';', ' ']
}

/// The pieces trimmed, with those that trim to nothing left out.
pub open spec fn kept_tags(pieces: Seq<Seq<char>>) -> Seq<Seq<char>>
    decreases pieces.len(),
{
    if pieces.len() == 0 {
        Seq::empty()
    } else {
        let rest = kept_tags(pieces.drop_last());
        let t = trim_of(pieces.last());
        if t.len() == 0 {
            rest
        } else {
            rest.push(t)
        }
    }
}

fn tag_sep_exec() -> (r: Vec<char>)
    ensures
        r@ == tag_sep(),
{
    let mut r: Vec<char> = Vec::new();
    r.push(';');
    r.push(' ');
    assert(r@ =~= tag_sep());
    r
}

/// Reads a tag list: the text is split at each `"; "`, every piece is trimmed,
/// and the pieces that trim to nothing are dropped.
pub fn string_to_vec(s: &String) -> (r: Vec<String>)
    ensures
        exists|pieces: Seq<Seq<char>>|
            is_split(s@, tag_sep(), pieces) && views(r@) == kept_tags(pieces),
{
    let cs = chars_of(s.as_str());
    let sep = tag_sep_exec();
    let parts = split_chars(&cs, &sep);
    let ghost pv = parts@.map_values(|p: Vec<char>| p@);
    let mut r: Vec<String> = Vec::new();
    let mut k: usize = 0;
    while k < parts.len()
        invariant
            k <= parts@.len(),
            pv == parts@.map_values(|p: Vec<char>| p@),
            views(r@) == kept_tags(pv.subrange(0, k as int)),
        decreases parts@.len() - k,
    {
        let piece = string_of(&parts[k]);
        let t = trim(piece.as_str());
        let ghost prev = r@;
        assert(pv.subrange(0, k + 1).drop_last() =~= pv.subrange(0, k as int));
        if !t.as_str().is_empty() {
            r.push(t);
            assert(views(r@) =~= views(prev).push(t@));
        }
        k = k + 1;
    }
    assert(pv.subrange(0, parts@.len() as int) =~= pv);
    r
}

/// Writes a tag list: the tags joined with `"; "`.
pub fn vec_to_string(v: &Vec<String>) -> (r: String)
    ensures
        r@ == join(views(v@), tag_sep()),
{
    let mut parts: Vec<Vec<char>> = Vec::new();
    let mut k: usize = 0;
    while k < v.len()
        invariant
            k <= v@.len(),
            parts@.map_values(|p: Vec<char>| p@) == views(v@).subrange(0, k as int),
        decreases v@.len() - k,
    {
        let cs = chars_of(v[k].as_str());
        let ghost prev = parts@.map_values(|p: Vec<char>| p@);
        parts.push(cs);
        assert(views(v@)[k as int] == v@[k as int]@);
        assert(parts@.map_values(|p: Vec<char>| p@) =~= prev.push(v@[k as int]@));
        assert(views(v@).subrange(0, k + 1) =~= views(v@).subrange(0, k as int).push(v@[k as int]@));
        k = k + 1;
        assert(parts@.map_values(|p: Vec<char>| p@) =~= views(v@).subrange(0, k as int));
    }
    assert(views(v@).subrange(0, v@.len() as int) =~= views(v@));
    let sep = tag_sep_exec();
    let joined = join_chars(&parts, &sep);
    string_of(&joined)
}

/// Why a stored amount cannot be read.
#[derive(Debug, Clone, Copy, PartialEq, Eq, Structural)]
pub enum AmountError {
    /// The text holds no `"; "` between quantity and unit.
    NoSeparator,
    /// The text before the first `"; "` is not a quantity.
    BadQuantity,
}

/// `s` splits at its first `"; "`, at `i`.
pub open spec fn first_sep_at(s: Seq<char>, i: int) -> bool {
    &&& occurs_at(s, tag_sep(), i)
    &&& forall|j: int| 0 <= j < i ==> !occurs_at(s, tag_sep(), j)
}

/// Reads a stored amount, `"<quantity>; <unit>"`: the text is split at its
/// first `"; "`; what comes before is the quantity, what follows the unit.
pub fn string_to_amount_unit(s: &Option<String>) -> (r: Result<Option<Amount>, AmountError>)
    ensures
        s is None ==> r == Ok::<Option<Amount>, AmountError>(None),
        s matches Some(t) ==> match r {
            Ok(Some((q, u))) => exists|i: int|
                first_sep_at(t@, i) && parsed_quantity(t@.subrange(0, i)) == Some(q) && u@
                    == t@.subrange(i + 2, t@.len() as int),
            Ok(None) => false,
            Err(AmountError::NoSeparator) => forall|j: int| !occurs_at(t@, tag_sep(), j),
            Err(AmountError::BadQuantity) => exists|i: int|
                first_sep_at(t@, i) && parsed_quantity(t@.subrange(0, i)) is None,
        },
{
    match s {
        None => Ok(None),
        Some(t) => {
            let cs = chars_of(t.as_str());
            let sep = tag_sep_exec();
            match find_first(&cs, &sep) {
                None => Err(AmountError::NoSeparator),
                Some(i) => {
                    let n = cs.len();
                    assert(i + 2 <= n);
                    let head = head_of(&cs, i);
                    let tail = tail_of(&cs, i + 2);
                    assert(first_sep_at(t@, i as int));
                    match parse_quantity_chars(&head) {
                        Some(q) => {
                            let u = string_of(&tail);
                            Ok(Some((q, u)))
                        },
                        None => Err(AmountError::BadQuantity),
                    }
                },
            }
        },
    }
}

/// Writes an amount for storage: `"<quantity>; <unit>"`.
pub fn amount_unit_to_string(a: &Option<Amount>) -> (r: Option<String>)
    ensures
        match a {
            None => r is None,
            Some((q, u)) => r matches Some(t) && t@ == quantity_text(q.thousandths as nat) + tag_sep() + u@,
        },
{
    match a {
        None => None,
        Some((q, u)) => {
            let mut acc: Vec<char> = Vec::new();
            push_quantity(&mut acc, *q);
            acc.push(';');
            acc.push(' ');
            let uc = chars_of(u.as_str());
            push_all(&mut acc, &uc);
            assert(acc@ =~= quantity_text(q.thousandths as nat) + tag_sep() + u@);
            Some(string_of(&acc))
        },
    }
}

} // verus!
