//! Character-level helpers shared by the text formats of the library, and the
//! tag list format (`"a; b; c"`).

use vstd::prelude::*;

verus! {

/// The views of a sequence of strings.
pub open spec fn views(v: Seq<String>) -> Seq<Seq<char>> {
    v.map_values(|t: String| t@)
}

/// Every part followed by the separator.
pub open spec fn join_prefix(parts: Seq<Seq<char>>, sep: Seq<char>) -> Seq<char>
    decreases parts.len(),
{
    if parts.len() == 0 {
        Seq::empty()
    } else {
        join_prefix(parts.drop_last(), sep) + parts.last() + sep
    }
}

/// The parts with the separator between each two neighbours.
pub open spec fn join(parts: Seq<Seq<char>>, sep: Seq<char>) -> Seq<char> {
    if parts.len() == 0 {
        Seq::empty()
    } else {
        join_prefix(parts.drop_last(), sep) + parts.last()
    }
}

/// `sep` occurs in `s` starting at index `i`.
pub open spec fn occurs_at(s: Seq<char>, sep: Seq<char>, i: int) -> bool {
    0 <= i && i + sep.len() <= s.len() && s.subrange(i, i + sep.len()) == sep
}

pub open spec fn contains_seq(s: Seq<char>, sep: Seq<char>) -> bool {
    exists|i: int| occurs_at(s, sep, i)
}

/// `parts` is what splitting `s` at every occurrence of `sep` gives: joined with
/// `sep` they are `s`, and none of them holds `sep`.
pub open spec fn is_split(s: Seq<char>, sep: Seq<char>, parts: Seq<Seq<char>>) -> bool {
    &&& parts.len() >= 1
    &&& join(parts, sep) == s
    &&& forall|k: int| 0 <= k < parts.len() ==> !contains_seq(#[trigger] parts[k], sep)
}

pub uninterp spec fn trim_of(s: Seq<char>) -> Seq<char>;

/// Relies on `str::chars`: collected, they are the characters of the string in order.
#[verifier::external_body]
pub(crate) fn chars_of(s: &str) -> (r: Vec<char>)
    ensures
        r@ == s@,
{
    s.chars().collect()
}

/// Relies on `String`'s `FromIterator<&char>`: the string holds the characters in order.
#[verifier::external_body]
pub(crate) fn string_of(v: &Vec<char>) -> (r: String)
    ensures
        r@ == v@,
{
    v.iter().collect()
}

/// Relies on `str::trim`: the result depends on the characters alone, an empty
/// string stays empty, and a trimmed string trims to itself.
#[verifier::external_body]
pub(crate) fn trim(s: &str) -> (r: String)
    ensures
        r@ == trim_of(s@),
        s@.len() == 0 ==> r@.len() == 0,
        trim_of(r@) == r@,
{
    s.trim().to_string()
}

/// Appends `tail` to `acc`.
pub(crate) fn push_all(acc: &mut Vec<char>, tail: &Vec<char>)
    ensures
        final(acc)@ == old(acc)@ + tail@,
{
    let mut i: usize = 0;
    while i < tail.len()
        invariant
            i <= tail@.len(),
            acc@ == old(acc)@ + tail@.subrange(0, i as int),
        decreases tail@.len() - i,
    {
        acc.push(tail[i]);
        i = i + 1;
        assert(acc@ =~= old(acc)@ + tail@.subrange(0, i as int));
    }
    assert(tail@.subrange(0, tail@.len() as int) =~= tail@);
}

/// Whether `sep` occurs in `s` at index `i`.
fn occurs_at_exec(s: &Vec<char>, sep: &Vec<char>, i: usize) -> (r: bool)
    ensures
        r == occurs_at(s@, sep@, i as int),
{
    if i > s.len() || sep.len() > s.len() - i {
        return false;
    }
    let mut k: usize = 0;
    while k < sep.len()
        invariant
            i + sep@.len() <= s@.len(),
            s@.len() <= usize::MAX,
            k <= sep@.len(),
            forall|j: int| 0 <= j < k ==> s@[i + j] == sep@[j],
        decreases sep@.len() - k,
    {
        if s[i + k] != sep[k] {
            assert(s@.subrange(i as int, i + sep@.len())[k as int] != sep@[k as int]);
            return false;
        }
        k = k + 1;
    }
    assert(s@.subrange(i as int, i + sep@.len()) =~= sep@);
    true
}

proof fn lemma_subrange_concat(s: Seq<char>, a: int, b: int, c: int)
    requires
        0 <= a <= b <= c <= s.len(),
    ensures
        s.subrange(a, c) == s.subrange(a, b) + s.subrange(b, c),
{
    assert(s.subrange(a, c) =~= s.subrange(a, b) + s.subrange(b, c));
}

/// Splits `s` at every occurrence of `sep`, scanning from the left.
pub(crate) fn split_chars(s: &Vec<char>, sep: &Vec<char>) -> (parts: Vec<Vec<char>>)
    requires
        sep@.len() >= 1,
    ensures
        is_split(s@, sep@, parts@.map_values(|p: Vec<char>| p@)),
{
    let ghost sv = s@;
    let ghost sp = sep@;
    let mut parts: Vec<Vec<char>> = Vec::new();
    let mut cur: Vec<char> = Vec::new();
    let mut i: usize = 0;
    let mut start: usize = 0;
    while i < s.len()
        invariant
            sp.len() >= 1,
            sv == s@,
            sp == sep@,
            start <= i <= sv.len(),
            cur@ == sv.subrange(start as int, i as int),
            join_prefix(parts@.map_values(|p: Vec<char>| p@), sp) == sv.subrange(0, start as int),
            forall|j: int| start <= j < i ==> !occurs_at(sv, sp, j),
            forall|k: int|
                0 <= k < parts@.len() ==> !contains_seq(#[trigger] parts@[k]@, sp),
        decreases sv.len() - i,
    {
        if occurs_at_exec(s, sep, i) {
            let ghost old_parts = parts@.map_values(|p: Vec<char>| p@);
            let ghost piece = cur@;
            assert forall|j: int| !occurs_at(piece, sp, j) by {
                if occurs_at(piece, sp, j) {
                    assert(piece.subrange(j, j + sp.len()) =~= sv.subrange(
                        start + j,
                        start + j + sp.len(),
                    ));
                    assert(occurs_at(sv, sp, start + j));
                }
            }
            let mut piece_v: Vec<char> = Vec::new();
            std::mem::swap(&mut piece_v, &mut cur);
            parts.push(piece_v);
            proof {
                let np = parts@.map_values(|p: Vec<char>| p@);
                assert(np.drop_last() =~= old_parts);
                assert(np.last() == piece);
                lemma_subrange_concat(sv, 0, start as int, i as int);
                lemma_subrange_concat(sv, 0, i as int, i + sp.len());
                assert(sv.subrange(i as int, i + sp.len()) == sp);
            }
            i = i + sep.len();
            start = i;
            assert(cur@ =~= sv.subrange(start as int, i as int));
        } else {
            cur.push(s[i]);
            i = i + 1;
            assert(cur@ =~= sv.subrange(start as int, i as int));
        }
    }
    let ghost before = parts@.map_values(|p: Vec<char>| p@);
    let ghost last = cur@;
    assert forall|j: int| !occurs_at(last, sp, j) by {
        if occurs_at(last, sp, j) {
            assert(last.subrange(j, j + sp.len()) =~= sv.subrange(start + j, start + j + sp.len()));
            assert(occurs_at(sv, sp, start + j));
        }
    }
    parts.push(cur);
    proof {
        let np = parts@.map_values(|p: Vec<char>| p@);
        assert(np.drop_last() =~= before);
        lemma_subrange_concat(sv, 0, start as int, sv.len() as int);
        assert(sv.subrange(0, sv.len() as int) =~= sv);
        assert forall|k: int| 0 <= k < np.len() implies !contains_seq(#[trigger] np[k], sp) by {
            if k < np.len() - 1 {
                assert(np[k] == parts@[k]@);
            }
        }
    }
    parts
}

/// Appends each part to one buffer, with `sep` between each two neighbours.
pub(crate) fn join_chars(parts: &Vec<Vec<char>>, sep: &Vec<char>) -> (r: Vec<char>)
    ensures
        r@ == join(parts@.map_values(|p: Vec<char>| p@), sep@),
{
    let ghost pv = parts@.map_values(|p: Vec<char>| p@);
    let mut r: Vec<char> = Vec::new();
    let mut k: usize = 0;
    while k < parts.len()
        invariant
            k <= parts@.len(),
            pv == parts@.map_values(|p: Vec<char>| p@),
            r@ == join(pv.subrange(0, k as int), sep@),
        decreases parts@.len() - k,
    {
        let ghost prev = pv.subrange(0, k as int);
        if k > 0 {
            push_all(&mut r, sep);
        }
        push_all(&mut r, &parts[k]);
        proof {
            let next = pv.subrange(0, k + 1);
            assert(next.drop_last() =~= prev);
            if k > 0 {
                assert(prev.drop_last() =~= pv.subrange(0, k - 1));
                assert(join_prefix(prev, sep@) == join_prefix(prev.drop_last(), sep@) + prev.last() + sep@);
                assert(r@ =~= join(next, sep@));
            } else {
                assert(r@ =~= join(next, sep@));
            }
        }
        k = k + 1;
    }
    assert(pv.subrange(0, parts@.len() as int) =~= pv);
    r
}

proof fn lemma_join_prefix_is_join(parts: Seq<Seq<char>>, sep: Seq<char>)
    requires
        parts.len() >= 1,
    ensures
        join_prefix(parts, sep) == join(parts, sep) + sep,
{
    assert(join_prefix(parts, sep) =~= join(parts, sep) + sep);
}

proof fn lemma_char_at_contains(s: Seq<char>, c: char, k: int)
    requires
        0 <= k < s.len(),
        s[k] == c,
    ensures
        contains_seq(s, seq![c]),
{
    assert(s.subrange(k, k + 1) =~= seq![c]);
    assert(occurs_at(s, seq![c], k));
}

proof fn lemma_no_char(s: Seq<char>, c: char, k: int)
    requires
        !contains_seq(s, seq![c]),
        0 <= k < s.len(),
    ensures
        s[k] != c,
{
    if s[k] == c {
        lemma_char_at_contains(s, c, k);
    }
}

/// Splitting at a single character has one outcome.
pub proof fn lemma_split_unique(s: Seq<char>, c: char, p: Seq<Seq<char>>, q: Seq<Seq<char>>)
    requires
        is_split(s, seq![c], p),
        is_split(s, seq![c], q),
    ensures
        p == q,
    decreases p.len() + q.len(),
{
    let sep = seq![c];
    if p.len() == 1 && q.len() == 1 {
        assert(p =~= q);
    } else if p.len() == 1 || q.len() == 1 {
        let (one, many) = if p.len() == 1 {
            (p, q)
        } else {
            (q, p)
        };
        let init = many.drop_last();
        lemma_join_prefix_is_join(init, sep);
        let k = join_prefix(init, sep).len() - 1;
        assert(s[k] == c);
        assert(one[0] == s);
        assert(!contains_seq(one[0], sep));
        lemma_no_char(one[0], c, k);
    } else {
        let pi = p.drop_last();
        let qi = q.drop_last();
        lemma_join_prefix_is_join(pi, sep);
        lemma_join_prefix_is_join(qi, sep);
        let a = join_prefix(pi, sep).len() as int;
        let b = join_prefix(qi, sep).len() as int;
        assert(s == join_prefix(pi, sep) + p.last());
        assert(s == join_prefix(qi, sep) + q.last());
        assert(!contains_seq(p[p.len() - 1], sep));
        assert(!contains_seq(q[q.len() - 1], sep));
        if a < b {
            assert(join_prefix(qi, sep)[b - 1] == c);
            assert(s[b - 1] == c);
            assert(b <= s.len());
            assert(s[b - 1] == (join_prefix(pi, sep) + p.last())[b - 1]);
            assert(p.last()[b - 1 - a] == s[b - 1]);
            lemma_no_char(p.last(), c, b - 1 - a);
        } else if b < a {
            assert(join_prefix(pi, sep)[a - 1] == c);
            assert(s[a - 1] == c);
            assert(a <= s.len());
            assert(s[a - 1] == (join_prefix(qi, sep) + q.last())[a - 1]);
            assert(q.last()[a - 1 - b] == s[a - 1]);
            lemma_no_char(q.last(), c, a - 1 - b);
        } else {
            assert(p.last() =~= s.subrange(a, s.len() as int));
            assert(q.last() =~= s.subrange(a, s.len() as int));
            assert(join(pi, sep) =~= s.subrange(0, a - 1));
            assert(join(qi, sep) =~= s.subrange(0, a - 1));
            assert forall|k: int| 0 <= k < pi.len() implies !contains_seq(#[trigger] pi[k], sep) by {
                assert(pi[k] == p[k]);
            }
            assert forall|k: int| 0 <= k < qi.len() implies !contains_seq(#[trigger] qi[k], sep) by {
                assert(qi[k] == q[k]);
            }
            lemma_split_unique(s.subrange(0, a - 1), c, pi, qi);
            assert(p =~= pi.push(p.last()));
            assert(q =~= qi.push(q.last()));
        }
    }
}

/// The parts of `s` between the occurrences of `c` (one part when there is none).
pub open spec fn split_at_char(s: Seq<char>, c: char) -> Seq<Seq<char>> {
    choose|p: Seq<Seq<char>>| is_split(s, seq![c], p)
}

/// Splits `s` at every occurrence of `c`.
pub(crate) fn split_at(s: &Vec<char>, c: char) -> (parts: Vec<Vec<char>>)
    ensures
        parts@.map_values(|p: Vec<char>| p@) == split_at_char(s@, c),
{
    let mut sep: Vec<char> = Vec::new();
    sep.push(c);
    assert(sep@ =~= seq![c]);
    let parts = split_chars(s, &sep);
    proof {
        let pv = parts@.map_values(|p: Vec<char>| p@);
        let chosen = split_at_char(s@, c);
        assert(is_split(s@, seq![c], chosen));
        lemma_split_unique(s@, c, pv, chosen);
    }
    parts
}

/// Once split at `c`, parts that do not hold `c` and are joined with `c` come back.
pub proof fn lemma_split_of_join(parts: Seq<Seq<char>>, c: char)
    requires
        parts.len() >= 1,
        forall|k: int| 0 <= k < parts.len() ==> !contains_seq(#[trigger] parts[k], seq![c]),
    ensures
        split_at_char(join(parts, seq![c]), c) == parts,
{
    let s = join(parts, seq![c]);
    assert(is_split(s, seq![c], parts));
    lemma_split_unique(s, c, split_at_char(s, c), parts);
}

/// A sequence in which `c` never stands does not hold `c`.
pub proof fn lemma_free_of_char(s: Seq<char>, c: char)
    requires
        forall|k: int| 0 <= k < s.len() ==> s[k] != c,
    ensures
        !contains_seq(s, seq![c]),
{
    if contains_seq(s, seq![c]) {
        let i = choose|i: int| occurs_at(s, seq![c], i);
        assert(s.subrange(i, i + 1)[0] == c);
    }
}

/// The first occurrence of `sep` in `s`.
pub(crate) fn find_first(s: &Vec<char>, sep: &Vec<char>) -> (r: Option<usize>)
    requires
        sep@.len() >= 1,
    ensures
        match r {
            Some(i) => occurs_at(s@, sep@, i as int) && forall|j: int|
                0 <= j < i ==> !occurs_at(s@, sep@, j),
            None => forall|j: int| !occurs_at(s@, sep@, j),
        },
{
    let mut i: usize = 0;
    while i < s.len()
        invariant
            i <= s@.len(),
            forall|j: int| 0 <= j < i ==> !occurs_at(s@, sep@, j),
        decreases s@.len() - i,
    {
        if occurs_at_exec(s, sep, i) {
            return Some(i);
        }
        i = i + 1;
    }
    None
}

/// The characters of `s` from `from` on.
pub(crate) fn tail_of(s: &Vec<char>, from: usize) -> (r: Vec<char>)
    requires
        from <= s@.len(),
    ensures
        r@ == s@.subrange(from as int, s@.len() as int),
{
    let mut r: Vec<char> = Vec::new();
    let mut i: usize = from;
    while i < s.len()
        invariant
            from <= i <= s@.len(),
            r@ == s@.subrange(from as int, i as int),
        decreases s@.len() - i,
    {
        r.push(s[i]);
        i = i + 1;
        assert(r@ =~= s@.subrange(from as int, i as int));
    }
    r
}

/// The characters of `s` before `to`.
pub(crate) fn head_of(s: &Vec<char>, to: usize) -> (r: Vec<char>)
    requires
        to <= s@.len(),
    ensures
        r@ == s@.subrange(0, to as int),
{
    let mut r: Vec<char> = Vec::new();
    let mut i: usize = 0;
    while i < to
        invariant
            i <= to <= s@.len(),
            r@ == s@.subrange(0, i as int),
        decreases to - i,
    {
        r.push(s[i]);
        i = i + 1;
        assert(r@ =~= s@.subrange(0, i as int));
    }
    r
}

} // verus!
