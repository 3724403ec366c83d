//! The set-algebra evaluator over the same reverse Polish syntax, and the
//! powerset enumeration.
use crate::ast::is_variable_symbol;
use crate::truth::sorted_vars;
use vstd::prelude::*;

verus! {

/// Why a set evaluation was refused.
#[derive(Clone, Copy, Debug, PartialEq, Eq, Structural)]
pub enum SetError {
    /// The formula string is empty.
    EmptyFormula,
    /// The character is not a valid operator, or its operands are missing.
    InvalidToken(char),
    /// More than one set was left on the stack at the end.
    ResidualStack,
    /// The formula has more variables than sets were provided.
    MissingSets,
    /// More sets were provided than the formula has variables.
    TooManySets,
}

/// Strictly ascending: sorted with no repeats.
pub open spec fn sorted_distinct(s: Seq<i32>) -> bool {
    forall|p: int, q: int| 0 <= p < q < s.len() ==> s[p] < s[q]
}

/// Two sorted lists without repeats that hold the same elements are the same
/// list: the sorted form of a set is canonical.
pub proof fn lemma_sorted_distinct_canonical(a: Seq<i32>, b: Seq<i32>)
    requires
        sorted_distinct(a),
        sorted_distinct(b),
        a.to_set() == b.to_set(),
    ensures
        a == b,
    decreases a.len(),
{
    if a.len() == 0 {
        if b.len() > 0 {
            assert(b.to_set().contains(b[0]));
            assert(a.contains(b[0]));
        }
        assert(a =~= b);
    } else {
        assert(a.to_set().contains(a[0]));
        assert(b.contains(a[0]));
        if b.len() == 0 {
            assert(b.to_set().contains(a[0]));
        }
        assert(b.to_set().contains(b[0]));
        assert(a.contains(b[0]));
        let i = choose|i: int| 0 <= i < b.len() && b[i] == a[0];
        let j = choose|j: int| 0 <= j < a.len() && a[j] == b[0];
        assert(b[0] <= b[i]);
        assert(a[0] <= a[j]);
        assert(a[0] == b[0]);
        let at = a.drop_first();
        let bt = b.drop_first();
        assert(at.to_set() =~= bt.to_set()) by {
            assert forall|x: i32| at.contains(x) implies bt.contains(x) by {
                let p = choose|p: int| 0 <= p < at.len() && at[p] == x;
                assert(a[p + 1] == x);
                assert(a[0] < x);
                assert(a.contains(x));
                assert(a.to_set().contains(x));
                assert(b.to_set().contains(x));
                assert(b.contains(x));
                let q = choose|q: int| 0 <= q < b.len() && b[q] == x;
                assert(q != 0);
                assert(bt[q - 1] == x);
            }
            assert forall|x: i32| bt.contains(x) implies at.contains(x) by {
                let p = choose|p: int| 0 <= p < bt.len() && bt[p] == x;
                assert(b[p + 1] == x);
                assert(b[0] < x);
                assert(b.contains(x));
                assert(b.to_set().contains(x));
                assert(a.to_set().contains(x));
                assert(a.contains(x));
                let q = choose|q: int| 0 <= q < a.len() && a[q] == x;
                assert(q != 0);
                assert(at[q - 1] == x);
            }
            assert forall|x: i32| #[trigger] at.to_set().contains(x) == at.contains(x) by {}
        }
        lemma_sorted_distinct_canonical(at, bt);
        assert(a =~= b) by {
            assert(forall|p: int| 1 <= p < a.len() ==> a[p] == at[p - 1] && b[p] == bt[p - 1]);
        }
    }
}

/// Whether the value occurs in the list.
fn contains_i32(v: &Vec<i32>, x: i32) -> (r: bool)
    ensures
        r == v@.contains(x),
{
    let n = v.len();
    let mut i: usize = 0;
    while i < n
        invariant
            i <= n,
            n == v@.len(),
            forall|j: int| 0 <= j < i ==> v@[j] != x,
        decreases n - i,
    {
        if v[i] == x {
            return true;
        }
        i = i + 1;
    }
    false
}

/// Inserts a value into a sorted list without repeats, keeping it sorted and
/// without repeats.
fn insert_sorted(v: &mut Vec<i32>, x: i32)
    requires
        sorted_distinct(old(v)@),
    ensures
        sorted_distinct(final(v)@),
        final(v)@.to_set() == old(v)@.to_set().insert(x),
{
    let n = v.len();
    let mut i: usize = 0;
    while i < n && v[i] < x
        invariant
            i <= n,
            n == v@.len(),
            sorted_distinct(v@),
            v@ == old(v)@,
            forall|j: int| 0 <= j < i ==> v@[j] < x,
        decreases n - i,
    {
        i = i + 1;
    }
    if i < n && v[i] == x {
        proof {
            assert(v@.to_set() =~= v@.to_set().insert(x)) by {
                assert(v@.contains(x));
            }
        }
        return ;
    }
    let ghost before = v@;
    v.insert(i, x);
    proof {
        assert(v@ =~= before.take(i as int) + seq![x] + before.skip(i as int));
        assert forall|p: int, q: int| 0 <= p < q < v@.len() implies v@[p] < v@[q] by {
            assert(forall|j: int| 0 <= j < i ==> v@[j] == before[j]);
            assert(v@[i as int] == x);
            assert(forall|j: int| i < j < v@.len() ==> v@[j] == before[j - 1]);
            assert(forall|j: int| i <= j < before.len() ==> before[j] >= x);
            assert(i < n ==> before[i as int] != x);
        }
        assert(v@.to_set() =~= before.to_set().insert(x)) by {
            assert forall|y: i32| v@.contains(y) implies before.to_set().insert(x).contains(
                y,
            ) by {
                let p = choose|p: int| 0 <= p < v@.len() && v@[p] == y;
                if p < i {
                    assert(before[p] == y);
                } else if p > i {
                    assert(before[p - 1] == y);
                }
            }
            assert forall|y: i32| before.to_set().insert(x).contains(y) implies v@.contains(
                y,
            ) by {
                if y == x {
                    assert(v@[i as int] == y);
                } else {
                    let p = choose|p: int| 0 <= p < before.len() && before[p] == y;
                    if p < i {
                        assert(v@[p] == y);
                    } else {
                        assert(v@[p + 1] == y);
                    }
                }
            }
        }
    }
}

/// Copies a list of integers.
fn copy_vec(v: &Vec<i32>) -> (r: Vec<i32>)
    ensures
        r@ == v@,
{
    let n = v.len();
    let mut out: Vec<i32> = Vec::new();
    let mut i: usize = 0;
    while i < n
        invariant
            i <= n,
            n == v@.len(),
            out@ =~= v@.take(i as int),
        decreases n - i,
    {
        out.push(v[i]);
        proof {
            assert(out@ =~= v@.take(i + 1));
        }
        i = i + 1;
    }
    proof {
        assert(v@.take(n as int) =~= v@);
    }
    out
}

/// The sorted duplicate-free list with the same elements.
fn dedup_sorted(v: &Vec<i32>) -> (r: Vec<i32>)
    ensures
        sorted_distinct(r@),
        r@.to_set() == v@.to_set(),
{
    let n = v.len();
    let mut out: Vec<i32> = Vec::new();
    let mut i: usize = 0;
    proof {
        assert(out@.to_set() =~= v@.take(0).to_set()) by {
            assert(v@.take(0) =~= Seq::<i32>::empty());
        }
    }
    while i < n
        invariant
            i <= n,
            n == v@.len(),
            sorted_distinct(out@),
            out@.to_set() == v@.take(i as int).to_set(),
        decreases n - i,
    {
        insert_sorted(&mut out, v[i]);
        proof {
            assert(v@.take(i + 1).to_set() =~= v@.take(i as int).to_set().insert(v@[i as int]))
                by {
                assert forall|y: i32| v@.take(i + 1).contains(y) implies v@.take(
                    i as int,
                ).to_set().insert(v@[i as int]).contains(y) by {
                    let p = choose|p: int| 0 <= p < i + 1 && #[trigger] v@.take(i + 1)[p] == y;
                    if p < i {
                        assert(v@.take(i as int)[p] == y);
                    }
                }
                assert forall|y: i32|
                    v@.take(i as int).to_set().insert(v@[i as int]).contains(y) implies v@.take(
                    i + 1,
                ).contains(y) by {
                    if y == v@[i as int] {
                        assert(v@.take(i + 1)[i as int] == y);
                    } else {
                        let p = choose|p: int| 0 <= p < i && v@.take(i as int)[p] == y;
                        assert(v@.take(i + 1)[p] == y);
                    }
                }
            }
        }
        i = i + 1;
    }
    proof {
        assert(v@.take(n as int) =~= v@);
    }
    out
}

/// The subset of the list that a bit mask selects: bit `j` keeps element `j`.
pub open spec fn mask_subset_from(s: Seq<i32>, mask: u128, j: int) -> Seq<i32>
    decreases s.len() - j,
{
    if j < 0 || j >= s.len() {
        Seq::empty()
    } else {
        (if (mask >> (j as u128)) & 1 == 1 {
            seq![s[j]]
        } else {
            Seq::empty()
        }) + mask_subset_from(s, mask, j + 1)
    }
}

/// The subset of the list that a bit mask selects.
pub open spec fn mask_subset(s: Seq<i32>, mask: u128) -> Seq<i32> {
    mask_subset_from(s, mask, 0)
}

/// The subset of `set` selected by the mask, in the order of the input.
fn sub_powerset(set: &[i32], mask: u128) -> (r: Vec<i32>)
    requires
        set@.len() < 128,
    ensures
        r@ == mask_subset(set@, mask),
{
    let n = set.len();
    let mut out: Vec<i32> = Vec::new();
    let mut j: usize = 0;
    proof {
        assert(out@ + mask_subset_from(set@, mask, 0) =~= mask_subset_from(set@, mask, 0));
    }
    while j < n
        invariant
            j <= n,
            n == set@.len(),
            n < 128,
            mask_subset(set@, mask) == out@ + mask_subset_from(set@, mask, j as int),
        decreases n - j,
    {
        let ghost before = out@;
        if (mask >> (j as u128)) & 1 == 1 {
            out.push(set[j]);
        }
        proof {
            let rest = mask_subset_from(set@, mask, j + 1);
            if (mask >> (j as u128)) & 1 == 1 {
                assert(mask_subset_from(set@, mask, j as int) == seq![set@[j as int]] + rest);
                assert(before + (seq![set@[j as int]] + rest) =~= out@ + rest);
            } else {
                assert(mask_subset_from(set@, mask, j as int) == rest);
            }
        }
        j = j + 1;
    }
    proof {
        assert(mask_subset_from(set@, mask, n as int) == Seq::<i32>::empty());
        assert(out@ + Seq::<i32>::empty() =~= out@);
    }
    out
}

/// Enumerates all `2^n` subsets of the input, in ascending order of their
/// selection masks; bit `j` of a mask selects element `j`.
pub fn powerset(set: &[i32]) -> (r: Vec<Vec<i32>>)
    requires
        set@.len() < 128,
    ensures
        r@.len() == 1u128 << (set@.len() as u128),
        forall|m: int|
            0 <= m < r@.len() ==> (#[trigger] r@[m])@ == mask_subset(set@, m as u128),
{
    let n = set.len();
    let end: u128 = 1u128 << (n as u128);
    let mut out: Vec<Vec<i32>> = Vec::new();
    let mut mask: u128 = 0;
    while mask < end
        invariant
            mask <= end,
            end == 1u128 << (set@.len() as u128),
            set@.len() < 128,
            out@.len() == mask,
            forall|m: int|
                0 <= m < out@.len() ==> (#[trigger] out@[m])@ == mask_subset(set@, m as u128),
        decreases end - mask,
    {
        let subset = sub_powerset(set, mask);
        out.push(subset);
        mask = mask + 1;
    }
    out
}

/// What a set operator means, over the universe `u` of all provided
/// elements: `&` intersects, `|` unites, `^` is the symmetric difference,
/// `>` is implication `(U \ A) ∪ B`, and `=` keeps the left set when the two
/// are equal and gives the empty set otherwise.
pub open spec fn set_op(c: char, a: Set<i32>, b: Set<i32>, u: Set<i32>) -> Set<i32> {
    if c == '&' {
        a.intersect(b)
    } else if c == '|' {
        a.union(b)
    } else if c == '^' {
        a.union(b).difference(a.intersect(b))
    } else if c == '>' {
        u.difference(a).union(b)
    } else {
        if a == b {
            a
        } else {
            Set::empty()
        }
    }
}

/// Whether an element of the universe belongs to the result of one of the
/// four membership-wise operators.
pub open spec fn set_op_keeps(c: char, ina: bool, inb: bool) -> bool {
    if c == '&' {
        ina && inb
    } else if c == '|' {
        ina || inb
    } else if c == '^' {
        ina != inb
    } else {
        !ina || inb
    }
}

/// Applies one of the membership-wise operators by walking the sorted
/// universe and keeping the elements the operator admits.
fn set_combine(c: char, a: &Vec<i32>, b: &Vec<i32>, u: &Vec<i32>) -> (r: Vec<i32>)
    requires
        c == '&' || c == '|' || c == '^' || c == '>',
        sorted_distinct(u@),
        a@.to_set() <= u@.to_set(),
        b@.to_set() <= u@.to_set(),
    ensures
        sorted_distinct(r@),
        r@.to_set() == set_op(c, a@.to_set(), b@.to_set(), u@.to_set()),
        r@.to_set() <= u@.to_set(),
{
    let n = u.len();
    let mut out: Vec<i32> = Vec::new();
    let mut j: usize = 0;
    while j < n
        invariant
            j <= n,
            n == u@.len(),
            sorted_distinct(u@),
            sorted_distinct(out@),
            forall|p: int|
                0 <= p < out@.len() ==> exists|q: int|
                    0 <= q < j && u@[q] == #[trigger] out@[p],
            forall|x: i32|
                out@.contains(x) == (u@.take(j as int).contains(x) && set_op_keeps(
                    c,
                    a@.contains(x),
                    b@.contains(x),
                )),
        decreases n - j,
    {
        let x = u[j];
        let ina = contains_i32(a, x);
        let inb = contains_i32(b, x);
        let keep = if c == '&' {
            ina && inb
        } else if c == '|' {
            ina || inb
        } else if c == '^' {
            ina != inb
        } else {
            !ina || inb
        };
        let ghost before = out@;
        if keep {
            proof {
                assert forall|p: int| 0 <= p < out@.len() implies out@[p] < x by {
                    let q = choose|q: int| 0 <= q < j && u@[q] == out@[p];
                }
            }
            out.push(x);
        }
        proof {
            assert forall|y: i32|
                out@.contains(y) == (u@.take(j + 1).contains(y) && set_op_keeps(
                    c,
                    a@.contains(y),
                    b@.contains(y),
                )) by {
                assert(u@.take(j + 1)[j as int] == x);
                if out@.contains(y) {
                    if before.contains(y) {
                        let p = choose|p: int| 0 <= p < j && u@.take(j as int)[p] == y;
                        assert(u@.take(j + 1)[p] == y);
                    } else {
                        assert(y == x);
                    }
                }
                if u@.take(j + 1).contains(y) {
                    let p = choose|p: int| 0 <= p < j + 1 && #[trigger] u@.take(j + 1)[p] == y;
                    if p < j {
                        assert(u@.take(j as int)[p] == y);
                    }
                }
                if before.contains(y) {
                    assert(out@.contains(y)) by {
                        if keep {
                            let p = choose|p: int| 0 <= p < before.len() && before[p] == y;
                            assert(out@[p] == y);
                        }
                    }
                }
                if keep && y == x {
                    assert(out@[out@.len() - 1] == x);
                }
            }
        }
        j = j + 1;
    }
    proof {
        assert(u@.take(n as int) =~= u@);
        assert(out@.to_set() =~= set_op(c, a@.to_set(), b@.to_set(), u@.to_set())) by {
            assert(forall|x: i32| u@.to_set().contains(x) == u@.contains(x));
            assert(forall|x: i32| a@.to_set().contains(x) == a@.contains(x));
            assert(forall|x: i32| b@.to_set().contains(x) == b@.contains(x));
            assert forall|x: i32|
                set_op(c, a@.to_set(), b@.to_set(), u@.to_set()).contains(x) implies u@.contains(
                x,
            ) by {
                if a@.to_set().contains(x) {
                    assert(u@.to_set().contains(x));
                }
                if b@.to_set().contains(x) {
                    assert(u@.to_set().contains(x));
                }
            }
        }
        assert forall|x: i32| out@.to_set().contains(x) implies u@.to_set().contains(x) by {
            assert(out@.contains(x));
        }
    }
    out
}

/// The complement relative to the sorted universe.
fn set_complement(a: &Vec<i32>, u: &Vec<i32>) -> (r: Vec<i32>)
    requires
        sorted_distinct(u@),
        a@.to_set() <= u@.to_set(),
    ensures
        sorted_distinct(r@),
        r@.to_set() == u@.to_set().difference(a@.to_set()),
        r@.to_set() <= u@.to_set(),
{
    let n = u.len();
    let mut out: Vec<i32> = Vec::new();
    let mut j: usize = 0;
    while j < n
        invariant
            j <= n,
            n == u@.len(),
            sorted_distinct(u@),
            sorted_distinct(out@),
            forall|p: int|
                0 <= p < out@.len() ==> exists|q: int|
                    0 <= q < j && u@[q] == #[trigger] out@[p],
            forall|x: i32|
                out@.contains(x) == (u@.take(j as int).contains(x) && !a@.contains(x)),
        decreases n - j,
    {
        let x = u[j];
        let keep = !contains_i32(a, x);
        let ghost before = out@;
        if keep {
            proof {
                assert forall|p: int| 0 <= p < out@.len() implies out@[p] < x by {
                    let q = choose|q: int| 0 <= q < j && u@[q] == out@[p];
                }
            }
            out.push(x);
        }
        proof {
            assert forall|y: i32|
                out@.contains(y) == (u@.take(j + 1).contains(y) && !a@.contains(y)) by {
                assert(u@.take(j + 1)[j as int] == x);
                if out@.contains(y) {
                    if before.contains(y) {
                        let p = choose|p: int| 0 <= p < j && u@.take(j as int)[p] == y;
                        assert(u@.take(j + 1)[p] == y);
                    } else {
                        assert(y == x);
                    }
                }
                if u@.take(j + 1).contains(y) {
                    let p = choose|p: int| 0 <= p < j + 1 && #[trigger] u@.take(j + 1)[p] == y;
                    if p < j {
                        assert(u@.take(j as int)[p] == y);
                    }
                }
                if before.contains(y) {
                    assert(out@.contains(y)) by {
                        if keep {
                            let p = choose|p: int| 0 <= p < before.len() && before[p] == y;
                            assert(out@[p] == y);
                        }
                    }
                }
                if keep && y == x {
                    assert(out@[out@.len() - 1] == x);
                }
            }
        }
        j = j + 1;
    }
    proof {
        assert(u@.take(n as int) =~= u@);
        assert(out@.to_set() =~= u@.to_set().difference(a@.to_set()));
        assert forall|x: i32| out@.to_set().contains(x) implies u@.to_set().contains(x) by {
            assert(out@.contains(x));
        }
    }
    out
}

/// Whether two lists hold the same characters in the same order.
fn vec_eq(a: &Vec<i32>, b: &Vec<i32>) -> (r: bool)
    ensures
        r == (a@ == b@),
{
    if a.len() != b.len() {
        return false;
    }
    let n = a.len();
    let mut i: usize = 0;
    while i < n
        invariant
            i <= n,
            n == a@.len(),
            n == b@.len(),
            forall|j: int| 0 <= j < i ==> a@[j] == b@[j],
        decreases n - i,
    {
        if a[i] != b[i] {
            return false;
        }
        i = i + 1;
    }
    proof {
        assert(a@ =~= b@);
    }
    true
}

/// The union of all provided sets: the domain of the complement.
pub open spec fn universe_of(views: Seq<Seq<i32>>) -> Set<i32>
    decreases views.len(),
{
    if views.len() == 0 {
        Set::empty()
    } else {
        universe_of(views.drop_last()).union(views.last().to_set())
    }
}

/// Every provided set lies inside the universe.
proof fn lemma_universe_superset(views: Seq<Seq<i32>>, i: int)
    requires
        0 <= i < views.len(),
    ensures
        views[i].to_set() <= universe_of(views),
    decreases views.len(),
{
    if i < views.len() - 1 {
        lemma_universe_superset(views.drop_last(), i);
    }
}

/// Builds the sorted universe of all provided sets.
fn build_universe(sets: &[Vec<i32>]) -> (u: Vec<i32>)
    ensures
        sorted_distinct(u@),
        u@.to_set() == universe_of(sets.deep_view()),
{
    let mut u: Vec<i32> = Vec::new();
    let mut i: usize = 0;
    proof {
        assert(sets.deep_view().take(0) =~= Seq::<Seq<i32>>::empty());
    }
    while i < sets.len()
        invariant
            i <= sets@.len(),
            sets.deep_view().len() == sets@.len(),
            forall|k: int|
                0 <= k < sets@.len() ==> sets.deep_view()[k] == (#[trigger] sets@[k])@,
            sorted_distinct(u@),
            u@.to_set() == universe_of(sets.deep_view().take(i as int)),
        decreases sets@.len() - i,
    {
        let s = &sets[i];
        let mut j: usize = 0;
        while j < s.len()
            invariant
                j <= s@.len(),
                s@ == sets.deep_view()[i as int],
                i < sets.deep_view().len(),
                sorted_distinct(u@),
                u@.to_set() == universe_of(sets.deep_view().take(i as int)).union(
                    s@.take(j as int).to_set(),
                ),
            decreases s@.len() - j,
        {
            insert_sorted(&mut u, s[j]);
            proof {
                assert(s@.take(j + 1).to_set() =~= s@.take(j as int).to_set().insert(
                    s@[j as int],
                )) by {
                    assert forall|y: i32| s@.take(j + 1).contains(y) implies s@.take(
                        j as int,
                    ).to_set().insert(s@[j as int]).contains(y) by {
                        let p = choose|p: int|
                            0 <= p < j + 1 && #[trigger] s@.take(j + 1)[p] == y;
                        if p < j {
                            assert(s@.take(j as int)[p] == y);
                        }
                    }
                    assert forall|y: i32|
                        s@.take(j as int).to_set().insert(s@[j as int]).contains(y) implies
                        s@.take(j + 1).contains(y) by {
                        if y == s@[j as int] {
                            assert(s@.take(j + 1)[j as int] == y);
                        } else {
                            let p = choose|p: int|
                                0 <= p < j && #[trigger] s@.take(j as int)[p] == y;
                            assert(s@.take(j + 1)[p] == y);
                        }
                    }
                }
                assert(u@.to_set() =~= universe_of(sets.deep_view().take(i as int)).union(
                    s@.take(j + 1).to_set(),
                ));
            }
            j = j + 1;
        }
        proof {
            let views = sets.deep_view();
            assert(s@.take(s@.len() as int) =~= s@);
            assert(views.take(i + 1).drop_last() =~= views.take(i as int));
            assert(views.take(i + 1).last() == views[i as int]);
            assert(universe_of(views.take(i + 1)) == universe_of(views.take(i as int)).union(
                s@.to_set(),
            ));
        }
        i = i + 1;
    }
    proof {
        assert(sets.deep_view().take(sets@.len() as int) =~= sets.deep_view());
    }
    u
}

/// One step of the set evaluator: a variable letter pushes its bound set,
/// `!` replaces the top with its complement in the universe, and a binary
/// operator folds the top two sets; `a` was pushed first.
pub open spec fn set_step(
    stack: Seq<Set<i32>>,
    c: char,
    keys: Seq<char>,
    vals: Seq<Set<i32>>,
    u: Set<i32>,
) -> Result<Seq<Set<i32>>, SetError> {
    if is_variable_symbol(c) {
        Ok(stack.push(vals[keys.index_of(c)]))
    } else if c == '!' {
        if stack.len() >= 1 {
            Ok(stack.drop_last().push(u.difference(stack.last())))
        } else {
            Err(SetError::InvalidToken(c))
        }
    } else if c == '&' || c == '|' || c == '^' || c == '>' || c == '=' {
        if stack.len() >= 2 {
            Ok(
                stack.drop_last().drop_last().push(
                    set_op(c, stack[stack.len() - 2], stack.last(), u),
                ),
            )
        } else {
            Err(SetError::InvalidToken(c))
        }
    } else {
        Err(SetError::InvalidToken(c))
    }
}

/// The stack of sets after the first `n` characters, or the first error met.
pub open spec fn run_set_eval(
    s: Seq<char>,
    n: int,
    keys: Seq<char>,
    vals: Seq<Set<i32>>,
    u: Set<i32>,
) -> Result<Seq<Set<i32>>, SetError>
    decreases n,
{
    if n <= 0 {
        Ok(Seq::empty())
    } else {
        match run_set_eval(s, n - 1, keys, vals, u) {
            Err(e) => Err(e),
            Ok(st) => set_step(st, s[n - 1], keys, vals, u),
        }
    }
}

/// What `eval_set` computes: the set the formula denotes when its k-th sorted
/// variable letter is bound to the k-th provided set, complements taken in
/// the union of all provided sets; or the first error met, a mismatched count
/// of sets being rejected before evaluation.
pub open spec fn spec_eval_set(s: Seq<char>, views: Seq<Seq<i32>>) -> Result<Set<i32>, SetError> {
    let keys = sorted_vars(s);
    let vals = Seq::new(views.len(), |i: int| views[i].to_set());
    let u = universe_of(views);
    if s.len() == 0 {
        Err(SetError::EmptyFormula)
    } else if keys.len() > views.len() {
        Err(SetError::MissingSets)
    } else if views.len() > keys.len() {
        Err(SetError::TooManySets)
    } else {
        match run_set_eval(s, s.len() as int, keys, vals, u) {
            Err(e) => Err(e),
            Ok(st) => if st.len() == 1 {
                Ok(st[0])
            } else {
                Err(SetError::ResidualStack)
            },
        }
    }
}

/// A set-evaluation error stays whatever characters follow it.
proof fn lemma_run_set_eval_err(
    s: Seq<char>,
    m: int,
    n: int,
    keys: Seq<char>,
    vals: Seq<Set<i32>>,
    u: Set<i32>,
)
    requires
        0 <= m <= n,
        run_set_eval(s, m, keys, vals, u) is Err,
    ensures
        run_set_eval(s, n, keys, vals, u) == run_set_eval(s, m, keys, vals, u),
    decreases n,
{
    if n > m {
        lemma_run_set_eval_err(s, m, n - 1, keys, vals, u);
    }
}

/// Evaluates a reverse Polish set formula: the k-th sorted variable letter is
/// bound to the k-th provided set, the universe of the complement being the
/// union of all provided sets. The result is sorted and without repeats.
#[verifier::rlimit(50)]
pub fn eval_set(formula: &str, sets: &[Vec<i32>]) -> (r: Result<Vec<i32>, SetError>)
    ensures
        match spec_eval_set(formula@, sets.deep_view()) {
            Ok(sv) => r matches Ok(out) && sorted_distinct(out@) && out@.to_set() == sv,
            Err(e) => r == Err::<Vec<i32>, SetError>(e),
        },
{
    let n = formula.unicode_len();
    if n == 0 {
        return Err(SetError::EmptyFormula);
    }
    let keys = crate::truth::collect_vars(formula);
    if keys.len() > sets.len() {
        return Err(SetError::MissingSets);
    }
    if sets.len() > keys.len() {
        return Err(SetError::TooManySets);
    }
    let ghost views = sets.deep_view();
    let ghost vals = Seq::new(views.len(), |i: int| views[i].to_set());
    let ghost uset = universe_of(views);
    proof {
        assert(views.len() == sets@.len());
        assert(forall|k: int|
            0 <= k < sets@.len() ==> views[k] == (#[trigger] sets@[k])@);
    }
    let u = build_universe(sets);
    let mut values: Vec<Vec<i32>> = Vec::new();
    let mut k: usize = 0;
    while k < sets.len()
        invariant
            k <= sets@.len(),
            views == sets.deep_view(),
            views.len() == sets@.len(),
            forall|p: int|
                0 <= p < sets@.len() ==> views[p] == (#[trigger] sets@[p])@,
            vals == Seq::new(views.len(), |i: int| views[i].to_set()),
            values@.len() == k,
            forall|p: int|
                0 <= p < k ==> sorted_distinct((#[trigger] values@[p])@) && values@[p]@.to_set()
                    == vals[p],
        decreases sets@.len() - k,
    {
        let d = dedup_sorted(&sets[k]);
        values.push(d);
        k = k + 1;
    }
    let mut stack: Vec<Vec<i32>> = Vec::new();
    let ghost mut gstack: Seq<Set<i32>> = Seq::empty();
    let mut i: usize = 0;
    while i < n
        invariant
            i <= n,
            n == formula@.len(),
            views == sets.deep_view(),
            keys@ == sorted_vars(formula@),
            crate::truth::strictly_ascending(keys@),
            keys@.len() == views.len(),
            vals == Seq::new(views.len(), |p: int| views[p].to_set()),
            uset == universe_of(views),
            sorted_distinct(u@),
            u@.to_set() == uset,
            values@.len() == keys@.len(),
            forall|p: int|
                0 <= p < values@.len() ==> sorted_distinct((#[trigger] values@[p])@)
                    && values@[p]@.to_set() == vals[p],
            run_set_eval(formula@, i as int, keys@, vals, uset) == Ok::<
                Seq<Set<i32>>,
                SetError,
            >(gstack),
            gstack.len() == stack@.len(),
            forall|p: int|
                0 <= p < stack@.len() ==> sorted_distinct((#[trigger] stack@[p])@)
                    && stack@[p]@.to_set() == gstack[p] && gstack[p] <= uset,
        decreases n - i,
    {
        let c = formula.get_char(i);
        let cu = c as u32;
        let ghost st0 = gstack;
        if 65 <= cu && cu <= 90 {
            proof {
                crate::truth::lemma_sorted_vars_contains(formula@, c);
                assert(formula@.contains(c)) by {
                    assert(formula@[i as int] == c);
                }
            }
            let idx = crate::truth::index_in(&keys, c);
            let pushed = copy_vec(&values[idx]);
            stack.push(pushed);
            proof {
                gstack = st0.push(vals[keys@.index_of(c)]);
                lemma_universe_superset(views, keys@.index_of(c));
                assert(idx == keys@.index_of(c));
                assert(idx < values@.len());
                assert(pushed@ == values@[idx as int]@);
                assert(sorted_distinct(pushed@));
                assert(values@[idx as int]@.to_set() == vals[idx as int]);
                assert(vals[idx as int] == views[idx as int].to_set());
                assert(vals[idx as int] <= uset);
                assert(stack@.len() == gstack.len());
                assert forall|p: int|
                    0 <= p < stack@.len() implies sorted_distinct((#[trigger] stack@[p])@)
                    && stack@[p]@.to_set() == gstack[p] && gstack[p] <= uset by {
                    if p == stack@.len() - 1 {
                        assert(stack@[p]@.to_set() == vals[keys@.index_of(c)]);
                    }
                }
            }
        } else if c == '!' {
            if stack.len() < 1 {
                proof {
                    lemma_run_set_eval_err(formula@, i + 1, n as int, keys@, vals, uset);
                }
                return Err(SetError::InvalidToken(c));
            }
            let ghost v0 = stack@;
            let a = stack.pop().unwrap();
            proof {
                assert(a == v0[v0.len() - 1]);
                assert(a@.to_set() == st0.last() && sorted_distinct(a@)) by {
                    assert(v0[v0.len() - 1]@.to_set() == st0[st0.len() - 1]);
                }
            }
            let res = set_complement(&a, &u);
            stack.push(res);
            proof {
                gstack = st0.drop_last().push(uset.difference(st0.last()));
                assert(stack@ =~= v0.subrange(0, v0.len() - 1).push(res));
                assert forall|p: int|
                    0 <= p < stack@.len() implies sorted_distinct((#[trigger] stack@[p])@)
                    && stack@[p]@.to_set() == gstack[p] && gstack[p] <= uset by {
                    if p == stack@.len() - 1 {
                        assert(stack@[p] == res);
                        assert(gstack[p] == uset.difference(st0.last()));
                    } else {
                        assert(stack@[p] == v0[p]);
                        assert(v0[p]@.to_set() == st0[p]);
                        assert(gstack[p] == st0[p]);
                    }
                }
            }
        } else if c == '&' || c == '|' || c == '^' || c == '>' || c == '=' {
            if stack.len() < 2 {
                proof {
                    lemma_run_set_eval_err(formula@, i + 1, n as int, keys@, vals, uset);
                }
                return Err(SetError::InvalidToken(c));
            }
            let ghost v0 = stack@;
            let b = stack.pop().unwrap();
            let a = stack.pop().unwrap();
            proof {
                assert(b == v0[v0.len() - 1]);
                assert(stack@ =~= v0.subrange(0, v0.len() - 2));
                assert(b@.to_set() == st0.last() && sorted_distinct(b@)) by {
                    assert(v0[v0.len() - 1]@.to_set() == st0[st0.len() - 1]);
                }
                assert(a@.to_set() == st0[st0.len() - 2] && sorted_distinct(a@)) by {
                    assert(v0[v0.len() - 2]@.to_set() == st0[st0.len() - 2]);
                }
                assert(st0[st0.len() - 2] <= uset && st0.last() <= uset) by {
                    assert(v0[v0.len() - 1]@.to_set() == st0[st0.len() - 1]);
                    assert(v0[v0.len() - 2]@.to_set() == st0[st0.len() - 2]);
                }
            }
            let res = if c == '=' {
                if vec_eq(&a, &b) {
                    copy_vec(&a)
                } else {
                    Vec::new()
                }
            } else {
                set_combine(c, &a, &b, &u)
            };
            stack.push(res);
            proof {
                let ga = st0[st0.len() - 2];
                let gb = st0.last();
                if c == '=' {
                    if a@ == b@ {
                        assert(ga == gb);
                        assert(set_op(c, ga, gb, uset) == ga);
                    } else {
                        assert(ga != gb) by {
                            if ga == gb {
                                lemma_sorted_distinct_canonical(a@, b@);
                            }
                        }
                        assert(set_op(c, ga, gb, uset) == Set::<i32>::empty());
                        assert(res@.to_set() =~= Set::<i32>::empty());
                    }
                }
                gstack = st0.drop_last().drop_last().push(set_op(c, ga, gb, uset));
                assert forall|x: i32| set_op(c, ga, gb, uset).contains(x) implies uset.contains(
                    x,
                ) by {
                    if ga.contains(x) || gb.contains(x) {
                    }
                }
                assert(stack@ =~= v0.subrange(0, v0.len() - 2).push(res));
                assert forall|p: int|
                    0 <= p < stack@.len() implies sorted_distinct((#[trigger] stack@[p])@)
                    && stack@[p]@.to_set() == gstack[p] && gstack[p] <= uset by {
                    if p == stack@.len() - 1 {
                        assert(stack@[p] == res);
                        assert(res@.to_set() == set_op(c, ga, gb, uset));
                        assert(gstack[p] == set_op(c, ga, gb, uset));
                    } else {
                        assert(stack@[p] == v0[p]);
                        assert(v0[p]@.to_set() == st0[p]);
                        assert(gstack[p] == st0[p]);
                    }
                }
            }
        } else {
            proof {
                lemma_run_set_eval_err(formula@, i + 1, n as int, keys@, vals, uset);
            }
            return Err(SetError::InvalidToken(c));
        }
        proof {
            assert(gstack.len() == stack@.len());
            assert(forall|p: int|
                0 <= p < stack@.len() ==> sorted_distinct((#[trigger] stack@[p])@)
                    && stack@[p]@.to_set() == gstack[p] && gstack[p] <= uset);
            assert(run_set_eval(formula@, i + 1, keys@, vals, uset) == Ok::<
                Seq<Set<i32>>,
                SetError,
            >(gstack));
        }
        i = i + 1;
    }
    if stack.len() == 1 {
        let v = stack.pop().unwrap();
        Ok(v)
    } else {
        Err(SetError::ResidualStack)
    }
}

} // verus!
