//! Pairing the versions of two lists so that each pair is as close as it can
//! be, by the minimum-cost assignment of the Hungarian algorithm.

use vstd::prelude::*;

use crate::levenshtein::{edit_distance, levenshtein, lemma_edit_distance_bound, tokens_of};
use crate::sorting::{
    version_after, after_fn, insertion_sort, insertion_sorted, insert_pos, keys, lemma_insert_pos_bound,
    sorted_versions, version_views,
};
use crate::text::Order;
use crate::version::{Version, VersionComponent, component_views, components_of};

verus! {

/// One entry of a pairing of two lists: an item of the left list alone, one of
/// the right list alone, or one of each.
#[derive(Debug, Clone, Copy, PartialEq, Eq)]
pub enum EitherOrBoth<T> {
    Left(T),
    Right(T),
    Both(T, T),
}

impl<T> EitherOrBoth<T> {
    /// Swaps the sides.
    pub fn flip(self) -> (r: EitherOrBoth<T>)
        ensures
            r == flipped(self),
    {
        match self {
            EitherOrBoth::Left(a) => EitherOrBoth::Right(a),
            EitherOrBoth::Right(b) => EitherOrBoth::Left(b),
            EitherOrBoth::Both(a, b) => EitherOrBoth::Both(b, a),
        }
    }
}

pub open spec fn flipped<T>(e: EitherOrBoth<T>) -> EitherOrBoth<T> {
    match e {
        EitherOrBoth::Left(a) => EitherOrBoth::Right(a),
        EitherOrBoth::Right(b) => EitherOrBoth::Left(b),
        EitherOrBoth::Both(a, b) => EitherOrBoth::Both(b, a),
    }
}

/// The assignment `pathfinding::kuhn_munkres::kuhn_munkres_min` makes for a
/// `rows` by `columns` weight matrix laid out row by row: its total weight and
/// the column of every row.
pub uninterp spec fn kuhn_munkres_min_result(rows: usize, columns: usize, weights: Seq<i32>) -> (
    i32,
    Seq<usize>,
);

/// Every row gets a distinct column within range.
pub open spec fn is_assignment(rows: nat, columns: nat, a: Seq<usize>) -> bool {
    &&& a.len() == rows
    &&& forall|i: int| 0 <= i < a.len() ==> #[trigger] a[i] < columns
    &&& forall|i: int, j: int| 0 <= i < j < a.len() ==> a[i] != a[j]
}

/// The total weight of an assignment.
pub open spec fn assignment_weight(columns: nat, weights: Seq<i32>, a: Seq<usize>) -> int
    decreases a.len(),
{
    if a.len() == 0 {
        0
    } else {
        assignment_weight(columns, weights, a.drop_last()) + weights[(a.len() - 1) * columns
            + a.last()] as int
    }
}

/// Minimum-weight assignment of every row of a weight matrix to a distinct
/// column, by `pathfinding::kuhn_munkres::kuhn_munkres_min`.
///
/// As its documentation says, the result assigns every row a distinct column,
/// and its first part is the total weight of that assignment, which no other
/// such assignment undercuts. Which of several assignments of equal weight is
/// returned is left to the name `kuhn_munkres_min_result`. The crate panics
/// when there are more rows than columns and when its arithmetic overflows.
/// With weights between 0 and `w` its row labels stay between `-w` and 0, its
/// column labels between 0 and `w` and its slacks at most `2 * w`, and its two
/// sums of labels at most `rows * w` and `columns * w` in size, so a bound of
/// `(rows + columns) * w` on `i32::MAX` keeps all of them within `i32`.
#[verifier::external_body]
fn kuhn_munkres_min(rows: usize, columns: usize, weights: Vec<i32>) -> (r: (i32, Vec<usize>))
    requires
        0 < rows <= columns,
        weights@.len() == rows * columns,
        forall|k: int|
            0 <= k < weights@.len() ==> 0 <= #[trigger] weights@[k] && (rows + columns) * weights@[k]
                <= i32::MAX,
    ensures
        (r.0, r.1@) == kuhn_munkres_min_result(rows, columns, weights@),
        is_assignment(rows as nat, columns as nat, r.1@),
        r.0 as int == assignment_weight(columns as nat, weights@, r.1@),
        forall|a: Seq<usize>|
            is_assignment(rows as nat, columns as nat, a) ==> r.0 as int <= #[trigger] assignment_weight(
                columns as nat,
                weights@,
                a,
            ),
{
    let matrix = pathfinding::matrix::Matrix::from_vec(rows, columns, weights).unwrap();
    pathfinding::kuhn_munkres::kuhn_munkres_min(&matrix)
}

pub type VersionView = (Seq<char>, nat);

/// The edit distance between the component lists of two version names.
pub open spec fn component_distance(a: VersionView, b: VersionView) -> nat {
    edit_distance(components_of(a.0), components_of(b.0))
}

/// The distance matrix of two version lists, row by row.
pub open spec fn distance_weights(f: Seq<VersionView>, t: Seq<VersionView>) -> Seq<i32> {
    Seq::new(f.len() * t.len(), |k: int| component_distance(f[k / t.len() as int], t[k % t.len() as int]) as i32)
}

/// The columns no row was assigned to, in increasing order.
pub open spec fn unassigned(columns: nat, a: Seq<usize>) -> Seq<usize>
    decreases columns,
{
    if columns == 0 {
        seq![]
    } else {
        let rest = unassigned((columns - 1) as nat, a);
        if a.contains((columns - 1) as usize) {
            rest
        } else {
            rest.push((columns - 1) as usize)
        }
    }
}

/// The pairing of `f` with the no shorter `t`: each of `f` with the member of
/// `t` the assignment gives it, then the members of `t` left over, sorted.
pub open spec fn assigned_pairing(f: Seq<VersionView>, t: Seq<VersionView>) -> Seq<EitherOrBoth<VersionView>> {
    let a = kuhn_munkres_min_result(f.len() as usize, t.len() as usize, distance_weights(f, t)).1;
    let both = Seq::new(f.len(), |i: int| EitherOrBoth::Both(f[i], t[a[i] as int]));
    let left_over = sorted_versions(unassigned(t.len(), a).map_values(|j: usize| t[j as int]));
    both + left_over.map_values(|v: VersionView| EitherOrBoth::Right(v))
}

/// The assignment behind `assigned_pairing(f, t)` gives every member of `f`
/// its own member of `t`, and no other such assignment has a smaller total
/// distance between the component lists of the paired versions.
pub open spec fn optimal_assignment(f: Seq<VersionView>, t: Seq<VersionView>) -> bool {
    let w = distance_weights(f, t);
    let a = kuhn_munkres_min_result(f.len() as usize, t.len() as usize, w).1;
    &&& is_assignment(f.len(), t.len(), a)
    &&& forall|b: Seq<usize>|
        is_assignment(f.len(), t.len(), b) ==> assignment_weight(t.len(), w, a) <= #[trigger] assignment_weight(
            t.len(),
            w,
            b,
        )
}

/// The pairing `match_version_lists` makes of two version lists.
pub open spec fn version_pairing(from: Seq<VersionView>, to: Seq<VersionView>) -> Seq<EitherOrBoth<VersionView>> {
    if from.len() == 0 {
        to.map_values(|v: VersionView| EitherOrBoth::Right(v))
    } else if to.len() == 0 {
        from.map_values(|v: VersionView| EitherOrBoth::Left(v))
    } else if from.len() == 1 && to.len() == 1 && from[0] == to[0] {
        seq![EitherOrBoth::Both(from[0], to[0])]
    } else if from.len() > to.len() {
        assigned_pairing(to, from).map_values(|e: EitherOrBoth<VersionView>| flipped(e))
    } else {
        assigned_pairing(from, to)
    }
}

pub open spec fn entry_view<'a>(e: EitherOrBoth<&'a Version>) -> EitherOrBoth<VersionView> {
    match e {
        EitherOrBoth::Left(a) => EitherOrBoth::Left(a@),
        EitherOrBoth::Right(b) => EitherOrBoth::Right(b@),
        EitherOrBoth::Both(a, b) => EitherOrBoth::Both(a@, b@),
    }
}

pub open spec fn pairing_views<'a>(p: Seq<EitherOrBoth<&'a Version>>) -> Seq<EitherOrBoth<VersionView>> {
    p.map_values(|e: EitherOrBoth<&'a Version>| entry_view(e))
}

proof fn lemma_pairing_views_push<'a>(p: Seq<EitherOrBoth<&'a Version>>, e: EitherOrBoth<&'a Version>)
    ensures
        pairing_views(p.push(e)) == pairing_views(p).push(entry_view(e)),
{
    assert(pairing_views(p.push(e)) =~= pairing_views(p).push(entry_view(e)));
}

/// A weight of `c` in a problem of `n` versions in all keeps every label,
/// slack and sum of the assignment within `i32`.
pub open spec fn fits_weight(n: nat, c: nat) -> bool {
    n * c <= i32::MAX
}

/// The lists are small enough, and their versions have few enough components,
/// for the assignment's arithmetic to stay within `i32`.
pub open spec fn pairing_fits(from: Seq<VersionView>, to: Seq<VersionView>) -> bool {
    &&& forall|i: int|
        0 <= i < from.len() ==> fits_weight(from.len() + to.len(), #[trigger] components_of(from[i].0).len())
    &&& forall|i: int|
        0 <= i < to.len() ==> fits_weight(from.len() + to.len(), #[trigger] components_of(to[i].0).len())
}

proof fn lemma_fits_weight_mono(n: nat, c: nat, d: nat)
    requires
        fits_weight(n, c),
        d <= c,
    ensures
        fits_weight(n, d),
{
    assert(n * d <= n * c) by (nonlinear_arith)
        requires
            d <= c,
    ;
}

proof fn lemma_fits_weight_small(n: nat, c: nat)
    requires
        fits_weight(n, c),
        n >= 2,
    ensures
        2 * c <= i32::MAX,
{
    assert(2 * c <= n * c) by (nonlinear_arith)
        requires
            n >= 2,
    ;
}

/// The components of each version.
fn components_of_all<'a>(vs: &'a [Version]) -> (r: Vec<Vec<VersionComponent<'a>>>)
    ensures
        r@.len() == vs@.len(),
        forall|i: int| 0 <= i < vs@.len() ==> component_views(#[trigger] r@[i]@) == components_of(vs@[i].name@),
{
    let mut r: Vec<Vec<VersionComponent<'a>>> = Vec::new();
    let mut i: usize = 0;
    while i < vs.len()
        invariant
            i <= vs@.len(),
            r@.len() == i,
            forall|k: int| 0 <= k < i ==> component_views(#[trigger] r@[k]@) == components_of(vs@[k].name@),
        decreases vs@.len() - i,
    {
        r.push(vs[i].components());
        i = i + 1;
    }
    r
}

proof fn lemma_tokens_are_components<'a>(c: Seq<VersionComponent<'a>>)
    ensures
        tokens_of(c) == component_views(c),
{
    assert(tokens_of(c) =~= component_views(c));
}

/// Whether `x` is one of `a`.
fn contains_index(a: &Vec<usize>, x: usize) -> (b: bool)
    ensures
        b == a@.contains(x),
{
    let mut i: usize = 0;
    while i < a.len()
        invariant
            i <= a@.len(),
            forall|k: int| 0 <= k < i ==> a@[k] != x,
        decreases a@.len() - i,
    {
        if a[i] == x {
            return true;
        }
        i = i + 1;
    }
    false
}

pub open spec fn ref_views<'a>(s: Seq<&'a Version>) -> Seq<VersionView> {
    s.map_values(|v: &'a Version| v@)
}

/// Pairs `f` with the no shorter `t` by the minimum-cost assignment.
fn assign_pairs<'a>(f: &'a [Version], t: &'a [Version]) -> (r: Vec<EitherOrBoth<&'a Version>>)
    requires
        0 < f@.len() <= t@.len(),
        pairing_fits(version_views(f@), version_views(t@)),
    ensures
        pairing_views(r@) == assigned_pairing(version_views(f@), version_views(t@)),
        optimal_assignment(version_views(f@), version_views(t@)),
{
    let ghost fv = version_views(f@);
    let ghost tv = version_views(t@);
    let ghost n: nat = fv.len() + tv.len();
    let fc = components_of_all(f);
    let tc = components_of_all(t);
    let rows = f.len();
    let columns = t.len();
    let mut weights: Vec<i32> = Vec::new();
    let mut i: usize = 0;
    while i < rows
        invariant
            rows == f@.len(),
            columns == t@.len(),
            0 < rows <= columns,
            fv == version_views(f@),
            tv == version_views(t@),
            n == fv.len() + tv.len(),
            pairing_fits(fv, tv),
            fc@.len() == rows,
            tc@.len() == columns,
            forall|k: int| 0 <= k < rows ==> component_views(#[trigger] fc@[k]@) == components_of(f@[k].name@),
            forall|k: int| 0 <= k < columns ==> component_views(#[trigger] tc@[k]@) == components_of(t@[k].name@),
            i <= rows,
            weights@.len() == i * columns,
            forall|k: int| 0 <= k < weights@.len() ==> 0 <= #[trigger] weights@[k] && fits_weight(n, weights@[k] as nat),
            forall|k: int| 0 <= k < weights@.len() ==> #[trigger] weights@[k] == distance_weights(fv, tv)[k],
        decreases rows - i,
    {
        let mut j: usize = 0;
        while j < columns
            invariant
                rows == f@.len(),
                columns == t@.len(),
                0 < rows <= columns,
                fv == version_views(f@),
                tv == version_views(t@),
                n == fv.len() + tv.len(),
                pairing_fits(fv, tv),
                fc@.len() == rows,
                tc@.len() == columns,
                forall|k: int| 0 <= k < rows ==> component_views(#[trigger] fc@[k]@) == components_of(f@[k].name@),
                forall|k: int| 0 <= k < columns ==> component_views(#[trigger] tc@[k]@) == components_of(t@[k].name@),
                i < rows,
                j <= columns,
                weights@.len() == i * columns + j,
                forall|k: int| 0 <= k < weights@.len() ==> 0 <= #[trigger] weights@[k] && fits_weight(n, weights@[k] as nat),
                forall|k: int| 0 <= k < weights@.len() ==> #[trigger] weights@[k] == distance_weights(fv, tv)[k],
            decreases columns - j,
        {
            let a = &fc[i];
            let b = &tc[j];
            proof {
                assert(fv[i as int] == f@[i as int]@);
                assert(tv[j as int] == t@[j as int]@);
                assert(fits_weight(n, components_of(fv[i as int].0).len()));
                assert(fits_weight(n, components_of(tv[j as int].0).len()));
                lemma_fits_weight_small(n, components_of(fv[i as int].0).len());
                lemma_fits_weight_small(n, components_of(tv[j as int].0).len());
                lemma_tokens_are_components(a@);
                lemma_tokens_are_components(b@);
            }
            let d = levenshtein(a.as_slice(), b.as_slice());
            proof {
                let ca = components_of(fv[i as int].0);
                let cb = components_of(tv[j as int].0);
                lemma_edit_distance_bound(ca, cb);
                if ca.len() >= cb.len() {
                    lemma_fits_weight_mono(n, ca.len(), d as nat);
                } else {
                    lemma_fits_weight_mono(n, cb.len(), d as nat);
                }
                lemma_fits_weight_small(n, d as nat);
                let k = i * columns + j;
                assert(k == i * columns + j);
                assert(k < rows * columns) by (nonlinear_arith)
                    requires
                        k == i * columns + j,
                        j < columns,
                        i < rows,
                ;
                vstd::arithmetic::div_mod::lemma_fundamental_div_mod_converse(
                    k,
                    columns as int,
                    i as int,
                    j as int,
                );
                assert(distance_weights(fv, tv)[k] == component_distance(fv[i as int], tv[j as int]) as i32);
            }
            weights.push(d as i32);
            j = j + 1;
        }
        assert((i + 1) * columns == i * columns + columns) by (nonlinear_arith);
        i = i + 1;
    }
    proof {
        assert(weights@.len() == rows * columns);
        assert(distance_weights(fv, tv).len() == rows * columns);
        assert(weights@ =~= distance_weights(fv, tv));
        assert forall|k: int| 0 <= k < weights@.len() implies 0 <= #[trigger] weights@[k] && (rows + columns)
            * weights@[k] <= i32::MAX by {
            assert(fits_weight(n, weights@[k] as nat));
        }
    }
    let (cost, matchings) = kuhn_munkres_min(rows, columns, weights);
    let ghost a = matchings@;
    assert(a == kuhn_munkres_min_result(rows, columns, distance_weights(fv, tv)).1);
    assert(optimal_assignment(fv, tv)) by {
        assert(fv.len() as usize == rows && tv.len() as usize == columns);
        assert forall|b: Seq<usize>| is_assignment(fv.len(), tv.len(), b) implies assignment_weight(
            tv.len(),
            distance_weights(fv, tv),
            a,
        ) <= #[trigger] assignment_weight(tv.len(), distance_weights(fv, tv), b) by {
            assert(cost as int <= assignment_weight(columns as nat, distance_weights(fv, tv), b));
        }
    }
    let mut pairings: Vec<EitherOrBoth<&'a Version>> = Vec::new();
    let mut i: usize = 0;
    while i < rows
        invariant
            rows == f@.len(),
            columns == t@.len(),
            fv == version_views(f@),
            tv == version_views(t@),
            a == matchings@,
            is_assignment(rows as nat, columns as nat, a),
            i <= rows,
            pairing_views(pairings@) == Seq::new(i as nat, |k: int| EitherOrBoth::Both(fv[k], tv[a[k] as int])),
        decreases rows - i,
    {
        let j = matchings[i];
        let ghost old_p = pairings@;
        pairings.push(EitherOrBoth::Both(&f[i], &t[j]));
        proof {
            lemma_pairing_views_push(old_p, pairings@.last());
            assert(pairings@ == old_p.push(pairings@.last()));
            assert(fv[i as int] == f@[i as int]@);
            assert(tv[j as int] == t@[j as int]@);
            assert(pairing_views(pairings@) =~= Seq::new((i + 1) as nat, |k: int| EitherOrBoth::Both(fv[k], tv[a[k] as int])));
        }
        i = i + 1;
    }
    let mut left: Vec<&'a Version> = Vec::new();
    let mut j: usize = 0;
    while j < columns
        invariant
            columns == t@.len(),
            tv == version_views(t@),
            a == matchings@,
            j <= columns,
            ref_views(left@) == unassigned(j as nat, a).map_values(|c: usize| tv[c as int]),
            forall|k: int| 0 <= k < unassigned(j as nat, a).len() ==> #[trigger] unassigned(j as nat, a)[k] < j,
        decreases columns - j,
    {
        let ghost before = unassigned(j as nat, a);
        if !contains_index(&matchings, j) {
            let ghost old_l = left@;
            left.push(&t[j]);
            proof {
                assert(left@ == old_l.push(&t@[j as int]));
                assert(ref_views(left@) =~= ref_views(old_l).push(tv[j as int]));
                assert(unassigned((j + 1) as nat, a) == before.push(j));
                assert(ref_views(left@) =~= before.push(j).map_values(|c: usize| tv[c as int]));
            }
        } else {
            assert(unassigned((j + 1) as nat, a) == before);
        }
        j = j + 1;
    }
    let ghost unsorted = ref_views(left@);
    assert(keys(left@) =~= unsorted);
    insertion_sort(&mut left);
    assert(keys(left@) =~= ref_views(left@));
    assert(after_fn::<&'a Version>() == (|a: (Seq<char>, nat), b: (Seq<char>, nat)| version_after(a, b)));
    let ghost both_part = pairing_views(pairings@);
    let mut k: usize = 0;
    while k < left.len()
        invariant
            k <= left@.len(),
            pairing_views(pairings@) == both_part + ref_views(left@).take(k as int).map_values(|v: VersionView| EitherOrBoth::Right(v)),
        decreases left@.len() - k,
    {
        let ghost old_p = pairings@;
        pairings.push(EitherOrBoth::Right(left[k]));
        proof {
            lemma_pairing_views_push(old_p, pairings@.last());
            assert(pairings@ == old_p.push(pairings@.last()));
            assert(ref_views(left@).take(k + 1) == ref_views(left@).take(k as int).push(left@[k as int]@));
            assert(pairing_views(pairings@) =~= both_part + ref_views(left@).take(k + 1).map_values(|v: VersionView| EitherOrBoth::Right(v)));
        }
        k = k + 1;
    }
    proof {
        assert(ref_views(left@).take(left@.len() as int) == ref_views(left@));
        assert(unsorted == unassigned(tv.len(), a).map_values(|c: usize| tv[c as int]));
        assert(both_part =~= Seq::new(fv.len(), |i: int| EitherOrBoth::Both(fv[i], tv[a[i] as int])));
        assert(ref_views(left@) == sorted_versions(unassigned(tv.len(), a).map_values(|c: usize| tv[c as int])));
        assert(pairing_views(pairings@) == both_part + ref_views(left@).map_values(|v: VersionView| EitherOrBoth::Right(v)));
    }
    pairings
}

/// The left item of an entry, if it has one.
pub open spec fn left_side<T>(e: EitherOrBoth<T>) -> Seq<T> {
    match e {
        EitherOrBoth::Left(a) => seq![a],
        EitherOrBoth::Right(_) => seq![],
        EitherOrBoth::Both(a, _) => seq![a],
    }
}

/// The right item of an entry, if it has one.
pub open spec fn right_side<T>(e: EitherOrBoth<T>) -> Seq<T> {
    match e {
        EitherOrBoth::Left(_) => seq![],
        EitherOrBoth::Right(b) => seq![b],
        EitherOrBoth::Both(_, b) => seq![b],
    }
}

/// The left items of a pairing, in order.
pub open spec fn left_sides<T>(p: Seq<EitherOrBoth<T>>) -> Seq<T>
    decreases p.len(),
{
    if p.len() == 0 {
        seq![]
    } else {
        left_sides(p.drop_last()) + left_side(p.last())
    }
}

/// The right items of a pairing, in order.
pub open spec fn right_sides<T>(p: Seq<EitherOrBoth<T>>) -> Seq<T>
    decreases p.len(),
{
    if p.len() == 0 {
        seq![]
    } else {
        right_sides(p.drop_last()) + right_side(p.last())
    }
}

/// How many entries of a pairing pair two items.
pub open spec fn both_count<T>(p: Seq<EitherOrBoth<T>>) -> nat
    decreases p.len(),
{
    if p.len() == 0 {
        0
    } else {
        both_count(p.drop_last()) + if p.last() is Both {
            1nat
        } else {
            0nat
        }
    }
}

/// The items of each entry stand among the sides of the pairing.
pub proof fn lemma_entry_on_its_sides<T>(p: Seq<EitherOrBoth<T>>, k: int)
    requires
        0 <= k < p.len(),
    ensures
        p[k] matches EitherOrBoth::Left(a) ==> left_sides(p).contains(a),
        p[k] matches EitherOrBoth::Right(b) ==> right_sides(p).contains(b),
        p[k] matches EitherOrBoth::Both(a, b) ==> left_sides(p).contains(a) && right_sides(p).contains(b),
    decreases p.len(),
{
    let q = p.drop_last();
    let l = left_sides(q);
    let r = right_sides(q);
    if k < p.len() - 1 {
        lemma_entry_on_its_sides(q, k);
        assert(q[k] == p[k]);
        match p[k] {
            EitherOrBoth::Left(a) => {
                let i = choose|i: int| 0 <= i < l.len() && l[i] == a;
                assert(left_sides(p)[i] == a);
            },
            EitherOrBoth::Right(b) => {
                let i = choose|i: int| 0 <= i < r.len() && r[i] == b;
                assert(right_sides(p)[i] == b);
            },
            EitherOrBoth::Both(a, b) => {
                let i = choose|i: int| 0 <= i < l.len() && l[i] == a;
                assert(left_sides(p)[i] == a);
                let j = choose|j: int| 0 <= j < r.len() && r[j] == b;
                assert(right_sides(p)[j] == b);
            },
        }
    } else {
        match p[k] {
            EitherOrBoth::Left(a) => {
                assert(left_sides(p)[l.len() as int] == a);
            },
            EitherOrBoth::Right(b) => {
                assert(right_sides(p)[r.len() as int] == b);
            },
            EitherOrBoth::Both(a, b) => {
                assert(left_sides(p)[l.len() as int] == a);
                assert(right_sides(p)[r.len() as int] == b);
            },
        }
    }
}

/// Each side holds one item for every pair and one for every lone entry on
/// that side: with no more left items than pairs there is no lone left
/// entry, and a pairing with right items has an entry with a right item.
pub proof fn lemma_side_counts<T>(p: Seq<EitherOrBoth<T>>)
    ensures
        left_sides(p).len() >= both_count(p),
        right_sides(p).len() >= both_count(p),
        left_sides(p).len() == both_count(p) ==> forall|k: int| 0 <= k < p.len() ==> !(#[trigger] p[k] is Left),
        right_sides(p).len() == both_count(p) ==> forall|k: int| 0 <= k < p.len() ==> !(#[trigger] p[k] is Right),
        right_sides(p).len() > 0 ==> exists|k: int| 0 <= k < p.len() && !(#[trigger] p[k] is Left),
        left_sides(p).len() > 0 ==> exists|k: int| 0 <= k < p.len() && !(#[trigger] p[k] is Right),
    decreases p.len(),
{
    if p.len() > 0 {
        let q = p.drop_last();
        lemma_side_counts(q);
        assert forall|k: int| 0 <= k < q.len() implies #[trigger] q[k] == p[k] by {}
        assert(left_sides(p).len() == left_sides(q).len() + left_side(p.last()).len());
        assert(right_sides(p).len() == right_sides(q).len() + right_side(p.last()).len());
        assert(p[p.len() - 1] == p.last());
        match p.last() {
            EitherOrBoth::Left(_) => {
                assert(left_side(p.last()).len() == 1 && right_side(p.last()).len() == 0);
            },
            EitherOrBoth::Right(_) => {
                assert(left_side(p.last()).len() == 0 && right_side(p.last()).len() == 1);
            },
            EitherOrBoth::Both(_, _) => {
                assert(left_side(p.last()).len() == 1 && right_side(p.last()).len() == 1);
            },
        }
        if left_sides(p).len() == both_count(p) {
            assert forall|k: int| 0 <= k < p.len() implies !(#[trigger] p[k] is Left) by {
                if k < q.len() {
                    assert(q[k] == p[k]);
                }
            }
        }
        if right_sides(p).len() == both_count(p) {
            assert forall|k: int| 0 <= k < p.len() implies !(#[trigger] p[k] is Right) by {
                if k < q.len() {
                    assert(q[k] == p[k]);
                }
            }
        }
        if right_sides(p).len() > 0 && p.last() is Left {
            let k = choose|k: int| 0 <= k < q.len() && !(#[trigger] q[k] is Left);
            assert(!(p[k] is Left));
        }
        if right_sides(p).len() > 0 && !(p.last() is Left) {
            assert(!(p[p.len() - 1] is Left));
        }
        if left_sides(p).len() > 0 && p.last() is Right {
            let k = choose|k: int| 0 <= k < q.len() && !(#[trigger] q[k] is Right);
            assert(!(p[k] is Right));
        }
        if left_sides(p).len() > 0 && !(p.last() is Right) {
            assert(!(p[p.len() - 1] is Right));
        }
    }
}

proof fn lemma_sides_concat<T>(p: Seq<EitherOrBoth<T>>, q: Seq<EitherOrBoth<T>>)
    ensures
        left_sides(p + q) == left_sides(p) + left_sides(q),
        right_sides(p + q) == right_sides(p) + right_sides(q),
        both_count(p + q) == both_count(p) + both_count(q),
    decreases q.len(),
{
    if q.len() == 0 {
        assert(p + q =~= p);
        assert(left_sides(p) + left_sides(q) =~= left_sides(p));
        assert(right_sides(p) + right_sides(q) =~= right_sides(p));
    } else {
        lemma_sides_concat(p, q.drop_last());
        assert((p + q).drop_last() =~= p + q.drop_last());
        assert((p + q).last() == q.last());
        assert(left_sides(p + q) =~= left_sides(p) + left_sides(q));
        assert(right_sides(p + q) =~= right_sides(p) + right_sides(q));
    }
}

proof fn lemma_sides_of_rights<T>(s: Seq<T>)
    ensures
        left_sides(s.map_values(|v: T| EitherOrBoth::<T>::Right(v))) == Seq::<T>::empty(),
        right_sides(s.map_values(|v: T| EitherOrBoth::<T>::Right(v))) == s,
        both_count(s.map_values(|v: T| EitherOrBoth::<T>::Right(v))) == 0,
    decreases s.len(),
{
    let p = s.map_values(|v: T| EitherOrBoth::<T>::Right(v));
    if s.len() == 0 {
        assert(right_sides(p) =~= s);
    } else {
        lemma_sides_of_rights(s.drop_last());
        assert(p.drop_last() =~= s.drop_last().map_values(|v: T| EitherOrBoth::<T>::Right(v)));
        assert(left_sides(p) =~= Seq::<T>::empty());
        assert(right_sides(p) =~= s);
    }
}

proof fn lemma_sides_of_lefts<T>(s: Seq<T>)
    ensures
        left_sides(s.map_values(|v: T| EitherOrBoth::<T>::Left(v))) == s,
        right_sides(s.map_values(|v: T| EitherOrBoth::<T>::Left(v))) == Seq::<T>::empty(),
        both_count(s.map_values(|v: T| EitherOrBoth::<T>::Left(v))) == 0,
    decreases s.len(),
{
    let p = s.map_values(|v: T| EitherOrBoth::<T>::Left(v));
    if s.len() == 0 {
        assert(left_sides(p) =~= s);
    } else {
        lemma_sides_of_lefts(s.drop_last());
        assert(p.drop_last() =~= s.drop_last().map_values(|v: T| EitherOrBoth::<T>::Left(v)));
        assert(right_sides(p) =~= Seq::<T>::empty());
        assert(left_sides(p) =~= s);
    }
}

proof fn lemma_sides_of_boths<T>(p: Seq<EitherOrBoth<T>>, x: Seq<T>, y: Seq<T>)
    requires
        p.len() == x.len() == y.len(),
        forall|i: int| 0 <= i < p.len() ==> #[trigger] p[i] == EitherOrBoth::Both(x[i], y[i]),
    ensures
        left_sides(p) == x,
        right_sides(p) == y,
        both_count(p) == p.len(),
    decreases p.len(),
{
    if p.len() == 0 {
        assert(left_sides(p) =~= x);
        assert(right_sides(p) =~= y);
    } else {
        lemma_sides_of_boths(p.drop_last(), x.drop_last(), y.drop_last());
        assert(p[p.len() - 1] == EitherOrBoth::Both(x[p.len() - 1], y[p.len() - 1]));
        assert(left_sides(p) =~= x);
        assert(right_sides(p) =~= y);
    }
}

proof fn lemma_sides_flipped<T>(p: Seq<EitherOrBoth<T>>)
    ensures
        left_sides(p.map_values(|e: EitherOrBoth<T>| flipped(e))) == right_sides(p),
        right_sides(p.map_values(|e: EitherOrBoth<T>| flipped(e))) == left_sides(p),
        both_count(p.map_values(|e: EitherOrBoth<T>| flipped(e))) == both_count(p),
    decreases p.len(),
{
    let q = p.map_values(|e: EitherOrBoth<T>| flipped(e));
    if p.len() > 0 {
        lemma_sides_flipped(p.drop_last());
        assert(q.drop_last() =~= p.drop_last().map_values(|e: EitherOrBoth<T>| flipped(e)));
        assert(q.last() == flipped(p.last()));
    }
}

/// Insertion sorting rearranges the elements and keeps each of them.
proof fn lemma_insertion_sorted_multiset<A>(s: Seq<A>, after: spec_fn(A, A) -> bool)
    ensures
        insertion_sorted(s, after).to_multiset() == s.to_multiset(),
    decreases s.len(),
{
    broadcast use vstd::seq_lib::group_to_multiset_ensures;

    if s.len() == 0 {
        assert(insertion_sorted(s, after) =~= s);
    } else {
        let sorted = insertion_sorted(s.drop_last(), after);
        lemma_insertion_sorted_multiset(s.drop_last(), after);
        lemma_insert_pos_bound(sorted, s.last(), after);
        let i = insert_pos(sorted, s.last(), after) as int;
        assert(sorted.insert(i, s.last()).to_multiset() == sorted.to_multiset().insert(s.last()));
        assert(s.drop_last().push(s.last()) =~= s);
    }
}

proof fn lemma_unassigned(m: nat, a: Seq<usize>)
    requires
        m <= usize::MAX + 1,
    ensures
        unassigned(m, a).no_duplicates(),
        forall|x: usize| #[trigger] unassigned(m, a).contains(x) <==> (x < m && !a.contains(x)),
    decreases m,
{
    if m > 0 {
        let rest = unassigned((m - 1) as nat, a);
        lemma_unassigned((m - 1) as nat, a);
        let c = (m - 1) as usize;
        assert(c == m - 1);
        if !a.contains(c) {
            assert forall|x: usize| #[trigger] rest.push(c).contains(x) <==> (x < m && !a.contains(x)) by {
                if x == c {
                    assert(rest.push(c)[rest.len() as int] == x);
                } else if rest.push(c).contains(x) {
                    let k = choose|k: int| 0 <= k < rest.push(c).len() && rest.push(c)[k] == x;
                    assert(rest[k] == x);
                    assert(rest.contains(x));
                } else if x < m && !a.contains(x) {
                    assert(rest.contains(x));
                    let k = choose|k: int| 0 <= k < rest.len() && rest[k] == x;
                    assert(rest.push(c)[k] == x);
                }
            }
            assert(!rest.contains(c));
        }
    }
}

/// A count of zero or one, by whether `s` holds `x`, for a list without
/// repeats.
proof fn lemma_count_no_duplicates<A>(s: Seq<A>, x: A)
    requires
        s.no_duplicates(),
    ensures
        s.to_multiset().count(x) == if s.contains(x) {
            1nat
        } else {
            0nat
        },
{
    broadcast use vstd::seq_lib::group_to_multiset_ensures;

    s.lemma_multiset_has_no_duplicates();
}

proof fn lemma_assigned_indices(n: nat, m: nat, a: Seq<usize>)
    requires
        is_assignment(n, m, a),
        m <= usize::MAX + 1,
    ensures
        (a + unassigned(m, a)).to_multiset() == Seq::new(m, |j: int| j as usize).to_multiset(),
{
    broadcast use vstd::seq_lib::group_to_multiset_ensures;

    let u = unassigned(m, a);
    let r = Seq::new(m, |j: int| j as usize);
    lemma_unassigned(m, a);
    vstd::seq_lib::lemma_multiset_commutative(a, u);
    assert forall|x: usize| #[trigger] (a + u).to_multiset().count(x) == r.to_multiset().count(x) by {
        lemma_count_no_duplicates(a, x);
        lemma_count_no_duplicates(u, x);
        lemma_count_no_duplicates(r, x);
        if x < m {
            assert(r[x as int] == x);
        }
        if r.contains(x) {
            let k = choose|k: int| 0 <= k < r.len() && r[k] == x;
            assert(x == k);
        }
        if a.contains(x) {
            let k = choose|k: int| 0 <= k < a.len() && a[k] == x;
            assert(x < m);
        }
    }
    assert((a + u).to_multiset() =~= r.to_multiset());
}

/// Mapping keeps two lists that hold the same items holding the same items.
proof fn lemma_map_multiset<A, B>(s1: Seq<A>, s2: Seq<A>, g: spec_fn(A) -> B)
    requires
        s1.to_multiset() == s2.to_multiset(),
    ensures
        s1.map_values(g).to_multiset() == s2.map_values(g).to_multiset(),
    decreases s1.len(),
{
    broadcast use vstd::seq_lib::group_to_multiset_ensures;
    broadcast use vstd::multiset::group_multiset_axioms;

    if s1.len() == 0 {
        assert(s1.to_multiset().len() == s1.len());
        assert(s2.to_multiset().len() == s2.len());
        assert(s2.len() == 0);
        assert(s1.map_values(g) =~= s2.map_values(g));
    } else {
        let x = s1.last();
        assert(s1.drop_last().push(x) =~= s1);
        assert(s1.to_multiset().count(x) > 0);
        assert(s2.contains(x));
        let k = choose|k: int| 0 <= k < s2.len() && s2[k] == x;
        assert(s2.remove(k).to_multiset() =~= s1.drop_last().to_multiset());
        lemma_map_multiset(s1.drop_last(), s2.remove(k), g);
        assert(s1.map_values(g) =~= s1.drop_last().map_values(g).push(g(x)));
        assert(s2.remove(k).map_values(g) =~= s2.map_values(g).remove(k));
        assert(s2.map_values(g)[k] == g(x));
        assert(s2.map_values(g).to_multiset() =~= s2.map_values(g).remove(k).to_multiset().insert(g(x)));
    }
}

/// In the pairing of `f` with the no shorter `t` by an assignment of a
/// distinct member of `t` to every member of `f`: the left items are `f` in
/// order, the right items are those of `t`, each once, and every member of `f`
/// is paired.
proof fn lemma_assigned_pairing_sides(f: Seq<VersionView>, t: Seq<VersionView>)
    requires
        optimal_assignment(f, t),
        t.len() <= usize::MAX,
    ensures
        left_sides(assigned_pairing(f, t)) == f,
        right_sides(assigned_pairing(f, t)).to_multiset() == t.to_multiset(),
        both_count(assigned_pairing(f, t)) == f.len(),
{
    broadcast use vstd::seq_lib::group_to_multiset_ensures;

    let a = kuhn_munkres_min_result(f.len() as usize, t.len() as usize, distance_weights(f, t)).1;
    let g = |j: usize| t[j as int];
    let both = Seq::new(f.len(), |i: int| EitherOrBoth::Both(f[i], t[a[i] as int]));
    let u = unassigned(t.len(), a).map_values(g);
    let left_over = sorted_versions(u);
    let rights = left_over.map_values(|v: VersionView| EitherOrBoth::<VersionView>::Right(v));
    assert(assigned_pairing(f, t) == both + rights);
    lemma_sides_of_boths(both, f, a.map_values(g));
    lemma_sides_of_rights(left_over);
    lemma_sides_concat(both, rights);
    assert(left_sides(both) + left_sides(rights) =~= f);
    lemma_insertion_sorted_multiset(u, |x: VersionView, y: VersionView| version_after(x, y));
    lemma_assigned_indices(f.len(), t.len(), a);
    let r = Seq::new(t.len(), |j: int| j as usize);
    lemma_map_multiset(a + unassigned(t.len(), a), r, g);
    assert((a + unassigned(t.len(), a)).map_values(g) =~= a.map_values(g) + u);
    assert(r.map_values(g) =~= t);
    vstd::seq_lib::lemma_multiset_commutative(a.map_values(g), u);
    vstd::seq_lib::lemma_multiset_commutative(a.map_values(g), left_over);
}

/// What each list contributes to the pairing of two version lists: every
/// version of each list stands on its side once, and as many entries pair two
/// versions as the shorter list has.
proof fn lemma_version_pairing_sides(from: Seq<VersionView>, to: Seq<VersionView>)
    requires
        from.len() <= usize::MAX,
        to.len() <= usize::MAX,
        0 < from.len() <= to.len() && !(from.len() == 1 && to.len() == 1 && from[0] == to[0])
            ==> optimal_assignment(from, to),
        0 < to.len() < from.len() ==> optimal_assignment(to, from),
    ensures
        left_sides(version_pairing(from, to)).to_multiset() == from.to_multiset(),
        right_sides(version_pairing(from, to)).to_multiset() == to.to_multiset(),
        from.len() <= to.len() ==> left_sides(version_pairing(from, to)) == from,
        to.len() < from.len() ==> right_sides(version_pairing(from, to)) == to,
        both_count(version_pairing(from, to)) == if from.len() <= to.len() {
            from.len()
        } else {
            to.len()
        },
{
    if from.len() == 0 {
        lemma_sides_of_rights(to);
        assert(left_sides(version_pairing(from, to)) =~= from);
    } else if to.len() == 0 {
        lemma_sides_of_lefts(from);
        assert(right_sides(version_pairing(from, to)) =~= to);
    } else if from.len() == 1 && to.len() == 1 && from[0] == to[0] {
        let p = seq![EitherOrBoth::Both(from[0], to[0])];
        lemma_sides_of_boths(p, from, to);
    } else if from.len() > to.len() {
        lemma_assigned_pairing_sides(to, from);
        lemma_sides_flipped(assigned_pairing(to, from));
    } else {
        lemma_assigned_pairing_sides(from, to);
    }
}

/// Pairs the versions of two lists so that the total edit distance between
/// the components of paired versions is as small as it can be. The shorter
/// list is paired up whole, the versions of the longer one left over follow
/// in order, and with one version on each side that are the same, the two are
/// paired without further work.
pub fn match_version_lists<'a>(from: &'a [Version], to: &'a [Version]) -> (r: Vec<EitherOrBoth<&'a Version>>)
    requires
        pairing_fits(version_views(from@), version_views(to@)),
    ensures
        pairing_views(r@) == version_pairing(version_views(from@), version_views(to@)),
        0 < from@.len() <= to@.len() && !(from@.len() == 1 && to@.len() == 1 && from@[0]@ == to@[0]@)
            ==> optimal_assignment(version_views(from@), version_views(to@)),
        0 < to@.len() < from@.len() ==> optimal_assignment(version_views(to@), version_views(from@)),
        left_sides(pairing_views(r@)).to_multiset() == version_views(from@).to_multiset(),
        right_sides(pairing_views(r@)).to_multiset() == version_views(to@).to_multiset(),
        from@.len() <= to@.len() ==> left_sides(pairing_views(r@)) == version_views(from@),
        to@.len() < from@.len() ==> right_sides(pairing_views(r@)) == version_views(to@),
        both_count(pairing_views(r@)) == if from@.len() <= to@.len() {
            from@.len()
        } else {
            to@.len()
        },
{
    let r = pair_version_lists(from, to);
    let from_len = from.len();
    let to_len = to.len();
    proof {
        assert(from@.len() == from_len && to@.len() == to_len);
        let fv = version_views(from@);
        let tv = version_views(to@);
        if from@.len() == 1 && to@.len() == 1 {
            assert(fv[0] == from@[0]@ && tv[0] == to@[0]@);
        }
        lemma_version_pairing_sides(fv, tv);
    }
    r
}

/// The pairing itself, by cases on the lengths of the two lists.
fn pair_version_lists<'a>(from: &'a [Version], to: &'a [Version]) -> (r: Vec<EitherOrBoth<&'a Version>>)
    requires
        pairing_fits(version_views(from@), version_views(to@)),
    ensures
        pairing_views(r@) == version_pairing(version_views(from@), version_views(to@)),
        0 < from@.len() <= to@.len() && !(from@.len() == 1 && to@.len() == 1 && from@[0]@ == to@[0]@)
            ==> optimal_assignment(version_views(from@), version_views(to@)),
        0 < to@.len() < from@.len() ==> optimal_assignment(version_views(to@), version_views(from@)),
{
    let ghost fv = version_views(from@);
    let ghost tv = version_views(to@);
    if from.len() == 0 {
        let mut r: Vec<EitherOrBoth<&'a Version>> = Vec::new();
        let mut i: usize = 0;
        while i < to.len()
            invariant
                i <= to@.len(),
                tv == version_views(to@),
                pairing_views(r@) == tv.take(i as int).map_values(|v: VersionView| EitherOrBoth::Right(v)),
            decreases to@.len() - i,
        {
            let ghost old_r = r@;
            r.push(EitherOrBoth::Right(&to[i]));
            proof {
                lemma_pairing_views_push(old_r, r@.last());
                assert(r@ == old_r.push(r@.last()));
                assert(tv.take(i + 1) == tv.take(i as int).push(tv[i as int]));
                assert(pairing_views(r@) =~= tv.take(i + 1).map_values(|v: VersionView| EitherOrBoth::Right(v)));
            }
            i = i + 1;
        }
        assert(tv.take(to@.len() as int) == tv);
        return r;
    }
    if to.len() == 0 {
        let mut r: Vec<EitherOrBoth<&'a Version>> = Vec::new();
        let mut i: usize = 0;
        while i < from.len()
            invariant
                i <= from@.len(),
                fv == version_views(from@),
                pairing_views(r@) == fv.take(i as int).map_values(|v: VersionView| EitherOrBoth::Left(v)),
            decreases from@.len() - i,
        {
            let ghost old_r = r@;
            r.push(EitherOrBoth::Left(&from[i]));
            proof {
                lemma_pairing_views_push(old_r, r@.last());
                assert(r@ == old_r.push(r@.last()));
                assert(fv.take(i + 1) == fv.take(i as int).push(fv[i as int]));
                assert(pairing_views(r@) =~= fv.take(i + 1).map_values(|v: VersionView| EitherOrBoth::Left(v)));
            }
            i = i + 1;
        }
        assert(fv.take(from@.len() as int) == fv);
        return r;
    }
    if from.len() == 1 && to.len() == 1 && from[0].same(&to[0]) {
        let r = vec![EitherOrBoth::Both(&from[0], &to[0])];
        assert(pairing_views(r@) =~= seq![EitherOrBoth::Both(fv[0], tv[0])]);
        return r;
    }
    proof {
        if from.len() == 1 && to.len() == 1 {
            assert(fv[0] == from@[0]@);
            assert(tv[0] == to@[0]@);
        }
    }
    if from.len() > to.len() {
        let p = assign_pairs(to, from);
        let mut r: Vec<EitherOrBoth<&'a Version>> = Vec::new();
        let ghost pv = pairing_views(p@);
        let mut i: usize = 0;
        while i < p.len()
            invariant
                i <= p@.len(),
                pv == pairing_views(p@),
                pairing_views(r@) == pv.take(i as int).map_values(|e: EitherOrBoth<VersionView>| flipped(e)),
            decreases p@.len() - i,
        {
            let ghost old_r = r@;
            r.push(p[i].flip());
            proof {
                lemma_pairing_views_push(old_r, r@.last());
                assert(r@ == old_r.push(r@.last()));
                assert(entry_view(r@.last()) == flipped(entry_view(p@[i as int])));
                assert(pv.take(i + 1) == pv.take(i as int).push(pv[i as int]));
                assert(pairing_views(r@) =~= pv.take(i + 1).map_values(|e: EitherOrBoth<VersionView>| flipped(e)));
            }
            i = i + 1;
        }
        assert(pv.take(p@.len() as int) == pv);
        r
    } else {
        assign_pairs(from, to)
    }
}

} // verus!
