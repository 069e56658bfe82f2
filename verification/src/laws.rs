//! Properties of evaluation that hold for every possible sequence of dice.
//!
//! `Roller::roll_expr`, `DiceExpr::roll` and `DiceExpr::roll_with_rng` return `eval_expr` of
//! some valid dice, so each property below holds of every result they give (and
//! `DiceExpr::evaluate` returns `eval_expr` of the dice it is given); the dice a roller
//! records are the faces made from the values it drew.

use vstd::prelude::*;

use crate::ast::{DiceExpr, Keep, RollSpec};
use crate::roller::{
    can_negate, dice_count, dice_draws, die_draws, die_face, draws_per_die, faces_of_draws, ones_of, tens_of, eval_expr, expr_draws_valid, face_order, face_sum, faces_fit_i32,
    faces_valid, is_random, kept_faces, resolve_roll, RollDetailView, keep_fits, negate_view,
    rolls_negatable, sorted_faces, ExprResultView,
};

verus! {

/// The sum of recorded dice.
pub open spec fn roll_sum(rolls: Seq<i32>) -> int
    decreases rolls.len(),
{
    if rolls.len() == 0 {
        0
    } else {
        roll_sum(rolls.drop_last()) + rolls.last()
    }
}

/// No roll of the expression keeps only some of its dice.
pub open spec fn keeps_all(expr: DiceExpr) -> bool
    decreases expr,
{
    match expr {
        DiceExpr::Sum(l, r) => keeps_all(*l) && keeps_all(*r),
        DiceExpr::Difference(l, r) => keeps_all(*l) && keeps_all(*r),
        DiceExpr::Roll(spec) => spec.keep is None,
        DiceExpr::Literal(_) => true,
    }
}

/// The constant part of an expression: its literals, and the constants that rolls without
/// dice stand for, with the signs the expression gives them.
pub open spec fn constant_part(expr: DiceExpr) -> int
    decreases expr,
{
    match expr {
        DiceExpr::Sum(l, r) => constant_part(*l) + constant_part(*r),
        DiceExpr::Difference(l, r) => constant_part(*l) - constant_part(*r),
        DiceExpr::Roll(spec) => if spec.count == 0 {
            0
        } else if spec.sides == 0 {
            spec.count as int
        } else {
            0
        },
        DiceExpr::Literal(value) => value as int,
    }
}

/// How many dice of a roll count towards its total.
pub open spec fn counted_dice(spec: RollSpec) -> nat {
    match spec.keep {
        None => spec.count as nat,
        Some(Keep::Highest(n)) => n as nat,
        Some(Keep::Lowest(n)) => n as nat,
    }
}

/// The least total an expression can have.
pub open spec fn least_total(expr: DiceExpr) -> int
    decreases expr,
{
    match expr {
        DiceExpr::Sum(l, r) => least_total(*l) + least_total(*r),
        DiceExpr::Difference(l, r) => least_total(*l) - greatest_total(*r),
        DiceExpr::Roll(spec) => if spec.count == 0 {
            0
        } else if spec.sides == 0 {
            spec.count as int
        } else {
            counted_dice(spec) as int
        },
        DiceExpr::Literal(value) => value as int,
    }
}

/// The greatest total an expression can have.
pub open spec fn greatest_total(expr: DiceExpr) -> int
    decreases expr,
{
    match expr {
        DiceExpr::Sum(l, r) => greatest_total(*l) + greatest_total(*r),
        DiceExpr::Difference(l, r) => greatest_total(*l) - least_total(*r),
        DiceExpr::Roll(spec) => if spec.count == 0 {
            0
        } else if spec.sides == 0 {
            spec.count as int
        } else {
            counted_dice(spec) * spec.sides
        },
        DiceExpr::Literal(value) => value as int,
    }
}

proof fn lemma_roll_sum_concat(a: Seq<i32>, b: Seq<i32>)
    ensures
        roll_sum(a + b) == roll_sum(a) + roll_sum(b),
    decreases b.len(),
{
    if b.len() == 0 {
        assert(a + b =~= a);
    } else {
        assert((a + b).drop_last() =~= a + b.drop_last());
        lemma_roll_sum_concat(a, b.drop_last());
    }
}

proof fn lemma_roll_sum_negated(a: Seq<i32>)
    requires
        rolls_negatable(a),
    ensures
        roll_sum(a.map_values(|x: i32| (-x) as i32)) == -roll_sum(a),
    decreases a.len(),
{
    if a.len() > 0 {
        assert(a.map_values(|x: i32| (-x) as i32).drop_last() =~= a.drop_last().map_values(
            |x: i32| (-x) as i32,
        ));
        lemma_roll_sum_negated(a.drop_last());
    }
}

proof fn lemma_roll_sum_of_faces(d: Seq<u32>)
    requires
        faces_fit_i32(d),
    ensures
        roll_sum(d.map_values(|x: u32| x as i32)) == face_sum(d),
    decreases d.len(),
{
    if d.len() > 0 {
        assert(d.map_values(|x: u32| x as i32).drop_last() =~= d.drop_last().map_values(
            |x: u32| x as i32,
        ));
        lemma_roll_sum_of_faces(d.drop_last());
    }
}

/// When every roll keeps all its dice, the total is the sum of the recorded dice plus the
/// modifier.
pub proof fn law_total_is_rolls_plus_modifier(expr: DiceExpr, d: Seq<u32>, sourced: bool)
    requires
        keeps_all(expr),
        eval_expr(expr, d, sourced) is Ok,
    ensures
        eval_expr(expr, d, sourced)->Ok_0.total == roll_sum(eval_expr(expr, d, sourced)->Ok_0.rolls) + eval_expr(
            expr,
            d,
            sourced,
        )->Ok_0.modifier,
    decreases expr,
{
    match expr {
        DiceExpr::Sum(l, r) => {
            let n = dice_count(*l) as int;
            law_total_is_rolls_plus_modifier(*l, d.take(n), sourced);
            law_total_is_rolls_plus_modifier(*r, d.skip(n), sourced);
            lemma_roll_sum_concat(
                eval_expr(*l, d.take(n), sourced)->Ok_0.rolls,
                eval_expr(*r, d.skip(n), sourced)->Ok_0.rolls,
            );
        },
        DiceExpr::Difference(l, r) => {
            let n = dice_count(*l) as int;
            law_total_is_rolls_plus_modifier(*l, d.take(n), sourced);
            law_total_is_rolls_plus_modifier(*r, d.skip(n), sourced);
            let b = eval_expr(*r, d.skip(n), sourced)->Ok_0;
            lemma_roll_sum_negated(b.rolls);
            lemma_roll_sum_concat(
                eval_expr(*l, d.take(n), sourced)->Ok_0.rolls,
                negate_view(b).rolls,
            );
        },
        DiceExpr::Roll(spec) => {
            if is_random(spec) {
                lemma_roll_sum_of_faces(d);
            }
        },
        DiceExpr::Literal(_) => {},
    }
}

/// Every die drawn is recorded, kept or not: an expression's outcome holds as many dice as it
/// draws.
pub proof fn law_all_dice_recorded(expr: DiceExpr, d: Seq<u32>, sourced: bool)
    requires
        expr_draws_valid(expr, d),
        eval_expr(expr, d, sourced) is Ok,
    ensures
        eval_expr(expr, d, sourced)->Ok_0.rolls.len() == dice_count(expr),
    decreases expr,
{
    match expr {
        DiceExpr::Sum(l, r) | DiceExpr::Difference(l, r) => {
            let n = dice_count(*l) as int;
            law_all_dice_recorded(*l, d.take(n), sourced);
            law_all_dice_recorded(*r, d.skip(n), sourced);
        },
        _ => {},
    }
}

/// The modifier is the constant part of the expression, whatever the dice show.
pub proof fn law_modifier_is_constant_part(expr: DiceExpr, d: Seq<u32>, sourced: bool)
    requires
        eval_expr(expr, d, sourced) is Ok,
    ensures
        eval_expr(expr, d, sourced)->Ok_0.modifier == constant_part(expr),
    decreases expr,
{
    match expr {
        DiceExpr::Sum(l, r) | DiceExpr::Difference(l, r) => {
            let n = dice_count(*l) as int;
            law_modifier_is_constant_part(*l, d.take(n), sourced);
            law_modifier_is_constant_part(*r, d.skip(n), sourced);
        },
        _ => {},
    }
}

/// Negating an outcome twice gives it back.
pub proof fn law_negate_twice(a: ExprResultView)
    requires
        can_negate(a),
    ensures
        negate_view(negate_view(a)) == a,
{
    assert(negate_view(negate_view(a)).rolls =~= a.rolls);
}

proof fn lemma_face_sum_bounds(s: Seq<u32>, sides: u32)
    requires
        faces_valid(sides, s),
    ensures
        s.len() <= face_sum(s) <= s.len() * sides,
    decreases s.len(),
{
    if s.len() > 0 {
        lemma_face_sum_bounds(s.drop_last(), sides);
        assert(s.len() * sides == (s.len() - 1) * sides + sides) by (nonlinear_arith)
            requires
                s.len() > 0,
        ;
    }
}

/// The sorted draws are the draws, in another order.
proof fn lemma_sorted_faces_valid(d: Seq<u32>, sides: u32)
    requires
        faces_valid(sides, d),
    ensures
        faces_valid(sides, sorted_faces(d)),
        sorted_faces(d).len() == d.len(),
        vstd::relations::sorted_by(sorted_faces(d), face_order()),
{
    broadcast use vstd::seq_lib::group_to_multiset_ensures;

    d.lemma_sort_by_ensures(face_order());
    let t = sorted_faces(d);
    assert forall|i: int| 0 <= i < t.len() implies 1 <= #[trigger] t[i] <= sides by {
        assert(t.contains(t[i]));
        assert(d.contains(t[i]));
    }
    assert(t.len() == t.to_multiset().len());
}

/// The dice a roll keeps are among valid draws, and there are as many as it counts.
proof fn lemma_kept_faces_valid(d: Seq<u32>, spec: RollSpec)
    requires
        faces_valid(spec.sides, d),
        d.len() == spec.count,
        keep_fits(spec.keep, d.len()),
    ensures
        faces_valid(spec.sides, kept_faces(d, spec.keep)),
        kept_faces(d, spec.keep).len() == counted_dice(spec),
{
    lemma_sorted_faces_valid(d, spec.sides);
}

/// An outcome's total lies between the least and greatest totals of its expression.
pub proof fn law_total_within_bounds(expr: DiceExpr, d: Seq<u32>, sourced: bool)
    requires
        expr_draws_valid(expr, d),
        eval_expr(expr, d, sourced) is Ok,
    ensures
        least_total(expr) <= eval_expr(expr, d, sourced)->Ok_0.total <= greatest_total(expr),
    decreases expr,
{
    match expr {
        DiceExpr::Sum(l, r) | DiceExpr::Difference(l, r) => {
            let n = dice_count(*l) as int;
            law_total_within_bounds(*l, d.take(n), sourced);
            law_total_within_bounds(*r, d.skip(n), sourced);
        },
        DiceExpr::Roll(spec) => {
            if is_random(spec) {
                lemma_kept_faces_valid(d, spec);
                lemma_face_sum_bounds(kept_faces(d, spec.keep), spec.sides);
            }
        },
        DiceExpr::Literal(_) => {},
    }
}

proof fn lemma_face_sum_pointwise(a: Seq<u32>, b: Seq<u32>)
    requires
        a.len() == b.len(),
        forall|i: int| 0 <= i < a.len() ==> a[i] <= b[i],
    ensures
        face_sum(a) <= face_sum(b),
    decreases a.len(),
{
    if a.len() > 0 {
        lemma_face_sum_pointwise(a.drop_last(), b.drop_last());
    }
}

/// For the same draws, keeping the `n` highest dice never totals less than keeping the `n`
/// lowest.
pub proof fn law_highest_at_least_lowest(d: Seq<u32>, n: u32)
    requires
        n <= d.len(),
    ensures
        face_sum(kept_faces(d, Some(Keep::Lowest(n)))) <= face_sum(
            kept_faces(d, Some(Keep::Highest(n))),
        ),
{
    broadcast use vstd::seq_lib::group_to_multiset_ensures;

    d.lemma_sort_by_ensures(face_order());
    let t = sorted_faces(d);
    assert(t.len() == t.to_multiset().len());
    let low = t.take(n as int);
    let high = t.subrange(d.len() - n, d.len() as int);
    assert forall|i: int| 0 <= i < low.len() implies low[i] <= high[i] by {
        if i < d.len() - n + i {
            assert(face_order()(t[i], t[d.len() - n + i]));
        }
    }
    lemma_face_sum_pointwise(low, high);
}

proof fn lemma_face_sum_concat(a: Seq<u32>, b: Seq<u32>)
    ensures
        face_sum(a + b) == face_sum(a) + face_sum(b),
    decreases b.len(),
{
    if b.len() == 0 {
        assert(a + b =~= a);
    } else {
        assert((a + b).drop_last() =~= a + b.drop_last());
        lemma_face_sum_concat(a, b.drop_last());
    }
}

proof fn lemma_face_sum_remove(t: Seq<u32>, j: int)
    requires
        0 <= j < t.len(),
    ensures
        face_sum(t) == face_sum(t.remove(j)) + t[j],
    decreases t.len(),
{
    if j == t.len() - 1 {
        assert(t.remove(j) =~= t.drop_last());
    } else {
        assert(t.remove(j).drop_last() =~= t.drop_last().remove(j));
        assert(t.remove(j).last() == t.last());
        lemma_face_sum_remove(t.drop_last(), j);
    }
}

/// Draws with the same elements have the same sum, whatever their order.
proof fn lemma_face_sum_permutation(s: Seq<u32>, t: Seq<u32>)
    requires
        s.to_multiset() == t.to_multiset(),
    ensures
        face_sum(s) == face_sum(t),
    decreases s.len(),
{
    broadcast use vstd::seq_lib::group_to_multiset_ensures;

    if s.len() == 0 {
        assert(t.len() == t.to_multiset().len());
        assert(t =~= Seq::<u32>::empty());
    } else {
        let x = s.last();
        assert(s =~= s.drop_last().push(x));
        assert(s.to_multiset().contains(x));
        assert(t.contains(x));
        let j = choose|j: int| 0 <= j < t.len() && t[j] == x;
        assert(s.drop_last().to_multiset() =~= s.to_multiset().remove(x));
        assert(t.remove(j).to_multiset() =~= t.to_multiset().remove(x));
        lemma_face_sum_permutation(s.drop_last(), t.remove(j));
        lemma_face_sum_remove(t, j);
    }
}

/// The dice a roll keeps never total more than all its dice.
pub proof fn law_kept_at_most_all(d: Seq<u32>, keep: Option<Keep>)
    requires
        keep_fits(keep, d.len()),
    ensures
        face_sum(kept_faces(d, keep)) <= face_sum(d),
{
    broadcast use vstd::seq_lib::group_to_multiset_ensures;

    d.lemma_sort_by_ensures(face_order());
    let t = sorted_faces(d);
    assert(t.len() == t.to_multiset().len());
    lemma_face_sum_permutation(d, t);
    match keep {
        None => {},
        Some(Keep::Highest(n)) => {
            let k = d.len() - n;
            assert(t =~= t.take(k) + t.subrange(k, d.len() as int));
            lemma_face_sum_concat(t.take(k), t.subrange(k, d.len() as int));
        },
        Some(Keep::Lowest(n)) => {
            assert(t =~= t.take(n as int) + t.skip(n as int));
            lemma_face_sum_concat(t.take(n as int), t.skip(n as int));
        },
    }
}

/// Keeping as many dice as were rolled, highest or lowest, totals all of them.
pub proof fn law_keeping_every_die_is_the_plain_sum(d: Seq<u32>)
    requires
        d.len() <= u32::MAX,
    ensures
        face_sum(kept_faces(d, Some(Keep::Highest(d.len() as u32)))) == face_sum(d),
        face_sum(kept_faces(d, Some(Keep::Lowest(d.len() as u32)))) == face_sum(d),
{
    broadcast use vstd::seq_lib::group_to_multiset_ensures;

    d.lemma_sort_by_ensures(face_order());
    let t = sorted_faces(d);
    assert(t.len() == t.to_multiset().len());
    lemma_face_sum_permutation(d, t);
    assert(t.subrange(0, t.len() as int) =~= t);
    assert(t.take(t.len() as int) =~= t);
}

/// Every die a roll records is the face made from the values drawn for it: reading the values
/// a roll drew die by die (one value per die; for a hundred-sided die its ones value plus ten
/// times its tens value) gives back the recorded dice, in order.
pub proof fn law_dice_are_made_from_draws(sides: u32, d: Seq<u32>)
    requires
        faces_valid(sides, d),
    ensures
        faces_of_draws(sides, dice_draws(sides, d)) == d.map_values(|f: u32| f as int),
    decreases d.len(),
{
    if d.len() == 0 {
        assert(d.map_values(|f: u32| f as int) =~= Seq::<int>::empty());
    } else {
        let rest = d.drop_last();
        let f = d.last();
        assert(faces_valid(sides, rest)) by {
            assert forall|i: int| 0 <= i < rest.len() implies 1 <= #[trigger] rest[i] <= sides by {
                assert(rest[i] == d[i]);
            }
        }
        law_dice_are_made_from_draws(sides, rest);
        assert(1 <= d[d.len() - 1] <= sides);
        let w = dice_draws(sides, d);
        let k = draws_per_die(sides);
        assert(die_draws(sides, f).len() == k);
        assert(w.take(w.len() - k) =~= dice_draws(sides, rest));
        assert(w.skip(w.len() - k) =~= die_draws(sides, f));
        if sides == 100 {
            let t = (f - 1) / 10;
            assert(0 <= t && 10 * t <= f - 1 && f - 1 < 10 * t + 10) by (nonlinear_arith)
                requires
                    1 <= f <= 100,
                    t == (f - 1) / 10,
            ;
            assert(tens_of(f) == t);
            assert(ones_of(f) + 10 * tens_of(f) == f);
        }
        assert(die_face(sides, die_draws(sides, f)) == f as int);
        assert(d.map_values(|f: u32| f as int) =~= rest.map_values(|f: u32| f as int).push(
            f as int,
        ));
    }
}

/// A roll that keeps its highest `n` dice records every die it rolled, and totals `n` of them
/// that no die left out exceeds.
#[verifier::rlimit(30)]
pub proof fn law_keep_highest_totals_the_largest_dice(spec: RollSpec, d: Seq<u32>, n: u32)
    requires
        spec.keep == Some(Keep::Highest(n)),
        is_random(spec),
        d.len() == spec.count,
        resolve_roll(spec, d) is Ok,
    ensures
        resolve_roll(spec, d)->Ok_0.detail == RollDetailView::Dice(d),
        exists|kept: Seq<u32>, left: Seq<u32>|
            {
                &&& kept.len() == n
                &&& #[trigger] (kept + left).to_multiset() == d.to_multiset()
                &&& resolve_roll(spec, d)->Ok_0.total == face_sum(kept)
                &&& forall|i: int, j: int|
                    0 <= i < kept.len() && 0 <= j < left.len() ==> left[j] <= kept[i]
            },
{
    d.lemma_sort_by_ensures(face_order());
    let t = sorted_faces(d);
    assert(t.len() == d.len()) by {
        broadcast use vstd::seq_lib::group_to_multiset_ensures;

        assert(t.len() == t.to_multiset().len());
    }
    let k = d.len() - n;
    let kept = t.subrange(k, d.len() as int);
    let left = t.take(k);
    assert(left + kept =~= t);
    vstd::seq_lib::lemma_multiset_commutative(kept, left);
    vstd::seq_lib::lemma_multiset_commutative(left, kept);
    assert forall|i: int, j: int| 0 <= i < kept.len() && 0 <= j < left.len() implies left[j]
        <= kept[i] by {
        assert(face_order()(t[j], t[k + i]));
    }
    assert((kept + left).to_multiset() == d.to_multiset());
}

/// A roll that keeps its lowest `n` dice records every die it rolled, and totals `n` of them
/// that no die left out undercuts.
#[verifier::rlimit(30)]
pub proof fn law_keep_lowest_totals_the_smallest_dice(spec: RollSpec, d: Seq<u32>, n: u32)
    requires
        spec.keep == Some(Keep::Lowest(n)),
        is_random(spec),
        d.len() == spec.count,
        resolve_roll(spec, d) is Ok,
    ensures
        resolve_roll(spec, d)->Ok_0.detail == RollDetailView::Dice(d),
        exists|kept: Seq<u32>, left: Seq<u32>|
            {
                &&& kept.len() == n
                &&& #[trigger] (kept + left).to_multiset() == d.to_multiset()
                &&& resolve_roll(spec, d)->Ok_0.total == face_sum(kept)
                &&& forall|i: int, j: int|
                    0 <= i < kept.len() && 0 <= j < left.len() ==> kept[i] <= left[j]
            },
{
    d.lemma_sort_by_ensures(face_order());
    let t = sorted_faces(d);
    assert(t.len() == d.len()) by {
        broadcast use vstd::seq_lib::group_to_multiset_ensures;

        assert(t.len() == t.to_multiset().len());
    }
    let kept = t.take(n as int);
    let left = t.skip(n as int);
    assert(kept + left =~= t);
    assert forall|i: int, j: int| 0 <= i < kept.len() && 0 <= j < left.len() implies kept[i]
        <= left[j] by {
        assert(face_order()(t[i], t[n + j]));
    }
    assert((kept + left).to_multiset() == d.to_multiset());
}

} // verus!
