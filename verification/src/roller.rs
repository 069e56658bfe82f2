//! Evaluation of roll specifications and expressions.
//!
//! Randomness comes only from the values drawn for each die. Every function that draws states
//! its result as the evaluation (`resolve_roll`, `eval_expr`) of some valid sequence of dice,
//! and those dice as the faces made from the values the generator returned (`dice_draws`);
//! the evaluations are deterministic and exact.

use rand::rngs::StdRng;
use vstd::prelude::*;
use vstd::relations::{sorted_by, total_ordering};

use crate::ast::{DiceExpr, Keep, RollSpec};
use crate::error::{DiceError, DiceErrorView};
use crate::random::{random_inclusive, seeded_from_os, DiceSource};

verus! {

broadcast use vstd::seq_lib::group_to_multiset_ensures;

/// The outcome of one roll specification before it is combined with others.
#[derive(Debug, Clone)]
pub struct RollResult {
    /// The sum of the dice that count (or the constant).
    pub total: u32,
    /// The individual dice, or the constant.
    pub detail: RollDetail,
}

/// The dice of a roll in the order they were drawn, or the constant a roll stands for.
#[derive(Debug, Clone, PartialEq, Eq)]
pub enum RollDetail {
    /// Every die that was drawn, kept or not, in drawing order.
    Dice(Vec<u32>),
    /// No die was drawn; the roll is this constant.
    Constant(i32),
}

/// The outcome of a whole expression.
#[derive(Debug, Clone)]
pub struct ExprResult {
    /// The sum of all counted dice and constants; subtracted parts count negatively.
    pub total: i32,
    /// Every die drawn, in order; dice of subtracted parts are negative.
    pub rolls: Vec<i32>,
    /// The sum of the constant parts.
    pub modifier: i32,
}

/// `RollDetail` with its dice taken as a sequence.
pub enum RollDetailView {
    Dice(Seq<u32>),
    Constant(i32),
}

/// `RollResult` with its dice taken as a sequence.
pub struct RollResultView {
    pub total: u32,
    pub detail: RollDetailView,
}

/// `ExprResult` with its dice taken as a sequence.
pub struct ExprResultView {
    pub total: i32,
    pub rolls: Seq<i32>,
    pub modifier: i32,
}

impl View for RollDetail {
    type V = RollDetailView;

    open spec fn view(&self) -> RollDetailView {
        match self {
            RollDetail::Dice(d) => RollDetailView::Dice(d@),
            RollDetail::Constant(n) => RollDetailView::Constant(*n),
        }
    }
}

impl View for RollResult {
    type V = RollResultView;

    open spec fn view(&self) -> RollResultView {
        RollResultView { total: self.total, detail: self.detail@ }
    }
}

impl View for ExprResult {
    type V = ExprResultView;

    open spec fn view(&self) -> ExprResultView {
        ExprResultView { total: self.total, rolls: self.rolls@, modifier: self.modifier }
    }
}

/// A roll result with both sides taken by their views.
pub open spec fn roll_result_view(r: Result<RollResult, DiceError>) -> Result<
    RollResultView,
    DiceErrorView,
> {
    match r {
        Ok(v) => Ok(v@),
        Err(e) => Err(e@),
    }
}

/// An expression result with both sides taken by their views.
pub open spec fn expr_result_view(r: Result<ExprResult, DiceError>) -> Result<
    ExprResultView,
    DiceErrorView,
> {
    match r {
        Ok(v) => Ok(v@),
        Err(e) => Err(e@),
    }
}

/// The message of the error for keeping more dice than were rolled.
pub open spec fn keep_too_many_message() -> Seq<char> {
    "tried to keep more than total amount of rolled dice"@
}

/// The message of the error for a value that does not fit an `i32`.
pub open spec fn conversion_overflow_message() -> Seq<char> {
    "out of range integral type conversion attempted"@
}

/// The message of the error for a sum that overflows.
pub open spec fn addition_overflow_message() -> Seq<char> {
    "attempt to add with overflow"@
}

/// The message of the error for a negation that overflows.
pub open spec fn negation_overflow_message() -> Seq<char> {
    "attempt to negate with overflow"@
}

/// Whether a roll draws dice: at least one die with at least one side.
pub open spec fn is_random(spec: RollSpec) -> bool {
    spec.count > 0 && spec.sides > 0
}

/// How many dice a roll draws.
pub open spec fn dice_needed(spec: RollSpec) -> nat {
    if is_random(spec) {
        spec.count as nat
    } else {
        0
    }
}

/// Every draw shows a face between 1 and `sides`.
pub open spec fn faces_valid(sides: u32, d: Seq<u32>) -> bool {
    forall|i: int| 0 <= i < d.len() ==> 1 <= #[trigger] d[i] <= sides
}

/// `d` is a possible sequence of draws for `spec`.
pub open spec fn draws_valid(spec: RollSpec, d: Seq<u32>) -> bool {
    d.len() == dice_needed(spec) && faces_valid(spec.sides, d)
}

/// The order in which kept dice are chosen.
pub open spec fn face_order() -> spec_fn(u32, u32) -> bool {
    |a: u32, b: u32| a <= b
}

/// The draws in ascending order.
pub open spec fn sorted_faces(d: Seq<u32>) -> Seq<u32> {
    d.sort_by(face_order())
}

/// The sum of the draws.
pub open spec fn face_sum(d: Seq<u32>) -> nat
    decreases d.len(),
{
    if d.len() == 0 {
        0
    } else {
        face_sum(d.drop_last()) + d.last() as nat
    }
}

/// Whether `keep` asks for no more dice than `len`.
pub open spec fn keep_fits(keep: Option<Keep>, len: nat) -> bool {
    match keep {
        None => true,
        Some(Keep::Highest(n)) => n <= len,
        Some(Keep::Lowest(n)) => n <= len,
    }
}

/// The draws that count towards the total.
pub open spec fn kept_faces(d: Seq<u32>, keep: Option<Keep>) -> Seq<u32> {
    match keep {
        None => d,
        Some(Keep::Highest(n)) => sorted_faces(d).subrange(d.len() - n, d.len() as int),
        Some(Keep::Lowest(n)) => sorted_faces(d).take(n as int),
    }
}

/// What a roll specification gives for the draws `d`.
pub open spec fn resolve_roll(spec: RollSpec, d: Seq<u32>) -> Result<RollResultView, DiceErrorView> {
    if spec.count == 0 {
        Ok(RollResultView { total: 0, detail: RollDetailView::Constant(0) })
    } else if spec.sides == 0 {
        Ok(RollResultView { total: spec.count, detail: RollDetailView::Constant(spec.count as i32) })
    } else if !keep_fits(spec.keep, d.len()) {
        Err(DiceErrorView::InvalidSpec(spec, keep_too_many_message()))
    } else if face_sum(kept_faces(d, spec.keep)) > u32::MAX {
        Err(DiceErrorView::Overflow(addition_overflow_message()))
    } else {
        Ok(
            RollResultView {
                total: face_sum(kept_faces(d, spec.keep)) as u32,
                detail: RollDetailView::Dice(d),
            },
        )
    }
}

/// Whether `x` is a value of `i32`.
pub open spec fn fits_i32(x: int) -> bool {
    i32::MIN <= x <= i32::MAX
}

/// Every draw is a value of `i32`.
pub open spec fn faces_fit_i32(d: Seq<u32>) -> bool {
    forall|i: int| 0 <= i < d.len() ==> #[trigger] d[i] <= i32::MAX
}

/// No recorded die is `i32::MIN` (so each can be negated).
pub open spec fn rolls_negatable(rolls: Seq<i32>) -> bool {
    forall|i: int| 0 <= i < rolls.len() ==> #[trigger] rolls[i] != i32::MIN
}

/// A roll's outcome as an expression outcome (`ExprResult::try_from`).
pub open spec fn outcome_of(rr: RollResultView) -> Result<ExprResultView, DiceErrorView> {
    if rr.total > i32::MAX {
        Err(DiceErrorView::Overflow(conversion_overflow_message()))
    } else {
        match rr.detail {
            RollDetailView::Dice(d) => if faces_fit_i32(d) {
                Ok(
                    ExprResultView {
                        total: rr.total as i32,
                        rolls: d.map_values(|x: u32| x as i32),
                        modifier: 0,
                    },
                )
            } else {
                Err(DiceErrorView::Overflow(conversion_overflow_message()))
            },
            RollDetailView::Constant(n) => Ok(
                ExprResultView { total: rr.total as i32, rolls: Seq::empty(), modifier: n },
            ),
        }
    }
}

/// Whether two outcomes can be added without overflow.
pub open spec fn can_add(a: ExprResultView, b: ExprResultView) -> bool {
    fits_i32(a.total + b.total) && fits_i32(a.modifier + b.modifier)
}

/// Whether an outcome can be negated without overflow.
pub open spec fn can_negate(a: ExprResultView) -> bool {
    a.total != i32::MIN && a.modifier != i32::MIN && rolls_negatable(a.rolls)
}

/// The sum of two outcomes: totals and modifiers add, dice are concatenated.
pub open spec fn add_views(a: ExprResultView, b: ExprResultView) -> ExprResultView {
    ExprResultView {
        total: (a.total + b.total) as i32,
        rolls: a.rolls + b.rolls,
        modifier: (a.modifier + b.modifier) as i32,
    }
}

/// The negation of an outcome: total, modifier and every die change sign.
pub open spec fn negate_view(a: ExprResultView) -> ExprResultView {
    ExprResultView {
        total: (-a.total) as i32,
        rolls: a.rolls.map_values(|x: i32| (-x) as i32),
        modifier: (-a.modifier) as i32,
    }
}

/// Adding two outcomes, or the overflow error.
pub open spec fn combine_sum(a: ExprResultView, b: ExprResultView) -> Result<
    ExprResultView,
    DiceErrorView,
> {
    if can_add(a, b) {
        Ok(add_views(a, b))
    } else {
        Err(DiceErrorView::Overflow(addition_overflow_message()))
    }
}

/// Subtracting `b` from `a` (adding its negation), or the overflow error.
pub open spec fn combine_difference(a: ExprResultView, b: ExprResultView) -> Result<
    ExprResultView,
    DiceErrorView,
> {
    if !can_negate(b) {
        Err(DiceErrorView::Overflow(negation_overflow_message()))
    } else {
        combine_sum(a, negate_view(b))
    }
}

/// How many dice an expression draws.
pub open spec fn dice_count(expr: DiceExpr) -> nat
    decreases expr,
{
    match expr {
        DiceExpr::Sum(l, r) | DiceExpr::Difference(l, r) => dice_count(*l) + dice_count(*r),
        DiceExpr::Roll(spec) => dice_needed(spec),
        DiceExpr::Literal(_) => 0,
    }
}

/// `d` is a possible sequence of draws for `expr`, its rolls taken left to right.
pub open spec fn expr_draws_valid(expr: DiceExpr, d: Seq<u32>) -> bool
    decreases expr,
{
    &&& d.len() == dice_count(expr)
    &&& match expr {
        DiceExpr::Sum(l, r) | DiceExpr::Difference(l, r) => {
            &&& expr_draws_valid(*l, d.take(dice_count(*l) as int))
            &&& expr_draws_valid(*r, d.skip(dice_count(*l) as int))
        },
        DiceExpr::Roll(spec) => faces_valid(spec.sides, d),
        DiceExpr::Literal(_) => true,
    }
}

/// What rolling `spec` gives for the draws `d`; `sourced` tells whether a generator is there to
/// draw from. A roll that draws dice fails without one.
pub open spec fn draw_roll(spec: RollSpec, d: Seq<u32>, sourced: bool) -> Result<
    RollResultView,
    DiceErrorView,
> {
    if is_random(spec) && !sourced {
        Err(DiceErrorView::RandomnessUnavailable)
    } else {
        resolve_roll(spec, d)
    }
}

/// The ranges one die of `sides` sides requests: `1..=sides`, or for a hundred-sided die a
/// ones die `1..=10` and a tens die `0..=9`.
pub open spec fn die_requests(sides: u32) -> Seq<(u32, u32)> {
    if sides == 100 {
        seq![(1u32, 10u32), (0u32, 9u32)]
    } else {
        seq![(1u32, sides)]
    }
}

/// The ranges `n` dice of `sides` sides request, die after die.
pub open spec fn dice_requests(sides: u32, n: nat) -> Seq<(u32, u32)>
    decreases n,
{
    if n == 0 {
        Seq::empty()
    } else {
        dice_requests(sides, (n - 1) as nat) + die_requests(sides)
    }
}

/// The ranges rolling `spec` requests from a generator, if there is one.
pub open spec fn roll_requests(spec: RollSpec, sourced: bool) -> Seq<(u32, u32)> {
    if sourced && is_random(spec) {
        dice_requests(spec.sides, spec.count as nat)
    } else {
        Seq::empty()
    }
}

/// What an expression gives for the draws `d`, evaluated left to right; `sourced` tells
/// whether a generator is there to draw from.
pub open spec fn eval_expr(expr: DiceExpr, d: Seq<u32>, sourced: bool) -> Result<
    ExprResultView,
    DiceErrorView,
>
    decreases expr,
{
    match expr {
        DiceExpr::Literal(value) => Ok(
            ExprResultView { total: value, rolls: Seq::empty(), modifier: value },
        ),
        DiceExpr::Roll(spec) => match draw_roll(spec, d, sourced) {
            Err(e) => Err(e),
            Ok(rr) => outcome_of(rr),
        },
        DiceExpr::Sum(l, r) => {
            let n = dice_count(*l) as int;
            match eval_expr(*l, d.take(n), sourced) {
                Err(e) => Err(e),
                Ok(a) => match eval_expr(*r, d.skip(n), sourced) {
                    Err(e) => Err(e),
                    Ok(b) => combine_sum(a, b),
                },
            }
        },
        DiceExpr::Difference(l, r) => {
            let n = dice_count(*l) as int;
            match eval_expr(*l, d.take(n), sourced) {
                Err(e) => Err(e),
                Ok(a) => match eval_expr(*r, d.skip(n), sourced) {
                    Err(e) => Err(e),
                    Ok(b) => combine_difference(a, b),
                },
            }
        },
    }
}

/// The ranges evaluating `expr` requests from the generator, left to right, up to the first
/// error.
pub open spec fn expr_requests(expr: DiceExpr, d: Seq<u32>, sourced: bool) -> Seq<(u32, u32)>
    decreases expr,
{
    match expr {
        DiceExpr::Literal(_) => Seq::empty(),
        DiceExpr::Roll(spec) => roll_requests(spec, sourced),
        DiceExpr::Sum(l, r) | DiceExpr::Difference(l, r) => {
            let n = dice_count(*l) as int;
            if eval_expr(*l, d.take(n), sourced) is Err {
                expr_requests(*l, d.take(n), sourced)
            } else {
                expr_requests(*l, d.take(n), sourced) + expr_requests(*r, d.skip(n), sourced)
            }
        },
    }
}

/// The face of a hundred-sided die whose ones die shows `ones` and whose tens die shows `tens`.
pub open spec fn d100_value(ones: u32, tens: u32) -> int {
    ones + 10 * tens
}

/// The tens die behind the face `face` of a hundred-sided die.
pub open spec fn tens_of(face: u32) -> u32 {
    ((face - 1) / 10) as u32
}

/// The ones die behind the face `face` of a hundred-sided die.
pub open spec fn ones_of(face: u32) -> u32 {
    (face - 10 * tens_of(face)) as u32
}

/// The values drawn from the generator for one die of `sides` sides that shows `face`: the
/// face itself, or for a hundred-sided die its ones die and then its tens die.
pub open spec fn die_draws(sides: u32, face: u32) -> Seq<u32> {
    if sides == 100 {
        seq![ones_of(face), tens_of(face)]
    } else {
        seq![face]
    }
}

/// The values drawn for dice of `sides` sides showing `faces`, die after die.
pub open spec fn dice_draws(sides: u32, faces: Seq<u32>) -> Seq<u32>
    decreases faces.len(),
{
    if faces.len() == 0 {
        Seq::empty()
    } else {
        dice_draws(sides, faces.drop_last()) + die_draws(sides, faces.last())
    }
}

/// The values drawn when rolling `spec` gives the faces `d`, if there is a generator.
pub open spec fn roll_draws(spec: RollSpec, d: Seq<u32>, sourced: bool) -> Seq<u32> {
    if sourced && is_random(spec) {
        dice_draws(spec.sides, d)
    } else {
        Seq::empty()
    }
}

/// The values drawn when evaluating `expr` gives the faces `d`, left to right, up to the
/// first error.
pub open spec fn expr_draws(expr: DiceExpr, d: Seq<u32>, sourced: bool) -> Seq<u32>
    decreases expr,
{
    match expr {
        DiceExpr::Literal(_) => Seq::empty(),
        DiceExpr::Roll(spec) => roll_draws(spec, d, sourced),
        DiceExpr::Sum(l, r) | DiceExpr::Difference(l, r) => {
            let n = dice_count(*l) as int;
            if eval_expr(*l, d.take(n), sourced) is Err {
                expr_draws(*l, d.take(n), sourced)
            } else {
                expr_draws(*l, d.take(n), sourced) + expr_draws(*r, d.skip(n), sourced)
            }
        },
    }
}

/// How many values one die of `sides` sides draws.
pub open spec fn draws_per_die(sides: u32) -> int {
    if sides == 100 {
        2
    } else {
        1
    }
}

/// The face a die of `sides` sides shows for the values `w` drawn for it: the one value, or
/// for a hundred-sided die `d100_value` of its ones and tens values.
pub open spec fn die_face(sides: u32, w: Seq<u32>) -> int {
    if sides == 100 {
        d100_value(w[0], w[1])
    } else {
        w[0] as int
    }
}

/// The faces that dice of `sides` sides show for the values `w` drawn for them, die after die.
pub open spec fn faces_of_draws(sides: u32, w: Seq<u32>) -> Seq<int>
    decreases w.len(),
{
    let k = draws_per_die(sides);
    if w.len() < k {
        Seq::empty()
    } else {
        faces_of_draws(sides, w.take(w.len() - k)).push(die_face(sides, w.skip(w.len() - k)))
    }
}

/// The ones and tens dice of a hundred-sided die are found again from its face.
pub proof fn lemma_d100_digits(ones: u32, tens: u32)
    requires
        1 <= ones <= 10,
        tens <= 9,
    ensures
        tens_of((ones + 10 * tens) as u32) == tens,
        ones_of((ones + 10 * tens) as u32) == ones,
{
    let f: int = ones + 10 * tens;
    assert((f - 1) / 10 == tens as int) by (nonlinear_arith)
        requires
            f == ones + 10 * tens,
            1 <= ones <= 10,
            0 <= tens <= 9,
    ;
}

/// A shorter prefix of the draws never sums to more.
pub proof fn lemma_face_sum_prefix(d: Seq<u32>, k: int)
    requires
        0 <= k <= d.len(),
    ensures
        face_sum(d.take(k)) <= face_sum(d),
    decreases d.len() - k,
{
    if k < d.len() {
        lemma_face_sum_prefix(d, k + 1);
        assert(d.take(k + 1).drop_last() =~= d.take(k));
    } else {
        assert(d.take(k) =~= d);
    }
}

/// `face_order` is a total order.
pub proof fn lemma_face_order_total()
    ensures
        total_ordering(face_order()),
{
}

/// The draws in `v[from..to]` summed, or `None` when the sum exceeds `u32::MAX`.
fn sum_faces(v: &Vec<u32>, from: usize, to: usize) -> (r: Option<u32>)
    requires
        from <= to <= v.len(),
    ensures
        match r {
            Some(t) => t == face_sum(v@.subrange(from as int, to as int)),
            None => face_sum(v@.subrange(from as int, to as int)) > u32::MAX,
        },
{
    let mut acc: u32 = 0;
    let mut i = from;
    assert(v@.subrange(from as int, from as int) =~= Seq::<u32>::empty());
    while i < to
        invariant
            from <= i <= to <= v.len(),
            acc == face_sum(v@.subrange(from as int, i as int)),
        decreases to - i,
    {
        assert(v@.subrange(from as int, i + 1).drop_last() =~= v@.subrange(from as int, i as int));
        match acc.checked_add(v[i]) {
            Some(next) => {
                acc = next;
                i = i + 1;
            },
            None => {
                proof {
                    let whole = v@.subrange(from as int, to as int);
                    lemma_face_sum_prefix(whole, i + 1 - from);
                    assert(whole.take(i + 1 - from) =~= v@.subrange(from as int, i + 1));
                }
                return None;
            },
        }
    }
    Some(acc)
}

/// The draws in ascending order (an insertion sort).
fn sort_faces(v: &Vec<u32>) -> (r: Vec<u32>)
    ensures
        r@ == sorted_faces(v@),
        r@.len() == v@.len(),
{
    let mut out: Vec<u32> = Vec::new();
    let n = v.len();
    for i in 0..n
        invariant
            n == v.len(),
            out@.len() == i,
            sorted_by(out@, face_order()),
            out@.to_multiset() == v@.take(i as int).to_multiset(),
    {
        let x = v[i];
        let mut j: usize = 0;
        while j < out.len() && out[j] <= x
            invariant
                j <= out.len(),
                forall|k: int| 0 <= k < j ==> #[trigger] out@[k] <= x,
            decreases out.len() - j,
        {
            j = j + 1;
        }
        let ghost before = out@;
        assert(j < before.len() ==> x < before[j as int]);
        out.insert(j, x);
        proof {
            assert(before.insert(j as int, x) == out@);
            assert forall|a: int, b: int| 0 <= a < b < out@.len() implies #[trigger] face_order()(
                out@[a],
                out@[b],
            ) by {
                if b < j {
                    assert(face_order()(before[a], before[b]));
                } else if b == j {
                } else if a <= j {
                    if b - 1 > j {
                        assert(face_order()(before[j as int], before[b - 1]));
                    }
                    if a < j {
                        assert(before[a] <= x);
                    }
                } else {
                    assert(face_order()(before[a - 1], before[b - 1]));
                }
            }
            assert(v@.take(i + 1) =~= v@.take(i as int).push(x));
        }
    }
    proof {
        assert(v@.take(n as int) =~= v@);
        v@.lemma_sort_by_ensures(face_order());
        lemma_face_order_total();
        vstd::seq_lib::lemma_sorted_unique(out@, sorted_faces(v@), face_order());
    }
    out
}

impl RollResult {
    /// A roll outcome with the given total and detail.
    pub fn new(total: u32, detail: RollDetail) -> (r: Self)
        ensures
            r.total == total,
            r.detail == detail,
    {
        RollResult { total, detail }
    }
}

impl RollSpec {
    /// Evaluates this roll for the face values `dice` that were drawn for it (in drawing order).
    ///
    /// Without dice (count 0, or 0 sides) `dice` is ignored: the roll is the constant 0 or
    /// `count`. With dice, the total is the sum of the dice that `keep` selects.
    pub fn evaluate(&self, dice: Vec<u32>) -> (r: Result<RollResult, DiceError>)
        requires
            is_random(*self) ==> dice@.len() == self.count,
        ensures
            roll_result_view(r) == resolve_roll(*self, dice@),
    {
        if self.count == 0 {
            return Ok(RollResult::new(0, RollDetail::Constant(0)));
        }
        if self.sides == 0 {
            return Ok(RollResult::new(self.count, RollDetail::Constant(#[verifier::truncate] (self.count as i32))));
        }
        let len = dice.len();
        let total = match self.keep {
            None => {
                assert(dice@.subrange(0, len as int) =~= dice@);
                sum_faces(&dice, 0, len)
            },
            Some(keep) => {
                let sorted = sort_faces(&dice);
                let n = match keep {
                    Keep::Highest(n) => n,
                    Keep::Lowest(n) => n,
                };
                if n as usize > len {
                    return Err(
                        DiceError::InvalidSpec(
                            *self,
                            "tried to keep more than total amount of rolled dice".to_owned(),
                        ),
                    );
                }
                match keep {
                    Keep::Highest(_) => sum_faces(&sorted, len - n as usize, len),
                    Keep::Lowest(_) => {
                        assert(sorted@.subrange(0, n as int) =~= sorted@.take(n as int));
                        sum_faces(&sorted, 0, n as usize)
                    },
                }
            },
        };
        match total {
            Some(t) => Ok(RollResult::new(t, RollDetail::Dice(dice))),
            None => Err(DiceError::Overflow("attempt to add with overflow".to_owned())),
        }
    }
}

impl ExprResult {
    /// An expression outcome with the given parts.
    pub fn new(total: i32, rolls: Vec<i32>, modifier: i32) -> (r: Self)
        ensures
            r.total == total,
            r.rolls == rolls,
            r.modifier == modifier,
    {
        ExprResult { total, rolls, modifier }
    }

    /// Converts a roll outcome: the total and each die become `i32`, a constant becomes the
    /// modifier. Fails with `Overflow` when the total or a die does not fit an `i32`.
    pub fn try_from(val: RollResult) -> (r: Result<ExprResult, DiceError>)
        ensures
            expr_result_view(r) == outcome_of(val@),
    {
        if val.total > 2147483647 {
            return Err(
                DiceError::Overflow("out of range integral type conversion attempted".to_owned()),
            );
        }
        let total = val.total as i32;
        let ghost v = val@;
        match val.detail {
            RollDetail::Dice(d) => {
                let mut rolls: Vec<i32> = Vec::new();
                let n = d.len();
                for i in 0..n
                    invariant
                        n == d@.len(),
                        v == val@,
                        v.total <= i32::MAX,
                        v.detail == RollDetailView::Dice(d@),
                        rolls@ == d@.take(i as int).map_values(|x: u32| x as i32),
                        faces_fit_i32(d@.take(i as int)),
                {
                    let x = d[i];
                    if x > 2147483647 {
                        assert(!faces_fit_i32(d@)) by {
                            assert(d@[i as int] > i32::MAX);
                        }
                        return Err(
                            DiceError::Overflow(
                                "out of range integral type conversion attempted".to_owned(),
                            ),
                        );
                    }
                    rolls.push(x as i32);
                    assert(d@.take(i + 1) =~= d@.take(i as int).push(x));
                    assert(rolls@ =~= d@.take(i + 1).map_values(|x: u32| x as i32));
                }
                assert(d@.take(n as int) =~= d@);
                Ok(ExprResult { total, rolls, modifier: 0 })
            },
            RollDetail::Constant(n) => Ok(ExprResult { total, rolls: Vec::new(), modifier: n }),
        }
    }

    /// The sum of two outcomes: totals and modifiers add, the dice of `other` follow those of
    /// `self`.
    pub fn add(self, other: ExprResult) -> (r: ExprResult)
        requires
            can_add(self@, other@),
        ensures
            r@ == add_views(self@, other@),
    {
        let mut sum = self;
        let mut other = other;
        sum.rolls.append(&mut other.rolls);
        sum.modifier = sum.modifier + other.modifier;
        sum.total = sum.total + other.total;
        sum
    }

    /// The negation of an outcome: total, modifier and every die change sign.
    pub fn neg(self) -> (r: ExprResult)
        requires
            can_negate(self@),
        ensures
            r@ == negate_view(self@),
    {
        let mut neg = self;
        let ghost original = neg.rolls@;
        let ghost before = neg@;
        let n = neg.rolls.len();
        for i in 0..n
            invariant
                n == neg.rolls@.len(),
                neg.total == before.total,
                neg.modifier == before.modifier,
                can_negate(before),
                original.len() == n,
                rolls_negatable(original),
                forall|k: int| 0 <= k < i ==> #[trigger] neg.rolls@[k] == -original[k],
                forall|k: int| i <= k < n ==> #[trigger] neg.rolls@[k] == original[k],
        {
            let x = neg.rolls[i];
            neg.rolls.set(i, -x);
        }
        assert(neg.rolls@ =~= original.map_values(|x: i32| (-x) as i32));
        neg.modifier = -neg.modifier;
        neg.total = -neg.total;
        neg
    }

    /// The difference of two outcomes: `self` plus the negation of `other`.
    pub fn sub(self, other: ExprResult) -> (r: ExprResult)
        requires
            can_negate(other@),
            can_add(self@, negate_view(other@)),
        ensures
            r@ == add_views(self@, negate_view(other@)),
    {
        self.add(other.neg())
    }

    /// `self` plus `other`, or `self` minus `other` when `subtract` holds. Fails with
    /// `Overflow` when a negation or a sum leaves the range of `i32`.
    fn combine(self, other: ExprResult, subtract: bool) -> (r: Result<ExprResult, DiceError>)
        requires
            rolls_negatable(other@.rolls),
        ensures
            expr_result_view(r) == if subtract {
                combine_difference(self@, other@)
            } else {
                combine_sum(self@, other@)
            },
    {
        let other = if subtract {
            if other.total == i32::MIN || other.modifier == i32::MIN {
                return Err(DiceError::Overflow("attempt to negate with overflow".to_owned()));
            }
            other.neg()
        } else {
            other
        };
        let fits = self.total.checked_add(other.total).is_some() && self.modifier.checked_add(
            other.modifier,
        ).is_some();
        if !fits {
            return Err(DiceError::Overflow("attempt to add with overflow".to_owned()));
        }
        Ok(self.add(other))
    }
}

/// Some valid draws exist for every expression (all ones, for instance).
pub proof fn lemma_draws_exist(expr: DiceExpr) -> (d: Seq<u32>)
    ensures
        expr_draws_valid(expr, d),
    decreases expr,
{
    match expr {
        DiceExpr::Sum(l, r) | DiceExpr::Difference(l, r) => {
            let a = lemma_draws_exist(*l);
            let b = lemma_draws_exist(*r);
            assert((a + b).take(a.len() as int) =~= a);
            assert((a + b).skip(a.len() as int) =~= b);
            a + b
        },
        DiceExpr::Roll(spec) => Seq::new(dice_needed(spec), |i: int| 1u32),
        DiceExpr::Literal(_) => Seq::empty(),
    }
}

/// No die recorded in an evaluated expression is `i32::MIN`, so outcomes can always have
/// their dice negated.
pub proof fn lemma_rolls_negatable(expr: DiceExpr, d: Seq<u32>, sourced: bool)
    requires
        eval_expr(expr, d, sourced) is Ok,
    ensures
        rolls_negatable(eval_expr(expr, d, sourced)->Ok_0.rolls),
    decreases expr,
{
    match expr {
        DiceExpr::Sum(l, r) | DiceExpr::Difference(l, r) => {
            let n = dice_count(*l) as int;
            lemma_rolls_negatable(*l, d.take(n), sourced);
            lemma_rolls_negatable(*r, d.skip(n), sourced);
        },
        _ => {},
    }
}

/// The face of a hundred-sided die whose ones die shows `ones` and whose tens die shows
/// `tens`.
pub fn d100_face(ones: u32, tens: u32) -> (r: u32)
    requires
        1 <= ones <= 10,
        tens <= 9,
    ensures
        r == d100_value(ones, tens),
{
    if tens == 0 {
        ones
    } else {
        ones + tens * 10
    }
}

/// Rolls dice with a random number generator.
pub struct Roller {
    source: Option<DiceSource>,
}

impl Default for Roller {
    /// A roller whose generator is seeded from the operating system. When the operating system
    /// provides no entropy the roller has no generator, and rolls that draw dice fail with
    /// `RandomnessUnavailable`.
    fn default() -> (r: Self)
        ensures
            r.requests() == Seq::<(u32, u32)>::empty(),
            r.draws() == Seq::<u32>::empty(),
    {
        Roller::from_seeded(seeded_from_os())
    }
}

impl Roller {
    /// The generator this roller draws from, if it has one.
    pub closed spec fn generator(&self) -> Option<StdRng> {
        match self.source {
            Some(source) => Some(source.generator()),
            None => None,
        }
    }

    /// The inclusive ranges requested from the generator so far, oldest first.
    pub closed spec fn requests(&self) -> Seq<(u32, u32)> {
        match self.source {
            Some(source) => source.requests(),
            None => Seq::empty(),
        }
    }

    /// The values the generator returned so far, oldest first.
    pub closed spec fn draws(&self) -> Seq<u32> {
        match self.source {
            Some(source) => source.draws(),
            None => Seq::empty(),
        }
    }

    /// A roller that draws from `rng`.
    pub fn from_rng(rng: StdRng) -> (r: Self)
        ensures
            r.generator() == Some(rng),
            r.requests() == Seq::<(u32, u32)>::empty(),
            r.draws() == Seq::<u32>::empty(),
    {
        Roller { source: Some(DiceSource::new(rng)) }
    }

    /// A roller that draws from `rng` when there is one, and has no generator otherwise.
    pub fn from_seeded(rng: Option<StdRng>) -> (r: Self)
        ensures
            r.generator() == rng,
            r.requests() == Seq::<(u32, u32)>::empty(),
            r.draws() == Seq::<u32>::empty(),
    {
        match rng {
            Some(rng) => Roller::from_rng(rng),
            None => Roller { source: None },
        }
    }

    /// Rolls one die with `sides` sides: a value of `1..=sides` from the generator.
    fn roll_die(&mut self, sides: u32) -> (r: u32)
        requires
            sides > 0,
            old(self).generator() is Some,
        ensures
            1 <= r <= sides,
            final(self).generator() is Some,
            final(self).requests() == old(self).requests().push((1, sides)),
            final(self).draws() == old(self).draws().push(r),
    {
        match &mut self.source {
            Some(source) => random_inclusive(source, 1, sides),
            None => 1,
        }
    }

    /// Rolls a hundred-sided die as a ones die (`1..=10`) and a tens die (`0..=9`).
    fn roll_d100(&mut self) -> (r: u32)
        requires
            old(self).generator() is Some,
        ensures
            1 <= r <= 100,
            final(self).generator() is Some,
            final(self).requests() == old(self).requests() + die_requests(100),
            final(self).draws() == old(self).draws() + die_draws(100, r),
    {
        let (ones, tens) = match &mut self.source {
            Some(source) => {
                let ones = random_inclusive(source, 1, 10);
                let tens = random_inclusive(source, 0, 9);
                (ones, tens)
            },
            None => (1, 0),
        };
        assert(old(self).requests().push((1u32, 10u32)).push((0u32, 9u32)) =~= old(
            self,
        ).requests() + die_requests(100));
        let r = d100_face(ones, tens);
        proof {
            lemma_d100_digits(ones, tens);
            assert(old(self).draws().push(ones).push(tens) =~= old(self).draws() + die_draws(
                100,
                r,
            ));
        }
        r
    }

    /// Rolls `count` dice with `sides` sides each, in order.
    fn roll_dice(&mut self, sides: u32, count: u32) -> (v: Vec<u32>)
        requires
            sides > 0,
            count > 0,
            old(self).generator() is Some,
        ensures
            v@.len() == count,
            faces_valid(sides, v@),
            final(self).generator() is Some,
            final(self).requests() == old(self).requests() + dice_requests(sides, count as nat),
            final(self).draws() == old(self).draws() + dice_draws(sides, v@),
    {
        let mut v: Vec<u32> = Vec::new();
        assert(old(self).requests() + dice_requests(sides, 0) =~= old(self).requests());
        assert(old(self).draws() + dice_draws(sides, v@) =~= old(self).draws());
        for i in 0..count
            invariant
                sides > 0,
                v@.len() == i,
                faces_valid(sides, v@),
                self.generator() is Some,
                self.requests() == old(self).requests() + dice_requests(sides, i as nat),
                self.draws() == old(self).draws() + dice_draws(sides, v@),
        {
            let ghost before = self.requests();
            let ghost drawn = self.draws();
            let ghost faces = v@;
            let face = if sides == 100 {
                self.roll_d100()
            } else {
                let f = self.roll_die(sides);
                assert(before.push((1u32, sides)) =~= before + die_requests(sides));
                assert(drawn.push(f) =~= drawn + die_draws(sides, f));
                f
            };
            v.push(face);
            assert(old(self).requests() + dice_requests(sides, (i + 1) as nat) =~= old(
                self,
            ).requests() + dice_requests(sides, i as nat) + die_requests(sides));
            assert(v@.drop_last() =~= faces);
            assert(old(self).draws() + dice_draws(sides, v@) =~= old(self).draws() + dice_draws(
                sides,
                faces,
            ) + die_draws(sides, face));
        }
        v
    }

    /// Rolls the dice of `spec` and evaluates it.
    ///
    /// A count of 0 gives the constant 0 and a side count of 0 gives the constant `count`,
    /// without drawing: the roller is left as it was. Otherwise `count` dice are drawn, each
    /// from the range `1..=sides` (a hundred-sided die from `1..=10` and `0..=9`), and all of
    /// them are recorded, each die the face its drawn values make; the total is the sum of
    /// those that `keep` selects. A roller without a generator fails with
    /// `RandomnessUnavailable` instead of drawing.
    pub fn roll_spec(&mut self, spec: &RollSpec) -> (r: Result<RollResult, DiceError>)
        ensures
            final(self).generator() is Some <==> old(self).generator() is Some,
            !is_random(*spec) ==> final(self).generator() == old(self).generator(),
            final(self).requests() == old(self).requests() + roll_requests(
                *spec,
                old(self).generator() is Some,
            ),
            exists|d: Seq<u32>|
                {
                    &&& draws_valid(*spec, d)
                    &&& #[trigger] draw_roll(*spec, d, old(self).generator() is Some)
                        == roll_result_view(r)
                    &&& final(self).draws() == old(self).draws() + roll_draws(
                        *spec,
                        d,
                        old(self).generator() is Some,
                    )
                },
    {
        let ghost sourced = self.generator() is Some;
        if spec.count > 0 && spec.sides > 0 {
            let available = match &self.source {
                Some(_) => true,
                None => false,
            };
            if !available {
                let r = Err(DiceError::RandomnessUnavailable);
                proof {
                    let d = Seq::new(spec.count as nat, |i: int| 1u32);
                    assert(draws_valid(*spec, d));
                    assert(draw_roll(*spec, d, sourced) == roll_result_view(r));
                    assert(self.requests() =~= old(self).requests() + roll_requests(
                        *spec,
                        sourced,
                    ));
                    assert(self.draws() =~= old(self).draws() + roll_draws(*spec, d, sourced));
                }
                return r;
            }
            let dice = self.roll_dice(spec.sides, spec.count);
            let ghost faces = dice@;
            let r = spec.evaluate(dice);
            assert(draws_valid(*spec, faces));
            assert(draw_roll(*spec, faces, sourced) == roll_result_view(r));
            r
        } else {
            let r = spec.evaluate(Vec::new());
            proof {
                let d = Seq::<u32>::empty();
                assert(draws_valid(*spec, d));
                assert(draw_roll(*spec, d, sourced) == roll_result_view(r));
                assert(self.requests() =~= old(self).requests() + roll_requests(*spec, sourced));
                assert(self.draws() =~= old(self).draws() + roll_draws(*spec, d, sourced));
            }
            r
        }
    }

    /// Rolls every die of `expr`, left to right, and evaluates it.
    ///
    /// Fails with the first error met: `InvalidSpec` for a roll that keeps more dice than it
    /// rolls, `Overflow` when a value leaves the range of its integer type,
    /// `RandomnessUnavailable` for a roll that draws dice when the roller has no generator.
    /// An expression that draws no dice leaves the roller as it was.
    #[verifier::rlimit(50)]
    pub fn roll_expr(&mut self, expr: &DiceExpr) -> (r: Result<ExprResult, DiceError>)
        ensures
            final(self).generator() is Some <==> old(self).generator() is Some,
            dice_count(*expr) == 0 ==> final(self).generator() == old(self).generator(),
            exists|d: Seq<u32>|
                {
                    &&& expr_draws_valid(*expr, d)
                    &&& #[trigger] eval_expr(*expr, d, old(self).generator() is Some)
                        == expr_result_view(r)
                    &&& final(self).requests() == old(self).requests() + expr_requests(
                        *expr,
                        d,
                        old(self).generator() is Some,
                    )
                    &&& final(self).draws() == old(self).draws() + expr_draws(
                        *expr,
                        d,
                        old(self).generator() is Some,
                    )
                },
        decreases expr,
    {
        let ghost sourced = self.generator() is Some;
        let ghost start = self.requests();
        let ghost start_draws = self.draws();
        match expr {
            DiceExpr::Literal(value) => {
                let r = Ok(ExprResult::new(*value, Vec::new(), *value));
                let ghost d = Seq::<u32>::empty();
                assert(eval_expr(*expr, d, sourced) == expr_result_view(r));
                assert(expr_draws_valid(*expr, d));
                assert(self.requests() =~= start + expr_requests(*expr, d, sourced));
                assert(self.draws() =~= start_draws + expr_draws(*expr, d, sourced));
                r
            },
            DiceExpr::Roll(spec) => {
                let rolled = self.roll_spec(spec);
                let ghost d = choose|d: Seq<u32>|
                    {
                        &&& draws_valid(*spec, d)
                        &&& #[trigger] draw_roll(*spec, d, sourced) == roll_result_view(rolled)
                        &&& self.draws() == start_draws + roll_draws(*spec, d, sourced)
                    };
                let r = match rolled {
                    Ok(rr) => ExprResult::try_from(rr),
                    Err(e) => Err(e),
                };
                assert(eval_expr(*expr, d, sourced) == expr_result_view(r));
                assert(expr_draws_valid(*expr, d));
                r
            },
            DiceExpr::Sum(lhs, rhs) | DiceExpr::Difference(lhs, rhs) => {
                let subtract = match expr {
                    DiceExpr::Difference(..) => true,
                    _ => false,
                };
                let left = self.roll_expr(lhs);
                let ghost mid = self.requests();
                let ghost mid_draws = self.draws();
                let ghost d1 = choose|d: Seq<u32>|
                    {
                        &&& expr_draws_valid(**lhs, d)
                        &&& #[trigger] eval_expr(**lhs, d, sourced) == expr_result_view(left)
                        &&& mid == start + expr_requests(**lhs, d, sourced)
                        &&& mid_draws == start_draws + expr_draws(**lhs, d, sourced)
                    };
                let a = match left {
                    Ok(a) => a,
                    Err(e) => {
                        let r = Err(e);
                        proof {
                            let d2 = lemma_draws_exist(**rhs);
                            assert((d1 + d2).take(d1.len() as int) =~= d1);
                            assert((d1 + d2).skip(d1.len() as int) =~= d2);
                            assert(expr_draws_valid(*expr, d1 + d2));
                            assert(eval_expr(*expr, d1 + d2, sourced) == expr_result_view(r));
                            assert(self.requests() == start + expr_requests(
                                *expr,
                                d1 + d2,
                                sourced,
                            ));
                            assert(self.draws() == start_draws + expr_draws(
                                *expr,
                                d1 + d2,
                                sourced,
                            ));
                        }
                        return r;
                    },
                };
                let right = self.roll_expr(rhs);
                let ghost d2 = choose|d: Seq<u32>|
                    {
                        &&& expr_draws_valid(**rhs, d)
                        &&& #[trigger] eval_expr(**rhs, d, sourced) == expr_result_view(right)
                        &&& self.requests() == mid + expr_requests(**rhs, d, sourced)
                        &&& self.draws() == mid_draws + expr_draws(**rhs, d, sourced)
                    };
                proof {
                    assert((d1 + d2).take(d1.len() as int) =~= d1);
                    assert((d1 + d2).skip(d1.len() as int) =~= d2);
                    assert(expr_draws_valid(*expr, d1 + d2));
                    assert(self.requests() =~= start + expr_requests(*expr, d1 + d2, sourced));
                    assert(self.draws() =~= start_draws + expr_draws(*expr, d1 + d2, sourced));
                }
                let r = match right {
                    Ok(b) => {
                        proof {
                            lemma_rolls_negatable(**rhs, d2, sourced);
                        }
                        a.combine(b, subtract)
                    },
                    Err(e) => Err(e),
                };
                assert(eval_expr(*expr, d1 + d2, sourced) == expr_result_view(r));
                r
            },
        }
    }
}

impl DiceExpr {
    /// How many dice this expression rolls (the faces `evaluate` takes), or `None` when that
    /// number does not fit a `usize`.
    pub fn count_dice(&self) -> (n: Option<usize>)
        ensures
            match n {
                Some(n) => n == dice_count(*self),
                None => dice_count(*self) > usize::MAX,
            },
        decreases self,
    {
        match self {
            DiceExpr::Literal(_) => Some(0),
            DiceExpr::Roll(spec) => if spec.count > 0 && spec.sides > 0 {
                Some(spec.count as usize)
            } else {
                Some(0)
            },
            DiceExpr::Sum(lhs, rhs) | DiceExpr::Difference(lhs, rhs) => {
                match (lhs.count_dice(), rhs.count_dice()) {
                    (Some(a), Some(b)) => a.checked_add(b),
                    _ => None,
                }
            },
        }
    }

    /// Evaluates this expression for the faces its dice show, taken left to right, as rolling
    /// it does with a generator that drew them: each roll takes the next `count` faces (none
    /// when it draws no dice).
    pub fn evaluate(&self, faces: &Vec<u32>) -> (r: Result<ExprResult, DiceError>)
        requires
            faces@.len() == dice_count(*self),
        ensures
            expr_result_view(r) == eval_expr(*self, faces@, true),
    {
        assert(faces@.subrange(0, dice_count(*self) as int) =~= faces@);
        match self.evaluate_from(faces, 0) {
            Ok((v, _)) => Ok(v),
            Err(e) => Err(e),
        }
    }

    /// Evaluates this expression for the faces that start at index `start`; on success also
    /// gives the index after its last face.
    fn evaluate_from(&self, faces: &Vec<u32>, start: usize) -> (r: Result<
        (ExprResult, usize),
        DiceError,
    >)
        requires
            start + dice_count(*self) <= faces.len(),
        ensures
            match r {
                Ok((v, next)) => {
                    &&& next == start + dice_count(*self)
                    &&& eval_expr(
                        *self,
                        faces@.subrange(start as int, start + dice_count(*self)),
                        true,
                    ) == Result::<ExprResultView, DiceErrorView>::Ok(v@)
                },
                Err(e) => eval_expr(
                    *self,
                    faces@.subrange(start as int, start + dice_count(*self)),
                    true,
                ) == Result::<ExprResultView, DiceErrorView>::Err(e@),
            },
        decreases self,
    {
        let ghost d = faces@.subrange(start as int, start + dice_count(*self));
        match self {
            DiceExpr::Literal(value) => Ok((ExprResult::new(*value, Vec::new(), *value), start)),
            DiceExpr::Roll(spec) => {
                let n: usize = if spec.count > 0 && spec.sides > 0 {
                    spec.count as usize
                } else {
                    0
                };
                let end = start + n;
                let mut dice: Vec<u32> = Vec::new();
                let mut i = start;
                while i < end
                    invariant
                        start <= i <= end <= faces@.len(),
                        dice@ == faces@.subrange(start as int, i as int),
                    decreases end - i,
                {
                    dice.push(faces[i]);
                    i = i + 1;
                    assert(dice@ =~= faces@.subrange(start as int, i as int));
                }
                assert(dice@ =~= d);
                let r = match spec.evaluate(dice) {
                    Ok(rr) => ExprResult::try_from(rr),
                    Err(e) => Err(e),
                };
                match r {
                    Ok(v) => Ok((v, end)),
                    Err(e) => Err(e),
                }
            },
            DiceExpr::Sum(lhs, rhs) | DiceExpr::Difference(lhs, rhs) => {
                let subtract = match self {
                    DiceExpr::Difference(..) => true,
                    _ => false,
                };
                let ghost n = dice_count(**lhs) as int;
                assert(d.take(n) =~= faces@.subrange(start as int, start + n));
                assert(d.skip(n) =~= faces@.subrange(start + n, start + dice_count(*self)));
                let (a, mid) = match lhs.evaluate_from(faces, start) {
                    Ok(p) => p,
                    Err(e) => return Err(e),
                };
                let (b, next) = match rhs.evaluate_from(faces, mid) {
                    Ok(p) => p,
                    Err(e) => return Err(e),
                };
                proof {
                    lemma_rolls_negatable(**rhs, d.skip(n), true);
                }
                match a.combine(b, subtract) {
                    Ok(v) => Ok((v, next)),
                    Err(e) => Err(e),
                }
            },
        }
    }

    /// Rolls this expression with a generator seeded from the operating system (when the
    /// operating system provides no entropy, rolls that draw dice fail with
    /// `RandomnessUnavailable`).
    pub fn roll(&self) -> (r: Result<ExprResult, DiceError>)
        ensures
            exists|d: Seq<u32>, sourced: bool|
                expr_draws_valid(*self, d) && #[trigger] eval_expr(*self, d, sourced)
                    == expr_result_view(r),
    {
        let mut roller = Roller::default();
        roller.roll_expr(self)
    }

    /// Rolls this expression with the generator `rng`.
    pub fn roll_with_rng(&self, rng: StdRng) -> (r: Result<ExprResult, DiceError>)
        ensures
            exists|d: Seq<u32>|
                expr_draws_valid(*self, d) && #[trigger] eval_expr(*self, d, true)
                    == expr_result_view(r),
    {
        let mut roller = Roller::from_rng(rng);
        roller.roll_expr(self)
    }
}

} // verus!
