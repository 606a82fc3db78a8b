use vstd::prelude::*;
use vstd::arithmetic::div_mod::{
    lemma_div_is_ordered, lemma_fundamental_div_mod, lemma_mod_multiples_basic, lemma_mod_pos_bound,
};

verus! {

/// Sum of all scores.
pub open spec fn score_total(scores: Seq<u64>) -> int
    decreases scores.len(),
{
    if scores.len() == 0 {
        0
    } else {
        score_total(scores.drop_last()) + scores.last()
    }
}

/// The proportional share `budget * score / total` rounded to the nearest multiple
/// of `increment`, an exact half rounding up; a negative share rounds toward zero.
pub open spec fn rounded_share(budget: int, increment: int, total: int, score: int) -> int {
    let num = budget * score;
    let step = increment * total;
    if num >= 0 {
        increment * ((2 * num + step) / (2 * step))
    } else {
        -(increment * ((-num) / step))
    }
}

/// The proportional share `budget * score / total` lies strictly below the floor.
pub open spec fn below_floor(budget: int, floor: int, total: int, score: int) -> bool {
    budget * score < floor * total
}

/// The item would round to nothing while the running total is still short of
/// the budget: it is raised to one increment.
pub open spec fn promoted(
    budget: int,
    floor: int,
    increment: int,
    total: int,
    running: int,
    score: int,
) -> bool {
    !below_floor(budget, floor, total, score) && rounded_share(budget, increment, total, score) == 0
        && running < budget
}

/// The duration given to one item, once `running` seconds are already given.
pub open spec fn share(
    budget: int,
    floor: int,
    increment: int,
    total: int,
    running: int,
    score: int,
) -> int {
    if below_floor(budget, floor, total, score) {
        0
    } else if promoted(budget, floor, increment, total, running, score) {
        increment
    } else {
        rounded_share(budget, increment, total, score)
    }
}

/// The durations of the items in the order given, `running` seconds being given already.
pub open spec fn allocation(
    budget: int,
    floor: int,
    increment: int,
    total: int,
    running: int,
    scores: Seq<u64>,
) -> Seq<int>
    decreases scores.len(),
{
    if scores.len() == 0 {
        Seq::empty()
    } else {
        let d = share(budget, floor, increment, total, running, scores[0] as int);
        seq![d] + allocation(budget, floor, increment, total, running + d, scores.drop_first())
    }
}

/// The durations that a budget gives items of these scores, in this order; when
/// every score is zero, nothing is given.
pub open spec fn allocate_spec(budget: int, floor: int, increment: int, scores: Seq<u64>) -> Seq<
    int,
> {
    if score_total(scores) == 0 {
        Seq::new(scores.len(), |k: int| 0int)
    } else {
        allocation(budget, floor, increment, score_total(scores), 0, scores)
    }
}

pub open spec fn as_ints(v: Seq<i64>) -> Seq<int> {
    v.map_values(|x: i64| x as int)
}

/// Each score is at most the total.
proof fn lemma_score_below_total(scores: Seq<u64>, k: int)
    requires
        0 <= k < scores.len(),
    ensures
        scores[k] <= score_total(scores),
        score_total(scores) >= 0,
    decreases scores.len(),
{
    lemma_total_nonneg(scores.drop_last());
    if k < scores.len() - 1 {
        lemma_score_below_total(scores.drop_last(), k);
    }
}

proof fn lemma_total_nonneg(scores: Seq<u64>)
    ensures
        score_total(scores) >= 0,
    decreases scores.len(),
{
    if scores.len() > 0 {
        lemma_total_nonneg(scores.drop_last());
    }
}

/// A rounded share is bounded by the budget, plus one increment.
proof fn lemma_rounded_bound(budget: int, increment: int, total: int, score: int)
    requires
        increment > 0,
        total > 0,
        0 <= score <= total,
    ensures
        budget >= 0 ==> 0 <= rounded_share(budget, increment, total, score) <= budget + increment,
        budget < 0 ==> budget <= rounded_share(budget, increment, total, score) <= 0,
{
    let num = budget * score;
    let step = increment * total;
    assert(step > 0) by (nonlinear_arith)
        requires
            increment > 0,
            total > 0,
            step == increment * total,
    ;
    if num >= 0 {
        let q = (2 * num + step) / (2 * step);
        lemma_fundamental_div_mod(2 * num + step, 2 * step);
        lemma_mod_pos_bound(2 * num + step, 2 * step);
        assert(q >= 0) by (nonlinear_arith)
            requires
                2 * num + step == 2 * step * q + (2 * num + step) % (2 * step),
                (2 * num + step) % (2 * step) < 2 * step,
                num >= 0,
                step > 0,
        ;
        if budget >= 0 {
            assert(increment * q <= budget + increment) by (nonlinear_arith)
                requires
                    2 * num + step == 2 * step * q + (2 * num + step) % (2 * step),
                    0 <= (2 * num + step) % (2 * step),
                    num == budget * score,
                    step == increment * total,
                    budget >= 0,
                    0 <= score <= total,
                    total > 0,
                    increment > 0,
            ;
            assert(increment * q >= 0) by (nonlinear_arith)
                requires
                    q >= 0,
                    increment > 0,
            ;
        } else {
            assert(score == 0) by (nonlinear_arith)
                requires
                    num == budget * score,
                    num >= 0,
                    budget < 0,
                    score >= 0,
            ;
            assert(q == 0) by (nonlinear_arith)
                requires
                    2 * num + step == 2 * step * q + (2 * num + step) % (2 * step),
                    0 <= (2 * num + step) % (2 * step) < 2 * step,
                    num == 0,
                    step > 0,
            ;
        }
    } else {
        let q = (-num) / step;
        lemma_fundamental_div_mod(-num, step);
        lemma_mod_pos_bound(-num, step);
        assert(budget < 0) by (nonlinear_arith)
            requires
                num == budget * score,
                num < 0,
                score >= 0,
        ;
        assert(0 <= increment * q <= -budget) by (nonlinear_arith)
            requires
                -num == step * q + (-num) % step,
                0 <= (-num) % step < step,
                num == budget * score,
                step == increment * total,
                budget < 0,
                0 <= score <= total,
                total > 0,
                increment > 0,
        ;
    }
}

/// Bound on the size of one duration: a budget plus one increment stays within it.
const SHARE_LIMIT: i128 = 0x1_0000_0000;

fn share_exec(
    budget: i32,
    floor: i32,
    increment: i32,
    total: u64,
    running: i128,
    score: u64,
) -> (d: i64)
    requires
        increment > 0,
        total > 0,
        score <= total,
    ensures
        d == share(budget as int, floor as int, increment as int, total as int, running as int, score as int),
        -SHARE_LIMIT <= d <= SHARE_LIMIT,
{
    proof {
        lemma_rounded_bound(budget as int, increment as int, total as int, score as int);
    }
    assert(-0x8000_0000_0000_0000_0000_0000 <= (budget as int) * (score as int) <= 0x8000_0000_0000_0000_0000_0000) by (nonlinear_arith)
        requires
            -0x8000_0000 <= budget < 0x8000_0000,
            0 <= score < 0x1_0000_0000_0000_0000,
    ;
    assert(-0x8000_0000_0000_0000_0000_0000 <= (floor as int) * (total as int) <= 0x8000_0000_0000_0000_0000_0000) by (nonlinear_arith)
        requires
            -0x8000_0000 <= floor < 0x8000_0000,
            0 <= total < 0x1_0000_0000_0000_0000,
    ;
    assert(0 < (increment as int) * (total as int) <= 0x8000_0000_0000_0000_0000_0000) by (nonlinear_arith)
        requires
            0 < increment < 0x8000_0000,
            0 < total < 0x1_0000_0000_0000_0000,
    ;
    let num: i128 = budget as i128 * score as i128;
    let step: i128 = increment as i128 * total as i128;
    if num < floor as i128 * total as i128 {
        return 0;
    }
    let rounded: i128 = if num >= 0 {
        let q: i128 = (2 * num + step) / (2 * step);
        assert(increment * q == rounded_share(budget as int, increment as int, total as int, score as int));
        increment as i128 * q
    } else {
        let q: i128 = (-num) / step;
        assert(-(increment * q) == rounded_share(budget as int, increment as int, total as int, score as int));
        -(increment as i128 * q)
    };
    if rounded == 0 && running < budget as i128 {
        increment as i64
    } else {
        rounded as i64
    }
}

/// Gives each item its duration, in the order given: its proportional share of
/// the budget rounded to the increment, nothing below the floor, and one
/// increment for an item that rounds to nothing while the budget is not used up.
/// `None` when the scores add up past `u64::MAX`.
pub fn allocate(budget: i32, floor: i32, increment: i32, scores: &Vec<u64>) -> (r: Option<
    Vec<i64>,
>)
    requires
        increment > 0,
    ensures
        r is None <==> score_total(scores@) > u64::MAX,
        r matches Some(v) ==> as_ints(v@) == allocate_spec(
            budget as int,
            floor as int,
            increment as int,
            scores@,
        ),
{
    let mut total: u64 = 0;
    let mut k: usize = 0;
    while k < scores.len()
        invariant
            0 <= k <= scores.len(),
            total == score_total(scores@.take(k as int)),
        decreases scores.len() - k,
    {
        assert(scores@.take(k + 1).drop_last() =~= scores@.take(k as int));
        if total > u64::MAX - scores[k] {
            proof {
                lemma_total_prefix_grows(scores@, k as int + 1);
            }
            return None;
        }
        total = total + scores[k];
        k = k + 1;
    }
    assert(scores@.take(k as int) =~= scores@);
    let mut out: Vec<i64> = Vec::new();
    if total == 0 {
        let mut j: usize = 0;
        while j < scores.len()
            invariant
                0 <= j <= scores.len(),
                as_ints(out@) == Seq::new(j as nat, |x: int| 0int),
            decreases scores.len() - j,
        {
            let ghost prev = out@;
            out.push(0);
            assert(as_ints(out@) =~= as_ints(prev).push(0int));
            j = j + 1;
            assert(as_ints(out@) =~= Seq::new(j as nat, |x: int| 0int));
        }
        return Some(out);
    }
    let ghost spec_total = total as int;
    let mut running: i128 = 0;
    let mut i: usize = 0;
    assert(scores@.skip(0) =~= scores@);
    assert(as_ints(out@) + allocation(budget as int, floor as int, increment as int, spec_total, 0, scores@) =~= allocation(budget as int, floor as int, increment as int, spec_total, 0, scores@));
    while i < scores.len()
        invariant
            0 <= i <= scores.len(),
            total == score_total(scores@),
            total > 0,
            spec_total == total,
            increment > 0,
            -0x1_0000_0000 * (i as int) <= running as int <= 0x1_0000_0000 * (i as int),
            as_ints(out@) + allocation(budget as int, floor as int, increment as int, spec_total, running as int, scores@.skip(i as int))
                == allocation(budget as int, floor as int, increment as int, spec_total, 0, scores@),
        decreases scores.len() - i,
    {
        proof {
            lemma_score_below_total(scores@, i as int);
        }
        let d = share_exec(budget, floor, increment, total, running, scores[i]);
        let ghost rest = scores@.skip(i + 1);
        assert(scores@.skip(i as int).drop_first() =~= rest);
        assert(as_ints(out@.push(d)) =~= as_ints(out@).push(d as int));
        assert(as_ints(out@).push(d as int) + allocation(budget as int, floor as int, increment as int, spec_total, running + d, rest)
            =~= as_ints(out@) + (seq![d as int] + allocation(budget as int, floor as int, increment as int, spec_total, running + d, rest)));
        out.push(d);
        running = running + d as i128;
        i = i + 1;
    }
    assert(allocation(budget as int, floor as int, increment as int, spec_total, running as int, scores@.skip(i as int)) =~= Seq::<int>::empty());
    assert(as_ints(out@) + Seq::<int>::empty() =~= as_ints(out@));
    Some(out)
}

/// The total of a prefix never exceeds the total of the whole.
proof fn lemma_total_prefix_grows(scores: Seq<u64>, k: int)
    requires
        0 <= k <= scores.len(),
    ensures
        score_total(scores.take(k)) <= score_total(scores),
    decreases scores.len() - k,
{
    if k < scores.len() {
        lemma_total_prefix_grows(scores, k + 1);
        assert(scores.take(k + 1).drop_last() =~= scores.take(k));
    } else {
        assert(scores.take(k) =~= scores);
    }
}

/// Sum of a sequence of durations.
pub open spec fn seq_sum(s: Seq<int>) -> int
    decreases s.len(),
{
    if s.len() == 0 {
        0
    } else {
        s[0] + seq_sum(s.drop_first())
    }
}

/// Scores that never increase from one item to the next.
pub open spec fn sorted_desc(scores: Seq<u64>) -> bool {
    forall|i: int, j: int| 0 <= i < j < scores.len() ==> scores[i] >= scores[j]
}

/// The duration of an item before any promotion: nothing below the floor, else
/// its rounded share.
pub open spec fn base_share(budget: int, floor: int, increment: int, total: int, score: int) -> int {
    if below_floor(budget, floor, total, score) {
        0
    } else {
        rounded_share(budget, increment, total, score)
    }
}

pub open spec fn base_shares(budget: int, floor: int, increment: int, total: int, scores: Seq<u64>) -> Seq<int> {
    scores.map_values(|s: u64| base_share(budget, floor, increment, total, s as int))
}

/// Every duration given is a whole number of increments.
pub proof fn lemma_allocation_multiple_of_increment(
    budget: int,
    floor: int,
    increment: int,
    total: int,
    running: int,
    scores: Seq<u64>,
)
    requires
        increment > 0,
    ensures
        forall|k: int| 0 <= k < scores.len() ==>
            #[trigger] allocation(budget, floor, increment, total, running, scores)[k] % increment == 0,
    decreases scores.len(),
{
    if scores.len() > 0 {
        let a = allocation(budget, floor, increment, total, running, scores);
        let d = share(budget, floor, increment, total, running, scores[0] as int);
        lemma_allocation_multiple_of_increment(budget, floor, increment, total, running + d, scores.drop_first());
        lemma_allocation_floor(budget, floor, increment, total, running + d, scores.drop_first());
        let num = budget * (scores[0] as int);
        let step = increment * total;
        if num >= 0 {
            let q = (2 * num + step) / (2 * step);
            lemma_mod_multiples_basic(q, increment);
            assert(increment * q == q * increment) by (nonlinear_arith);
        } else {
            let q = (-num) / step;
            lemma_mod_multiples_basic(-q, increment);
            assert(-(increment * q) == (-q) * increment) by (nonlinear_arith);
        }
        lemma_mod_multiples_basic(1, increment);
        lemma_mod_multiples_basic(0, increment);
        assert(d % increment == 0);
        assert forall|k: int| 0 <= k < scores.len() implies #[trigger] a[k] % increment == 0 by {
            if k > 0 {
                assert(a[k] == allocation(budget, floor, increment, total, running + d, scores.drop_first())[k - 1]);
            }
        }
    }
}

/// An item whose proportional share lies strictly below the floor gets nothing.
pub proof fn lemma_allocation_floor(
    budget: int,
    floor: int,
    increment: int,
    total: int,
    running: int,
    scores: Seq<u64>,
)
    ensures
        allocation(budget, floor, increment, total, running, scores).len() == scores.len(),
        forall|k: int| 0 <= k < scores.len() && below_floor(budget, floor, total, scores[k] as int) ==>
            #[trigger] allocation(budget, floor, increment, total, running, scores)[k] == 0,
    decreases scores.len(),
{
    if scores.len() > 0 {
        let a = allocation(budget, floor, increment, total, running, scores);
        let d = share(budget, floor, increment, total, running, scores[0] as int);
        let rest = scores.drop_first();
        lemma_allocation_floor(budget, floor, increment, total, running + d, rest);
        assert forall|k: int| 0 <= k < scores.len() && below_floor(budget, floor, total, scores[k] as int)
            implies #[trigger] a[k] == 0 by {
            if k > 0 {
                assert(scores[k] == rest[k - 1]);
                assert(a[k] == allocation(budget, floor, increment, total, running + d, rest)[k - 1]);
            }
        }
    }
}

/// With a positive budget, a smaller score never gets a larger base share, and
/// no base share is negative.
proof fn lemma_base_share_monotone(budget: int, floor: int, increment: int, total: int, lo: int, hi: int)
    requires
        budget > 0,
        increment > 0,
        total > 0,
        0 <= lo <= hi <= total,
    ensures
        0 <= base_share(budget, floor, increment, total, lo) <= base_share(budget, floor, increment, total, hi),
{
    lemma_rounded_bound(budget, increment, total, lo);
    lemma_rounded_bound(budget, increment, total, hi);
    assert(budget * lo <= budget * hi) by (nonlinear_arith)
        requires
            budget > 0,
            lo <= hi,
    ;
    assert(budget * lo >= 0) by (nonlinear_arith)
        requires
            budget > 0,
            lo >= 0,
    ;
    let step = increment * total;
    assert(step > 0) by (nonlinear_arith)
        requires
            increment > 0,
            total > 0,
            step == increment * total,
    ;
    lemma_div_is_ordered(2 * (budget * lo) + step, 2 * (budget * hi) + step, 2 * step);
    let ql = (2 * (budget * lo) + step) / (2 * step);
    let qh = (2 * (budget * hi) + step) / (2 * step);
    assert(increment * ql <= increment * qh) by (nonlinear_arith)
        requires
            ql <= qh,
            increment > 0,
    ;
}

/// Once the running total is `running`, the durations still to come add up to no
/// more than the budget plus one increment, provided the base shares do.
proof fn lemma_allocation_bounded_from(
    budget: int,
    floor: int,
    increment: int,
    total: int,
    running: int,
    scores: Seq<u64>,
)
    requires
        budget > 0,
        increment > 0,
        total > 0,
        running >= 0,
        sorted_desc(scores),
        forall|k: int| 0 <= k < scores.len() ==> scores[k] <= total,
        running + seq_sum(base_shares(budget, floor, increment, total, scores)) <= budget + increment,
    ensures
        running + seq_sum(allocation(budget, floor, increment, total, running, scores)) <= budget + increment,
        seq_sum(allocation(budget, floor, increment, total, running, scores)) >= 0,
    decreases scores.len(),
{
    if scores.len() > 0 {
        let s0 = scores[0] as int;
        let rest = scores.drop_first();
        let d = share(budget, floor, increment, total, running, s0);
        let bases = base_shares(budget, floor, increment, total, scores);
        let rest_bases = base_shares(budget, floor, increment, total, rest);
        assert(bases.drop_first() =~= rest_bases);
        let tail = allocation(budget, floor, increment, total, running + d, rest);
        assert((seq![d] + tail).drop_first() =~= tail);
        assert(seq_sum(allocation(budget, floor, increment, total, running, scores)) == d + seq_sum(tail));
        assert(seq_sum(bases) == base_share(budget, floor, increment, total, s0) + seq_sum(rest_bases));
        assert forall|i: int, j: int| 0 <= i < j < rest.len() implies rest[i] >= rest[j] by {
            assert(rest[i] == scores[i + 1]);
            assert(rest[j] == scores[j + 1]);
        }
        assert forall|k: int| 0 <= k < rest.len() implies rest[k] <= total by {
            assert(rest[k] == scores[k + 1]);
        }
        assert forall|k: int| 0 <= k < rest.len() implies rest[k] <= s0 by {
            assert(rest[k] == scores[k + 1]);
        }
        lemma_base_share_monotone(budget, floor, increment, total, s0, s0);
        lemma_base_sum_nonneg(budget, floor, increment, total, rest);
        if promoted(budget, floor, increment, total, running, s0) {
            lemma_base_sum_zero(budget, floor, increment, total, s0, rest);
        }
        lemma_allocation_bounded_from(budget, floor, increment, total, running + d, rest);
    }
}

proof fn lemma_base_sum_nonneg(budget: int, floor: int, increment: int, total: int, scores: Seq<u64>)
    requires
        budget > 0,
        increment > 0,
        total > 0,
        forall|k: int| 0 <= k < scores.len() ==> scores[k] <= total,
    ensures
        seq_sum(base_shares(budget, floor, increment, total, scores)) >= 0,
    decreases scores.len(),
{
    if scores.len() > 0 {
        let rest = scores.drop_first();
        assert(base_shares(budget, floor, increment, total, scores).drop_first() =~= base_shares(budget, floor, increment, total, rest));
        assert forall|k: int| 0 <= k < rest.len() implies rest[k] <= total by {
            assert(rest[k] == scores[k + 1]);
        }
        lemma_base_share_monotone(budget, floor, increment, total, scores[0] as int, scores[0] as int);
        lemma_base_sum_nonneg(budget, floor, increment, total, rest);
    }
}

/// Scores no larger than one whose base share is nothing have base shares of nothing.
proof fn lemma_base_sum_zero(budget: int, floor: int, increment: int, total: int, top: int, scores: Seq<u64>)
    requires
        budget > 0,
        increment > 0,
        total > 0,
        top <= total,
        base_share(budget, floor, increment, total, top) == 0,
        forall|k: int| 0 <= k < scores.len() ==> scores[k] <= top,
    ensures
        seq_sum(base_shares(budget, floor, increment, total, scores)) == 0,
    decreases scores.len(),
{
    if scores.len() > 0 {
        let rest = scores.drop_first();
        assert(base_shares(budget, floor, increment, total, scores).drop_first() =~= base_shares(budget, floor, increment, total, rest));
        assert forall|k: int| 0 <= k < rest.len() implies rest[k] <= top by {
            assert(rest[k] == scores[k + 1]);
        }
        lemma_base_share_monotone(budget, floor, increment, total, scores[0] as int, top);
        lemma_base_sum_zero(budget, floor, increment, total, top, rest);
    }
}

/// With a positive budget and items sorted by decreasing score, the durations
/// given add up to at least zero and at most the budget plus one increment,
/// whenever the shares before promotion do. (When they do not, the durations
/// exceed that bound too: four items of equal score, a budget of 3600 and an
/// increment of 1800 round every share of 900 up to 1800.)
pub proof fn lemma_allocation_within_budget(budget: int, floor: int, increment: int, scores: Seq<u64>)
    requires
        budget > 0,
        increment > 0,
        score_total(scores) > 0,
        sorted_desc(scores),
        seq_sum(base_shares(budget, floor, increment, score_total(scores), scores)) <= budget + increment,
    ensures
        0 <= seq_sum(allocate_spec(budget, floor, increment, scores)) <= budget + increment,
{
    assert forall|k: int| 0 <= k < scores.len() implies scores[k] <= score_total(scores) by {
        lemma_score_below_total(scores, k);
    }
    lemma_allocation_bounded_from(budget, floor, increment, score_total(scores), 0, scores);
}

/// Equal inputs give equal durations: nothing else enters the allocation.
pub proof fn lemma_allocation_deterministic(
    budget: int,
    floor: int,
    increment: int,
    scores: Seq<u64>,
    other: Seq<u64>,
)
    requires
        scores == other,
    ensures
        allocate_spec(budget, floor, increment, scores) == allocate_spec(budget, floor, increment, other),
{
}

/// Scores that are each at most `bound` add up to at most `bound` per score.
pub proof fn lemma_total_at_most(scores: Seq<u64>, bound: int)
    requires
        bound >= 0,
        forall|k: int| 0 <= k < scores.len() ==> scores[k] <= bound,
    ensures
        score_total(scores) <= scores.len() * bound,
    decreases scores.len(),
{
    if scores.len() > 0 {
        let t = scores.drop_last();
        assert forall|k: int| 0 <= k < t.len() implies t[k] <= bound by {
            assert(t[k] == scores[k]);
        }
        lemma_total_at_most(t, bound);
        assert(score_total(t) + scores.last() <= scores.len() * bound) by (nonlinear_arith)
            requires
                score_total(t) <= t.len() * bound,
                t.len() + 1 == scores.len(),
                scores.last() <= bound,
        ;
    }
}

/// Each duration is the share of its item once the durations before it are given.
proof fn lemma_allocation_prefix(
    budget: int,
    floor: int,
    increment: int,
    total: int,
    running: int,
    scores: Seq<u64>,
)
    ensures
        allocation(budget, floor, increment, total, running, scores).len() == scores.len(),
        forall|k: int| 0 <= k < scores.len() ==> #[trigger] allocation(budget, floor, increment, total, running, scores)[k]
            == share(budget, floor, increment, total, running + seq_sum(allocation(budget, floor, increment, total, running, scores).take(k)), scores[k] as int),
    decreases scores.len(),
{
    lemma_allocation_floor(budget, floor, increment, total, running, scores);
    if scores.len() > 0 {
        let a = allocation(budget, floor, increment, total, running, scores);
        let d = share(budget, floor, increment, total, running, scores[0] as int);
        let rest = scores.drop_first();
        let tail = allocation(budget, floor, increment, total, running + d, rest);
        lemma_allocation_prefix(budget, floor, increment, total, running + d, rest);
        assert forall|k: int| 0 <= k < scores.len() implies #[trigger] a[k]
            == share(budget, floor, increment, total, running + seq_sum(a.take(k)), scores[k] as int) by {
            if k == 0 {
                assert(a.take(0) =~= Seq::<int>::empty());
            } else {
                assert(a[k] == tail[k - 1]);
                assert(scores[k] == rest[k - 1]);
                assert(a.take(k).drop_first() =~= tail.take(k - 1));
                assert(a.take(k)[0] == d);
            }
        }
    }
}

/// An item above the floor whose share rounds to nothing gets one increment when
/// the durations given before it fall short of the budget, and nothing otherwise;
/// so earlier (higher-scoring, once sorted) items are promoted first.
pub proof fn lemma_allocation_promotion(budget: int, floor: int, increment: int, scores: Seq<u64>)
    requires
        increment > 0,
        score_total(scores) > 0,
    ensures
        forall|k: int| 0 <= k < scores.len() && !below_floor(budget, floor, score_total(scores), scores[k] as int)
            && rounded_share(budget, increment, score_total(scores), scores[k] as int) == 0 ==>
            #[trigger] allocate_spec(budget, floor, increment, scores)[k] == (if seq_sum(
                allocate_spec(budget, floor, increment, scores).take(k),
            ) < budget {
                increment
            } else {
                0
            }),
{
    lemma_allocation_prefix(budget, floor, increment, score_total(scores), 0, scores);
}

} // verus!
