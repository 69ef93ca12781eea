//! How far the loading before the comparison has come.

use crate::cli::{Action, step_count};
use vstd::arithmetic::div_mod::{lemma_div_is_ordered, lemma_fundamental_div_mod_converse};
use vstd::prelude::*;

verus! {

/// Progress is counted in thousandths.
pub const WHOLE: u64 = 1000;

/// Where an estimate stops until the work is done.
pub const ESTIMATE_LIMIT: u64 = 950;

/// The weight of a step that takes time.
pub const HEAVY: u64 = 4;

/// The weight of a step that takes next to no time.
pub const LIGHT: u64 = 1;

/// The time in milliseconds after which a scan is taken to be half done.
pub const SCAN_TIME: u64 = 4000;

/// The least time in milliseconds in which the reading of a snapshot is taken to be half
/// done.
pub const READING_TIME: u64 = 50;

/// How many bytes of text are read in a millisecond.
pub const PLAIN_RATE: u64 = 40_000;

/// How many compressed bytes are read in a millisecond.
pub const COMPRESSED_RATE: u64 = 4_000;

/// The weights of the steps of an action: resolving a directory and preparing the
/// interface are light.
pub open spec fn weights_of(action: Action) -> Seq<u64> {
    match action {
        Action::CompareFiles { .. } => seq![HEAVY, HEAVY, LIGHT],
        Action::CompareCurrentWithFile { .. } => seq![HEAVY, LIGHT, HEAVY, HEAVY, HEAVY, LIGHT],
        Action::DiffTarget { .. } => seq![LIGHT, HEAVY, HEAVY, HEAVY, HEAVY, LIGHT],
        Action::Shot { .. } => seq![HEAVY],
    }
}

/// The weights of the steps of an action.
pub fn step_weights(action: &Action) -> (r: Vec<u64>)
    ensures
        r@ == weights_of(*action),
        r@.len() == step_count(*action),
{
    match action {
        Action::CompareFiles { .. } => vec![HEAVY, HEAVY, LIGHT],
        Action::CompareCurrentWithFile { .. } => vec![HEAVY, LIGHT, HEAVY, HEAVY, HEAVY, LIGHT],
        Action::DiffTarget { .. } => vec![LIGHT, HEAVY, HEAVY, HEAVY, HEAVY, LIGHT],
        Action::Shot { .. } => vec![HEAVY],
    }
}

/// The sum of some weights.
pub open spec fn total_weight(weights: Seq<u64>) -> nat
    decreases weights.len(),
{
    if weights.len() == 0 {
        0
    } else {
        total_weight(weights.drop_last()) + weights.last() as nat
    }
}

/// The part of a step that is done, at most all of it.
pub open spec fn part_done(done: u64) -> u64 {
    if done > WHOLE {
        WHOLE
    } else {
        done
    }
}

/// What is done of all steps, by their weights, while a step is at work; the first step
/// has the number one.
pub open spec fn weighted(weights: Seq<u64>, step: nat, done: u64) -> nat {
    if 1 <= step <= weights.len() {
        total_weight(weights.take(step - 1)) * WHOLE as nat + (weights[step - 1] * part_done(
            done,
        )) as nat
    } else if step == 0 {
        0
    } else {
        total_weight(weights) * WHOLE as nat
    }
}

/// How far all steps have come, in thousandths.
pub open spec fn overall_done(action: Action, step: nat, done: u64) -> nat {
    weighted(weights_of(action), step, done) / total_weight(weights_of(action))
}

/// How far all steps of an action have come, in thousandths.
pub fn overall_progress(action: &Action, step: usize, done: u64) -> (r: u64)
    ensures
        r == overall_done(*action, step as nat, done),
        r <= WHOLE,
{
    let weights = step_weights(action);
    proof {
        lemma_few_weights(*action);
    }
    let part: u64 = if done > WHOLE {
        WHOLE
    } else {
        done
    };
    let mut total: u64 = 0;
    let mut before: u64 = 0;
    let mut i: usize = 0;
    assert(weights@.take(0) =~= seq![]);
    while i < weights.len()
        invariant
            weights@ == weights_of(*action),
            part == part_done(done),
            forall|k: int| 0 <= k < weights@.len() ==> 1 <= #[trigger] weights@[k] <= HEAVY,
            weights@.len() <= 6,
            i <= weights@.len(),
            total == total_weight(weights@.take(i as int)),
            total <= i * HEAVY,
            before == weighted(
                weights@.take(i as int),
                step as nat,
                done,
            ),
            before <= total * WHOLE,
        decreases weights@.len() - i,
    {
        let ghost now = weights@.take(i as int);
        let ghost next = weights@.take(i + 1);
        proof {
            assert(next.drop_last() =~= now);
            if 1 <= step <= i {
                assert(next.take(step - 1) =~= now.take(step - 1));
            }
            if step == i + 1 {
                assert(next.take(i as int) =~= now);
            }
            if step >= 1 && step == i + 1 {
                assert(weights@[i as int] * part <= weights@[i as int] * WHOLE) by (nonlinear_arith)
                    requires
                        part <= WHOLE,
                        weights@[i as int] >= 1,
                ;
            }
        }
        let weight: u64 = weights[i];
        if step > i + 1 {
            before = before + weight * WHOLE;
        } else if step == i + 1 {
            assert(weight * part <= HEAVY * WHOLE) by (nonlinear_arith)
                requires
                    weight <= HEAVY,
                    part <= WHOLE,
            ;
            before = before + weight * part;
        }
        total = total + weight;
        i = i + 1;
    }
    assert(weights@.take(i as int) =~= weights@);
    proof {
        lemma_done_is_at_most_whole(before as int, total as int);
    }
    before / total
}

proof fn lemma_few_weights(action: Action)
    ensures
        weights_of(action).len() <= 6,
        weights_of(action).len() >= 1,
        forall|k: int|
            0 <= k < weights_of(action).len() ==> 1 <= #[trigger] weights_of(action)[k] <= HEAVY,
        total_weight(weights_of(action)) >= 1,
{
    let weights = weights_of(action);
    assert(weights.last() >= 1);
}

proof fn lemma_done_is_at_most_whole(before: int, total: int)
    requires
        total >= 1,
        0 <= before <= total * WHOLE,
    ensures
        before / total <= WHOLE,
{
    lemma_div_is_ordered(before, total * WHOLE, total);
    lemma_fundamental_div_mod_converse(total * WHOLE, total, WHOLE as int, 0);
}

proof fn lemma_total_weight_grows(weights: Seq<u64>, i: int, j: int)
    requires
        0 <= i <= j <= weights.len(),
    ensures
        total_weight(weights.take(i)) <= total_weight(weights.take(j)),
        i < j ==> total_weight(weights.take(i)) + weights[i] <= total_weight(weights.take(j)),
    decreases j - i,
{
    if i < j {
        assert(weights.take(j).drop_last() =~= weights.take(j - 1));
        lemma_total_weight_grows(weights, i, j - 1);
    }
}

/// The loading starts with nothing done, and all is done at the end of the last step.
pub proof fn law_loading_starts_and_finishes(action: Action)
    ensures
        overall_done(action, 1, 0) == 0,
        overall_done(action, step_count(action) as nat, WHOLE) == WHOLE,
{
    let weights = weights_of(action);
    lemma_few_weights(action);
    let n = weights.len();
    assert(weights.take(0) =~= seq![]);
    assert(weights[0] * 0 == 0);
    assert(weights.take(n - 1) =~= weights.drop_last());
    let total = total_weight(weights) as int;
    assert(total == total_weight(weights.drop_last()) + weights[n - 1]);
    assert(weighted(weights, n, WHOLE) == total * WHOLE) by (nonlinear_arith)
        requires
            weighted(weights, n, WHOLE) == total_weight(weights.drop_last()) * WHOLE + weights[n
                - 1] * WHOLE,
            total == total_weight(weights.drop_last()) + weights[n - 1],
    ;
    lemma_fundamental_div_mod_converse(total * WHOLE, total, WHOLE as int, 0);
    assert(0int / total == 0) by (nonlinear_arith)
        requires
            total >= 1,
    ;
}

/// The loading does not fall back: neither while a step goes on, nor from one step to a
/// later one.
pub proof fn law_loading_in_order(
    action: Action,
    step: nat,
    done: u64,
    later_step: nat,
    later_done: u64,
)
    requires
        step <= later_step,
        step == later_step ==> done <= later_done,
    ensures
        overall_done(action, step, done) <= overall_done(action, later_step, later_done),
{
    let weights = weights_of(action);
    lemma_few_weights(action);
    let n = weights.len();
    let now = weighted(weights, step, done);
    let later = weighted(weights, later_step, later_done);
    if 1 <= step <= n {
        let weight = weights[step - 1] as int;
        if step == later_step {
            assert(weight * part_done(done) <= weight * part_done(later_done)) by (nonlinear_arith)
                requires
                    weight >= 1,
                    part_done(done) <= part_done(later_done),
            ;
        } else {
            let end = if later_step <= n { later_step - 1 } else { n as int };
            assert(weights.take(n as int) =~= weights);
            lemma_total_weight_grows(weights, step - 1, end);
            assert(weight * part_done(done) <= weight * WHOLE) by (nonlinear_arith)
                requires
                    weight >= 1,
                    part_done(done) <= WHOLE,
            ;
            if later_step <= n {
                let last = weights[later_step - 1] as int;
                assert(last * part_done(later_done) >= 0) by (nonlinear_arith)
                    requires
                        last >= 1,
                        part_done(later_done) >= 0,
                ;
            }
        }
    } else if step == 0 && 1 <= later_step <= n {
        let last = weights[later_step - 1] as int;
        assert(last * part_done(later_done) >= 0) by (nonlinear_arith)
            requires
                last >= 1,
                part_done(later_done) >= 0,
        ;
    }
    lemma_div_is_ordered(now as int, later as int, total_weight(weights) as int);
}

/// What is taken to be done of some work after a time, in thousandths: half of it after
/// the expected time, then more and more slowly, and never all of it.
pub open spec fn estimate(elapsed: u64, expected: u64) -> u64 {
    let part = (WHOLE * elapsed) / (elapsed + expected);
    if elapsed == 0 {
        0
    } else if part > ESTIMATE_LIMIT {
        ESTIMATE_LIMIT
    } else {
        part as u64
    }
}

/// What is taken to be done of some work after a time, in thousandths.
pub fn estimated_progress(elapsed: u64, expected: u64) -> (r: u64)
    ensures
        r == estimate(elapsed, expected),
        r <= ESTIMATE_LIMIT,
{
    if elapsed == 0 {
        return 0;
    }
    assert(WHOLE * elapsed <= 1000 * u64::MAX) by (nonlinear_arith)
        requires
            WHOLE == 1000,
            elapsed <= u64::MAX,
    ;
    let part: u128 = (WHOLE as u128 * elapsed as u128) / (elapsed as u128 + expected as u128);
    if part > ESTIMATE_LIMIT as u128 {
        ESTIMATE_LIMIT
    } else {
        part as u64
    }
}

/// Where the work on one of several equal parts starts, in thousandths of all of them.
pub open spec fn part_start(index: nat, total: nat) -> nat {
    if index >= total {
        WHOLE as nat
    } else {
        (WHOLE as nat * index) / total
    }
}

/// How far all parts have come when the part with the given number, counted from zero, is
/// at work, in thousandths.
pub open spec fn parts_done(index: nat, total: nat, done: u64) -> nat {
    let from = part_start(index, total);
    let to = part_start(index + 1, total);
    from + ((to - from) as nat * part_done(done) as nat) / WHOLE as nat
}

fn start_of_part(index: usize, total: usize) -> (r: u64)
    ensures
        r == part_start(index as nat, total as nat),
        r <= WHOLE,
{
    if index >= total {
        return WHOLE;
    }
    proof {
        lemma_part_start(index as int, index as int, total as int);
    }
    assert(WHOLE * index <= 1000 * usize::MAX) by (nonlinear_arith)
        requires
            WHOLE == 1000,
            index <= usize::MAX,
    ;
    let scaled: u128 = WHOLE as u128 * index as u128;
    (scaled / total as u128) as u64
}

/// How far all of several equal parts have come when one of them is at work, in
/// thousandths.
pub fn part_progress(index: usize, total: usize, done: u64) -> (r: u64)
    requires
        index < total,
    ensures
        r == parts_done(index as nat, total as nat, done),
        r <= WHOLE,
{
    let from: u64 = start_of_part(index, total);
    let to: u64 = start_of_part(index + 1, total);
    proof {
        lemma_part_start(index as int, index + 1, total as int);
    }
    let part: u64 = if done > WHOLE {
        WHOLE
    } else {
        done
    };
    assert((to - from) * part <= 1000 * 1000 && (to - from) * part <= (to - from) * WHOLE)
        by (nonlinear_arith)
        requires
            from <= to <= 1000,
            part <= WHOLE,
            WHOLE == 1000,
    ;
    let inner: u64 = (to - from) * part / WHOLE;
    proof {
        lemma_div_is_ordered((to - from) * part, (to - from) * WHOLE, WHOLE as int);
    }
    from + inner
}

proof fn lemma_part_start(i: int, j: int, total: int)
    requires
        0 <= i <= j,
        0 < total,
    ensures
        part_start(i as nat, total as nat) <= part_start(j as nat, total as nat) <= WHOLE,
{
    if i < total {
        assert(WHOLE * i <= WHOLE * total) by (nonlinear_arith)
            requires
                i <= total,
        ;
        lemma_div_is_ordered(WHOLE * i, WHOLE * total, total);
        lemma_fundamental_div_mod_converse(WHOLE * total, total, WHOLE as int, 0);
    }
    if j < total {
        assert(WHOLE * i <= WHOLE * j && WHOLE * j <= WHOLE * total) by (nonlinear_arith)
            requires
                i <= j,
                j <= total,
        ;
        lemma_div_is_ordered(WHOLE * i, WHOLE * j, total);
        lemma_div_is_ordered(WHOLE * j, WHOLE * total, total);
        lemma_fundamental_div_mod_converse(WHOLE * total, total, WHOLE as int, 0);
    }
}

/// The work on equal parts starts with nothing done, is done at the end of the last part,
/// and goes on where the part before it ended.
pub proof fn law_parts_follow_each_other(index: nat, total: nat)
    requires
        index < total,
    ensures
        parts_done(0, total, 0) == 0,
        parts_done((total - 1) as nat, total, WHOLE) == WHOLE,
        index + 1 < total ==> parts_done(index, total, WHOLE) == parts_done(index + 1, total, 0),
        parts_done(index, total, 0) <= parts_done(index, total, WHOLE),
{
    lemma_part_start(0, 1, total as int);
    lemma_part_start(index as int, index as int + 1, total as int);
    lemma_part_start(total - 1, total as int, total as int);
    assert(WHOLE as nat * 0 == 0);
    assert(0nat / total == 0) by (nonlinear_arith)
        requires
            total > 0,
    ;
    lemma_whole_part(0, total);
    lemma_whole_part((total - 1) as nat, total);
    lemma_whole_part(index, total);
    lemma_whole_part(index + 1, total);
}

proof fn lemma_whole_part(index: nat, total: nat)
    requires
        total > 0,
    ensures
        parts_done(index, total, 0) == part_start(index, total),
        parts_done(index, total, WHOLE) == part_start(index + 1, total),
{
    lemma_part_start(index as int, index as int + 1, total as int);
    let span = (part_start(index + 1, total) - part_start(index, total)) as int;
    assert(span * 0 == 0);
    lemma_fundamental_div_mod_converse(span * WHOLE, WHOLE as int, span, 0);
}

/// The time in milliseconds in which the reading of a snapshot is taken to be half done.
pub open spec fn reading_time_of(size: u64, compressed: bool) -> u64 {
    let time = READING_TIME + size / if compressed {
        COMPRESSED_RATE
    } else {
        PLAIN_RATE
    };
    time as u64
}

/// The time in milliseconds in which the reading of a snapshot is taken to be half done.
pub fn reading_time(size: u64, compressed: bool) -> (r: u64)
    ensures
        r == reading_time_of(size, compressed),
{
    if compressed {
        READING_TIME + size / COMPRESSED_RATE
    } else {
        READING_TIME + size / PLAIN_RATE
    }
}

/// An estimate grows with the time and stops before all is done.
pub proof fn law_estimates_grow_and_stop(elapsed: u64, later: u64, expected: u64)
    requires
        elapsed <= later,
    ensures
        estimate(elapsed, expected) <= estimate(later, expected) <= ESTIMATE_LIMIT,
{
    if elapsed > 0 {
        let a = elapsed as int;
        let b = later as int;
        let c = expected as int;
        let q = (WHOLE * a) / (a + c);
        lemma_estimate_in_order(a, b, c, q);
    }
}

proof fn lemma_estimate_in_order(a: int, b: int, c: int, q: int)
    requires
        0 < a <= b,
        0 <= c,
        q == (WHOLE * a) / (a + c),
    ensures
        q <= (WHOLE * b) / (b + c),
{
    assert(q * (a + c) <= WHOLE * a) by (nonlinear_arith)
        requires
            q == (WHOLE * a) / (a + c),
            a + c > 0,
    ;
    assert(a * c <= b * c) by (nonlinear_arith)
        requires
            a <= b,
            0 <= c,
    ;
    assert(a * (b + c) <= b * (a + c)) by (nonlinear_arith)
        requires
            a * c <= b * c,
    ;
    assert((q * (b + c)) * (a + c) <= (WHOLE * b) * (a + c)) by (nonlinear_arith)
        requires
            q * (a + c) <= WHOLE * a,
            a * (b + c) <= b * (a + c),
            b + c > 0,
    ;
    assert(q * (b + c) <= WHOLE * b) by (nonlinear_arith)
        requires
            (q * (b + c)) * (a + c) <= (WHOLE * b) * (a + c),
            a + c > 0,
    ;
    assert(q <= (WHOLE * b) / (b + c)) by (nonlinear_arith)
        requires
            q * (b + c) <= WHOLE * b,
            b + c > 0,
    ;
}

/// A greater snapshot takes longer to read, and a compressed one longer than one of the
/// same size that is not.
pub proof fn law_reading_takes_longer(size: u64, greater: u64, compressed: bool)
    requires
        size <= greater,
    ensures
        reading_time_of(size, compressed) <= reading_time_of(greater, compressed),
        reading_time_of(size, false) <= reading_time_of(size, true),
        reading_time_of(size, compressed) >= READING_TIME,
{
    lemma_div_is_ordered(size as int, greater as int, COMPRESSED_RATE as int);
    lemma_div_is_ordered(size as int, greater as int, PLAIN_RATE as int);
}

/// Work is taken to be half done after the time that it is expected to take.
pub proof fn law_half_is_done_in_the_expected_time(expected: u64)
    requires
        expected > 0,
    ensures
        2 * estimate(expected, expected) == WHOLE,
        estimate(0, expected) == 0,
{
    let n = expected as int;
    assert(WHOLE * n == 500 * (n + n)) by (nonlinear_arith)
        requires
            WHOLE == 1000,
    ;
    lemma_fundamental_div_mod_converse(WHOLE * n, n + n, 500, 0);
}

/// Every step of an action counts, and the next one goes on where it ended.
pub proof fn law_steps_follow_each_other(action: Action, step: nat)
    requires
        1 <= step <= step_count(action),
    ensures
        overall_done(action, step, 0) < overall_done(action, step, WHOLE),
        overall_done(action, step, WHOLE) == overall_done(action, step + 1, 0),
        overall_done(action, 0, WHOLE) == 0,
{
    let weights = weights_of(action);
    reveal_with_fuel(total_weight, 7);
    assert(weights.take(0) =~= seq![]);
    assert(weights.take(step as int).drop_last() =~= weights.take(step - 1));
    assert(weights.take(weights.len() as int) =~= weights);
    let all = total_weight(weights) as int;
    assert(0 < all <= 22) by {
        lemma_few_weights(action);
    }
    lemma_few_weights(action);
    let w = weights[step - 1] as int;
    let before = total_weight(weights.take(step - 1)) as int;
    assert(weights.take(step as int).last() == weights[step - 1]);
    assert(total_weight(weights.take(step as int)) == before + w);
    let from = weighted(weights, step, 0) as int;
    let to = weighted(weights, step, WHOLE) as int;
    assert(part_done(0) == 0 && part_done(WHOLE) == 1000);
    assert(w * 0 == 0 && w * 1000 == 1000 * w);
    assert(from == before * 1000);
    assert(to == before * 1000 + w * 1000);
    if step < weights.len() {
        assert(weights[step as int] * 0 == 0);
        assert(weighted(weights, step + 1, 0) == (before + w) * 1000);
    } else {
        assert(weights.take(step as int) =~= weights);
    }
    assert(from / all < to / all) by (nonlinear_arith)
        requires
            to - from >= 1000,
            0 < all <= 22,
            from >= 0,
    ;
}

} // verus!
