//! The scorer: a pure read over the final state that turns the recorded
//! arrival times into a single numeric objective.

use vstd::prelude::*;
use crate::model::Car;
use crate::model::Problem;

verus! {

/// The contribution of one car: a car that arrived at time `t` is worth
/// `bonus + (seconds - t)`; a car that never arrived is worth nothing.
pub open spec fn car_score(car: Car, seconds: int, bonus: int) -> int {
    match car.destination_reached_at {
        Some(t) => bonus + seconds - t,
        None => 0,
    }
}

/// The total score of a sequence of cars.
pub open spec fn score_sum(cars: Seq<Car>, seconds: int, bonus: int) -> int
    decreases cars.len(),
{
    if cars.len() == 0 {
        0
    } else {
        car_score(cars[0], seconds, bonus) + score_sum(cars.drop_first(), seconds, bonus)
    }
}

/// The score of a whole problem in its current state.
pub open spec fn spec_score(problem: Problem) -> int {
    score_sum(problem.cars@, problem.amount_of_seconds as int, problem.bonus_points as int)
}

/// Every set arrival time in `cars` is at most `seconds`.
pub open spec fn arrivals_within(cars: Seq<Car>, seconds: int) -> bool {
    forall|i: int|
        0 <= i < cars.len() ==> ((#[trigger] cars[i].destination_reached_at) matches Some(t)
            ==> t <= seconds)
}

proof fn lemma_score_sum_nonneg(cars: Seq<Car>, seconds: int, bonus: int)
    requires
        bonus >= 0,
        arrivals_within(cars, seconds),
    ensures
        score_sum(cars, seconds, bonus) >= 0,
    decreases cars.len(),
{
    if cars.len() > 0 {
        lemma_score_sum_nonneg(cars.drop_first(), seconds, bonus);
    }
}

/// Sum the rewards of all arrived cars: `bonus_points` plus the head
/// start `amount_of_seconds - t` for every car that arrived at time `t`.
pub fn calculate_score(problem: &Problem) -> (score: u32)
    requires
        arrivals_within(problem.cars@, problem.amount_of_seconds as int),
        spec_score(*problem) <= u32::MAX,
    ensures
        score == spec_score(*problem),
{
    let seconds = problem.amount_of_seconds;
    let bonus = problem.bonus_points;
    let ghost total = spec_score(*problem);
    let mut score: u32 = 0;
    let mut i: usize = 0;
    let n = problem.cars.len();
    proof {
        assert(problem.cars@.skip(0) =~= problem.cars@);
    }
    while i < n
        invariant
            i <= n,
            n == problem.cars@.len(),
            seconds == problem.amount_of_seconds,
            bonus == problem.bonus_points,
            arrivals_within(problem.cars@, seconds as int),
            total == spec_score(*problem),
            total <= u32::MAX,
            total == score + score_sum(
                problem.cars@.skip(i as int),
                seconds as int,
                bonus as int,
            ),
        decreases n - i,
    {
        let ghost rest = problem.cars@.skip(i as int);
        proof {
            assert(rest[0] == problem.cars@[i as int]);
            assert(rest.drop_first() =~= problem.cars@.skip(i as int + 1));
            assert(arrivals_within(rest.drop_first(), seconds as int)) by {
                assert(forall|k: int|
                    0 <= k < rest.drop_first().len()
                        ==> rest.drop_first()[k] == problem.cars@[k + i + 1]);
            }
            lemma_score_sum_nonneg(rest.drop_first(), seconds as int, bonus as int);
        }
        match problem.cars[i].destination_reached_at {
            Some(time_of_arrival) => {
                score = score + (bonus + (seconds - time_of_arrival));
            },
            None => {},
        }
        i = i + 1;
    }
    proof {
        assert(problem.cars@.skip(n as int) =~= Seq::<Car>::empty());
    }
    score
}

/// Law: the score is monotone in the per-arrival bonus. With the cars
/// and the horizon held fixed, raising `bonus_points` never lowers the
/// score.
pub proof fn lemma_score_monotonic_in_bonus(p1: Problem, p2: Problem)
    requires
        p1.cars@ == p2.cars@,
        p1.amount_of_seconds == p2.amount_of_seconds,
        p1.bonus_points <= p2.bonus_points,
    ensures
        spec_score(p1) <= spec_score(p2),
{
    lemma_score_sum_mono(p1.cars@, p1.amount_of_seconds as int, p1.bonus_points as int,
        p2.bonus_points as int);
}

/// Law: the score is a pure function of the recorded arrival
/// timestamps, the horizon and the bonus — two problems whose cars
/// carry the same arrival views score the same. Together with the
/// functional contract of `simulate` this makes the whole run
/// deterministic: equal inputs give identical arrivals and score.
pub proof fn lemma_score_determined_by_arrivals(p1: Problem, p2: Problem)
    requires
        p1.sim_state().cars == p2.sim_state().cars,
        p1.amount_of_seconds == p2.amount_of_seconds,
        p1.bonus_points == p2.bonus_points,
    ensures
        spec_score(p1) == spec_score(p2),
{
    assert(p1.sim_state().cars.len() == p1.cars@.len());
    assert(p2.sim_state().cars.len() == p2.cars@.len());
    assert(forall|i: int|
        0 <= i < p1.cars@.len() ==> (#[trigger] p1.cars@[i])@ == p1.sim_state().cars[i]);
    assert(forall|i: int|
        0 <= i < p2.cars@.len() ==> (#[trigger] p2.cars@[i])@ == p2.sim_state().cars[i]);
    lemma_score_sum_by_arrivals(
        p1.cars@,
        p2.cars@,
        p1.amount_of_seconds as int,
        p1.bonus_points as int,
    );
}

proof fn lemma_score_sum_by_arrivals(cars1: Seq<Car>, cars2: Seq<Car>, seconds: int, bonus: int)
    requires
        cars1.len() == cars2.len(),
        forall|i: int|
            0 <= i < cars1.len() ==> (#[trigger] cars1[i]).destination_reached_at == (
            #[trigger] cars2[i]).destination_reached_at,
    ensures
        score_sum(cars1, seconds, bonus) == score_sum(cars2, seconds, bonus),
    decreases cars1.len(),
{
    if cars1.len() > 0 {
        assert(forall|i: int|
            0 <= i < cars1.drop_first().len() ==> #[trigger] cars1.drop_first()[i] == cars1[i
                + 1] && #[trigger] cars2.drop_first()[i] == cars2[i + 1]);
        lemma_score_sum_by_arrivals(cars1.drop_first(), cars2.drop_first(), seconds, bonus);
    }
}

proof fn lemma_score_sum_mono(cars: Seq<Car>, seconds: int, b1: int, b2: int)
    requires
        b1 <= b2,
    ensures
        score_sum(cars, seconds, b1) <= score_sum(cars, seconds, b2),
    decreases cars.len(),
{
    if cars.len() > 0 {
        lemma_score_sum_mono(cars.drop_first(), seconds, b1, b2);
    }
}

} // verus!
