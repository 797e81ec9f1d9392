//! The simulation engine: a discrete-time state machine that advances
//! every car through the network one second at a time under a fixed
//! schedule.
//!
//! Each second has three passes. First, per intersection, at most one
//! waiting car of the currently green street crosses: it either moves on
//! to the next street of its route (recorded as pending until the
//! decrement pass is over, so that its fresh countdown is not decremented
//! in the same second) or, if the green street was its last, it arrives.
//! Second, every remaining positive countdown is decremented by one.
//! Third, the pending cars are appended to their next streets' queues
//! with a fresh countdown.

use vstd::prelude::*;
use crate::model::CarModel;
use crate::model::Intersection;
use crate::model::Problem;
use crate::model::SimState;
use crate::model::SimulationError;
use crate::model::Solution;
use crate::model::StreetModel;
use crate::schedule::find_green_street;
use crate::schedule::green_street;

verus! {

/// The index of the first queue entry whose countdown is zero: the car,
/// if any, that is at the intersection and first in line to cross.
pub open spec fn first_waiting(queue: Seq<(usize, u32)>) -> Option<int>
    decreases queue.len(),
{
    if queue.len() == 0 {
        None
    } else if queue[0].1 == 0 {
        Some(0)
    } else {
        match first_waiting(queue.drop_first()) {
            Some(j) => Some(j + 1),
            None => None,
        }
    }
}

pub(crate) proof fn lemma_first_waiting(queue: Seq<(usize, u32)>)
    ensures
        match first_waiting(queue) {
            Some(j) => 0 <= j < queue.len() && queue[j].1 == 0 && forall|j2: int|
                0 <= j2 < j ==> (#[trigger] queue[j2]).1 != 0,
            None => forall|j2: int| 0 <= j2 < queue.len() ==> (#[trigger] queue[j2]).1 != 0,
        },
    decreases queue.len(),
{
    if queue.len() > 0 && queue[0].1 != 0 {
        lemma_first_waiting(queue.drop_first());
        assert(forall|j2: int|
            0 < j2 < queue.len() ==> #[trigger] queue[j2] == queue.drop_first()[j2 - 1]);
    }
}

/// One crossing attempt at one intersection: if the green street has a
/// waiting car, that car either moves to the back of the pending list
/// (bound for the next street of its route) or arrives. The boolean is
/// false when the waiting car's route state is inconsistent: its
/// position does not name the street it waits on, or the next street
/// does not resolve.
pub open spec fn cross_one(
    state: SimState,
    pending: Seq<(usize, usize)>,
    inter: Intersection,
    solution: Solution,
    time: u32,
) -> (SimState, Seq<(usize, usize)>, bool) {
    match green_street(solution, inter.id, time) {
        None => (state, pending, true),
        Some(s) => if s >= state.streets.len() {
            (state, pending, true)
        } else {
            let queue = state.streets[s as int].queue;
            match first_waiting(queue) {
                None => (state, pending, true),
                Some(j) => {
                    let c = queue[j].0;
                    if c >= state.cars.len() {
                        (state, pending, false)
                    } else {
                        let car = state.cars[c as int];
                        let street = state.streets[s as int];
                        if car.position >= car.path.len() || car.path[car.position as int] != s {
                            (state, pending, false)
                        } else if car.position + 1 < car.path.len() {
                            let ns = car.path[car.position as int + 1];
                            if ns >= state.streets.len() {
                                (state, pending, false)
                            } else {
                                let state1 = SimState {
                                    cars: state.cars.update(
                                        c as int,
                                        CarModel {
                                            id: car.id,
                                            path: car.path,
                                            position: (car.position + 1) as nat,
                                            arrived: car.arrived,
                                        },
                                    ),
                                    streets: state.streets.update(
                                        s as int,
                                        StreetModel {
                                            name: street.name,
                                            queue: queue.remove(j),
                                            time_to_travel: street.time_to_travel,
                                        },
                                    ),
                                };
                                (state1, pending.push((c, ns)), true)
                            }
                        } else {
                            let state1 = SimState {
                                cars: state.cars.update(
                                    c as int,
                                    CarModel {
                                        id: car.id,
                                        path: car.path,
                                        position: car.position,
                                        arrived: Some(time),
                                    },
                                ),
                                streets: state.streets.update(
                                    s as int,
                                    StreetModel {
                                        name: street.name,
                                        queue: queue.remove(j),
                                        time_to_travel: street.time_to_travel,
                                    },
                                ),
                            };
                            (state1, pending, true)
                        }
                    }
                },
            }
        },
    }
}

/// The crossing pass over a list of intersections, in order, threading
/// the state and the pending list; stops at the first inconsistency.
pub open spec fn cross_all(
    state: SimState,
    pending: Seq<(usize, usize)>,
    inters: Seq<Intersection>,
    solution: Solution,
    time: u32,
) -> (SimState, Seq<(usize, usize)>, bool)
    decreases inters.len(),
{
    if inters.len() == 0 {
        (state, pending, true)
    } else {
        let (state1, pending1, ok1) = cross_one(state, pending, inters[0], solution, time);
        if !ok1 {
            (state1, pending1, false)
        } else {
            cross_all(state1, pending1, inters.drop_first(), solution, time)
        }
    }
}

/// One queue entry after the decrement pass: a positive countdown loses
/// one second, a car already waiting at zero is unchanged.
pub open spec fn dec_entry(entry: (usize, u32)) -> (usize, u32) {
    if entry.1 > 0 {
        (entry.0, (entry.1 - 1) as u32)
    } else {
        entry
    }
}

/// A whole queue after the decrement pass.
pub open spec fn dec_queue_spec(queue: Seq<(usize, u32)>) -> Seq<(usize, u32)> {
    Seq::new(queue.len(), |i: int| dec_entry(queue[i]))
}

/// A street after the decrement pass.
pub open spec fn dec_street(street: StreetModel) -> StreetModel {
    StreetModel {
        name: street.name,
        queue: dec_queue_spec(street.queue),
        time_to_travel: street.time_to_travel,
    }
}

/// The whole state after the decrement pass.
pub open spec fn dec_state(state: SimState) -> SimState {
    SimState {
        cars: state.cars,
        streets: Seq::new(state.streets.len(), |i: int| dec_street(state.streets[i])),
    }
}

/// The release pass: every pending car is appended to its next street's
/// queue with a fresh countdown of that street's traversal time.
pub open spec fn release_pending(state: SimState, pending: Seq<(usize, usize)>) -> SimState
    decreases pending.len(),
{
    if pending.len() == 0 {
        state
    } else {
        let c = pending[0].0;
        let ns = pending[0].1;
        let state1 = if ns < state.streets.len() {
            SimState {
                cars: state.cars,
                streets: state.streets.update(
                    ns as int,
                    StreetModel {
                        name: state.streets[ns as int].name,
                        queue: state.streets[ns as int].queue.push(
                            (c, state.streets[ns as int].time_to_travel),
                        ),
                        time_to_travel: state.streets[ns as int].time_to_travel,
                    },
                ),
            }
        } else {
            state
        };
        release_pending(state1, pending.drop_first())
    }
}

/// One full second of simulated time, and whether it completed without
/// hitting an inconsistent route state.
pub open spec fn step_state(
    state: SimState,
    inters: Seq<Intersection>,
    solution: Solution,
    time: u32,
) -> (SimState, bool) {
    let (state1, pending, ok) = cross_all(state, Seq::empty(), inters, solution, time);
    if !ok {
        (state1, false)
    } else {
        (release_pending(dec_state(state1), pending), true)
    }
}

/// `steps` full seconds of simulated time, at times `0, 1, ...`; once a
/// step fails, the state it failed in is final.
pub open spec fn run_state(
    state: SimState,
    inters: Seq<Intersection>,
    solution: Solution,
    steps: nat,
) -> (SimState, bool)
    decreases steps,
{
    if steps == 0 {
        (state, true)
    } else {
        let (state1, ok1) = run_state(state, inters, solution, (steps - 1) as nat);
        if !ok1 {
            (state1, false)
        } else {
            step_state(state1, inters, solution, (steps - 1) as u32)
        }
    }
}

/// The release pass never touches the cars, only the street queues.
pub proof fn lemma_release_keeps_cars(state: SimState, pending: Seq<(usize, usize)>)
    ensures
        release_pending(state, pending).cars == state.cars,
        release_pending(state, pending).streets.len() == state.streets.len(),
    decreases pending.len(),
{
    if pending.len() > 0 {
        let c = pending[0].0;
        let ns = pending[0].1;
        let state1 = if ns < state.streets.len() {
            SimState {
                cars: state.cars,
                streets: state.streets.update(
                    ns as int,
                    StreetModel {
                        name: state.streets[ns as int].name,
                        queue: state.streets[ns as int].queue.push(
                            (c, state.streets[ns as int].time_to_travel),
                        ),
                        time_to_travel: state.streets[ns as int].time_to_travel,
                    },
                ),
            }
        } else {
            state
        };
        lemma_release_keeps_cars(state1, pending.drop_first());
    }
}

/// Decrement every positive countdown of one queue by one second.
fn dec_queue(queue: &mut Vec<(usize, u32)>)
    ensures
        final(queue)@ == dec_queue_spec(old(queue)@),
{
    let n = queue.len();
    let mut j: usize = 0;
    while j < n
        invariant
            j <= n,
            n == queue@.len(),
            queue@.len() == old(queue)@.len(),
            forall|i: int| j <= i < n ==> queue@[i] == old(queue)@[i],
            forall|i: int| 0 <= i < j ==> queue@[i] == dec_entry(old(queue)@[i]),
        decreases n - j,
    {
        let entry = queue[j];
        if entry.1 > 0 {
            queue[j] = (entry.0, entry.1 - 1);
        }
        j = j + 1;
    }
    proof {
        assert(queue@ =~= dec_queue_spec(old(queue)@));
    }
}

/// Advance the whole problem by one second of simulated time `time`:
/// the crossing pass over all intersections, then the decrement pass,
/// then the release pass. Returns `InconsistentPathState`, leaving the
/// crossing pass where it stood, exactly when the step specification
/// reports an inconsistent route state.
pub fn simulate_step(problem: &mut Problem, solution: &Solution, time: u32) -> (result: Result<
    (),
    SimulationError,
>)
    ensures
        final(problem).amount_of_seconds == old(problem).amount_of_seconds,
        final(problem).bonus_points == old(problem).bonus_points,
        final(problem).intersections == old(problem).intersections,
        ({
            let (state2, ok) = step_state(
                old(problem).sim_state(),
                old(problem).intersections@,
                *solution,
                time,
            );
            final(problem).sim_state() == state2 && (result is Ok <==> ok)
        }),
{
    let ghost state0 = problem.sim_state();
    let ghost gints = problem.intersections@;
    let mut pending: Vec<(usize, usize)> = Vec::new();
    let n_inters = problem.intersections.len();
    proof {
        assert(gints.skip(0) =~= gints);
    }
    // Crossing pass: at most one waiting car crosses per intersection.
    let mut k: usize = 0;
    while k < n_inters
        invariant
            k <= n_inters,
            n_inters == problem.intersections@.len(),
            problem.intersections@ == gints,
            problem.amount_of_seconds == old(problem).amount_of_seconds,
            problem.bonus_points == old(problem).bonus_points,
            problem.intersections == old(problem).intersections,
            state0 == old(problem).sim_state(),
            cross_all(state0, Seq::empty(), gints, *solution, time) == cross_all(
                problem.sim_state(),
                pending@,
                gints.skip(k as int),
                *solution,
                time,
            ),
        decreases n_inters - k,
    {
        let ghost pre = problem.sim_state();
        let ghost prepend = pending@;
        proof {
            assert(gints.skip(k as int)[0] == gints[k as int]);
            assert(gints.skip(k as int).drop_first() =~= gints.skip(k as int + 1));
        }
        match find_green_street(solution, &problem.intersections[k], time) {
            None => {},
            Some(s) => {
                if s < problem.streets.len() {
                    let ghost gqueue = pre.streets[s as int].queue;
                    let qlen = problem.streets[s].cars.len();
                    let mut j: usize = 0;
                    while j < qlen && problem.streets[s].cars[j].1 != 0
                        invariant
                            j <= qlen,
                            s < problem.streets@.len(),
                            qlen == problem.streets@[s as int].cars@.len(),
                            gqueue == problem.streets@[s as int].cars@,
                            forall|j2: int| 0 <= j2 < j ==> (#[trigger] gqueue[j2]).1 != 0,
                        decreases qlen - j,
                    {
                        j = j + 1;
                    }
                    proof {
                        lemma_first_waiting(gqueue);
                        assert(pre.streets[s as int] == problem.streets@[s as int]@);
                        if j < qlen {
                            assert(first_waiting(gqueue) == Some(j as int));
                        } else {
                            assert(first_waiting(gqueue) is None);
                        }
                    }
                    if j < qlen {
                        let c = problem.streets[s].cars[j].0;
                        if c >= problem.cars.len() {
                            proof {
                                assert(cross_all(
                                    problem.sim_state(),
                                    pending@,
                                    gints.skip(k as int),
                                    *solution,
                                    time,
                                ) == (problem.sim_state(), pending@, false));
                            }
                            return Err(SimulationError::InconsistentPathState);
                        }
                        let pos = problem.cars[c].path_position;
                        let plen = problem.cars[c].path_to_take.len();
                        if pos >= plen || problem.cars[c].path_to_take[pos] != s {
                            proof {
                                assert(cross_all(
                                    problem.sim_state(),
                                    pending@,
                                    gints.skip(k as int),
                                    *solution,
                                    time,
                                ) == (problem.sim_state(), pending@, false));
                            }
                            return Err(SimulationError::InconsistentPathState);
                        }
                        let ghost car0 = pre.cars[c as int];
                        let ghost street0 = pre.streets[s as int];
                        if pos + 1 < plen {
                            let ns = problem.cars[c].path_to_take[pos + 1];
                            if ns >= problem.streets.len() {
                                proof {
                                    assert(cross_all(
                                        problem.sim_state(),
                                        pending@,
                                        gints.skip(k as int),
                                        *solution,
                                        time,
                                    ) == (problem.sim_state(), pending@, false));
                                }
                                return Err(SimulationError::InconsistentPathState);
                            }
                            problem.cars[c].path_position = pos + 1;
                            problem.streets[s].cars.remove(j);
                            pending.push((c, ns));
                            proof {
                                let car1 = CarModel {
                                    id: car0.id,
                                    path: car0.path,
                                    position: (car0.position + 1) as nat,
                                    arrived: car0.arrived,
                                };
                                let street1 = StreetModel {
                                    name: street0.name,
                                    queue: gqueue.remove(j as int),
                                    time_to_travel: street0.time_to_travel,
                                };
                                assert(problem.sim_state().cars =~= pre.cars.update(
                                    c as int,
                                    car1,
                                ));
                                assert(problem.sim_state().streets =~= pre.streets.update(
                                    s as int,
                                    street1,
                                ));
                                assert(cross_one(pre, prepend, gints[k as int], *solution, time)
                                    == (problem.sim_state(), pending@, true));
                            }
                        } else {
                            problem.cars[c].destination_reached_at = Some(time);
                            problem.streets[s].cars.remove(j);
                            proof {
                                let car1 = CarModel {
                                    id: car0.id,
                                    path: car0.path,
                                    position: car0.position,
                                    arrived: Some(time),
                                };
                                let street1 = StreetModel {
                                    name: street0.name,
                                    queue: gqueue.remove(j as int),
                                    time_to_travel: street0.time_to_travel,
                                };
                                assert(problem.sim_state().cars =~= pre.cars.update(
                                    c as int,
                                    car1,
                                ));
                                assert(problem.sim_state().streets =~= pre.streets.update(
                                    s as int,
                                    street1,
                                ));
                                assert(cross_one(pre, prepend, gints[k as int], *solution, time)
                                    == (problem.sim_state(), pending@, true));
                            }
                        }
                    }
                }
            },
        }
        k = k + 1;
    }
    proof {
        assert(gints.skip(n_inters as int) =~= Seq::<Intersection>::empty());
    }
    let ghost crossed = problem.sim_state();
    let ghost gpending = pending@;
    proof {
        assert(cross_all(state0, Seq::empty(), gints, *solution, time) == (
            crossed,
            gpending,
            true,
        ));
    }
    // Decrement pass: every positive countdown loses one second.
    let n_streets = problem.streets.len();
    let mut si: usize = 0;
    while si < n_streets
        invariant
            si <= n_streets,
            n_streets == problem.streets@.len(),
            problem.intersections == old(problem).intersections,
            problem.amount_of_seconds == old(problem).amount_of_seconds,
            problem.bonus_points == old(problem).bonus_points,
            crossed.streets.len() == n_streets,
            crossed.cars == problem.sim_state().cars,
            forall|i: int|
                0 <= i < si ==> problem.sim_state().streets[i] == dec_street(
                    #[trigger] crossed.streets[i],
                ),
            forall|i: int|
                si <= i < n_streets ==> problem.sim_state().streets[i] == #[trigger] crossed
                    .streets[i],
        decreases n_streets - si,
    {
        dec_queue(&mut problem.streets[si].cars);
        si = si + 1;
    }
    proof {
        assert(problem.sim_state().streets =~= dec_state(crossed).streets);
        assert(problem.sim_state() == dec_state(crossed));
    }
    // Release pass: pending cars join their next streets' queues.
    let ghost decd = problem.sim_state();
    let n_pending = pending.len();
    let mut pi: usize = 0;
    proof {
        assert(gpending.skip(0) =~= gpending);
    }
    while pi < n_pending
        invariant
            pi <= n_pending,
            n_pending == pending@.len(),
            pending@ == gpending,
            problem.intersections == old(problem).intersections,
            problem.amount_of_seconds == old(problem).amount_of_seconds,
            problem.bonus_points == old(problem).bonus_points,
            release_pending(decd, gpending) == release_pending(
                problem.sim_state(),
                gpending.skip(pi as int),
            ),
        decreases n_pending - pi,
    {
        let ghost pre = problem.sim_state();
        proof {
            assert(gpending.skip(pi as int)[0] == gpending[pi as int]);
            assert(gpending.skip(pi as int).drop_first() =~= gpending.skip(pi as int + 1));
        }
        let c = pending[pi].0;
        let ns = pending[pi].1;
        if ns < problem.streets.len() {
            let fresh = problem.streets[ns].time_to_travel;
            problem.streets[ns].cars.push((c, fresh));
            proof {
                let street1 = StreetModel {
                    name: pre.streets[ns as int].name,
                    queue: pre.streets[ns as int].queue.push((c, fresh)),
                    time_to_travel: pre.streets[ns as int].time_to_travel,
                };
                assert(problem.sim_state().cars =~= pre.cars);
                assert(problem.sim_state().streets =~= pre.streets.update(ns as int, street1));
            }
        }
        pi = pi + 1;
    }
    proof {
        assert(gpending.skip(n_pending as int) =~= Seq::<(usize, usize)>::empty());
    }
    Ok(())
}

/// Law: the simulation is deterministic. Two problems with equal
/// simulation states, equal intersections and equal horizons end a run
/// under one fixed schedule in the same final state, with the same
/// outcome — in particular with identical arrival timestamps, which the
/// final state carries.
pub proof fn lemma_simulate_deterministic(p1: Problem, p2: Problem, solution: Solution)
    requires
        p1.sim_state() == p2.sim_state(),
        p1.intersections@ == p2.intersections@,
        p1.amount_of_seconds == p2.amount_of_seconds,
    ensures
        run_state(p1.sim_state(), p1.intersections@, solution, p1.amount_of_seconds as nat)
            == run_state(
            p2.sim_state(),
            p2.intersections@,
            solution,
            p2.amount_of_seconds as nat,
        ),
{
}

proof fn lemma_run_fail_sticks(
    state: SimState,
    inters: Seq<Intersection>,
    solution: Solution,
    t1: nat,
    t2: nat,
)
    requires
        t1 <= t2,
        !run_state(state, inters, solution, t1).1,
    ensures
        run_state(state, inters, solution, t2) == run_state(state, inters, solution, t1),
    decreases t2 - t1,
{
    if t2 > t1 {
        lemma_run_fail_sticks(state, inters, solution, t1, (t2 - 1) as nat);
    }
}

/// Run the whole simulation: one step per second, at times
/// `0 .. amount_of_seconds - 1`, mutating the car arrival timestamps and
/// the street queues in place. Returns `InconsistentPathState`, leaving
/// the state where the failing step left it, exactly when some step's
/// specification reports an inconsistent route state.
pub fn simulate(problem: &mut Problem, solution: &Solution) -> (result: Result<
    (),
    SimulationError,
>)
    ensures
        final(problem).amount_of_seconds == old(problem).amount_of_seconds,
        final(problem).bonus_points == old(problem).bonus_points,
        final(problem).intersections == old(problem).intersections,
        ({
            let (state2, ok) = run_state(
                old(problem).sim_state(),
                old(problem).intersections@,
                *solution,
                old(problem).amount_of_seconds as nat,
            );
            final(problem).sim_state() == state2 && (result is Ok <==> ok)
        }),
{
    let ghost state0 = problem.sim_state();
    let ghost gints = problem.intersections@;
    let seconds = problem.amount_of_seconds;
    let mut t: u32 = 0;
    while t < seconds
        invariant
            t <= seconds,
            seconds == old(problem).amount_of_seconds,
            problem.amount_of_seconds == old(problem).amount_of_seconds,
            problem.bonus_points == old(problem).bonus_points,
            problem.intersections == old(problem).intersections,
            problem.intersections@ == gints,
            state0 == old(problem).sim_state(),
            run_state(state0, gints, *solution, t as nat) == (problem.sim_state(), true),
        decreases seconds - t,
    {
        let step_result = simulate_step(problem, solution, t);
        match step_result {
            Ok(()) => {},
            Err(e) => {
                proof {
                    assert(run_state(state0, gints, *solution, (t + 1) as nat) == (
                        problem.sim_state(),
                        false,
                    ));
                    lemma_run_fail_sticks(
                        state0,
                        gints,
                        *solution,
                        (t + 1) as nat,
                        seconds as nat,
                    );
                }
                return Err(e);
            },
        }
        t = t + 1;
    }
    Ok(())
}

} // verus!
