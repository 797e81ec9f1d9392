//! Laws of the simulation: bounds on arrival timestamps and
//! conservation of cars across the steps.

use vstd::prelude::*;
use crate::model::CarModel;
use crate::model::Intersection;
use crate::model::SimState;
use crate::model::Solution;
use crate::model::StreetModel;
use crate::schedule::green_street;
use crate::sim::cross_all;
use crate::sim::cross_one;
use crate::sim::dec_state;
use crate::sim::first_waiting;
use crate::sim::release_pending;
use crate::sim::run_state;
use crate::sim::step_state;

verus! {

/// The number of queue entries over all streets: the cars that are
/// somewhere on the road network.
pub open spec fn total_queued(streets: Seq<StreetModel>) -> nat
    decreases streets.len(),
{
    if streets.len() == 0 {
        0
    } else {
        streets[0].queue.len() + total_queued(streets.drop_first())
    }
}

/// The number of cars that have reached their destination.
pub open spec fn arrived_count(cars: Seq<CarModel>) -> nat
    decreases cars.len(),
{
    if cars.len() == 0 {
        0
    } else {
        (if cars[0].arrived is Some {
            1nat
        } else {
            0nat
        }) + arrived_count(cars.drop_first())
    }
}

/// Every queue entry names an existing, not yet arrived car whose route
/// position names exactly the street it queues on.
pub open spec fn entries_wf(state: SimState) -> bool {
    forall|s: int, j: int|
        0 <= s < state.streets.len() && 0 <= j < state.streets[s].queue.len() ==> {
            let c = (#[trigger] state.streets[s].queue[j]).0 as int;
            &&& c < state.cars.len()
            &&& state.cars[c].arrived is None
            &&& state.cars[c].position < state.cars[c].path.len()
            &&& state.cars[c].path[state.cars[c].position as int] == s as usize
        }
}

/// No car occupies two queue slots at once.
pub open spec fn entries_injective(state: SimState) -> bool {
    forall|sa: int, ja: int, sb: int, jb: int|
        0 <= sa < state.streets.len() && 0 <= ja < state.streets[sa].queue.len() && 0 <= sb
            < state.streets.len() && 0 <= jb < state.streets[sb].queue.len() && (
        #[trigger] state.streets[sa].queue[ja]).0 == (#[trigger] state.streets[sb].queue[jb]).0
            ==> sa == sb && ja == jb
}

/// Every street index of every route resolves.
pub open spec fn paths_ok(state: SimState) -> bool {
    forall|c: int, j: int|
        0 <= c < state.cars.len() && 0 <= j < state.cars[c].path.len() ==> (
        #[trigger] state.cars[c].path[j]) < state.streets.len()
}

/// A well-formed simulation state: the invariant that validated
/// problems start in and that every step preserves.
pub open spec fn state_wf(state: SimState) -> bool {
    entries_wf(state) && entries_injective(state) && paths_ok(state)
}

/// What holds of the pending list in the middle of the crossing pass:
/// each pending car exists, has not arrived, and its route position
/// names the street it is bound for; no car is pending twice; and no
/// pending car still occupies a queue slot.
pub open spec fn pending_wf(state: SimState, pending: Seq<(usize, usize)>) -> bool {
    &&& forall|i: int|
        0 <= i < pending.len() ==> {
            let c = (#[trigger] pending[i]).0 as int;
            let ns = pending[i].1;
            &&& c < state.cars.len()
            &&& ns < state.streets.len()
            &&& state.cars[c].arrived is None
            &&& state.cars[c].position < state.cars[c].path.len()
            &&& state.cars[c].path[state.cars[c].position as int] == ns
        }
    &&& forall|i1: int, i2: int|
        0 <= i1 < i2 < pending.len() ==> (#[trigger] pending[i1]).0 != (#[trigger] pending[i2]).0
    &&& forall|i: int, s: int, j: int|
        0 <= i < pending.len() && 0 <= s < state.streets.len() && 0 <= j
            < state.streets[s].queue.len() ==> (#[trigger] state.streets[s].queue[j]).0 != (
        #[trigger] pending[i]).0
}

proof fn lemma_total_queued_update(streets: Seq<StreetModel>, s: int, street1: StreetModel)
    requires
        0 <= s < streets.len(),
    ensures
        total_queued(streets.update(s, street1)) + streets[s].queue.len() == total_queued(streets)
            + street1.queue.len(),
    decreases streets.len(),
{
    if s == 0 {
        assert(streets.update(0, street1).drop_first() =~= streets.drop_first());
        assert(streets.update(0, street1)[0] == street1);
    } else {
        assert(streets.update(s, street1).drop_first() =~= streets.drop_first().update(
            s - 1,
            street1,
        ));
        assert(streets.update(s, street1)[0] == streets[0]);
        lemma_total_queued_update(streets.drop_first(), s - 1, street1);
    }
}

proof fn lemma_arrived_count_update(cars: Seq<CarModel>, c: int, car1: CarModel)
    requires
        0 <= c < cars.len(),
    ensures
        arrived_count(cars.update(c, car1)) + (if cars[c].arrived is Some {
            1nat
        } else {
            0nat
        }) == arrived_count(cars) + (if car1.arrived is Some {
            1nat
        } else {
            0nat
        }),
    decreases cars.len(),
{
    if c == 0 {
        assert(cars.update(0, car1).drop_first() =~= cars.drop_first());
        assert(cars.update(0, car1)[0] == car1);
    } else {
        assert(cars.update(c, car1).drop_first() =~= cars.drop_first().update(c - 1, car1));
        assert(cars.update(c, car1)[0] == cars[0]);
        lemma_arrived_count_update(cars.drop_first(), c - 1, car1);
    }
}

proof fn lemma_total_queued_pointwise(s1: Seq<StreetModel>, s2: Seq<StreetModel>)
    requires
        s1.len() == s2.len(),
        forall|i: int|
            0 <= i < s1.len() ==> (#[trigger] s2[i]).queue.len() == (#[trigger] s1[i]).queue.len(),
    ensures
        total_queued(s2) == total_queued(s1),
    decreases s1.len(),
{
    if s1.len() > 0 {
        assert(forall|i: int|
            0 <= i < s1.drop_first().len() ==> #[trigger] s1.drop_first()[i] == s1[i + 1]
                && #[trigger] s2.drop_first()[i] == s2[i + 1]);
        lemma_total_queued_pointwise(s1.drop_first(), s2.drop_first());
    }
}

/// The number of cars whose route is non-empty: the cars that the
/// validated constructor places on a street.
pub(crate) open spec fn placed_count(cars: Seq<crate::model::Car>) -> nat
    decreases cars.len(),
{
    if cars.len() == 0 {
        0
    } else {
        placed_count(cars.drop_last()) + (if cars[cars.len() - 1].path_to_take@.len() > 0 {
            1nat
        } else {
            0nat
        })
    }
}

proof fn lemma_total_queued_empty(streets: Seq<StreetModel>)
    requires
        forall|s: int| 0 <= s < streets.len() ==> (#[trigger] streets[s]).queue.len() == 0,
    ensures
        total_queued(streets) == 0,
    decreases streets.len(),
{
    if streets.len() > 0 {
        assert(forall|s: int|
            0 <= s < streets.drop_first().len() ==> #[trigger] streets.drop_first()[s]
                == streets[s + 1]);
        lemma_total_queued_empty(streets.drop_first());
    }
}

proof fn lemma_arrived_count_drop_last(cars: Seq<CarModel>)
    requires
        cars.len() > 0,
    ensures
        arrived_count(cars) == arrived_count(cars.drop_last()) + (if cars[cars.len()
            - 1].arrived is Some {
            1nat
        } else {
            0nat
        }),
    decreases cars.len(),
{
    if cars.len() > 1 {
        lemma_arrived_count_drop_last(cars.drop_first());
        assert(cars.drop_first().drop_last() =~= cars.drop_last().drop_first());
        assert(cars.drop_last()[0] == cars[0]);
        assert(cars.drop_first()[cars.drop_first().len() - 1] == cars[cars.len() - 1]);
    } else {
        assert(cars.drop_last() =~= Seq::<CarModel>::empty());
        assert(cars.drop_first() =~= Seq::<CarModel>::empty());
    }
}

/// The streets filled by the validated constructor hold exactly the
/// cars with a non-empty route, one queue slot each.
pub(crate) proof fn lemma_initial_total_queued(cars: Seq<crate::model::Car>, streets: Seq<StreetModel>)
    requires
        cars.len() <= usize::MAX,
        streets.len() <= usize::MAX,
        forall|s: int|
            0 <= s < streets.len() ==> (#[trigger] streets[s]).queue == crate::model::initial_queue(
                cars,
                s as usize,
            ),
        forall|c: int|
            0 <= c < cars.len() && (#[trigger] cars[c]).path_to_take@.len() > 0
                ==> cars[c].path_to_take@[0] < streets.len(),
    ensures
        total_queued(streets) == placed_count(cars),
    decreases cars.len(),
{
    if cars.len() == 0 {
        assert(forall|s: int|
            0 <= s < streets.len() ==> (#[trigger] streets[s]).queue.len() == 0);
        lemma_total_queued_empty(streets);
    } else {
        let prev = Seq::new(
            streets.len(),
            |i: int|
                StreetModel {
                    name: streets[i].name,
                    queue: crate::model::initial_queue(cars.drop_last(), i as usize),
                    time_to_travel: streets[i].time_to_travel,
                },
        );
        assert(forall|i: int|
            0 <= i < cars.len() - 1 ==> #[trigger] cars.drop_last()[i] == cars[i]);
        lemma_initial_total_queued(cars.drop_last(), prev);
        let c: int = cars.len() - 1;
        if cars[c].path_to_take@.len() > 0 {
            let s0 = cars[c].path_to_take@[0];
            assert((s0 as int) < streets.len());
            assert forall|s: int| 0 <= s < streets.len() && s != s0 implies (
            #[trigger] streets[s]).queue == prev[s].queue by {
                assert(crate::model::initial_queue(cars, s as usize)
                    == crate::model::initial_queue(cars.drop_last(), s as usize));
            }
            assert(streets[s0 as int].queue == prev[s0 as int].queue.push((c as usize, 0u32)));
            assert(streets =~= prev.update(s0 as int, streets[s0 as int]));
            lemma_total_queued_update(prev, s0 as int, streets[s0 as int]);
        } else {
            assert forall|s: int| 0 <= s < streets.len() implies (#[trigger] streets[s]).queue
                == prev[s].queue by {
                assert(crate::model::initial_queue(cars, s as usize)
                    == crate::model::initial_queue(cars.drop_last(), s as usize));
            }
            lemma_total_queued_pointwise(prev, streets);
        }
    }
}

/// The cars the validated constructor marks arrived are exactly those
/// with an empty route.
pub(crate) proof fn lemma_initial_arrived_count(carsm: Seq<CarModel>, cars: Seq<crate::model::Car>)
    requires
        carsm.len() == cars.len(),
        forall|i: int|
            0 <= i < cars.len() ==> ((#[trigger] carsm[i]).arrived is Some <==> (
            #[trigger] cars[i]).path_to_take@.len() == 0),
    ensures
        arrived_count(carsm) + placed_count(cars) == cars.len(),
    decreases cars.len(),
{
    if cars.len() > 0 {
        lemma_arrived_count_drop_last(carsm);
        assert(forall|i: int|
            0 <= i < cars.len() - 1 ==> #[trigger] cars.drop_last()[i] == cars[i]
                && #[trigger] carsm.drop_last()[i] == carsm[i]);
        lemma_initial_arrived_count(carsm.drop_last(), cars.drop_last());
    }
}

proof fn lemma_cross_one_wf(
    state: SimState,
    pending: Seq<(usize, usize)>,
    inter: Intersection,
    solution: Solution,
    time: u32,
)
    requires
        state_wf(state),
        pending_wf(state, pending),
    ensures
        ({
            let (state1, pending1, ok) = cross_one(state, pending, inter, solution, time);
            &&& ok
            &&& state_wf(state1)
            &&& pending_wf(state1, pending1)
            &&& state1.cars.len() == state.cars.len()
            &&& state1.streets.len() == state.streets.len()
            &&& total_queued(state1.streets) + pending1.len() + arrived_count(state1.cars)
                == total_queued(state.streets) + pending.len() + arrived_count(state.cars)
            &&& forall|c: int|
                0 <= c < state.cars.len() && (#[trigger] state.cars[c]).arrived is Some
                    ==> state1.cars[c] == state.cars[c]
        }),
{
    match green_street(solution, inter.id, time) {
        None => {},
        Some(s) => {
            if s < state.streets.len() {
                let queue = state.streets[s as int].queue;
                crate::sim::lemma_first_waiting(queue);
                match first_waiting(queue) {
                    None => {},
                    Some(j) => {
                        let c = queue[j].0;
                        assert((c as int) < state.cars.len() && state.cars[c as int].arrived
                            is None && state.cars[c as int].position < state.cars[
                            c as int].path.len() && state.cars[c as int].path[state.cars[
                            c as int].position as int] == s);
                        let car = state.cars[c as int];
                        let street = state.streets[s as int];
                        let newqueue = queue.remove(j);
                        assert(forall|i: int| 0 <= i < j ==> newqueue[i] == queue[i]);
                        assert(forall|i: int|
                            j <= i < newqueue.len() ==> newqueue[i] == queue[i + 1]);
                        // The crossed car sits in no other queue slot.
                        assert(forall|s2: int, j2: int|
                            0 <= s2 < state.streets.len() && 0 <= j2 < state.streets[
                            s2].queue.len() && !(s2 == s && j2 == j) ==> (
                            #[trigger] state.streets[s2].queue[j2]).0 != c);
                        if car.position + 1 < car.path.len() {
                            let ns = car.path[car.position as int + 1];
                            assert(ns < state.streets.len());
                            let car1 = CarModel {
                                id: car.id,
                                path: car.path,
                                position: (car.position + 1) as nat,
                                arrived: car.arrived,
                            };
                            let street1 = StreetModel {
                                name: street.name,
                                queue: newqueue,
                                time_to_travel: street.time_to_travel,
                            };
                            let state1 = SimState {
                                cars: state.cars.update(c as int, car1),
                                streets: state.streets.update(s as int, street1),
                            };
                            let pending1 = pending.push((c, ns));
                            lemma_total_queued_update(state.streets, s as int, street1);
                            lemma_arrived_count_update(state.cars, c as int, car1);
                            assert(entries_wf(state1)) by {
                                assert(forall|s2: int, j2: int|
                                    0 <= s2 < state1.streets.len() && 0 <= j2 < state1.streets[
                                    s2].queue.len() ==> (#[trigger] state1.streets[s2].queue[
                                    j2]).0 != c && (if s2 == s {
                                        state1.streets[s2].queue[j2] == state.streets[s2].queue[
                                        (if j2 < j {
                                            j2
                                        } else {
                                            j2 + 1
                                        })]
                                    } else {
                                        state1.streets[s2].queue[j2] == state.streets[s2].queue[j2]
                                    }));
                            }
                            assert(entries_injective(state1)) by {
                                assert forall|sa: int, ja: int, sb: int, jb: int|
                                    0 <= sa < state1.streets.len() && 0 <= ja < state1.streets[
                                    sa].queue.len() && 0 <= sb < state1.streets.len() && 0 <= jb
                                    < state1.streets[sb].queue.len() && (
                                #[trigger] state1.streets[sa].queue[ja]).0 == (
                                #[trigger] state1.streets[sb].queue[jb]).0 implies sa == sb && ja
                                    == jb by {
                                    let oja: int = if sa == s && ja >= j {
                                        ja + 1
                                    } else {
                                        ja
                                    };
                                    let ojb: int = if sb == s && jb >= j {
                                        jb + 1
                                    } else {
                                        jb
                                    };
                                    assert(state1.streets[sa].queue[ja] == state.streets[
                                    sa].queue[oja]);
                                    assert(state1.streets[sb].queue[jb] == state.streets[
                                    sb].queue[ojb]);
                                }
                            }
                            assert(pending_wf(state1, pending1)) by {
                                assert(forall|i: int|
                                    0 <= i < pending.len() ==> (#[trigger] pending1[i])
                                        == pending[i] && pending[i].0 != c);
                                assert(pending1[pending.len() as int] == (c, ns));
                                assert(car1.path[car1.position as int] == ns);
                            }
                        } else {
                            let car1 = CarModel {
                                id: car.id,
                                path: car.path,
                                position: car.position,
                                arrived: Some(time),
                            };
                            let street1 = StreetModel {
                                name: street.name,
                                queue: newqueue,
                                time_to_travel: street.time_to_travel,
                            };
                            let state1 = SimState {
                                cars: state.cars.update(c as int, car1),
                                streets: state.streets.update(s as int, street1),
                            };
                            lemma_total_queued_update(state.streets, s as int, street1);
                            lemma_arrived_count_update(state.cars, c as int, car1);
                            assert(entries_wf(state1)) by {
                                assert(forall|s2: int, j2: int|
                                    0 <= s2 < state1.streets.len() && 0 <= j2 < state1.streets[
                                    s2].queue.len() ==> (#[trigger] state1.streets[s2].queue[
                                    j2]).0 != c && (if s2 == s {
                                        state1.streets[s2].queue[j2] == state.streets[s2].queue[
                                        (if j2 < j {
                                            j2
                                        } else {
                                            j2 + 1
                                        })]
                                    } else {
                                        state1.streets[s2].queue[j2] == state.streets[s2].queue[j2]
                                    }));
                            }
                            assert(entries_injective(state1)) by {
                                assert forall|sa: int, ja: int, sb: int, jb: int|
                                    0 <= sa < state1.streets.len() && 0 <= ja < state1.streets[
                                    sa].queue.len() && 0 <= sb < state1.streets.len() && 0 <= jb
                                    < state1.streets[sb].queue.len() && (
                                #[trigger] state1.streets[sa].queue[ja]).0 == (
                                #[trigger] state1.streets[sb].queue[jb]).0 implies sa == sb && ja
                                    == jb by {
                                    let oja: int = if sa == s && ja >= j {
                                        ja + 1
                                    } else {
                                        ja
                                    };
                                    let ojb: int = if sb == s && jb >= j {
                                        jb + 1
                                    } else {
                                        jb
                                    };
                                    assert(state1.streets[sa].queue[ja] == state.streets[
                                    sa].queue[oja]);
                                    assert(state1.streets[sb].queue[jb] == state.streets[
                                    sb].queue[ojb]);
                                }
                            }
                            assert(pending_wf(state1, pending)) by {
                                assert(forall|i: int|
                                    0 <= i < pending.len() ==> (#[trigger] pending[i]).0 != c);
                            }
                        }
                    },
                }
            }
        },
    }
}

proof fn lemma_cross_all_wf(
    state: SimState,
    pending: Seq<(usize, usize)>,
    inters: Seq<Intersection>,
    solution: Solution,
    time: u32,
)
    requires
        state_wf(state),
        pending_wf(state, pending),
    ensures
        ({
            let (state1, pending1, ok) = cross_all(state, pending, inters, solution, time);
            &&& ok
            &&& state_wf(state1)
            &&& pending_wf(state1, pending1)
            &&& state1.cars.len() == state.cars.len()
            &&& state1.streets.len() == state.streets.len()
            &&& total_queued(state1.streets) + pending1.len() + arrived_count(state1.cars)
                == total_queued(state.streets) + pending.len() + arrived_count(state.cars)
            &&& forall|c: int|
                0 <= c < state.cars.len() && (#[trigger] state.cars[c]).arrived is Some
                    ==> state1.cars[c] == state.cars[c]
        }),
    decreases inters.len(),
{
    if inters.len() > 0 {
        lemma_cross_one_wf(state, pending, inters[0], solution, time);
        let (state1, pending1, ok1) = cross_one(state, pending, inters[0], solution, time);
        lemma_cross_all_wf(state1, pending1, inters.drop_first(), solution, time);
    }
}

proof fn lemma_dec_state_wf(state: SimState, pending: Seq<(usize, usize)>)
    requires
        state_wf(state),
        pending_wf(state, pending),
    ensures
        state_wf(dec_state(state)),
        pending_wf(dec_state(state), pending),
        dec_state(state).cars == state.cars,
        dec_state(state).streets.len() == state.streets.len(),
        total_queued(dec_state(state).streets) == total_queued(state.streets),
{
    let state2 = dec_state(state);
    assert(forall|s: int, j: int|
        0 <= s < state2.streets.len() && 0 <= j < state2.streets[s].queue.len() ==> (
        #[trigger] state2.streets[s].queue[j]).0 == state.streets[s].queue[j].0);
    lemma_total_queued_pointwise(state.streets, state2.streets);
}

proof fn lemma_release_wf(state: SimState, pending: Seq<(usize, usize)>)
    requires
        state_wf(state),
        pending_wf(state, pending),
    ensures
        ({
            let state2 = release_pending(state, pending);
            &&& state_wf(state2)
            &&& state2.cars == state.cars
            &&& state2.streets.len() == state.streets.len()
            &&& total_queued(state2.streets) == total_queued(state.streets) + pending.len()
        }),
    decreases pending.len(),
{
    if pending.len() > 0 {
        let c = pending[0].0;
        let ns = pending[0].1;
        assert(ns < state.streets.len());
        let entry = (c, state.streets[ns as int].time_to_travel);
        let street1 = StreetModel {
            name: state.streets[ns as int].name,
            queue: state.streets[ns as int].queue.push(entry),
            time_to_travel: state.streets[ns as int].time_to_travel,
        };
        let state1 = SimState {
            cars: state.cars,
            streets: state.streets.update(ns as int, street1),
        };
        lemma_total_queued_update(state.streets, ns as int, street1);
        let oldq = state.streets[ns as int].queue;
        assert(forall|i: int| 0 <= i < oldq.len() ==> street1.queue[i] == oldq[i]);
        assert(street1.queue[oldq.len() as int] == entry);
        assert(entries_wf(state1)) by {
            assert(forall|s2: int, j2: int|
                0 <= s2 < state1.streets.len() && 0 <= j2 < state1.streets[s2].queue.len() && !(s2
                    == ns && j2 == oldq.len()) ==> (#[trigger] state1.streets[s2].queue[j2])
                    == state.streets[s2].queue[j2]);
        }
        assert(entries_injective(state1)) by {
            assert forall|sa: int, ja: int, sb: int, jb: int|
                0 <= sa < state1.streets.len() && 0 <= ja < state1.streets[sa].queue.len() && 0
                    <= sb < state1.streets.len() && 0 <= jb < state1.streets[sb].queue.len() && (
            #[trigger] state1.streets[sa].queue[ja]).0 == (#[trigger] state1.streets[sb].queue[
            jb]).0 implies sa == sb && ja == jb by {
                if sa == ns && ja == oldq.len() {
                    if !(sb == ns && jb == oldq.len()) {
                        assert(state1.streets[sb].queue[jb] == state.streets[sb].queue[jb]);
                        assert(state.streets[sb].queue[jb].0 != c);
                    }
                } else if sb == ns && jb == oldq.len() {
                    assert(state1.streets[sa].queue[ja] == state.streets[sa].queue[ja]);
                    assert(state.streets[sa].queue[ja].0 != c);
                } else {
                    assert(state1.streets[sa].queue[ja] == state.streets[sa].queue[ja]);
                    assert(state1.streets[sb].queue[jb] == state.streets[sb].queue[jb]);
                }
            }
        }
        assert(pending_wf(state1, pending.drop_first())) by {
            assert(forall|i: int|
                0 <= i < pending.drop_first().len() ==> #[trigger] pending.drop_first()[i]
                    == pending[i + 1]);
            assert(forall|i: int|
                0 <= i < pending.drop_first().len() ==> pending.drop_first()[i].0 != c);
        }
        lemma_release_wf(state1, pending.drop_first());
    }
}

/// Law: one step of the simulation, from a well-formed state, succeeds,
/// keeps the state well-formed, never unsets or changes an arrival
/// already recorded — each car's timestamp is set at most once — and
/// conserves the fleet: the cars on the streets plus the cars arrived
/// are exactly as many as before.
pub proof fn lemma_step_conserves_cars(
    state: SimState,
    inters: Seq<Intersection>,
    solution: Solution,
    time: u32,
)
    requires
        state_wf(state),
    ensures
        ({
            let (state2, ok) = step_state(state, inters, solution, time);
            &&& ok
            &&& state_wf(state2)
            &&& state2.cars.len() == state.cars.len()
            &&& total_queued(state2.streets) + arrived_count(state2.cars) == total_queued(
                state.streets,
            ) + arrived_count(state.cars)
            &&& forall|c: int|
                0 <= c < state.cars.len() && (#[trigger] state.cars[c]).arrived is Some
                    ==> state2.cars[c] == state.cars[c]
        }),
{
    let empty = Seq::<(usize, usize)>::empty();
    assert(pending_wf(state, empty));
    lemma_cross_all_wf(state, empty, inters, solution, time);
    let (state1, pending, ok) = cross_all(state, empty, inters, solution, time);
    lemma_dec_state_wf(state1, pending);
    lemma_release_wf(dec_state(state1), pending);
}

/// Law: conservation over a whole run from a well-formed state — at
/// every step the cars on the streets plus the arrived cars add up to
/// the same fleet, the run never fails, and an arrival timestamp, once
/// set, is never changed again.
pub proof fn lemma_run_conserves_cars(
    state: SimState,
    inters: Seq<Intersection>,
    solution: Solution,
    steps: nat,
)
    requires
        state_wf(state),
    ensures
        ({
            let (state2, ok) = run_state(state, inters, solution, steps);
            &&& ok
            &&& state_wf(state2)
            &&& state2.cars.len() == state.cars.len()
            &&& total_queued(state2.streets) + arrived_count(state2.cars) == total_queued(
                state.streets,
            ) + arrived_count(state.cars)
            &&& forall|c: int|
                0 <= c < state.cars.len() && (#[trigger] state.cars[c]).arrived is Some
                    ==> state2.cars[c] == state.cars[c]
        }),
    decreases steps,
{
    if steps > 0 {
        lemma_run_conserves_cars(state, inters, solution, (steps - 1) as nat);
        let (state1, ok1) = run_state(state, inters, solution, (steps - 1) as nat);
        lemma_step_conserves_cars(state1, inters, solution, (steps - 1) as u32);
    }
}

/// An arrival view evolves monotonically through one crossing pass: it
/// is either untouched or set to the pass's own time.
proof fn lemma_cross_all_arrivals(
    state: SimState,
    pending: Seq<(usize, usize)>,
    inters: Seq<Intersection>,
    solution: Solution,
    time: u32,
)
    ensures
        cross_all(state, pending, inters, solution, time).0.cars.len() == state.cars.len(),
        forall|c: int|
            0 <= c < state.cars.len() ==> {
                let after = cross_all(state, pending, inters, solution, time).0.cars[c].arrived;
                after == (#[trigger] state.cars[c]).arrived || after == Some(time)
            },
    decreases inters.len(),
{
    if inters.len() > 0 {
        let (state1, pending1, ok1) = cross_one(state, pending, inters[0], solution, time);
        assert(state1.cars.len() == state.cars.len());
        assert forall|c: int| 0 <= c < state.cars.len() implies state1.cars[c].arrived == (
        #[trigger] state.cars[c]).arrived || state1.cars[c].arrived == Some(time) by {
            assert(state1.cars[c] == state.cars[c] || state1.cars[c] == cross_one(
                state,
                pending,
                inters[0],
                solution,
                time,
            ).0.cars[c]);
        }
        if ok1 {
            lemma_cross_all_arrivals(state1, pending1, inters.drop_first(), solution, time);
        }
    }
}

/// One whole step moves an arrival view only from unset to the step's
/// own time, or leaves it alone.
proof fn lemma_step_arrivals(
    state: SimState,
    inters: Seq<Intersection>,
    solution: Solution,
    time: u32,
)
    ensures
        step_state(state, inters, solution, time).0.cars.len() == state.cars.len(),
        forall|c: int|
            0 <= c < state.cars.len() ==> {
                let after = step_state(state, inters, solution, time).0.cars[c].arrived;
                after == (#[trigger] state.cars[c]).arrived || after == Some(time)
            },
{
    lemma_cross_all_arrivals(state, Seq::empty(), inters, solution, time);
    let (state1, pending, ok) = cross_all(state, Seq::empty(), inters, solution, time);
    if ok {
        crate::sim::lemma_release_keeps_cars(crate::sim::dec_state(state1), pending);
    }
}

/// Law: every arrival timestamp that a run of `steps` seconds sets is
/// in `[0, steps - 1]` — a car that arrives does so at one of the
/// simulated seconds, never outside the horizon. An arrival that was
/// already set before the run is carried through instead.
pub proof fn lemma_arrivals_within_horizon(
    state: SimState,
    inters: Seq<Intersection>,
    solution: Solution,
    steps: nat,
)
    ensures
        run_state(state, inters, solution, steps).0.cars.len() == state.cars.len(),
        forall|c: int|
            0 <= c < state.cars.len() ==> {
                let after = run_state(state, inters, solution, steps).0.cars[c].arrived;
                after == (#[trigger] state.cars[c]).arrived || (after matches Some(t) && (
                t as nat) < steps)
            },
    decreases steps,
{
    if steps > 0 {
        lemma_arrivals_within_horizon(state, inters, solution, (steps - 1) as nat);
        let (state1, ok1) = run_state(state, inters, solution, (steps - 1) as nat);
        if ok1 {
            lemma_step_arrivals(state1, inters, solution, (steps - 1) as u32);
            let t1: nat = ((steps - 1) as u32) as nat;
            assert(t1 < steps);
        }
    }
}

} // verus!
