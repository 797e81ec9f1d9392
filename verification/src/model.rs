//! The network model: streets, intersections, cars, and the aggregate
//! `Problem`, together with the mathematical view of the mutable
//! simulation state.
//!
//! All relationships are stored as plain indices into the owning
//! `Problem`'s collections: a car's route is a list of street indices, an
//! intersection's incoming and outgoing sets are lists of street indices,
//! and a street's queue pairs a car index with the remaining countdown.

use vstd::prelude::*;
use crate::laws::state_wf;

verus! {

/// A vehicle with a fixed route. `path_to_take` holds indices into
/// `Problem::streets`; `path_position` is the index into `path_to_take`
/// of the street the car currently occupies; `destination_reached_at` is
/// set at most once, when the car leaves the last street of its route.
#[derive(Debug, PartialEq, Eq)]
pub struct Car {
    pub id: u32,
    pub path_to_take: Vec<usize>,
    pub path_position: usize,
    pub destination_reached_at: Option<u32>,
}

/// A directed edge of the network. `cars` is the FIFO queue of cars
/// currently on the street, each paired with the number of seconds it
/// still needs before it reaches the street's end; insertion order is
/// arrival order and crossing priority.
#[derive(Debug, PartialEq, Eq)]
pub struct Street {
    pub name: String,
    pub cars: Vec<(usize, u32)>,
    pub time_to_travel: u32,
}

/// A junction. `incoming_streets` are the streets that end here and
/// compete for the green light; `outgoing_streets` are the streets that
/// start here (topology only, not simulated directly).
#[derive(Debug, PartialEq, Eq)]
pub struct Intersection {
    pub id: u32,
    pub incoming_streets: Vec<usize>,
    pub outgoing_streets: Vec<usize>,
}

/// The aggregate root: the horizon, the per-arrival bonus, and all
/// entities of one run.
#[derive(Debug, PartialEq, Eq)]
pub struct Problem {
    pub amount_of_seconds: u32,
    pub bonus_points: u32,
    pub cars: Vec<Car>,
    pub streets: Vec<Street>,
    pub intersections: Vec<Intersection>,
}

/// The solution artifact: for each scheduled intersection id, the cyclic
/// sequence of (street index, green duration) entries. The cycle repeats
/// indefinitely; at any second exactly one entry is green.
#[derive(Debug, PartialEq, Eq)]
pub struct Solution {
    pub traffic_lights: Vec<(u32, Vec<(usize, u32)>)>,
}

/// The two failure kinds of the model: a network whose references do not
/// resolve or whose identifiers collide, and a simulation state in which
/// a waiting car has no coherent place in its own route.
#[derive(Clone, Copy, Debug, PartialEq, Eq, Structural)]
pub enum SimulationError {
    MalformedNetwork,
    InconsistentPathState,
}

/// Mathematical view of a car: the fixed route, the position of the
/// current street within it, and the optional arrival time.
#[verifier::ext_equal]
pub ghost struct CarModel {
    pub id: u32,
    pub path: Seq<usize>,
    pub position: nat,
    pub arrived: Option<u32>,
}

/// Mathematical view of a street: its name, its FIFO queue of
/// (car index, countdown) pairs, and its traversal duration.
#[verifier::ext_equal]
pub ghost struct StreetModel {
    pub name: Seq<char>,
    pub queue: Seq<(usize, u32)>,
    pub time_to_travel: u32,
}

/// Everything the simulation reads and mutates: all cars and all streets.
/// The horizon, the bonus and the intersections stay fixed during a run.
#[verifier::ext_equal]
pub ghost struct SimState {
    pub cars: Seq<CarModel>,
    pub streets: Seq<StreetModel>,
}

impl View for Car {
    type V = CarModel;

    open spec fn view(&self) -> CarModel {
        CarModel {
            id: self.id,
            path: self.path_to_take@,
            position: self.path_position as nat,
            arrived: self.destination_reached_at,
        }
    }
}

impl View for Street {
    type V = StreetModel;

    open spec fn view(&self) -> StreetModel {
        StreetModel {
            name: self.name@,
            queue: self.cars@,
            time_to_travel: self.time_to_travel,
        }
    }
}

impl Problem {
    /// The mathematical view of this problem's mutable simulation state.
    pub open spec fn sim_state(&self) -> SimState {
        SimState {
            cars: self.cars@.map_values(|c: Car| c@),
            streets: self.streets@.map_values(|s: Street| s@),
        }
    }

    /// Every street index in every car's route resolves.
    pub open spec fn paths_in_range(&self) -> bool {
        forall|c: int, j: int|
            0 <= c < self.cars@.len() && 0 <= j < self.cars@[c].path_to_take@.len()
                ==> (#[trigger] self.cars@[c].path_to_take@[j]) < self.streets@.len()
    }

    /// Every incoming street index of every intersection resolves.
    pub open spec fn incoming_in_range(&self) -> bool {
        forall|k: int, j: int|
            0 <= k < self.intersections@.len() && 0 <= j
                < self.intersections@[k].incoming_streets@.len()
                ==> (#[trigger] self.intersections@[k].incoming_streets@[j])
                    < self.streets@.len()
    }

    /// Every outgoing street index of every intersection resolves.
    pub open spec fn outgoing_in_range(&self) -> bool {
        forall|k: int, j: int|
            0 <= k < self.intersections@.len() && 0 <= j
                < self.intersections@[k].outgoing_streets@.len()
                ==> (#[trigger] self.intersections@[k].outgoing_streets@[j])
                    < self.streets@.len()
    }

    /// No two intersections share an id.
    pub open spec fn intersection_ids_distinct(&self) -> bool {
        forall|k1: int, k2: int|
            0 <= k1 < k2 < self.intersections@.len()
                ==> (#[trigger] self.intersections@[k1].id)
                    != (#[trigger] self.intersections@[k2].id)
    }

    /// No two cars share an id.
    pub open spec fn car_ids_distinct(&self) -> bool {
        forall|c1: int, c2: int|
            0 <= c1 < c2 < self.cars@.len()
                ==> (#[trigger] self.cars@[c1].id) != (#[trigger] self.cars@[c2].id)
    }

    /// No two streets share a name.
    pub open spec fn street_names_distinct(&self) -> bool {
        forall|s1: int, s2: int|
            0 <= s1 < s2 < self.streets@.len()
                ==> (#[trigger] self.streets@[s1].name@) != (#[trigger] self.streets@[s2].name@)
    }

    /// Everything the validated constructor demands of a network: all
    /// street references resolve and no identifier collides.
    pub open spec fn network_valid(&self) -> bool {
        &&& self.paths_in_range()
        &&& self.incoming_in_range()
        &&& self.outgoing_in_range()
        &&& self.car_ids_distinct()
        &&& self.intersection_ids_distinct()
        &&& self.street_names_distinct()
    }
}

/// The initial queue of street `s`: every car whose route starts on
/// `s`, in car order, already waiting at the street's end (countdown
/// zero, as the cars are placed at creation).
pub open spec fn initial_queue(cars: Seq<Car>, s: usize) -> Seq<(usize, u32)>
    decreases cars.len(),
{
    if cars.len() == 0 {
        Seq::empty()
    } else {
        let rest = initial_queue(cars.drop_last(), s);
        let c = cars.len() - 1;
        if cars[c as int].path_to_take@.len() > 0 && cars[c as int].path_to_take@[0] == s {
            rest.push((c as usize, 0u32))
        } else {
            rest
        }
    }
}

proof fn lemma_initial_queue_entries(cars: Seq<Car>, s: usize)
    requires
        cars.len() <= usize::MAX,
    ensures
        forall|j: int|
            0 <= j < initial_queue(cars, s).len() ==> {
                &&& ((#[trigger] initial_queue(cars, s)[j]).0 as int) < cars.len()
                &&& initial_queue(cars, s)[j].1 == 0
                &&& cars[initial_queue(cars, s)[j].0 as int].path_to_take@.len() > 0
                &&& cars[initial_queue(cars, s)[j].0 as int].path_to_take@[0] == s
            },
        forall|j1: int, j2: int|
            0 <= j1 < j2 < initial_queue(cars, s).len() ==> (#[trigger] initial_queue(cars, s)[
            j1]).0 < (#[trigger] initial_queue(cars, s)[j2]).0,
    decreases cars.len(),
{
    if cars.len() > 0 {
        lemma_initial_queue_entries(cars.drop_last(), s);
        assert(forall|i: int|
            0 <= i < cars.len() - 1 ==> #[trigger] cars.drop_last()[i] == cars[i]);
        let rest = initial_queue(cars.drop_last(), s);
        let c: int = cars.len() - 1;
        if cars[c].path_to_take@.len() > 0 && cars[c].path_to_take@[0] == s {
            assert(initial_queue(cars, s) == rest.push((c as usize, 0u32)));
        } else {
            assert(initial_queue(cars, s) == rest);
        }
        assert forall|j: int| 0 <= j < initial_queue(cars, s).len() implies {
            &&& ((#[trigger] initial_queue(cars, s)[j]).0 as int) < cars.len()
            &&& initial_queue(cars, s)[j].1 == 0
            &&& cars[initial_queue(cars, s)[j].0 as int].path_to_take@.len() > 0
            &&& cars[initial_queue(cars, s)[j].0 as int].path_to_take@[0] == s
        } by {
            if j < rest.len() {
                assert(initial_queue(cars, s)[j] == rest[j]);
                assert(rest[j] == initial_queue(cars.drop_last(), s)[j]);
                assert((rest[j].0 as int) < cars.drop_last().len());
                assert(cars.drop_last()[rest[j].0 as int] == cars[rest[j].0 as int]);
            } else {
                assert(initial_queue(cars, s)[j] == (c as usize, 0u32));
            }
        }
        assert forall|j1: int, j2: int|
            0 <= j1 < j2 < initial_queue(cars, s).len() implies (#[trigger] initial_queue(
            cars,
            s,
        )[j1]).0 < (#[trigger] initial_queue(cars, s)[j2]).0 by {
            if j2 < rest.len() {
                assert(initial_queue(cars, s)[j1] == rest[j1]);
                assert(initial_queue(cars, s)[j2] == rest[j2]);
            } else {
                assert(initial_queue(cars, s)[j1] == rest[j1]);
                assert(initial_queue(cars, s)[j2] == (c as usize, 0u32));
                assert((rest[j1].0 as int) < cars.drop_last().len());
            }
        }
    }
}

/// Resolve a street name to its index: the first street bearing the
/// name, or `None` when the name resolves nowhere.
pub fn find_street_index(streets: &Vec<Street>, name: &String) -> (found: Option<usize>)
    ensures
        match found {
            Some(i) => i < streets@.len() && streets@[i as int].name@ == name@ && forall|j: int|
                0 <= j < i ==> (#[trigger] streets@[j].name@) != name@,
            None => forall|j: int|
                0 <= j < streets@.len() ==> (#[trigger] streets@[j].name@) != name@,
        },
{
    let n = streets.len();
    let mut i: usize = 0;
    while i < n
        invariant
            i <= n,
            n == streets@.len(),
            forall|j: int| 0 <= j < i ==> (#[trigger] streets@[j].name@) != name@,
        decreases n - i,
    {
        if streets[i].name == *name {
            return Some(i);
        }
        i = i + 1;
    }
    None
}

/// Every index of `list` is below `bound`.
fn all_below(list: &Vec<usize>, bound: usize) -> (ok: bool)
    ensures
        ok == (forall|j: int| 0 <= j < list@.len() ==> (#[trigger] list@[j]) < bound),
        !ok ==> exists|j: int| 0 <= j < list@.len() && (#[trigger] list@[j]) >= bound,
{
    let n = list.len();
    let mut j: usize = 0;
    while j < n
        invariant
            j <= n,
            n == list@.len(),
            forall|j2: int| 0 <= j2 < j ==> (#[trigger] list@[j2]) < bound,
        decreases n - j,
    {
        if list[j] >= bound {
            proof {
                assert(list@[j as int] >= bound);
            }
            return false;
        }
        j = j + 1;
    }
    true
}

impl Problem {
    /// Validated construction of a problem. Checks that every street
    /// reference of every car route and every intersection resolves and
    /// that no car id, intersection id or street name is duplicated;
    /// a violation is `MalformedNetwork`. On success every car is
    /// placed at the start of its route: position zero, no arrival yet,
    /// and a queue entry with countdown zero on its first street — and
    /// a car with an empty route arrives immediately, at time zero,
    /// without ever moving.
    #[verifier::loop_isolation(false)]
    pub fn new(
        amount_of_seconds: u32,
        bonus_points: u32,
        cars: Vec<Car>,
        streets: Vec<Street>,
        intersections: Vec<Intersection>,
    ) -> (result: Result<Problem, SimulationError>)
        ensures
            ({
                let p0 = Problem { amount_of_seconds, bonus_points, cars, streets, intersections };
                &&& (result is Ok <==> p0.network_valid())
                &&& (result matches Ok(p) ==> {
                    &&& p.amount_of_seconds == amount_of_seconds
                    &&& p.bonus_points == bonus_points
                    &&& p.intersections == intersections
                    &&& p.network_valid()
                    &&& p.cars@.len() == cars@.len()
                    &&& (forall|c: int|
                        0 <= c < cars@.len() ==> {
                            &&& (#[trigger] p.cars@[c]).id == cars@[c].id
                            &&& p.cars@[c].path_to_take@ == cars@[c].path_to_take@
                            &&& p.cars@[c].path_position == 0
                            &&& p.cars@[c].destination_reached_at == (
                            if cars@[c].path_to_take@.len() == 0 {
                                Some(0u32)
                            } else {
                                None
                            })
                        })
                    &&& p.streets@.len() == streets@.len()
                    &&& (forall|s: int|
                        0 <= s < streets@.len() ==> {
                            &&& (#[trigger] p.streets@[s]).name@ == streets@[s].name@
                            &&& p.streets@[s].time_to_travel == streets@[s].time_to_travel
                            &&& p.streets@[s].cars@ == initial_queue(cars@, s as usize)
                        })
                    &&& state_wf(p.sim_state())
                    &&& crate::laws::total_queued(p.sim_state().streets)
                        + crate::laws::arrived_count(p.sim_state().cars) == cars@.len()
                })
            }),
    {
        let ghost p0 = Problem { amount_of_seconds, bonus_points, cars, streets, intersections };
        let n_streets = streets.len();
        let n_cars = cars.len();
        let n_inters = intersections.len();
        // Dangling references in car routes.
        let mut c: usize = 0;
        while c < n_cars
            invariant
                c <= n_cars,
                n_cars == cars@.len(),
                n_streets == streets@.len(),
                forall|c2: int, j: int|
                    0 <= c2 < c && 0 <= j < cars@[c2].path_to_take@.len() ==> (
                    #[trigger] cars@[c2].path_to_take@[j]) < n_streets,
            decreases n_cars - c,
        {
            if !all_below(&cars[c].path_to_take, n_streets) {
                proof {
                    let j = choose|j: int|
                        0 <= j < cars@[c as int].path_to_take@.len() && (#[trigger] cars@[c as int]
                            .path_to_take@[j]) >= n_streets;
                    assert(cars@[c as int].path_to_take@[j] >= n_streets);
                    assert(!p0.paths_in_range()) by {
                        assert(p0.cars@[c as int].path_to_take@[j] >= n_streets);
                    }
                }
                return Err(SimulationError::MalformedNetwork);
            }
            c = c + 1;
        }
        // Dangling references in intersection street sets.
        let mut k: usize = 0;
        while k < n_inters
            invariant
                k <= n_inters,
                n_inters == intersections@.len(),
                n_streets == streets@.len(),
                forall|k2: int, j: int|
                    0 <= k2 < k && 0 <= j < intersections@[k2].incoming_streets@.len() ==> (
                    #[trigger] intersections@[k2].incoming_streets@[j]) < n_streets,
                forall|k2: int, j: int|
                    0 <= k2 < k && 0 <= j < intersections@[k2].outgoing_streets@.len() ==> (
                    #[trigger] intersections@[k2].outgoing_streets@[j]) < n_streets,
            decreases n_inters - k,
        {
            if !all_below(&intersections[k].incoming_streets, n_streets) {
                proof {
                    let j = choose|j: int|
                        0 <= j < intersections@[k as int].incoming_streets@.len() && (
                        #[trigger] intersections@[k as int].incoming_streets@[j]) >= n_streets;
                    assert(intersections@[k as int].incoming_streets@[j] >= n_streets);
                    assert(!p0.incoming_in_range()) by {
                        assert(p0.intersections@[k as int].incoming_streets@[j] >= n_streets);
                    }
                }
                return Err(SimulationError::MalformedNetwork);
            }
            if !all_below(&intersections[k].outgoing_streets, n_streets) {
                proof {
                    let j = choose|j: int|
                        0 <= j < intersections@[k as int].outgoing_streets@.len() && (
                        #[trigger] intersections@[k as int].outgoing_streets@[j]) >= n_streets;
                    assert(intersections@[k as int].outgoing_streets@[j] >= n_streets);
                    assert(!p0.outgoing_in_range()) by {
                        assert(p0.intersections@[k as int].outgoing_streets@[j] >= n_streets);
                    }
                }
                return Err(SimulationError::MalformedNetwork);
            }
            k = k + 1;
        }
        // Duplicate car ids.
        let mut c1: usize = 0;
        while c1 < n_cars
            invariant
                c1 <= n_cars,
                n_cars == cars@.len(),
                forall|a: int, b: int|
                    0 <= a < b < n_cars && a < c1 ==> (#[trigger] cars@[a].id) != (
                    #[trigger] cars@[b].id),
            decreases n_cars - c1,
        {
            let mut c2: usize = c1 + 1;
            while c2 < n_cars
                invariant
                    c1 < c2 <= n_cars || (c1 + 1 == c2 && c2 >= n_cars),
                    n_cars == cars@.len(),
                    c1 < n_cars,
                    forall|b: int| c1 < b < c2 ==> (#[trigger] cars@[b].id) != cars@[c1 as int].id,
                decreases n_cars - c2,
            {
                if cars[c1].id == cars[c2].id {
                    proof {
                        assert(p0.cars@[c1 as int].id == p0.cars@[c2 as int].id);
                        assert(!p0.car_ids_distinct());
                    }
                    return Err(SimulationError::MalformedNetwork);
                }
                c2 = c2 + 1;
            }
            c1 = c1 + 1;
        }
        // Duplicate intersection ids.
        let mut k1: usize = 0;
        while k1 < n_inters
            invariant
                k1 <= n_inters,
                n_inters == intersections@.len(),
                forall|a: int, b: int|
                    0 <= a < b < n_inters && a < k1 ==> (#[trigger] intersections@[a].id) != (
                    #[trigger] intersections@[b].id),
            decreases n_inters - k1,
        {
            let mut k2: usize = k1 + 1;
            while k2 < n_inters
                invariant
                    k1 < k2 <= n_inters || (k1 + 1 == k2 && k2 >= n_inters),
                    n_inters == intersections@.len(),
                    k1 < n_inters,
                    forall|b: int|
                        k1 < b < k2 ==> (#[trigger] intersections@[b].id) != intersections@[k1 as int].id,
                decreases n_inters - k2,
            {
                if intersections[k1].id == intersections[k2].id {
                    proof {
                        assert(p0.intersections@[k1 as int].id == p0.intersections@[k2 as int].id);
                        assert(!p0.intersection_ids_distinct());
                    }
                    return Err(SimulationError::MalformedNetwork);
                }
                k2 = k2 + 1;
            }
            k1 = k1 + 1;
        }
        // Duplicate street names.
        let mut s1: usize = 0;
        while s1 < n_streets
            invariant
                s1 <= n_streets,
                n_streets == streets@.len(),
                forall|a: int, b: int|
                    0 <= a < b < n_streets && a < s1 ==> (#[trigger] streets@[a].name@) != (
                    #[trigger] streets@[b].name@),
            decreases n_streets - s1,
        {
            let mut s2: usize = s1 + 1;
            while s2 < n_streets
                invariant
                    s1 < s2 <= n_streets || (s1 + 1 == s2 && s2 >= n_streets),
                    n_streets == streets@.len(),
                    s1 < n_streets,
                    forall|b: int|
                        s1 < b < s2 ==> (#[trigger] streets@[b].name@) != streets@[s1 as int].name@,
                decreases n_streets - s2,
            {
                if streets[s1].name == streets[s2].name {
                    proof {
                        assert(p0.streets@[s1 as int].name@ == p0.streets@[s2 as int].name@);
                        assert(!p0.street_names_distinct());
                    }
                    return Err(SimulationError::MalformedNetwork);
                }
                s2 = s2 + 1;
            }
            s1 = s1 + 1;
        }
        // The network is valid; place every car at the start of its route.
        let mut new_cars = cars;
        let mut new_streets = streets;
        let ghost orig_cars = new_cars@;
        let ghost orig_streets = new_streets@;
        let mut s: usize = 0;
        while s < n_streets
            invariant
                s <= n_streets,
                n_streets == new_streets@.len(),
                forall|s2: int|
                    s <= s2 < n_streets ==> #[trigger] new_streets@[s2] == orig_streets[s2],
                forall|s2: int|
                    0 <= s2 < s ==> {
                        &&& (#[trigger] new_streets@[s2]).name@ == orig_streets[s2].name@
                        &&& new_streets@[s2].time_to_travel == orig_streets[s2].time_to_travel
                        &&& new_streets@[s2].cars@.len() == 0
                    },
            decreases n_streets - s,
        {
            new_streets[s].cars = Vec::new();
            s = s + 1;
        }
        let mut c: usize = 0;
        proof {
            assert(forall|s2: usize|
                s2 < n_streets ==> initial_queue(orig_cars.take(0), s2) =~= Seq::<(
                    usize,
                    u32,
                )>::empty());
        }
        while c < n_cars
            invariant
                c <= n_cars,
                n_cars == new_cars@.len(),
                new_cars@.len() == orig_cars.len(),
                n_streets == new_streets@.len(),
                forall|c2: int| c <= c2 < n_cars ==> #[trigger] new_cars@[c2] == orig_cars[c2],
                forall|c2: int|
                    0 <= c2 < c ==> {
                        &&& (#[trigger] new_cars@[c2]).id == orig_cars[c2].id
                        &&& new_cars@[c2].path_to_take@ == orig_cars[c2].path_to_take@
                        &&& new_cars@[c2].path_position == 0
                        &&& new_cars@[c2].destination_reached_at == (
                        if orig_cars[c2].path_to_take@.len() == 0 {
                            Some(0u32)
                        } else {
                            None
                        })
                    },
                forall|c2: int, j: int|
                    0 <= c2 < n_cars && 0 <= j < orig_cars[c2].path_to_take@.len() ==> (
                    #[trigger] orig_cars[c2].path_to_take@[j]) < n_streets,
                forall|s2: int|
                    0 <= s2 < n_streets ==> {
                        &&& (#[trigger] new_streets@[s2]).name@ == orig_streets[s2].name@
                        &&& new_streets@[s2].time_to_travel == orig_streets[s2].time_to_travel
                        &&& new_streets@[s2].cars@ == initial_queue(
                            orig_cars.take(c as int),
                            s2 as usize,
                        )
                    },
            decreases n_cars - c,
        {
            let ghost pre_streets = new_streets@;
            proof {
                assert(orig_cars.take(c as int + 1).drop_last() =~= orig_cars.take(c as int));
                assert(orig_cars.take(c as int + 1).last() == orig_cars[c as int]);
            }
            new_cars[c].path_position = 0;
            if new_cars[c].path_to_take.len() == 0 {
                new_cars[c].destination_reached_at = Some(0);
            } else {
                new_cars[c].destination_reached_at = None;
                let s0 = new_cars[c].path_to_take[0];
                proof {
                    assert(orig_cars[c as int].path_to_take@[0] < n_streets);
                }
                new_streets[s0].cars.push((c, 0));
            }
            c = c + 1;
        }
        proof {
            assert(orig_cars.take(n_cars as int) =~= orig_cars);
        }
        let p = Problem {
            amount_of_seconds,
            bonus_points,
            cars: new_cars,
            streets: new_streets,
            intersections,
        };
        proof {
            let st = p.sim_state();
            assert(st.cars.len() == n_cars && st.streets.len() == n_streets);
            assert(forall|c2: int|
                0 <= c2 < n_cars ==> (#[trigger] st.cars[c2]) == new_cars@[c2]@);
            assert(forall|s2: int|
                0 <= s2 < n_streets ==> (#[trigger] st.streets[s2]).queue == initial_queue(
                    orig_cars,
                    s2 as usize,
                ));
            assert(crate::laws::entries_wf(st)) by {
                assert forall|s2: int, j: int|
                    0 <= s2 < st.streets.len() && 0 <= j < st.streets[s2].queue.len() implies {
                    let c = (#[trigger] st.streets[s2].queue[j]).0 as int;
                    &&& c < st.cars.len()
                    &&& st.cars[c].arrived is None
                    &&& st.cars[c].position < st.cars[c].path.len()
                    &&& st.cars[c].path[st.cars[c].position as int] == s2 as usize
                } by {
                    lemma_initial_queue_entries(orig_cars, s2 as usize);
                    let c = st.streets[s2].queue[j].0 as int;
                    assert(orig_cars[c].path_to_take@.len() > 0);
                    assert(st.cars[c].path == orig_cars[c].path_to_take@);
                }
            }
            assert(crate::laws::entries_injective(st)) by {
                assert forall|sa: int, ja: int, sb: int, jb: int|
                    0 <= sa < st.streets.len() && 0 <= ja < st.streets[sa].queue.len() && 0 <= sb
                        < st.streets.len() && 0 <= jb < st.streets[sb].queue.len() && (
                #[trigger] st.streets[sa].queue[ja]).0 == (#[trigger] st.streets[sb].queue[
                jb]).0 implies sa == sb && ja == jb by {
                    lemma_initial_queue_entries(orig_cars, sa as usize);
                    lemma_initial_queue_entries(orig_cars, sb as usize);
                    let c = st.streets[sa].queue[ja].0 as int;
                    assert(orig_cars[c].path_to_take@[0] == sa as usize);
                    assert(orig_cars[c].path_to_take@[0] == sb as usize);
                    assert(sa == sb);
                    if ja < jb {
                        assert(st.streets[sa].queue[ja].0 < st.streets[sb].queue[jb].0);
                    }
                    if jb < ja {
                        assert(st.streets[sb].queue[jb].0 < st.streets[sa].queue[ja].0);
                    }
                }
            }
            assert(crate::laws::paths_ok(st)) by {
                assert(forall|c2: int, j: int|
                    0 <= c2 < st.cars.len() && 0 <= j < st.cars[c2].path.len() ==> (
                    #[trigger] st.cars[c2].path[j]) == orig_cars[c2].path_to_take@[j]);
            }
            assert(orig_cars.len() == n_cars);
            assert forall|c2: int|
                0 <= c2 < orig_cars.len() && (#[trigger] orig_cars[c2]).path_to_take@.len()
                    > 0 implies orig_cars[c2].path_to_take@[0] < st.streets.len() by {
                assert(orig_cars[c2].path_to_take@[0] < n_streets);
            }
            crate::laws::lemma_initial_total_queued(orig_cars, st.streets);
            assert(forall|i: int|
                0 <= i < orig_cars.len() ==> ((#[trigger] st.cars[i]).arrived is Some <==> (
                #[trigger] orig_cars[i]).path_to_take@.len() == 0));
            crate::laws::lemma_initial_arrived_count(st.cars, orig_cars);
        }
        Ok(p)
    }
}

} // verus!
