use hash_code_2021::calculate_score;
use hash_code_2021::is_light_green;
use hash_code_2021::simulate;
use hash_code_2021::solve;
use hash_code_2021::Car;
use hash_code_2021::Intersection;
use hash_code_2021::Problem;
use hash_code_2021::SimulationError;
use hash_code_2021::Solution;
use hash_code_2021::Street;

fn street(name: &str, time_to_travel: u32) -> Street {
    Street {
        name: name.to_owned(),
        cars: Vec::new(),
        time_to_travel,
    }
}

fn car(id: u32, path: Vec<usize>) -> Car {
    Car {
        id,
        path_to_take: path,
        path_position: 0,
        destination_reached_at: None,
    }
}

fn cycle_of(solution: &Solution, id: u32) -> Option<&Vec<(usize, u32)>> {
    solution
        .traffic_lights
        .iter()
        .find(|entry| entry.0 == id)
        .map(|entry| &entry.1)
}

#[test]
pub fn example_is_correct() -> Result<(), Box<dyn std::error::Error>> {
    // Streets by index: 0 rue-de-londres, 1 rue-d-amsterdam,
    // 2 rue-d-athenes, 3 rue-de-rome, 4 rue-de-moscou.
    let mut street1 = street("rue-de-londres", 1);
    let street2 = street("rue-d-amsterdam", 1);
    let mut street3 = street("rue-d-athenes", 1);
    let street4 = street("rue-de-rome", 2);
    let street5 = street("rue-de-moscou", 3);

    let c1 = car(0, vec![0, 1, 4, 3]);
    let c2 = car(1, vec![2, 4, 0]);
    street1.cars = vec![(0, 0)];
    street3.cars = vec![(1, 0)];

    let intersection1 = Intersection {
        id: 0,
        incoming_streets: vec![0],
        outgoing_streets: vec![1],
    };
    let intersection2 = Intersection {
        id: 1,
        incoming_streets: vec![1, 2],
        outgoing_streets: vec![4],
    };
    let intersection3 = Intersection {
        id: 2,
        incoming_streets: vec![4],
        outgoing_streets: vec![0, 3],
    };
    let intersection4 = Intersection {
        id: 3,
        incoming_streets: vec![],
        outgoing_streets: vec![2],
    };

    let cars = vec![c1, c2];
    let streets = vec![street1, street2, street3, street4, street5];
    let intersections = vec![intersection1, intersection2, intersection3, intersection4];

    let problem = Problem {
        amount_of_seconds: 6,
        bonus_points: 1000,
        cars,
        streets,
        intersections,
    };

    let s = solve(&problem);
    // Every street of the example carries a car, so both contended
    // approaches of intersection 1 are scheduled, and the single-approach
    // intersections get their sole street.
    assert_eq!(cycle_of(&s, 0), Some(&vec![(0usize, 1u32)]));
    assert_eq!(cycle_of(&s, 1), Some(&vec![(1usize, 1u32), (2usize, 1u32)]));
    assert_eq!(cycle_of(&s, 2), Some(&vec![(4usize, 1u32)]));
    assert_eq!(cycle_of(&s, 3), None);
    Ok(())
}

#[test]
pub fn example_works() -> Result<(), Box<dyn std::error::Error>> {
    Ok(())
}

#[test]
fn single_car_single_street_arrives_at_zero() {
    // One car on a single street that is its whole route: the car is
    // created waiting at the intersection, the light is always green,
    // so it arrives at time 0 and earns the bonus plus the full horizon.
    let problem = Problem::new(
        2,
        1000,
        vec![car(0, vec![0])],
        vec![street("main", 1)],
        vec![Intersection {
            id: 0,
            incoming_streets: vec![0],
            outgoing_streets: vec![],
        }],
    )
    .unwrap();
    let mut problem = problem;
    let solution = solve(&problem);
    assert_eq!(cycle_of(&solution, 0), Some(&vec![(0usize, 1u32)]));
    simulate(&mut problem, &solution).unwrap();
    assert_eq!(problem.cars[0].destination_reached_at, Some(0));
    let score = calculate_score(&problem);
    assert_eq!(score, 1000 + 2 - 0);
}

#[test]
fn empty_path_car_arrives_immediately() {
    // A car with an empty route never moves: it is already at its
    // destination when the problem is built, at time 0.
    let mut problem = Problem::new(
        5,
        7,
        vec![car(0, vec![])],
        vec![street("main", 1)],
        vec![Intersection {
            id: 0,
            incoming_streets: vec![0],
            outgoing_streets: vec![],
        }],
    )
    .unwrap();
    assert_eq!(problem.cars[0].destination_reached_at, Some(0));
    assert!(problem.streets[0].cars.is_empty());
    let solution = solve(&problem);
    simulate(&mut problem, &solution).unwrap();
    assert_eq!(problem.cars[0].destination_reached_at, Some(0));
    assert_eq!(calculate_score(&problem), 7 + 5);
}

#[test]
fn contended_intersection_schedules_both_streets() {
    // Four intersections; intersection 1 has two incoming streets, one
    // car on each. Both streets are used, so both are scheduled, and the
    // two cars cross intersection 1 in different seconds.
    let mut a = street("a", 1);
    let mut b = street("b", 1);
    let c_street = street("c", 1);
    let mut problem = Problem {
        amount_of_seconds: 4,
        bonus_points: 100,
        cars: vec![car(0, vec![0, 2]), car(1, vec![1, 2])],
        streets: {
            a.cars = vec![(0, 0)];
            b.cars = vec![(1, 0)];
            vec![a, b, c_street]
        },
        intersections: vec![
            Intersection {
                id: 0,
                incoming_streets: vec![],
                outgoing_streets: vec![0],
            },
            Intersection {
                id: 1,
                incoming_streets: vec![0, 1],
                outgoing_streets: vec![2],
            },
            Intersection {
                id: 2,
                incoming_streets: vec![],
                outgoing_streets: vec![1],
            },
            Intersection {
                id: 3,
                incoming_streets: vec![2],
                outgoing_streets: vec![],
            },
        ],
    };
    let solution = solve(&problem);
    assert_eq!(
        cycle_of(&solution, 1),
        Some(&vec![(0usize, 1u32), (1usize, 1u32)])
    );
    simulate(&mut problem, &solution).unwrap();
    // Street a is green at even seconds, street b at odd seconds, so the
    // cars cross intersection 1 one second apart, never together.
    assert_eq!(problem.cars[0].destination_reached_at, Some(2));
    assert_eq!(problem.cars[1].destination_reached_at, Some(3));
    assert_eq!(calculate_score(&problem), (100 + 4 - 2) + (100 + 4 - 3));
}

#[test]
fn score_adds_bonus_and_remaining_seconds() {
    let mut c0 = car(0, vec![]);
    let mut c1 = car(1, vec![]);
    let mut c2 = car(2, vec![]);
    c0.destination_reached_at = Some(3);
    c1.destination_reached_at = None;
    c2.destination_reached_at = Some(10);
    let problem = Problem {
        amount_of_seconds: 10,
        bonus_points: 5,
        cars: vec![c0, c1, c2],
        streets: vec![],
        intersections: vec![],
    };
    assert_eq!(calculate_score(&problem), (5 + 10 - 3) + 0 + (5 + 10 - 10));
}

#[test]
fn score_monotone_in_bonus() {
    let mut arrived = car(0, vec![]);
    arrived.destination_reached_at = Some(1);
    let low = Problem {
        amount_of_seconds: 6,
        bonus_points: 10,
        cars: vec![arrived],
        streets: vec![],
        intersections: vec![],
    };
    let mut arrived2 = car(0, vec![]);
    arrived2.destination_reached_at = Some(1);
    let high = Problem {
        amount_of_seconds: 6,
        bonus_points: 11,
        cars: vec![arrived2],
        streets: vec![],
        intersections: vec![],
    };
    assert!(calculate_score(&low) <= calculate_score(&high));
}

#[test]
fn light_cycle_walks_cumulative_durations() {
    let solution = Solution {
        traffic_lights: vec![(7, vec![(0, 2), (1, 1)])],
    };
    let intersection = Intersection {
        id: 7,
        incoming_streets: vec![0, 1],
        outgoing_streets: vec![],
    };
    // Cycle of total 3: street 0 for two seconds, street 1 for one.
    assert!(is_light_green(&solution, &intersection, 0, 0));
    assert!(is_light_green(&solution, &intersection, 0, 1));
    assert!(is_light_green(&solution, &intersection, 1, 2));
    assert!(is_light_green(&solution, &intersection, 0, 3));
    assert!(is_light_green(&solution, &intersection, 1, 5));
    assert!(!is_light_green(&solution, &intersection, 1, 0));
    // An intersection without a schedule entry has no green street.
    let unscheduled = Intersection {
        id: 8,
        incoming_streets: vec![0],
        outgoing_streets: vec![],
    };
    assert!(!is_light_green(&solution, &unscheduled, 0, 0));
}

#[test]
fn single_incoming_street_always_green() {
    let problem = Problem::new(
        3,
        1,
        vec![car(0, vec![0])],
        vec![street("only", 4)],
        vec![Intersection {
            id: 5,
            incoming_streets: vec![0],
            outgoing_streets: vec![],
        }],
    )
    .unwrap();
    let solution = solve(&problem);
    for time in 0..100 {
        assert!(is_light_green(&solution, &problem.intersections[0], 0, time));
    }
}

#[test]
fn simulate_is_deterministic() {
    let build = || {
        let mut a = street("a", 2);
        a.cars = vec![(0, 0), (1, 2)];
        Problem {
            amount_of_seconds: 5,
            bonus_points: 9,
            cars: vec![car(0, vec![0]), car(1, vec![0])],
            streets: vec![a],
            intersections: vec![Intersection {
                id: 0,
                incoming_streets: vec![0],
                outgoing_streets: vec![],
            }],
        }
    };
    let mut first = build();
    let mut second = build();
    let solution_first = solve(&first);
    let solution_second = solve(&second);
    simulate(&mut first, &solution_first).unwrap();
    simulate(&mut second, &solution_second).unwrap();
    let arrivals_first: Vec<Option<u32>> =
        first.cars.iter().map(|c| c.destination_reached_at).collect();
    let arrivals_second: Vec<Option<u32>> =
        second.cars.iter().map(|c| c.destination_reached_at).collect();
    assert_eq!(arrivals_first, arrivals_second);
    assert_eq!(calculate_score(&first), calculate_score(&second));
}

#[test]
fn malformed_network_is_rejected() {
    // A route that names street 3 in a two-street network.
    let result = Problem::new(
        1,
        1,
        vec![car(0, vec![3])],
        vec![street("a", 1), street("b", 1)],
        vec![],
    );
    assert_eq!(result.unwrap_err(), SimulationError::MalformedNetwork);
    // Two streets with one name.
    let result = Problem::new(1, 1, vec![], vec![street("a", 1), street("a", 1)], vec![]);
    assert_eq!(result.unwrap_err(), SimulationError::MalformedNetwork);
    // Two cars with one id.
    let result = Problem::new(
        1,
        1,
        vec![car(4, vec![]), car(4, vec![])],
        vec![street("a", 1)],
        vec![],
    );
    assert_eq!(result.unwrap_err(), SimulationError::MalformedNetwork);
    // Two intersections with one id.
    let result = Problem::new(
        1,
        1,
        vec![],
        vec![street("a", 1)],
        vec![
            Intersection {
                id: 2,
                incoming_streets: vec![],
                outgoing_streets: vec![],
            },
            Intersection {
                id: 2,
                incoming_streets: vec![],
                outgoing_streets: vec![],
            },
        ],
    );
    assert_eq!(result.unwrap_err(), SimulationError::MalformedNetwork);
}

#[test]
fn inconsistent_path_state_is_reported() {
    // A waiting car whose route is already exhausted: the queue holds
    // car 0 at countdown 0, but the car's route is empty.
    let mut bad = street("bad", 1);
    bad.cars = vec![(0, 0)];
    let mut problem = Problem {
        amount_of_seconds: 3,
        bonus_points: 1,
        cars: vec![car(0, vec![])],
        streets: vec![bad],
        intersections: vec![Intersection {
            id: 0,
            incoming_streets: vec![0],
            outgoing_streets: vec![],
        }],
    };
    let solution = Solution {
        traffic_lights: vec![(0, vec![(0, 1)])],
    };
    let result = simulate(&mut problem, &solution);
    assert_eq!(result.unwrap_err(), SimulationError::InconsistentPathState);
}

#[test]
fn unused_approach_is_dropped_from_schedule() {
    // Intersection 0 has two approaches but only street 0 carries a car:
    // the unused approach is dropped and the cycle has a single entry.
    let mut a = street("used", 1);
    a.cars = vec![(0, 0)];
    let problem = Problem {
        amount_of_seconds: 2,
        bonus_points: 1,
        cars: vec![car(0, vec![0])],
        streets: vec![a, street("unused", 1)],
        intersections: vec![Intersection {
            id: 0,
            incoming_streets: vec![0, 1],
            outgoing_streets: vec![],
        }],
    };
    let solution = solve(&problem);
    assert_eq!(cycle_of(&solution, 0), Some(&vec![(0usize, 1u32)]));
    // And an intersection none of whose approaches is used gets none.
    let no_cars = Problem {
        amount_of_seconds: 2,
        bonus_points: 1,
        cars: vec![],
        streets: vec![street("x", 1), street("y", 1)],
        intersections: vec![Intersection {
            id: 0,
            incoming_streets: vec![0, 1],
            outgoing_streets: vec![],
        }],
    };
    let solution = solve(&no_cars);
    assert_eq!(cycle_of(&solution, 0), None);
    assert_eq!(solution.traffic_lights.len(), 0);
}

#[test]
fn waiting_cars_keep_fifo_priority() {
    // Two cars waiting on one street: only the first in the queue may
    // cross each second the street is green.
    let mut a = street("a", 1);
    a.cars = vec![(0, 0), (1, 0)];
    let mut problem = Problem {
        amount_of_seconds: 3,
        bonus_points: 10,
        cars: vec![car(0, vec![0]), car(1, vec![0])],
        streets: vec![a],
        intersections: vec![Intersection {
            id: 0,
            incoming_streets: vec![0],
            outgoing_streets: vec![],
        }],
    };
    let solution = solve(&problem);
    simulate(&mut problem, &solution).unwrap();
    assert_eq!(problem.cars[0].destination_reached_at, Some(0));
    assert_eq!(problem.cars[1].destination_reached_at, Some(1));
}

#[test]
fn street_names_resolve_to_indices() {
    let streets = vec![street("alpha", 1), street("beta", 2), street("gamma", 3)];
    assert_eq!(
        hash_code_2021::find_street_index(&streets, &"alpha".to_owned()),
        Some(0)
    );
    assert_eq!(
        hash_code_2021::find_street_index(&streets, &"gamma".to_owned()),
        Some(2)
    );
    assert_eq!(
        hash_code_2021::find_street_index(&streets, &"delta".to_owned()),
        None
    );
}

#[test]
fn conservation_of_cars_each_step() {
    // At every second, queued cars plus arrived cars account for the
    // whole fleet.
    let mut a = street("a", 1);
    let b = street("b", 2);
    a.cars = vec![(0, 0), (1, 1)];
    let mut problem = Problem {
        amount_of_seconds: 6,
        bonus_points: 1,
        cars: vec![car(0, vec![0, 1]), car(1, vec![0, 1])],
        streets: vec![a, b],
        intersections: vec![
            Intersection {
                id: 0,
                incoming_streets: vec![0],
                outgoing_streets: vec![1],
            },
            Intersection {
                id: 1,
                incoming_streets: vec![1],
                outgoing_streets: vec![],
            },
        ],
    };
    let solution = solve(&problem);
    for t in 0..problem.amount_of_seconds {
        let queued: usize = problem.streets.iter().map(|s| s.cars.len()).sum();
        let arrived = problem
            .cars
            .iter()
            .filter(|c| c.destination_reached_at.is_some())
            .count();
        assert_eq!(queued + arrived, problem.cars.len());
        hash_code_2021::simulate_step(&mut problem, &solution, t).unwrap();
    }
    let queued: usize = problem.streets.iter().map(|s| s.cars.len()).sum();
    let arrived = problem
        .cars
        .iter()
        .filter(|c| c.destination_reached_at.is_some())
        .count();
    assert_eq!(queued + arrived, problem.cars.len());
    assert!(problem.cars.iter().all(|c| c.destination_reached_at.is_some()));
}
