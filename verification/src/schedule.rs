//! The cyclic green-light schedule: which street of an intersection is
//! green at a given second, and the greedy schedule builder.

use vstd::prelude::*;
use crate::model::Intersection;
use crate::model::Problem;
use crate::model::Solution;

verus! {

/// Total length of one repetition of a cycle: the sum of its green
/// durations.
pub open spec fn cycle_total(cycle: Seq<(usize, u32)>) -> int
    decreases cycle.len(),
{
    if cycle.len() == 0 {
        0
    } else {
        cycle[0].1 + cycle_total(cycle.drop_first())
    }
}

/// The street of the cycle entry active at offset `r` into the cycle,
/// found by walking the cumulative durations. Meaningful whenever
/// `0 <= r < cycle_total(cycle)`.
pub open spec fn active_street(cycle: Seq<(usize, u32)>, r: int) -> usize
    decreases cycle.len(),
{
    if cycle.len() == 0 {
        arbitrary()
    } else if r < cycle[0].1 {
        cycle[0].0
    } else {
        active_street(cycle.drop_first(), r - cycle[0].1)
    }
}

/// The cycle that a solution assigns to intersection `id`: the first
/// entry with that id, if any.
pub open spec fn find_cycle(lights: Seq<(u32, Vec<(usize, u32)>)>, id: u32) -> Option<
    Seq<(usize, u32)>,
>
    decreases lights.len(),
{
    if lights.len() == 0 {
        None
    } else if lights[0].0 == id {
        Some(lights[0].1@)
    } else {
        find_cycle(lights.drop_first(), id)
    }
}

/// The street that is green for intersection `id` at second `time`: the
/// active entry of its cycle at offset `time mod cycle_total`. An
/// intersection without a schedule entry, or with an all-zero cycle, has
/// no green street.
pub open spec fn green_street(solution: Solution, id: u32, time: u32) -> Option<usize> {
    match find_cycle(solution.traffic_lights@, id) {
        None => None,
        Some(cycle) => if cycle_total(cycle) <= 0 {
            None
        } else {
            Some(active_street(cycle, (time as int) % cycle_total(cycle)))
        },
    }
}

proof fn lemma_cycle_total_bounds(cycle: Seq<(usize, u32)>)
    ensures
        0 <= cycle_total(cycle) <= cycle.len() * (u32::MAX as int),
    decreases cycle.len(),
{
    if cycle.len() > 0 {
        lemma_cycle_total_bounds(cycle.drop_first());
    }
}

/// A hit in a duplicate-free light list is what `find_cycle` returns.
proof fn lemma_find_cycle_hit(lights: Seq<(u32, Vec<(usize, u32)>)>, m: int)
    requires
        0 <= m < lights.len(),
        forall|m1: int, m2: int|
            0 <= m1 < m2 < lights.len() ==> (#[trigger] lights[m1].0) != (#[trigger] lights[m2].0),
    ensures
        find_cycle(lights, lights[m].0) == Some(lights[m].1@),
    decreases lights.len(),
{
    if m > 0 {
        assert(lights[0].0 != lights[m].0);
        assert(lights.drop_first()[m - 1] == lights[m]);
        lemma_find_cycle_hit(lights.drop_first(), m - 1);
    }
}

/// An id that occurs nowhere in the light list is not scheduled.
proof fn lemma_find_cycle_miss(lights: Seq<(u32, Vec<(usize, u32)>)>, id: u32)
    requires
        forall|m: int| 0 <= m < lights.len() ==> (#[trigger] lights[m].0) != id,
    ensures
        find_cycle(lights, id) is None,
    decreases lights.len(),
{
    if lights.len() > 0 {
        lemma_find_cycle_miss(lights.drop_first(), id);
    }
}

/// Decide whether `street` is the green street of `intersection` at
/// second `time` under `solution`'s cyclic schedule.
pub fn is_light_green(
    solution: &Solution,
    intersection: &Intersection,
    street: usize,
    time: u32,
) -> (green: bool)
    ensures
        green == (green_street(*solution, intersection.id, time) == Some(street)),
{
    match find_green_street(solution, intersection, time) {
        Some(active) => active == street,
        None => false,
    }
}

/// Find the street that is green for `intersection` at second `time`:
/// the schedule entry the offset `time mod cycle_total` falls into.
pub fn find_green_street(solution: &Solution, intersection: &Intersection, time: u32) -> (found:
    Option<usize>)
    ensures
        found == green_street(*solution, intersection.id, time),
{
    let lights = &solution.traffic_lights;
    let id = intersection.id;
    proof {
        assert(lights@.skip(0) =~= lights@);
    }
    let mut m: usize = 0;
    while m < lights.len()
        invariant
            m <= lights@.len(),
            lights@ == solution.traffic_lights@,
            id == intersection.id,
            find_cycle(solution.traffic_lights@, id) == find_cycle(
                lights@.skip(m as int),
                id,
            ),
        decreases lights@.len() - m,
    {
        proof {
            assert(lights@.skip(m as int)[0] == lights@[m as int]);
            assert(lights@.skip(m as int).drop_first() =~= lights@.skip(m as int + 1));
        }
        if lights[m].0 == id {
            let cycle = &lights[m].1;
            let ghost gcycle = cycle@;
            proof {
                assert(find_cycle(solution.traffic_lights@, id) == Some(gcycle));
                lemma_cycle_total_bounds(gcycle);
                assert(gcycle.skip(0) =~= gcycle);
            }
            // First walk: the total length of one repetition of the cycle.
            let mut total: u128 = 0;
            let mut j: usize = 0;
            while j < cycle.len()
                invariant
                    j <= gcycle.len(),
                    gcycle == cycle@,
                    cycle_total(gcycle) == total + cycle_total(gcycle.skip(j as int)),
                    0 <= total <= cycle_total(gcycle),
                    cycle_total(gcycle) <= gcycle.len() * (u32::MAX as int),
                decreases gcycle.len() - j,
            {
                proof {
                    assert(gcycle.skip(j as int)[0] == gcycle[j as int]);
                    assert(gcycle.skip(j as int).drop_first() =~= gcycle.skip(j as int + 1));
                    lemma_cycle_total_bounds(gcycle.skip(j as int + 1));
                }
                total = total + (cycle[j].1 as u128);
                j = j + 1;
            }
            proof {
                assert(gcycle.skip(gcycle.len() as int) =~= Seq::<(usize, u32)>::empty());
            }
            if total == 0 {
                return None;
            }
            // The offset of `time` into the current repetition.
            let r: u128 = (time as u128) % total;
            let ghost roff = (time as int) % cycle_total(gcycle);
            proof {
                assert(r == roff);
            }
            // Second walk: find the entry the offset falls into.
            let mut rem: u128 = r;
            let mut k: usize = 0;
            proof {
                assert(cycle_total(gcycle) > 0 ==> gcycle.len() > 0);
            }
            let clen = cycle.len();
            loop
                invariant
                    k < gcycle.len(),
                    gcycle.len() == clen,
                    gcycle == cycle@,
                    0 <= rem < cycle_total(gcycle.skip(k as int)),
                    active_street(gcycle, roff) == active_street(
                        gcycle.skip(k as int),
                        rem as int,
                    ),
                    green_street(*solution, intersection.id, time) == Some(
                        active_street(gcycle, roff),
                    ),
                decreases gcycle.len() - k,
            {
                proof {
                    assert(gcycle.skip(k as int)[0] == gcycle[k as int]);
                    assert(gcycle.skip(k as int).drop_first() =~= gcycle.skip(k as int + 1));
                }
                let d = cycle[k].1 as u128;
                if rem < d {
                    return Some(cycle[k].0);
                }
                proof {
                    assert(cycle_total(gcycle.skip(k as int + 1)) > 0 ==> gcycle.skip(
                        k as int + 1,
                    ).len() > 0);
                    lemma_cycle_total_bounds(gcycle.skip(k as int + 1));
                }
                rem = rem - d;
                k = k + 1;
            }
        }
        m = m + 1;
    }
    proof {
        assert(lights@.skip(lights@.len() as int) =~= Seq::<(u32, Vec<(usize, u32)>)>::empty());
    }
    None
}

/// Some car's route uses street `s`.
pub open spec fn street_used(problem: Problem, s: usize) -> bool {
    exists|c: int, j: int|
        0 <= c < problem.cars@.len() && 0 <= j < problem.cars@[c].path_to_take@.len() && (
        #[trigger] problem.cars@[c].path_to_take@[j]) == s
}

/// The schedule entries of the incoming streets that at least one car
/// uses, in their existing relative order, each with a green duration
/// of one second.
pub open spec fn used_entries(problem: Problem, inc: Seq<usize>) -> Seq<(usize, u32)>
    decreases inc.len(),
{
    if inc.len() == 0 {
        Seq::empty()
    } else {
        let rest = used_entries(problem, inc.drop_first());
        if street_used(problem, inc[0]) {
            seq![(inc[0], 1u32)] + rest
        } else {
            rest
        }
    }
}

/// The cycle the greedy builder owes intersection `i`: a sole incoming
/// street is green for the whole cycle; with two or more incoming
/// streets, the ones that carry at least one car each get one second,
/// and an intersection none of whose approaches is used — or with no
/// incoming street at all — gets no schedule entry.
pub open spec fn expected_cycle(problem: Problem, i: Intersection) -> Option<Seq<(usize, u32)>> {
    if i.incoming_streets@.len() == 1 {
        Some(seq![(i.incoming_streets@[0], 1u32)])
    } else if i.incoming_streets@.len() >= 2 && used_entries(problem, i.incoming_streets@).len()
        > 0 {
        Some(used_entries(problem, i.incoming_streets@))
    } else {
        None
    }
}

/// Build the cyclic green-light schedule for every intersection of the
/// problem: for each intersection, exactly the cycle that
/// `expected_cycle` describes, and no entry for any other id.
pub fn solve(problem: &Problem) -> (solution: Solution)
    requires
        problem.paths_in_range(),
        problem.incoming_in_range(),
        problem.intersection_ids_distinct(),
    ensures
        forall|k: int|
            0 <= k < problem.intersections@.len() ==> find_cycle(
                solution.traffic_lights@,
                (#[trigger] problem.intersections@[k]).id,
            ) == expected_cycle(*problem, problem.intersections@[k]),
        forall|id: u32|
            (forall|k: int|
                0 <= k < problem.intersections@.len()
                    ==> (#[trigger] problem.intersections@[k]).id != id) ==> (#[trigger] find_cycle(
                solution.traffic_lights@,
                id,
            )) is None,
{
    let n_streets = problem.streets.len();
    let n_cars = problem.cars.len();
    // First pass: mark every street that some car's route uses.
    let mut used: Vec<bool> = vec![false; n_streets];
    let mut c: usize = 0;
    while c < n_cars
        invariant
            c <= n_cars,
            n_cars == problem.cars@.len(),
            n_streets == problem.streets@.len(),
            used@.len() == n_streets,
            problem.paths_in_range(),
            forall|c2: int, j: int|
                0 <= c2 < c && 0 <= j < problem.cars@[c2].path_to_take@.len() ==> used@[(
                #[trigger] problem.cars@[c2].path_to_take@[j]) as int],
            forall|s: int| 0 <= s < n_streets && #[trigger] used@[s] ==> street_used(
                *problem,
                s as usize,
            ),
        decreases n_cars - c,
    {
        let plen = problem.cars[c].path_to_take.len();
        let mut j: usize = 0;
        while j < plen
            invariant
                c < n_cars,
                j <= plen,
                n_cars == problem.cars@.len(),
                n_streets == problem.streets@.len(),
                used@.len() == n_streets,
                problem.paths_in_range(),
                plen == problem.cars@[c as int].path_to_take@.len(),
                forall|c2: int, j2: int|
                    0 <= c2 < c && 0 <= j2 < problem.cars@[c2].path_to_take@.len() ==> used@[(
                    #[trigger] problem.cars@[c2].path_to_take@[j2]) as int],
                forall|j2: int|
                    0 <= j2 < j ==> used@[(
                    #[trigger] problem.cars@[c as int].path_to_take@[j2]) as int],
                forall|s: int| 0 <= s < n_streets && #[trigger] used@[s] ==> street_used(
                    *problem,
                    s as usize,
                ),
            decreases plen - j,
        {
            let s = problem.cars[c].path_to_take[j];
            proof {
                assert(problem.cars@[c as int].path_to_take@[j as int] == s);
                assert(s < n_streets);
                assert(street_used(*problem, s));
            }
            used[s] = true;
            j = j + 1;
        }
        c = c + 1;
    }
    // Second pass: one cycle per intersection, as the policy demands.
    let n_inters = problem.intersections.len();
    let mut lights: Vec<(u32, Vec<(usize, u32)>)> = Vec::new();
    let mut k: usize = 0;
    while k < n_inters
        invariant
            k <= n_inters,
            n_inters == problem.intersections@.len(),
            n_streets == problem.streets@.len(),
            used@.len() == n_streets,
            problem.incoming_in_range(),
            problem.intersection_ids_distinct(),
            forall|s: int|
                0 <= s < n_streets ==> ((#[trigger] used@[s]) <==> street_used(
                    *problem,
                    s as usize,
                )),
            forall|k2: int|
                0 <= k2 < k ==> match expected_cycle(
                    *problem,
                    #[trigger] problem.intersections@[k2],
                ) {
                    Some(cyc) => exists|m: int|
                        0 <= m < lights@.len() && (#[trigger] lights@[m]).0
                            == problem.intersections@[k2].id && lights@[m].1@ == cyc,
                    None => forall|m: int|
                        0 <= m < lights@.len() ==> (#[trigger] lights@[m]).0
                            != problem.intersections@[k2].id,
                },
            forall|m: int|
                0 <= m < lights@.len() ==> exists|k2: int|
                    0 <= k2 < k && (#[trigger] lights@[m]).0 == problem.intersections@[k2].id,
            forall|m1: int, m2: int|
                0 <= m1 < m2 < lights@.len() ==> (#[trigger] lights@[m1]).0 != (
                #[trigger] lights@[m2]).0,
        decreases n_inters - k,
    {
        let inc_len = problem.intersections[k].incoming_streets.len();
        let iid = problem.intersections[k].id;
        proof {
            assert forall|m: int| 0 <= m < lights@.len() implies (#[trigger] lights@[m]).0
                != iid by {
                let k2 = choose|k2: int|
                    0 <= k2 < k && lights@[m].0 == problem.intersections@[k2].id;
                assert(problem.intersections@[k2].id != problem.intersections@[k as int].id);
            }
        }
        let ghost old_lights = lights@;
        if inc_len == 1 {
            let mut cyc: Vec<(usize, u32)> = Vec::new();
            cyc.push((problem.intersections[k].incoming_streets[0], 1u32));
            proof {
                assert(cyc@ =~= seq![
                    (problem.intersections@[k as int].incoming_streets@[0], 1u32),
                ]);
            }
            lights.push((iid, cyc));
            proof {
                assert(lights@[lights@.len() - 1].0 == problem.intersections@[k as int].id);
                assert(lights@[lights@.len() - 1].1@ == seq![
                    (problem.intersections@[k as int].incoming_streets@[0], 1u32),
                ]);
            }
        } else if inc_len >= 2 {
            let ghost ginc = problem.intersections@[k as int].incoming_streets@;
            let mut entries: Vec<(usize, u32)> = Vec::new();
            let mut j: usize = 0;
            proof {
                assert(ginc.skip(0) =~= ginc);
            }
            while j < inc_len
                invariant
                    j <= inc_len,
                    k < n_inters,
                    n_inters == problem.intersections@.len(),
                    n_streets == problem.streets@.len(),
                    used@.len() == n_streets,
                    problem.incoming_in_range(),
                    ginc == problem.intersections@[k as int].incoming_streets@,
                    inc_len == ginc.len(),
                    forall|s: int|
                        0 <= s < n_streets ==> ((#[trigger] used@[s]) <==> street_used(
                            *problem,
                            s as usize,
                        )),
                    used_entries(*problem, ginc) == entries@ + used_entries(
                        *problem,
                        ginc.skip(j as int),
                    ),
                decreases inc_len - j,
            {
                proof {
                    assert(ginc.skip(j as int)[0] == ginc[j as int]);
                    assert(ginc.skip(j as int).drop_first() =~= ginc.skip(j as int + 1));
                    assert(ginc[j as int] < n_streets);
                }
                let s = problem.intersections[k].incoming_streets[j];
                if used[s] {
                    entries.push((s, 1u32));
                    proof {
                        assert(entries@ =~= entries@.drop_last() + seq![(s, 1u32)]);
                        assert((entries@.drop_last() + seq![(s, 1u32)]) + used_entries(
                            *problem,
                            ginc.skip(j as int + 1),
                        ) =~= entries@.drop_last() + (seq![(s, 1u32)] + used_entries(
                            *problem,
                            ginc.skip(j as int + 1),
                        )));
                    }
                }
                j = j + 1;
            }
            proof {
                assert(ginc.skip(inc_len as int) =~= Seq::<usize>::empty());
                assert(entries@ + Seq::<(usize, u32)>::empty() =~= entries@);
                assert(entries@ == used_entries(*problem, ginc));
            }
            if entries.len() > 0 {
                lights.push((iid, entries));
                proof {
                    assert(lights@[lights@.len() - 1].0 == problem.intersections@[k as int].id);
                    assert(lights@[lights@.len() - 1].1@ == used_entries(*problem, ginc));
                }
            } else {
                proof {
                    assert(used_entries(*problem, ginc).len() == 0);
                    assert(expected_cycle(*problem, problem.intersections@[k as int]) is None);
                }
            }
        } else {
            proof {
                assert(expected_cycle(*problem, problem.intersections@[k as int]) is None);
            }
        }
        proof {
            assert(forall|m: int|
                0 <= m < old_lights.len() ==> #[trigger] lights@[m] == old_lights[m]);
            assert forall|k2: int| 0 <= k2 < k + 1 implies match expected_cycle(
                *problem,
                #[trigger] problem.intersections@[k2],
            ) {
                Some(cyc) => exists|m: int|
                    0 <= m < lights@.len() && (#[trigger] lights@[m]).0
                        == problem.intersections@[k2].id && lights@[m].1@ == cyc,
                None => forall|m: int|
                    0 <= m < lights@.len() ==> (#[trigger] lights@[m]).0
                        != problem.intersections@[k2].id,
            } by {
                let i2 = problem.intersections@[k2];
                if k2 < k as int {
                    match expected_cycle(*problem, i2) {
                        Some(cyc) => {
                            let m = choose|m: int|
                                0 <= m < old_lights.len() && old_lights[m].0 == i2.id
                                    && old_lights[m].1@ == cyc;
                            assert(lights@[m] == old_lights[m]);
                        },
                        None => {
                            assert(i2.id != problem.intersections@[k as int].id);
                            assert forall|m: int| 0 <= m < lights@.len() implies (
                            #[trigger] lights@[m]).0 != i2.id by {
                                if m < old_lights.len() {
                                    assert(old_lights[m].0 != i2.id);
                                } else {
                                    assert(lights@[m].0 == iid);
                                }
                            }
                        },
                    }
                } else {
                    match expected_cycle(*problem, i2) {
                        Some(cyc) => {
                            assert(lights@[lights@.len() - 1].0 == i2.id && lights@[lights@.len()
                                - 1].1@ == cyc);
                        },
                        None => {
                            assert forall|m: int| 0 <= m < lights@.len() implies (
                            #[trigger] lights@[m]).0 != i2.id by {
                                assert(lights@[m] == old_lights[m]);
                            }
                        },
                    }
                }
            }
        }
        k = k + 1;
    }
    let solution = Solution { traffic_lights: lights };
    proof {
        assert forall|k2: int| 0 <= k2 < problem.intersections@.len() implies find_cycle(
            solution.traffic_lights@,
            (#[trigger] problem.intersections@[k2]).id,
        ) == expected_cycle(*problem, problem.intersections@[k2]) by {
            match expected_cycle(*problem, problem.intersections@[k2]) {
                Some(cyc) => {
                    let m = choose|m: int|
                        0 <= m < lights@.len() && lights@[m].0 == problem.intersections@[k2].id
                            && lights@[m].1@ == cyc;
                    lemma_find_cycle_hit(lights@, m);
                },
                None => {
                    lemma_find_cycle_miss(lights@, problem.intersections@[k2].id);
                },
            }
        }
        assert forall|id: u32|
            (forall|k2: int|
                0 <= k2 < problem.intersections@.len()
                    ==> (#[trigger] problem.intersections@[k2]).id != id) implies (
        #[trigger] find_cycle(solution.traffic_lights@, id)) is None by {
            assert forall|m: int| 0 <= m < lights@.len() implies (#[trigger] lights@[m]).0
                != id by {
                let k2 = choose|k2: int|
                    0 <= k2 < problem.intersections@.len() && lights@[m].0
                        == problem.intersections@[k2].id;
            }
            lemma_find_cycle_miss(lights@, id);
        }
    }
    solution
}

/// Law: an intersection with a single incoming street has that street
/// green at every second, under any solution that schedules it the way
/// the builder does.
pub proof fn lemma_single_incoming_always_green(
    problem: Problem,
    solution: Solution,
    i: Intersection,
    time: u32,
)
    requires
        i.incoming_streets@.len() == 1,
        find_cycle(solution.traffic_lights@, i.id) == expected_cycle(problem, i),
    ensures
        green_street(solution, i.id, time) == Some(i.incoming_streets@[0]),
{
    let cyc = seq![(i.incoming_streets@[0], 1u32)];
    assert(cyc.drop_first() =~= Seq::<(usize, u32)>::empty());
    assert(cycle_total(Seq::<(usize, u32)>::empty()) == 0);
    assert(cycle_total(cyc) == 1);
    assert((time as int) % 1 == 0);
    assert(active_street(cyc, 0) == i.incoming_streets@[0]);
}

} // verus!
