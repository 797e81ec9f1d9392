//! Traffic-light scheduling and simulation for a road network.
//!
//! A `Problem` describes a network of streets and intersections together
//! with a fleet of cars, each following a fixed route. `solve` derives a
//! cyclic green-light schedule for every contended intersection, `simulate`
//! advances all cars through the network one second at a time under that
//! schedule, and `calculate_score` turns the recorded arrival times into a
//! single numeric objective.

mod laws;
mod model;
mod schedule;
mod score;
mod sim;

pub use schedule::active_street;
pub use schedule::cycle_total;
pub use schedule::expected_cycle;
pub use schedule::find_cycle;
pub use schedule::find_green_street;
pub use schedule::green_street;
pub use schedule::is_light_green;
pub use schedule::lemma_single_incoming_always_green;
pub use schedule::solve;
pub use schedule::street_used;
pub use schedule::used_entries;

pub use score::calculate_score;
pub use score::car_score;
pub use score::lemma_score_determined_by_arrivals;
pub use score::lemma_score_monotonic_in_bonus;
pub use score::score_sum;
pub use score::spec_score;
pub use score::arrivals_within;
pub use model::Car;
pub use model::CarModel;
pub use model::find_street_index;
pub use model::initial_queue;
pub use model::Intersection;
pub use model::Problem;
pub use model::SimState;
pub use model::SimulationError;
pub use model::Solution;
pub use model::Street;
pub use model::StreetModel;
pub use laws::arrived_count;
pub use laws::entries_injective;
pub use laws::entries_wf;
pub use laws::lemma_arrivals_within_horizon;
pub use laws::lemma_run_conserves_cars;
pub use laws::lemma_step_conserves_cars;
pub use laws::paths_ok;
pub use laws::pending_wf;
pub use laws::state_wf;
pub use laws::total_queued;
pub use sim::cross_all;
pub use sim::cross_one;
pub use sim::dec_entry;
pub use sim::dec_queue_spec;
pub use sim::dec_state;
pub use sim::dec_street;
pub use sim::first_waiting;
pub use sim::lemma_release_keeps_cars;
pub use sim::lemma_simulate_deterministic;
pub use sim::release_pending;
pub use sim::run_state;
pub use sim::simulate;
pub use sim::simulate_step;
pub use sim::step_state;
