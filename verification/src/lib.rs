//! Force-directed 2D graph layout over fixed-point (integer) coordinates.
//!
//! The engine simulates attractive spring forces along directed edges and
//! repulsive charges between every pair of nodes, taking a fixed-magnitude
//! step per node in the direction of the net force, with an adaptive step
//! length controller and a maximum-displacement convergence test.

mod adjacency;
mod controller;
mod engine;
mod forces;
mod graph;
mod laws;
mod math;

pub use laws::lemma_attraction_moves_source;
pub use laws::lemma_axis_shift;
pub use laws::lemma_layout_deterministic;
pub use laws::lemma_pair_forces;
pub use laws::lemma_pure_repulsion_separates;
pub use laws::lemma_single_node_converges;
pub use laws::lemma_single_node_graph_converges;
pub use laws::lemma_sqrt_of_square;
pub use laws::lemma_step_growth_after_five;
pub use laws::lemma_step_shrink_on_regression;
pub use engine::disp_sq;
pub use engine::layout;
pub use engine::positions_in_range;
pub use engine::run_spec;
pub use engine::within_displacement;
pub use engine::LayoutStatus;
pub use controller::improves;
pub use controller::next_progress;
pub use controller::next_step_length;
pub use controller::option_view;
pub use controller::update_step_length;
pub use controller::PROGRESS_LIMIT;

pub use forces::attr_sum_x;
pub use forces::attr_sum_y;
pub use forces::attr_x;
pub use forces::attr_y;
pub use forces::adj_view;
pub use forces::energy_of;
pub use forces::energy_upto;
pub use forces::force_len_sq;
pub use forces::force_x;
pub use forces::force_y;
pub use forces::layout_step;
pub use forces::net_force;
pub use forces::new_pos_at;
pub use forces::pos_view;
pub use forces::rep_sum_x;
pub use forces::rep_sum_y;
pub use forces::rep_x;
pub use forces::rep_y;
pub use forces::shift_x;
pub use forces::shift_y;
pub use forces::stepped;
pub use forces::ATTR_TERM_BOUND;
pub use forces::FORCE_BOUND;
pub use forces::REP_TERM_BOUND;

pub use adjacency::adjacency_of;
pub use adjacency::build_adjacency;
pub use adjacency::successors;
pub use adjacency::successors_upto;

pub use graph::Color;
pub use graph::Edge;
pub use graph::Graph;
pub use graph::Node;
pub use graph::find_node;
pub use graph::has_node_id;
pub use graph::ids_unique;
pub use graph::node_index;
pub use graph::positions_of;
pub use graph::same_topology;
pub use graph::MAX_COORD;
pub use graph::MAX_EDGES;
pub use graph::MAX_NODES;
pub use graph::MAX_PARAM;
pub use graph::MAX_STEP;
pub use math::is_sqrt_floor;
pub use math::isqrt;
pub use math::mul_div;
pub use math::scaled_div;
pub use math::sqrt_floor;
