//! Request routing.
//!
//! A [`router::Router`] is a tree whose nodes hold filters, middleware and goals. A
//! request is routed by a depth-first search for the first goal whose path from the
//! root lets the request through. [`compiled_router::CompiledRouter`] does the same
//! search by a plan that it compiles from the tree: nodes with many children are
//! given an index over the path segment that comes next.
//!
//! - Values: [`http`], [`path_state`], [`text`], [`tags`].
//! - Filters: [`filters`] with the trait and the constructors, [`opts`] with the
//!   composites, [`others`] and [`path_filter`] with the filters on a request and on
//!   its path, [`path_pattern`] and [`pattern`] with the syntax of path patterns.
//! - Detection: [`router`] with the tree, [`semantics`] with what a detection may come
//!   to, [`filter_plan`], [`dispatch`] and [`plan`] with the compiled plan, [`walk`] and
//!   [`detect`] with the search, [`compiled_router`] with the result.
//! - OpenAPI: [`normalize`] for path patterns, [`oapi`] for the tree.
//! - What holds of all of it: [`conduct`] for what filters may do, [`filter_laws`] and
//!   [`composite_laws`] for filters, [`path_laws`] and [`capture_laws`] for path patterns,
//!   [`laws`], [`detection_laws`] and [`route_laws`] for detection, [`plan_laws`],
//!   [`normalize_laws`] and [`oapi_laws`], and [`view_laws`] for how results read.
//! - [`std_specs`] holds what is taken on trust of `std`.

pub mod capture_laws;
pub mod compiled_router;
pub mod composite_laws;
pub mod conduct;
pub mod detect;
pub mod detection_laws;
pub mod dispatch;
pub mod filter_laws;
pub mod filter_plan;
pub mod filters;
pub mod http;
pub mod laws;
pub mod normalize;
pub mod normalize_laws;
pub mod oapi;
pub mod oapi_laws;
pub mod opts;
pub mod others;
pub mod path_filter;
pub mod path_laws;
pub mod path_pattern;
pub mod path_state;
pub mod pattern;
pub mod plan;
pub mod plan_laws;
pub mod route_laws;
pub mod router;
pub mod semantics;
pub mod std_specs;
pub mod tags;
pub mod text;
pub mod view_laws;
pub mod walk;
