//! A fixture engine for test harnesses.
//!
//! Fixtures are named value providers with a scope and dependencies on other
//! fixtures. The engine expands parametrized fixtures into the cartesian
//! product of their dimensions, builds each value lazily with the caching
//! policy of its scope, assembles named test cases, and tears values down
//! exactly once.
mod arith;
mod context;
mod display;
mod fixture;
mod laws;
mod matrix;
mod naming;
mod registry;

pub use arith::{add, addition};
pub use context::{body_ran, constructed, ctor_error, TestContext};
pub use display::{FixtureDisplay, ParamName, ToParamName};
pub use laws::{
    lemma_build_keeps_shared_values, lemma_case_names, lemma_cases_in_matrix_order,
    lemma_global_shared, lemma_once_fresh, lemma_teardown_once, lemma_test_fresh_per_test,
    lemma_test_shared_within_test,
};
pub use fixture::{
    BuildableFixture, CallArgs, FixtureCell, FixtureCreationError, FixtureDef, FixtureScope,
    FixtureTeardown, LazyValue, Proxy,
};
pub use matrix::{lemma_cartesian_complete, Duplicate, ProxyCombination, ProxyMatrix};
pub use naming::{combination_name, join_strings, present_strings, test_case_name, TestName};
pub use registry::FixtureRegistry;
pub use test::{fixture_failure, test_outcome, InnerTestError, Test, TestDef, TestRunner};
