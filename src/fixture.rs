use vstd::prelude::*;
use crate::matrix::{Duplicate, ProxyCombination};
use crate::naming::{opt_view, TestName};

verus! {

/// How long a fixture value lives, and who shares it.
#[derive(Clone, Copy, PartialEq, Eq, Structural, Debug)]
pub enum FixtureScope {
    /// Built anew on every request; shared by nobody.
    Once,
    /// Shared by the combinations of the one matrix that requested it.
    MatrixUnique,
    /// Built once per test, shared by every fixture of that test.
    Test,
    /// Built once per run, shared by every test.
    Global,
}

/// The failure of a fixture's constructor, with the fixture's name.
#[derive(Debug)]
pub struct FixtureCreationError {
    pub fixture_name: String,
    pub error: String,
}

impl FixtureCreationError {
    pub fn new(fixture_name: &str, error: String) -> (r: Self)
        ensures
            r.fixture_name@ == fixture_name@,
            r.error@ == error@,
    {
        FixtureCreationError { fixture_name: String::from_str(fixture_name), error }
    }
}

/// A duplicable reference to a fixture cell, with the display name of the
/// combination the cell was made from.
#[derive(Debug, PartialEq, Eq)]
pub struct Proxy {
    pub cell: usize,
    pub name: Option<String>,
}

/// A copy of an optional display name.
pub fn clone_name(n: &Option<String>) -> (r: Option<String>)
    ensures
        r == *n,
{
    match n {
        Some(s) => Some(s.clone()),
        None => None,
    }
}

impl Duplicate for Proxy {
    fn duplicate(&self) -> (r: Self) {
        Proxy { cell: self.cell, name: clone_name(&self.name) }
    }
}

impl TestName for Proxy {
    open spec fn spec_name(&self) -> Option<Seq<char>> {
        opt_view(self.name)
    }

    fn name(&self) -> (r: Option<String>) {
        clone_name(&self.name)
    }
}

/// The declaration of a fixture provider.
///
/// `deps` are the providers whose values the constructor takes, in order;
/// each was declared before this one. `params`, when present, is the
/// explicit parameter list: handles to the parameter values, fed as the last
/// dimension of the provider's matrix.
pub struct FixtureDef {
    pub name: String,
    pub scope: FixtureScope,
    pub deps: Vec<usize>,
    pub params: Option<Vec<Proxy>>,
    pub teardown: bool,
}

/// A built value, and whether its provider has a teardown callback.
pub struct FixtureTeardown<V> {
    pub value: V,
    pub teardown: bool,
}

impl<V> FixtureTeardown<V> {
    pub fn new(value: V, teardown: bool) -> (r: Self)
        ensures
            r.value == value,
            r.teardown == teardown,
    {
        FixtureTeardown { value, teardown }
    }
}

/// The state of a fixture cell: either the combination of sub-fixtures still
/// to be built, or the built value.
pub enum LazyValue<V> {
    Value(FixtureTeardown<V>),
    Proxies(ProxyCombination<Proxy>),
}

/// One cell of the fixture arena.
///
/// `torn` is set when the value has been released; the teardown callback
/// runs at that moment, once.
pub struct FixtureCell<V> {
    pub provider: usize,
    pub state: LazyValue<V>,
    pub torn: bool,
}

/// The values a constructor receives: one per dependency, then the
/// parameter, in declaration order.
pub struct CallArgs<V>(pub Vec<V>);

/// The constructors and teardown callbacks of the declared providers.
///
/// `build_fixt` makes the value of `provider` from the values of its
/// dependencies, or fails with a message; `teardown` cleans a value up
/// before it is discarded.
pub trait BuildableFixture<V> {
    fn build_fixt(&self, provider: usize, args: CallArgs<V>) -> Result<V, String>;

    fn teardown(&self, provider: usize, value: &mut V);
}

} // verus!
