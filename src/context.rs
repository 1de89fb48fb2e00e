use vstd::prelude::*;
use vstd::pervasive::{cloned, unreached};
use crate::fixture::{
    BuildableFixture, CallArgs, FixtureCell, FixtureCreationError, FixtureDef, FixtureScope,
    FixtureTeardown, LazyValue, Proxy,
};
use crate::matrix::{
    cartesian, coords, duplicate_vec, lemma_cartesian_complete, lemma_cartesian_element, pick,
    product,
    ProxyCombination, ProxyMatrix,
};
use crate::naming::{combination_name_of, element_names, opt_view, TestName};
use crate::registry::FixtureRegistry;
use crate::naming::{test_case_name, test_case_name_of};
use crate::test::{
    fixture_failure, fixture_failure_text, outcome_of, result_view, test_outcome, InnerTestError,
    Test, TestDef, TestRunner,
};

verus! {

/// The fixture engine: the declared providers, the arena of fixture cells,
/// the registry of the whole run and the registry of the current test.
///
/// Cells are never removed: a proxy is the index of its cell, so duplicates
/// of a proxy always reach the same cell.
///
/// Policies: the engine is used through `&mut`, so the first build of a
/// cell is never raced; a failed construction leaves the cell unbuilt, and
/// the next request tries again; values made only for one request (Once
/// providers) are released right after that use; the values of a test's Test
/// and MatrixUnique providers are released when the test ends, and those of
/// Global providers when the run ends.
pub struct TestContext<V> {
    defs: Vec<FixtureDef>,
    cells: Vec<FixtureCell<V>>,
    global_reg: FixtureRegistry,
    reg: FixtureRegistry,
    released: Ghost<Seq<usize>>,
}

/// Every proxy of `s` points below `n`.
pub open spec fn proxies_below(s: Seq<Proxy>, n: int) -> bool {
    forall|j: int| 0 <= j < s.len() ==> #[trigger] s[j].cell < n
}

/// Every proxy stored in the registry points below `n`.
pub open spec fn registry_below(r: FixtureRegistry, n: int) -> bool {
    forall|p: int| #[trigger] r.lookup(p) is Some ==> proxies_below(r.lookup(p).unwrap(), n)
}

/// The registry entries of `pre` are still in `post`, and providers above
/// `p` gained none.
pub open spec fn registry_grows(pre: FixtureRegistry, post: FixtureRegistry, p: int) -> bool {
    &&& forall|q: int| #[trigger] pre.lookup(q) is Some ==> post.lookup(q) == pre.lookup(q)
    &&& forall|q: int| q > p ==> #[trigger] post.lookup(q) == pre.lookup(q)
}

/// `r` is what the constructor of provider `p` returns for `args`.
pub open spec fn constructed<V, D: BuildableFixture<V>>(
    defs: &D,
    p: usize,
    args: CallArgs<V>,
    r: Result<V, String>,
) -> bool {
    call_ensures(D::build_fixt, (defs, p, args), r)
}

/// `e` is an error some constructor returned, under its provider's name.
pub open spec fn ctor_error<V, D: BuildableFixture<V>>(
    defs: &D,
    decls: Seq<FixtureDef>,
    e: FixtureCreationError,
) -> bool {
    exists|q: usize, args: CallArgs<V>|
        q < decls.len() && e.fixture_name == decls[q as int].name && #[trigger] constructed(
            defs,
            q,
            args,
            Err(e.error),
        )
}

/// How many parameter values a provider declares: the length of its list,
/// or one when it declares none.
pub open spec fn param_count(d: FixtureDef) -> nat {
    match d.params {
        Some(ps) => ps@.len(),
        None => 1,
    }
}

/// How many proxies a setup of provider `p` hands back: the product of the
/// counts of its dependencies, times its number of parameter values.
pub open spec fn proxy_count(defs: Seq<FixtureDef>, p: nat) -> nat
    decreases p, defs[p as int].deps@.len() + 1,
{
    if p < defs.len() {
        list_count(defs, defs[p as int].deps@, p) * param_count(defs[p as int])
    } else {
        0
    }
}

/// The product of the proxy counts of the providers `deps`; a provider not
/// below `bound` counts as none.
pub open spec fn list_count(defs: Seq<FixtureDef>, deps: Seq<usize>, bound: nat) -> nat
    decreases bound, deps.len(),
{
    if deps.len() == 0 {
        1
    } else {
        let d = deps.last();
        list_count(defs, deps.drop_last(), bound) * (if (d as nat) < bound {
            proxy_count(defs, d as nat)
        } else {
            0
        })
    }
}

proof fn lemma_count_extend(defs: Seq<FixtureDef>, x: FixtureDef, p: nat)
    requires
        p < defs.len(),
    ensures
        proxy_count(defs.push(x), p) == proxy_count(defs, p),
    decreases p, defs[p as int].deps@.len() + 1,
{
    assert(defs.push(x)[p as int] == defs[p as int]);
    lemma_list_extend(defs, x, defs[p as int].deps@, p);
}

proof fn lemma_list_extend(defs: Seq<FixtureDef>, x: FixtureDef, deps: Seq<usize>, bound: nat)
    requires
        bound <= defs.len(),
    ensures
        list_count(defs.push(x), deps, bound) == list_count(defs, deps, bound),
    decreases bound, deps.len(),
{
    if deps.len() > 0 {
        lemma_list_extend(defs, x, deps.drop_last(), bound);
        let d = deps.last();
        if (d as nat) < bound {
            lemma_count_extend(defs, x, d as nat);
        }
    }
}

/// Every list the registry holds is that of a declared provider, as long as
/// a setup of it.
pub open spec fn registry_counted(r: FixtureRegistry, defs: Seq<FixtureDef>) -> bool {
    forall|p: int| #[trigger] r.lookup(p) is Some ==> 0 <= p < defs.len() && r.lookup(p).unwrap().len()
        == proxy_count(defs, p as nat)
}

/// Every proxy of `s` points to a cell of provider `p`.
pub open spec fn proxies_of<V>(cells: Seq<FixtureCell<V>>, s: Seq<Proxy>, p: int) -> bool {
    forall|j: int| 0 <= j < s.len() ==> #[trigger] cells[s[j].cell as int].provider == p
}

/// Every list the registry holds for a provider points to cells of it.
pub open spec fn registry_owned<V>(r: FixtureRegistry, cells: Seq<FixtureCell<V>>) -> bool {
    forall|p: int| #[trigger] r.lookup(p) is Some ==> proxies_of(cells, r.lookup(p).unwrap(), p)
}

impl<V> TestContext<V> {
    pub closed spec fn spec_defs(&self) -> Seq<FixtureDef> {
        self.defs@
    }

    pub closed spec fn spec_cells(&self) -> Seq<FixtureCell<V>> {
        self.cells@
    }

    pub closed spec fn spec_global(&self) -> FixtureRegistry {
        self.global_reg
    }

    pub closed spec fn spec_reg(&self) -> FixtureRegistry {
        self.reg
    }

    /// The cells whose teardown callback has run, in the order it ran.
    pub closed spec fn spec_released(&self) -> Seq<usize> {
        self.released@
    }

    /// The scope of provider `p`.
    pub open spec fn scope(&self, p: int) -> FixtureScope {
        self.spec_defs()[p].scope
    }

    /// The scope of the provider of cell `c`.
    pub open spec fn cell_scope(&self, c: int) -> FixtureScope {
        self.scope(self.spec_cells()[c].provider as int)
    }

    /// What the registry of `p`'s scope holds for `p`; Once and MatrixUnique
    /// providers are never registered.
    pub open spec fn scope_lookup(&self, p: int) -> Option<Seq<Proxy>> {
        match self.scope(p) {
            FixtureScope::Global => self.spec_global().lookup(p),
            FixtureScope::Test => self.spec_reg().lookup(p),
            _ => None,
        }
    }

    /// Cell `c` holds a built value.
    pub open spec fn is_built(&self, c: int) -> bool {
        self.spec_cells()[c].state is Value
    }

    /// Cell `c` holds a built value, or belongs to a Once provider, whose
    /// cells are never built themselves.
    pub open spec fn built_or_once(&self, c: int) -> bool {
        self.is_built(c) || self.cell_scope(c) == FixtureScope::Once
    }

    /// Cell `c` holds a built value whose provider has a teardown callback.
    pub open spec fn has_teardown(&self, c: int) -> bool {
        match self.spec_cells()[c].state {
            LazyValue::Value(ft) => ft.teardown,
            LazyValue::Proxies(_) => false,
        }
    }

    pub open spec fn def_wf(&self, p: int) -> bool {
        let d = self.spec_defs()[p];
        &&& forall|j: int| 0 <= j < d.deps@.len() ==> #[trigger] d.deps@[j] < p
        &&& match d.params {
            Some(ps) => forall|j: int|
                0 <= j < ps@.len() ==> #[trigger] ps@[j].cell < self.spec_cells().len()
                    && self.is_built(ps@[j].cell as int),
            None => true,
        }
    }

    pub open spec fn cell_wf(&self, c: int) -> bool {
        let cell = self.spec_cells()[c];
        &&& (cell.state is Proxies || self.has_teardown(c)) ==> cell.provider
            < self.spec_defs().len()
        &&& match cell.state {
            LazyValue::Proxies(combo) => proxies_below(combo@, c) && !cell.torn,
            LazyValue::Value(_) => true,
        }
        &&& (cell.torn && self.has_teardown(c)) ==> self.spec_released().contains(c as usize)
    }

    /// The engine's invariant.
    pub open spec fn wf(&self) -> bool {
        let n = self.spec_cells().len() as int;
        let log = self.spec_released();
        &&& forall|p: int| 0 <= p < self.spec_defs().len() ==> #[trigger] self.def_wf(p)
        &&& forall|c: int| 0 <= c < n ==> #[trigger] self.cell_wf(c)
        &&& registry_below(self.spec_global(), n)
        &&& registry_below(self.spec_reg(), n)
        &&& registry_counted(self.spec_global(), self.spec_defs())
        &&& registry_counted(self.spec_reg(), self.spec_defs())
        &&& registry_owned(self.spec_global(), self.spec_cells())
        &&& registry_owned(self.spec_reg(), self.spec_cells())
        &&& log.no_duplicates()
        &&& forall|k: int|
            0 <= k < log.len() ==> #[trigger] log[k] < n && self.spec_cells()[log[k] as int].torn
                && self.has_teardown(log[k] as int)
    }

    /// `post` holds the cells of `pre` unchanged, and maybe more after them.
    pub open spec fn cells_extend(pre: Self, post: Self) -> bool {
        &&& post.spec_cells().len() >= pre.spec_cells().len()
        &&& forall|c: int|
            0 <= c < pre.spec_cells().len() ==> #[trigger] post.spec_cells()[c]
                == pre.spec_cells()[c]
    }

    /// The proxies `r` point to new consecutive cells of provider `p`, each
    /// named after its combination.
    pub open spec fn fresh_proxies(pre: Self, p: int, r: Seq<Proxy>, post: Self) -> bool {
        forall|k: int|
            0 <= k < r.len() ==> {
                &&& #[trigger] r[k].cell == r[0].cell + k
                &&& r[k].cell >= pre.spec_cells().len()
                &&& post.spec_cells()[r[k].cell as int].provider == p
                &&& match post.spec_cells()[r[k].cell as int].state {
                    LazyValue::Proxies(combo) => opt_view(r[k].name) == combination_name_of(
                        element_names(combo@),
                    ),
                    LazyValue::Value(_) => false,
                }
            }
    }

    /// The combination cell `c` was made from, while it is unbuilt.
    pub open spec fn combo_of(&self, c: int) -> Seq<Proxy> {
        match self.spec_cells()[c].state {
            LazyValue::Proxies(combo) => combo@,
            LazyValue::Value(_) => Seq::empty(),
        }
    }

    /// `dims` are the dimensions of a setup of provider `p`: for each
    /// dependency, in order, a list of its proxies as long as a setup of it,
    /// then the parameter list when `p` declares one.
    pub open spec fn setup_dims(&self, p: int, dims: Seq<Seq<Proxy>>) -> bool {
        let d = self.spec_defs()[p];
        let deps = d.deps@;
        &&& dims.len() == deps.len() + (if d.params is Some { 1int } else { 0int })
        &&& forall|t: int|
            0 <= t < deps.len() ==> proxies_of(self.spec_cells(), #[trigger] dims[t], deps[t] as int)
                && dims[t].len() == proxy_count(self.spec_defs(), deps[t] as nat)
        &&& d.params matches Some(ps) ==> dims[deps.len() as int] == ps@
    }

    /// Proxy `k` of `r` points to cell `start + k`, a new cell of provider
    /// `p` named after its combination.
    pub open spec fn made_cell(&self, r: Seq<Proxy>, k: int, start: int, p: int) -> bool {
        &&& r[k].cell == start + k
        &&& self.spec_cells()[start + k].provider == p
        &&& match self.spec_cells()[start + k].state {
            LazyValue::Proxies(combo) => opt_view(r[k].name) == combination_name_of(
                element_names(combo@),
            ),
            LazyValue::Value(_) => false,
        }
    }

    /// What setting up provider `p` does: a registered provider hands back
    /// its registered proxies and changes nothing; otherwise the proxies are
    /// new cells, one per combination of the provider's dimensions, and a
    /// Test or Global provider registers them.
    pub open spec fn setup_post(pre: Self, p: int, r: Seq<Proxy>, post: Self) -> bool {
        &&& post.wf()
        &&& post.spec_defs() == pre.spec_defs()
        &&& post.spec_released() == pre.spec_released()
        &&& Self::cells_extend(pre, post)
        &&& registry_grows(pre.spec_global(), post.spec_global(), p)
        &&& registry_grows(pre.spec_reg(), post.spec_reg(), p)
        &&& pre.scope(p) != FixtureScope::Global ==> post.spec_global().lookup(p)
            == pre.spec_global().lookup(p)
        &&& pre.scope(p) != FixtureScope::Test ==> post.spec_reg().lookup(p) == pre.spec_reg().lookup(p)
        &&& proxies_below(r, post.spec_cells().len() as int)
        &&& r.len() == proxy_count(pre.spec_defs(), p as nat)
        &&& proxies_of(post.spec_cells(), r, p)
        &&& match pre.scope_lookup(p) {
            Some(v) => r == v && post == pre,
            None => {
                &&& Self::fresh_proxies(pre, p, r, post)
                &&& exists|dims: Seq<Seq<Proxy>>|
                    #[trigger] post.setup_dims(p, dims) && forall|k: int|
                        0 <= k < r.len() ==> post.combo_of(#[trigger] r[k].cell as int)
                            == cartesian(dims)[k]
                &&& (pre.scope(p) == FixtureScope::Test || pre.scope(p) == FixtureScope::Global)
                    ==> post.scope_lookup(p) == Some(r)
            },
        }
    }

    /// An engine with no provider and no cell.
    pub fn new() -> (r: Self)
        ensures
            r.wf(),
            r.spec_defs().len() == 0,
            r.spec_cells().len() == 0,
            r.spec_released().len() == 0,
    {
        TestContext {
            defs: Vec::new(),
            cells: Vec::new(),
            global_reg: FixtureRegistry::new(),
            reg: FixtureRegistry::new(),
            released: Ghost(Seq::empty()),
        }
    }

    /// A new cell holding the parameter value `value`, and its proxy, whose
    /// display name is `name`.
    pub fn param(&mut self, value: V, name: String) -> (r: Proxy)
        requires
            old(self).wf(),
        ensures
            final(self).wf(),
            r.cell == old(self).spec_cells().len(),
            r.name == Some(name),
            final(self).spec_cells() == old(self).spec_cells().push(
                FixtureCell {
                    provider: 0,
                    state: LazyValue::Value(FixtureTeardown { value, teardown: false }),
                    torn: false,
                },
            ),
            final(self).spec_defs() == old(self).spec_defs(),
            final(self).spec_global() == old(self).spec_global(),
            final(self).spec_reg() == old(self).spec_reg(),
            final(self).spec_released() == old(self).spec_released(),
    {
        let cell = self.cells.len();
        self.cells.push(
            FixtureCell {
                provider: 0,
                state: LazyValue::Value(FixtureTeardown { value, teardown: false }),
                torn: false,
            },
        );
        proof {
            assert forall|p: int| 0 <= p < self.spec_defs().len() implies #[trigger] self.def_wf(
                p,
            ) by {
                assert(old(self).def_wf(p));
            }
            assert forall|c: int| 0 <= c < self.spec_cells().len() implies #[trigger] self.cell_wf(
                c,
            ) by {
                if c < cell {
                    assert(old(self).cell_wf(c));
                }
            }
            assert forall|k: int| 0 <= k < self.spec_released().len() implies #[trigger] self.spec_released()[k]
                < self.spec_cells().len() && self.spec_cells()[self.spec_released()[k] as int].torn
                && self.has_teardown(self.spec_released()[k] as int) by {
                let c = self.spec_released()[k] as int;
                assert(old(self).spec_cells()[c] == self.spec_cells()[c]);
            }
        }
        Proxy { cell, name: Some(name) }
    }

    /// Dependencies all name providers declared before position `n`.
    pub open spec fn deps_below(deps: Seq<usize>, n: int) -> bool {
        forall|j: int| 0 <= j < deps.len() ==> #[trigger] deps[j] < n
    }

    /// Parameter proxies all point to parameter values.
    pub open spec fn params_valid(&self, params: Option<Vec<Proxy>>) -> bool {
        match params {
            Some(ps) => forall|j: int|
                0 <= j < ps@.len() ==> #[trigger] ps@[j].cell < self.spec_cells().len()
                    && self.is_built(ps@[j].cell as int),
            None => true,
        }
    }

    /// Checks that every dependency is a declared provider.
    pub fn deps_declared(&self, deps: &Vec<usize>) -> (r: bool)
        ensures
            r == Self::deps_below(deps@, self.spec_defs().len() as int),
    {
        let mut j: usize = 0;
        while j < deps.len()
            invariant
                j <= deps@.len(),
                Self::deps_below(deps@.subrange(0, j as int), self.spec_defs().len() as int),
            decreases deps@.len() - j,
        {
            if deps[j] >= self.defs.len() {
                assert(deps@[j as int] >= self.spec_defs().len());
                return false;
            }
            assert forall|t: int| 0 <= t < j + 1 implies #[trigger] deps@.subrange(0, j + 1)[t]
                < self.spec_defs().len() by {
                if t < j {
                    assert(deps@.subrange(0, j + 1)[t] == deps@.subrange(0, j as int)[t]);
                }
            }
            j = j + 1;
        }
        assert(deps@.subrange(0, deps@.len() as int) =~= deps@);
        true
    }

    /// Checks that every proxy points to a cell of this engine.
    pub fn proxies_valid(&self, proxies: &Vec<Proxy>) -> (r: bool)
        ensures
            r == proxies_below(proxies@, self.spec_cells().len() as int),
    {
        let mut j: usize = 0;
        while j < proxies.len()
            invariant
                j <= proxies@.len(),
                proxies_below(proxies@.subrange(0, j as int), self.spec_cells().len() as int),
            decreases proxies@.len() - j,
        {
            if proxies[j].cell >= self.cells.len() {
                assert(!(proxies@[j as int].cell < self.spec_cells().len()));
                return false;
            }
            assert forall|t: int| 0 <= t < j + 1 implies #[trigger] proxies@.subrange(0, j + 1)[t].cell
                < self.spec_cells().len() by {
                if t < j {
                    assert(proxies@.subrange(0, j + 1)[t] == proxies@.subrange(0, j as int)[t]);
                }
            }
            j = j + 1;
        }
        assert(proxies@.subrange(0, proxies@.len() as int) =~= proxies@);
        true
    }

    fn params_built(&self, params: &Option<Vec<Proxy>>) -> (r: bool)
        ensures
            r == self.params_valid(*params),
    {
        match params {
            None => true,
            Some(ps) => {
                assert(*params == Some(*ps));
                let mut j: usize = 0;
                while j < ps.len()
                    invariant
                        j <= ps@.len(),
                        *params == Some(*ps),
                        forall|t: int|
                            0 <= t < j ==> #[trigger] ps@[t].cell < self.spec_cells().len()
                                && self.is_built(ps@[t].cell as int),
                    decreases ps@.len() - j,
                {
                    let c = ps[j].cell;
                    if c >= self.cells.len() {
                        assert(!(ps@[j as int].cell < self.spec_cells().len()));
                        assert(!self.params_valid(*params));
                        return false;
                    }
                    match &self.cells[c].state {
                        LazyValue::Value(_) => {},
                        LazyValue::Proxies(_) => {
                            assert(!self.is_built(ps@[j as int].cell as int));
                            assert(!self.params_valid(*params));
                            return false;
                        },
                    }
                    j = j + 1;
                }
                true
            },
        }
    }

    /// Declares a provider. It is refused (`None`) when a dependency is not
    /// an already declared provider or a parameter proxy is not a parameter
    /// value; else its identity is the number of providers declared before.
    pub fn declare(&mut self, def: FixtureDef) -> (r: Option<usize>)
        requires
            old(self).wf(),
        ensures
            final(self).wf(),
            final(self).spec_cells() == old(self).spec_cells(),
            final(self).spec_global() == old(self).spec_global(),
            final(self).spec_reg() == old(self).spec_reg(),
            final(self).spec_released() == old(self).spec_released(),
            r is Some <==> Self::deps_below(def.deps@, old(self).spec_defs().len() as int)
                && old(self).params_valid(def.params),
            r is Some ==> r == Some(old(self).spec_defs().len() as usize) && final(self).spec_defs()
                == old(self).spec_defs().push(def),
            r is None ==> final(self).spec_defs() == old(self).spec_defs(),
    {
        if !self.deps_declared(&def.deps) || !self.params_built(&def.params) {
            return None;
        }
        let id = self.defs.len();
        let ghost gdef = def;
        self.defs.push(def);
        proof {
            let od = old(self).spec_defs();
            assert(self.spec_defs() == od.push(gdef));
            assert forall|q: int| #[trigger] self.global_reg.lookup(q) is Some implies 0 <= q < self.spec_defs().len()
                && self.global_reg.lookup(q).unwrap().len() == proxy_count(self.spec_defs(), q as nat) by {
                lemma_count_extend(od, gdef, q as nat);
            }
            assert forall|q: int| #[trigger] self.reg.lookup(q) is Some implies 0 <= q < self.spec_defs().len()
                && self.reg.lookup(q).unwrap().len() == proxy_count(self.spec_defs(), q as nat) by {
                lemma_count_extend(od, gdef, q as nat);
            }
            assert forall|p: int| 0 <= p < self.spec_defs().len() implies #[trigger] self.def_wf(
                p,
            ) by {
                if p < id {
                    assert(old(self).def_wf(p));
                    assert(self.spec_defs()[p] == old(self).spec_defs()[p]);
                }
            }
            assert forall|c: int| 0 <= c < self.spec_cells().len() implies #[trigger] self.cell_wf(
                c,
            ) by {
                assert(old(self).cell_wf(c));
            }
        }
        Some(id)
    }

    /// The proxies registered for `p` in the registry of its scope.
    pub fn get(&self, p: usize) -> (r: Option<Vec<Proxy>>)
        requires
            self.wf(),
            p < self.spec_defs().len(),
        ensures
            match r {
                Some(v) => self.scope_lookup(p as int) == Some(v@),
                None => self.scope_lookup(p as int) is None,
            },
    {
        match self.defs[p].scope {
            FixtureScope::Global => self.global_reg.get(p),
            FixtureScope::Test => self.reg.get(p),
            _ => None,
        }
    }

    /// Registers `value` for `p` in the registry of its scope; Once and
    /// MatrixUnique providers are not registered.
    fn add(&mut self, p: usize, value: Vec<Proxy>)
        requires
            old(self).wf(),
            p < old(self).spec_defs().len(),
            proxies_below(value@, old(self).spec_cells().len() as int),
            value@.len() == proxy_count(old(self).spec_defs(), p as nat),
            proxies_of(old(self).spec_cells(), value@, p as int),
        ensures
            final(self).wf(),
            final(self).spec_defs() == old(self).spec_defs(),
            final(self).spec_cells() == old(self).spec_cells(),
            final(self).spec_released() == old(self).spec_released(),
            forall|q: int|
                q != p ==> #[trigger] final(self).spec_global().lookup(q) == old(self).spec_global().lookup(q),
            forall|q: int|
                q != p ==> #[trigger] final(self).spec_reg().lookup(q) == old(self).spec_reg().lookup(q),
            old(self).scope(p as int) == FixtureScope::Global ==> final(self).spec_global().lookup(
                p as int,
            ) == Some(value@) && final(self).spec_reg() == old(self).spec_reg(),
            old(self).scope(p as int) == FixtureScope::Test ==> final(self).spec_reg().lookup(
                p as int,
            ) == Some(value@) && final(self).spec_global() == old(self).spec_global(),
            old(self).scope(p as int) != FixtureScope::Global && old(self).scope(p as int)
                != FixtureScope::Test ==> *final(self) == *old(self),
    {
        let ghost n = self.cells@.len() as int;
        match self.defs[p].scope {
            FixtureScope::Global => {
                self.global_reg.add(p, value);
                assert(registry_below(self.global_reg, n)) by {
                    assert forall|q: int| #[trigger] self.global_reg.lookup(q) is Some implies proxies_below(
                        self.global_reg.lookup(q).unwrap(),
                        n,
                    ) by {
                        if q != p {
                            assert(old(self).global_reg.lookup(q) == self.global_reg.lookup(q));
                        }
                    }
                }
            },
            FixtureScope::Test => {
                self.reg.add(p, value);
                assert(registry_below(self.reg, n)) by {
                    assert forall|q: int| #[trigger] self.reg.lookup(q) is Some implies proxies_below(
                        self.reg.lookup(q).unwrap(),
                        n,
                    ) by {
                        if q != p {
                            assert(old(self).reg.lookup(q) == self.reg.lookup(q));
                        }
                    }
                }
            },
            _ => {},
        }
        proof {
            Self::lemma_same_cells_wf(*old(self), *self);
        }
    }

    proof fn lemma_extend_wf(pre: Self, post: Self)
        requires
            pre.wf(),
            post.spec_defs() == pre.spec_defs(),
            post.spec_global() == pre.spec_global(),
            post.spec_reg() == pre.spec_reg(),
            post.spec_released() == pre.spec_released(),
            Self::cells_extend(pre, post),
            forall|c: int|
                pre.spec_cells().len() <= c < post.spec_cells().len() ==> #[trigger] post.cell_wf(
                    c,
                ),
        ensures
            post.wf(),
    {
        let n = post.spec_cells().len() as int;
        assert forall|p: int| 0 <= p < post.spec_defs().len() implies #[trigger] post.def_wf(p) by {
            assert(pre.def_wf(p));
            let d = post.spec_defs()[p];
            match d.params {
                Some(ps) => {
                    assert forall|j: int| 0 <= j < ps@.len() implies #[trigger] ps@[j].cell
                        < post.spec_cells().len() && post.is_built(ps@[j].cell as int) by {
                        assert(pre.spec_cells()[ps@[j].cell as int] == post.spec_cells()[ps@[
                            j
                        ].cell as int]);
                    }
                },
                None => {},
            }
        }
        assert forall|c: int| 0 <= c < n implies #[trigger] post.cell_wf(c) by {
            if c < pre.spec_cells().len() {
                assert(pre.cell_wf(c));
                assert(pre.spec_cells()[c] == post.spec_cells()[c]);
            }
        }
        assert forall|q: int| #[trigger] post.spec_global().lookup(q) is Some implies proxies_below(
            post.spec_global().lookup(q).unwrap(),
            n,
        ) by {
            assert(proxies_below(pre.spec_global().lookup(q).unwrap(), pre.spec_cells().len() as int));
        }
        assert forall|q: int| #[trigger] post.spec_reg().lookup(q) is Some implies proxies_below(
            post.spec_reg().lookup(q).unwrap(),
            n,
        ) by {
            assert(proxies_below(pre.spec_reg().lookup(q).unwrap(), pre.spec_cells().len() as int));
        }
        let log = post.spec_released();
        assert forall|k: int| 0 <= k < log.len() implies #[trigger] log[k] < n && post.spec_cells()[log[
            k
        ] as int].torn && post.has_teardown(log[k] as int) by {
            assert(pre.spec_cells()[log[k] as int] == post.spec_cells()[log[k] as int]);
        }
    }

    /// Sets up provider `p` for the current test: one proxy per combination
    /// of its dependencies' proxies and its parameters, or the proxies its
    /// scope's registry already holds.
    pub fn get_fixture(&mut self, p: usize) -> (r: Vec<Proxy>)
        requires
            old(self).wf(),
            p < old(self).spec_defs().len(),
        ensures
            Self::setup_post(*old(self), p as int, r@, *final(self)),
        decreases p,
    {
        match self.get(p) {
            Some(v) => {
                return v;
            },
            None => {},
        }
        let ghost pre = *self;
        let mut m: ProxyMatrix<Proxy> = ProxyMatrix::new();
        let n = self.defs[p].deps.len();
        let mut j: usize = 0;
        while j < n
            invariant
                pre.wf(),
                p < pre.spec_defs().len(),
                pre.scope_lookup(p as int) is None,
                n == pre.spec_defs()[p as int].deps@.len(),
                j <= n,
                self.wf(),
                self.spec_defs() == pre.spec_defs(),
                self.spec_released() == pre.spec_released(),
                Self::cells_extend(pre, *self),
                registry_grows(pre.spec_global(), self.spec_global(), p as int),
                registry_grows(pre.spec_reg(), self.spec_reg(), p as int),
                self.scope_lookup(p as int) is None,
                self.spec_global().lookup(p as int) == pre.spec_global().lookup(p as int),
                self.spec_reg().lookup(p as int) == pre.spec_reg().lookup(p as int),
                m.wf(),
                m.dims().len() == j,
                product(m.dims()) == list_count(
                    pre.spec_defs(),
                    pre.spec_defs()[p as int].deps@.subrange(0, j as int),
                    p as nat,
                ),
                forall|t: int|
                    0 <= t < m.dims().len() ==> proxies_below(
                        #[trigger] m.dims()[t],
                        self.spec_cells().len() as int,
                    ),
                forall|t: int|
                    0 <= t < m.dims().len() ==> proxies_of(
                        self.spec_cells(),
                        #[trigger] m.dims()[t],
                        pre.spec_defs()[p as int].deps@[t] as int,
                    ) && m.dims()[t].len() == proxy_count(
                        pre.spec_defs(),
                        pre.spec_defs()[p as int].deps@[t] as nat,
                    ),
            decreases n - j,
        {
            let d = self.defs[p].deps[j];
            proof {
                assert(pre.def_wf(p as int));
                assert(d < p);
            }
            let ghost mid = *self;
            let sub = self.get_fixture(d);
            proof {
                assert(registry_grows(pre.spec_global(), self.spec_global(), p as int));
                assert(registry_grows(pre.spec_reg(), self.spec_reg(), p as int));
                assert(self.spec_global().lookup(p as int) == mid.spec_global().lookup(p as int));
                assert(self.spec_reg().lookup(p as int) == mid.spec_reg().lookup(p as int));
                assert forall|c: int| 0 <= c < pre.spec_cells().len() implies #[trigger] self.spec_cells()[c]
                    == pre.spec_cells()[c] by {
                    assert(mid.spec_cells()[c] == pre.spec_cells()[c]);
                }
            }
            let ghost old_dims = m.dims();
            let ghost sub_len = sub@.len();
            let ghost sub_v = sub@;
            m = m.feed(sub);
            proof {
                assert forall|t: int| 0 <= t < m.dims().len() implies proxies_below(
                    #[trigger] m.dims()[t],
                    self.spec_cells().len() as int,
                ) by {
                    if t < old_dims.len() {
                        assert(m.dims()[t] == old_dims[t]);
                        assert(proxies_below(old_dims[t], mid.spec_cells().len() as int));
                    }
                }
                let deps = pre.spec_defs()[p as int].deps@;
                assert forall|t: int| 0 <= t < m.dims().len() implies proxies_of(
                    self.spec_cells(),
                    #[trigger] m.dims()[t],
                    deps[t] as int,
                ) && m.dims()[t].len() == proxy_count(pre.spec_defs(), deps[t] as nat) by {
                    if t < old_dims.len() {
                        assert(m.dims()[t] == old_dims[t]);
                        assert(proxies_below(old_dims[t], mid.spec_cells().len() as int));
                        assert(proxies_of(mid.spec_cells(), old_dims[t], deps[t] as int));
                        assert forall|w: int| 0 <= w < old_dims[t].len() implies #[trigger] self.spec_cells()[old_dims[t][w].cell as int].provider
                            == deps[t] by {
                            assert(self.spec_cells()[old_dims[t][w].cell as int] == mid.spec_cells()[old_dims[t][w].cell as int]);
                        }
                    } else {
                        assert(m.dims()[t] == sub_v);
                        assert(deps[t] == d);
                    }
                }
                assert(m.dims().drop_last() =~= old_dims);
                assert(product(m.dims()) == product(old_dims) * sub_len);
                assert(deps.subrange(0, j + 1).drop_last() =~= deps.subrange(0, j as int));
                assert(deps.subrange(0, j + 1).last() == d);
                assert(sub_len == proxy_count(pre.spec_defs(), d as nat));
            }
            j = j + 1;
        }
        proof {
            let deps = pre.spec_defs()[p as int].deps@;
            assert(deps.subrange(0, n as int) =~= deps);
        }
        let ghost lc = list_count(pre.spec_defs(), pre.spec_defs()[p as int].deps@, p as nat);
        proof {
            assert(self.def_wf(p as int));
            assert(product(m.dims()) == lc);
            assert(proxy_count(pre.spec_defs(), p as nat) == lc * param_count(pre.spec_defs()[p as int]));
        }
        match &self.defs[p].params {
            Some(ps) => {
                let ghost old_dims = m.dims();
                proof {
                    assert(pre.spec_defs()[p as int].params == Some(*ps));
                    assert(param_count(pre.spec_defs()[p as int]) == ps@.len());
                }
                m = m.feed(duplicate_vec(ps));
                proof {
                    assert(m.dims().drop_last() =~= old_dims);
                    assert(product(m.dims()) == product(old_dims) * ps@.len());
                    assert(product(old_dims) == lc);
                    assert(product(m.dims()) == lc * param_count(pre.spec_defs()[p as int]));
                    assert forall|t: int| 0 <= t < m.dims().len() implies proxies_below(
                        #[trigger] m.dims()[t],
                        self.spec_cells().len() as int,
                    ) by {
                        if t < old_dims.len() {
                            assert(m.dims()[t] == old_dims[t]);
                        }
                    }
                    assert(m.dims()[old_dims.len() as int] == ps@);
                    assert forall|t: int| 0 <= t < old_dims.len() implies #[trigger] m.dims()[t] == old_dims[t] by {}
                    assert(self.setup_dims(p as int, m.dims()));
                }
            },
            None => {
                proof {
                    assert(param_count(pre.spec_defs()[p as int]) == 1);
                    assert(self.setup_dims(p as int, m.dims()));
                    assert(lc * 1 == lc);
                    assert(product(m.dims()) == lc * param_count(pre.spec_defs()[p as int]));
                }
            },
        }
        proof {
            assert(product(m.dims()) == proxy_count(pre.spec_defs(), p as nat));
            assert(self.setup_dims(p as int, m.dims()));
        }
        let ghost dims = m.dims();
        let ghost mid = *self;
        let combos = m.flatten();
        proof {
            lemma_cartesian_complete(dims);
        }
        let start = self.cells.len();
        let mut r: Vec<Proxy> = Vec::new();
        let mut i: usize = 0;
        while i < combos.len()
            invariant
                mid.wf(),
                p < mid.spec_defs().len(),
                start == mid.spec_cells().len(),
                i <= combos@.len(),
                combos@.len() == product(dims),
                product(dims) == proxy_count(mid.spec_defs(), p as nat),
                cartesian(dims).len() == product(dims),
                forall|k: int| 0 <= k < combos@.len() ==> #[trigger] combos@[k]@ == cartesian(dims)[k],
                forall|t: int|
                    0 <= t < dims.len() ==> proxies_below(#[trigger] dims[t], start as int),
                self.spec_defs() == mid.spec_defs(),
                self.spec_global() == mid.spec_global(),
                self.spec_reg() == mid.spec_reg(),
                self.spec_released() == mid.spec_released(),
                Self::cells_extend(mid, *self),
                self.spec_cells().len() == start + i,
                forall|c: int| start <= c < start + i ==> #[trigger] self.cell_wf(c),
                mid.setup_dims(p as int, dims),
                forall|k: int| 0 <= k < i ==> #[trigger] self.combo_of(start + k) == cartesian(dims)[k],
                r@.len() == i,
                forall|k: int| 0 <= k < i ==> #[trigger] self.made_cell(r@, k, start as int, p as int),
            decreases combos@.len() - i,
        {
            let combo = ProxyCombination { proxies: duplicate_vec(&combos[i].proxies) };
            let ghost gcombo = combo@;
            assert(combos@[i as int]@ == cartesian(dims)[i as int]);
            assert(gcombo == combos@[i as int]@);
            let name = combo.name();
            let cell = self.cells.len();
            proof {
                assert forall|t: int| 0 <= t < combo@.len() implies #[trigger] combo@[t].cell
                    < start by {
                    lemma_cartesian_complete(dims);
                    assert(combos@[i as int]@ == cartesian(dims)[i as int]);
                    assert(combo@ == cartesian(dims)[i as int]);
                    assert(cartesian(dims)[i as int] == pick(dims, coords(dims, i as int)));
                    lemma_cartesian_element(dims, i as int, t);
                    let w = choose|w: int|
                        0 <= w < dims[t].len() && cartesian(dims)[i as int][t] == dims[t][w];
                    assert(proxies_below(dims[t], start as int));
                    assert(dims[t][w].cell < start);
                }
            }
            let ghost before = *self;
            let ghost newcell = FixtureCell::<V> { provider: p, state: LazyValue::Proxies(combo), torn: false };
            let ghost gname = name;
            let ghost old_r = r@;
            self.cells.push(FixtureCell { provider: p, state: LazyValue::Proxies(combo), torn: false });
            r.push(Proxy { cell, name });
            proof {
                assert(self.spec_cells()[start + i] == newcell);
                assert(r@[i as int] == Proxy { cell, name: gname });
                assert(opt_view(gname) == combination_name_of(element_names(combo@)));
            }
            proof {
                assert forall|c: int| start <= c < start + i + 1 implies #[trigger] self.cell_wf(c) by {
                    if c < start + i {
                        assert(before.cell_wf(c));
                        assert(before.spec_cells()[c] == self.spec_cells()[c]);
                    } else {
                        assert(self.spec_cells()[c].state == LazyValue::<V>::Proxies(combo));
                    }
                }
                assert forall|c: int| 0 <= c < mid.spec_cells().len() implies #[trigger] self.spec_cells()[c]
                    == mid.spec_cells()[c] by {
                    assert(before.spec_cells()[c] == mid.spec_cells()[c]);
                }
                assert forall|k: int| 0 <= k < i + 1 implies #[trigger] self.made_cell(
                    r@,
                    k,
                    start as int,
                    p as int,
                ) by {
                    if k < i {
                        assert(before.made_cell(old_r, k, start as int, p as int));
                        assert(r@[k] == old_r[k]);
                        assert(before.spec_cells()[start + k] == self.spec_cells()[start + k]);
                    } else {
                        assert(k == i);
                        assert(r@[k].cell == cell);
                        assert(self.spec_cells()[start + k] == newcell);
                    }
                }
                assert forall|k: int| 0 <= k < i + 1 implies #[trigger] self.combo_of(start + k) == cartesian(dims)[k] by {
                    if k < i {
                        assert(before.combo_of(start + k) == cartesian(dims)[k]);
                        assert(before.spec_cells()[start + k] == self.spec_cells()[start + k]);
                    } else {
                        assert(self.spec_cells()[start + k] == newcell);
                        assert(self.combo_of(start + k) == gcombo);
                        assert(gcombo == cartesian(dims)[i as int]);
                    }
                }
            }
            i = i + 1;
        }
        proof {
            Self::lemma_extend_wf(mid, *self);
            assert forall|c: int| 0 <= c < pre.spec_cells().len() implies #[trigger] self.spec_cells()[c]
                == pre.spec_cells()[c] by {
                assert(mid.spec_cells()[c] == pre.spec_cells()[c]);
            }
        }
        assert forall|k: int| 0 <= k < r@.len() implies #[trigger] r@[k].cell < self.spec_cells().len() by {
            assert(self.made_cell(r@, k, start as int, p as int));
        }
        assert forall|k: int| 0 <= k < r@.len() implies #[trigger] self.spec_cells()[r@[k].cell as int].provider == p by {
            assert(self.made_cell(r@, k, start as int, p as int));
        }
        let dup = duplicate_vec(&r);
        let ghost before_add = *self;
        self.add(p, dup);
        proof {
            assert forall|q: int| #[trigger] pre.spec_global().lookup(q) is Some implies self.spec_global().lookup(q)
                == pre.spec_global().lookup(q) by {
                assert(mid.spec_global().lookup(q) == pre.spec_global().lookup(q));
                if q == p {
                    assert(mid.scope_lookup(p as int) is None);
                }
            }
            assert forall|q: int| #[trigger] pre.spec_reg().lookup(q) is Some implies self.spec_reg().lookup(q)
                == pre.spec_reg().lookup(q) by {
                assert(mid.spec_reg().lookup(q) == pre.spec_reg().lookup(q));
                if q == p {
                    assert(mid.scope_lookup(p as int) is None);
                }
            }
            assert forall|q: int| q > p implies #[trigger] self.spec_global().lookup(q)
                == pre.spec_global().lookup(q) by {
                assert(mid.spec_global().lookup(q) == pre.spec_global().lookup(q));
            }
            assert forall|q: int| q > p implies #[trigger] self.spec_reg().lookup(q)
                == pre.spec_reg().lookup(q) by {
                assert(mid.spec_reg().lookup(q) == pre.spec_reg().lookup(q));
            }
            assert(Self::fresh_proxies(pre, p as int, r@, *self)) by {
                assert forall|k: int| 0 <= k < r@.len() implies {
                    &&& #[trigger] r@[k].cell == r@[0].cell + k
                    &&& r@[k].cell >= pre.spec_cells().len()
                    &&& self.spec_cells()[r@[k].cell as int].provider == p
                    &&& match self.spec_cells()[r@[k].cell as int].state {
                        LazyValue::Proxies(combo) => opt_view(r@[k].name) == combination_name_of(
                            element_names(combo@),
                        ),
                        LazyValue::Value(_) => false,
                    }
                } by {
                    assert(before_add.made_cell(r@, k, start as int, p as int));
                    assert(before_add.made_cell(r@, 0, start as int, p as int));
                }
            }
        }
        proof {
            assert forall|t: int| 0 <= t < pre.spec_defs()[p as int].deps@.len() implies proxies_of(
                self.spec_cells(),
                #[trigger] dims[t],
                pre.spec_defs()[p as int].deps@[t] as int,
            ) by {
                assert(proxies_of(mid.spec_cells(), dims[t], pre.spec_defs()[p as int].deps@[t] as int));
                assert(proxies_below(dims[t], start as int));
                assert forall|w: int| 0 <= w < dims[t].len() implies #[trigger] self.spec_cells()[dims[t][w].cell as int].provider
                    == pre.spec_defs()[p as int].deps@[t] by {
                    assert(self.spec_cells()[dims[t][w].cell as int] == mid.spec_cells()[dims[t][w].cell as int]);
                }
            }
            assert(self.setup_dims(p as int, dims));
            assert forall|k: int| 0 <= k < r@.len() implies self.combo_of(#[trigger] r@[k].cell as int)
                == cartesian(dims)[k] by {
                assert(before_add.made_cell(r@, k, start as int, p as int));
                assert(before_add.combo_of(start + k) == cartesian(dims)[k]);
            }
        }
        r
    }

    /// Cell `b` is cell `a`, or `a`'s combination has been built since, or
    /// its value released since.
    pub open spec fn cell_evolves(a: FixtureCell<V>, b: FixtureCell<V>) -> bool {
        &&& b.provider == a.provider
        &&& (a.torn ==> b.torn)
        &&& match a.state {
            LazyValue::Value(x) => match b.state {
                LazyValue::Value(y) => y.teardown == x.teardown,
                LazyValue::Proxies(_) => false,
            },
            LazyValue::Proxies(_) => b.state is Proxies ==> b == a,
        }
    }

    /// `post` follows `pre` by builds and releases: the providers and the
    /// registries are the same, every old cell evolves, the old cells from
    /// `from` on are untouched, new cells hold values of Once providers, and
    /// only new cells were released.
    pub open spec fn build_frame(pre: Self, post: Self, from: int) -> bool {
        &&& post.wf()
        &&& post.spec_defs() == pre.spec_defs()
        &&& post.spec_global() == pre.spec_global()
        &&& post.spec_reg() == pre.spec_reg()
        &&& post.spec_cells().len() >= pre.spec_cells().len()
        &&& Self::all_evolve(pre, post)
        &&& Self::untouched_from(pre, post, from)
        &&& Self::new_cells_once(pre, post)
        &&& Self::log_grows_new(pre, post)
    }

    pub open spec fn all_evolve(pre: Self, post: Self) -> bool {
        forall|i: int|
            0 <= i < pre.spec_cells().len() ==> Self::cell_evolves(
                pre.spec_cells()[i],
                #[trigger] post.spec_cells()[i],
            )
    }

    pub open spec fn untouched_from(pre: Self, post: Self, from: int) -> bool {
        forall|i: int|
            0 <= i && from <= i < pre.spec_cells().len() ==> #[trigger] post.spec_cells()[i]
                == pre.spec_cells()[i]
    }

    pub open spec fn new_cells_once(pre: Self, post: Self) -> bool {
        forall|i: int|
            pre.spec_cells().len() <= i < post.spec_cells().len() ==> #[trigger] post.is_built(i)
                && post.cell_scope(i) == FixtureScope::Once
    }

    pub open spec fn log_grows_new(pre: Self, post: Self) -> bool {
        &&& post.spec_released().len() >= pre.spec_released().len()
        &&& post.spec_released().subrange(0, pre.spec_released().len() as int)
            == pre.spec_released()
        &&& forall|k: int|
            pre.spec_released().len() <= k < post.spec_released().len()
                ==> #[trigger] post.spec_released()[k] >= pre.spec_cells().len()
    }

    proof fn lemma_frame_weaken(a: Self, b: Self, from: int, from2: int)
        requires
            Self::build_frame(a, b, from),
            from2 >= from,
        ensures
            Self::build_frame(a, b, from2),
    {
        assert(Self::untouched_from(a, b, from2));
    }

    proof fn lemma_frame_new_cells(b: Self, c: Self, f: int)
        requires
            Self::build_frame(b, c, f),
        ensures
            forall|j: int|
                b.spec_cells().len() <= j < c.spec_cells().len() ==> #[trigger] c.is_built(j)
                    && c.cell_scope(j) == FixtureScope::Once,
    {
    }

    proof fn lemma_frame_chain(a: Self, b: Self, c: Self, from_ab: int, from_bc: int, from: int)
        requires
            a.wf(),
            Self::build_frame(a, b, from_ab),
            Self::build_frame(b, c, from_bc),
            from >= from_ab,
            from >= from_bc,
        ensures
            Self::build_frame(a, c, from),
    {
        let n = a.spec_cells().len();
        assert forall|i: int| 0 <= i < n implies Self::cell_evolves(
            a.spec_cells()[i],
            #[trigger] c.spec_cells()[i],
        ) by {
            assert(Self::cell_evolves(a.spec_cells()[i], b.spec_cells()[i]));
            assert(Self::cell_evolves(b.spec_cells()[i], c.spec_cells()[i]));
        }
        assert forall|i: int| n <= i < c.spec_cells().len() implies #[trigger] c.is_built(i)
            && c.cell_scope(i) == FixtureScope::Once by {
            if i < b.spec_cells().len() {
                assert(n <= i < b.spec_cells().len());
                assert(b.spec_cells().len() >= n);
                assert(forall|j: int| n <= j < b.spec_cells().len() ==> #[trigger] b.is_built(j));
                assert(b.is_built(i));
                assert(b.is_built(i) && b.cell_scope(i) == FixtureScope::Once);
                assert(Self::cell_evolves(b.spec_cells()[i], c.spec_cells()[i]));
                assert(c.spec_cells()[i].provider == b.spec_cells()[i].provider);
                assert(c.is_built(i));
            } else {
                Self::lemma_frame_new_cells(b, c, from_bc);
                assert(b.spec_cells().len() <= i);
                assert(i < c.spec_cells().len());
                assert(c.is_built(i));
                assert(c.cell_scope(i) == FixtureScope::Once);
            }
        }
        let la = a.spec_released();
        let lb = b.spec_released();
        let lc = c.spec_released();
        assert forall|j: int| 0 <= j < lb.len() implies lc[j] == lb[j] by {
            assert(lc.subrange(0, lb.len() as int)[j] == lc[j]);
        }
        assert forall|j: int| 0 <= j < la.len() implies lb[j] == la[j] by {
            assert(lb.subrange(0, la.len() as int)[j] == lb[j]);
        }
        assert(lc.subrange(0, la.len() as int) =~= la);
        assert forall|k: int| la.len() <= k < lc.len() implies #[trigger] lc[k] >= n by {
            if k < lb.len() {
                assert(lc[k] == lb[k]);
                assert(forall|j: int| la.len() <= j < lb.len() ==> #[trigger] lb[j] >= n);
            } else {
                assert(forall|j: int| lb.len() <= j < lc.len() ==> #[trigger] lc[j] >= b.spec_cells().len());
            }
        }
        assert forall|i: int| 0 <= i && from <= i < n implies #[trigger] c.spec_cells()[i] == a.spec_cells()[i] by {
            assert(n <= b.spec_cells().len());
            assert(b.spec_cells()[i] == a.spec_cells()[i]);
            assert(c.spec_cells()[i] == b.spec_cells()[i]);
        }
        assert(lc.subrange(0, la.len() as int) == la);
        assert(lc.len() >= la.len());
        assert(Self::all_evolve(a, c));
        assert(Self::untouched_from(a, c, from));
        assert(Self::new_cells_once(a, c));
        assert(Self::log_grows_new(a, c));
    }

    proof fn lemma_frame_refl(a: Self, from: int)
        requires
            a.wf(),
        ensures
            Self::build_frame(a, a, from),
    {
        assert(a.spec_released().subrange(0, a.spec_released().len() as int) =~= a.spec_released());
        assert forall|j: int| 0 <= j < a.spec_cells().len() implies Self::cell_evolves(
            a.spec_cells()[j],
            #[trigger] a.spec_cells()[j],
        ) by {}
    }

    /// The value cell `c` holds, when it is built.
    pub open spec fn value_of(&self, c: int) -> V {
        match self.spec_cells()[c].state {
            LazyValue::Value(ft) => ft.value,
            LazyValue::Proxies(_) => arbitrary(),
        }
    }

    /// What storing the constructor's result `res` for the unbuilt cell `c`
    /// does. A value becomes the cell's value, with the provider's teardown
    /// flag (for a Once provider, the value of a new cell instead, and `c` is
    /// kept for the next request); the answer is the cell that holds it. An
    /// error changes nothing and comes back under the provider's name.
    pub open spec fn stored(
        pre: Self,
        c: int,
        res: Result<V, String>,
        r: Result<usize, FixtureCreationError>,
        post: Self,
    ) -> bool {
        let p = pre.spec_cells()[c].provider;
        let d = pre.spec_defs()[p as int];
        &&& post.spec_defs() == pre.spec_defs()
        &&& post.spec_global() == pre.spec_global()
        &&& post.spec_reg() == pre.spec_reg()
        &&& post.spec_released() == pre.spec_released()
        &&& match res {
            Ok(v) => {
                let cell = FixtureCell {
                    provider: p,
                    state: LazyValue::Value(FixtureTeardown { value: v, teardown: d.teardown }),
                    torn: false,
                };
                if d.scope == FixtureScope::Once {
                    r == Ok::<usize, FixtureCreationError>(pre.spec_cells().len() as usize)
                        && post.spec_cells() == pre.spec_cells().push(cell)
                } else {
                    r == Ok::<usize, FixtureCreationError>(c as usize) && post.spec_cells()
                        == pre.spec_cells().update(c, cell)
                }
            },
            Err(e) => r == Err::<usize, FixtureCreationError>(
                FixtureCreationError { fixture_name: d.name, error: e },
            ) && post == pre,
        }
    }

    /// Stores what the constructor of the unbuilt cell `c` returned.
    pub fn store_built(&mut self, c: usize, res: Result<V, String>) -> (r: Result<
        usize,
        FixtureCreationError,
    >)
        requires
            old(self).wf(),
            c < old(self).spec_cells().len(),
            old(self).spec_cells()[c as int].state is Proxies,
        ensures
            final(self).wf(),
            Self::stored(*old(self), c as int, res, r, *final(self)),
    {
        proof {
            assert(self.cell_wf(c as int));
        }
        let p = self.cells[c].provider;
        match res {
            Err(e) => {
                let name = self.defs[p].name.clone();
                Err(FixtureCreationError { fixture_name: name, error: e })
            },
            Ok(value) => {
                let ft = FixtureTeardown { value, teardown: self.defs[p].teardown };
                let ghost before = *self;
                match self.defs[p].scope {
                    FixtureScope::Once => {
                        let v = self.cells.len();
                        self.cells.push(FixtureCell { provider: p, state: LazyValue::Value(ft), torn: false });
                        proof {
                            Self::lemma_extend_wf(before, *self);
                        }
                        Ok(v)
                    },
                    _ => {
                        self.cells.set(c, FixtureCell { provider: p, state: LazyValue::Value(ft), torn: false });
                        proof {
                            Self::lemma_set_built_wf(before, *self, c as int);
                        }
                        Ok(c)
                    },
                }
            },
        }
    }

    /// The value held by the built cell `c`.
    pub fn value(&self, c: usize) -> (r: &V)
        requires
            c < self.spec_cells().len(),
            self.is_built(c as int),
        ensures
            match self.spec_cells()[c as int].state {
                LazyValue::Value(ft) => *r == ft.value,
                LazyValue::Proxies(_) => false,
            },
    {
        match &self.cells[c].state {
            LazyValue::Value(ft) => &ft.value,
            LazyValue::Proxies(_) => unreached(),
        }
    }

    /// Releases the value of cell `c`: its teardown callback runs if it has
    /// one and the value was not released before.
    fn release<D: BuildableFixture<V>>(&mut self, defs: &D, c: usize)
        requires
            old(self).wf(),
            c < old(self).spec_cells().len(),
        ensures
            final(self).wf(),
            final(self).spec_defs() == old(self).spec_defs(),
            final(self).spec_global() == old(self).spec_global(),
            final(self).spec_reg() == old(self).spec_reg(),
            final(self).spec_cells().len() == old(self).spec_cells().len(),
            forall|i: int|
                0 <= i < old(self).spec_cells().len() && i != c ==> #[trigger] final(self).spec_cells()[i] == old(self).spec_cells()[i],
            Self::cell_evolves(old(self).spec_cells()[c as int], final(self).spec_cells()[c as int]),
            old(self).is_built(c as int) ==> final(self).spec_cells()[c as int].torn,
            final(self).spec_released() == if old(self).has_teardown(c as int) && !old(self).spec_cells()[c as int].torn {
                old(self).spec_released().push(c)
            } else {
                old(self).spec_released()
            },
    {
        if self.cells[c].torn {
            return;
        }
        let ghost pre = *self;
        let p = self.cells[c].provider;
        let mut cell = FixtureCell {
            provider: p,
            state: LazyValue::Proxies(ProxyCombination { proxies: Vec::new() }),
            torn: false,
        };
        self.cells.set_and_swap(c, &mut cell);
        let mut fired = false;
        match cell.state {
            LazyValue::Value(mut ft) => {
                if ft.teardown {
                    defs.teardown(p, &mut ft.value);
                    fired = true;
                }
                cell = FixtureCell { provider: p, state: LazyValue::Value(ft), torn: true };
            },
            LazyValue::Proxies(combo) => {
                cell = FixtureCell { provider: p, state: LazyValue::Proxies(combo), torn: false };
            },
        }
        self.cells.set(c, cell);
        if fired {
            self.released = Ghost(self.released@.push(c));
        }
        proof {
            assert(self.spec_cells() == pre.spec_cells().update(c as int, cell));
            assert(forall|i: int| 0 <= i < pre.spec_cells().len() && i != c ==> #[trigger] self.spec_cells()[i] == pre.spec_cells()[i]);
            assert forall|q: int| 0 <= q < self.spec_defs().len() implies #[trigger] self.def_wf(q) by {
                assert(pre.def_wf(q));
                let d = self.spec_defs()[q];
                match d.params {
                    Some(ps) => {
                        assert forall|j: int| 0 <= j < ps@.len() implies #[trigger] ps@[j].cell
                            < self.spec_cells().len() && self.is_built(ps@[j].cell as int) by {
                            assert(pre.is_built(ps@[j].cell as int));
                        }
                    },
                    None => {},
                }
            }
            assert forall|i: int| 0 <= i < self.spec_cells().len() implies #[trigger] self.cell_wf(i) by {
                assert(pre.cell_wf(i));
                if fired {
                    let pl = pre.spec_released();
                    assert(self.spec_released() == pl.push(c));
                    if i == c {
                        assert(self.spec_released()[pl.len() as int] == c);
                    } else if pl.contains(i as usize) {
                        let w = choose|w: int| 0 <= w < pl.len() && pl[w] == i as usize;
                        assert(self.spec_released()[w] == i as usize);
                    }
                }
            }
            let log = self.spec_released();
            assert forall|k: int| 0 <= k < log.len() implies #[trigger] log[k] < self.spec_cells().len()
                && self.spec_cells()[log[k] as int].torn && self.has_teardown(log[k] as int) by {
                if k < pre.spec_released().len() {
                    assert(pre.spec_cells()[log[k] as int].torn);
                }
            }
            if fired {
                assert forall|a: int, b: int| 0 <= a < log.len() && 0 <= b < log.len() && a != b implies log[a] != log[b] by {
                    if a < pre.spec_released().len() && b < pre.spec_released().len() {
                    } else if a < pre.spec_released().len() {
                        assert(pre.spec_cells()[log[a] as int].torn);
                    } else if b < pre.spec_released().len() {
                        assert(pre.spec_cells()[log[b] as int].torn);
                    }
                }
            }
        }
    }

    proof fn lemma_set_built_wf(pre: Self, post: Self, c: int)
        requires
            pre.wf(),
            0 <= c < pre.spec_cells().len(),
            pre.spec_cells()[c].state is Proxies,
            post.spec_defs() == pre.spec_defs(),
            post.spec_global() == pre.spec_global(),
            post.spec_reg() == pre.spec_reg(),
            post.spec_released() == pre.spec_released(),
            post.spec_cells().len() == pre.spec_cells().len(),
            forall|i: int|
                0 <= i < pre.spec_cells().len() && i != c ==> #[trigger] post.spec_cells()[i]
                    == pre.spec_cells()[i],
            post.spec_cells()[c].state is Value,
            !post.spec_cells()[c].torn,
            post.spec_cells()[c].provider == pre.spec_cells()[c].provider,
        ensures
            post.wf(),
    {
        assert(pre.cell_wf(c));
        let n = post.spec_cells().len() as int;
        assert forall|q: int| 0 <= q < post.spec_defs().len() implies #[trigger] post.def_wf(q) by {
            assert(pre.def_wf(q));
            let d = post.spec_defs()[q];
            match d.params {
                Some(ps) => {
                    assert forall|j: int| 0 <= j < ps@.len() implies #[trigger] ps@[j].cell
                        < post.spec_cells().len() && post.is_built(ps@[j].cell as int) by {
                        assert(pre.is_built(ps@[j].cell as int));
                    }
                },
                None => {},
            }
        }
        assert forall|i: int| 0 <= i < n implies #[trigger] post.cell_wf(i) by {
            assert(pre.cell_wf(i));
        }
        let log = post.spec_released();
        assert forall|k: int| 0 <= k < log.len() implies #[trigger] log[k] < n && post.spec_cells()[log[
            k
        ] as int].torn && post.has_teardown(log[k] as int) by {
            assert(pre.has_teardown(log[k] as int));
        }
    }

    /// Releases the values among `vals` that were made during the current
    /// build (those from cell `n` on).
    fn release_fresh<D: BuildableFixture<V>>(
        &mut self,
        defs: &D,
        vals: &Vec<usize>,
        n: usize,
        base: Ghost<Self>,
        from: Ghost<int>,
    )
        requires
            base@.wf(),
            n == base@.spec_cells().len(),
            Self::build_frame(base@, *old(self), from@),
            forall|k: int| 0 <= k < vals@.len() ==> #[trigger] vals@[k] < old(self).spec_cells().len(),
        ensures
            Self::build_frame(base@, *final(self), from@),
            final(self).spec_cells().len() == old(self).spec_cells().len(),
            forall|i: int| 0 <= i < n ==> #[trigger] final(self).spec_cells()[i] == old(self).spec_cells()[i],
            forall|i: int|
                0 <= i < old(self).spec_cells().len() && old(self).spec_cells()[i].torn
                    ==> #[trigger] final(self).spec_cells()[i].torn,
            forall|k: int|
                0 <= k < vals@.len() && vals@[k] >= n && old(self).is_built(vals@[k] as int)
                    ==> #[trigger] final(self).spec_cells()[vals@[k] as int].torn,
    {
        let ghost start = *self;
        let mut k: usize = 0;
        while k < vals.len()
            invariant
                base@.wf(),
                n == base@.spec_cells().len(),
                Self::build_frame(base@, *self, from@),
                self.spec_cells().len() == start.spec_cells().len(),
                forall|i: int| 0 <= i < n ==> #[trigger] self.spec_cells()[i] == start.spec_cells()[i],
                forall|t: int| 0 <= t < vals@.len() ==> #[trigger] vals@[t] < start.spec_cells().len(),
                k <= vals@.len(),
                forall|i: int|
                    0 <= i < start.spec_cells().len() && start.spec_cells()[i].torn
                        ==> #[trigger] self.spec_cells()[i].torn,
                forall|t: int|
                    0 <= t < vals@.len() ==> (start.is_built(vals@[t] as int) ==> #[trigger] self.is_built(vals@[t] as int)),
                forall|t: int|
                    0 <= t < k && vals@[t] >= n && start.is_built(vals@[t] as int)
                        ==> #[trigger] self.spec_cells()[vals@[t] as int].torn,
            decreases vals@.len() - k,
        {
            let v = vals[k];
            if v >= n {
                let ghost before = *self;
                self.release(defs, v);
                proof {
                    assert forall|i: int|
                        0 <= i < start.spec_cells().len() && start.spec_cells()[i].torn implies #[trigger] self.spec_cells()[i].torn by {
                        assert(before.spec_cells()[i].torn);
                        if i != v {
                            assert(self.spec_cells()[i] == before.spec_cells()[i]);
                        }
                    }
                    assert forall|t: int| 0 <= t < vals@.len() && start.is_built(vals@[t] as int) implies #[trigger] self.is_built(vals@[t] as int) by {
                        assert(before.is_built(vals@[t] as int));
                        if vals@[t] != v {
                            assert(self.spec_cells()[vals@[t] as int] == before.spec_cells()[vals@[t] as int]);
                        }
                    }
                    assert forall|t: int| 0 <= t < k + 1 && vals@[t] >= n && start.is_built(vals@[t] as int) implies #[trigger] self.spec_cells()[vals@[t] as int].torn by {
                        if vals@[t] != v {
                            assert(self.spec_cells()[vals@[t] as int] == before.spec_cells()[vals@[t] as int]);
                        } else {
                            assert(before.is_built(v as int));
                        }
                    }
                    let log = self.spec_released();
                    let bl = base@.spec_released();
                    assert(log.subrange(0, bl.len() as int) =~= before.spec_released().subrange(0, bl.len() as int));
                    assert forall|j: int| bl.len() <= j < log.len() implies #[trigger] log[j] >= n by {
                        if j < before.spec_released().len() {
                            assert(log[j] == before.spec_released()[j]);
                        }
                    }
                    assert forall|i: int| n <= i < self.spec_cells().len() implies #[trigger] self.is_built(i)
                        && self.cell_scope(i) == FixtureScope::Once by {
                        assert(before.is_built(i));
                    }
                    assert forall|i: int| 0 <= i < n implies Self::cell_evolves(
                        base@.spec_cells()[i],
                        #[trigger] self.spec_cells()[i],
                    ) by {
                        assert(Self::cell_evolves(base@.spec_cells()[i], before.spec_cells()[i]));
                    }
                }
            }
            k = k + 1;
        }
    }

}

impl<V: Clone> TestContext<V> {
    /// Proxy `h` stands for a value shared with other requests: its cell is
    /// built already, or belongs to a provider that is not Once.
    pub open spec fn shares(&self, h: int) -> bool {
        self.is_built(h) || self.cell_scope(h) != FixtureScope::Once
    }

    /// Cell `v` of `post` holds what the constructor of `c`'s provider
    /// returned when called with one value per proxy of `combo`, in order:
    /// for a shared proxy, a clone of that fixture's value.
    pub open spec fn made_from<D: BuildableFixture<V>>(
        defs: &D,
        pre: Self,
        post: Self,
        c: int,
        combo: Seq<Proxy>,
        v: int,
    ) -> bool {
        let p = pre.spec_cells()[c].provider;
        &&& post.is_built(v)
        &&& post.has_teardown(v) == pre.spec_defs()[p as int].teardown
        &&& exists|args: CallArgs<V>|
            #[trigger] constructed(defs, p, args, Ok(post.value_of(v))) && args.0@.len()
                == combo.len() && forall|t: int|
                0 <= t < combo.len() && pre.shares(combo[t].cell as int) ==> cloned(
                    post.value_of(combo[t].cell as int),
                    #[trigger] args.0@[t],
                )
    }

    /// What building the cell `c` does.
    ///
    /// A built cell is handed back as it is, with no construction. Otherwise
    /// its combination is built first and the constructor is called once; on
    /// success the answer holds the constructor's value (for a Once provider a
    /// new cell, so `c` keeps its combination; for the others `c` itself).
    /// A failure changes nothing in `c` and is some constructor's error under
    /// its provider's name. Values made only to feed this constructor are
    /// released; nothing that existed before is.
    pub open spec fn build_post<D: BuildableFixture<V>>(
        defs: &D,
        pre: Self,
        c: int,
        r: Result<usize, FixtureCreationError>,
        post: Self,
    ) -> bool {
        let n = pre.spec_cells().len();
        &&& Self::build_frame(pre, post, c + 1)
        &&& forall|i: int|
            n <= i < post.spec_cells().len() && (r is Err || r->Ok_0 != i)
                ==> #[trigger] post.spec_cells()[i].torn
        &&& match pre.spec_cells()[c].state {
            LazyValue::Value(_) => r == Ok::<usize, FixtureCreationError>(c as usize) && post == pre,
            LazyValue::Proxies(combo) => {
                &&& (r is Err || pre.cell_scope(c) == FixtureScope::Once) ==> post.spec_cells()[c]
                    == pre.spec_cells()[c]
                &&& r matches Ok(v) ==> {
                    &&& if pre.cell_scope(c) == FixtureScope::Once {
                        v >= n && !post.spec_cells()[v as int].torn
                    } else {
                        v == c
                    }
                    &&& post.spec_cells()[v as int].provider == pre.spec_cells()[c].provider
                    &&& Self::made_from(defs, pre, post, c, combo@, v as int)
                }
            },
        }
        &&& r matches Ok(v) ==> v < post.spec_cells().len() && post.is_built(v as int)
        &&& r matches Err(e) ==> ctor_error(defs, pre.spec_defs(), e)
    }

    proof fn lemma_fresh_released(pre: Self, post: Self, vals: Seq<usize>, n: int)
        requires
            0 <= n <= pre.spec_cells().len(),
            pre.spec_cells().len() <= usize::MAX,
            post.spec_cells().len() == pre.spec_cells().len(),
            forall|t: int| 0 <= t < vals.len() ==> #[trigger] vals[t] < pre.spec_cells().len() && pre.is_built(vals[t] as int),
            forall|j: int| n <= j < pre.spec_cells().len() ==> #[trigger] pre.spec_cells()[j].torn || vals.contains(j as usize),
            forall|i: int|
                0 <= i < pre.spec_cells().len() && pre.spec_cells()[i].torn
                    ==> #[trigger] post.spec_cells()[i].torn,
            forall|k: int|
                0 <= k < vals.len() && vals[k] >= n && pre.is_built(vals[k] as int)
                    ==> #[trigger] post.spec_cells()[vals[k] as int].torn,
        ensures
            forall|j: int| n <= j < post.spec_cells().len() ==> #[trigger] post.spec_cells()[j].torn,
    {
        assert forall|j: int| n <= j < post.spec_cells().len() implies #[trigger] post.spec_cells()[j].torn by {
            if !pre.spec_cells()[j].torn {
                assert(vals.contains(j as usize));
                let w = choose|w: int| 0 <= w < vals.len() && vals[w] == j as usize;
                assert(pre.is_built(vals[w] as int));
                assert(post.spec_cells()[vals[w] as int].torn);
            }
        }
    }

    /// Clones of the values of the built cells `vals`, in order: what a
    /// constructor receives.
    pub fn fixture_args(&self, vals: &Vec<usize>) -> (r: Vec<V>)
        requires
            forall|t: int|
                0 <= t < vals@.len() ==> #[trigger] vals@[t] < self.spec_cells().len()
                    && self.is_built(vals@[t] as int),
        ensures
            r@.len() == vals@.len(),
            forall|t: int|
                0 <= t < vals@.len() ==> cloned(self.value_of(#[trigger] vals@[t] as int), r@[t]),
    {
        let mut args: Vec<V> = Vec::new();
        let mut k: usize = 0;
        while k < vals.len()
            invariant
                k <= vals@.len(),
                args@.len() == k,
                forall|t: int|
                    0 <= t < vals@.len() ==> #[trigger] vals@[t] < self.spec_cells().len()
                        && self.is_built(vals@[t] as int),
                forall|t: int| 0 <= t < k ==> cloned(self.value_of(#[trigger] vals@[t] as int), args@[t]),
            decreases vals@.len() - k,
        {
            let v = self.value(vals[k]).clone();
            args.push(v);
            k = k + 1;
        }
        args
    }

    /// Builds the fixture that proxy `h` stands for, building its
    /// sub-fixtures first, and hands back the cell that holds the value.
    pub fn build<D: BuildableFixture<V>>(&mut self, defs: &D, h: &Proxy) -> (r: Result<
        usize,
        FixtureCreationError,
    >)
        requires
            old(self).wf(),
            h.cell < old(self).spec_cells().len(),
        ensures
            Self::build_post(defs, *old(self), h.cell as int, r, *final(self)),
        decreases h.cell,
    {
        let c = h.cell;
        let combo = match &self.cells[c].state {
            LazyValue::Value(_) => {
                proof {
                    Self::lemma_frame_refl(*self, c + 1);
                }
                return Ok(c);
            },
            LazyValue::Proxies(combo) => duplicate_vec(&combo.proxies),
        };
        let ghost pre = *self;
        let ghost n = pre.spec_cells().len();
        let n0 = self.cells.len();
        proof {
            assert(pre.cell_wf(c as int));
            assert(Self::build_frame(pre, pre, c as int)) by {
                assert(pre.spec_released().subrange(0, pre.spec_released().len() as int) =~= pre.spec_released());
                assert forall|j: int| 0 <= j < n implies Self::cell_evolves(
                    pre.spec_cells()[j],
                    #[trigger] pre.spec_cells()[j],
                ) by {}
            }
        }
        let p = self.cells[c].provider;
        let mut vals: Vec<usize> = Vec::new();
        let mut i: usize = 0;
        while i < combo.len()
            invariant
                pre.wf(),
                pre == *old(self),
                c == h.cell,
                n0 == n,
                p == pre.spec_cells()[c as int].provider,
                c < n,
                n == pre.spec_cells().len(),
                pre.spec_cells()[c as int].state matches LazyValue::Proxies(cb) && cb@ == combo@,
                proxies_below(combo@, c as int),
                i <= combo@.len(),
                Self::build_frame(pre, *self, c as int),
                vals@.len() == i,
                forall|k: int|
                    0 <= k < i ==> #[trigger] vals@[k] < self.spec_cells().len() && self.is_built(
                        vals@[k] as int,
                    ) && (vals@[k] == combo@[k].cell || vals@[k] >= n),
                forall|k: int|
                    0 <= k < i && pre.shares(combo@[k].cell as int) ==> #[trigger] vals@[k]
                        == combo@[k].cell,
                forall|j: int|
                    n <= j < self.spec_cells().len() ==> #[trigger] self.spec_cells()[j].torn
                        || vals@.contains(j as usize),
            decreases combo@.len() - i,
        {
            let ghost mid = *self;
            let sub = &combo[i];
            assert(sub.cell < c);
            assert(sub.cell < h.cell);
            let res = self.build(defs, sub);
            proof {
                Self::lemma_frame_chain(pre, mid, *self, c as int, combo@[i as int].cell + 1, c as int);
                assert forall|k: int| 0 <= k < i implies #[trigger] vals@[k] < self.spec_cells().len()
                    && self.is_built(vals@[k] as int) && (vals@[k] == combo@[k].cell || vals@[k] >= n) by {
                    assert(mid.is_built(vals@[k] as int));
                    if vals@[k] < mid.spec_cells().len() {
                        assert(Self::cell_evolves(mid.spec_cells()[vals@[k] as int], self.spec_cells()[vals@[k] as int]));
                    }
                }
            }
            match res {
                Ok(v) => {
                    let ghost old_vals = vals@;
                    proof {
                        let h = combo@[i as int].cell as int;
                        assert(Self::cell_evolves(pre.spec_cells()[h], mid.spec_cells()[h]));
                        if v != combo@[i as int].cell {
                            assert(mid.spec_cells()[h].state is Proxies);
                            assert(mid.cell_scope(h) == FixtureScope::Once);
                        }
                    }
                    vals.push(v);
                    proof {
                        assert forall|k: int| 0 <= k < i + 1 && pre.shares(combo@[k].cell as int) implies #[trigger] vals@[k]
                            == combo@[k].cell by {
                            if k < i {
                                assert(vals@[k] == old_vals[k]);
                            }
                        }
                        assert forall|j: int| n <= j < self.spec_cells().len() implies #[trigger] self.spec_cells()[j].torn
                            || vals@.contains(j as usize) by {
                            if j == v {
                                assert(vals@[i as int] == v);
                            } else if j < mid.spec_cells().len() {
                                assert(Self::cell_evolves(mid.spec_cells()[j], self.spec_cells()[j]));
                                if !mid.spec_cells()[j].torn {
                                    assert(mid.spec_cells()[j].torn || old_vals.contains(j as usize));
                                    let w = choose|w: int| 0 <= w < old_vals.len() && old_vals[w] == j as usize;
                                    assert(vals@[w] == j as usize);
                                }
                            } else {
                                assert(res->Ok_0 != j);
                                assert(self.spec_cells()[j].torn);
                            }
                        }
                    }
                },
                Err(e) => {
                    proof {
                        assert forall|j: int| n <= j < self.spec_cells().len() implies #[trigger] self.spec_cells()[j].torn
                            || vals@.contains(j as usize) by {
                            if j < mid.spec_cells().len() {
                                assert(Self::cell_evolves(mid.spec_cells()[j], self.spec_cells()[j]));
                                assert(mid.spec_cells()[j].torn || vals@.contains(j as usize));
                            } else {
                                assert(self.spec_cells()[j].torn);
                            }
                        }
                    }
                    let ghost before_release = *self;
                    let _len = self.cells.len();
                    self.release_fresh(defs, &vals, n0, Ghost(pre), Ghost(c as int));
                    proof {
                        Self::lemma_fresh_released(before_release, *self, vals@, n as int);
                        Self::lemma_frame_weaken(pre, *self, c as int, c + 1);
                        assert(self.spec_cells()[c as int] == pre.spec_cells()[c as int]);
                    }
                    return Err(e);
                },
            }
            i = i + 1;
        }
        let ghost s_args = *self;
        let args = self.fixture_args(&vals);
        let call_args = CallArgs(args);
        let ghost gargs = call_args;
        let res = defs.build_fixt(p, call_args);
        let ghost gres = res;
        let ghost before_release = *self;
        let _len = self.cells.len();
        self.release_fresh(defs, &vals, n0, Ghost(pre), Ghost(c as int));
        proof {
            Self::lemma_fresh_released(before_release, *self, vals@, n as int);
            assert(self.spec_cells()[c as int] == pre.spec_cells()[c as int]);
            Self::lemma_frame_weaken(pre, *self, c as int, c + 1);
            assert(pre.cell_wf(c as int));
        }
        let ghost before = *self;
        let r = self.store_built(c, res);
        proof {
            assert(before.spec_released().subrange(0, before.spec_released().len() as int) =~= before.spec_released());
            assert(before.cell_wf(c as int));
            assert(Self::all_evolve(before, *self));
            assert(Self::untouched_from(before, *self, c + 1));
            assert(Self::new_cells_once(before, *self));
            assert(Self::log_grows_new(before, *self));
            Self::lemma_frame_chain(pre, before, *self, c + 1, c + 1, c + 1);
            assert forall|j: int| n <= j < self.spec_cells().len() && (r is Err || r->Ok_0 != j) implies #[trigger] self.spec_cells()[j].torn by {
                if j < before.spec_cells().len() {
                    assert(before.spec_cells()[j].torn);
                    assert(self.spec_cells()[j] == before.spec_cells()[j]);
                }
            }
            assert(constructed(defs, p, gargs, gres));
            assert(gargs.0@.len() == combo@.len());
            match gres {
                Ok(x) => {
                    let v = r->Ok_0 as int;
                    assert forall|t: int|
                        0 <= t < combo@.len() && pre.shares(combo@[t].cell as int) implies cloned(
                            self.value_of(combo@[t].cell as int),
                            #[trigger] gargs.0@[t],
                        ) by {
                        assert(vals@[t] == combo@[t].cell);
                        assert(cloned(s_args.value_of(vals@[t] as int), gargs.0@[t]));
                        assert(combo@[t].cell < c);
                        assert(before_release.spec_cells()[combo@[t].cell as int] == s_args.spec_cells()[combo@[t].cell as int]);
                        assert(before.spec_cells()[combo@[t].cell as int] == before_release.spec_cells()[combo@[t].cell as int]);
                        assert(self.spec_cells()[combo@[t].cell as int] == before.spec_cells()[combo@[t].cell as int]);
                    }
                    let d = pre.spec_defs()[p as int];
                    assert(self.spec_cells()[v].state == LazyValue::Value(FixtureTeardown { value: x, teardown: d.teardown }));
                    assert(constructed(defs, p, gargs, Ok(x)) && gargs.0@.len() == combo@.len()
                        && forall|t: int|
                        0 <= t < combo@.len() && pre.shares(combo@[t].cell as int) ==> cloned(
                            self.value_of(combo@[t].cell as int),
                            #[trigger] gargs.0@[t],
                        ));
                    assert(self.value_of(v) == x);
                    assert(Self::made_from(defs, pre, *self, c as int, combo@, v));
                },
                Err(err) => {
                    assert(constructed(defs, p, gargs, Err(err)));
                    assert(r->Err_0.fixture_name == pre.spec_defs()[p as int].name);
                    assert(r->Err_0.error == err);
                    assert(p < pre.spec_defs().len());
                    assert(constructed(defs, p, gargs, Err(r->Err_0.error)));
                    assert(ctor_error(defs, pre.spec_defs(), r->Err_0));
                },
            }
        }
        r
    }

}

impl<V> TestContext<V> {
    /// Cell `c` holds a value of a provider whose scope is `s1` or `s2`.
    pub open spec fn in_scope(&self, c: int, s1: FixtureScope, s2: FixtureScope) -> bool {
        &&& self.spec_cells()[c].provider < self.spec_defs().len()
        &&& self.is_built(c)
        &&& (self.cell_scope(c) == s1 || self.cell_scope(c) == s2)
    }

    /// What releasing the values of scopes `s1` and `s2` does: each such
    /// value is released, each teardown callback of theirs has run exactly
    /// once, and nothing else changes.
    pub open spec fn scope_released(pre: Self, post: Self, s1: FixtureScope, s2: FixtureScope) -> bool {
        let n = pre.spec_cells().len();
        let pl = pre.spec_released();
        let log = post.spec_released();
        &&& post.wf()
        &&& post.spec_defs() == pre.spec_defs()
        &&& post.spec_global() == pre.spec_global()
        &&& post.spec_cells().len() == n
        &&& Self::all_evolve(pre, post)
        &&& forall|c: int| 0 <= c < n && !pre.in_scope(c, s1, s2) ==> #[trigger] post.spec_cells()[c] == pre.spec_cells()[c]
        &&& forall|c: int| 0 <= c < n && pre.in_scope(c, s1, s2) ==> #[trigger] post.spec_cells()[c].torn
        &&& forall|c: int|
            0 <= c < n && pre.in_scope(c, s1, s2) && pre.has_teardown(c) ==> #[trigger] log.contains(c as usize)
        &&& log.len() >= pl.len()
        &&& log.subrange(0, pl.len() as int) == pl
        &&& forall|k: int| pl.len() <= k < log.len() ==> pre.in_scope(#[trigger] log[k] as int, s1, s2)
    }

    fn release_scope<D: BuildableFixture<V>>(&mut self, defs: &D, s1: FixtureScope, s2: FixtureScope)
        requires
            old(self).wf(),
        ensures
            Self::scope_released(*old(self), *final(self), s1, s2),
            final(self).spec_reg() == old(self).spec_reg(),
    {
        let ghost pre = *self;
        let n = self.cells.len();
        let mut c: usize = 0;
        while c < n
            invariant
                pre.wf(),
                n == pre.spec_cells().len(),
                c <= n,
                self.wf(),
                self.spec_defs() == pre.spec_defs(),
                self.spec_global() == pre.spec_global(),
                self.spec_reg() == pre.spec_reg(),
                self.spec_cells().len() == n,
                Self::all_evolve(pre, *self),
                forall|i: int| 0 <= i < n && (i >= c || !pre.in_scope(i, s1, s2)) ==> #[trigger] self.spec_cells()[i] == pre.spec_cells()[i],
                forall|i: int| 0 <= i < c && pre.in_scope(i, s1, s2) ==> #[trigger] self.spec_cells()[i].torn,
                forall|i: int|
                    0 <= i < c && pre.in_scope(i, s1, s2) && pre.has_teardown(i) ==> #[trigger] self.spec_released().contains(i as usize),
                self.spec_released().len() >= pre.spec_released().len(),
                self.spec_released().subrange(0, pre.spec_released().len() as int) == pre.spec_released(),
                forall|k: int| pre.spec_released().len() <= k < self.spec_released().len() ==> pre.in_scope(#[trigger] self.spec_released()[k] as int, s1, s2),
            decreases n - c,
        {
            let p = self.cells[c].provider;
            let built = match &self.cells[c].state {
                LazyValue::Value(_) => true,
                LazyValue::Proxies(_) => false,
            };
            if built && p < self.defs.len() && (self.defs[p].scope == s1 || self.defs[p].scope == s2) {
                let ghost before = *self;
                proof {
                    assert(self.spec_cells()[c as int] == pre.spec_cells()[c as int]);
                    assert(pre.in_scope(c as int, s1, s2));
                }
                self.release(defs, c);
                proof {
                    let pl = pre.spec_released();
                    let bl = before.spec_released();
                    let log = self.spec_released();
                    assert(self.cell_wf(c as int));
                    assert(self.has_teardown(c as int) == pre.has_teardown(c as int));
                    assert forall|j: int| 0 <= j < bl.len() implies log[j] == bl[j] by {}
                    assert forall|i: int|
                        0 <= i < c + 1 && pre.in_scope(i, s1, s2) && pre.has_teardown(i) implies #[trigger] log.contains(i as usize) by {
                        if i < c {
                            assert(bl.contains(i as usize));
                            let w = choose|w: int| 0 <= w < bl.len() && bl[w] == i as usize;
                            assert(log[w] == i as usize);
                        }
                    }
                    assert(log.subrange(0, pl.len() as int) =~= pl) by {
                        assert forall|j: int| 0 <= j < pl.len() implies log[j] == pl[j] by {
                            assert(bl.subrange(0, pl.len() as int)[j] == bl[j]);
                        }
                    }
                    assert forall|k: int| pl.len() <= k < log.len() implies pre.in_scope(#[trigger] log[k] as int, s1, s2) by {
                        if k < bl.len() {
                            assert(log[k] == bl[k]);
                        } else {
                            assert(log[k] == c);
                        }
                    }
                    assert(Self::all_evolve(pre, *self)) by {
                        assert forall|i: int| 0 <= i < n implies Self::cell_evolves(pre.spec_cells()[i], #[trigger] self.spec_cells()[i]) by {
                            assert(Self::cell_evolves(pre.spec_cells()[i], before.spec_cells()[i]));
                        }
                    }
                }
            } else {
                proof {
                    assert(!pre.in_scope(c as int, s1, s2)) by {
                        assert(self.spec_cells()[c as int] == pre.spec_cells()[c as int]);
                    }
                }
            }
            c = c + 1;
        }
    }

    /// With the same providers, cells and record of teardowns, the invariant
    /// carries over to registries whose proxies are valid.
    proof fn lemma_same_cells_wf(pre: Self, post: Self)
        requires
            pre.wf(),
            post.spec_defs() == pre.spec_defs(),
            post.spec_cells() == pre.spec_cells(),
            post.spec_released() == pre.spec_released(),
            registry_below(post.spec_global(), post.spec_cells().len() as int),
            registry_below(post.spec_reg(), post.spec_cells().len() as int),
            registry_counted(post.spec_global(), post.spec_defs()),
            registry_counted(post.spec_reg(), post.spec_defs()),
            registry_owned(post.spec_global(), post.spec_cells()),
            registry_owned(post.spec_reg(), post.spec_cells()),
        ensures
            post.wf(),
    {
        assert forall|p: int| 0 <= p < post.spec_defs().len() implies #[trigger] post.def_wf(p) by {
            assert(pre.def_wf(p));
        }
        assert forall|c: int| 0 <= c < post.spec_cells().len() implies #[trigger] post.cell_wf(c) by {
            assert(pre.cell_wf(c));
        }
    }

    /// Starts the discovery of a new test: its test registry starts empty.
    /// Nothing is released; values of earlier tests are released by
    /// `end_test`.
    pub fn begin_test(&mut self)
        requires
            old(self).wf(),
        ensures
            final(self).wf(),
            final(self).spec_defs() == old(self).spec_defs(),
            final(self).spec_cells() == old(self).spec_cells(),
            final(self).spec_global() == old(self).spec_global(),
            final(self).spec_released() == old(self).spec_released(),
            forall|q: int| #[trigger] final(self).spec_reg().lookup(q) is None,
    {
        let ghost mid = *self;
        self.reg = FixtureRegistry::new();
        proof {
            Self::lemma_same_cells_wf(mid, *self);
        }
    }

    /// Ends the current test. Every value of its Test and MatrixUnique
    /// fixtures is released, the teardown callback of each running exactly
    /// once, and the next test starts with an empty test registry.
    pub fn end_test<D: BuildableFixture<V>>(&mut self, defs: &D)
        requires
            old(self).wf(),
        ensures
            Self::scope_released(*old(self), *final(self), FixtureScope::Test, FixtureScope::MatrixUnique),
            forall|q: int| #[trigger] final(self).spec_reg().lookup(q) is None,
    {
        self.release_scope(defs, FixtureScope::Test, FixtureScope::MatrixUnique);
        let ghost mid = *self;
        self.reg = FixtureRegistry::new();
        proof {
            Self::lemma_same_cells_wf(mid, *self);
            assert(Self::all_evolve(*old(self), *self)) by {
                assert forall|i: int| 0 <= i < self.spec_cells().len() implies Self::cell_evolves(old(self).spec_cells()[i], #[trigger] self.spec_cells()[i]) by {
                    assert(Self::cell_evolves(old(self).spec_cells()[i], mid.spec_cells()[i]));
                }
            }
        }
    }

    /// Ends the run. Every value of a Global fixture is released, the
    /// teardown callback of each running exactly once.
    pub fn finish<D: BuildableFixture<V>>(&mut self, defs: &D)
        requires
            old(self).wf(),
        ensures
            Self::scope_released(*old(self), *final(self), FixtureScope::Global, FixtureScope::Global),
            final(self).spec_reg() == old(self).spec_reg(),
    {
        self.release_scope(defs, FixtureScope::Global, FixtureScope::Global);
    }

    /// `dims` are the dimensions of a test whose parameters ask for the
    /// providers `deps`: for each, in order, a list of its proxies as long as
    /// a setup of it.
    pub open spec fn case_dims(&self, deps: Seq<usize>, dims: Seq<Seq<Proxy>>) -> bool {
        &&& dims.len() == deps.len()
        &&& forall|t: int|
            0 <= t < deps.len() ==> proxies_of(self.spec_cells(), #[trigger] dims[t], deps[t] as int)
                && dims[t].len() == proxy_count(self.spec_defs(), deps[t] as nat)
    }

    /// Test case `t` belongs to test `def` (known as `id`) with `total` cases:
    /// it carries the test's flags, one proxy per parameter, and its name.
    pub open spec fn case_of(&self, t: Test, id: usize, def: TestDef, total: nat) -> bool {
        &&& t.test == id
        &&& t.xfail == def.xfail
        &&& t.ignore == def.ignore
        &&& t.combination@.len() == def.deps@.len()
        &&& proxies_below(t.combination@, self.spec_cells().len() as int)
        &&& forall|k: int|
            0 <= k < t.combination@.len() ==> #[trigger] self.spec_cells()[t.combination@[k].cell as int].provider
                == def.deps@[k]
        &&& t.name@ == test_case_name_of(
            def.name@,
            total,
            combination_name_of(element_names(t.combination@)),
        )
    }

    /// The test cases of the declared test `def`, known to the runner as
    /// `id`: one per combination of the proxies of its parameters, in matrix
    /// order, each named after the test and, when there are several cases,
    /// after its combination.
    pub fn generate(&mut self, id: usize, def: &TestDef) -> (r: Vec<Test>)
        requires
            old(self).wf(),
            Self::deps_below(def.deps@, old(self).spec_defs().len() as int),
        ensures
            final(self).wf(),
            final(self).spec_defs() == old(self).spec_defs(),
            final(self).spec_released() == old(self).spec_released(),
            Self::cells_extend(*old(self), *final(self)),
            forall|q: int|
                #[trigger] old(self).spec_global().lookup(q) is Some ==> final(self).spec_global().lookup(
                    q,
                ) == old(self).spec_global().lookup(q),
            r@.len() == list_count(old(self).spec_defs(), def.deps@, old(self).spec_defs().len()),
            forall|k: int| 0 <= k < r@.len() ==> #[trigger] final(self).case_of(r@[k], id, *def, r@.len()),
            exists|dims: Seq<Seq<Proxy>>|
                #[trigger] final(self).case_dims(def.deps@, dims) && forall|k: int|
                    0 <= k < r@.len() ==> (#[trigger] r@[k]).combination@ == cartesian(dims)[k],
    {
        let ghost pre = *self;
        let mut m: ProxyMatrix<Proxy> = ProxyMatrix::new();
        let n = def.deps.len();
        let mut j: usize = 0;
        while j < n
            invariant
                pre.wf(),
                n == def.deps@.len(),
                Self::deps_below(def.deps@, pre.spec_defs().len() as int),
                j <= n,
                self.wf(),
                self.spec_defs() == pre.spec_defs(),
                self.spec_released() == pre.spec_released(),
                Self::cells_extend(pre, *self),
                forall|q: int|
                    #[trigger] pre.spec_global().lookup(q) is Some ==> self.spec_global().lookup(q)
                        == pre.spec_global().lookup(q),
                m.wf(),
                m.dims().len() == j,
                product(m.dims()) == list_count(
                    pre.spec_defs(),
                    def.deps@.subrange(0, j as int),
                    pre.spec_defs().len(),
                ),
                forall|t: int|
                    0 <= t < m.dims().len() ==> proxies_below(
                        #[trigger] m.dims()[t],
                        self.spec_cells().len() as int,
                    ),
                forall|t: int|
                    0 <= t < m.dims().len() ==> proxies_of(
                        self.spec_cells(),
                        #[trigger] m.dims()[t],
                        def.deps@[t] as int,
                    ) && m.dims()[t].len() == proxy_count(pre.spec_defs(), def.deps@[t] as nat),
            decreases n - j,
        {
            let d = def.deps[j];
            let ghost mid = *self;
            let sub = self.get_fixture(d);
            proof {
                assert forall|c: int| 0 <= c < pre.spec_cells().len() implies #[trigger] self.spec_cells()[c]
                    == pre.spec_cells()[c] by {
                    assert(mid.spec_cells()[c] == pre.spec_cells()[c]);
                }
                assert forall|q: int| #[trigger] pre.spec_global().lookup(q) is Some implies self.spec_global().lookup(q)
                    == pre.spec_global().lookup(q) by {
                    assert(mid.spec_global().lookup(q) == pre.spec_global().lookup(q));
                }
            }
            let ghost old_dims = m.dims();
            let ghost sub_len = sub@.len();
            let ghost sub_v = sub@;
            m = m.feed(sub);
            proof {
                assert forall|t: int| 0 <= t < m.dims().len() implies proxies_below(
                    #[trigger] m.dims()[t],
                    self.spec_cells().len() as int,
                ) by {
                    if t < old_dims.len() {
                        assert(m.dims()[t] == old_dims[t]);
                        assert(proxies_below(old_dims[t], mid.spec_cells().len() as int));
                    }
                }
                assert forall|t: int| 0 <= t < m.dims().len() implies proxies_of(
                    self.spec_cells(),
                    #[trigger] m.dims()[t],
                    def.deps@[t] as int,
                ) by {
                    if t < old_dims.len() {
                        assert(m.dims()[t] == old_dims[t]);
                        assert(proxies_below(old_dims[t], mid.spec_cells().len() as int));
                        assert(proxies_of(mid.spec_cells(), old_dims[t], def.deps@[t] as int));
                        assert forall|w: int| 0 <= w < old_dims[t].len() implies #[trigger] self.spec_cells()[old_dims[t][w].cell as int].provider
                            == def.deps@[t] by {
                            assert(self.spec_cells()[old_dims[t][w].cell as int] == mid.spec_cells()[old_dims[t][w].cell as int]);
                        }
                    } else {
                        assert(m.dims()[t] == sub_v);
                        assert(def.deps@[t] == d);
                    }
                }
                assert forall|t: int| 0 <= t < m.dims().len() implies #[trigger] m.dims()[t].len()
                    == proxy_count(pre.spec_defs(), def.deps@[t] as nat) by {
                    if t < old_dims.len() {
                        assert(m.dims()[t] == old_dims[t]);
                    } else {
                        assert(m.dims()[t] == sub_v);
                        assert(def.deps@[t] == d);
                    }
                }
                let deps = def.deps@;
                assert(m.dims().drop_last() =~= old_dims);
                assert(product(m.dims()) == product(old_dims) * sub_len);
                assert(deps.subrange(0, j + 1).drop_last() =~= deps.subrange(0, j as int));
                assert(deps.subrange(0, j + 1).last() == d);
                assert(sub_len == proxy_count(pre.spec_defs(), d as nat));
                assert(d < pre.spec_defs().len());
            }
            j = j + 1;
        }
        proof {
            assert(def.deps@.subrange(0, n as int) =~= def.deps@);
        }
        let ghost dims = m.dims();
        let combos = m.flatten();
        let total = combos.len();
        let mut r: Vec<Test> = Vec::new();
        let mut i: usize = 0;
        while i < total
            invariant
                total == combos@.len(),
                i <= total,
                dims.len() == def.deps@.len(),
                combos@.len() == product(dims),
                product(dims) == list_count(pre.spec_defs(), def.deps@, pre.spec_defs().len()),
                forall|k: int| 0 <= k < combos@.len() ==> #[trigger] combos@[k]@ == cartesian(dims)[k],
                forall|t: int|
                    0 <= t < dims.len() ==> proxies_below(#[trigger] dims[t], self.spec_cells().len() as int),
                forall|t: int|
                    0 <= t < dims.len() ==> proxies_of(self.spec_cells(), #[trigger] dims[t], def.deps@[t] as int),
                r@.len() == i,
                forall|k: int| 0 <= k < i ==> #[trigger] self.case_of(r@[k], id, *def, total as nat),
                forall|k: int| 0 <= k < i ==> (#[trigger] r@[k]).combination@ == cartesian(dims)[k],
            decreases total - i,
        {
            let combination = ProxyCombination { proxies: duplicate_vec(&combos[i].proxies) };
            proof {
                lemma_cartesian_complete(dims);
                assert(combos@[i as int]@ == cartesian(dims)[i as int]);
                assert(combination@ == cartesian(dims)[i as int]);
                assert(cartesian(dims)[i as int] == pick(dims, coords(dims, i as int)));
                assert forall|t: int| 0 <= t < combination@.len() implies #[trigger] combination@[t].cell
                    < self.spec_cells().len() by {
                    lemma_cartesian_element(dims, i as int, t);
                    let w = choose|w: int|
                        0 <= w < dims[t].len() && cartesian(dims)[i as int][t] == dims[t][w];
                    assert(proxies_below(dims[t], self.spec_cells().len() as int));
                    assert(dims[t][w].cell < self.spec_cells().len());
                }
                assert forall|t: int| 0 <= t < combination@.len() implies #[trigger] self.spec_cells()[combination@[t].cell as int].provider
                    == def.deps@[t] by {
                    lemma_cartesian_element(dims, i as int, t);
                    let w = choose|w: int|
                        0 <= w < dims[t].len() && cartesian(dims)[i as int][t] == dims[t][w];
                    assert(proxies_of(self.spec_cells(), dims[t], def.deps@[t] as int));
                    assert(self.spec_cells()[dims[t][w].cell as int].provider == def.deps@[t]);
                }
            }
            let display = combination.name();
            let name = test_case_name(def.name.as_str(), total, &display);
            let t = Test { name, xfail: def.xfail, ignore: def.ignore, test: id, combination };
            proof {
                assert(self.case_of(t, id, *def, total as nat));
            }
            let ghost old_r = r@;
            r.push(t);
            proof {
                assert forall|k: int| 0 <= k < i + 1 implies #[trigger] self.case_of(r@[k], id, *def, total as nat) by {
                    if k < i {
                        assert(r@[k] == old_r[k]);
                    }
                }
                assert forall|k: int| 0 <= k < i + 1 implies (#[trigger] r@[k]).combination@ == cartesian(dims)[k] by {
                    if k < i {
                        assert(r@[k] == old_r[k]);
                    }
                }
            }
            i = i + 1;
        }
        proof {
            assert(self.case_dims(def.deps@, dims));
        }
        r
    }

}

/// `body` is what the runner's body of test `test` returns for `args`.
pub open spec fn body_ran<V, R: TestRunner<V>>(
    runner: &R,
    test: usize,
    args: CallArgs<V>,
    body: Result<(), InnerTestError>,
) -> bool {
    call_ensures(R::run_test, (runner, test, args), body)
}

impl<V: Clone> TestContext<V> {
    /// What a run of test case `case` reports. Either a fixture of the case
    /// failed, and the report is exactly that failure (also for an
    /// expected-failure case); or every shared fixture of the case is built,
    /// the body ran once with one value per parameter (a clone of the
    /// fixture's value for a shared one), and the report is what the outcome
    /// rule makes of the body's result.
    pub open spec fn run_result<D: BuildableFixture<V>, R: TestRunner<V>>(
        defs: &D,
        runner: &R,
        pre: Self,
        post: Self,
        case: Test,
        r: Result<(), InnerTestError>,
    ) -> bool {
        let combo = case.combination@;
        ||| exists|e: FixtureCreationError|
            #[trigger] ctor_error(defs, pre.spec_defs(), e) && result_view(r) == Err::<(), Seq<char>>(
                fixture_failure_text(e.fixture_name@, e.error@),
            )
        ||| {
            &&& forall|k: int| 0 <= k < combo.len() ==> #[trigger] post.built_or_once(combo[k].cell as int)
            &&& exists|args: CallArgs<V>, body: Result<(), InnerTestError>|
                #[trigger] body_ran(runner, case.test, args, body) && args.0@.len() == combo.len()
                    && result_view(r) == outcome_of(case.xfail, result_view(body)) && forall|t: int|
                    0 <= t < combo.len() && pre.shares(combo[t].cell as int) ==> cloned(
                        post.value_of(combo[t].cell as int),
                        #[trigger] args.0@[t],
                    )
        }
    }

    /// Runs test case `case`: builds its fixtures, runs its body with their
    /// values, releases the values made for it alone, and reports.
    pub fn run<D: BuildableFixture<V>, R: TestRunner<V>>(
        &mut self,
        defs: &D,
        runner: &R,
        case: &Test,
    ) -> (r: Result<(), InnerTestError>)
        requires
            old(self).wf(),
            proxies_below(case.combination@, old(self).spec_cells().len() as int),
        ensures
            Self::build_frame(*old(self), *final(self), old(self).spec_cells().len() as int),
            Self::run_result(defs, runner, *old(self), *final(self), *case, r),
            forall|i: int|
                old(self).spec_cells().len() <= i < final(self).spec_cells().len()
                    ==> #[trigger] final(self).spec_cells()[i].torn,
            r is Ok ==> forall|k: int|
                0 <= k < case.combination@.len() ==> #[trigger] final(self).built_or_once(
                    case.combination@[k].cell as int,
                ),
    {
        let ghost pre = *self;
        let n0 = self.cells.len();
        let ghost n = n0 as int;
        proof {
            Self::lemma_frame_refl(pre, n0 as int);
        }
        let combo = &case.combination.proxies;
        let mut vals: Vec<usize> = Vec::new();
        let mut i: usize = 0;
        while i < combo.len()
            invariant
                pre.wf(),
                pre == *old(self),
                n0 == pre.spec_cells().len(),
                n == n0,
                proxies_below(combo@, n0 as int),
                i <= combo@.len(),
                Self::build_frame(pre, *self, n0 as int),
                vals@.len() == i,
                forall|k: int|
                    0 <= k < i ==> #[trigger] vals@[k] < self.spec_cells().len() && self.is_built(
                        vals@[k] as int,
                    ),
                forall|k: int| 0 <= k < i ==> #[trigger] self.built_or_once(combo@[k].cell as int),
                forall|k: int|
                    0 <= k < i && pre.shares(combo@[k].cell as int) ==> #[trigger] vals@[k]
                        == combo@[k].cell,
                forall|j: int|
                    n <= j < self.spec_cells().len() ==> #[trigger] self.spec_cells()[j].torn
                        || vals@.contains(j as usize),
            decreases combo@.len() - i,
        {
            let ghost mid = *self;
            let sub = &combo[i];
            assert(sub.cell < n0);
            let res = self.build(defs, sub);
            proof {
                Self::lemma_frame_chain(pre, mid, *self, n0 as int, sub.cell + 1, n0 as int);
                assert forall|k: int| 0 <= k < i implies #[trigger] vals@[k] < self.spec_cells().len()
                    && self.is_built(vals@[k] as int) by {
                    assert(mid.is_built(vals@[k] as int));
                    assert(Self::cell_evolves(mid.spec_cells()[vals@[k] as int], self.spec_cells()[vals@[k] as int]));
                }
                assert forall|k: int| 0 <= k < i implies #[trigger] self.built_or_once(combo@[k].cell as int) by {
                    assert(mid.built_or_once(combo@[k].cell as int));
                    assert(Self::cell_evolves(mid.spec_cells()[combo@[k].cell as int], self.spec_cells()[combo@[k].cell as int]));
                }
            }
            match res {
                Ok(v) => {
                    let ghost old_vals = vals@;
                    proof {
                        let h = sub.cell as int;
                        assert(Self::cell_evolves(mid.spec_cells()[h], self.spec_cells()[h]));
                        assert(self.built_or_once(h));
                        assert(Self::cell_evolves(pre.spec_cells()[h], mid.spec_cells()[h]));
                        if v != combo@[i as int].cell {
                            assert(mid.spec_cells()[h].state is Proxies);
                            assert(mid.cell_scope(h) == FixtureScope::Once);
                        }
                    }
                    vals.push(v);
                    proof {
                        assert forall|k: int| 0 <= k < i + 1 && pre.shares(combo@[k].cell as int) implies #[trigger] vals@[k]
                            == combo@[k].cell by {
                            if k < i {
                                assert(vals@[k] == old_vals[k]);
                            }
                        }
                        assert forall|j: int| n <= j < self.spec_cells().len() implies #[trigger] self.spec_cells()[j].torn
                            || vals@.contains(j as usize) by {
                            if j == v {
                                assert(vals@[i as int] == v);
                            } else if j < mid.spec_cells().len() {
                                assert(Self::cell_evolves(mid.spec_cells()[j], self.spec_cells()[j]));
                                if !mid.spec_cells()[j].torn {
                                    assert(mid.spec_cells()[j].torn || old_vals.contains(j as usize));
                                    let w = choose|w: int| 0 <= w < old_vals.len() && old_vals[w] == j as usize;
                                    assert(vals@[w] == j as usize);
                                }
                            } else {
                                assert(res->Ok_0 != j);
                                assert(self.spec_cells()[j].torn);
                            }
                        }
                    }
                },
                Err(e) => {
                    proof {
                        assert forall|j: int| n <= j < self.spec_cells().len() implies #[trigger] self.spec_cells()[j].torn
                            || vals@.contains(j as usize) by {
                            if j < mid.spec_cells().len() {
                                assert(Self::cell_evolves(mid.spec_cells()[j], self.spec_cells()[j]));
                                assert(mid.spec_cells()[j].torn || vals@.contains(j as usize));
                            } else {
                                assert(self.spec_cells()[j].torn);
                            }
                        }
                    }
                    let ghost before_release = *self;
                    let _len = self.cells.len();
                    self.release_fresh(defs, &vals, n0, Ghost(pre), Ghost(n0 as int));
                    proof {
                        Self::lemma_fresh_released(before_release, *self, vals@, n);
                    }
                    let f = fixture_failure(&e);
                    proof {
                        assert(ctor_error(defs, pre.spec_defs(), e));
                        assert(result_view(Err::<(), InnerTestError>(f)) == Err::<(), Seq<char>>(
                            fixture_failure_text(e.fixture_name@, e.error@),
                        ));
                    }
                    return Err(f);
                },
            }
            i = i + 1;
        }
        let ghost s_args = *self;
        let args = self.fixture_args(&vals);
        let call_args = CallArgs(args);
        let ghost gargs = call_args;
        let body = runner.run_test(case.test, call_args);
        let ghost gbody = body;
        let ghost before_release = *self;
        let _len = self.cells.len();
        self.release_fresh(defs, &vals, n0, Ghost(pre), Ghost(n0 as int));
        proof {
            Self::lemma_fresh_released(before_release, *self, vals@, n);
            assert forall|k: int| 0 <= k < combo@.len() implies #[trigger] self.built_or_once(combo@[k].cell as int) by {
                assert(before_release.built_or_once(combo@[k].cell as int));
                assert(self.spec_cells()[combo@[k].cell as int] == before_release.spec_cells()[combo@[k].cell as int]);
            }
        }
        let r = test_outcome(case.xfail, body);
        proof {
            assert(result_view(r) == outcome_of(case.xfail, result_view(gbody)));
            assert(body_ran(runner, case.test, gargs, gbody));
            assert forall|t: int|
                0 <= t < combo@.len() && pre.shares(combo@[t].cell as int) implies cloned(
                    self.value_of(combo@[t].cell as int),
                    #[trigger] gargs.0@[t],
                ) by {
                assert(vals@[t] == combo@[t].cell);
                assert(cloned(s_args.value_of(vals@[t] as int), gargs.0@[t]));
                assert(self.spec_cells()[combo@[t].cell as int] == before_release.spec_cells()[combo@[t].cell as int]);
            }
            assert(body_ran(runner, case.test, gargs, gbody) && gargs.0@.len() == combo@.len()
                && result_view(r) == outcome_of(case.xfail, result_view(gbody)) && forall|t: int|
                0 <= t < combo@.len() && pre.shares(combo@[t].cell as int) ==> cloned(
                    self.value_of(combo@[t].cell as int),
                    #[trigger] gargs.0@[t],
                ));
        }
        r
    }
}

} // verus!
