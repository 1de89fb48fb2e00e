use rustest::{
    test_outcome, BuildableFixture, CallArgs, FixtureCreationError, FixtureDef, FixtureScope,
    InnerTestError, Proxy, TestContext, TestDef, TestRunner,
};
use std::cell::{Cell, RefCell};
use std::rc::Rc;

type Val = Vec<u32>;
type Ctor = Box<dyn Fn(&[Val]) -> Result<Val, String>>;
type Body = Box<dyn Fn(&[Val]) -> Result<(), String>>;

struct Fixtures {
    ctors: Vec<Ctor>,
    builds: RefCell<Vec<usize>>,
    teardowns: RefCell<Vec<(usize, Val)>>,
}

impl BuildableFixture<Val> for Fixtures {
    fn build_fixt(&self, provider: usize, args: CallArgs<Val>) -> Result<Val, String> {
        self.builds.borrow_mut().push(provider);
        (self.ctors[provider])(&args.0)
    }

    fn teardown(&self, provider: usize, value: &mut Val) {
        self.teardowns.borrow_mut().push((provider, value.clone()));
    }
}

struct Bodies {
    bodies: Vec<Body>,
    seen: RefCell<Vec<(usize, Vec<Val>)>>,
}

impl TestRunner<Val> for Bodies {
    fn run_test(&self, test: usize, args: CallArgs<Val>) -> Result<(), InnerTestError> {
        self.seen.borrow_mut().push((test, args.0.clone()));
        (self.bodies[test])(&args.0).map_err(InnerTestError::new)
    }
}

/// What one test case reported.
struct Case {
    test: usize,
    name: String,
    ignore: bool,
    args: Vec<Val>,
    result: Result<(), String>,
}

struct Run {
    ctx: TestContext<Val>,
    fx: Fixtures,
    tests: Vec<TestDef>,
    bodies: Bodies,
}

impl Run {
    fn new() -> Self {
        Run {
            ctx: TestContext::new(),
            fx: Fixtures { ctors: vec![], builds: RefCell::new(vec![]), teardowns: RefCell::new(vec![]) },
            tests: vec![],
            bodies: Bodies { bodies: vec![], seen: RefCell::new(vec![]) },
        }
    }

    fn declare(
        &mut self,
        name: &str,
        scope: FixtureScope,
        deps: &[usize],
        params: Option<Vec<Proxy>>,
        teardown: bool,
        ctor: impl Fn(&[Val]) -> Result<Val, String> + 'static,
    ) -> usize {
        let def = FixtureDef { name: name.to_owned(), scope, deps: deps.to_vec(), params, teardown };
        let id = self.ctx.declare(def).expect("a valid declaration");
        assert_eq!(id, self.fx.ctors.len());
        self.fx.ctors.push(Box::new(ctor));
        id
    }

    fn fixture(
        &mut self,
        name: &str,
        scope: FixtureScope,
        deps: &[usize],
        ctor: impl Fn(&[Val]) -> Result<Val, String> + 'static,
    ) -> usize {
        self.declare(name, scope, deps, None, false, ctor)
    }

    fn params(
        &mut self,
        name: &str,
        scope: FixtureScope,
        values: &[Val],
        ctor: impl Fn(&[Val]) -> Result<Val, String> + 'static,
    ) -> usize {
        let mut ps = vec![];
        for v in values {
            let label = if v.len() == 1 {
                v[0].to_string()
            } else {
                format!("({})", v.iter().map(|x| x.to_string()).collect::<Vec<_>>().join(","))
            };
            ps.push(self.ctx.param(v.clone(), label));
        }
        self.declare(name, scope, &[], Some(ps), false, ctor)
    }

    fn global(&mut self, name: &str, source: usize) -> usize {
        self.fixture(name, FixtureScope::Global, &[source], |a| Ok(a[0].clone()))
    }

    fn test(
        &mut self,
        name: &str,
        deps: &[usize],
        xfail: bool,
        ignore: bool,
        body: impl Fn(&[Val]) -> Result<(), String> + 'static,
    ) -> usize {
        let id = self.tests.len();
        self.tests.push(TestDef { name: name.to_owned(), deps: deps.to_vec(), xfail, ignore });
        self.bodies.bodies.push(Box::new(body));
        id
    }

    /// Generates and runs every test in declaration order, one test at a time.
    fn run(&mut self) -> Vec<Case> {
        let mut out = vec![];
        for id in 0..self.tests.len() {
            let cases = self.ctx.generate(id, &self.tests[id]);
            for case in cases {
                let before = self.bodies.seen.borrow().len();
                let result = self.ctx.run(&self.fx, &self.bodies, &case).map_err(|e| e.msg);
                let seen = self.bodies.seen.borrow();
                let args = if seen.len() > before { seen[before].1.clone() } else { vec![] };
                out.push(Case { test: id, name: case.name.clone(), ignore: case.ignore, args, result });
            }
            self.ctx.end_test(&self.fx);
        }
        self.ctx.finish(&self.fx);
        out
    }

    fn builds_of(&self, p: usize) -> usize {
        self.fx.builds.borrow().iter().filter(|q| **q == p).count()
    }
}

fn expect(ok: bool) -> Result<(), String> {
    if ok { Ok(()) } else { Err("assertion failed".to_owned()) }
}

fn counter() -> impl Fn(&[Val]) -> Result<Val, String> + 'static {
    let next = Rc::new(Cell::new(0u32));
    move |_| {
        let n = next.get();
        next.set(n + 1);
        Ok(vec![n])
    }
}

fn cases_of<'a>(cases: &'a [Case], name: &str) -> Vec<&'a Case> {
    cases.iter().filter(|c| c.name == name || c.name.starts_with(&format!("{}[", name))).collect()
}

fn all_pass(cases: &[Case], name: &str) -> bool {
    let mine = cases_of(cases, name);
    !mine.is_empty() && mine.iter().all(|c| c.result.is_ok())
}

fn fibonacci(input: u32) -> u32 {
    match input {
        0 => 0,
        1 => 1,
        n => fibonacci(n - 2) + fibonacci(n - 1),
    }
}

/// The suite of the harness's own integration tests, declared in order.
fn main_suite() -> (Run, Vec<Case>) {
    let mut r = Run::new();
    let a_number = r.fixture("ANumber", FixtureScope::Once, &[], |_| Ok(vec![5]));
    let a_new_number = r.fixture("ANewNumber", FixtureScope::Once, &[], |_| Ok(vec![6]));
    let inc_number = r.fixture("IncNumber", FixtureScope::Once, &[], counter());
    let inc_number2 = r.fixture("IncNumber2", FixtureScope::Global, &[], counter());
    let inc_number3 = r.fixture("IncNumber3", FixtureScope::Global, &[inc_number], |a| Ok(a[0].clone()));
    let process = r.declare("RunningProcess", FixtureScope::Once, &[], None, true, |_| Ok(vec![4242]));
    let double = r.fixture("Double", FixtureScope::Once, &[inc_number], |a| Ok(vec![a[0][0] * 2]));
    let local = r.fixture("IncNumberLocal", FixtureScope::Test, &[inc_number], |a| Ok(a[0].clone()));
    let double_local = r.fixture("DoubleLocal", FixtureScope::Once, &[local], |a| Ok(vec![a[0][0] * 2]));
    let double_gen = r.fixture("DoubleGeneric", FixtureScope::Once, &[inc_number], |a| Ok(vec![a[0][0] * 2]));
    let double_gen_local = r.fixture("DoubleGeneric", FixtureScope::Once, &[local], |a| Ok(vec![a[0][0] * 2]));
    let parametrized = r.params("Parametrized", FixtureScope::Test, &[vec![1], vec![5]], |a| Ok(a[0].clone()));
    let double_param = r.fixture("DoubleGeneric", FixtureScope::Once, &[parametrized], |a| Ok(vec![a[0][0] * 2]));
    let param2 = r.params("Param", FixtureScope::Once, &[vec![1], vec![5]], |a| Ok(a[0].clone()));
    let fib = r.params(
        "Param",
        FixtureScope::Once,
        &[vec![0, 0], vec![1, 1], vec![2, 1], vec![3, 2], vec![4, 3], vec![5, 5], vec![6, 8]],
        |a| Ok(a[0].clone()),
    );

    r.test("simple_test", &[], false, false, |_| expect(5 * 6 == 30));
    r.test("simple_test_failing", &[], true, false, |_| expect(5 * 4 == 30));
    r.test("return_test", &[], false, false, |_| Ok(()));
    r.test("return_test_failing", &[], true, false, |_| Err("Dummy error".to_owned()));
    r.test("test_fixture_number", &[a_number], false, false, |a| expect(a[0][0] == 5));
    r.test("test_fixture_new_number", &[a_new_number], false, false, |a| expect(a[0][0] == 6));
    r.test("test_fixture_inc_number_0", &[inc_number], false, false, |a| expect(a[0][0] == 0));
    r.test("test_fixture_inc_number_1", &[inc_number], false, false, |a| expect(a[0][0] == 1));
    r.test("test_fixture_inc_number_2", &[inc_number], false, false, |a| expect(a[0][0] == 2));
    r.test("test_fixture_inc_number2_0", &[inc_number2], false, false, |a| expect(a[0][0] == 0));
    r.test("test_fixture_inc_number2_1", &[inc_number2], false, false, |a| expect(a[0][0] == 0));
    r.test("test_fixture_inc_number2_2", &[inc_number2], false, false, |a| expect(a[0][0] == 0));
    r.test("test_fixture_inc_number3_0", &[inc_number3], false, false, |a| expect(a[0][0] == 3));
    r.test("test_fixture_inc_number3_1", &[inc_number3], false, false, |a| expect(a[0][0] == 3));
    r.test("test_fixture_inc_number3_2", &[inc_number3], false, false, |a| expect(a[0][0] == 3));
    r.test("test_with_process", &[process], false, false, |a| expect(a[0][0] == 4242));
    r.test("test_double_unique", &[inc_number, double], false, false, |a| {
        expect((a[0][0] + 1) * 2 == a[1][0])
    });
    r.test("test_double_local", &[local, double_local], false, false, |a| expect(a[0][0] * 2 == a[1][0]));
    r.test("test_double_unique_gen", &[inc_number, double_gen], false, false, |a| {
        expect((a[0][0] + 1) * 2 == a[1][0])
    });
    r.test("test_double_local_gen", &[local, double_gen_local], false, false, |a| {
        expect(a[0][0] * 2 == a[1][0])
    });
    r.test("test_double_typedef", &[local, double_gen_local], false, false, |a| {
        expect(a[0][0] * 2 == a[1][0])
    });
    r.test("test_param", &[parametrized], false, false, |a| expect([1, 5].contains(&a[0][0])));
    r.test("test_param_double", &[double_param], false, false, |a| expect([2, 10].contains(&a[0][0])));
    r.test("test_param2", &[param2], false, false, |a| expect([1, 5].contains(&a[0][0])));
    r.test("fibonacci_test", &[fib], false, false, |a| expect(a[0][1] == fibonacci(a[0][0])));
    let cases = r.run();
    (r, cases)
}

#[test]
fn simple_test() {
    let (_, cases) = main_suite();
    assert!(all_pass(&cases, "simple_test"));
}

#[test]
fn simple_test_failing() {
    let (_, cases) = main_suite();
    assert!(all_pass(&cases, "simple_test_failing"));
}

#[test]
fn return_test() {
    let (_, cases) = main_suite();
    assert!(all_pass(&cases, "return_test"));
}

#[test]
fn return_test_failing() {
    let (_, cases) = main_suite();
    assert!(all_pass(&cases, "return_test_failing"));
}

#[test]
fn test_fixture_number() {
    let (_, cases) = main_suite();
    assert!(all_pass(&cases, "test_fixture_number"));
    assert_eq!(cases_of(&cases, "test_fixture_number")[0].args, vec![vec![5]]);
}

#[test]
fn test_fixture_new_number() {
    let (_, cases) = main_suite();
    assert!(all_pass(&cases, "test_fixture_new_number"));
    assert_eq!(cases_of(&cases, "test_fixture_new_number")[0].args, vec![vec![6]]);
}

#[test]
fn test_fixture_inc_number_0() {
    let (_, cases) = main_suite();
    assert!(all_pass(&cases, "test_fixture_inc_number_0"));
    assert_eq!(cases_of(&cases, "test_fixture_inc_number_0")[0].args, vec![vec![0]]);
}

#[test]
fn test_fixture_inc_number_1() {
    let (_, cases) = main_suite();
    assert!(all_pass(&cases, "test_fixture_inc_number_1"));
    assert_eq!(cases_of(&cases, "test_fixture_inc_number_1")[0].args, vec![vec![1]]);
}

#[test]
fn test_fixture_inc_number_2() {
    let (_, cases) = main_suite();
    assert!(all_pass(&cases, "test_fixture_inc_number_2"));
    assert_eq!(cases_of(&cases, "test_fixture_inc_number_2")[0].args, vec![vec![2]]);
}

#[test]
fn test_fixture_inc_number2_0() {
    let (_, cases) = main_suite();
    assert!(all_pass(&cases, "test_fixture_inc_number2_0"));
}

#[test]
fn test_fixture_inc_number2_1() {
    let (_, cases) = main_suite();
    assert!(all_pass(&cases, "test_fixture_inc_number2_1"));
}

#[test]
fn test_fixture_inc_number2_2() {
    let (r, cases) = main_suite();
    assert!(all_pass(&cases, "test_fixture_inc_number2_2"));
    assert_eq!(r.builds_of(3), 1);
}

#[test]
fn test_fixture_inc_number3_0() {
    let (_, cases) = main_suite();
    assert!(all_pass(&cases, "test_fixture_inc_number3_0"));
}

#[test]
fn test_fixture_inc_number3_1() {
    let (_, cases) = main_suite();
    assert!(all_pass(&cases, "test_fixture_inc_number3_1"));
}

#[test]
fn test_fixture_inc_number3_2() {
    let (r, cases) = main_suite();
    assert!(all_pass(&cases, "test_fixture_inc_number3_2"));
    assert_eq!(r.builds_of(4), 1);
}

#[test]
fn test_with_process() {
    let (r, cases) = main_suite();
    assert!(all_pass(&cases, "test_with_process"));
    // The process fixture is torn down once, right after its single use.
    let torn: Vec<_> = r.fx.teardowns.borrow().iter().filter(|(p, _)| *p == 5).cloned().collect();
    assert_eq!(torn, vec![(5, vec![4242])]);
}

#[test]
fn test_double_unique() {
    let (_, cases) = main_suite();
    assert!(all_pass(&cases, "test_double_unique"));
}

#[test]
fn test_double_local() {
    let (_, cases) = main_suite();
    assert!(all_pass(&cases, "test_double_local"));
}

#[test]
fn test_double_unique_gen() {
    let (_, cases) = main_suite();
    assert!(all_pass(&cases, "test_double_unique_gen"));
}

#[test]
fn test_double_local_gen() {
    let (_, cases) = main_suite();
    assert!(all_pass(&cases, "test_double_local_gen"));
}

#[test]
fn test_double_typedef() {
    let (_, cases) = main_suite();
    assert!(all_pass(&cases, "test_double_typedef"));
}

#[test]
fn test_param() {
    let (_, cases) = main_suite();
    assert!(all_pass(&cases, "test_param"));
    let names: Vec<_> = cases_of(&cases, "test_param").iter().map(|c| c.name.clone()).collect();
    assert_eq!(names, vec!["test_param[1]".to_owned(), "test_param[5]".to_owned()]);
}

#[test]
fn test_param_double() {
    let (_, cases) = main_suite();
    assert!(all_pass(&cases, "test_param_double"));
    let names: Vec<_> = cases_of(&cases, "test_param_double").iter().map(|c| c.name.clone()).collect();
    assert_eq!(names, vec!["test_param_double[1]".to_owned(), "test_param_double[5]".to_owned()]);
}

#[test]
fn test_param2() {
    let (_, cases) = main_suite();
    assert!(all_pass(&cases, "test_param2"));
    assert_eq!(cases_of(&cases, "test_param2").len(), 2);
}

#[test]
fn fibonacci_test() {
    let (_, cases) = main_suite();
    assert!(all_pass(&cases, "fibonacci_test"));
    let names: Vec<_> = cases_of(&cases, "fibonacci_test").iter().map(|c| c.name.clone()).collect();
    assert_eq!(names.len(), 7);
    assert_eq!(names[0], "fibonacci_test[(0,0)]".to_owned());
    assert_eq!(names[6], "fibonacci_test[(6,8)]".to_owned());
}

/// The scope demonstration: one shared counter behind fixtures of every scope.
struct ScopeSuite {
    run: Run,
    cases: Vec<Case>,
    scope: usize,
    matrix: usize,
    test: usize,
    global: usize,
}

fn scope_suite() -> ScopeSuite {
    let mut r = Run::new();
    let next = Rc::new(Cell::new(0u32));
    let new_number = move || {
        let c = next.clone();
        move |_: &[Val]| {
            let n = c.get();
            c.set(n + 1);
            Ok(vec![n])
        }
    };
    let scope = r.fixture("ScopeNumber", FixtureScope::Once, &[], new_number());
    let matrix = r.fixture("MatrixNumber", FixtureScope::MatrixUnique, &[], new_number());
    let test = r.fixture("TestNumber", FixtureScope::Test, &[], new_number());
    let global = r.fixture("GlobalNumber", FixtureScope::Global, &[], new_number());
    let param = r.params("ParamNumber", FixtureScope::Once, &[vec![5], vec![6]], |a| Ok(a[0].clone()));
    let inter = |r: &mut Run, n: usize| {
        r.fixture("IntermediateFixture", FixtureScope::Once, &[n, param], |a| Ok(a[0].clone()))
    };
    let inter_scope = inter(&mut r, scope);
    let inter_matrix = inter(&mut r, matrix);
    let inter_test = inter(&mut r, test);
    let inter_global = inter(&mut r, global);
    let global_scope = r.global("Global", scope);
    let inter_global_scope = inter(&mut r, global_scope);
    let global_inter_scope = r.global("Global", inter_scope);

    let ok = |_: &[Val]| Ok(());
    r.test("test_scope_number", &[inter_scope, param], false, false, ok);
    r.test("test_matrix_number_1", &[inter_matrix, matrix], false, false, ok);
    r.test("test_matrix_number_2", &[matrix, param], false, false, ok);
    r.test("test_test_number_1", &[inter_test, test], false, false, ok);
    r.test("test_test_number_2", &[test, param], false, false, ok);
    r.test("test_global_number_1", &[inter_global, global], false, false, ok);
    r.test("test_global_number_2", &[global, param], false, false, ok);
    r.test("test_make_global_number_1", &[inter_global_scope, global_scope], false, false, ok);
    r.test("test_make_global_number_2", &[global_scope, param], false, false, ok);
    r.test("test_make_global_number_wrong_1", &[global_inter_scope, global_scope], false, false, ok);
    r.test("test_make_global_number_wrong_2", &[global_inter_scope], false, false, ok);
    let cases = r.run();
    ScopeSuite { run: r, cases, scope, matrix, test, global }
}

/// The numbers a test printed: the values of the parameters it printed,
/// over all its cases.
fn printed(s: &ScopeSuite, name: &str, printed_args: &[usize]) -> Vec<u32> {
    let mut out = vec![];
    for c in cases_of(&s.cases, name) {
        assert!(c.result.is_ok());
        for i in printed_args {
            out.push(c.args[*i][0]);
        }
    }
    out
}

/// How many times each distinct number occurs, in increasing order of number.
fn multiplicities(values: &[u32]) -> Vec<u32> {
    let mut v = values.to_vec();
    v.sort();
    let mut out: Vec<u32> = vec![];
    let mut prev = None;
    for x in v {
        if prev == Some(x) {
            *out.last_mut().unwrap() += 1;
        } else {
            out.push(1);
            prev = Some(x);
        }
    }
    out
}

#[test]
fn test_scope_number() {
    let s = scope_suite();
    let v = printed(&s, "test_scope_number", &[0]);
    assert_eq!(multiplicities(&v), vec![1, 1, 1, 1]);
}

#[test]
fn test_matrix_number_1() {
    let s = scope_suite();
    let v = printed(&s, "test_matrix_number_1", &[1, 0]);
    assert_eq!(multiplicities(&v), vec![2, 2]);
}

#[test]
fn test_matrix_number_2() {
    let s = scope_suite();
    let v = printed(&s, "test_matrix_number_2", &[0]);
    assert_eq!(multiplicities(&v), vec![2]);
    assert_eq!(s.run.builds_of(s.matrix), 3);
}

#[test]
fn test_test_number_1() {
    let s = scope_suite();
    let v = printed(&s, "test_test_number_1", &[1, 0]);
    assert_eq!(multiplicities(&v), vec![4]);
}

#[test]
fn test_test_number_2() {
    let s = scope_suite();
    let first = printed(&s, "test_test_number_1", &[1]);
    let v = printed(&s, "test_test_number_2", &[0]);
    assert_eq!(multiplicities(&v), vec![2]);
    assert_ne!(first[0], v[0]);
    assert_eq!(s.run.builds_of(s.test), 2);
}

#[test]
fn test_global_number_1() {
    let s = scope_suite();
    let v = printed(&s, "test_global_number_1", &[1, 0]);
    assert_eq!(multiplicities(&v), vec![4]);
}

#[test]
fn test_global_number_2() {
    let s = scope_suite();
    let mut v = printed(&s, "test_global_number_1", &[1, 0]);
    v.extend(printed(&s, "test_global_number_2", &[0]));
    assert_eq!(multiplicities(&v), vec![6]);
    assert_eq!(s.run.builds_of(s.global), 1);
}

#[test]
fn test_make_global_number_1() {
    let s = scope_suite();
    let v = printed(&s, "test_make_global_number_1", &[1, 0]);
    assert_eq!(multiplicities(&v), vec![4]);
}

#[test]
fn test_make_global_number_2() {
    let s = scope_suite();
    let mut v = printed(&s, "test_make_global_number_1", &[1, 0]);
    v.extend(printed(&s, "test_make_global_number_2", &[0]));
    assert_eq!(multiplicities(&v), vec![6]);
}

#[test]
fn test_make_global_number_wrong_1() {
    let s = scope_suite();
    let v = printed(&s, "test_make_global_number_wrong_1", &[1, 0]);
    assert_eq!(multiplicities(&v), vec![2, 1, 1]);
}

#[test]
fn test_make_global_number_wrong_2() {
    let s = scope_suite();
    let mut v = printed(&s, "test_make_global_number_wrong_1", &[1, 0]);
    v.extend(printed(&s, "test_make_global_number_wrong_2", &[0]));
    assert_eq!(multiplicities(&v), vec![2, 2, 2]);
}

#[test]
fn test_scope() {
    let s = scope_suite();
    // 4 for "scope", 1 for "make global", 2 more for "make global wrong".
    assert_eq!(s.run.builds_of(s.scope), 7);
    assert_eq!(multiplicities(&printed(&s, "test_scope_number", &[0])), vec![1, 1, 1, 1]);
    assert_eq!(s.run.builds_of(s.matrix), 3);
    let mut m = printed(&s, "test_matrix_number_1", &[1, 0]);
    m.extend(printed(&s, "test_matrix_number_2", &[0]));
    assert_eq!(multiplicities(&m), vec![2, 2, 2]);
    assert_eq!(s.run.builds_of(s.test), 2);
    let mut t = printed(&s, "test_test_number_1", &[1, 0]);
    t.extend(printed(&s, "test_test_number_2", &[0]));
    assert_eq!(multiplicities(&t), vec![4, 2]);
    assert_eq!(s.run.builds_of(s.global), 1);
    let mut g = printed(&s, "test_global_number_1", &[1, 0]);
    g.extend(printed(&s, "test_global_number_2", &[0]));
    assert_eq!(multiplicities(&g), vec![6]);
    let mut mg = printed(&s, "test_make_global_number_1", &[1, 0]);
    mg.extend(printed(&s, "test_make_global_number_2", &[0]));
    assert_eq!(multiplicities(&mg), vec![6]);
    let mut w = printed(&s, "test_make_global_number_wrong_1", &[1, 0]);
    w.extend(printed(&s, "test_make_global_number_wrong_2", &[0]));
    assert_eq!(multiplicities(&w), vec![2, 2, 2]);
}

fn global_inc_suite() -> Vec<Case> {
    let mut r = Run::new();
    let inc = r.fixture("IncNumber", FixtureScope::Once, &[], counter());
    let global = r.global("Global", inc);
    r.test("test_global_0", &[global], false, false, |a| expect(a[0][0] == 0));
    r.test("test_global_1", &[global], false, false, |a| expect(a[0][0] == 0));
    r.run()
}

#[test]
fn scope_test_test_global_0() {
    assert!(all_pass(&global_inc_suite(), "test_global_0"));
}

#[test]
fn scope_test_test_global_1() {
    assert!(all_pass(&global_inc_suite(), "test_global_1"));
}

#[test]
fn global_test_test_global_0() {
    assert!(all_pass(&global_inc_suite(), "test_global_0"));
}

#[test]
fn global_test_test_global_1() {
    assert!(all_pass(&global_inc_suite(), "test_global_1"));
}

fn temp_file_suite() -> Vec<Case> {
    let mut r = Run::new();
    let temp = r.fixture("TempFile", FixtureScope::Once, &[], counter());
    let global = r.global("Global", temp);
    r.test("test_path", &[global], false, false, |_| Ok(()));
    r.test("test_path_bis", &[global], false, false, |_| Ok(()));
    r.run()
}

#[test]
fn test_path() {
    let cases = temp_file_suite();
    assert!(all_pass(&cases, "test_path"));
}

#[test]
fn test_path_bis() {
    let cases = temp_file_suite();
    assert!(all_pass(&cases, "test_path_bis"));
    // Both tests see the one global file.
    assert_eq!(cases_of(&cases, "test_path")[0].args, cases_of(&cases, "test_path_bis")[0].args);
}

fn simple_suite() -> (Run, Vec<Case>, usize, usize) {
    let mut r = Run::new();
    let number = r.fixture("Number", FixtureScope::Once, &[], |_| Ok(vec![5]));
    let param = r.params("ParamNumber", FixtureScope::Once, &[vec![5], vec![6], vec![42]], |a| {
        Ok(vec![a[0][0], a[0][0] * 2])
    });
    let global = r.params("ParamGlobalNumber", FixtureScope::Global, &[vec![5], vec![6], vec![42]], |a| {
        Ok(vec![a[0][0], a[0][0] * 2])
    });
    let doubled = |a: &[Val]| expect(a[0][0] * 2 == a[0][1]);
    r.test("test_number", &[number], false, false, |a| expect(a[0][0] == 5));
    r.test("test_param_number", &[param], false, false, doubled);
    r.test("test_param_number_bis", &[param], false, false, doubled);
    r.test("test_param_global_number", &[global], false, false, doubled);
    r.test("test_param_global_number_bis", &[global], false, false, doubled);
    let cases = r.run();
    (r, cases, param, global)
}

#[test]
fn simple_test_test_number() {
    let (_, cases, _, _) = simple_suite();
    assert!(all_pass(&cases, "test_number"));
    assert_eq!(cases_of(&cases, "test_number")[0].name, "test_number".to_owned());
}

#[test]
fn simple_test_test_param_number() {
    let (_, cases, _, _) = simple_suite();
    assert!(all_pass(&cases, "test_param_number"));
    let names: Vec<_> = cases.iter().filter(|c| c.test == 1).map(|c| c.name.clone()).collect();
    assert_eq!(
        names,
        vec![
            "test_param_number[5]".to_owned(),
            "test_param_number[6]".to_owned(),
            "test_param_number[42]".to_owned()
        ]
    );
}

#[test]
fn test_param_number_bis() {
    let (r, cases, param, _) = simple_suite();
    assert!(all_pass(&cases, "test_param_number_bis"));
    assert_eq!(r.builds_of(param), 6);
}

#[test]
fn test_param_global_number() {
    let (_, cases, _, _) = simple_suite();
    assert!(all_pass(&cases, "test_param_global_number"));
}

#[test]
fn test_param_global_number_bis() {
    let (r, cases, _, global) = simple_suite();
    assert!(all_pass(&cases, "test_param_global_number_bis"));
    assert_eq!(r.builds_of(global), 3);
}

fn ignored_suite() -> Vec<Case> {
    let mut r = Run::new();
    let number = r.fixture("Number", FixtureScope::Once, &[], |_| Ok(vec![5]));
    let param = r.params("ParamNumber", FixtureScope::Once, &[vec![5], vec![6], vec![42]], |a| {
        Ok(vec![a[0][0], a[0][0] * 2])
    });
    r.test("test_number", &[number], false, false, |a| expect(a[0][0] == 5));
    r.test("test_ignored_number", &[number], false, true, |a| expect(a[0][0] == 5));
    r.test("test_param_number", &[param], false, false, |a| expect(a[0][0] * 2 == a[0][1]));
    r.test("test_ignored_param_number", &[param], false, true, |a| expect(a[0][0] * 2 == a[0][1]));
    r.run()
}

#[test]
fn ignored_test_test_number() {
    let cases = ignored_suite();
    assert!(all_pass(&cases, "test_number"));
    assert!(!cases_of(&cases, "test_number")[0].ignore);
    assert!(cases_of(&cases, "test_ignored_number")[0].ignore);
}

#[test]
fn ignored_test_test_param_number() {
    let cases = ignored_suite();
    assert!(all_pass(&cases, "test_param_number"));
    assert!(cases_of(&cases, "test_param_number").iter().all(|c| !c.ignore));
}

#[test]
fn test_ignored_param_number() {
    let cases = ignored_suite();
    let mine = cases_of(&cases, "test_ignored_param_number");
    assert_eq!(mine.len(), 3);
    assert!(mine.iter().all(|c| c.ignore));
    // Run all the same, as with --include-ignored, they pass.
    assert!(all_pass(&cases, "test_ignored_param_number"));
}

#[test]
fn sub_module_fixture_test_number() {
    let mut r = Run::new();
    let n = r.params("ANumber", FixtureScope::Once, &[vec![5], vec![6]], |a| Ok(a[0].clone()));
    r.test("test_number", &[n], false, false, |a| expect([5, 6].contains(&a[0][0])));
    let cases = r.run();
    assert_eq!(cases.len(), 2);
    assert!(all_pass(&cases, "test_number"));
}

#[test]
fn explicit_parameters_name_the_cases() {
    let mut r = Run::new();
    let param = r.params("Param", FixtureScope::Test, &[vec![5], vec![6], vec![42]], |a| Ok(a[0].clone()));
    r.test("test", &[param], false, false, |_| Ok(()));
    let cases = r.run();
    let names: Vec<_> = cases.iter().map(|c| c.name.clone()).collect();
    assert_eq!(names, vec!["test[5]".to_owned(), "test[6]".to_owned(), "test[42]".to_owned()]);
    let values: Vec<_> = cases.iter().map(|c| c.args[0][0]).collect();
    assert_eq!(values, vec![5, 6, 42]);
}

#[test]
fn single_case_keeps_base_name() {
    let mut r = Run::new();
    let param = r.params("Param", FixtureScope::Once, &[vec![7]], |a| Ok(a[0].clone()));
    r.test("test", &[param], false, false, |_| Ok(()));
    let cases = r.run();
    assert_eq!(cases.len(), 1);
    assert_eq!(cases[0].name, "test".to_owned());
}

#[test]
fn two_dimensions_give_six_joined_names() {
    let mut r = Run::new();
    let a = r.params("A", FixtureScope::Once, &[vec![1], vec![2]], |a| Ok(a[0].clone()));
    let b = r.params("B", FixtureScope::Test, &[vec![7], vec![8], vec![9]], |a| Ok(a[0].clone()));
    r.test("test", &[a, b], false, false, |_| Ok(()));
    let cases = r.run();
    let names: Vec<_> = cases.iter().map(|c| c.name.clone()).collect();
    assert_eq!(
        names,
        vec![
            "test[[1|7]]".to_owned(),
            "test[[1|8]]".to_owned(),
            "test[[1|9]]".to_owned(),
            "test[[2|7]]".to_owned(),
            "test[[2|8]]".to_owned(),
            "test[[2|9]]".to_owned()
        ]
    );
}

#[test]
fn empty_parameter_list_gives_no_case() {
    let mut r = Run::new();
    let p = r.params("Param", FixtureScope::Once, &[], |a| Ok(a[0].clone()));
    r.test("test", &[p], false, false, |_| Ok(()));
    assert!(r.run().is_empty());
}

#[test]
fn unique_counter_gives_successive_values() {
    let mut r = Run::new();
    let inc = r.fixture("IncNumber", FixtureScope::Once, &[], counter());
    for name in ["first", "second", "third"] {
        r.test(name, &[inc], false, false, |_| Ok(()));
    }
    let cases = r.run();
    let values: Vec<_> = cases.iter().map(|c| c.args[0][0]).collect();
    assert_eq!(values, vec![0, 1, 2]);
}

#[test]
fn unique_requested_twice_in_one_case_differs() {
    let mut r = Run::new();
    let inc = r.fixture("IncNumber", FixtureScope::Once, &[], counter());
    r.test("twice", &[inc, inc], false, false, |_| Ok(()));
    let cases = r.run();
    assert_eq!(cases[0].args, vec![vec![0], vec![1]]);
}

#[test]
fn global_and_test_scopes_share() {
    let mut r = Run::new();
    let g = r.fixture("G", FixtureScope::Global, &[], counter());
    let t = r.fixture("T", FixtureScope::Test, &[], counter());
    r.test("one", &[g, t, t], false, false, |_| Ok(()));
    r.test("two", &[g, t, t], false, false, |_| Ok(()));
    let cases = r.run();
    assert_eq!(cases[0].args, vec![vec![0], vec![0], vec![0]]);
    assert_eq!(cases[1].args, vec![vec![0], vec![1], vec![1]]);
    assert_eq!(r.builds_of(g), 1);
    assert_eq!(r.builds_of(t), 2);
}

#[test]
fn teardown_runs_once_at_end_of_scope() {
    let mut r = Run::new();
    let t = r.declare("T", FixtureScope::Test, &[], None, true, counter());
    let g = r.declare("G", FixtureScope::Global, &[], None, true, |_| Ok(vec![100]));
    let p = r.params("P", FixtureScope::Once, &[vec![1], vec![2], vec![3]], |a| Ok(a[0].clone()));
    let d = r.fixture("D", FixtureScope::Once, &[t, g], |a| Ok(vec![a[0][0] + a[1][0]]));
    r.test("many", &[t, d, p, g], false, false, |_| Ok(()));
    r.test("again", &[t, g], false, false, |_| Ok(()));
    let mut cases = vec![];
    for id in 0..r.tests.len() {
        let generated = r.ctx.generate(id, &r.tests[id]);
        for case in generated {
            let before = r.fx.teardowns.borrow().len();
            cases.push(r.ctx.run(&r.fx, &r.bodies, &case).map_err(|e| e.msg));
            // Nothing shared is torn down while the test still runs.
            assert_eq!(r.fx.teardowns.borrow().len(), before);
        }
        let before = r.fx.teardowns.borrow().len();
        r.ctx.end_test(&r.fx);
        let after = r.fx.teardowns.borrow().clone();
        assert_eq!(after.len(), before + 1);
        assert_eq!(after[before], (t, vec![id as u32]));
    }
    r.ctx.end_test(&r.fx);
    assert_eq!(r.fx.teardowns.borrow().len(), 2);
    r.ctx.finish(&r.fx);
    r.ctx.finish(&r.fx);
    let torn = r.fx.teardowns.borrow().clone();
    assert_eq!(torn, vec![(t, vec![0]), (t, vec![1]), (g, vec![100])]);
    assert_eq!(cases.len(), 4);
    assert!(cases.iter().all(|c| c.is_ok()));
}

#[test]
fn expected_failure_that_passes_fails() {
    let mut r = Run::new();
    r.test("passes", &[], true, false, |_| Ok(()));
    r.test("fails", &[], true, false, |_| Err("no".to_owned()));
    r.test("plain_fails", &[], false, false, |_| Err("no".to_owned()));
    let cases = r.run();
    assert_eq!(cases[0].result, Err("Test should fail".to_owned()));
    assert_eq!(cases[1].result, Ok(()));
    assert_eq!(cases[2].result, Err("no".to_owned()));
}

#[test]
fn outcome_rule() {
    let fail = || Err(InnerTestError::new("boom".to_owned()));
    assert!(test_outcome(true, fail()).is_ok());
    assert_eq!(test_outcome(true, Ok(())).unwrap_err().msg, "Test should fail".to_owned());
    assert_eq!(test_outcome(false, fail()).unwrap_err().msg, "boom".to_owned());
    assert!(test_outcome(false, Ok(())).is_ok());
}

#[test]
fn fixture_failure_fails_dependent_tests_only() {
    let mut r = Run::new();
    let broken = r.fixture("Broken", FixtureScope::Once, &[], |_| Err("boom".to_owned()));
    let user = r.fixture("User", FixtureScope::Test, &[broken], |a| Ok(a[0].clone()));
    let fine = r.fixture("Fine", FixtureScope::Once, &[], |_| Ok(vec![1]));
    r.test("direct", &[broken], false, false, |_| Ok(()));
    r.test("indirect", &[fine, user], true, false, |_| Ok(()));
    r.test("unrelated", &[fine], false, false, |_| Ok(()));
    let cases = r.run();
    assert_eq!(cases[0].result, Err("Fixture Broken error: boom".to_owned()));
    assert_eq!(cases[1].result, Err("Fixture Broken error: boom".to_owned()));
    assert_eq!(cases[2].result, Ok(()));
    // The body of a test whose fixture failed never runs.
    assert!(cases[0].args.is_empty());
}

#[test]
fn failed_construction_is_retried() {
    let mut r = Run::new();
    let tries = Rc::new(Cell::new(0u32));
    let t2 = tries.clone();
    let flaky = r.fixture("Flaky", FixtureScope::Global, &[], move |_| {
        let n = t2.get();
        t2.set(n + 1);
        if n == 0 { Err("first".to_owned()) } else { Ok(vec![n]) }
    });
    r.test("a", &[flaky], false, false, |_| Ok(()));
    r.test("b", &[flaky], false, false, |_| Ok(()));
    r.test("c", &[flaky], false, false, |_| Ok(()));
    let cases = r.run();
    assert_eq!(cases[0].result, Err("Fixture Flaky error: first".to_owned()));
    assert_eq!(cases[1].args, vec![vec![1]]);
    assert_eq!(cases[2].args, vec![vec![1]]);
    assert_eq!(tries.get(), 2);
}

#[test]
fn declarations_are_checked() {
    let mut ctx: TestContext<Val> = TestContext::new();
    let bad = FixtureDef { name: "A".to_owned(), scope: FixtureScope::Once, deps: vec![0], params: None, teardown: false };
    assert_eq!(ctx.declare(bad), None);
    let a = FixtureDef { name: "A".to_owned(), scope: FixtureScope::Once, deps: vec![], params: None, teardown: false };
    assert_eq!(ctx.declare(a), Some(0));
    let b = FixtureDef { name: "B".to_owned(), scope: FixtureScope::Once, deps: vec![0], params: None, teardown: false };
    assert_eq!(ctx.declare(b), Some(1));
    let dangling = Proxy { cell: 9, name: None };
    let c = FixtureDef {
        name: "C".to_owned(),
        scope: FixtureScope::Once,
        deps: vec![],
        params: Some(vec![dangling]),
        teardown: false,
    };
    assert_eq!(ctx.declare(c), None);
    assert!(ctx.deps_declared(&vec![0, 1]));
    assert!(!ctx.deps_declared(&vec![2]));
}

#[test]
fn registries_follow_scope() {
    let mut ctx: TestContext<Val> = TestContext::new();
    let mk = |name: &str, scope| FixtureDef { name: name.to_owned(), scope, deps: vec![], params: None, teardown: false };
    let g = ctx.declare(mk("G", FixtureScope::Global)).unwrap();
    let t = ctx.declare(mk("T", FixtureScope::Test)).unwrap();
    let o = ctx.declare(mk("O", FixtureScope::Once)).unwrap();
    let m = ctx.declare(mk("M", FixtureScope::MatrixUnique)).unwrap();
    let pg = ctx.get_fixture(g);
    assert_eq!(ctx.get(g), Some(vec![Proxy { cell: pg[0].cell, name: None }]));
    let pt = ctx.get_fixture(t);
    assert_eq!(ctx.get_fixture(t), pt);
    let po = ctx.get_fixture(o);
    assert_ne!(ctx.get_fixture(o), po);
    assert_eq!(ctx.get(o), None);
    let pm = ctx.get_fixture(m);
    assert_ne!(ctx.get_fixture(m), pm);
    assert_eq!(ctx.get(m), None);
    let fx = Fixtures { ctors: vec![], builds: RefCell::new(vec![]), teardowns: RefCell::new(vec![]) };
    ctx.end_test(&fx);
    assert_eq!(ctx.get(t), None);
    assert_eq!(ctx.get_fixture(g), pg);
    assert_ne!(ctx.get_fixture(t), pt);
}

#[test]
fn build_shares_cells() {
    let mut r = Run::new();
    let s = r.fixture("S", FixtureScope::Test, &[], counter());
    let o = r.fixture("O", FixtureScope::Once, &[], counter());
    let ps = r.ctx.get_fixture(s);
    let po = r.ctx.get_fixture(o);
    let a = r.ctx.build(&r.fx, &ps[0]).unwrap();
    let b = r.ctx.build(&r.fx, &ps[0]).unwrap();
    assert_eq!(a, ps[0].cell);
    assert_eq!(a, b);
    assert_eq!(r.ctx.value(a), &vec![0]);
    let x = r.ctx.build(&r.fx, &po[0]).unwrap();
    let y = r.ctx.build(&r.fx, &po[0]).unwrap();
    assert!(x > po[0].cell && y > x);
    assert_eq!(r.ctx.value(x), &vec![0]);
    assert_eq!(r.ctx.value(y), &vec![1]);
    assert_eq!(r.builds_of(s), 1);
}

#[test]
fn creation_error_keeps_name_and_cause() {
    let e = FixtureCreationError::new("TempFile", "no space".to_owned());
    assert_eq!(e.fixture_name, "TempFile".to_owned());
    assert_eq!(e.error, "no space".to_owned());
    assert_eq!(rustest::fixture_failure(&e).msg, "Fixture TempFile error: no space".to_owned());
}

#[test]
fn sample_sums() {
    assert_eq!(rustest::add(2, 2), 4);
    assert_eq!(rustest::addition(598318, 54876521), 55474839);
    assert_eq!(rustest::addition(5, 6), 11);
}

fn addition_suite(xfail: bool, triples: &[Val]) -> Vec<Case> {
    let mut r = Run::new();
    let param = r.params("Param", FixtureScope::Once, triples, |a| Ok(a[0].clone()));
    let name = if xfail { "test_addition_fail" } else { "test_addition_ok" };
    r.test(name, &[param], xfail, false, |a| {
        let (x, y, expected) = (a[0][0], a[0][1], a[0][2]);
        expect(rustest::addition(x, y) == expected && rustest::addition(y, x) == expected)
    });
    r.run()
}

#[test]
fn test_addition_ok() {
    let cases = addition_suite(false, &[vec![1, 2, 3], vec![5, 6, 11], vec![598318, 54876521, 55474839]]);
    assert_eq!(cases.len(), 3);
    assert!(all_pass(&cases, "test_addition_ok"));
    assert_eq!(cases[2].name, "test_addition_ok[(598318,54876521,55474839)]".to_owned());
}

#[test]
fn test_addition_fail() {
    let cases = addition_suite(true, &[vec![1, 2, 4], vec![5, 6, 5555], vec![598318, 54876521, 0]]);
    assert_eq!(cases.len(), 3);
    // Every case fails its assertion, as expected, so each reports a pass.
    assert!(all_pass(&cases, "test_addition_fail"));
}

#[test]
fn it_works() {
    let result = rustest::add(2, 2);
    assert!(result == 4);
}

#[test]
fn it_works_with_gtest() {
    let result = rustest::add(2, 2);
    assert_eq!(result, 4);
}

#[test]
fn store_built_keeps_value_or_error() {
    let mut r = Run::new();
    let t = r.declare("T", FixtureScope::Test, &[], None, true, |_| Ok(vec![1]));
    let o = r.fixture("O", FixtureScope::Once, &[], |_| Ok(vec![1]));
    let pt = r.ctx.get_fixture(t);
    let po = r.ctx.get_fixture(o);
    let e = r.ctx.store_built(pt[0].cell, Err("nope".to_owned())).unwrap_err();
    assert_eq!((e.fixture_name, e.error), ("T".to_owned(), "nope".to_owned()));
    assert_eq!(r.ctx.store_built(pt[0].cell, Ok(vec![7])).unwrap(), pt[0].cell);
    assert_eq!(r.ctx.value(pt[0].cell), &vec![7]);
    let fresh = r.ctx.store_built(po[0].cell, Ok(vec![8])).unwrap();
    assert!(fresh > po[0].cell);
    assert_eq!(r.ctx.value(fresh), &vec![8]);
    assert_eq!(r.ctx.fixture_args(&vec![fresh, pt[0].cell]), vec![vec![8], vec![7]]);
}

#[test]
fn once_values_are_released_when_a_later_fixture_fails() {
    let mut r = Run::new();
    let once = r.declare("Once", FixtureScope::Once, &[], None, true, |_| Ok(vec![3]));
    let broken = r.fixture("Broken", FixtureScope::Once, &[], |_| Err("boom".to_owned()));
    let user = r.fixture("User", FixtureScope::Test, &[once, broken], |a| Ok(a[0].clone()));
    r.test("direct", &[once, broken], false, false, |_| Ok(()));
    r.test("nested", &[user], false, false, |_| Ok(()));
    let cases = r.run();
    assert_eq!(cases[0].result, Err("Fixture Broken error: boom".to_owned()));
    assert_eq!(cases[1].result, Err("Fixture Broken error: boom".to_owned()));
    let torn = r.fx.teardowns.borrow().clone();
    assert_eq!(torn, vec![(once, vec![3]), (once, vec![3])]);
}

#[test]
fn discovery_before_running() {
    let mut r = Run::new();
    let t = r.declare("T", FixtureScope::Test, &[], None, true, counter());
    r.test("one", &[t, t], false, false, |_| Ok(()));
    r.test("two", &[t], false, false, |_| Ok(()));
    let mut all = vec![];
    for id in 0..r.tests.len() {
        r.ctx.begin_test();
        all.push(r.ctx.generate(id, &r.tests[id]));
    }
    let mut seen = vec![];
    for cases in &all {
        for case in cases {
            assert!(r.ctx.run(&r.fx, &r.bodies, case).is_ok());
            seen.push(r.bodies.seen.borrow().last().unwrap().1.clone());
        }
        r.ctx.end_test(&r.fx);
    }
    assert_eq!(seen, vec![vec![vec![0], vec![0]], vec![vec![1]]]);
    assert_eq!(r.fx.teardowns.borrow().clone(), vec![(t, vec![0]), (t, vec![1])]);
}
