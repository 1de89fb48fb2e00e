use vstd::prelude::*;
use crate::context::{constructed, TestContext};
use crate::fixture::{BuildableFixture, CallArgs, FixtureCreationError, FixtureScope, Proxy};
use crate::matrix::cartesian;
use crate::naming::{combination_name_of, element_names, test_case_name_of};
use crate::test::{Test, TestDef};

verus! {

/// A Global fixture requested a second time in the same run hands back the
/// very proxies of the first request, and builds nothing new. In between,
/// the run registry only has to keep its entries, as every operation of the
/// engine does.
pub proof fn lemma_global_shared<V>(
    s0: TestContext<V>,
    s1: TestContext<V>,
    s2: TestContext<V>,
    s3: TestContext<V>,
    p: int,
    r1: Seq<Proxy>,
    r2: Seq<Proxy>,
)
    requires
        s0.wf(),
        0 <= p < s0.spec_defs().len(),
        s0.scope(p) == FixtureScope::Global,
        TestContext::setup_post(s0, p, r1, s1),
        s2.spec_defs() == s1.spec_defs(),
        forall|q: int|
            #[trigger] s1.spec_global().lookup(q) is Some ==> s2.spec_global().lookup(q)
                == s1.spec_global().lookup(q),
        TestContext::setup_post(s2, p, r2, s3),
    ensures
        r2 == r1,
        s3 == s2,
{
    assert(s1.spec_global().lookup(p) is Some);
}

/// A Test fixture requested twice within one test, with the test registry's
/// entry for it left as it was in between, hands back the same proxies.
pub proof fn lemma_test_shared_within_test<V>(
    s0: TestContext<V>,
    s1: TestContext<V>,
    s2: TestContext<V>,
    s3: TestContext<V>,
    p: int,
    r1: Seq<Proxy>,
    r2: Seq<Proxy>,
)
    requires
        s0.wf(),
        0 <= p < s0.spec_defs().len(),
        s0.scope(p) == FixtureScope::Test,
        TestContext::setup_post(s0, p, r1, s1),
        s2.spec_defs() == s1.spec_defs(),
        s2.spec_reg().lookup(p) == s1.spec_reg().lookup(p),
        TestContext::setup_post(s2, p, r2, s3),
    ensures
        r2 == r1,
        s3 == s2,
{
}

/// A Test fixture requested again after its test ended gets new cells:
/// none of the proxies of the next test shares a cell with the first.
pub proof fn lemma_test_fresh_per_test<V>(
    s0: TestContext<V>,
    s1: TestContext<V>,
    s2: TestContext<V>,
    s3: TestContext<V>,
    s4: TestContext<V>,
    p: int,
    r1: Seq<Proxy>,
    r2: Seq<Proxy>,
)
    requires
        s0.wf(),
        0 <= p < s0.spec_defs().len(),
        s0.scope(p) == FixtureScope::Test,
        TestContext::setup_post(s0, p, r1, s1),
        s2.spec_defs() == s1.spec_defs(),
        s2.spec_cells().len() >= s1.spec_cells().len(),
        TestContext::scope_released(s2, s3, FixtureScope::Test, FixtureScope::MatrixUnique),
        forall|q: int| #[trigger] s3.spec_reg().lookup(q) is None,
        TestContext::setup_post(s3, p, r2, s4),
    ensures
        forall|i: int, j: int|
            0 <= i < r1.len() && 0 <= j < r2.len() ==> #[trigger] r1[i].cell != #[trigger] r2[j].cell,
{
    assert(s3.scope_lookup(p) is None);
    assert forall|i: int, j: int| 0 <= i < r1.len() && 0 <= j < r2.len() implies #[trigger] r1[i].cell
        != #[trigger] r2[j].cell by {
        assert(r1[i].cell < s1.spec_cells().len());
        assert(r2[j].cell >= s3.spec_cells().len());
    }
}

/// Two builds of proxies of a Once provider construct two values: each is a
/// new cell, made by its own call of the constructor, the second after the
/// first.
pub proof fn lemma_once_fresh<V: Clone, D: BuildableFixture<V>>(
    defs: &D,
    s0: TestContext<V>,
    s1: TestContext<V>,
    s2: TestContext<V>,
    c1: int,
    c2: int,
    v1: usize,
    v2: usize,
)
    requires
        s0.wf(),
        0 <= c1 < s0.spec_cells().len(),
        s0.spec_cells()[c1].state is Proxies,
        s0.cell_scope(c1) == FixtureScope::Once,
        TestContext::build_post(defs, s0, c1, Ok::<usize, FixtureCreationError>(v1), s1),
        0 <= c2 < s1.spec_cells().len(),
        s1.spec_cells()[c2].state is Proxies,
        s1.cell_scope(c2) == FixtureScope::Once,
        TestContext::build_post(defs, s1, c2, Ok::<usize, FixtureCreationError>(v2), s2),
    ensures
        v1 >= s0.spec_cells().len(),
        v2 >= s1.spec_cells().len(),
        v1 < v2,
        exists|a1: CallArgs<V>|
            #[trigger] constructed(defs, s0.spec_cells()[c1].provider, a1, Ok(s1.value_of(v1 as int))),
        exists|a2: CallArgs<V>|
            #[trigger] constructed(defs, s1.spec_cells()[c2].provider, a2, Ok(s2.value_of(v2 as int))),
{
    assert(TestContext::made_from(defs, s0, s1, c1, s0.combo_of(c1), v1 as int));
    assert(TestContext::made_from(defs, s1, s2, c2, s1.combo_of(c2), v2 as int));
}

/// Ending a test runs the teardown callback of each of its Test and
/// MatrixUnique values exactly once: the value appears once in the record of
/// callbacks run.
pub proof fn lemma_teardown_once<V>(pre: TestContext<V>, post: TestContext<V>, c: usize)
    requires
        pre.wf(),
        TestContext::scope_released(pre, post, FixtureScope::Test, FixtureScope::MatrixUnique),
        c < pre.spec_cells().len(),
        pre.in_scope(c as int, FixtureScope::Test, FixtureScope::MatrixUnique),
        pre.has_teardown(c as int),
    ensures
        exists|k: int|
            0 <= k < post.spec_released().len() && post.spec_released()[k] == c && forall|k2: int|
                0 <= k2 < post.spec_released().len() && #[trigger] post.spec_released()[k2] == c
                    ==> k2 == k,
{
    let log = post.spec_released();
    assert(log.contains((c as int) as usize));
    let k = choose|k: int| 0 <= k < log.len() && log[k] == c;
    assert(log.no_duplicates());
    assert forall|k2: int| 0 <= k2 < log.len() && #[trigger] log[k2] == c implies k2 == k by {
        if k2 != k {
            assert(log[k2] != log[k]);
        }
    }
    assert(0 <= k < log.len() && log[k] == c);
}

/// Building and running never release a value that existed before: only
/// values made for the build itself are torn down then, so a shared value is
/// released by the end of its scope alone.
pub proof fn lemma_build_keeps_shared_values<V>(
    pre: TestContext<V>,
    post: TestContext<V>,
    from: int,
    k: int,
)
    requires
        pre.wf(),
        TestContext::build_frame(pre, post, from),
        pre.spec_released().len() <= k < post.spec_released().len(),
    ensures
        post.spec_released()[k] >= pre.spec_cells().len(),
{
}

/// A test with a single case keeps its base name; a test with several cases
/// names each after its combination, `base[display]`, when the combination
/// has a display name.
pub proof fn lemma_case_names<V>(ctx: TestContext<V>, t: Test, id: usize, def: TestDef, total: nat)
    requires
        ctx.case_of(t, id, def, total),
    ensures
        total == 1 ==> t.name@ == def.name@,
        total > 1 ==> match combination_name_of(element_names(t.combination@)) {
            Some(d) => t.name@ == def.name@ + seq!['['] + d + seq![']'],
            None => t.name@ == def.name@,
        },
{
}

/// The cases of a test follow its matrix: case `k` carries combination `k`
/// of the dimensions, in flatten order, and is named after it when the test
/// has several cases.
pub proof fn lemma_cases_in_matrix_order<V>(
    ctx: TestContext<V>,
    r: Seq<Test>,
    id: usize,
    def: TestDef,
    dims: Seq<Seq<Proxy>>,
    k: int,
)
    requires
        0 <= k < r.len(),
        forall|j: int| 0 <= j < r.len() ==> #[trigger] ctx.case_of(r[j], id, def, r.len()),
        forall|j: int| 0 <= j < r.len() ==> (#[trigger] r[j]).combination@ == cartesian(dims)[j],
    ensures
        r[k].combination@ == cartesian(dims)[k],
        r[k].name@ == test_case_name_of(
            def.name@,
            r.len(),
            combination_name_of(element_names(cartesian(dims)[k])),
        ),
{
    assert(ctx.case_of(r[k], id, def, r.len()));
}

} // verus!
