use vstd::prelude::*;
use vstd::arithmetic::div_mod::{
    lemma_fundamental_div_mod, lemma_fundamental_div_mod_converse_div,
    lemma_fundamental_div_mod_converse_mod,
};

verus! {

/// A value whose copies must stand for the very same thing.
///
/// Two duplicates of a fixture proxy build the same fixture: the copy keeps
/// every field, so it routes to the same shared cell.
pub trait Duplicate: Sized {
    fn duplicate(&self) -> (r: Self)
        ensures
            r == *self,
    ;
}

/// Number of combinations of the dimensions: the product of their lengths.
pub open spec fn product<T>(dims: Seq<Seq<T>>) -> nat
    decreases dims.len(),
{
    if dims.len() == 0 {
        1
    } else {
        product(dims.drop_last()) * dims.last().len()
    }
}

/// The cartesian product of the dimensions, in nested-loop order: the last
/// dimension varies fastest.
pub open spec fn cartesian<T>(dims: Seq<Seq<T>>) -> Seq<Seq<T>>
    decreases dims.len(),
{
    if dims.len() == 0 {
        seq![Seq::empty()]
    } else {
        let prev = cartesian(dims.drop_last());
        let last = dims.last();
        let m = last.len() as int;
        Seq::new(prev.len() * last.len(), |k: int| prev[k / m].push(last[k % m]))
    }
}

/// The positions, one per dimension, that combination `k` selects.
pub open spec fn coords<T>(dims: Seq<Seq<T>>, k: int) -> Seq<int>
    decreases dims.len(),
{
    if dims.len() == 0 {
        Seq::empty()
    } else {
        let m = dims.last().len() as int;
        coords(dims.drop_last(), k / m).push(k % m)
    }
}

/// `sel` picks one valid position in each dimension.
pub open spec fn is_selection<T>(dims: Seq<Seq<T>>, sel: Seq<int>) -> bool {
    &&& sel.len() == dims.len()
    &&& forall|t: int| 0 <= t < sel.len() ==> 0 <= #[trigger] sel[t] < dims[t].len()
}

/// The elements at the positions of `sel`.
pub open spec fn pick<T>(dims: Seq<Seq<T>>, sel: Seq<int>) -> Seq<T> {
    Seq::new(dims.len(), |t: int| dims[t][sel[t]])
}

/// Some dimension holds more than one element.
pub open spec fn has_multiple<T>(dims: Seq<Seq<T>>) -> bool {
    exists|t: int| 0 <= t < dims.len() && #[trigger] dims[t].len() > 1
}

proof fn lemma_split_index(k: int, m: int, p: int)
    requires
        m > 0,
        0 <= k < p * m,
    ensures
        0 <= k / m < p,
        0 <= k % m < m,
        k == (k / m) * m + k % m,
{
    lemma_fundamental_div_mod(k, m);
    let q = k / m;
    let r = k % m;
    assert(0 <= r < m);
    assert(k == m * q + r);
    assert(q * m == m * q) by (nonlinear_arith);
    assert(q >= 0) by (nonlinear_arith)
        requires
            k == m * q + r,
            0 <= k,
            r < m,
            m > 0,
    ;
    assert(q < p) by (nonlinear_arith)
        requires
            k == m * q + r,
            k < p * m,
            0 <= r,
            m > 0,
    ;
}

proof fn lemma_join_index(q: int, r: int, m: int, p: int)
    requires
        m > 0,
        0 <= q < p,
        0 <= r < m,
    ensures
        0 <= q * m + r < p * m,
        (q * m + r) / m == q,
        (q * m + r) % m == r,
{
    lemma_fundamental_div_mod_converse_div(q * m + r, m, q, r);
    lemma_fundamental_div_mod_converse_mod(q * m + r, m, q, r);
    assert(0 <= q * m + r < p * m) by (nonlinear_arith)
        requires
            m > 0,
            0 <= q < p,
            0 <= r < m,
    ;
}

/// Flattening dimensions of sizes s1..sN yields s1 x ... x sN combinations,
/// and covers every selection of one element per dimension exactly once:
/// combination `k` is the selection `coords(dims, k)`, distinct combinations
/// are distinct selections, and every selection is some combination.
pub proof fn lemma_cartesian_complete<T>(dims: Seq<Seq<T>>)
    ensures
        cartesian(dims).len() == product(dims),
        forall|k: int|
            0 <= k < product(dims) ==> is_selection(dims, #[trigger] coords(dims, k)) && cartesian(
                dims,
            )[k] == pick(dims, coords(dims, k)),
        forall|k1: int, k2: int|
            0 <= k1 < product(dims) && 0 <= k2 < product(dims) && #[trigger] coords(dims, k1)
                == #[trigger] coords(dims, k2) ==> k1 == k2,
        forall|sel: Seq<int>|
            #[trigger] is_selection(dims, sel) ==> exists|k: int|
                0 <= k < product(dims) && #[trigger] coords(dims, k) == sel,
    decreases dims.len(),
{
    if dims.len() == 0 {
        assert(cartesian(dims)[0] =~= pick(dims, coords(dims, 0)));
        assert forall|sel: Seq<int>| #[trigger] is_selection(dims, sel) implies exists|k: int|
            0 <= k < product(dims) && #[trigger] coords(dims, k) == sel by {
            assert(coords(dims, 0) =~= sel);
        }
    } else {
        let prev = dims.drop_last();
        let last = dims.last();
        let m = last.len() as int;
        let p = product(prev) as int;
        lemma_cartesian_complete(prev);
        assert(product(dims) == p * m);
        if m == 0 {
            assert(product(dims) == 0) by (nonlinear_arith)
                requires
                    product(dims) == p * m,
                    m == 0,
            ;
            assert forall|sel: Seq<int>| #[trigger] is_selection(dims, sel) implies exists|k: int|
                0 <= k < product(dims) && #[trigger] coords(dims, k) == sel by {
                assert(0 <= sel[dims.len() - 1] < dims[dims.len() - 1].len());
            }
        } else {
            assert forall|k: int| 0 <= k < product(dims) implies is_selection(
                dims,
                #[trigger] coords(dims, k),
            ) && cartesian(dims)[k] == pick(dims, coords(dims, k)) by {
                lemma_split_index(k, m, p);
                let c = coords(dims, k);
                let cp = coords(prev, k / m);
                assert(c == cp.push(k % m));
                assert(is_selection(prev, cp));
                assert forall|t: int| 0 <= t < c.len() implies 0 <= #[trigger] c[t]
                    < dims[t].len() by {
                    if t < c.len() - 1 {
                        assert(c[t] == cp[t]);
                        assert(dims[t] == prev[t]);
                    }
                }
                assert(cartesian(dims)[k] == cartesian(prev)[k / m].push(last[k % m]));
                assert(cartesian(dims)[k] =~= pick(dims, c));
            }
            assert forall|k1: int, k2: int|
                0 <= k1 < product(dims) && 0 <= k2 < product(dims) && #[trigger] coords(dims, k1)
                    == #[trigger] coords(dims, k2) implies k1 == k2 by {
                lemma_split_index(k1, m, p);
                lemma_split_index(k2, m, p);
                let c1 = coords(dims, k1);
                let c2 = coords(dims, k2);
                assert(c1.drop_last() =~= coords(prev, k1 / m));
                assert(c2.drop_last() =~= coords(prev, k2 / m));
                assert(c1.last() == k1 % m);
                assert(c2.last() == k2 % m);
            }
            assert forall|sel: Seq<int>| #[trigger] is_selection(dims, sel) implies exists|k: int|
                0 <= k < product(dims) && #[trigger] coords(dims, k) == sel by {
                let sp = sel.drop_last();
                assert forall|t: int| 0 <= t < sp.len() implies 0 <= #[trigger] sp[t]
                    < prev[t].len() by {
                    assert(sp[t] == sel[t]);
                }
                assert(is_selection(prev, sp));
                let q = choose|q: int| 0 <= q < product(prev) && #[trigger] coords(prev, q) == sp;
                let r = sel.last();
                assert(0 <= r < m);
                lemma_join_index(q, r, m, p);
                let k = q * m + r;
                assert(coords(dims, k) =~= sel);
            }
        }
    }
}

/// Each element of a combination is taken from its own dimension.
pub proof fn lemma_cartesian_element<T>(dims: Seq<Seq<T>>, k: int, t: int)
    requires
        0 <= k < product(dims),
        0 <= t < dims.len(),
    ensures
        cartesian(dims)[k].len() == dims.len(),
        exists|i: int| 0 <= i < dims[t].len() && cartesian(dims)[k][t] == dims[t][i],
{
    lemma_cartesian_complete(dims);
    let sel = coords(dims, k);
    assert(is_selection(dims, sel));
    assert(0 <= sel[t] < dims[t].len());
    assert(cartesian(dims)[k] == pick(dims, sel));
    assert(cartesian(dims)[k][t] == dims[t][sel[t]]);
}

/// One combination: one proxy per dimension, in the order dimensions were fed.
pub struct ProxyCombination<T> {
    pub proxies: Vec<T>,
}

impl<T> View for ProxyCombination<T> {
    type V = Seq<T>;

    open spec fn view(&self) -> Seq<T> {
        self.proxies@
    }
}

/// An increasing matrix of proxies: each `feed` adds one dimension.
pub struct ProxyMatrix<T> {
    proxies: Vec<Vec<T>>,
    multiple: bool,
}

/// The proxies of each combination.
pub open spec fn combos<T>(v: Seq<ProxyCombination<T>>) -> Seq<Seq<T>> {
    v.map_values(|c: ProxyCombination<T>| c@)
}

/// The dimensions held by a vector of vectors.
pub open spec fn rows<T>(v: Seq<Vec<T>>) -> Seq<Seq<T>> {
    v.map_values(|r: Vec<T>| r@)
}

impl<T> ProxyMatrix<T> {
    /// The dimensions fed so far, in feed order.
    pub closed spec fn dims(&self) -> Seq<Seq<T>> {
        rows(self.proxies@)
    }

    pub closed spec fn spec_multiple(&self) -> bool {
        self.multiple
    }

    pub closed spec fn wf(&self) -> bool {
        self.multiple == has_multiple(self.dims())
    }

    /// A matrix with no dimension.
    pub fn new() -> (r: Self)
        ensures
            r.wf(),
            r.dims() == Seq::<Seq<T>>::empty(),
    {
        let r = ProxyMatrix { proxies: Vec::new(), multiple: false };
        assert(r.dims() =~= Seq::<Seq<T>>::empty());
        r
    }

    /// Does some dimension hold more than one proxy?
    pub fn is_multiple(&self) -> (r: bool)
        requires
            self.wf(),
        ensures
            r == has_multiple(self.dims()),
    {
        self.multiple
    }

    /// The dimensions fed so far, in feed order.
    pub fn dimensions(&self) -> (r: &Vec<Vec<T>>)
        ensures
            rows(r@) == self.dims(),
    {
        &self.proxies
    }

    /// Adds `new_fixs` as the last dimension.
    pub fn feed(self, new_fixs: Vec<T>) -> (r: Self)
        requires
            self.wf(),
        ensures
            r.wf(),
            r.dims() == self.dims().push(new_fixs@),
    {
        let ghost old_dims = self.dims();
        let multiple = self.multiple || new_fixs.len() > 1;
        let mut proxies = self.proxies;
        proxies.push(new_fixs);
        let r = ProxyMatrix { proxies, multiple };
        assert(r.dims() =~= old_dims.push(new_fixs@));
        assert(r.dims()[r.dims().len() - 1] == new_fixs@);
        assert(multiple == has_multiple(r.dims())) by {
            if has_multiple(r.dims()) {
                let t = choose|t: int| 0 <= t < r.dims().len() && #[trigger] r.dims()[t].len() > 1;
                if t < old_dims.len() {
                    assert(old_dims[t] == r.dims()[t]);
                }
            }
            if has_multiple(old_dims) {
                let t = choose|t: int| 0 <= t < old_dims.len() && #[trigger] old_dims[t].len() > 1;
                assert(old_dims[t] == r.dims()[t]);
            }
        }
        r
    }
}

pub(crate) fn duplicate_vec<T: Duplicate>(v: &Vec<T>) -> (r: Vec<T>)
    ensures
        r@ == v@,
{
    let mut r: Vec<T> = Vec::new();
    let mut i: usize = 0;
    while i < v.len()
        invariant
            i <= v.len(),
            r@ == v@.subrange(0, i as int),
        decreases v.len() - i,
    {
        r.push(v[i].duplicate());
        i = i + 1;
    }
    assert(r@ =~= v@);
    r
}

impl<T: Duplicate> ProxyMatrix<T> {
    /// Every combination of the dimensions, the last one varying fastest.
    pub fn flatten(self) -> (r: Vec<ProxyCombination<T>>)
        ensures
            r@.len() == product(self.dims()),
            forall|k: int| 0 <= k < r@.len() ==> #[trigger] r@[k]@ == cartesian(self.dims())[k],
    {
        let ghost dims = self.dims();
        proof {
            lemma_cartesian_complete(dims);
        }
        let mut out: Vec<ProxyCombination<T>> = Vec::new();
        out.push(ProxyCombination { proxies: Vec::new() });
        assert(combos(out@) =~= cartesian(dims.subrange(0, 0)));
        let mut d: usize = 0;
        while d < self.proxies.len()
            invariant
                d <= self.proxies@.len(),
                dims == rows(self.proxies@),
                combos(out@) == cartesian(dims.subrange(0, d as int)),
            decreases self.proxies@.len() - d,
        {
            let ghost prev_dims = dims.subrange(0, d as int);
            let ghost next_dims = dims.subrange(0, d + 1);
            let dim = &self.proxies[d];
            let m = dim.len();
            proof {
                assert(next_dims.drop_last() =~= prev_dims);
                assert(next_dims.last() == dim@);
                lemma_cartesian_complete(prev_dims);
            }
            let ghost prev = cartesian(prev_dims);
            let mut next: Vec<ProxyCombination<T>> = Vec::new();
            let mut i: usize = 0;
            while i < out.len()
                invariant
                    i <= out@.len(),
                    m == dim@.len(),
                    combos(out@) == prev,
                    prev == cartesian(prev_dims),
                    next_dims.len() > 0,
                    next_dims.drop_last() == prev_dims,
                    next_dims.last() == dim@,
                    next@.len() == i * m,
                    forall|k: int|
                        0 <= k < next@.len() ==> #[trigger] next@[k]@ == cartesian(next_dims)[k],
                decreases out@.len() - i,
            {
                let mut j: usize = 0;
                while j < m
                    invariant
                        i < out@.len(),
                        j <= m,
                        m == dim@.len(),
                        combos(out@) == prev,
                        prev == cartesian(prev_dims),
                        next_dims.len() > 0,
                        next_dims.drop_last() == prev_dims,
                        next_dims.last() == dim@,
                        next@.len() == i * m + j,
                        forall|k: int|
                            0 <= k < next@.len() ==> #[trigger] next@[k]@ == cartesian(
                                next_dims,
                            )[k],
                    decreases m - j,
                {
                    let mut c = duplicate_vec(&out[i].proxies);
                    c.push(dim[j].duplicate());
                    proof {
                        let k = i * m + j;
                        lemma_join_index(i as int, j as int, m as int, prev.len() as int);
                        assert(prev[i as int] == out@[i as int]@);
                        assert(cartesian(next_dims) == Seq::new(
                            prev.len() * dim@.len(),
                            |k: int| prev[k / (m as int)].push(dim@[k % (m as int)]),
                        ));
                        assert(cartesian(next_dims)[k] == prev[i as int].push(dim@[j as int]));
                    }
                    next.push(ProxyCombination { proxies: c });
                    proof {
                        assert(next@.len() == i * m + j + 1);
                    }
                    j = j + 1;
                }
                proof {
                    assert((i + 1) * m == i * m + m) by (nonlinear_arith);
                }
                i = i + 1;
            }
            proof {
                assert(cartesian(next_dims).len() == prev.len() * m);
                assert(combos(next@) =~= cartesian(next_dims));
            }
            out = next;
            d = d + 1;
        }
        assert(dims.subrange(0, d as int) =~= dims);
        out
    }
}

} // verus!
