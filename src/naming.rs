use vstd::prelude::*;
use crate::matrix::ProxyCombination;

verus! {

/// The text of an optional string.
pub open spec fn opt_view(o: Option<String>) -> Option<Seq<char>> {
    match o {
        Some(s) => Some(s@),
        None => None,
    }
}

/// The parts that are present, in order.
pub open spec fn present(parts: Seq<Option<Seq<char>>>) -> Seq<Seq<char>>
    decreases parts.len(),
{
    if parts.len() == 0 {
        Seq::empty()
    } else {
        let rest = present(parts.drop_last());
        match parts.last() {
            Some(s) => rest.push(s),
            None => rest,
        }
    }
}

/// The parts separated by `sep`.
pub open spec fn join(parts: Seq<Seq<char>>, sep: Seq<char>) -> Seq<char>
    decreases parts.len(),
{
    if parts.len() == 0 {
        Seq::empty()
    } else if parts.len() == 1 {
        parts[0]
    } else {
        join(parts.drop_last(), sep) + sep + parts.last()
    }
}

/// The display name of a combination: nothing when no element has a name,
/// the one name when exactly one has, else the names in feed order joined
/// by `|` within brackets.
pub open spec fn combination_name_of(parts: Seq<Option<Seq<char>>>) -> Option<Seq<char>> {
    let p = present(parts);
    if p.len() == 0 {
        None
    } else if p.len() == 1 {
        Some(p[0])
    } else {
        Some(seq!['['] + join(p, seq!['|']) + seq![']'])
    }
}

/// The name of one test case: the base name alone when the test has a single
/// case (or its case has no display name), else `base[display]`.
pub open spec fn test_case_name_of(
    base: Seq<char>,
    n_cases: nat,
    display: Option<Seq<char>>,
) -> Seq<char> {
    match display {
        Some(d) if n_cases > 1 => base + seq!['['] + d + seq![']'],
        _ => base,
    }
}

/// Joins `parts` with the separator `sep`.
pub fn join_strings(parts: &Vec<String>, sep: &str) -> (r: String)
    ensures
        r@ == join(parts@.map_values(|s: String| s@), sep@),
{
    let ghost all = parts@.map_values(|s: String| s@);
    let mut r = String::new();
    let mut i: usize = 0;
    while i < parts.len()
        invariant
            i <= parts@.len(),
            all == parts@.map_values(|s: String| s@),
            r@ == join(all.subrange(0, i as int), sep@),
        decreases parts@.len() - i,
    {
        proof {
            let sub = all.subrange(0, i + 1);
            assert(sub.drop_last() =~= all.subrange(0, i as int));
            assert(sub.last() == parts@[i as int]@);
        }
        if i > 0 {
            r.append(sep);
        }
        r.append(parts[i].as_str());
        proof {
            if i == 0 {
                assert(r@ =~= all.subrange(0, 1)[0]);
            }
        }
        i = i + 1;
    }
    assert(all.subrange(0, parts@.len() as int) =~= all);
    r
}

/// The strings among `parts` that are present, in order.
pub fn present_strings(parts: &Vec<Option<String>>) -> (r: Vec<String>)
    ensures
        r@.map_values(|s: String| s@) == present(parts@.map_values(|o: Option<String>| opt_view(o))),
{
    let ghost all = parts@.map_values(|o: Option<String>| opt_view(o));
    let mut names: Vec<String> = Vec::new();
    let mut i: usize = 0;
    while i < parts.len()
        invariant
            i <= parts@.len(),
            all == parts@.map_values(|o: Option<String>| opt_view(o)),
            names@.map_values(|s: String| s@) == present(all.subrange(0, i as int)),
        decreases parts@.len() - i,
    {
        proof {
            let sub = all.subrange(0, i + 1);
            assert(sub.drop_last() =~= all.subrange(0, i as int));
            assert(sub.last() == opt_view(parts@[i as int]));
        }
        match &parts[i] {
            Some(s) => {
                let ghost before = names@;
                names.push(s.clone());
                assert(names@.map_values(|s: String| s@) =~= before.map_values(|s: String| s@).push(
                    s@,
                ));
            },
            None => {},
        }
        i = i + 1;
    }
    assert(all.subrange(0, parts@.len() as int) =~= all);
    names
}

/// The display name of a combination whose elements have the names `parts`.
pub fn combination_name(parts: &Vec<Option<String>>) -> (r: Option<String>)
    ensures
        opt_view(r) == combination_name_of(parts@.map_values(|o: Option<String>| opt_view(o))),
{
    let ghost all = parts@.map_values(|o: Option<String>| opt_view(o));
    let mut names = present_strings(parts);
    let ghost p = present(all);
    assert(names@.map_values(|s: String| s@).len() == names@.len());
    if names.len() == 0 {
        None
    } else if names.len() == 1 {
        assert(p[0] == names@[0]@);
        let n = names.pop().unwrap();
        Some(n)
    } else {
        proof {
            reveal_strlit("[");
            reveal_strlit("|");
            reveal_strlit("]");
            assert("[".view() =~= seq!['[']);
            assert("|".view() =~= seq!['|']);
            assert("]".view() =~= seq![']']);
        }
        let mut r = String::from_str("[");
        let joined = join_strings(&names, "|");
        r.append(joined.as_str());
        r.append("]");
        Some(r)
    }
}

/// The name of one test case of a test named `base` that has `n_cases` cases.
pub fn test_case_name(base: &str, n_cases: usize, display: &Option<String>) -> (r: String)
    ensures
        r@ == test_case_name_of(base@, n_cases as nat, opt_view(*display)),
{
    let mut r = String::from_str(base);
    match display {
        Some(d) => {
            if n_cases > 1 {
                proof {
                    reveal_strlit("[");
                    reveal_strlit("]");
                    assert("[".view() =~= seq!['[']);
                    assert("]".view() =~= seq![']']);
                }
                r.append("[");
                r.append(d.as_str());
                r.append("]");
            }
        },
        None => {},
    }
    r
}

/// What names a test case, or a part of one, when a test has several cases.
pub trait TestName {
    spec fn spec_name(&self) -> Option<Seq<char>>;

    fn name(&self) -> (r: Option<String>)
        ensures
            opt_view(r) == self.spec_name(),
    ;
}

/// The names of the elements of a combination.
pub open spec fn element_names<T: TestName>(s: Seq<T>) -> Seq<Option<Seq<char>>> {
    s.map_values(|t: T| t.spec_name())
}

impl<T: TestName> TestName for ProxyCombination<T> {
    open spec fn spec_name(&self) -> Option<Seq<char>> {
        combination_name_of(element_names(self@))
    }

    fn name(&self) -> (r: Option<String>) {
        let mut parts: Vec<Option<String>> = Vec::new();
        let mut i: usize = 0;
        while i < self.proxies.len()
            invariant
                i <= self@.len(),
                parts@.map_values(|o: Option<String>| opt_view(o)) == element_names(
                    self@.subrange(0, i as int),
                ),
            decreases self@.len() - i,
        {
            let ghost before = parts@;
            let n = self.proxies[i].name();
            parts.push(n);
            proof {
                let a = parts@.map_values(|o: Option<String>| opt_view(o));
                let b = before.map_values(|o: Option<String>| opt_view(o));
                let e = element_names(self@.subrange(0, i + 1));
                let e0 = element_names(self@.subrange(0, i as int));
                assert(b == e0);
                assert forall|j: int| 0 <= j < i implies a[j] == e[j] by {
                    assert(a[j] == b[j]);
                    assert(e[j] == e0[j]);
                }
                assert(a[i as int] == e[i as int]);
                assert(a =~= e);
            }
            i = i + 1;
        }
        assert(self@.subrange(0, self@.len() as int) =~= self@);
        combination_name(&parts)
    }
}

} // verus!
