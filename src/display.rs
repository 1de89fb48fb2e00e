use vstd::prelude::*;
use crate::naming::{join, join_strings, opt_view, present, present_strings};

verus! {

/// The decimal digit `d`.
pub open spec fn digit_char(d: nat) -> char {
    if d == 0 {
        '0'
    } else if d == 1 {
        '1'
    } else if d == 2 {
        '2'
    } else if d == 3 {
        '3'
    } else if d == 4 {
        '4'
    } else if d == 5 {
        '5'
    } else if d == 6 {
        '6'
    } else if d == 7 {
        '7'
    } else if d == 8 {
        '8'
    } else {
        '9'
    }
}

/// The decimal notation of `n`, without leading zeros.
pub open spec fn decimal(n: nat) -> Seq<char>
    decreases n,
{
    if n < 10 {
        seq![digit_char(n)]
    } else {
        decimal(n / 10).push(digit_char(n % 10))
    }
}

/// The decimal notation of `n`, with a minus sign when it is negative.
pub open spec fn signed_decimal(n: int) -> Seq<char> {
    if n < 0 {
        seq!['-'] + decimal((-n) as nat)
    } else {
        decimal(n as nat)
    }
}

/// The decimal digit `d`, as text.
fn digit_str(d: u128) -> (r: &'static str)
    requires
        d < 10,
    ensures
        r@ == seq![digit_char(d as nat)],
{
    proof {
        reveal_strlit("0");
        assert("0".view() =~= seq![digit_char(0)]);
        reveal_strlit("1");
        assert("1".view() =~= seq![digit_char(1)]);
        reveal_strlit("2");
        assert("2".view() =~= seq![digit_char(2)]);
        reveal_strlit("3");
        assert("3".view() =~= seq![digit_char(3)]);
        reveal_strlit("4");
        assert("4".view() =~= seq![digit_char(4)]);
        reveal_strlit("5");
        assert("5".view() =~= seq![digit_char(5)]);
        reveal_strlit("6");
        assert("6".view() =~= seq![digit_char(6)]);
        reveal_strlit("7");
        assert("7".view() =~= seq![digit_char(7)]);
        reveal_strlit("8");
        assert("8".view() =~= seq![digit_char(8)]);
        reveal_strlit("9");
        assert("9".view() =~= seq![digit_char(9)]);
    }
    if d == 0 {
        "0"
    } else if d == 1 {
        "1"
    } else if d == 2 {
        "2"
    } else if d == 3 {
        "3"
    } else if d == 4 {
        "4"
    } else if d == 5 {
        "5"
    } else if d == 6 {
        "6"
    } else if d == 7 {
        "7"
    } else if d == 8 {
        "8"
    } else {
        "9"
    }
}

/// The decimal digits of `n`, with no sign and no padding.
fn fmt_unsigned(n: u128) -> (r: String)
    ensures
        r@ == decimal(n as nat),
    decreases n,
{
    if n < 10 {
        String::from_str(digit_str(n))
    } else {
        let mut s = fmt_unsigned(n / 10);
        s.append(digit_str(n % 10));
        s
    }
}

/// The decimal digits of `n`, led by `-` when it is negative.
fn fmt_signed(n: i128) -> (r: String)
    ensures
        r@ == signed_decimal(n as int),
{
    if n < 0 {
        let magnitude: u128 = if n == i128::MIN {
            170141183460469231731687303715884105728u128
        } else {
            (-n) as u128
        };
        proof {
            reveal_strlit("-");
            assert("-".view() =~= seq!['-']);
        }
        let mut s = String::from_str("-");
        let digits = fmt_unsigned(magnitude);
        s.append(digits.as_str());
        s
    } else {
        fmt_unsigned(n as u128)
    }
}

/// Relies on `ToString` of `char`: the one character itself.
#[verifier::external_body]
fn fmt_char(c: char) -> (r: String)
    ensures
        r@ == seq![c],
{
    c.to_string()
}

/// The text of a boolean.
pub open spec fn bool_text(b: bool) -> Seq<char> {
    if b {
        seq!['t', 'r', 'u', 'e']
    } else {
        seq!['f', 'a', 'l', 's', 'e']
    }
}

fn fmt_bool(b: bool) -> (r: String)
    ensures
        r@ == bool_text(b),
{
    proof {
        reveal_strlit("true");
        reveal_strlit("false");
        assert("true".view() =~= seq!['t', 'r', 'u', 'e']);
        assert("false".view() =~= seq!['f', 'a', 'l', 's', 'e']);
    }
    if b {
        String::from_str("true")
    } else {
        String::from_str("false")
    }
}

/// `"None"`.
pub open spec fn none_text() -> Seq<char> {
    seq!['N', 'o', 'n', 'e']
}

fn fmt_none() -> (r: String)
    ensures
        r@ == none_text(),
{
    proof {
        reveal_strlit("None");
        assert("None".view() =~= none_text());
    }
    String::from_str("None")
}

/// `open` + the parts separated by `,` + `close`.
pub open spec fn enclosed(open: char, parts: Seq<Seq<char>>, close: char) -> Seq<char> {
    seq![open] + join(parts, seq![',']) + seq![close]
}

fn fmt_enclosed(open: &str, parts: &Vec<String>, close: &str) -> (r: String)
    requires
        open@.len() == 1,
        close@.len() == 1,
    ensures
        r@ == enclosed(open@[0], parts@.map_values(|s: String| s@), close@[0]),
{
    proof {
        reveal_strlit(",");
        assert(",".view() =~= seq![',']);
        assert(open@ =~= seq![open@[0]]);
        assert(close@ =~= seq![close@[0]]);
    }
    let mut r = String::from_str(open);
    let inner = join_strings(parts, ",");
    r.append(inner.as_str());
    r.append(close);
    r
}

/// The name of a parameter value inside a test name.
pub trait ParamName {
    spec fn spec_param_name(&self) -> Seq<char>;

    fn param_name(&self) -> (r: String)
        ensures
            r@ == self.spec_param_name(),
    ;
}

impl ParamName for u8 {
    open spec fn spec_param_name(&self) -> Seq<char> {
        decimal(*self as nat)
    }

    fn param_name(&self) -> (r: String) {
        fmt_unsigned(*self as u128)
    }
}

impl ParamName for u16 {
    open spec fn spec_param_name(&self) -> Seq<char> {
        decimal(*self as nat)
    }

    fn param_name(&self) -> (r: String) {
        fmt_unsigned(*self as u128)
    }
}

impl ParamName for u32 {
    open spec fn spec_param_name(&self) -> Seq<char> {
        decimal(*self as nat)
    }

    fn param_name(&self) -> (r: String) {
        fmt_unsigned(*self as u128)
    }
}

impl ParamName for u64 {
    open spec fn spec_param_name(&self) -> Seq<char> {
        decimal(*self as nat)
    }

    fn param_name(&self) -> (r: String) {
        fmt_unsigned(*self as u128)
    }
}

impl ParamName for u128 {
    open spec fn spec_param_name(&self) -> Seq<char> {
        decimal(*self as nat)
    }

    fn param_name(&self) -> (r: String) {
        fmt_unsigned(*self)
    }
}

impl ParamName for usize {
    open spec fn spec_param_name(&self) -> Seq<char> {
        decimal(*self as nat)
    }

    fn param_name(&self) -> (r: String) {
        fmt_unsigned(*self as u128)
    }
}

impl ParamName for i8 {
    open spec fn spec_param_name(&self) -> Seq<char> {
        signed_decimal(*self as int)
    }

    fn param_name(&self) -> (r: String) {
        fmt_signed(*self as i128)
    }
}

impl ParamName for i16 {
    open spec fn spec_param_name(&self) -> Seq<char> {
        signed_decimal(*self as int)
    }

    fn param_name(&self) -> (r: String) {
        fmt_signed(*self as i128)
    }
}

impl ParamName for i32 {
    open spec fn spec_param_name(&self) -> Seq<char> {
        signed_decimal(*self as int)
    }

    fn param_name(&self) -> (r: String) {
        fmt_signed(*self as i128)
    }
}

impl ParamName for i64 {
    open spec fn spec_param_name(&self) -> Seq<char> {
        signed_decimal(*self as int)
    }

    fn param_name(&self) -> (r: String) {
        fmt_signed(*self as i128)
    }
}

impl ParamName for i128 {
    open spec fn spec_param_name(&self) -> Seq<char> {
        signed_decimal(*self as int)
    }

    fn param_name(&self) -> (r: String) {
        fmt_signed(*self)
    }
}

impl ParamName for isize {
    open spec fn spec_param_name(&self) -> Seq<char> {
        signed_decimal(*self as int)
    }

    fn param_name(&self) -> (r: String) {
        fmt_signed(*self as i128)
    }
}

impl ParamName for bool {
    open spec fn spec_param_name(&self) -> Seq<char> {
        bool_text(*self)
    }

    fn param_name(&self) -> (r: String) {
        fmt_bool(*self)
    }
}

impl ParamName for char {
    open spec fn spec_param_name(&self) -> Seq<char> {
        seq![*self]
    }

    fn param_name(&self) -> (r: String) {
        fmt_char(*self)
    }
}

impl ParamName for String {
    open spec fn spec_param_name(&self) -> Seq<char> {
        self@
    }

    fn param_name(&self) -> (r: String) {
        self.clone()
    }
}

impl<'a> ParamName for &'a str {
    open spec fn spec_param_name(&self) -> Seq<char> {
        (*self)@
    }

    fn param_name(&self) -> (r: String) {
        String::from_str(*self)
    }
}

impl<T: ParamName> ParamName for Box<T> {
    open spec fn spec_param_name(&self) -> Seq<char> {
        (**self).spec_param_name()
    }

    fn param_name(&self) -> (r: String) {
        (**self).param_name()
    }
}

impl<T: ParamName> ParamName for Option<T> {
    open spec fn spec_param_name(&self) -> Seq<char> {
        match self {
            Some(v) => v.spec_param_name(),
            None => none_text(),
        }
    }

    fn param_name(&self) -> (r: String) {
        match self {
            Some(v) => v.param_name(),
            None => fmt_none(),
        }
    }
}

/// The names of the elements of a sequence.
pub open spec fn param_names<T: ParamName>(s: Seq<T>) -> Seq<Seq<char>> {
    s.map_values(|t: T| t.spec_param_name())
}

fn collect_param_names<T: ParamName>(v: &Vec<T>) -> (r: Vec<String>)
    ensures
        r@.map_values(|s: String| s@) == param_names(v@),
{
    let mut r: Vec<String> = Vec::new();
    let mut i: usize = 0;
    while i < v.len()
        invariant
            i <= v@.len(),
            r@.len() == i,
            r@.map_values(|s: String| s@) == param_names(v@.subrange(0, i as int)),
        decreases v@.len() - i,
    {
        let ghost before = r@;
        let n = v[i].param_name();
        let ghost nv = n@;
        r.push(n);
        proof {
            let a = r@.map_values(|s: String| s@);
            let b = before.map_values(|s: String| s@);
            let e = param_names(v@.subrange(0, i + 1));
            let e0 = param_names(v@.subrange(0, i as int));
            assert(b == e0);
            assert(r@.len() == i + 1);
            assert forall|j: int| 0 <= j < i implies a[j] == e[j] by {
                assert(r@[j] == before[j]);
                assert(a[j] == b[j]);
                assert(e[j] == e0[j]);
            }
            assert(a[i as int] == nv);
            assert(a =~= e);
        }
        i = i + 1;
    }
    assert(v@.subrange(0, v@.len() as int) =~= v@);
    r
}

impl<T: ParamName> ParamName for Vec<T> {
    open spec fn spec_param_name(&self) -> Seq<char> {
        enclosed('[', param_names(self@), ']')
    }

    fn param_name(&self) -> (r: String) {
        let parts = collect_param_names(self);
        proof {
            reveal_strlit("[");
            reveal_strlit("]");
        }
        fmt_enclosed("[", &parts, "]")
    }
}

impl<A: ParamName, B: ParamName> ParamName for (A, B) {
    open spec fn spec_param_name(&self) -> Seq<char> {
        enclosed('(', seq![self.0.spec_param_name(), self.1.spec_param_name()], ')')
    }

    fn param_name(&self) -> (r: String) {
        let parts = vec![self.0.param_name(), self.1.param_name()];
        proof {
            reveal_strlit("(");
            reveal_strlit(")");
            assert(parts@.map_values(|s: String| s@) =~= seq![
                self.0.spec_param_name(),
                self.1.spec_param_name(),
            ]);
        }
        fmt_enclosed("(", &parts, ")")
    }
}

impl<A: ParamName, B: ParamName, C: ParamName> ParamName for (A, B, C) {
    open spec fn spec_param_name(&self) -> Seq<char> {
        enclosed(
            '(',
            seq![self.0.spec_param_name(), self.1.spec_param_name(), self.2.spec_param_name()],
            ')',
        )
    }

    fn param_name(&self) -> (r: String) {
        let parts = vec![self.0.param_name(), self.1.param_name(), self.2.param_name()];
        proof {
            reveal_strlit("(");
            reveal_strlit(")");
            assert(parts@.map_values(|s: String| s@) =~= seq![
                self.0.spec_param_name(),
                self.1.spec_param_name(),
                self.2.spec_param_name(),
            ]);
        }
        fmt_enclosed("(", &parts, ")")
    }
}

/// Turns a parameter into the value and the name it goes by in test names.
pub trait ToParamName<T> {
    fn into_param(self) -> (T, String);
}

impl<T: ParamName> ToParamName<T> for T {
    fn into_param(self) -> (r: (T, String)) {
        let name = self.param_name();
        (self, name)
    }
}

/// How a fixture value shows in the name of a test case, if it shows.
pub trait FixtureDisplay {
    spec fn spec_display(&self) -> Option<Seq<char>>;

    fn display(&self) -> (r: Option<String>)
        ensures
            opt_view(r) == self.spec_display(),
    ;
}

impl FixtureDisplay for u8 {
    open spec fn spec_display(&self) -> Option<Seq<char>> {
        Some(decimal(*self as nat))
    }

    fn display(&self) -> (r: Option<String>) {
        Some(fmt_unsigned(*self as u128))
    }
}

impl FixtureDisplay for u16 {
    open spec fn spec_display(&self) -> Option<Seq<char>> {
        Some(decimal(*self as nat))
    }

    fn display(&self) -> (r: Option<String>) {
        Some(fmt_unsigned(*self as u128))
    }
}

impl FixtureDisplay for u32 {
    open spec fn spec_display(&self) -> Option<Seq<char>> {
        Some(decimal(*self as nat))
    }

    fn display(&self) -> (r: Option<String>) {
        Some(fmt_unsigned(*self as u128))
    }
}

impl FixtureDisplay for u64 {
    open spec fn spec_display(&self) -> Option<Seq<char>> {
        Some(decimal(*self as nat))
    }

    fn display(&self) -> (r: Option<String>) {
        Some(fmt_unsigned(*self as u128))
    }
}

impl FixtureDisplay for u128 {
    open spec fn spec_display(&self) -> Option<Seq<char>> {
        Some(decimal(*self as nat))
    }

    fn display(&self) -> (r: Option<String>) {
        Some(fmt_unsigned(*self))
    }
}

impl FixtureDisplay for usize {
    open spec fn spec_display(&self) -> Option<Seq<char>> {
        Some(decimal(*self as nat))
    }

    fn display(&self) -> (r: Option<String>) {
        Some(fmt_unsigned(*self as u128))
    }
}

impl FixtureDisplay for i8 {
    open spec fn spec_display(&self) -> Option<Seq<char>> {
        Some(signed_decimal(*self as int))
    }

    fn display(&self) -> (r: Option<String>) {
        Some(fmt_signed(*self as i128))
    }
}

impl FixtureDisplay for i16 {
    open spec fn spec_display(&self) -> Option<Seq<char>> {
        Some(signed_decimal(*self as int))
    }

    fn display(&self) -> (r: Option<String>) {
        Some(fmt_signed(*self as i128))
    }
}

impl FixtureDisplay for i32 {
    open spec fn spec_display(&self) -> Option<Seq<char>> {
        Some(signed_decimal(*self as int))
    }

    fn display(&self) -> (r: Option<String>) {
        Some(fmt_signed(*self as i128))
    }
}

impl FixtureDisplay for i64 {
    open spec fn spec_display(&self) -> Option<Seq<char>> {
        Some(signed_decimal(*self as int))
    }

    fn display(&self) -> (r: Option<String>) {
        Some(fmt_signed(*self as i128))
    }
}

impl FixtureDisplay for i128 {
    open spec fn spec_display(&self) -> Option<Seq<char>> {
        Some(signed_decimal(*self as int))
    }

    fn display(&self) -> (r: Option<String>) {
        Some(fmt_signed(*self))
    }
}

impl FixtureDisplay for isize {
    open spec fn spec_display(&self) -> Option<Seq<char>> {
        Some(signed_decimal(*self as int))
    }

    fn display(&self) -> (r: Option<String>) {
        Some(fmt_signed(*self as i128))
    }
}

impl FixtureDisplay for bool {
    open spec fn spec_display(&self) -> Option<Seq<char>> {
        Some(bool_text(*self))
    }

    fn display(&self) -> (r: Option<String>) {
        Some(fmt_bool(*self))
    }
}

impl FixtureDisplay for char {
    open spec fn spec_display(&self) -> Option<Seq<char>> {
        Some(seq![*self])
    }

    fn display(&self) -> (r: Option<String>) {
        Some(fmt_char(*self))
    }
}

impl FixtureDisplay for String {
    open spec fn spec_display(&self) -> Option<Seq<char>> {
        Some(self@)
    }

    fn display(&self) -> (r: Option<String>) {
        Some(self.clone())
    }
}

impl<'a> FixtureDisplay for &'a str {
    open spec fn spec_display(&self) -> Option<Seq<char>> {
        Some((*self)@)
    }

    fn display(&self) -> (r: Option<String>) {
        Some(String::from_str(*self))
    }
}

impl FixtureDisplay for () {
    open spec fn spec_display(&self) -> Option<Seq<char>> {
        None
    }

    fn display(&self) -> (r: Option<String>) {
        None
    }
}

impl<T: FixtureDisplay> FixtureDisplay for Box<T> {
    open spec fn spec_display(&self) -> Option<Seq<char>> {
        (**self).spec_display()
    }

    fn display(&self) -> (r: Option<String>) {
        (**self).display()
    }
}

impl<T: FixtureDisplay> FixtureDisplay for Option<T> {
    open spec fn spec_display(&self) -> Option<Seq<char>> {
        match self {
            Some(v) => v.spec_display(),
            None => Some(none_text()),
        }
    }

    fn display(&self) -> (r: Option<String>) {
        match self {
            Some(v) => v.display(),
            None => Some(fmt_none()),
        }
    }
}

/// The displays of the elements of a sequence.
pub open spec fn displays<T: FixtureDisplay>(s: Seq<T>) -> Seq<Option<Seq<char>>> {
    s.map_values(|t: T| t.spec_display())
}

/// Nothing when no part shows, else the parts that show enclosed.
pub open spec fn enclosed_present(
    open: char,
    parts: Seq<Option<Seq<char>>>,
    close: char,
) -> Option<Seq<char>> {
    if present(parts).len() == 0 {
        None
    } else {
        Some(enclosed(open, present(parts), close))
    }
}

fn fmt_enclosed_present(open: &str, parts: &Vec<Option<String>>, close: &str) -> (r: Option<String>)
    requires
        open@.len() == 1,
        close@.len() == 1,
    ensures
        opt_view(r) == enclosed_present(
            open@[0],
            parts@.map_values(|o: Option<String>| opt_view(o)),
            close@[0],
        ),
{
    let shown = present_strings(parts);
    assert(shown@.map_values(|s: String| s@).len() == shown@.len());
    if shown.len() == 0 {
        None
    } else {
        Some(fmt_enclosed(open, &shown, close))
    }
}

fn collect_displays<T: FixtureDisplay>(v: &Vec<T>) -> (r: Vec<Option<String>>)
    ensures
        r@.map_values(|o: Option<String>| opt_view(o)) == displays(v@),
{
    let mut r: Vec<Option<String>> = Vec::new();
    let mut i: usize = 0;
    while i < v.len()
        invariant
            i <= v@.len(),
            r@.len() == i,
            r@.map_values(|o: Option<String>| opt_view(o)) == displays(v@.subrange(0, i as int)),
        decreases v@.len() - i,
    {
        let ghost before = r@;
        let n = v[i].display();
        let ghost nv = opt_view(n);
        r.push(n);
        proof {
            let a = r@.map_values(|o: Option<String>| opt_view(o));
            let b = before.map_values(|o: Option<String>| opt_view(o));
            let e = displays(v@.subrange(0, i + 1));
            let e0 = displays(v@.subrange(0, i as int));
            assert(b == e0);
            assert forall|j: int| 0 <= j < i implies a[j] == e[j] by {
                assert(r@[j] == before[j]);
                assert(a[j] == b[j]);
                assert(e[j] == e0[j]);
            }
            assert(a[i as int] == nv);
            assert(a =~= e);
        }
        i = i + 1;
    }
    assert(v@.subrange(0, v@.len() as int) =~= v@);
    r
}

impl<T: FixtureDisplay> FixtureDisplay for Vec<T> {
    open spec fn spec_display(&self) -> Option<Seq<char>> {
        enclosed_present('[', displays(self@), ']')
    }

    fn display(&self) -> (r: Option<String>) {
        let parts = collect_displays(self);
        proof {
            reveal_strlit("[");
            reveal_strlit("]");
        }
        fmt_enclosed_present("[", &parts, "]")
    }
}

impl<A: FixtureDisplay, B: FixtureDisplay> FixtureDisplay for (A, B) {
    open spec fn spec_display(&self) -> Option<Seq<char>> {
        enclosed_present('(', seq![self.0.spec_display(), self.1.spec_display()], ')')
    }

    fn display(&self) -> (r: Option<String>) {
        let parts = vec![self.0.display(), self.1.display()];
        proof {
            reveal_strlit("(");
            reveal_strlit(")");
            assert(parts@.map_values(|o: Option<String>| opt_view(o)) =~= seq![
                self.0.spec_display(),
                self.1.spec_display(),
            ]);
        }
        fmt_enclosed_present("(", &parts, ")")
    }
}

impl<A: FixtureDisplay, B: FixtureDisplay, C: FixtureDisplay> FixtureDisplay for (A, B, C) {
    open spec fn spec_display(&self) -> Option<Seq<char>> {
        enclosed_present(
            '(',
            seq![self.0.spec_display(), self.1.spec_display(), self.2.spec_display()],
            ')',
        )
    }

    fn display(&self) -> (r: Option<String>) {
        let parts = vec![self.0.display(), self.1.display(), self.2.display()];
        proof {
            reveal_strlit("(");
            reveal_strlit(")");
            assert(parts@.map_values(|o: Option<String>| opt_view(o)) =~= seq![
                self.0.spec_display(),
                self.1.spec_display(),
                self.2.spec_display(),
            ]);
        }
        fmt_enclosed_present("(", &parts, ")")
    }
}

} // verus!
