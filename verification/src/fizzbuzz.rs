//! FizzBuzz over divisibility rules: a `Matcher` substitutes a word for
//! values divisible by its divisor, a `Fizzy` applies a list of matchers to
//! each value and falls back to the value's decimal rendering when no rule
//! matches.

use vstd::prelude::*;
use core::marker::PhantomData;

verus! {

use crate::decomp::digit_char;

/// The decimal digits of a non-negative integer, most significant first.
pub open spec fn decimal_digits(v: int) -> Seq<char>
    decreases v,
    when v >= 0
{
    if v < 10 {
        seq![digit_char(v as usize)]
    } else {
        decimal_digits(v / 10).push(digit_char((v % 10) as usize))
    }
}

/// The decimal rendering of an integer, with a leading minus sign when
/// negative.
pub open spec fn render_int(v: int) -> Seq<char> {
    if v < 0 {
        seq!['-'] + decimal_digits(-v)
    } else {
        decimal_digits(v)
    }
}

/// A value FizzBuzz rules can be applied to: it stands for an integer,
/// divisibility is decided against that integer, and rendering produces its
/// decimal display.
pub trait FizzValue: Sized {
    /// The integer this value stands for.
    spec fn fizz_view(&self) -> int;

    /// Is the value divisible by `d`?
    fn divisible_by(&self, d: u8) -> (r: bool)
        requires
            d > 0,
        ensures
            r == (self.fizz_view() % (d as int) == 0),
    ;

    /// The decimal display of the value.
    fn render(&self) -> (r: String)
        ensures
            r@ == render_int(self.fizz_view()),
    ;
}

/// A value is divisible exactly when its negation is.
proof fn lemma_neg_divisible(n: int, d: int)
    requires
        d > 0,
    ensures
        (n % d == 0) <==> ((-n) % d == 0),
{
    vstd::arithmetic::div_mod::lemma_fundamental_div_mod(n, d);
    vstd::arithmetic::div_mod::lemma_fundamental_div_mod(-n, d);
    if n % d == 0 {
        vstd::arithmetic::div_mod::lemma_mod_multiples_vanish(-(n / d), 0, d);
        assert(d * (-(n / d)) + 0 == -n) by (nonlinear_arith)
            requires
                n == d * (n / d),
        ;
    }
    if (-n) % d == 0 {
        vstd::arithmetic::div_mod::lemma_mod_multiples_vanish(-((-n) / d), 0, d);
        assert(d * (-((-n) / d)) + 0 == n) by (nonlinear_arith)
            requires
                -n == d * ((-n) / d),
        ;
    }
}

/// Renders the decimal digits of `v`.
fn render_u64(v: u64) -> (r: String)
    ensures
        r@ == decimal_digits(v as int),
{
    let mut digs: Vec<usize> = Vec::new();
    let mut x = v;
    let ghost rev0 = Seq::new(digs@.len(), |i: int| digit_char(digs@[digs@.len() - 1 - i]));
    proof {
        assert(decimal_digits(v as int) =~= decimal_digits(x as int) + rev0);
    }
    while x >= 10
        invariant
            forall|k: int| 0 <= k < digs@.len() ==> #[trigger] digs@[k] < 10,
            decimal_digits(v as int) == decimal_digits(x as int) + Seq::new(
                digs@.len(),
                |i: int| digit_char(digs@[digs@.len() - 1 - i]),
            ),
        decreases x,
    {
        let ghost digs_pre = digs@;
        digs.push((x % 10) as usize);
        x = x / 10;
        proof {
            let rev_pre = Seq::new(
                digs_pre.len(),
                |i: int| digit_char(digs_pre[digs_pre.len() - 1 - i]),
            );
            let rev_now = Seq::new(digs@.len(), |i: int| digit_char(digs@[digs@.len() - 1 - i]));
            assert(rev_now =~= seq![digit_char(digs@[digs@.len() - 1])] + rev_pre);
            assert(decimal_digits(v as int) =~= decimal_digits(x as int) + rev_now);
        }
    }
    let ghost digs_pre = digs@;
    digs.push(x as usize);
    proof {
        let rev_pre = Seq::new(digs_pre.len(), |i: int| digit_char(digs_pre[digs_pre.len() - 1 - i]));
        let rev_now = Seq::new(digs@.len(), |i: int| digit_char(digs@[digs@.len() - 1 - i]));
        assert(rev_now =~= seq![digit_char(x as usize)] + rev_pre);
        assert(decimal_digits(v as int) =~= rev_now);
    }
    let mut r = String::new();
    let mut i: usize = 0;
    let total = digs.len();
    while i < total
        invariant
            total == digs@.len(),
            total >= 1,
            forall|k: int| 0 <= k < digs@.len() ==> #[trigger] digs@[k] < 10,
            i <= total,
            decimal_digits(v as int) == Seq::new(
                digs@.len(),
                |q: int| digit_char(digs@[digs@.len() - 1 - q]),
            ),
            r@ == decimal_digits(v as int).take(i as int),
        decreases total - i,
    {
        let ds = crate::decomp::digit_str(digs[total - 1 - i]);
        r.append(ds);
        proof {
            assert(r@ =~= decimal_digits(v as int).take(i as int + 1));
        }
        i += 1;
    }
    proof {
        assert(decimal_digits(v as int).take(total as int) =~= decimal_digits(v as int));
    }
    r
}

impl FizzValue for u8 {
    open spec fn fizz_view(&self) -> int {
        *self as int
    }

    fn divisible_by(&self, d: u8) -> (r: bool) {
        *self % d == 0
    }

    fn render(&self) -> (r: String) {
        render_u64(*self as u64)
    }
}

impl FizzValue for u64 {
    open spec fn fizz_view(&self) -> int {
        *self as int
    }

    fn divisible_by(&self, d: u8) -> (r: bool) {
        *self % (d as u64) == 0
    }

    fn render(&self) -> (r: String) {
        render_u64(*self)
    }
}

impl FizzValue for i32 {
    open spec fn fizz_view(&self) -> int {
        *self as int
    }

    fn divisible_by(&self, d: u8) -> (r: bool) {
        let wide = *self as i64;
        let mag: u64 = if wide < 0 {
            (-wide) as u64
        } else {
            wide as u64
        };
        let r = mag % (d as u64) == 0;
        proof {
            if wide < 0 {
                lemma_neg_divisible(*self as int, d as int);
            }
        }
        r
    }

    fn render(&self) -> (r: String) {
        proof {
            reveal_strlit("-");
        }
        if *self < 0 {
            let wide = *self as i64;
            let mut r = String::from_str("-");
            proof {
                assert("-"@ =~= seq!['-']);
            }
            let digits = render_u64((-wide) as u64);
            r.append(digits.as_str());
            r
        } else {
            render_u64(*self as u64)
        }
    }
}

/// One FizzBuzz rule: values divisible by `divisor` are replaced by
/// `substitution`.
pub struct Matcher<T: FizzValue> {
    divisor: u8,
    substitution: String,
    element: PhantomData<T>,
}

impl<T: FizzValue> Matcher<T> {
    /// The rule's divisor.
    pub closed spec fn div_spec(&self) -> u8 {
        self.divisor
    }

    /// The rule's substitution text.
    pub closed spec fn sub_spec(&self) -> Seq<char> {
        self.substitution@
    }

    /// A divisor of zero would make the divisibility test meaningless.
    pub closed spec fn wf(&self) -> bool {
        self.divisor > 0
    }

    /// Creates the rule that substitutes `substitute_with` for every value
    /// divisible by `divisor`.
    pub fn new(divisor: u8, substitute_with: &str) -> (m: Matcher<T>)
        requires
            divisor > 0,
        ensures
            m.wf(),
            m.div_spec() == divisor,
            m.sub_spec() == substitute_with@,
    {
        Matcher { divisor, substitution: String::from_str(substitute_with), element: PhantomData }
    }

    /// The substitution when the rule matches `val`, `None` otherwise.
    pub fn apply(&self, val: &T) -> (r: Option<String>)
        requires
            self.wf(),
        ensures
            (r is Some) == (val.fizz_view() % (self.div_spec() as int) == 0),
            r is Some ==> r->0@ == self.sub_spec(),
    {
        if val.divisible_by(self.divisor) {
            Some(self.substitution.clone())
        } else {
            None
        }
    }
}

/// The concatenation of the substitutions of all rules from index `i` on
/// that match the value `v`.
pub open spec fn subs_concat(rules: Seq<(u8, Seq<char>)>, v: int, i: int) -> Seq<char>
    decreases rules.len() - i,
{
    if !(0 <= i < rules.len()) {
        Seq::empty()
    } else {
        (if v % (rules[i].0 as int) == 0 {
            rules[i].1
        } else {
            Seq::empty()
        }) + subs_concat(rules, v, i + 1)
    }
}

/// What applying a rule list to a value yields: the concatenated
/// substitutions of all matching rules, or the value's decimal rendering
/// when that concatenation is empty.
pub open spec fn spec_apply_elem(rules: Seq<(u8, Seq<char>)>, v: int) -> Seq<char> {
    if subs_concat(rules, v, 0).len() == 0 {
        render_int(v)
    } else {
        subs_concat(rules, v, 0)
    }
}

/// An ordered list of FizzBuzz rules.
pub struct Fizzy<T: FizzValue> {
    matchers: Vec<Matcher<T>>,
}

impl<T: FizzValue> Fizzy<T> {
    /// The rules as (divisor, substitution) pairs, in order.
    pub closed spec fn rules(&self) -> Seq<(u8, Seq<char>)> {
        Seq::new(
            self.matchers@.len() as nat,
            |i: int| (self.matchers@[i].div_spec(), self.matchers@[i].sub_spec()),
        )
    }

    /// All rules have non-zero divisors.
    pub closed spec fn wf(&self) -> bool {
        forall|i: int| 0 <= i < self.matchers@.len() ==> (#[trigger] self.matchers@[i]).wf()
    }

    /// Creates an empty rule list.
    pub fn new() -> (f: Fizzy<T>)
        ensures
            f.wf(),
            f.rules() == Seq::<(u8, Seq<char>)>::empty(),
    {
        let f = Fizzy { matchers: Vec::new() };
        proof {
            assert(f.rules() =~= Seq::<(u8, Seq<char>)>::empty());
        }
        f
    }

    /// Appends one rule.
    pub fn add_matcher(self, matcher: Matcher<T>) -> (f: Fizzy<T>)
        requires
            self.wf(),
            matcher.wf(),
        ensures
            f.wf(),
            f.rules() == self.rules().push((matcher.div_spec(), matcher.sub_spec())),
    {
        let ghost pre = self.rules();
        let mut matchers = self.matchers;
        matchers.push(matcher);
        let f = Fizzy { matchers };
        proof {
            assert(f.rules() =~= pre.push((matcher.div_spec(), matcher.sub_spec())));
        }
        f
    }

    /// Applies the rules to one value: the concatenated substitutions of
    /// every matching rule, or the value's decimal rendering when no rule
    /// matches (or all matching substitutions are empty).
    pub fn apply_elem(&self, elem: &T) -> (r: String)
        requires
            self.wf(),
        ensures
            r@ == spec_apply_elem(self.rules(), elem.fizz_view()),
    {
        let ghost v = elem.fizz_view();
        let mut res = String::new();
        let mut i: usize = 0;
        proof {
            assert(res@ + subs_concat(self.rules(), v, 0) =~= subs_concat(self.rules(), v, 0));
        }
        while i < self.matchers.len()
            invariant
                self.wf(),
                i <= self.matchers@.len(),
                v == elem.fizz_view(),
                res@ + subs_concat(self.rules(), v, i as int) == subs_concat(self.rules(), v, 0),
            decreases self.matchers@.len() - i,
        {
            let ghost res_pre = res@;
            match self.matchers[i].apply(elem) {
                Some(s) => {
                    res.append(s.as_str());
                    proof {
                        assert(subs_concat(self.rules(), v, i as int) == self.rules()[i as int].1
                            + subs_concat(self.rules(), v, i as int + 1));
                        assert(res@ + subs_concat(self.rules(), v, i as int + 1) =~= res_pre
                            + subs_concat(self.rules(), v, i as int));
                    }
                },
                None => {
                    proof {
                        assert(subs_concat(self.rules(), v, i as int) =~= Seq::<char>::empty()
                            + subs_concat(self.rules(), v, i as int + 1));
                        assert(res@ + subs_concat(self.rules(), v, i as int + 1) =~= res_pre
                            + subs_concat(self.rules(), v, i as int));
                    }
                },
            }
            i += 1;
        }
        proof {
            assert(subs_concat(self.rules(), v, self.matchers@.len() as int) == Seq::<
                char,
            >::empty());
            assert(res@ =~= subs_concat(self.rules(), v, 0));
        }
        if res.as_str().is_empty() {
            elem.render()
        } else {
            res
        }
    }

    /// Applies the rules to every value in order.
    pub fn apply(&self, values: Vec<T>) -> (r: Vec<String>)
        requires
            self.wf(),
        ensures
            r@.len() == values@.len(),
            forall|i: int| 0 <= i < values@.len() ==> (#[trigger] r@[i])@ == spec_apply_elem(
                self.rules(),
                values@[i].fizz_view(),
            ),
    {
        let mut r: Vec<String> = Vec::new();
        let mut i: usize = 0;
        while i < values.len()
            invariant
                self.wf(),
                i <= values@.len(),
                r@.len() == i,
                forall|k: int| 0 <= k < i ==> (#[trigger] r@[k])@ == spec_apply_elem(
                    self.rules(),
                    values@[k].fizz_view(),
                ),
            decreases values@.len() - i,
        {
            let line = self.apply_elem(&values[i]);
            r.push(line);
            i += 1;
        }
        r
    }
}

/// The standard rule list: "fizz" for multiples of 3, "buzz" for multiples
/// of 5 (so "fizzbuzz" for multiples of both).
pub fn fizz_buzz<T: FizzValue>() -> (f: Fizzy<T>)
    ensures
        f.wf(),
        f.rules() == seq![(3u8, "fizz"@), (5u8, "buzz"@)],
{
    let f = Fizzy::new().add_matcher(Matcher::new(3, "fizz")).add_matcher(
        Matcher::new(5, "buzz"),
    );
    proof {
        assert(f.rules() =~= seq![(3u8, "fizz"@), (5u8, "buzz"@)]);
    }
    f
}

} // verus!
