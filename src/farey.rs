//! Farey sequences: the reduced fractions in `[0, 1]` whose denominators are
//! at most `n`, produced in order by the next-term relation.

use crate::number_theory::{
    gcd_spec, in_lowest_terms, lemma_coprime_of_combination, lemma_gcd_scale,
    lemma_reduced_of_lowest, reduce_fraction,
};
use vstd::arithmetic::div_mod::{lemma_fundamental_div_mod, lemma_mod_pos_bound, lemma_mod_self_0};
use vstd::prelude::*;

verus! {

/// A fraction as `(numerator, denominator)`.
pub type Fraction = (i32, i32);

/// The mathematical value of a fraction.
pub open spec fn frac_view(f: Fraction) -> (int, int) {
    (f.0 as int, f.1 as int)
}

/// `a < b`, for fractions with positive denominators.
pub open spec fn frac_lt(a: (int, int), b: (int, int)) -> bool {
    a.0 * b.1 < b.0 * a.1
}

/// `x / y` lies strictly between `lo` and `hi`.
pub open spec fn strictly_between(lo: (int, int), x: int, y: int, hi: (int, int)) -> bool {
    frac_lt(lo, (x, y)) && frac_lt((x, y), hi)
}

/// No fraction with a denominator in `1..=n` lies strictly between `lo` and `hi`.
pub open spec fn no_fraction_between(lo: (int, int), hi: (int, int), n: int) -> bool {
    forall|x: int, y: int| 1 <= y <= n ==> !#[trigger] strictly_between(lo, x, y, hi)
}

/// The value a Farey run starts from.
pub open spec fn first_fraction(descending: bool) -> (int, int) {
    if descending {
        (1, 1)
    } else {
        (0, 1)
    }
}

/// The value after which a Farey run stops.
pub open spec fn is_final_fraction(f: (int, int), descending: bool) -> bool {
    if descending {
        f.0 == 0
    } else {
        f == (1int, 1int)
    }
}

/// `next` follows `prev` directly in the Farey sequence of order `n`, read in
/// the given direction.
pub open spec fn follows(prev: (int, int), next: (int, int), n: int, descending: bool) -> bool {
    if descending {
        frac_lt(next, prev) && no_fraction_between(next, prev, n)
    } else {
        frac_lt(prev, next) && no_fraction_between(prev, next, n)
    }
}

/// Consecutive Farey terms `older`, `newer` have determinant one:
/// `|older.1 newer.0 - older.0 newer.1| == 1`, signed by the direction.
pub open spec fn determinant_one(older: (int, int), newer: (int, int), descending: bool) -> bool {
    if descending {
        older.0 * newer.1 - older.1 * newer.0 == 1
    } else {
        older.1 * newer.0 - older.0 * newer.1 == 1
    }
}

/// `s` is a prefix of the Farey sequence of order `n`, read upwards from `0/1`
/// or downwards from `1/1`: every element in lowest terms within `[0, 1]` with
/// a denominator at most `n`, and each one the direct successor of the one
/// before, with determinant one.
pub open spec fn is_farey_prefix(s: Seq<(int, int)>, n: int, descending: bool) -> bool {
    &&& s.len() > 0 ==> s[0] == first_fraction(descending)
    &&& forall|i: int|
        0 <= i < s.len() ==> {
            &&& in_lowest_terms(#[trigger] s[i].0, s[i].1)
            &&& s[i].0 <= s[i].1 <= n
        }
    &&& forall|i: int|
        0 <= i < s.len() - 1 ==> {
            &&& follows(#[trigger] s[i], s[i + 1], n, descending)
            &&& determinant_one(s[i], s[i + 1], descending)
            &&& !is_final_fraction(s[i], descending)
        }
}

/// `older` and `newer` are consecutive in the run: the determinant of the
/// pair is one and their denominators sum past `n`.
spec fn adjacent(older: (int, int), newer: (int, int), n: int, descending: bool) -> bool {
    &&& determinant_one(older, newer, descending)
    &&& older.1 + newer.1 > n
}

/// Two fractions of determinant one whose denominators sum past `n` have no
/// fraction of denominator at most `n` between them.
proof fn lemma_determinant_one_neighbours(lo: (int, int), hi: (int, int), n: int)
    requires
        lo.1 >= 1,
        hi.1 >= 1,
        lo.1 + hi.1 > n,
        hi.0 * lo.1 - lo.0 * hi.1 == 1,
    ensures
        frac_lt(lo, hi),
        no_fraction_between(lo, hi, n),
{
    assert(lo.0 * hi.1 < hi.0 * lo.1) by (nonlinear_arith)
        requires
            hi.0 * lo.1 - lo.0 * hi.1 == 1,
    ;
    assert forall|x: int, y: int| 1 <= y <= n implies !#[trigger] strictly_between(lo, x, y, hi) by {
        if strictly_between(lo, x, y, hi) {
            let a = lo.0;
            let b = lo.1;
            let c = hi.0;
            let d = hi.1;
            assert(y == d * (x * b - a * y) + b * (c * y - x * d)) by (nonlinear_arith)
                requires
                    c * b - a * d == 1,
            ;
            assert(y >= d + b) by (nonlinear_arith)
                requires
                    y == d * (x * b - a * y) + b * (c * y - x * d),
                    a * y < x * b,
                    x * d < c * y,
                    b >= 1,
                    d >= 1,
            ;
        }
    }
}

/// How far `f` still is from the end of the run, in units of `1 / n^2`.
pub open spec fn distance_to_end(f: (int, int), descending: bool) -> int {
    if descending {
        f.0
    } else {
        f.1 - f.0
    }
}

/// Consecutive terms differ by at least `1 / n^2`, so the scaled distance to
/// the end, rounded down, drops by at least one per step.
proof fn lemma_distance_drops(n: int, c: int, d: int, p: int, q: int, descending: bool)
    requires
        1 <= d <= n,
        1 <= q <= n,
        0 <= c <= d,
        0 <= p <= q,
        descending ==> c * q - d * p == 1,
        !descending ==> d * p - c * q == 1,
    ensures
        n * n * distance_to_end((p, q), descending) / q + 1 <= n * n * distance_to_end(
            (c, d),
            descending,
        ) / d,
{
    let ga = distance_to_end((c, d), descending);
    let gb = distance_to_end((p, q), descending);
    assert(ga * q - gb * d == 1) by (nonlinear_arith)
        requires
            descending ==> c * q - d * p == 1,
            !descending ==> d * p - c * q == 1,
            ga == if descending {
                c
            } else {
                d - c
            },
            gb == if descending {
                p
            } else {
                q - p
            },
    ;
    let a = n * n * ga;
    let b = n * n * gb;
    assert(a * q - b * d == n * n) by (nonlinear_arith)
        requires
            ga * q - gb * d == 1,
            a == n * n * ga,
            b == n * n * gb,
    ;
    assert(b >= 0 && a >= 0) by (nonlinear_arith)
        requires
            gb >= 0,
            ga >= 0,
            b == n * n * gb,
            a == n * n * ga,
    ;
    let u = b / q;
    vstd::arithmetic::div_mod::lemma_fundamental_div_mod(b, q);
    vstd::arithmetic::div_mod::lemma_mod_pos_bound(b, q);
    assert(u * q <= b) by (nonlinear_arith)
        requires
            b == q * u + b % q,
            b % q >= 0,
    ;
    assert(d * q <= n * n) by (nonlinear_arith)
        requires
            1 <= d <= n,
            1 <= q <= n,
    ;
    assert((u + 1) * d <= a) by (nonlinear_arith)
        requires
            u * q <= b,
            a * q - b * d == n * n,
            d * q <= n * n,
            q >= 1,
            d >= 1,
    ;
    vstd::arithmetic::div_mod::lemma_fundamental_div_mod(a, d);
    vstd::arithmetic::div_mod::lemma_mod_pos_bound(a, d);
    assert(u + 1 <= a / d) by (nonlinear_arith)
        requires
            (u + 1) * d <= a,
            a == d * (a / d) + a % d,
            0 <= a % d < d,
            d >= 1,
    ;
}

/// Produces the Farey sequence of order `n`, ascending from `0/1` to `1/1` or
/// descending from `1/1` to `0/1`.
pub struct FareyIterator {
    n: i32,
    descending: bool,
    last_fraction: Option<Fraction>,
    last_fraction_2: Option<Fraction>,
    emitted: Ghost<Seq<(int, int)>>,
}

impl FareyIterator {
    /// The order of the sequence.
    pub closed spec fn order(&self) -> int {
        self.n as int
    }

    /// The run goes downwards from `1/1`.
    pub closed spec fn is_descending(&self) -> bool {
        self.descending
    }

    /// The values produced so far.
    pub closed spec fn emitted(&self) -> Seq<(int, int)> {
        self.emitted@
    }

    /// A bound on the number of values still to come.
    pub closed spec fn remaining(&self) -> nat {
        let s = self.emitted@;
        let n = self.n as int;
        if s.len() == 0 {
            (n * n + 2) as nat
        } else if is_final_fraction(s.last(), self.descending) {
            0
        } else {
            (n * n * distance_to_end(s.last(), self.descending) / s.last().1 + 1) as nat
        }
    }

    /// Internal consistency of the cursor.
    pub closed spec fn wf(&self) -> bool {
        let s = self.emitted@;
        let n = self.n as int;
        &&& n >= 1
        &&& is_farey_prefix(s, n, self.descending)
        &&& (s.len() == 0) == (self.last_fraction is None)
        &&& (s.len() <= 1) == (self.last_fraction_2 is None)
        &&& s.len() >= 1 ==> frac_view(self.last_fraction->Some_0) == s[s.len() - 1]
        &&& s.len() >= 2 ==> {
            &&& frac_view(self.last_fraction_2->Some_0) == s[s.len() - 2]
            &&& adjacent(s[s.len() - 2], s[s.len() - 1], n, self.descending)
        }
    }

    /// An ascending run of order `n`.
    pub fn new(n: i32) -> (r: Self)
        requires
            n >= 1,
        ensures
            r.wf(),
            r.order() == n,
            !r.is_descending(),
            r.emitted() == Seq::<(int, int)>::empty(),
    {
        Self {
            n,
            descending: false,
            last_fraction: None,
            last_fraction_2: None,
            emitted: Ghost(Seq::empty()),
        }
    }

    /// A descending run of order `n`.
    pub fn new_descending(n: i32) -> (r: Self)
        requires
            n >= 1,
        ensures
            r.wf(),
            r.order() == n,
            r.is_descending(),
            r.emitted() == Seq::<(int, int)>::empty(),
    {
        Self {
            n,
            descending: true,
            last_fraction: None,
            last_fraction_2: None,
            emitted: Ghost(Seq::empty()),
        }
    }

    proof fn lemma_push_keeps_prefix(&self, f: (int, int))
        requires
            self.wf(),
            self.emitted@.len() >= 1,
            in_lowest_terms(f.0, f.1),
            f.0 <= f.1 <= self.n,
            follows(self.emitted@.last(), f, self.n as int, self.descending),
            determinant_one(self.emitted@.last(), f, self.descending),
            !is_final_fraction(self.emitted@.last(), self.descending),
        ensures
            is_farey_prefix(self.emitted@.push(f), self.n as int, self.descending),
    {
        let s = self.emitted@;
        let t = s.push(f);
        assert forall|i: int| 0 <= i < t.len() - 1 implies {
            &&& follows(#[trigger] t[i], t[i + 1], self.n as int, self.descending)
            &&& determinant_one(t[i], t[i + 1], self.descending)
            &&& !is_final_fraction(t[i], self.descending)
        } by {
            if i < s.len() - 1 {
                assert(t[i] == s[i] && t[i + 1] == s[i + 1]);
            } else {
                assert(t[i] == s.last() && t[i + 1] == f);
            }
        }
        assert forall|i: int| 0 <= i < t.len() implies {
            &&& in_lowest_terms(#[trigger] t[i].0, t[i].1)
            &&& t[i].0 <= t[i].1 <= self.n
        } by {
            if i < s.len() {
                assert(t[i] == s[i]);
            }
        }
    }

    /// The next fraction of the run, or `None` once the final one
    /// (`1/1` ascending, `0/1` descending) has been produced.
    pub fn next(&mut self) -> (r: Option<Fraction>)
        requires
            old(self).wf(),
        ensures
            final(self).wf(),
            final(self).order() == old(self).order(),
            final(self).is_descending() == old(self).is_descending(),
            is_farey_prefix(final(self).emitted(), final(self).order(), final(self).is_descending()),
            r is None <==> (old(self).emitted().len() > 0 && is_final_fraction(
                old(self).emitted().last(),
                old(self).is_descending(),
            )),
            r is None ==> final(self).emitted() == old(self).emitted(),
            r is Some ==> final(self).remaining() < old(self).remaining(),
            r is Some ==> {
                let f = frac_view(r->Some_0);
                &&& final(self).emitted() == old(self).emitted().push(f)
                &&& in_lowest_terms(f.0, f.1)
                &&& f.0 <= f.1 <= old(self).order()
                &&& old(self).emitted().len() == 0 ==> f == first_fraction(old(self).is_descending())
                &&& old(self).emitted().len() > 0 ==> follows(
                    old(self).emitted().last(),
                    f,
                    old(self).order(),
                    old(self).is_descending(),
                )
            },
    {
        let ghost s = self.emitted@;
        let ghost n = self.n as int;
        match self.last_fraction {
            Some(last_frac) => {
                if !self.descending && last_frac.0 == 1 && last_frac.1 == 1 {
                    return None;
                }
                if self.descending && last_frac.0 == 0 {
                    return None;
                }
                let ghost c = last_frac.0 as int;
                let ghost d = last_frac.1 as int;
                assert(s[s.len() - 1] == (c, d));
                assert(in_lowest_terms(c, d) && c <= d <= n);
                match self.last_fraction_2 {
                    Some(last_frac_2) => {
                        let ghost a = last_frac_2.0 as int;
                        let ghost b = last_frac_2.1 as int;
                        assert(s[s.len() - 2] == (a, b));
                        assert(in_lowest_terms(a, b) && a <= b <= n);
                        // Next-term relation: with `a/b`, `c/d` the last two
                        // terms, the next is `(k c - a) / (k d - b)` where
                        // `k = (n + b) / d`.
                        let multiple: i64 = (self.n as i64 + last_frac_2.1 as i64)
                            / last_frac.1 as i64;
                        let ghost k = multiple as int;
                        proof {
                            assert(k == (n + b) / d);
                            lemma_fundamental_div_mod(n + b, d);
                            lemma_mod_pos_bound(n + b, d);
                            assert(k * d <= n + b < k * d + d && k >= 0) by (nonlinear_arith)
                                requires
                                    n + b == d * k + (n + b) % d,
                                    0 <= (n + b) % d < d,
                                    n + b >= 0,
                            ;
                            assert(0 <= k * c <= k * d) by (nonlinear_arith)
                                requires
                                    0 <= c <= d,
                                    k >= 0,
                            ;
                        }
                        let numerator: i64 = multiple * last_frac.0 as i64 - last_frac_2.0 as i64;
                        let denominator: i64 = multiple * last_frac.1 as i64
                            - last_frac_2.1 as i64;
                        let ghost p = numerator as int;
                        let ghost q = denominator as int;
                        proof {
                            assert(1 <= q <= n);
                            if !self.descending {
                                assert(d * p - c * q == 1 && p * d - c * q == 1) by (nonlinear_arith)
                                    requires
                                        b * c - a * d == 1,
                                        p == k * c - a,
                                        q == k * d - b,
                                ;
                                lemma_determinant_one_neighbours((c, d), (p, q), n);
                                assert(p >= 1) by (nonlinear_arith)
                                    requires
                                        d * p - c * q == 1,
                                        c >= 0,
                                        q >= 1,
                                        d >= 1,
                                ;
                                if c == d {
                                    lemma_mod_self_0(d);
                                    assert(gcd_spec(c as nat, d as nat) == gcd_spec(
                                        d as nat,
                                        0,
                                    ));
                                }
                                assert(c < d);
                                if p > q {
                                    assert(c * 1 == c && 1 * d == d && 1 * q == q && p * 1 == p);
                                    assert(frac_lt((c, d), (1, 1)));
                                    assert(frac_lt((1, 1), (p, q)));
                                    assert(strictly_between((c, d), 1, 1, (p, q)));
                                }
                                assert(d * p + (-c) * q == 1) by (nonlinear_arith)
                                    requires
                                        d * p - c * q == 1,
                                ;
                                lemma_coprime_of_combination(p as nat, q as nat, d, -c);
                            } else {
                                assert(c * q - d * p == 1 && c * q - p * d == 1) by (nonlinear_arith)
                                    requires
                                        a * d - b * c == 1,
                                        p == k * c - a,
                                        q == k * d - b,
                                ;
                                lemma_determinant_one_neighbours((p, q), (c, d), n);
                                if p < 0 {
                                    assert(frac_lt((p, q), (0, 1)));
                                    assert(frac_lt((0, 1), (c, d)));
                                    assert(strictly_between((p, q), 0, 1, (c, d)));
                                }
                                assert(p < q) by (nonlinear_arith)
                                    requires
                                        c * q - d * p == 1,
                                        c <= d,
                                        q >= 1,
                                        d >= 1,
                                ;
                                assert((-d) * p + c * q == 1) by (nonlinear_arith)
                                    requires
                                        c * q - d * p == 1,
                                ;
                                lemma_coprime_of_combination(p as nat, q as nat, -d, c);
                            }
                            lemma_reduced_of_lowest(p, q);
                            lemma_distance_drops(n, c, d, p, q, self.descending);
                        }
                        let new_frac = reduce_fraction((numerator as i32, denominator as i32));
                        proof {
                            self.lemma_push_keeps_prefix((p, q));
                        }
                        self.last_fraction_2 = self.last_fraction;
                        self.last_fraction = Some(new_frac);
                        self.emitted = Ghost(s.push((p, q)));
                        Some(new_frac)
                    },
                    None => {
                        let second_frac = if !self.descending {
                            (1, self.n)
                        } else {
                            (self.n - 1, self.n)
                        };
                        let ghost f = frac_view(second_frac);
                        proof {
                            assert(s.len() == 1);
                            if !self.descending {
                                assert(c == 0 && d == 1);
                                assert(f == (1int, n));
                                assert(1 * 1 - 0 * n == 1);
                                lemma_determinant_one_neighbours((0, 1), f, n);
                                lemma_coprime_of_combination(1, n as nat, 1, 0);
                                lemma_distance_drops(n, 0, 1, 1, n, false);
                            } else {
                                assert(c == 1 && d == 1);
                                lemma_determinant_one_neighbours(f, (1, 1), n);
                                lemma_coprime_of_combination((n - 1) as nat, n as nat, -1, 1);
                                lemma_distance_drops(n, 1, 1, n - 1, n, true);
                            }
                            self.lemma_push_keeps_prefix(f);
                        }
                        self.last_fraction_2 = self.last_fraction;
                        self.last_fraction = Some(second_frac);
                        self.emitted = Ghost(s.push(f));
                        Some(second_frac)
                    },
                }
            },
            None => {
                let first_frac = if !self.descending {
                    (0, 1)
                } else {
                    (1, 1)
                };
                proof {
                    assert(gcd_spec(0, 1) == gcd_spec(1, 0));
                    assert(gcd_spec(1, 1) == gcd_spec(1, 0));
                    assert(n * n * 1 / 1 == n * n);
                    assert(n * n >= 0) by (nonlinear_arith);
                }
                self.last_fraction = Some(first_frac);
                self.emitted = Ghost(s.push(frac_view(first_frac)));
                Some(first_frac)
            },
        }
    }
}

/// `s` is the whole Farey sequence of order `n`, read in the given direction.
pub open spec fn is_complete_farey_run(s: Seq<(int, int)>, n: int, descending: bool) -> bool {
    &&& is_farey_prefix(s, n, descending)
    &&& s.len() > 0
    &&& is_final_fraction(s.last(), descending)
}

/// Two fractions in lowest terms with the same value are the same pair.
pub proof fn lemma_lowest_terms_unique(a: int, b: int, c: int, d: int)
    requires
        in_lowest_terms(a, b),
        in_lowest_terms(c, d),
        a * d == c * b,
    ensures
        a == c,
        b == d,
{
    lemma_gcd_scale(a as nat, b as nat, d as nat);
    lemma_gcd_scale(c as nat, d as nat, b as nat);
    assert((d as nat) * (a as nat) == (b as nat) * (c as nat) && (d as nat) * (b as nat) == (
    b as nat) * (d as nat)) by (nonlinear_arith)
        requires
            a * d == c * b,
            a >= 0,
            c >= 0,
            b >= 1,
            d >= 1,
    ;
    assert(b == d);
    assert(a == c) by (nonlinear_arith)
        requires
            a * d == c * b,
            b == d,
            d >= 1,
    ;
}

/// A descending run read backwards is an ascending run.
proof fn lemma_reverse_run(down: Seq<(int, int)>, n: int)
    requires
        n >= 1,
        is_complete_farey_run(down, n, true),
    ensures
        is_complete_farey_run(down.reverse(), n, false),
{
    let r = down.reverse();
    let len = down.len();
    let last = down[len - 1];
    assert(in_lowest_terms(last.0, last.1));
    assert(gcd_spec(0, last.1 as nat) == gcd_spec(last.1 as nat, 0));
    assert(r[0] == (0int, 1int));
    assert(r.last() == down[0]);
    assert forall|i: int| 0 <= i < r.len() implies {
        &&& in_lowest_terms(#[trigger] r[i].0, r[i].1)
        &&& r[i].0 <= r[i].1 <= n
    } by {
        assert(r[i] == down[len - 1 - i]);
    }
    assert forall|i: int| 0 <= i < r.len() - 1 implies {
        &&& follows(#[trigger] r[i], r[i + 1], n, false)
        &&& determinant_one(r[i], r[i + 1], false)
        &&& !is_final_fraction(r[i], false)
    } by {
        let m = len - 2 - i;
        assert(r[i] == down[m + 1] && r[i + 1] == down[m]);
        assert(follows(down[m], down[m + 1], n, true));
        assert(down[m].0 <= down[m].1);
        assert(follows(r[i], r[i + 1], n, false));
        let (a, b) = down[m];
        let (c, d) = down[m + 1];
        assert(determinant_one(down[m], down[m + 1], true));
        assert(d * a - c * b == 1) by (nonlinear_arith)
            requires
                a * d - b * c == 1,
        ;
        if r[i] == (1int, 1int) {
            assert(1 * r[i + 1].1 < r[i + 1].0 * 1);
        }
    }
}

/// Two whole ascending runs of the same order are equal.
proof fn lemma_complete_runs_equal(a: Seq<(int, int)>, b: Seq<(int, int)>, n: int)
    requires
        n >= 1,
        is_complete_farey_run(a, n, false),
        is_complete_farey_run(b, n, false),
    ensures
        a == b,
{
    let m = if a.len() < b.len() {
        a.len()
    } else {
        b.len()
    };
    lemma_runs_agree(a, b, n, m - 1);
    if a.len() < b.len() {
        let k = a.len() - 1;
        assert(a[k] == (1int, 1int) && b[k] == a[k]);
        assert(follows(b[k], b[k + 1], n, false));
        assert(b[k + 1].0 <= b[k + 1].1);
    } else if b.len() < a.len() {
        let k = b.len() - 1;
        assert(b[k] == (1int, 1int) && a[k] == b[k]);
        assert(follows(a[k], a[k + 1], n, false));
        assert(a[k + 1].0 <= a[k + 1].1);
    }
    assert(a =~= b);
}

proof fn lemma_runs_agree(a: Seq<(int, int)>, b: Seq<(int, int)>, n: int, i: int)
    requires
        n >= 1,
        is_complete_farey_run(a, n, false),
        is_complete_farey_run(b, n, false),
        0 <= i < a.len(),
        i < b.len(),
    ensures
        forall|j: int| 0 <= j <= i ==> a[j] == b[j],
    decreases i,
{
    if i > 0 {
        lemma_runs_agree(a, b, n, i - 1);
        let p = a[i - 1];
        let x = a[i];
        let y = b[i];
        assert(follows(a[i - 1], x, n, false));
        assert(follows(b[i - 1], y, n, false));
        assert(in_lowest_terms(x.0, x.1) && x.0 <= x.1 <= n);
        assert(in_lowest_terms(y.0, y.1) && y.0 <= y.1 <= n);
        if frac_lt(x, y) {
            assert(strictly_between(p, x.0, x.1, y));
        } else if frac_lt(y, x) {
            assert(strictly_between(p, y.0, y.1, x));
        } else {
            lemma_lowest_terms_unique(x.0, x.1, y.0, y.1);
        }
    }
}

proof fn lemma_run_contains_from(s: Seq<(int, int)>, n: int, x: int, y: int, k: int)
    requires
        n >= 1,
        is_complete_farey_run(s, n, false),
        in_lowest_terms(x, y),
        x <= y <= n,
        0 <= k < s.len(),
        !frac_lt((x, y), s[k]),
    ensures
        exists|i: int| 0 <= i < s.len() && s[i] == (x, y),
    decreases s.len() - k,
{
    assert(in_lowest_terms(s[k].0, s[k].1));
    if !frac_lt(s[k], (x, y)) {
        lemma_lowest_terms_unique(s[k].0, s[k].1, x, y);
    } else {
        if k == s.len() - 1 {
            assert(s[k] == (1int, 1int));
            assert(1 * y < x * 1);
        }
        assert(follows(s[k], s[k + 1], n, false));
        assert(!strictly_between(s[k], x, y, s[k + 1]));
        lemma_run_contains_from(s, n, x, y, k + 1);
    }
}

/// A whole ascending run holds every fraction in lowest terms within
/// `[0, 1]` whose denominator is at most the order: none is skipped.
pub proof fn lemma_run_is_complete(s: Seq<(int, int)>, n: int, x: int, y: int)
    requires
        n >= 1,
        is_complete_farey_run(s, n, false),
        in_lowest_terms(x, y),
        x <= y <= n,
    ensures
        exists|i: int| 0 <= i < s.len() && s[i] == (x, y),
{
    assert(s[0] == (0int, 1int));
    lemma_run_contains_from(s, n, x, y, 0);
}

/// The descending Farey sequence of an order is exactly the ascending one
/// reversed.
pub proof fn lemma_descending_is_reverse(up: Seq<(int, int)>, down: Seq<(int, int)>, n: int)
    requires
        n >= 1,
        is_complete_farey_run(up, n, false),
        is_complete_farey_run(down, n, true),
    ensures
        up == down.reverse(),
{
    lemma_reverse_run(down, n);
    lemma_complete_runs_equal(up, down.reverse(), n);
}

/// The values of a list of fractions.
pub open spec fn fractions_view(v: Seq<Fraction>) -> Seq<(int, int)> {
    v.map_values(|f: Fraction| frac_view(f))
}

/// The whole Farey sequence of order `n`, ascending or descending.
pub fn farey_run(n: i32, descending: bool) -> (r: Vec<Fraction>)
    requires
        n >= 1,
    ensures
        is_complete_farey_run(fractions_view(r@), n as int, descending),
{
    let mut farey_iterator = if descending {
        FareyIterator::new_descending(n)
    } else {
        FareyIterator::new(n)
    };
    let mut run: Vec<Fraction> = Vec::new();
    proof {
        assert(fractions_view(run@) =~= Seq::<(int, int)>::empty());
    }
    loop
        invariant
            farey_iterator.wf(),
            farey_iterator.order() == n,
            farey_iterator.is_descending() == descending,
            farey_iterator.emitted() == fractions_view(run@),
        ensures
            is_complete_farey_run(fractions_view(run@), n as int, descending),
        decreases farey_iterator.remaining(),
    {
        match farey_iterator.next() {
            None => {
                break ;
            },
            Some(fraction) => {
                let ghost before = run@;
                run.push(fraction);
                proof {
                    assert(fractions_view(run@) =~= fractions_view(before).push(
                        frac_view(fraction),
                    ));
                }
            },
        }
    }
    run
}

/// The width and height of a sunburst in pixels.
pub const SUNBURST_SIZE: i32 = 1024;

/// A quarter of the sunburst, around its centre.
#[derive(Clone, Copy, Debug, PartialEq, Eq, Structural)]
pub enum Quadrant {
    TopRight,
    BottomRight,
    BottomLeft,
    TopLeft,
}

/// The pixel of the point `(x, y)` of a quadrant, `scale` pixels per unit.
pub open spec fn quadrant_position(quadrant: Quadrant, scale: int, x: int, y: int) -> (int, int) {
    let c = SUNBURST_SIZE / 2;
    match quadrant {
        Quadrant::TopRight => (c + x * scale, c - y * scale),
        Quadrant::BottomRight => (c + x * scale, c + y * scale),
        Quadrant::BottomLeft => (c - x * scale, c + y * scale),
        Quadrant::TopLeft => (c - x * scale, c - y * scale),
    }
}

/// The pixel of the fraction `f` in an octet: the fraction as the point
/// `(numerator, denominator)`, or with `swap` as `(denominator, numerator)`.
pub open spec fn octet_point(quadrant: Quadrant, scale: int, swap: bool, f: (int, int)) -> (int, int) {
    if swap {
        quadrant_position(quadrant, scale, f.1, f.0)
    } else {
        quadrant_position(quadrant, scale, f.0, f.1)
    }
}

/// Pixels per unit in a sunburst of order `n`.
pub fn sunburst_scale(n: i32) -> (r: i32)
    requires
        n >= 1,
    ensures
        r == SUNBURST_SIZE / n / 2 - 20,
{
    SUNBURST_SIZE / n / 2 - 20
}

/// The eight octets of a sunburst, in drawing order: each quadrant drawn once
/// as is and once swapped.
pub fn sunburst_octets() -> (r: Vec<(Quadrant, bool)>)
    ensures
        r@ == seq![
            (Quadrant::TopRight, false),
            (Quadrant::TopRight, true),
            (Quadrant::BottomRight, true),
            (Quadrant::BottomRight, false),
            (Quadrant::BottomLeft, false),
            (Quadrant::BottomLeft, true),
            (Quadrant::TopLeft, false),
            (Quadrant::TopLeft, true),
        ],
{
    let r = vec![
        (Quadrant::TopRight, false),
        (Quadrant::TopRight, true),
        (Quadrant::BottomRight, true),
        (Quadrant::BottomRight, false),
        (Quadrant::BottomLeft, false),
        (Quadrant::BottomLeft, true),
        (Quadrant::TopLeft, false),
        (Quadrant::TopLeft, true),
    ];
    assert(r@ =~= seq![
        (Quadrant::TopRight, false),
        (Quadrant::TopRight, true),
        (Quadrant::BottomRight, true),
        (Quadrant::BottomRight, false),
        (Quadrant::BottomLeft, false),
        (Quadrant::BottomLeft, true),
        (Quadrant::TopLeft, false),
        (Quadrant::TopLeft, true),
    ]);
    r
}

/// The pixels of one octet of a sunburst of order `n`: the Farey sequence,
/// ascending or (with `swap`) descending, each fraction placed by
/// `octet_point`. Consecutive pixels are joined when drawn.
pub fn farey_octet_points(n: i32, quadrant: Quadrant, swap: bool) -> (r: Vec<(i64, i64)>)
    requires
        n >= 1,
    ensures
        exists|run: Seq<(int, int)>|
            {
                &&& is_complete_farey_run(run, n as int, swap)
                &&& r@.len() == run.len()
                &&& forall|i: int|
                    0 <= i < run.len() ==> (r@[i].0 as int, r@[i].1 as int) == octet_point(
                        quadrant,
                        SUNBURST_SIZE / n / 2 - 20,
                        swap,
                        #[trigger] run[i],
                    )
            },
{
    let scale = sunburst_scale(n) as i64;
    let run = farey_run(n, swap);
    let ghost fr = fractions_view(run@);
    let centre = (SUNBURST_SIZE / 2) as i64;
    let mut points: Vec<(i64, i64)> = Vec::new();
    let mut i: usize = 0;
    while i < run.len()
        invariant
            i <= run.len(),
            fr == fractions_view(run@),
            is_complete_farey_run(fr, n as int, swap),
            scale == SUNBURST_SIZE / n / 2 - 20,
            centre == SUNBURST_SIZE / 2,
            points@.len() == i,
            forall|j: int|
                0 <= j < i ==> (points@[j].0 as int, points@[j].1 as int) == octet_point(
                    quadrant,
                    scale as int,
                    swap,
                    #[trigger] fr[j],
                ),
        decreases run.len() - i,
    {
        let (num, den) = run[i];
        let (x, y) = if swap {
            (den as i64, num as i64)
        } else {
            (num as i64, den as i64)
        };
        assert(fr[i as int] == (num as int, den as int));
        assert(0 <= num <= den <= n) by {
            assert(fr[i as int].0 <= fr[i as int].1 <= n);
            assert(in_lowest_terms(fr[i as int].0, fr[i as int].1));
        }
        assert(-20 <= scale <= 512);
        assert(-20 * n <= x * scale <= 512 * n && -20 * n <= y * scale <= 512 * n)
            by (nonlinear_arith)
            requires
                0 <= x <= n,
                0 <= y <= n,
                -20 <= scale <= 512,
        ;
        let point = match quadrant {
            Quadrant::TopRight => (centre + x * scale, centre - y * scale),
            Quadrant::BottomRight => (centre + x * scale, centre + y * scale),
            Quadrant::BottomLeft => (centre - x * scale, centre + y * scale),
            Quadrant::TopLeft => (centre - x * scale, centre - y * scale),
        };
        points.push(point);
        i = i + 1;
    }
    proof {
        assert(points@.len() == fr.len());
    }
    points
}

} // verus!
