use vstd::prelude::*;
use vstd::string::StrSliceExecFns;
use crate::parser::{Bounded, Parser, view_opt, env_agrees};

verus! {

/// Matches exactly the given literal; yields the matched slice.
pub struct Str<'b>(pub &'b str);

/// `a` and `b` hold the same characters.
fn same_chars(a: &str, b: &str) -> (r: bool)
    ensures
        r == (a@ == b@),
{
    let n = a.unicode_len();
    if n != b.unicode_len() {
        return false;
    }
    let mut i: usize = 0;
    while i < n
        invariant
            n == a@.len() == b@.len(),
            i <= n,
            forall|j: int| 0 <= j < i ==> a@[j] == b@[j],
        decreases n - i,
    {
        if a.get_char(i) != b.get_char(i) {
            return false;
        }
        i += 1;
    }
    assert(a@ =~= b@);
    true
}

impl<'a, 'b, R: View> Parser<'a, R> for Str<'b> {
    type Output = &'a str;

    open spec fn wf(&self) -> bool {
        true
    }

    open spec fn sem(&self, env: spec_fn(usize, Seq<char>) -> Option<R::V>, s: Seq<char>) -> Option<Seq<char>> {
        if s == self.0@ {
            Some(s)
        } else {
            None
        }
    }

    fn call_in<F: Fn(usize, &'a str) -> Option<R>>(
        &self,
        env: &F,
        senv: Ghost<spec_fn(usize, Seq<char>) -> Option<R::V>>,
        s: &'a str,
    ) -> (r: Option<&'a str>) {
        if same_chars(s, self.0) {
            Some(s)
        } else {
            None
        }
    }

    proof fn lemma_bounds(&self, env: spec_fn(usize, Seq<char>) -> Option<R::V>, s: Seq<char>) {
    }
}

impl<'b> Bounded for Str<'b> {
    open spec fn spec_min_len(&self) -> nat {
        self.0@.len()
    }

    open spec fn spec_max_len(&self) -> nat {
        self.0@.len()
    }

    fn min_len(&self) -> (r: usize) {
        self.0.unicode_len()
    }

    fn max_len(&self) -> (r: usize) {
        self.0.unicode_len()
    }
}


/// The value of `c` as a digit (`0`-`9`, then `a`-`z` or `A`-`Z` from ten
/// on), or `None` where it is no such character.
pub open spec fn digit_value(c: char) -> Option<u32> {
    let u = c as u32;
    if 48 <= u <= 57 {
        Some((u - 48) as u32)
    } else if 97 <= u <= 122 {
        Some((u - 87) as u32)
    } else if 65 <= u <= 90 {
        Some((u - 55) as u32)
    } else {
        None
    }
}

/// `c` is a digit in base `radix`.
pub open spec fn is_digit_in(c: char, radix: u32) -> bool {
    match digit_value(c) {
        Some(v) => v < radix,
        None => false,
    }
}

/// Every character of `s` is a digit in base `radix`.
pub open spec fn all_digits(s: Seq<char>, radix: u32) -> bool {
    forall|i: int| 0 <= i < s.len() ==> is_digit_in(#[trigger] s[i], radix)
}

fn char_is_digit(c: char, radix: u32) -> (r: bool)
    ensures
        r == is_digit_in(c, radix),
{
    let u = c as u32;
    if 48 <= u && u <= 57 {
        u - 48 < radix
    } else if 97 <= u && u <= 122 {
        u - 87 < radix
    } else if 65 <= u && u <= 90 {
        u - 55 < radix
    } else {
        false
    }
}

/// Matches a non-empty run of digits in the given base; yields the matched
/// slice.
pub struct Digits(pub u32);

impl<'a, R: View> Parser<'a, R> for Digits {
    type Output = &'a str;

    open spec fn wf(&self) -> bool {
        true
    }

    open spec fn sem(&self, env: spec_fn(usize, Seq<char>) -> Option<R::V>, s: Seq<char>) -> Option<Seq<char>> {
        if s.len() > 0 && all_digits(s, self.0) {
            Some(s)
        } else {
            None
        }
    }

    fn call_in<F: Fn(usize, &'a str) -> Option<R>>(
        &self,
        env: &F,
        senv: Ghost<spec_fn(usize, Seq<char>) -> Option<R::V>>,
        s: &'a str,
    ) -> (r: Option<&'a str>) {
        let n = s.unicode_len();
        if n == 0 {
            return None;
        }
        let mut i: usize = 0;
        while i < n
            invariant
                n == s@.len(),
                i <= n,
                forall|j: int| 0 <= j < i ==> is_digit_in(#[trigger] s@[j], self.0),
            decreases n - i,
        {
            if !char_is_digit(s.get_char(i), self.0) {
                return None;
            }
            i += 1;
        }
        Some(s)
    }

    proof fn lemma_bounds(&self, env: spec_fn(usize, Seq<char>) -> Option<R::V>, s: Seq<char>) {
    }
}

impl Bounded for Digits {
    open spec fn spec_min_len(&self) -> nat {
        1
    }

    open spec fn spec_max_len(&self) -> nat {
        usize::MAX as nat
    }

    fn min_len(&self) -> (r: usize) {
        1
    }

    fn max_len(&self) -> (r: usize) {
        usize::MAX
    }
}

/// Tries the left matcher, then the right one, each only where the length
/// of the slice lies within its bounds. The left one wins where both match.
pub struct Alt2<P1, P2>(pub P1, pub P2);

/// `n` lies within the bounds of `p`.
pub open spec fn in_bounds<'a, R: View, P: Parser<'a, R>>(p: P, n: int) -> bool {
    p.spec_min_len() <= n <= p.spec_max_len()
}

impl<'a, R: View, P1: Parser<'a, R>, P2: Parser<'a, R, Output = P1::Output>> Parser<'a, R> for Alt2<
    P1,
    P2,
> {
    type Output = P1::Output;

    open spec fn wf(&self) -> bool {
        self.0.wf() && self.1.wf()
    }

    open spec fn sem(&self, env: spec_fn(usize, Seq<char>) -> Option<R::V>, s: Seq<char>) -> Option<
        <P1::Output as View>::V,
    > {
        if in_bounds(self.0, s.len() as int) && self.0.sem(env, s) is Some {
            self.0.sem(env, s)
        } else if in_bounds(self.1, s.len() as int) {
            self.1.sem(env, s)
        } else {
            None
        }
    }

    fn call_in<F: Fn(usize, &'a str) -> Option<R>>(
        &self,
        env: &F,
        senv: Ghost<spec_fn(usize, Seq<char>) -> Option<R::V>>,
        s: &'a str,
    ) -> (r: Option<P1::Output>) {
        let n = s.unicode_len();
        if self.0.min_len() <= n && n <= self.0.max_len() {
            let first = self.0.call_in(env, senv, s);
            if first.is_some() {
                return first;
            }
        }
        if self.1.min_len() <= n && n <= self.1.max_len() {
            self.1.call_in(env, senv, s)
        } else {
            None
        }
    }

    proof fn lemma_bounds(&self, env: spec_fn(usize, Seq<char>) -> Option<R::V>, s: Seq<char>) {
    }
}

impl<P1: Bounded, P2: Bounded> Bounded for Alt2<P1, P2> {
    open spec fn spec_min_len(&self) -> nat {
        if self.0.spec_min_len() <= self.1.spec_min_len() {
            self.0.spec_min_len()
        } else {
            self.1.spec_min_len()
        }
    }

    open spec fn spec_max_len(&self) -> nat {
        if self.0.spec_max_len() >= self.1.spec_max_len() {
            self.0.spec_max_len()
        } else {
            self.1.spec_max_len()
        }
    }

    fn min_len(&self) -> (r: usize) {
        let a = self.0.min_len();
        let b = self.1.min_len();
        if a <= b {
            a
        } else {
            b
        }
    }

    fn max_len(&self) -> (r: usize) {
        let a = self.0.max_len();
        let b = self.1.max_len();
        if a >= b {
            a
        } else {
            b
        }
    }
}

} // verus!

verus! {

/// Both sides accept their part when `s` is split at `i`.
pub open spec fn split_ok<'a, R: View, P1: Parser<'a, R>, P2: Parser<'a, R>>(
    l: P1,
    r: P2,
    env: spec_fn(usize, Seq<char>) -> Option<R::V>,
    s: Seq<char>,
    i: int,
) -> bool {
    &&& l.sem(env, s.subrange(0, i)) is Some
    &&& r.sem(env, s.subrange(i, s.len() as int)) is Some
}

/// The smallest split point that the bounds of the two sides allow.
pub open spec fn window_lo<'a, R: View, P1: Parser<'a, R>, P2: Parser<'a, R>>(
    l: P1,
    r: P2,
    n: int,
) -> int {
    if l.spec_min_len() >= n - r.spec_max_len() {
        l.spec_min_len() as int
    } else {
        n - r.spec_max_len()
    }
}

/// The largest split point that the bounds of the two sides allow.
pub open spec fn window_hi<'a, R: View, P1: Parser<'a, R>, P2: Parser<'a, R>>(
    l: P1,
    r: P2,
    n: int,
) -> int {
    if l.spec_max_len() <= n - r.spec_min_len() {
        l.spec_max_len() as int
    } else {
        n - r.spec_min_len()
    }
}

/// The first split point from `i` up to `hi` at which both sides match.
pub open spec fn first_split<'a, R: View, P1: Parser<'a, R>, P2: Parser<'a, R>>(
    l: P1,
    r: P2,
    env: spec_fn(usize, Seq<char>) -> Option<R::V>,
    s: Seq<char>,
    i: int,
    hi: int,
) -> Option<int>
    decreases hi - i + 1,
{
    if i > hi {
        None
    } else if split_ok(l, r, env, s, i) {
        Some(i)
    } else {
        first_split(l, r, env, s, i + 1, hi)
    }
}

/// The last split point from `i` down to `lo` at which both sides match.
pub open spec fn last_split<'a, R: View, P1: Parser<'a, R>, P2: Parser<'a, R>>(
    l: P1,
    r: P2,
    env: spec_fn(usize, Seq<char>) -> Option<R::V>,
    s: Seq<char>,
    lo: int,
    i: int,
) -> Option<int>
    decreases i - lo + 1,
{
    if i < lo {
        None
    } else if split_ok(l, r, env, s, i) {
        Some(i)
    } else {
        last_split(l, r, env, s, lo, i - 1)
    }
}

/// The pair of outcomes when `s` is split at `split`, if there is a split.
pub open spec fn pair_at<'a, R: View, P1: Parser<'a, R>, P2: Parser<'a, R>>(
    l: P1,
    r: P2,
    env: spec_fn(usize, Seq<char>) -> Option<R::V>,
    s: Seq<char>,
    split: Option<int>,
) -> Option<(<P1::Output as View>::V, <P2::Output as View>::V)> {
    match split {
        Some(i) => Some(
            (
                l.sem(env, s.subrange(0, i))->0,
                r.sem(env, s.subrange(i, s.len() as int))->0,
            ),
        ),
        None => None,
    }
}

/// `a + b`, held at `usize::MAX`.
pub open spec fn sat_add(a: nat, b: nat) -> nat {
    if a + b > usize::MAX {
        usize::MAX as nat
    } else {
        a + b
    }
}

/// The split-point window `[lo, hi]` of two matchers on a slice of `n`
/// characters; `None` where it is empty because the right side needs more.
fn window<'a, R: View, P1: Parser<'a, R>, P2: Parser<'a, R>>(l: &P1, r: &P2, n: usize) -> (w: Option<
    (usize, usize),
>)
    requires
        l.wf(),
        r.wf(),
    ensures
        match w {
            Some((lo, hi)) => lo == window_lo(*l, *r, n as int) && hi == window_hi(
                *l,
                *r,
                n as int,
            ) && hi <= n,
            None => window_hi(*l, *r, n as int) < 0,
        },
{
    let lmin = l.min_len();
    let lmax = l.max_len();
    let rmin = r.min_len();
    let rmax = r.max_len();
    if n < rmin {
        return None;
    }
    let rest = n.saturating_sub(rmax);
    let lo = if lmin >= rest {
        lmin
    } else {
        rest
    };
    let hi = if lmax <= n - rmin {
        lmax
    } else {
        n - rmin
    };
    Some((lo, hi))
}

/// Sequencing that tries split points in ascending order and keeps the
/// first at which both sides match.
pub struct Seq2Fwd<P1, P2>(pub P1, pub P2);

/// Sequencing that tries split points in descending order and keeps the
/// first at which both sides match.
pub struct Seq2Rev<P1, P2>(pub P1, pub P2);

/// Tries the split at `i`: both sides on their part of `s`.
fn try_split<'a, R: View, P1: Parser<'a, R>, P2: Parser<'a, R>, F: Fn(usize, &'a str) -> Option<R>>(
    l: &P1,
    r: &P2,
    env: &F,
    senv: Ghost<spec_fn(usize, Seq<char>) -> Option<R::V>>,
    s: &'a str,
    n: usize,
    i: usize,
) -> (res: Option<(P1::Output, P2::Output)>)
    requires
        l.wf(),
        r.wf(),
        env_agrees(*env, senv@),
        n == s@.len(),
        i <= n,
    ensures
        res is Some <==> split_ok(*l, *r, senv@, s@, i as int),
        res is Some ==> view_opt(res) == pair_at(*l, *r, senv@, s@, Some(i as int)),
{
    let left = s.substring_char(0, i);
    match l.call_in(env, senv, left) {
        Some(u1) => {
            let right = s.substring_char(i, n);
            match r.call_in(env, senv, right) {
                Some(u2) => Some((u1, u2)),
                None => None,
            }
        },
        None => None,
    }
}

impl<'a, R: View, P1: Parser<'a, R>, P2: Parser<'a, R>> Parser<'a, R> for Seq2Fwd<P1, P2> {
    type Output = (P1::Output, P2::Output);

    open spec fn wf(&self) -> bool {
        self.0.wf() && self.1.wf()
    }

    open spec fn sem(&self, env: spec_fn(usize, Seq<char>) -> Option<R::V>, s: Seq<char>) -> Option<
        (<P1::Output as View>::V, <P2::Output as View>::V),
    > {
        let n = s.len() as int;
        pair_at(
            self.0,
            self.1,
            env,
            s,
            first_split(
                self.0,
                self.1,
                env,
                s,
                window_lo(self.0, self.1, n),
                window_hi(self.0, self.1, n),
            ),
        )
    }

    fn call_in<F: Fn(usize, &'a str) -> Option<R>>(
        &self,
        env: &F,
        senv: Ghost<spec_fn(usize, Seq<char>) -> Option<R::V>>,
        s: &'a str,
    ) -> (r: Option<(P1::Output, P2::Output)>) {
        let n = s.unicode_len();
        let (lo, hi) = match window(&self.0, &self.1, n) {
            Some(w) => w,
            None => {
                return None;
            },
        };
        if lo > hi {
            return None;
        }
        let ghost first = first_split(self.0, self.1, senv@, s@, lo as int, hi as int);
        let mut i = lo;
        loop
            invariant
                lo <= i <= hi <= n,
                n == s@.len(),
                lo == window_lo(self.0, self.1, n as int),
                hi == window_hi(self.0, self.1, n as int),
                self.wf(),
                env_agrees(*env, senv@),
                first == first_split(self.0, self.1, senv@, s@, lo as int, hi as int),
                first == first_split(self.0, self.1, senv@, s@, i as int, hi as int),
            decreases hi - i,
        {
            let found = try_split(&self.0, &self.1, env, senv, s, n, i);
            if found.is_some() {
                return found;
            }
            if i == hi {
                assert(first_split(self.0, self.1, senv@, s@, i + 1, hi as int) is None);
                return None;
            }
            i += 1;
        }
    }

    proof fn lemma_bounds(&self, env: spec_fn(usize, Seq<char>) -> Option<R::V>, s: Seq<char>) {
        let n = s.len() as int;
        let lo = window_lo(self.0, self.1, n);
        let hi = window_hi(self.0, self.1, n);
        if self.sem(env, s) is Some {
            lemma_first_split_within(self.0, self.1, env, s, lo, hi);
        }
    }
}

impl<P1: Bounded, P2: Bounded> Bounded for Seq2Fwd<P1, P2> {
    open spec fn spec_min_len(&self) -> nat {
        sat_add(self.0.spec_min_len(), self.1.spec_min_len())
    }

    open spec fn spec_max_len(&self) -> nat {
        sat_add(self.0.spec_max_len(), self.1.spec_max_len())
    }

    fn min_len(&self) -> (r: usize) {
        self.0.min_len().saturating_add(self.1.min_len())
    }

    fn max_len(&self) -> (r: usize) {
        self.0.max_len().saturating_add(self.1.max_len())
    }
}

impl<'a, R: View, P1: Parser<'a, R>, P2: Parser<'a, R>> Parser<'a, R> for Seq2Rev<P1, P2> {
    type Output = (P1::Output, P2::Output);

    open spec fn wf(&self) -> bool {
        self.0.wf() && self.1.wf()
    }

    open spec fn sem(&self, env: spec_fn(usize, Seq<char>) -> Option<R::V>, s: Seq<char>) -> Option<
        (<P1::Output as View>::V, <P2::Output as View>::V),
    > {
        let n = s.len() as int;
        pair_at(
            self.0,
            self.1,
            env,
            s,
            last_split(
                self.0,
                self.1,
                env,
                s,
                window_lo(self.0, self.1, n),
                window_hi(self.0, self.1, n),
            ),
        )
    }

    fn call_in<F: Fn(usize, &'a str) -> Option<R>>(
        &self,
        env: &F,
        senv: Ghost<spec_fn(usize, Seq<char>) -> Option<R::V>>,
        s: &'a str,
    ) -> (r: Option<(P1::Output, P2::Output)>) {
        let n = s.unicode_len();
        let (lo, hi) = match window(&self.0, &self.1, n) {
            Some(w) => w,
            None => {
                return None;
            },
        };
        if lo > hi {
            return None;
        }
        let ghost last = last_split(self.0, self.1, senv@, s@, lo as int, hi as int);
        let mut i = hi;
        loop
            invariant
                lo <= i <= hi <= n,
                n == s@.len(),
                lo == window_lo(self.0, self.1, n as int),
                hi == window_hi(self.0, self.1, n as int),
                self.wf(),
                env_agrees(*env, senv@),
                last == last_split(self.0, self.1, senv@, s@, lo as int, hi as int),
                last == last_split(self.0, self.1, senv@, s@, lo as int, i as int),
            decreases i - lo,
        {
            let found = try_split(&self.0, &self.1, env, senv, s, n, i);
            if found.is_some() {
                return found;
            }
            if i == lo {
                assert(last_split(self.0, self.1, senv@, s@, lo as int, i - 1) is None);
                return None;
            }
            i -= 1;
        }
    }

    proof fn lemma_bounds(&self, env: spec_fn(usize, Seq<char>) -> Option<R::V>, s: Seq<char>) {
        let n = s.len() as int;
        let lo = window_lo(self.0, self.1, n);
        let hi = window_hi(self.0, self.1, n);
        if self.sem(env, s) is Some {
            lemma_last_split_within(self.0, self.1, env, s, lo, hi);
        }
    }
}

impl<P1: Bounded, P2: Bounded> Bounded for Seq2Rev<P1, P2> {
    open spec fn spec_min_len(&self) -> nat {
        sat_add(self.0.spec_min_len(), self.1.spec_min_len())
    }

    open spec fn spec_max_len(&self) -> nat {
        sat_add(self.0.spec_max_len(), self.1.spec_max_len())
    }

    fn min_len(&self) -> (r: usize) {
        self.0.min_len().saturating_add(self.1.min_len())
    }

    fn max_len(&self) -> (r: usize) {
        self.0.max_len().saturating_add(self.1.max_len())
    }
}

/// A split found going up lies in the range searched and both sides match
/// there; none before it does.
pub proof fn lemma_first_split_within<'a, R: View, P1: Parser<'a, R>, P2: Parser<'a, R>>(
    l: P1,
    r: P2,
    env: spec_fn(usize, Seq<char>) -> Option<R::V>,
    s: Seq<char>,
    i: int,
    hi: int,
)
    ensures
        match first_split(l, r, env, s, i, hi) {
            Some(k) => i <= k <= hi && split_ok(l, r, env, s, k) && forall|j: int|
                i <= j < k ==> !#[trigger] split_ok(l, r, env, s, j),
            None => forall|j: int| i <= j <= hi ==> !#[trigger] split_ok(l, r, env, s, j),
        },
    decreases hi - i + 1,
{
    if i <= hi && !split_ok(l, r, env, s, i) {
        lemma_first_split_within(l, r, env, s, i + 1, hi);
    }
}

/// A split found going down lies in the range searched and both sides match
/// there; none after it does.
pub proof fn lemma_last_split_within<'a, R: View, P1: Parser<'a, R>, P2: Parser<'a, R>>(
    l: P1,
    r: P2,
    env: spec_fn(usize, Seq<char>) -> Option<R::V>,
    s: Seq<char>,
    lo: int,
    i: int,
)
    ensures
        match last_split(l, r, env, s, lo, i) {
            Some(k) => lo <= k <= i && split_ok(l, r, env, s, k) && forall|j: int|
                k < j <= i ==> !#[trigger] split_ok(l, r, env, s, j),
            None => forall|j: int| lo <= j <= i ==> !#[trigger] split_ok(l, r, env, s, j),
        },
    decreases i - lo + 1,
{
    if lo <= i && !split_ok(l, r, env, s, i) {
        lemma_last_split_within(l, r, env, s, lo, i - 1);
    }
}

} // verus!
