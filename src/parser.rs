use vstd::prelude::*;

verus! {

/// The view of an optional value, taken inside the option.
pub open spec fn view_opt<T: View>(o: Option<T>) -> Option<T::V> {
    match o {
        Some(x) => Some(x@),
        None => None,
    }
}

/// An environment for the rule handles: it tells, for a rule identity and a
/// slice, what that rule yields on it.
pub open spec fn env_agrees<'a, R: View, F: Fn(usize, &'a str) -> Option<R>>(
    env: F,
    senv: spec_fn(usize, Seq<char>) -> Option<R::V>,
) -> bool {
    &&& forall|i: usize, t: &'a str| #[trigger] env.requires((i, t))
    &&& forall|i: usize, t: &'a str, r: Option<R>| #[trigger] env.ensures((i, t), r) ==> view_opt(r)
        == senv(i, t@)
}

/// The environment outside of every rule: a handle there has no installed
/// body to forward to, so it is not ready and fails.
pub open spec fn no_rule<V>() -> spec_fn(usize, Seq<char>) -> Option<V> {
    |i: usize, t: Seq<char>| None::<V>
}

/// The static length bounds of a matcher: every slice it accepts has a
/// length (in characters) within them. They serve only to prune the search.
pub trait Bounded {
    spec fn spec_min_len(&self) -> nat;

    spec fn spec_max_len(&self) -> nat;

    fn min_len(&self) -> (r: usize)
        ensures
            r as nat == self.spec_min_len(),
    ;

    fn max_len(&self) -> (r: usize)
        ensures
            r as nat == self.spec_max_len(),
    ;
}

/// A matcher over text slices. It succeeds only when it accepts the whole
/// slice it is given. `R` is the output of the rules that the handles
/// inside it resolve to (`()` outside any rule).
///
/// Lengths are counted in characters, so a split never falls inside a
/// character.
pub trait Parser<'a, R: View>: Bounded {
    type Output: View;

    /// The matcher is well formed (its transforms are total, deterministic
    /// and keep failures).
    spec fn wf(&self) -> bool;

    /// The outcome on `s`, where rule handles yield what `env` says.
    spec fn sem(&self, env: spec_fn(usize, Seq<char>) -> Option<R::V>, s: Seq<char>) -> Option<
        <Self::Output as View>::V,
    >;

    /// Attempts the whole of `s`; rule handles are resolved through `env`,
    /// which `senv` describes.
    fn call_in<F: Fn(usize, &'a str) -> Option<R>>(
        &self,
        env: &F,
        senv: Ghost<spec_fn(usize, Seq<char>) -> Option<R::V>>,
        s: &'a str,
    ) -> (r: Option<Self::Output>)
        requires
            self.wf(),
            env_agrees(*env, senv@),
        ensures
            view_opt(r) == self.sem(senv@, s@),
    ;

    /// Every slice that the matcher accepts has a length within its bounds.
    proof fn lemma_bounds(&self, env: spec_fn(usize, Seq<char>) -> Option<R::V>, s: Seq<char>)
        requires
            self.wf(),
            s.len() <= usize::MAX,
        ensures
            self.sem(env, s) is Some ==> self.spec_min_len() <= s.len() <= self.spec_max_len(),
    ;
}

/// A matcher used on its own, outside any rule.
pub trait Matcher<'a>: Parser<'a, ()> {
    /// Attempts the whole of `s`.
    fn call(&self, s: &'a str) -> (r: Option<<Self as Parser<'a, ()>>::Output>)
        requires
            self.wf(),
        ensures
            view_opt(r) == self.sem(no_rule::<()>(), s@),
    ;
}

impl<'a, P: Parser<'a, ()>> Matcher<'a> for P {
    fn call(&self, s: &'a str) -> (r: Option<<Self as Parser<'a, ()>>::Output>) {
        let env = |i: usize, t: &'a str| -> (r: Option<()>)
            ensures
                r is None,
            { None };
        self.call_in(&env, Ghost(no_rule::<()>()), s)
    }
}

/// `f` may be applied to every outcome, and outcomes with one view give
/// results with one view.
pub open spec fn outcome_functional<X: View, V: View, F: Fn(Option<X>) -> Option<V>>(f: F) -> bool {
    &&& forall|a: Option<X>| #[trigger] f.requires((a,))
    &&& forall|a1: Option<X>, a2: Option<X>, b1: Option<V>, b2: Option<V>|
        #![trigger f.ensures((a1,), b1), f.ensures((a2,), b2)]
        view_opt(a1) == view_opt(a2) && f.ensures((a1,), b1) && f.ensures((a2,), b2) ==> view_opt(b1)
            == view_opt(b2)
}

/// `f` turns a failure into a failure: a transform cannot make a matcher
/// accept a slice outside its bounds.
pub open spec fn keeps_failure<X, V, F: Fn(Option<X>) -> Option<V>>(f: F) -> bool {
    forall|b: Option<V>| #[trigger] f.ensures((None::<X>,), b) ==> b is None
}

/// What `f` gives for a success whose value has the view `xv`.
pub open spec fn post_result<X: View, V: View, F: Fn(Option<X>) -> Option<V>>(f: F, xv: X::V) -> Option<
    V::V,
> {
    let (a, b) = choose|a: X, b: Option<V>| a@ == xv && #[trigger] f.ensures((Some(a),), b);
    view_opt(b)
}

/// `f` may be applied to every value, and values with one view give results
/// with one view.
pub open spec fn value_functional<X: View, V: View, F: Fn(X) -> V>(f: F) -> bool {
    &&& forall|a: X| #[trigger] f.requires((a,))
    &&& forall|a1: X, a2: X, b1: V, b2: V|
        #![trigger f.ensures((a1,), b1), f.ensures((a2,), b2)]
        a1@ == a2@ && f.ensures((a1,), b1) && f.ensures((a2,), b2) ==> b1@ == b2@
}

/// What `f` gives for a value with the view `xv`.
pub open spec fn map_result<X: View, V: View, F: Fn(X) -> V>(f: F, xv: X::V) -> V::V {
    let (a, b) = choose|a: X, b: V| a@ == xv && #[trigger] f.ensures((a,), b);
    b@
}

/// A matcher whose raw outcome, success or failure, is handed to a function
/// that gives the final outcome. Bounds are those of the wrapped matcher:
/// the function must keep failures, so the accepted slices stay within them.
pub struct PostProcessedParser<P, F> {
    pub parser: P,
    pub mapping: F,
}

impl<P, F> PostProcessedParser<P, F> {
    pub fn new(parser: P, func: F) -> (r: Self)
        ensures
            r.parser == parser,
            r.mapping == func,
    {
        PostProcessedParser { parser, mapping: func }
    }
}

impl<'a, R: View, V: View, P: Parser<'a, R>, M: Fn(Option<P::Output>) -> Option<V>> Parser<
    'a,
    R,
> for PostProcessedParser<P, M> {
    type Output = V;

    open spec fn wf(&self) -> bool {
        &&& self.parser.wf()
        &&& outcome_functional(self.mapping)
        &&& keeps_failure(self.mapping)
    }

    open spec fn sem(&self, env: spec_fn(usize, Seq<char>) -> Option<R::V>, s: Seq<char>) -> Option<V::V> {
        match self.parser.sem(env, s) {
            Some(xv) => post_result(self.mapping, xv),
            None => None,
        }
    }

    fn call_in<F: Fn(usize, &'a str) -> Option<R>>(
        &self,
        env: &F,
        senv: Ghost<spec_fn(usize, Seq<char>) -> Option<R::V>>,
        s: &'a str,
    ) -> (r: Option<V>) {
        let inner = self.parser.call_in(env, senv, s);
        let ghost raw = inner;
        let out = (self.mapping)(inner);
        proof {
            if let Some(a) = raw {
                assert(a@ == a@ && self.mapping.ensures((Some(a),), out));
                let (a2, b2) = choose|a2: P::Output, b2: Option<V>|
                    a2@ == a@ && #[trigger] self.mapping.ensures((Some(a2),), b2);
                assert(view_opt(Some(a2)) == view_opt(Some(a)));
            }
        }
        out
    }

    proof fn lemma_bounds(&self, env: spec_fn(usize, Seq<char>) -> Option<R::V>, s: Seq<char>) {
        self.parser.lemma_bounds(env, s);
    }
}

impl<P: Bounded, M> Bounded for PostProcessedParser<P, M> {
    open spec fn spec_min_len(&self) -> nat {
        self.parser.spec_min_len()
    }

    open spec fn spec_max_len(&self) -> nat {
        self.parser.spec_max_len()
    }

    fn min_len(&self) -> (r: usize) {
        self.parser.min_len()
    }

    fn max_len(&self) -> (r: usize) {
        self.parser.max_len()
    }
}

/// A matcher whose successful value is passed through a function; failures
/// stay failures, and the bounds are those of the wrapped matcher.
pub struct MappedParser<P, F> {
    pub parser: P,
    pub mapping: F,
}

impl<'a, R: View, V: View, P: Parser<'a, R>, M: Fn(P::Output) -> V> Parser<'a, R> for MappedParser<
    P,
    M,
> {
    type Output = V;

    open spec fn wf(&self) -> bool {
        self.parser.wf() && value_functional(self.mapping)
    }

    open spec fn sem(&self, env: spec_fn(usize, Seq<char>) -> Option<R::V>, s: Seq<char>) -> Option<V::V> {
        match self.parser.sem(env, s) {
            Some(xv) => Some(map_result(self.mapping, xv)),
            None => None,
        }
    }

    fn call_in<F: Fn(usize, &'a str) -> Option<R>>(
        &self,
        env: &F,
        senv: Ghost<spec_fn(usize, Seq<char>) -> Option<R::V>>,
        s: &'a str,
    ) -> (r: Option<V>) {
        match self.parser.call_in(env, senv, s) {
            Some(a) => {
                let b = (self.mapping)(a);
                proof {
                    assert(a@ == a@ && self.mapping.ensures((a,), b));
                    let (a2, b2) = choose|a2: P::Output, b2: V|
                        a2@ == a@ && #[trigger] self.mapping.ensures((a2,), b2);
                }
                Some(b)
            },
            None => None,
        }
    }

    proof fn lemma_bounds(&self, env: spec_fn(usize, Seq<char>) -> Option<R::V>, s: Seq<char>) {
        self.parser.lemma_bounds(env, s);
    }
}

impl<P: Bounded, M> Bounded for MappedParser<P, M> {
    open spec fn spec_min_len(&self) -> nat {
        self.parser.spec_min_len()
    }

    open spec fn spec_max_len(&self) -> nat {
        self.parser.spec_max_len()
    }

    fn min_len(&self) -> (r: usize) {
        self.parser.min_len()
    }

    fn max_len(&self) -> (r: usize) {
        self.parser.max_len()
    }
}

/// The output transforms, offered on every matcher.
pub trait Transform: Sized {
    /// Hands the raw outcome of this matcher to `func`.
    fn post<F>(self, func: F) -> (r: PostProcessedParser<Self, F>)
        ensures
            r.parser == self,
            r.mapping == func,
    ;

    /// Passes each successful value of this matcher through `func`.
    fn map<F>(self, func: F) -> (r: MappedParser<Self, F>)
        ensures
            r.parser == self,
            r.mapping == func,
    ;
}

impl<T> Transform for T {
    fn post<F>(self, func: F) -> (r: PostProcessedParser<Self, F>) {
        PostProcessedParser::new(self, func)
    }

    fn map<F>(self, func: F) -> (r: MappedParser<Self, F>) {
        MappedParser { parser: self, mapping: func }
    }
}

} // verus!
