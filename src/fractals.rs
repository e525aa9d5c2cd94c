use vstd::prelude::*;
use vstd::string::StrSliceExecFns;
use crate::parser::{Bounded, Parser, env_agrees, no_rule, view_opt};

verus! {

/// Hands out rule identities. Each rule reserved through one grammar gets
/// an identity of its own, so a handle names exactly one rule.
pub struct Grammar {
    next: usize,
}

impl Grammar {
    /// The identity that the next reservation hands out.
    pub closed spec fn next_id(&self) -> usize {
        self.next
    }

    pub fn new() -> (g: Self)
        ensures
            g.next_id() == 0,
    {
        Grammar { next: 0 }
    }

    /// Reserves a rule whose body is not installed yet, and returns the
    /// handle bound to it.
    pub fn reserve(&mut self) -> (h: ParserRef)
        requires
            old(self).next_id() < usize::MAX,
        ensures
            h.rule_id() == old(self).next_id(),
            final(self).next_id() == old(self).next_id() + 1,
    {
        let id = self.next;
        self.next = self.next + 1;
        ParserRef { id }
    }
}

/// A non-owning handle to a rule, usable inside bodies (its own or that of
/// any rule it encloses). It yields what its rule yields on the slice it is
/// given. Where no installed rule of its identity is around it, it is not
/// ready and fails.
#[derive(Clone, Copy)]
pub struct ParserRef {
    id: usize,
}

impl ParserRef {
    /// The identity of the rule this handle is bound to.
    pub closed spec fn rule_id(&self) -> usize {
        self.id
    }

    pub fn id(&self) -> (r: usize)
        ensures
            r == self.rule_id(),
    {
        self.id
    }
}

impl<'a, R: View> Parser<'a, R> for ParserRef {
    type Output = R;

    open spec fn wf(&self) -> bool {
        true
    }

    open spec fn sem(&self, env: spec_fn(usize, Seq<char>) -> Option<R::V>, s: Seq<char>) -> Option<
        R::V,
    > {
        env(self.rule_id(), s)
    }

    fn call_in<F: Fn(usize, &'a str) -> Option<R>>(
        &self,
        env: &F,
        senv: Ghost<spec_fn(usize, Seq<char>) -> Option<R::V>>,
        s: &'a str,
    ) -> (r: Option<R>) {
        env(self.id, s)
    }

    proof fn lemma_bounds(&self, env: spec_fn(usize, Seq<char>) -> Option<R::V>, s: Seq<char>) {
    }
}

impl Bounded for ParserRef {
    open spec fn spec_min_len(&self) -> nat {
        0
    }

    open spec fn spec_max_len(&self) -> nat {
        usize::MAX as nat
    }

    fn min_len(&self) -> (r: usize) {
        0
    }

    fn max_len(&self) -> (r: usize) {
        usize::MAX
    }
}

/// The outcome of the rule `id` with body `body` on `s`, where the handles
/// of other rules yield what `env` says. A handle to this rule inside the
/// body re-enters the rule only on a slice shorter than the one the rule was
/// given; on the same slice it fails, so that every attempt ends.
pub open spec fn rule_sem<'a, R: View, P: Parser<'a, R, Output = R>>(
    id: usize,
    body: P,
    env: spec_fn(usize, Seq<char>) -> Option<R::V>,
    s: Seq<char>,
) -> Option<R::V>
    decreases s.len(), 1nat,
{
    body.sem(rule_env(id, body, env, s.len()), s)
}

/// The environment inside an attempt of the rule `id` on a slice of `n`
/// characters: its own handle stands for the rule on shorter slices, every
/// other handle keeps its meaning from `env`.
pub open spec fn rule_env<'a, R: View, P: Parser<'a, R, Output = R>>(
    id: usize,
    body: P,
    env: spec_fn(usize, Seq<char>) -> Option<R::V>,
    n: nat,
) -> spec_fn(usize, Seq<char>) -> Option<R::V>
    decreases n, 0nat,
{
    |i: usize, t: Seq<char>|
        if i != id {
            env(i, t)
        } else if t.len() < n {
            rule_sem(id, body, env, t)
        } else {
            None
        }
}

/// A rule: an identity and the body installed for it. The body may hold the
/// rule's own handle and the handles of rules around it. The rule owns its
/// body; the handles are identities resolved at each attempt, so the rule
/// can be moved freely.
pub struct FractalParser<R, P> {
    id: usize,
    parser: P,
    rule: core::marker::PhantomData<R>,
}

impl<R, P> FractalParser<R, P> {
    /// The identity of the rule.
    pub closed spec fn rule_id(&self) -> usize {
        self.id
    }

    /// The body of the rule.
    pub closed spec fn body(&self) -> P {
        self.parser
    }

    /// Installs `body` as the rule that `handle` is bound to.
    pub fn install(handle: ParserRef, body: P) -> (r: Self)
        ensures
            r.rule_id() == handle.rule_id(),
            r.body() == body,
    {
        FractalParser { id: handle.id, parser: body, rule: core::marker::PhantomData }
    }

    /// Builds a rule in `grammar`: reserves it, hands its handle to `maker`,
    /// and installs the body that `maker` returns.
    pub fn new<F: Fn(ParserRef) -> P>(grammar: &mut Grammar, maker: F) -> (r: Self)
        requires
            old(grammar).next_id() < usize::MAX,
            forall|h: ParserRef| h.rule_id() == old(grammar).next_id() ==> #[trigger] maker.requires((h,)),
        ensures
            r.rule_id() == old(grammar).next_id(),
            final(grammar).next_id() == old(grammar).next_id() + 1,
            exists|h: ParserRef| h.rule_id() == r.rule_id() && #[trigger] maker.ensures((h,), r.body()),
    {
        let handle = grammar.reserve();
        let body = maker(handle);
        Self::install(handle, body)
    }

    /// The installed body.
    pub fn source(&self) -> (r: &P)
        ensures
            *r == self.body(),
    {
        &self.parser
    }

    /// The handle bound to this rule.
    pub fn handle(&self) -> (h: ParserRef)
        ensures
            h.rule_id() == self.rule_id(),
    {
        ParserRef { id: self.id }
    }
}

impl<'a, R: View, P: Parser<'a, R, Output = R>> FractalParser<R, P> {
    /// Attempts the rule on `s`, with the handles of other rules resolved
    /// through `env`.
    fn call_rule<F: Fn(usize, &'a str) -> Option<R>>(
        &self,
        env: &F,
        senv: Ghost<spec_fn(usize, Seq<char>) -> Option<R::V>>,
        s: &'a str,
    ) -> (r: Option<R>)
        requires
            self.body().wf(),
            env_agrees(*env, senv@),
        ensures
            view_opt(r) == rule_sem(self.rule_id(), self.body(), senv@, s@),
        decreases s@.len(),
    {
        let n = s.unicode_len();
        let ghost inner_senv = rule_env(self.rule_id(), self.body(), senv@, s@.len());
        let inner = |i: usize, t: &'a str| -> (r: Option<R>)
            ensures
                view_opt(r) == rule_env(self.rule_id(), self.body(), senv@, s@.len())(i, t@),
            {
                if i != self.id {
                    env(i, t)
                } else if t.unicode_len() < n {
                    self.call_rule(env, senv, t)
                } else {
                    None
                }
            };
        self.parser.call_in(&inner, Ghost(inner_senv), s)
    }

    /// Attempts the rule on `s`, outside any other rule.
    pub fn call(&self, s: &'a str) -> (r: Option<R>)
        requires
            self.body().wf(),
        ensures
            view_opt(r) == rule_sem(self.rule_id(), self.body(), no_rule::<R::V>(), s@),
    {
        let env = |i: usize, t: &'a str| -> (r: Option<R>)
            ensures
                r is None,
            { None };
        self.call_rule(&env, Ghost(no_rule::<R::V>()), s)
    }

    /// Calls `handle` with this rule as the owner of rules: a handle bound
    /// to this rule yields what the rule yields; any other is not ready.
    pub fn call_ref(&self, handle: &ParserRef, s: &'a str) -> (r: Option<R>)
        requires
            self.body().wf(),
        ensures
            view_opt(r) == (if handle.rule_id() == self.rule_id() {
                rule_sem(self.rule_id(), self.body(), no_rule::<R::V>(), s@)
            } else {
                None
            }),
    {
        let ghost senv = |i: usize, t: Seq<char>|
            if i == self.rule_id() {
                rule_sem(self.rule_id(), self.body(), no_rule::<R::V>(), t)
            } else {
                None
            };
        let env = |i: usize, t: &'a str| -> (r: Option<R>)
            ensures
                view_opt(r) == (if i == self.rule_id() {
                    rule_sem(self.rule_id(), self.body(), no_rule::<R::V>(), t@)
                } else {
                    None
                }),
            {
                if i == self.id {
                    self.call(t)
                } else {
                    None
                }
            };
        handle.call_in(&env, Ghost(senv), s)
    }
}

impl<'a, R: View, P: Parser<'a, R, Output = R>> Parser<'a, R> for FractalParser<R, P> {
    type Output = R;

    open spec fn wf(&self) -> bool {
        self.body().wf()
    }

    open spec fn sem(&self, env: spec_fn(usize, Seq<char>) -> Option<R::V>, s: Seq<char>) -> Option<
        R::V,
    > {
        rule_sem(self.rule_id(), self.body(), env, s)
    }

    fn call_in<F: Fn(usize, &'a str) -> Option<R>>(
        &self,
        env: &F,
        senv: Ghost<spec_fn(usize, Seq<char>) -> Option<R::V>>,
        s: &'a str,
    ) -> (r: Option<R>) {
        self.call_rule(env, senv, s)
    }

    proof fn lemma_bounds(&self, env: spec_fn(usize, Seq<char>) -> Option<R::V>, s: Seq<char>) {
        let body = self.body();
        body.lemma_bounds(rule_env(self.rule_id(), body, env, s.len()), s);
    }
}

impl<R, P: Bounded> Bounded for FractalParser<R, P> {
    open spec fn spec_min_len(&self) -> nat {
        self.body().spec_min_len()
    }

    open spec fn spec_max_len(&self) -> nat {
        self.body().spec_max_len()
    }

    fn min_len(&self) -> (r: usize) {
        self.parser.min_len()
    }

    fn max_len(&self) -> (r: usize) {
        self.parser.max_len()
    }
}

} // verus!
