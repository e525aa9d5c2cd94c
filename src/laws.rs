use vstd::prelude::*;
use crate::parser::{Bounded, Parser, PostProcessedParser, MappedParser};
use crate::fractals::{FractalParser, rule_env};
use crate::parsers::{
    Alt2, Digits, Seq2Fwd, Seq2Rev, Str, all_digits, first_split, last_split, pair_at, split_ok,
    window_hi, window_lo, lemma_first_split_within, lemma_last_split_within,
};

verus! {

/// Whatever a matcher accepts has a length within its declared bounds.
pub proof fn law_bounds_sound<'a, R: View, P: Parser<'a, R>>(
    p: P,
    env: spec_fn(usize, Seq<char>) -> Option<R::V>,
    s: Seq<char>,
)
    requires
        p.wf(),
        s.len() <= usize::MAX,
    ensures
        p.sem(env, s) is Some ==> p.spec_min_len() <= s.len() <= p.spec_max_len(),
{
    p.lemma_bounds(env, s);
}

/// Where the left alternative succeeds, the alternation yields exactly its
/// outcome, whatever the right one is.
pub proof fn law_alt_left_bias<'a, R: View, P1: Parser<'a, R>, P2: Parser<'a, R, Output = P1::Output>>(
    a: P1,
    b: P2,
    env: spec_fn(usize, Seq<char>) -> Option<R::V>,
    s: Seq<char>,
)
    requires
        a.wf(),
        s.len() <= usize::MAX,
        a.sem(env, s) is Some,
    ensures
        Alt2(a, b).sem(env, s) == a.sem(env, s),
{
    a.lemma_bounds(env, s);
}

/// The forward sequencer succeeds exactly where some split point within the
/// bounds lets both sides match, and then yields the parts at the smallest
/// such point.
pub proof fn law_forward_scan_smallest<'a, R: View, P1: Parser<'a, R>, P2: Parser<'a, R>>(
    p: Seq2Fwd<P1, P2>,
    env: spec_fn(usize, Seq<char>) -> Option<R::V>,
    s: Seq<char>,
)
    ensures
        ({
            let lo = window_lo(p.0, p.1, s.len() as int);
            let hi = window_hi(p.0, p.1, s.len() as int);
            &&& p.sem(env, s) is Some <==> exists|i: int|
                lo <= i <= hi && #[trigger] split_ok(p.0, p.1, env, s, i)
            &&& forall|i: int|
                lo <= i <= hi && #[trigger] split_ok(p.0, p.1, env, s, i) && (forall|j: int|
                    lo <= j < i ==> !#[trigger] split_ok(p.0, p.1, env, s, j)) ==> p.sem(env, s)
                    == pair_at(p.0, p.1, env, s, Some(i))
        }),
{
    let lo = window_lo(p.0, p.1, s.len() as int);
    let hi = window_hi(p.0, p.1, s.len() as int);
    lemma_first_split_within(p.0, p.1, env, s, lo, hi);
    assert forall|i: int|
        lo <= i <= hi && #[trigger] split_ok(p.0, p.1, env, s, i) && (forall|j: int|
            lo <= j < i ==> !#[trigger] split_ok(p.0, p.1, env, s, j)) implies p.sem(env, s)
        == pair_at(p.0, p.1, env, s, Some(i)) by {
        let k = first_split(p.0, p.1, env, s, lo, hi)->0;
        assert(!(k < i));
        assert(!(i < k));
    }
}

/// The reverse sequencer succeeds exactly where some split point within the
/// bounds lets both sides match, and then yields the parts at the largest
/// such point.
pub proof fn law_reverse_scan_largest<'a, R: View, P1: Parser<'a, R>, P2: Parser<'a, R>>(
    p: Seq2Rev<P1, P2>,
    env: spec_fn(usize, Seq<char>) -> Option<R::V>,
    s: Seq<char>,
)
    ensures
        ({
            let lo = window_lo(p.0, p.1, s.len() as int);
            let hi = window_hi(p.0, p.1, s.len() as int);
            &&& p.sem(env, s) is Some <==> exists|i: int|
                lo <= i <= hi && #[trigger] split_ok(p.0, p.1, env, s, i)
            &&& forall|i: int|
                lo <= i <= hi && #[trigger] split_ok(p.0, p.1, env, s, i) && (forall|j: int|
                    i < j <= hi ==> !#[trigger] split_ok(p.0, p.1, env, s, j)) ==> p.sem(env, s)
                    == pair_at(p.0, p.1, env, s, Some(i))
        }),
{
    let lo = window_lo(p.0, p.1, s.len() as int);
    let hi = window_hi(p.0, p.1, s.len() as int);
    lemma_last_split_within(p.0, p.1, env, s, lo, hi);
    assert forall|i: int|
        lo <= i <= hi && #[trigger] split_ok(p.0, p.1, env, s, i) && (forall|j: int|
            i < j <= hi ==> !#[trigger] split_ok(p.0, p.1, env, s, j)) implies p.sem(env, s)
        == pair_at(p.0, p.1, env, s, Some(i)) by {
        let k = last_split(p.0, p.1, env, s, lo, hi)->0;
        assert(!(k < i));
        assert(!(i < k));
    }
}

/// Pruning by bounds never loses a split: a split point outside the bounds
/// window never lets both sides match, so each sequencer succeeds exactly
/// where some split point in `0..=s.len()` lets both sides match, and then
/// yields the parts at the smallest (forward) or largest (reverse) of them.
pub proof fn law_sequence_any_split<'a, R: View, P1: Parser<'a, R>, P2: Parser<'a, R>>(
    p: Seq2Fwd<P1, P2>,
    q: Seq2Rev<P1, P2>,
    env: spec_fn(usize, Seq<char>) -> Option<R::V>,
    s: Seq<char>,
)
    requires
        p.0 == q.0,
        p.1 == q.1,
        p.0.wf(),
        p.1.wf(),
        s.len() <= usize::MAX,
    ensures
        p.sem(env, s) is Some <==> exists|i: int|
            0 <= i <= s.len() && #[trigger] split_ok(p.0, p.1, env, s, i),
        q.sem(env, s) is Some <==> exists|i: int|
            0 <= i <= s.len() && #[trigger] split_ok(p.0, p.1, env, s, i),
        forall|i: int|
            0 <= i <= s.len() && #[trigger] split_ok(p.0, p.1, env, s, i) && (forall|j: int|
                0 <= j < i ==> !#[trigger] split_ok(p.0, p.1, env, s, j)) ==> p.sem(env, s)
                == pair_at(p.0, p.1, env, s, Some(i)),
        forall|i: int|
            0 <= i <= s.len() && #[trigger] split_ok(p.0, p.1, env, s, i) && (forall|j: int|
                i < j <= s.len() ==> !#[trigger] split_ok(p.0, p.1, env, s, j)) ==> q.sem(env, s)
                == pair_at(p.0, p.1, env, s, Some(i)),
{
    let n = s.len() as int;
    let lo = window_lo(p.0, p.1, n);
    let hi = window_hi(p.0, p.1, n);
    assert forall|i: int| 0 <= i <= n && #[trigger] split_ok(p.0, p.1, env, s, i) implies lo <= i
        <= hi by {
        p.0.lemma_bounds(env, s.subrange(0, i));
        p.1.lemma_bounds(env, s.subrange(i, n));
    }
    law_forward_scan_smallest(p, env, s);
    law_reverse_scan_largest(q, env, s);
}

/// A sequencer that succeeds has cut the whole slice into two contiguous
/// parts, each accepted in full by its side.
pub proof fn law_sequence_covers_slice<'a, R: View, P1: Parser<'a, R>, P2: Parser<'a, R>>(
    p: Seq2Fwd<P1, P2>,
    q: Seq2Rev<P1, P2>,
    env: spec_fn(usize, Seq<char>) -> Option<R::V>,
    s: Seq<char>,
)
    requires
        p.0 == q.0,
        p.1 == q.1,
    ensures
        p.sem(env, s) is Some || q.sem(env, s) is Some ==> exists|i: int|
            0 <= i <= s.len() && #[trigger] split_ok(p.0, p.1, env, s, i) && s =~= s.subrange(0, i)
                + s.subrange(i, s.len() as int),
{
    let lo = window_lo(p.0, p.1, s.len() as int);
    let hi = window_hi(p.0, p.1, s.len() as int);
    lemma_first_split_within(p.0, p.1, env, s, lo, hi);
    lemma_last_split_within(p.0, p.1, env, s, lo, hi);
    if p.sem(env, s) is Some {
        let i = first_split(p.0, p.1, env, s, lo, hi)->0;
        assert(s =~= s.subrange(0, i) + s.subrange(i, s.len() as int));
    } else if q.sem(env, s) is Some {
        let i = last_split(p.0, p.1, env, s, lo, hi)->0;
        assert(s =~= s.subrange(0, i) + s.subrange(i, s.len() as int));
    }
}

/// A digit-run matcher accepts a slice only as a whole: it yields the slice
/// itself, and only where every character of it is a digit.
pub proof fn law_digits_total<'a, R: View>(
    d: Digits,
    env: spec_fn(usize, Seq<char>) -> Option<R::V>,
    s: Seq<char>,
)
    ensures
        <Digits as Parser<'a, R>>::sem(&d, env, s) is Some <==> (s.len() > 0 && all_digits(s, d.0)),
        <Digits as Parser<'a, R>>::sem(&d, env, s) is Some ==> <Digits as Parser<'a, R>>::sem(
            &d,
            env,
            s,
        ) == Some(s),
{
}

/// A literal matcher succeeds on its literal and on nothing else.
pub proof fn law_literal_exact<'a, 'b, R: View>(
    lit: Str<'b>,
    env: spec_fn(usize, Seq<char>) -> Option<R::V>,
    s: Seq<char>,
)
    ensures
        <Str<'b> as Parser<'a, R>>::sem(&lit, env, s) is Some <==> s == lit.0@,
        <Str<'b> as Parser<'a, R>>::sem(&lit, env, s) is Some ==> <Str<'b> as Parser<'a, R>>::sem(
            &lit,
            env,
            s,
        ) == Some(s),
{
}

/// Post-processing with the identity on outcomes changes nothing: the
/// result is well formed with the same bounds, and yields what the wrapped
/// matcher yields on every slice whose outcome some value carries.
pub proof fn law_post_identity<'a, R: View, P: Parser<'a, R>, M>(
    p: P,
    f: M,
    env: spec_fn(usize, Seq<char>) -> Option<R::V>,
    s: Seq<char>,
) where M: Fn(Option<P::Output>) -> Option<P::Output>
    requires
        forall|a: Option<P::Output>| #[trigger] f.requires((a,)),
        forall|a: Option<P::Output>, b: Option<P::Output>| #[trigger] f.ensures((a,), b) <==> b == a,
        p.sem(env, s) is Some ==> exists|x: P::Output| x@ == p.sem(env, s)->0,
    ensures
        (PostProcessedParser { parser: p, mapping: f }).wf() == p.wf(),
        (PostProcessedParser { parser: p, mapping: f }).spec_min_len() == p.spec_min_len(),
        (PostProcessedParser { parser: p, mapping: f }).spec_max_len() == p.spec_max_len(),
        (PostProcessedParser { parser: p, mapping: f }).sem(env, s) == p.sem(env, s),
{
    if p.sem(env, s) is Some {
        let x = choose|x: P::Output| x@ == p.sem(env, s)->0;
        assert(f.ensures((Some(x),), Some(x)));
    }
}

/// Mapping with the identity changes nothing: the result is well formed
/// with the same bounds, and yields what the wrapped matcher yields on every
/// slice whose outcome some value carries.
pub proof fn law_map_identity<'a, R: View, P: Parser<'a, R>, M>(
    p: P,
    f: M,
    env: spec_fn(usize, Seq<char>) -> Option<R::V>,
    s: Seq<char>,
) where M: Fn(P::Output) -> P::Output
    requires
        forall|a: P::Output| #[trigger] f.requires((a,)),
        forall|a: P::Output, b: P::Output| #[trigger] f.ensures((a,), b) <==> b == a,
        p.sem(env, s) is Some ==> exists|x: P::Output| x@ == p.sem(env, s)->0,
    ensures
        (MappedParser { parser: p, mapping: f }).wf() == p.wf(),
        (MappedParser { parser: p, mapping: f }).spec_min_len() == p.spec_min_len(),
        (MappedParser { parser: p, mapping: f }).spec_max_len() == p.spec_max_len(),
        (MappedParser { parser: p, mapping: f }).sem(env, s) == p.sem(env, s),
{
    if p.sem(env, s) is Some {
        let x = choose|x: P::Output| x@ == p.sem(env, s)->0;
        assert(f.ensures((x,), x));
    }
}

/// A rule yields, on every slice, what its body yields there when its own
/// handle stands for the rule itself on shorter slices (and fails on the
/// slice itself), and every other handle keeps the meaning it has around
/// the rule: an enclosing rule's handle still names the enclosing rule.
pub proof fn law_rule_unfolds<'a, R: View, P: Parser<'a, R, Output = R>>(
    rule: FractalParser<R, P>,
    env: spec_fn(usize, Seq<char>) -> Option<R::V>,
    s: Seq<char>,
)
    ensures
        rule.sem(env, s) == rule.body().sem(rule_env(rule.rule_id(), rule.body(), env, s.len()), s),
        forall|t: Seq<char>|
            t.len() < s.len() ==> #[trigger] rule_env(rule.rule_id(), rule.body(), env, s.len())(
                rule.rule_id(),
                t,
            ) == rule.sem(env, t),
        forall|t: Seq<char>|
            t.len() >= s.len() ==> #[trigger] rule_env(rule.rule_id(), rule.body(), env, s.len())(
                rule.rule_id(),
                t,
            ) is None,
        forall|i: usize, t: Seq<char>|
            i != rule.rule_id() ==> #[trigger] rule_env(rule.rule_id(), rule.body(), env, s.len())(
                i,
                t,
            ) == env(i, t),
{
}

} // verus!
