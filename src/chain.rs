//! The order in which a composed middleware chain runs.
//!
//! A chain `[m0, .., mn-1]` around a handler `h` composes as
//! `compose([], h) = h` and `compose([m, rest..], h) = ctx -> m(ctx, compose(rest, h))`.

use vstd::prelude::*;

verus! {

/// One event of running a composed chain: a layer is entered, the handler
/// runs, or a layer returns.
#[derive(PartialEq, Eq, Structural, Debug, Clone, Copy)]
pub enum Step {
    Enter(usize),
    Handler,
    Leave(usize),
}

/// The events of running layers `k..n` around the handler, where `stop` is
/// the layer, if any, that returns without calling its continuation.
pub open spec fn onion(k: nat, n: nat, stop: Option<nat>) -> Seq<Step>
    decreases n - k,
{
    if k >= n {
        seq![Step::Handler]
    } else if stop == Some(k) {
        seq![Step::Enter(k as usize), Step::Leave(k as usize)]
    } else {
        seq![Step::Enter(k as usize)] + onion(k + 1, n, stop) + seq![Step::Leave(k as usize)]
    }
}

/// Layers `k..n` entered in ascending order.
pub open spec fn enters(k: nat, n: nat) -> Seq<Step> {
    Seq::new((n - k) as nat, |i: int| Step::Enter((k + i) as usize))
}

/// Layers `k..n` left in descending order.
pub open spec fn leaves(k: nat, n: nat) -> Seq<Step> {
    Seq::new((n - k) as nat, |i: int| Step::Leave((n - 1 - i) as usize))
}

proof fn lemma_onion_closed(k: nat, n: nat, stop: Option<nat>)
    requires
        k <= n,
    ensures
        (stop matches Some(s) && k <= s < n) ==> onion(k, n, stop) == enters(k, stop->0 + 1) + leaves(k, stop->0 + 1),
        !(stop matches Some(s) && k <= s < n) ==> onion(k, n, stop) == enters(k, n) + seq![Step::Handler] + leaves(k, n),
    decreases n - k,
{
    if k < n && stop != Some(k) {
        lemma_onion_closed(k + 1, n, stop);
        if stop matches Some(s) && k <= s < n {
            assert(onion(k, n, stop) =~= enters(k, stop->0 + 1) + leaves(k, stop->0 + 1));
        } else {
            assert(onion(k, n, stop) =~= enters(k, n) + seq![Step::Handler] + leaves(k, n));
        }
    } else if k < n {
        assert(onion(k, n, stop) =~= enters(k, k + 1) + leaves(k, k + 1));
    } else {
        assert(onion(k, n, stop) =~= enters(k, n) + seq![Step::Handler] + leaves(k, n));
    }
}

/// When no layer stops early, every layer is entered in order, then the
/// handler runs, then every layer returns in reverse order.
pub proof fn lemma_onion_order(n: nat)
    ensures
        onion(0, n, None) == enters(0, n) + seq![Step::Handler] + leaves(0, n),
        forall|i: int| 0 <= i < n ==> onion(0, n, None)[i] == Step::Enter(i as usize),
        onion(0, n, None)[n as int] == Step::Handler,
        forall|i: int| n < i <= 2 * n ==> #[trigger] onion(0, n, None)[i] == Step::Leave((2 * n - i) as usize),
{
    lemma_onion_closed(0, n, None);
    let t = onion(0, n, None);
    assert forall|i: int| n < i <= 2 * n implies #[trigger] t[i] == Step::Leave((2 * n - i) as usize) by {
        assert(t[i] == leaves(0, n)[i - n - 1]);
    }
}

/// The reply that comes out of layers `k..n`: the handler's reply when no
/// layer is left, `own(k)` from the layer that stops, and otherwise what layer
/// `k` makes of the reply of the layers inside it.
pub open spec fn outcome<R>(
    k: nat,
    n: nat,
    stop: Option<nat>,
    handler: R,
    own: spec_fn(nat) -> R,
    post: spec_fn(nat, R) -> R,
) -> R
    decreases n - k,
{
    if k >= n {
        handler
    } else if stop == Some(k) {
        own(k)
    } else {
        post(k, outcome(k + 1, n, stop, handler, own, post))
    }
}

proof fn lemma_outcome_stops<R>(
    k: nat,
    n: nat,
    s: nat,
    handler_reply: R,
    other_reply: R,
    own: spec_fn(nat) -> R,
    post: spec_fn(nat, R) -> R,
)
    requires
        k <= s < n,
    ensures
        outcome(k, n, Some(s), handler_reply, own, post) == outcome(k, n, Some(s), other_reply, own, post),
    decreases n - k,
{
    if k < s {
        lemma_outcome_stops(k + 1, n, s, handler_reply, other_reply, own, post);
    }
}

/// When layer `s` returns without calling its continuation, no later layer
/// is entered and the handler does not run: layers `0..=s` are entered and
/// then return, innermost first. The reply that comes out does not depend on
/// the handler's, and when the outermost layer stops it is that layer's own.
pub proof fn lemma_short_circuit<R>(n: nat, s: nat, handler_reply: R, other_reply: R, own: spec_fn(nat) -> R, post: spec_fn(nat, R) -> R)
    requires
        s < n,
    ensures
        onion(0, n, Some(s)) == enters(0, s + 1) + leaves(0, s + 1),
        !onion(0, n, Some(s)).contains(Step::Handler),
        forall|j: usize| s < j ==> !onion(0, n, Some(s)).contains(Step::Enter(j)),
        outcome(0, n, Some(s), handler_reply, own, post) == outcome(0, n, Some(s), other_reply, own, post),
        s == 0 ==> outcome(0, n, Some(s), handler_reply, own, post) == own(0),
{
    lemma_outcome_stops(0, n, s, handler_reply, other_reply, own, post);
    lemma_onion_closed(0, n, Some(s));
    let t = onion(0, n, Some(s));
    assert forall|i: int| 0 <= i < t.len() implies t[i] != Step::Handler && (t[i] matches Step::Enter(j) ==> j <= s) by {
        if i < s + 1 {
            assert(t[i] == enters(0, s + 1)[i]);
        } else {
            assert(t[i] == leaves(0, s + 1)[i - (s + 1)]);
        }
    }
}

/// The events of running a chain of `n` layers around the handler, where
/// `stop` is the layer, if any, that returns without calling its continuation.
pub fn trace(n: usize, stop: Option<usize>) -> (r: Vec<Step>)
    ensures
        r@ == onion(0, n as nat, match stop { Some(s) => Some(s as nat), None => None }),
{
    let ghost st = match stop { Some(s) => Some(s as nat), None => None::<nat> };
    let (depth, runs) = match stop {
        Some(s) => if s < n {
            (s + 1, false)
        } else {
            (n, true)
        },
        None => (n, true),
    };
    let mut r: Vec<Step> = Vec::new();
    let mut i: usize = 0;
    while i < depth
        invariant
            i <= depth,
            r@ == enters(0, i as nat),
        decreases depth - i,
    {
        r.push(Step::Enter(i));
        assert(r@ =~= enters(0, (i + 1) as nat));
        i = i + 1;
    }
    if runs {
        r.push(Step::Handler);
    }
    let ghost mid = r@;
    let mut j: usize = depth;
    while j > 0
        invariant
            j <= depth,
            r@ == mid + Seq::new((depth - j) as nat, |t: int| Step::Leave((depth - 1 - t) as usize)),
        decreases j,
    {
        let ghost before = r@;
        r.push(Step::Leave(j - 1));
        assert(r@ =~= mid + Seq::new((depth - (j - 1)) as nat, |t: int| Step::Leave((depth - 1 - t) as usize)));
        j = j - 1;
    }
    proof {
        lemma_onion_closed(0, n as nat, st);
        if runs {
            assert(r@ =~= enters(0, n as nat) + seq![Step::Handler] + leaves(0, n as nat));
        } else {
            assert(r@ =~= enters(0, depth as nat) + leaves(0, depth as nat));
        }
    }
    r
}

} // verus!
