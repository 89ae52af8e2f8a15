//! Things to do in order, up to an error.

use vstd::prelude::*;

use crate::error::{Error, ErrorView};
use crate::text::views;

verus! {

/// Commands, and the error that stops behind them, if one does.
pub struct Trace<C> {
    pub commands: Seq<C>,
    pub stop: Option<ErrorView>,
}

pub open spec fn does<C>(commands: Seq<C>) -> Trace<C> {
    Trace { commands, stop: None }
}

pub open spec fn stops<C>(e: ErrorView) -> Trace<C> {
    Trace { commands: seq![], stop: Some(e) }
}

/// One trace behind the other; nothing comes behind an error.
pub open spec fn before<C>(a: Trace<C>, b: Trace<C>) -> Trace<C> {
    if a.stop is Some {
        a
    } else {
        Trace { commands: a.commands + b.commands, stop: b.stop }
    }
}

/// The first `n` traces of a row, one behind the other.
pub open spec fn chain<C>(f: spec_fn(int) -> Trace<C>, n: nat) -> Trace<C>
    decreases n,
{
    if n == 0 {
        does(seq![])
    } else {
        before(chain(f, (n - 1) as nat), f(n - 1))
    }
}

/// Nothing comes behind the first error of a row.
pub proof fn lemma_chain_stays_stopped<C>(f: spec_fn(int) -> Trace<C>, k: nat, n: nat)
    requires
        k <= n,
        chain(f, k).stop is Some,
    ensures
        chain(f, n) == chain(f, k),
    decreases n,
{
    if k < n {
        lemma_chain_stays_stopped(f, k, (n - 1) as nat);
    }
}

/// A row that does not stop has no trace that stops, and holds the commands
/// of each.
pub proof fn lemma_chain_runs_through<C>(f: spec_fn(int) -> Trace<C>, n: nat)
    requires
        chain(f, n).stop is None,
    ensures
        forall|i: int| 0 <= i < n ==> (#[trigger] f(i)).stop is None,
        forall|c: C|
            chain(f, n).commands.contains(c) ==> exists|i: int|
                0 <= i < n && (#[trigger] f(i)).commands.contains(c),
    decreases n,
{
    if n > 0 {
        lemma_chain_runs_through(f, (n - 1) as nat);
        let a = chain(f, (n - 1) as nat).commands;
        let b = f(n - 1).commands;
        assert forall|c: C| chain(f, n).commands.contains(c) implies exists|i: int|
            0 <= i < n && (#[trigger] f(i)).commands.contains(c) by {
            let k = choose|k: int| 0 <= k < (a + b).len() && (a + b)[k] == c;
            if k < a.len() {
                assert(a[k] == c);
                assert(a.contains(c));
            } else {
                assert(b[k - a.len()] == c);
                assert(f(n - 1).commands.contains(c));
            }
        }
    }
}

/// The commands so far and the outcome so far are those of a trace.
pub open spec fn traces<T: View>(
    old_commands: Seq<T>,
    new_commands: Seq<T>,
    r: Result<(), Error>,
    t: Trace<T::V>,
) -> bool {
    &&& views(new_commands) == views(old_commands) + t.commands
    &&& match r {
        Ok(_) => t.stop is None,
        Err(e) => t.stop == Some(e@),
    }
}

} // verus!
