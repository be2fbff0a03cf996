use crate::world::{Command, State};
use crate::fault::Fault;
use vstd::prelude::*;

verus! {

/// How a flush of a world's own queue ends: the state it leaves, the fault
/// that stopped it, if any, and the commands that the fault left unapplied, in
/// the order in which a later flush will take them.
pub struct Outcome<S, C> {
    pub state: S,
    pub fault: Option<Fault>,
    pub rest: Seq<C>,
}

/// Flushes `cmds` against `state`, oldest first and depth first: what a
/// command pushes is flushed, after the state has brought in what it held
/// back, before the command's next sibling is applied. `depth` bounds how deep
/// pushed commands may push in turn; `None` says it did not suffice.
pub open spec fn run<S: State, C: Command<S>>(cmds: Seq<C>, state: S, depth: nat) -> Option<
    Outcome<S, C>,
>
    decreases depth, cmds.len(),
{
    if cmds.len() == 0 {
        Some(Outcome { state, fault: None, rest: Seq::empty() })
    } else if depth == 0 {
        None
    } else {
        let e = cmds[0].effect(state);
        match e.fault {
            Some(f) => Some(
                Outcome { state: e.state, fault: Some(f), rest: cmds.skip(1) + e.queued },
            ),
            None => match run(e.queued, e.state.spawned(), (depth - 1) as nat) {
                None => None,
                Some(inner) => match inner.fault {
                    Some(f) => Some(
                        Outcome {
                            state: inner.state,
                            fault: Some(f),
                            rest: inner.rest + cmds.skip(1),
                        },
                    ),
                    None => run(cmds.skip(1), inner.state, depth),
                },
            },
        }
    }
}

/// The flush of `cmds` against `state` comes to an end: no command keeps
/// pushing commands that push commands without bound.
pub open spec fn settles<S: State, C: Command<S>>(cmds: Seq<C>, state: S) -> bool {
    exists|depth: nat| (#[trigger] run(cmds, state, depth)) is Some
}

/// A depth at which the flush of `cmds` against `state` ends, if it settles.
pub open spec fn settling_depth<S: State, C: Command<S>>(cmds: Seq<C>, state: S) -> nat {
    choose|depth: nat| (#[trigger] run(cmds, state, depth)) is Some
}

/// How the flush of `cmds` against `state` ends, if it settles.
pub open spec fn flushed<S: State, C: Command<S>>(cmds: Seq<C>, state: S) -> Outcome<S, C> {
    run(cmds, state, settling_depth(cmds, state))->0
}

/// A flush that ends within `depth` ends in the same way within any greater
/// depth.
pub proof fn lemma_run_monotone<S: State, C: Command<S>>(
    cmds: Seq<C>,
    state: S,
    depth: nat,
    more: nat,
)
    requires
        run(cmds, state, depth) is Some,
        depth <= more,
    ensures
        run(cmds, state, more) == run(cmds, state, depth),
    decreases depth, cmds.len(),
{
    if cmds.len() != 0 {
        let e = cmds[0].effect(state);
        if e.fault is None {
            lemma_run_monotone(e.queued, e.state.spawned(), (depth - 1) as nat, (more - 1) as nat);
            let inner = run(e.queued, e.state.spawned(), (depth - 1) as nat)->0;
            if inner.fault is None {
                lemma_run_monotone(cmds.skip(1), inner.state, depth, more);
            }
        }
    }
}

/// Whatever depth a flush ends within, it ends as `flushed` says.
pub proof fn lemma_run_flushed<S: State, C: Command<S>>(cmds: Seq<C>, state: S, depth: nat)
    requires
        run(cmds, state, depth) is Some,
    ensures
        settles(cmds, state),
        run(cmds, state, depth) == Some(flushed(cmds, state)),
{
    let d = settling_depth(cmds, state);
    if d <= depth {
        lemma_run_monotone(cmds, state, d, depth);
    } else {
        lemma_run_monotone(cmds, state, depth, d);
    }
}

/// How applying a queue of its own to a world ends: the state it leaves, the
/// fault that stopped it, if any, the commands that the queue keeps, and the
/// commands that are left with the world. `in_flush` says that the fault came
/// up while the world flushed its own queue, not from a command of this queue.
pub struct Applied<S, C> {
    pub state: S,
    pub fault: Option<Fault>,
    pub kept: Seq<C>,
    pub deferred: Seq<C>,
    pub in_flush: bool,
}

/// Applies `cmds`, which wait in a queue of their own, to a world in state
/// `state` whose own queue holds `deferred`: oldest first, and after each
/// command the world brings in what it held back and flushes its own queue.
/// `None` says that one of those flushes does not settle.
pub open spec fn apply_detached<S: State, C: Command<S>>(
    cmds: Seq<C>,
    deferred: Seq<C>,
    state: S,
) -> Option<Applied<S, C>>
    decreases cmds.len(),
{
    if cmds.len() == 0 {
        Some(Applied { state, fault: None, kept: Seq::empty(), deferred, in_flush: false })
    } else {
        let e = cmds[0].effect(state);
        match e.fault {
            Some(f) => Some(
                Applied {
                    state: e.state,
                    fault: Some(f),
                    kept: cmds.skip(1),
                    deferred: deferred + e.queued,
                    in_flush: false,
                },
            ),
            None => if !settles(deferred + e.queued, e.state.spawned()) {
                None
            } else {
                let inner = flushed(deferred + e.queued, e.state.spawned());
                match inner.fault {
                    Some(f) => Some(
                        Applied {
                            state: inner.state,
                            fault: Some(f),
                            kept: cmds.skip(1),
                            deferred: inner.rest,
                            in_flush: true,
                        },
                    ),
                    None => apply_detached(cmds.skip(1), Seq::empty(), inner.state),
                }
            },
        }
    }
}

/// Applies a queue of its own to a world as its owner does: the world first
/// brings in what it held back and flushes its own queue; a fault there leaves
/// the whole queue as it was. Then the queue's commands are applied as
/// `apply_detached` says.
pub open spec fn apply_all<S: State, C: Command<S>>(
    cmds: Seq<C>,
    deferred: Seq<C>,
    state: S,
) -> Option<Applied<S, C>> {
    if !settles(deferred, state.spawned()) {
        None
    } else {
        let first = flushed(deferred, state.spawned());
        match first.fault {
            Some(f) => Some(
                Applied {
                    state: first.state,
                    fault: Some(f),
                    kept: cmds,
                    deferred: first.rest,
                    in_flush: true,
                },
            ),
            None => apply_detached(cmds, Seq::empty(), first.state),
        }
    }
}

/// A queue that was applied without a fault keeps nothing, and leaves nothing
/// with the world unless it was empty from the start.
pub proof fn lemma_apply_complete<S: State, C: Command<S>>(
    cmds: Seq<C>,
    deferred: Seq<C>,
    state: S,
)
    requires
        apply_detached(cmds, deferred, state) is Some,
        apply_detached(cmds, deferred, state)->0.fault is None,
    ensures
        apply_detached(cmds, deferred, state)->0.kept == Seq::<C>::empty(),
        !apply_detached(cmds, deferred, state)->0.in_flush,
        apply_detached(cmds, deferred, state)->0.deferred == if cmds.len() == 0 {
            deferred
        } else {
            Seq::<C>::empty()
        },
    decreases cmds.len(),
{
    if cmds.len() != 0 {
        let e = cmds[0].effect(state);
        let inner = flushed(deferred + e.queued, e.state.spawned());
        lemma_apply_complete(cmds.skip(1), Seq::empty(), inner.state);
    }
}

} // verus!
