use crate::model::{
    apply_all, apply_detached, flushed, lemma_apply_complete, lemma_run_flushed, run, settles,
    settling_depth, Applied, Outcome,
};
use crate::world::{Command, State};
use vstd::prelude::*;

verus! {

/// Applied one after the other from `state`, no command of `cmds` raises a
/// fault or pushes a command. `state` is the state the first command meets;
/// after each command the state brings in what it held back.
pub open spec fn calm<S: State, C: Command<S>>(cmds: Seq<C>, state: S) -> bool
    decreases cmds.len(),
{
    cmds.len() == 0 || {
        let e = cmds[0].effect(state);
        &&& e.fault is None
        &&& e.queued.len() == 0
        &&& calm(cmds.skip(1), e.state.spawned())
    }
}

/// The state that `cmds` leave when each is applied once, in the order of the
/// sequence, starting from `state`.
pub open spec fn in_order<S: State, C: Command<S>>(cmds: Seq<C>, state: S) -> S
    decreases cmds.len(),
{
    if cmds.len() == 0 {
        state
    } else {
        in_order(cmds.skip(1), cmds[0].effect(state).state.spawned())
    }
}

/// Flushing nothing settles at once, changes nothing and leaves nothing.
pub proof fn law_flush_of_nothing<S: State, C: Command<S>>(state: S)
    ensures
        settles(Seq::<C>::empty(), state),
        flushed(Seq::<C>::empty(), state) == (Outcome::<S, C> {
            state,
            fault: None,
            rest: Seq::empty(),
        }),
{
    lemma_run_flushed(Seq::<C>::empty(), state, 0);
}

/// Applying an empty queue to a world whose own queue is empty applies no
/// command and leaves both queues empty; the state has only brought in what
/// it held back.
pub proof fn law_empty_apply<S: State, C: Command<S>>(state: S)
    ensures
        apply_all(Seq::<C>::empty(), Seq::<C>::empty(), state) == Some(
            Applied::<S, C> {
                state: state.spawned(),
                fault: None,
                kept: Seq::empty(),
                deferred: Seq::empty(),
                in_flush: false,
            },
        ),
{
    law_flush_of_nothing::<S, C>(state.spawned());
}

/// Commands that push nothing and raise no fault are applied from a queue of
/// their own each exactly once, in the order in which they were pushed.
pub proof fn lemma_detached_in_order<S: State, C: Command<S>>(cmds: Seq<C>, state: S)
    requires
        calm(cmds, state),
    ensures
        apply_detached(cmds, Seq::empty(), state) == Some(
            Applied::<S, C> {
                state: in_order(cmds, state),
                fault: None,
                kept: Seq::empty(),
                deferred: Seq::empty(),
                in_flush: false,
            },
        ),
    decreases cmds.len(),
{
    if cmds.len() != 0 {
        let e = cmds[0].effect(state);
        assert(Seq::<C>::empty() + e.queued =~= Seq::<C>::empty());
        law_flush_of_nothing::<S, C>(e.state.spawned());
        lemma_detached_in_order(cmds.skip(1), e.state.spawned());
    }
}

/// `apply` on a queue whose commands push nothing and raise no fault, against
/// a world whose own queue is empty, applies each command exactly once, in the
/// order in which they were pushed, and empties the queue.
pub proof fn law_apply_in_push_order<S: State, C: Command<S>>(cmds: Seq<C>, state: S)
    requires
        calm(cmds, state.spawned()),
    ensures
        apply_all(cmds, Seq::empty(), state) == Some(
            Applied::<S, C> {
                state: in_order(cmds, state.spawned()),
                fault: None,
                kept: Seq::empty(),
                deferred: Seq::empty(),
                in_flush: false,
            },
        ),
{
    law_flush_of_nothing::<S, C>(state.spawned());
    lemma_detached_in_order(cmds, state.spawned());
}

/// Calm commands in the world's own queue are flushed within one level.
proof fn lemma_run_in_order<S: State, C: Command<S>>(cmds: Seq<C>, state: S)
    requires
        calm(cmds, state),
    ensures
        run(cmds, state, 1) == Some(
            Outcome::<S, C> { state: in_order(cmds, state), fault: None, rest: Seq::empty() },
        ),
    decreases cmds.len(),
{
    if cmds.len() != 0 {
        let e = cmds[0].effect(state);
        assert(e.queued =~= Seq::<C>::empty());
        assert(run(e.queued, e.state.spawned(), 0) is Some);
        lemma_run_in_order(cmds.skip(1), e.state.spawned());
    }
}

/// A flush of the world's own queue, when its commands push nothing and raise
/// no fault, settles, applies each command exactly once, in the order in which
/// they were pushed, and leaves nothing behind.
pub proof fn law_flush_in_push_order<S: State, C: Command<S>>(cmds: Seq<C>, state: S)
    requires
        calm(cmds, state),
    ensures
        settles(cmds, state),
        flushed(cmds, state) == (Outcome::<S, C> {
            state: in_order(cmds, state),
            fault: None,
            rest: Seq::empty(),
        }),
{
    lemma_run_in_order(cmds, state);
    lemma_run_flushed(cmds, state, 1);
}

/// A fault after calm commands, within one level of the world's own queue.
proof fn lemma_run_fault_survival<S: State, C: Command<S>>(
    before: Seq<C>,
    faulty: C,
    after: Seq<C>,
    state: S,
)
    requires
        calm(before, state),
        faulty.effect(in_order(before, state)).fault is Some,
    ensures
        run(before + seq![faulty] + after, state, 1) == Some(
            Outcome::<S, C> {
                state: faulty.effect(in_order(before, state)).state,
                fault: faulty.effect(in_order(before, state)).fault,
                rest: after + faulty.effect(in_order(before, state)).queued,
            },
        ),
    decreases before.len(),
{
    let all = before + seq![faulty] + after;
    if before.len() == 0 {
        assert(all[0] == faulty);
        assert(all.skip(1) =~= after);
    } else {
        let e = before[0].effect(state);
        assert(all[0] == before[0]);
        assert(all.skip(1) =~= before.skip(1) + seq![faulty] + after);
        assert(e.queued =~= Seq::<C>::empty());
        assert(run(e.queued, e.state.spawned(), 0) is Some);
        lemma_run_fault_survival(before.skip(1), faulty, after, e.state.spawned());
    }
}

/// In a flush of the world's own queue, when the commands of `before` are calm
/// and `faulty` then raises a fault, the flush settles, the commands before it
/// have been applied in order, the fault is handed on, and what is left for a
/// later flush is `after`, in order, followed by what `faulty` pushed before
/// it failed.
pub proof fn law_flush_fault_survival<S: State, C: Command<S>>(
    before: Seq<C>,
    faulty: C,
    after: Seq<C>,
    state: S,
)
    requires
        calm(before, state),
        faulty.effect(in_order(before, state)).fault is Some,
    ensures
        settles(before + seq![faulty] + after, state),
        flushed(before + seq![faulty] + after, state) == (Outcome::<S, C> {
            state: faulty.effect(in_order(before, state)).state,
            fault: faulty.effect(in_order(before, state)).fault,
            rest: after + faulty.effect(in_order(before, state)).queued,
        }),
{
    lemma_run_fault_survival(before, faulty, after, state);
    lemma_run_flushed(before + seq![faulty] + after, state, 1);
}

/// A flush of the world's own queue goes depth first: when the oldest pending
/// command has been applied without a fault, everything it pushed is flushed
/// to the end, descendants included, before the command's next sibling is
/// applied. A fault in that inner flush stops the outer one too, and what the
/// inner flush left comes before the siblings.
pub proof fn law_depth_first<S: State, C: Command<S>>(cmds: Seq<C>, state: S)
    requires
        cmds.len() > 0,
        settles(cmds, state),
        cmds[0].effect(state).fault is None,
    ensures
        ({
            let e = cmds[0].effect(state);
            let inner = flushed(e.queued, e.state.spawned());
            &&& settles(e.queued, e.state.spawned())
            &&& inner.fault is None ==> settles(cmds.skip(1), inner.state) && flushed(cmds, state)
                == flushed(cmds.skip(1), inner.state)
            &&& inner.fault is Some ==> flushed(cmds, state) == (Outcome::<S, C> {
                state: inner.state,
                fault: inner.fault,
                rest: inner.rest + cmds.skip(1),
            })
        }),
{
    let depth = settling_depth(cmds, state);
    let e = cmds[0].effect(state);
    assert(run(cmds, state, depth) is Some);
    lemma_run_flushed(e.queued, e.state.spawned(), (depth - 1) as nat);
    let inner = flushed(e.queued, e.state.spawned());
    if inner.fault is None {
        lemma_run_flushed(cmds.skip(1), inner.state, depth);
    }
}

/// Applying a queue of its own goes depth first: when the oldest command has
/// been applied without a fault, the world flushes what the command pushed to
/// the end before the next command of the queue is applied.
pub proof fn law_apply_depth_first<S: State, C: Command<S>>(cmds: Seq<C>, state: S)
    requires
        cmds.len() > 0,
        cmds[0].effect(state).fault is None,
        settles(cmds[0].effect(state).queued, cmds[0].effect(state).state.spawned()),
        flushed(cmds[0].effect(state).queued, cmds[0].effect(state).state.spawned()).fault is None,
    ensures
        apply_detached(cmds, Seq::empty(), state) == apply_detached(
            cmds.skip(1),
            Seq::empty(),
            flushed(cmds[0].effect(state).queued, cmds[0].effect(state).state.spawned()).state,
        ),
{
    let e = cmds[0].effect(state);
    assert(Seq::<C>::empty() + e.queued =~= e.queued);
}

/// For a queue of its own: when the commands of `before` are calm and
/// `faulty` then raises a fault, the commands before it have been applied in
/// order, the fault is handed on, and exactly the commands of `after` stay
/// queued, in order. What `faulty` pushed before it failed waits
/// in the world's own queue.
pub proof fn lemma_detached_fault_survival<S: State, C: Command<S>>(
    before: Seq<C>,
    faulty: C,
    after: Seq<C>,
    state: S,
)
    requires
        calm(before, state),
        faulty.effect(in_order(before, state)).fault is Some,
    ensures
        apply_detached(before + seq![faulty] + after, Seq::empty(), state) == Some(
            Applied::<S, C> {
                state: faulty.effect(in_order(before, state)).state,
                fault: faulty.effect(in_order(before, state)).fault,
                kept: after,
                deferred: faulty.effect(in_order(before, state)).queued,
                in_flush: false,
            },
        ),
    decreases before.len(),
{
    let all = before + seq![faulty] + after;
    if before.len() == 0 {
        assert(all[0] == faulty);
        assert(all.skip(1) =~= after);
        assert(Seq::<C>::empty() + faulty.effect(state).queued =~= faulty.effect(state).queued);
    } else {
        let e = before[0].effect(state);
        assert(all[0] == before[0]);
        assert(all.skip(1) =~= before.skip(1) + seq![faulty] + after);
        assert(Seq::<C>::empty() + e.queued =~= Seq::<C>::empty());
        law_flush_of_nothing::<S, C>(e.state.spawned());
        lemma_detached_fault_survival(before.skip(1), faulty, after, e.state.spawned());
    }
}

/// `apply` on the queue `before + [faulty] + after`, against a world whose
/// own queue is empty, applies the calm commands of `before` in
/// order, hands on the fault that `faulty` raises, and keeps exactly `after`
/// queued, in order, for a later `apply`.
pub proof fn law_fault_survival<S: State, C: Command<S>>(
    before: Seq<C>,
    faulty: C,
    after: Seq<C>,
    state: S,
)
    requires
        calm(before, state.spawned()),
        faulty.effect(in_order(before, state.spawned())).fault is Some,
    ensures
        apply_all(before + seq![faulty] + after, Seq::empty(), state) == Some(
            Applied::<S, C> {
                state: faulty.effect(in_order(before, state.spawned())).state,
                fault: faulty.effect(in_order(before, state.spawned())).fault,
                kept: after,
                deferred: faulty.effect(in_order(before, state.spawned())).queued,
                in_flush: false,
            },
        ),
{
    law_flush_of_nothing::<S, C>(state.spawned());
    lemma_detached_fault_survival(before, faulty, after, state.spawned());
}

/// Applying `first + second` from a queue of its own goes as applying
/// `first` does and then, unless a fault stopped that, as applying `second`
/// does from where `first` ended.
proof fn lemma_detached_concat<S: State, C: Command<S>>(
    first: Seq<C>,
    second: Seq<C>,
    deferred: Seq<C>,
    state: S,
)
    requires
        apply_detached(first + second, deferred, state) is Some,
    ensures
        apply_detached(first, deferred, state) is Some,
        apply_detached(first, deferred, state)->0.fault is None ==> apply_detached(
            first + second,
            deferred,
            state,
        ) == apply_detached(
            second,
            apply_detached(first, deferred, state)->0.deferred,
            apply_detached(first, deferred, state)->0.state,
        ),
    decreases first.len(),
{
    if first.len() == 0 {
        assert(first + second =~= second);
    } else {
        let e = first[0].effect(state);
        assert((first + second)[0] == first[0]);
        assert((first + second).skip(1) =~= first.skip(1) + second);
        if e.fault is None {
            let inner = flushed(deferred + e.queued, e.state.spawned());
            if inner.fault is None {
                lemma_detached_concat(first.skip(1), second, Seq::empty(), inner.state);
                if apply_detached(first.skip(1), Seq::empty(), inner.state)->0.fault is None {
                    lemma_apply_complete(first.skip(1), Seq::empty(), inner.state);
                }
            }
        }
    }
}

/// `apply` on a queue that holds the commands of `first` followed by those of
/// `second`, as `append` leaves them, goes as `apply` on `first` alone
/// does and then, unless a fault stopped that, applies the commands of
/// `second` from the state that `first` left, each followed by a flush of the
/// world.
pub proof fn law_merge_keeps_order<S: State, C: Command<S>>(
    first: Seq<C>,
    second: Seq<C>,
    deferred: Seq<C>,
    state: S,
)
    requires
        apply_all(first + second, deferred, state) is Some,
    ensures
        apply_all(first, deferred, state) is Some,
        apply_all(first, deferred, state)->0.fault is None ==> apply_all(
            first + second,
            deferred,
            state,
        ) == apply_detached(second, Seq::empty(), apply_all(first, deferred, state)->0.state),
{
    let opening = flushed(deferred, state.spawned());
    if opening.fault is None {
        lemma_detached_concat(first, second, Seq::empty(), opening.state);
        if apply_detached(first, Seq::empty(), opening.state)->0.fault is None {
            lemma_apply_complete(first, Seq::empty(), opening.state);
        }
    }
}

/// In a flush of the world's own queue, within `depth` levels, the commands
/// of `first + second` are flushed as those of `first` are and then, unless a
/// fault stopped that, as those of `second` are from where `first` ended.
proof fn lemma_run_concat<S: State, C: Command<S>>(
    first: Seq<C>,
    second: Seq<C>,
    state: S,
    depth: nat,
)
    requires
        run(first + second, state, depth) is Some,
    ensures
        run(first, state, depth) is Some,
        run(first, state, depth)->0.fault is None ==> run(first + second, state, depth) == run(
            second,
            run(first, state, depth)->0.state,
            depth,
        ),
    decreases first.len(),
{
    if first.len() == 0 {
        assert(first + second =~= second);
    } else {
        let e = first[0].effect(state);
        assert((first + second)[0] == first[0]);
        assert((first + second).skip(1) =~= first.skip(1) + second);
        if e.fault is None {
            let inner = run(e.queued, e.state.spawned(), (depth - 1) as nat)->0;
            if inner.fault is None {
                lemma_run_concat(first.skip(1), second, inner.state, depth);
            }
        }
    }
}

/// In the world's own queue, a flush of the commands of `first` followed by
/// those of `second` goes as the flush of
/// `first` does and then, unless a fault stopped that, as the flush of
/// `second` does from the state that `first` left.
pub proof fn law_flush_keeps_order<S: State, C: Command<S>>(first: Seq<C>, second: Seq<C>, state: S)
    requires
        settles(first + second, state),
    ensures
        settles(first, state),
        flushed(first, state).fault is None ==> settles(second, flushed(first, state).state)
            && flushed(first + second, state) == flushed(second, flushed(first, state).state),
{
    let depth = settling_depth(first + second, state);
    lemma_run_concat(first, second, state, depth);
    lemma_run_flushed(first + second, state, depth);
    lemma_run_flushed(first, state, depth);
    if flushed(first, state).fault is None {
        lemma_run_flushed(second, flushed(first, state).state, depth);
    }
}

/// A flush that no fault stopped, within `depth` levels, has left nothing
/// unapplied.
proof fn lemma_run_complete<S: State, C: Command<S>>(cmds: Seq<C>, state: S, depth: nat)
    requires
        run(cmds, state, depth) is Some,
        run(cmds, state, depth)->0.fault is None,
    ensures
        run(cmds, state, depth)->0.rest == Seq::<C>::empty(),
    decreases depth, cmds.len(),
{
    if cmds.len() != 0 {
        let e = cmds[0].effect(state);
        let inner = run(e.queued, e.state.spawned(), (depth - 1) as nat)->0;
        lemma_run_complete(cmds.skip(1), inner.state, depth);
    }
}

/// A flush that settles and that no fault stops leaves no command unapplied,
/// whatever the commands pushed on the way.
pub proof fn law_flush_leaves_nothing<S: State, C: Command<S>>(cmds: Seq<C>, state: S)
    requires
        settles(cmds, state),
        flushed(cmds, state).fault is None,
    ensures
        flushed(cmds, state).rest == Seq::<C>::empty(),
{
    lemma_run_complete(cmds, state, settling_depth(cmds, state));
}

/// An `apply` that no fault stops empties the queue and leaves nothing in the
/// world's own queue, whatever the commands pushed on the way.
pub proof fn law_apply_leaves_nothing<S: State, C: Command<S>>(
    cmds: Seq<C>,
    deferred: Seq<C>,
    state: S,
)
    requires
        apply_all(cmds, deferred, state) is Some,
        apply_all(cmds, deferred, state)->0.fault is None,
    ensures
        apply_all(cmds, deferred, state)->0.kept == Seq::<C>::empty(),
        apply_all(cmds, deferred, state)->0.deferred == Seq::<C>::empty(),
{
    let first = flushed(deferred, state.spawned());
    law_flush_leaves_nothing(deferred, state.spawned());
    lemma_apply_complete(cmds, Seq::empty(), first.state);
}

} // verus!
