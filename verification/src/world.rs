use crate::queue::CommandQueue;
use crate::fault::Fault;
use crate::model::{flushed, run, settles, settling_depth, Outcome};
use crate::raw_queue::{filled, flush_leaves, lemma_contents_filled, RawCommandQueue};
use vstd::prelude::*;

verus! {

/// What the owner of a world keeps in it, the data that commands change. The
/// queue never looks inside; it only asks the state to bring in what it holds
/// back itself.
pub trait State: Sized {
    /// The state once everything it held back has been brought in.
    spec fn spawned(self) -> Self;

    /// Brings in what the state holds back.
    fn flush_pending_spawns(&mut self)
        ensures
            *final(self) == old(self).spawned(),
    ;
}

/// The unit state holds nothing back.
impl State for () {
    open spec fn spawned(self) -> Self {
        self
    }

    fn flush_pending_spawns(&mut self) {
    }
}

/// What applying one command does: the state it leaves, the commands it has
/// pushed onto the world's own queue, oldest first, and the fault it raised,
/// if any.
pub struct Effect<S, C> {
    pub state: S,
    pub queued: Seq<C>,
    pub fault: Option<Fault>,
}

/// The result a flush hands back for the fault of a model.
pub open spec fn raised(fault: Option<Fault>) -> Result<(), Fault> {
    match fault {
        Some(f) => Err(f),
        None => Ok(()),
    }
}

/// A mutation of a world, queued to be applied later.
///
/// A command can be handed to another thread together with the queue that
/// holds it.
pub trait Command<S: State>: Sized + Send + 'static {
    /// What applying `self` to a world in state `state` does.
    spec fn effect(self, state: S) -> Effect<S, Self>;

    /// Applies `self` to `world`. The command may change the state and push
    /// commands onto the world's queue. It leaves the records that were there
    /// alone and starts no flush of its own: whoever applies the command
    /// flushes what it pushed as soon as it returns.
    fn apply(self, world: &mut World<S, Self>) -> (r: Result<(), Fault>)
        requires
            old(world).wf(),
        ensures
            final(world).wf(),
            final(world).state() == self.effect(old(world).state()).state,
            final(world).deferred().records() == old(world).deferred().records() + filled(
                self.effect(old(world).state()).queued,
            ),
            final(world).deferred().cursor() == old(world).deferred().cursor(),
            final(world).deferred().recovery() == old(world).deferred().recovery(),
            r == raised(self.effect(old(world).state()).fault),
    ;
}

/// How consuming `command` leaves a world that it found as `pre`, where
/// `inner` is how the flush that follows the command ends. A command that
/// fails leaves what it pushed in the queue, and no flush follows it.
pub open spec fn consumed<S: State, C: Command<S>>(
    pre: World<S, C>,
    post: World<S, C>,
    command: C,
    inner: Option<Outcome<S, C>>,
    r: Result<(), Fault>,
) -> bool {
    let e = command.effect(pre.state());
    match e.fault {
        Some(f) => {
            &&& r == Err::<(), Fault>(f)
            &&& post.state() == e.state
            &&& post.deferred().cursor() == pre.deferred().cursor()
            &&& post.deferred().records() == pre.deferred().records() + filled(e.queued)
            &&& post.deferred().recovery() == pre.deferred().recovery()
        },
        None => {
            &&& inner is Some
            &&& r == raised(inner->0.fault)
            &&& post.state() == inner->0.state
            &&& flush_leaves(
                pre.deferred(),
                post.deferred(),
                inner->0.fault is Some,
                inner->0.rest,
            )
        },
    }
}

/// The store that commands are applied to: the state that they change,
/// together with the store's own queue of deferred commands.
pub struct World<S, C> {
    state: S,
    command_queue: RawCommandQueue<C>,
}

impl<S, C> World<S, C> {
    /// The state that commands act on.
    pub closed spec fn state(self) -> S {
        self.state
    }

    /// The world's own queue.
    pub closed spec fn deferred(self) -> RawCommandQueue<C> {
        self.command_queue
    }

    /// The world's own queue is well formed.
    pub open spec fn wf(self) -> bool {
        self.deferred().wf()
    }

    /// Returns a world in state `state` whose own queue is empty.
    pub fn new(state: S) -> (world: Self)
        ensures
            world.wf(),
            world.state() == state,
            world.deferred().records().len() == 0,
            world.deferred().cursor() == 0,
            world.deferred().recovery().len() == 0,
    {
        World { state, command_queue: RawCommandQueue::new() }
    }

    /// The state, to read.
    pub fn data(&self) -> (state: &S)
        ensures
            *state == self.state(),
    {
        &self.state
    }

    /// The state, to change. The world's queue stays as it is.
    pub fn data_mut(&mut self) -> (state: &mut S)
        ensures
            *state == old(self).state(),
            final(self).state() == *final(state),
            final(self).deferred() == old(self).deferred(),
    {
        &mut self.state
    }

    /// Pushes `command` onto the world's own queue, behind everything that
    /// waits there. A flush that is running reaches it before it returns.
    pub fn queue(&mut self, command: C)
        requires
            old(self).wf(),
        ensures
            final(self).wf(),
            final(self).state() == old(self).state(),
            final(self).deferred().records() == old(self).deferred().records().push(
                Some(command),
            ),
            final(self).deferred().cursor() == old(self).deferred().cursor(),
            final(self).deferred().recovery() == old(self).deferred().recovery(),
            final(self).deferred().pending() == old(self).deferred().pending().push(command),
    {
        self.command_queue.push(command);
        proof {
            assert(final(self).deferred().pending() =~= old(self).deferred().pending().push(
                command,
            ));
        }
    }
}

impl<S: State, C: Command<S>> World<S, C> {
    /// Takes all commands from `queue` and appends them to the world's own
    /// queue, in order, leaving `queue` empty.
    pub fn append(&mut self, queue: &mut CommandQueue<C>)
        requires
            old(self).wf(),
            old(queue).wf(),
        ensures
            final(self).wf(),
            final(queue).wf(),
            final(self).state() == old(self).state(),
            final(self).deferred().records() == old(self).deferred().records() + filled(
                old(queue)@,
            ),
            final(self).deferred().cursor() == old(self).deferred().cursor(),
            final(self).deferred().recovery() == old(self).deferred().recovery(),
            final(self).deferred().pending() == old(self).deferred().pending() + old(queue)@,
            final(queue)@ == Seq::<C>::empty(),
    {
        self.command_queue.append(queue.get_raw());
        proof {
            assert(old(queue).storage().records() =~= filled(old(queue)@));
            assert(final(self).deferred().pending() =~= old(self).deferred().pending() + old(
                queue,
            )@);
            assert(final(queue)@ =~= Seq::<C>::empty());
        }
    }

    /// Has the state bring in what it holds back. The queue stays as it is.
    pub fn flush_pending_spawns(&mut self)
        ensures
            final(self).state() == old(self).state().spawned(),
            final(self).deferred() == old(self).deferred(),
    {
        self.state.flush_pending_spawns();
    }

    /// Consumes one command within `depth` levels of pushed commands: applies
    /// it and, unless it failed, has the state bring in what it holds back and
    /// flushes the world's own queue.
    fn consume_within(&mut self, command: C, Ghost(depth): Ghost<nat>) -> (r: Result<(), Fault>)
        requires
            old(self).wf(),
            command.effect(old(self).state()).fault is None ==> run(
                old(self).deferred().pending() + command.effect(old(self).state()).queued,
                command.effect(old(self).state()).state.spawned(),
                depth,
            ) is Some,
        ensures
            final(self).wf(),
            consumed(
                *old(self),
                *final(self),
                command,
                run(
                    old(self).deferred().pending() + command.effect(old(self).state()).queued,
                    command.effect(old(self).state()).state.spawned(),
                    depth,
                ),
                r,
            ),
        decreases depth, 1nat,
    {
        let ghost e = command.effect(self.state());
        let ghost waiting = self.deferred().pending();
        let ghost prefix = self.deferred().records().take(self.deferred().cursor());
        proof {
            lemma_contents_filled(waiting);
            assert(self.deferred().records() =~= prefix + filled(waiting));
        }
        match command.apply(self) {
            Err(f) => {
                return Err(f);
            },
            Ok(()) => {},
        }
        proof {
            assert((prefix + filled(waiting)) + filled(e.queued) =~= prefix + filled(
                waiting + e.queued,
            ));
            assert(self.deferred().records().skip(self.deferred().cursor()) =~= filled(
                waiting + e.queued,
            ));
            lemma_contents_filled(waiting + e.queued);
            assert(self.deferred().records().take(self.deferred().cursor()) =~= prefix);
        }
        self.flush_pending_spawns();
        self.flush_frame(Ghost(depth))
    }

    /// Flushes the world's own queue within `depth` levels of pushed commands.
    fn flush_frame(&mut self, Ghost(depth): Ghost<nat>) -> (r: Result<(), Fault>)
        requires
            old(self).wf(),
            run(old(self).deferred().pending(), old(self).state(), depth) is Some,
        ensures
            final(self).wf(),
            ({
                let o = run(old(self).deferred().pending(), old(self).state(), depth)->0;
                &&& final(self).state() == o.state
                &&& r == raised(o.fault)
                &&& flush_leaves(old(self).deferred(), final(self).deferred(), o.fault is Some, o.rest)
            }),
        decreases depth, 0nat,
    {
        let ghost pre = *self;
        let ghost cmds = self.deferred().pending();
        let (start, stop) = self.command_queue.begin();
        let mut local: usize = start;
        proof {
            assert(cmds.skip(0) =~= cmds);
        }
        while local < self.command_queue.len()
            invariant
                pre == *old(self),
                pre.wf(),
                pre.deferred().cursor() == start,
                pre.deferred().records().len() == stop,
                cmds == pre.deferred().pending(),
                start <= local <= stop,
                self.deferred().cursor() == stop,
                self.deferred().records().len() == stop,
                forall|i: int|
                    0 <= i < start ==> self.deferred().records()[i] == pre.deferred().records()[i],
                forall|i: int|
                    local <= i < stop ==> self.deferred().records()[i] == Some(cmds[i - start]),
                self.deferred().recovery() == pre.deferred().recovery(),
                run(cmds, pre.state(), depth) is Some,
                run(cmds, pre.state(), depth) == run(
                    cmds.skip(local - start),
                    self.state(),
                    depth,
                ),
            decreases stop - local,
        {
            let ghost siblings = cmds.skip(local - start + 1);
            let ghost entered = *self;
            let command = self.command_queue.take(local);
            local += 1;
            let ghost e = command.effect(self.state());
            let ghost inner = run(e.queued, e.state.spawned(), (depth - 1) as nat);
            proof {
                assert(cmds.skip(local - 1 - start)[0] == command);
                assert(cmds.skip(local - 1 - start).skip(1) =~= siblings);
                assert(filled(siblings) =~= entered.deferred().records().skip(local as int));
                assert(self.deferred().pending() =~= Seq::<C>::empty());
                assert(Seq::<C>::empty() + e.queued =~= e.queued);
                assert(self.deferred().records().take(stop as int) =~= self.deferred().records());
            }
            match self.consume_within(command, Ghost((depth - 1) as nat)) {
                Err(f) => {
                    proof {
                        assert(self.deferred().records().take(start as int)
                            =~= pre.deferred().records().take(start as int));
                        if e.fault is Some {
                            assert(self.deferred().records().skip(local as int) =~= filled(
                                siblings + e.queued,
                            ));
                            lemma_contents_filled(siblings + e.queued);
                        } else {
                            let rest = inner->0.rest;
                            assert(self.deferred().records().skip(local as int) =~= filled(
                                siblings,
                            ));
                            assert((pre.deferred().recovery() + filled(rest)) + filled(siblings)
                                =~= pre.deferred().recovery() + filled(rest + siblings));
                            lemma_contents_filled(rest + siblings);
                            lemma_contents_filled(rest);
                        }
                    }
                    self.command_queue.recover(local, start);
                    return Err(f);
                },
                Ok(()) => {},
            }
            proof {
                assert(self.deferred().records().take(start as int)
                    =~= pre.deferred().records().take(start as int));
            }
        }
        let ghost walked = *self;
        self.command_queue.finish(start);
        proof {
            assert(cmds.skip(stop - start).len() == 0);
            assert(walked.deferred().records().take(start as int)
                =~= pre.deferred().records().take(start as int));
        }
        Ok(())
    }

    /// Consumes one command: applies it to the world and, unless it failed,
    /// has the state bring in what it holds back and flushes the world's own
    /// queue, so that what the command pushed is applied before this returns.
    pub fn consume(&mut self, command: C) -> (r: Result<(), Fault>)
        requires
            old(self).wf(),
            command.effect(old(self).state()).fault is None ==> settles(
                old(self).deferred().pending() + command.effect(old(self).state()).queued,
                command.effect(old(self).state()).state.spawned(),
            ),
        ensures
            final(self).wf(),
            consumed(
                *old(self),
                *final(self),
                command,
                Some(
                    flushed(
                        old(self).deferred().pending() + command.effect(old(self).state()).queued,
                        command.effect(old(self).state()).state.spawned(),
                    ),
                ),
                r,
            ),
    {
        let ghost e = command.effect(self.state());
        let ghost depth = settling_depth(self.deferred().pending() + e.queued, e.state.spawned());
        self.consume_within(command, Ghost(depth))
    }

    /// Flushes the world's own queue: applies every pending command, oldest
    /// first and depth first, then cuts the buffer back to where the flush
    /// began. A fault stops the flush; the commands not yet applied are kept
    /// and the fault is handed on.
    pub fn flush_deferred_buffers(&mut self) -> (r: Result<(), Fault>)
        requires
            old(self).wf(),
            settles(old(self).deferred().pending(), old(self).state()),
        ensures
            final(self).wf(),
            ({
                let o = flushed(old(self).deferred().pending(), old(self).state());
                &&& final(self).state() == o.state
                &&& r == raised(o.fault)
                &&& flush_leaves(old(self).deferred(), final(self).deferred(), o.fault is Some, o.rest)
            }),
    {
        if self.command_queue.is_empty() {
            proof {
                assert(old(self).deferred().records().take(old(self).deferred().cursor())
                    =~= old(self).deferred().records());
            }
            return Ok(());
        }
        self.flush_frame(Ghost(settling_depth(self.deferred().pending(), self.state())))
    }

    /// Has the state bring in what it holds back, then flushes the world's own
    /// queue.
    pub fn flush(&mut self) -> (r: Result<(), Fault>)
        requires
            old(self).wf(),
            settles(old(self).deferred().pending(), old(self).state().spawned()),
        ensures
            final(self).wf(),
            ({
                let o = flushed(old(self).deferred().pending(), old(self).state().spawned());
                &&& final(self).state() == o.state
                &&& r == raised(o.fault)
                &&& flush_leaves(old(self).deferred(), final(self).deferred(), o.fault is Some, o.rest)
            }),
    {
        self.flush_pending_spawns();
        self.flush_deferred_buffers()
    }
}

} // verus!
