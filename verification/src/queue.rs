use crate::fault::Fault;
use crate::model::{apply_all, flushed, lemma_apply_complete};
use crate::raw_queue::{contents, filled, lemma_contents_filled, world_left, RawCommandQueue};
use crate::world::{raised, Command, State, World};
use vstd::prelude::*;

verus! {

/// A queue of commands that wait to be applied to a world.
///
/// Whoever records mutations while the world is shared pushes them here; the
/// owner of the world applies them later, in the order in which they were
/// pushed. Between two calls the queue is its pending commands and nothing
/// else: `self@` is that sequence, oldest first.
///
/// A queue holds commands of one type. Where commands of several kinds share
/// a queue, that type is an enum of them, or a boxed closure.
pub struct CommandQueue<C> {
    raw: RawCommandQueue<C>,
}

impl<C> View for CommandQueue<C> {
    type V = Seq<C>;

    open spec fn view(&self) -> Seq<C> {
        self.storage().pending()
    }
}

impl<C> Default for CommandQueue<C> {
    /// Returns an empty queue.
    fn default() -> (queue: Self)
        ensures
            queue.wf(),
            queue@ == Seq::<C>::empty(),
    {
        let queue = CommandQueue { raw: RawCommandQueue::new() };
        proof {
            assert(queue@ =~= Seq::<C>::empty());
        }
        queue
    }
}

impl<C> CommandQueue<C> {
    /// The storage behind the queue.
    pub closed spec fn storage(self) -> RawCommandQueue<C> {
        self.raw
    }

    /// The storage is well formed and no flush of it is running.
    pub open spec fn wf(self) -> bool {
        &&& self.storage().wf()
        &&& self.storage().cursor() == 0
    }

    /// Pushes `command` onto the queue, behind everything that waits there.
    pub fn push(&mut self, command: C)
        requires
            old(self).wf(),
        ensures
            final(self).wf(),
            final(self)@ == old(self)@.push(command),
    {
        self.get_raw().push(command);
        proof {
            assert(final(self)@ =~= old(self)@.push(command));
        }
    }

    /// Applies the queued commands to `world`, oldest first, after the world
    /// has brought in what it held back and flushed its own queue; what a
    /// command pushes onto the world's queue is applied before the command's
    /// next sibling. This empties the queue, unless a fault stops the call:
    /// then the commands not yet applied stay queued, in order, and the fault
    /// is handed on.
    pub fn apply<S: State>(&mut self, world: &mut World<S, C>) -> (r: Result<(), Fault>) where
        C: Command<S>,

        requires
            old(self).wf(),
            old(world).wf(),
            apply_all(old(self)@, old(world).deferred().pending(), old(world).state()) is Some,
        ensures
            final(self).wf(),
            final(world).wf(),
            ({
                let d = apply_all(
                    old(self)@,
                    old(world).deferred().pending(),
                    old(world).state(),
                )->0;
                &&& final(self)@ == d.kept
                &&& final(world).state() == d.state
                &&& r == raised(d.fault)
                &&& world_left(old(world).deferred(), final(world).deferred(), d)
            }),
    {
        match world.flush() {
            Err(f) => {
                proof {
                    assert(old(self)@ =~= contents(old(self).storage().records()));
                }
                return Err(f);
            },
            Ok(()) => {},
        }
        let ghost first = flushed(old(world).deferred().pending(), old(world).state().spawned());
        proof {
            assert(world.deferred().pending() =~= Seq::<C>::empty());
            assert(world.deferred().records().take(world.deferred().cursor())
                =~= world.deferred().records());
        }
        let r = self.get_raw().apply_or_drop_queued(Some(world));
        proof {
            let d = apply_all(old(self)@, old(world).deferred().pending(), old(world).state())->0;
            if d.fault is None {
                lemma_apply_complete(old(self)@, Seq::empty(), first.state);
                assert(final(self)@ =~= d.kept);
            } else {
                lemma_contents_filled(d.kept);
                assert(filled(d.kept).skip(0) =~= filled(d.kept));
            }
        }
        r
    }

    /// Consumes the queued commands without applying them, oldest first. Each
    /// is dropped, so that what it owns is released; the queue is then empty.
    pub fn discard(&mut self)
        requires
            old(self).wf(),
        ensures
            final(self).wf(),
            final(self)@ == Seq::<C>::empty(),
    {
        self.get_raw().drop_queued();
        proof {
            assert(final(self)@ =~= Seq::<C>::empty());
        }
    }

    /// Takes all commands from `other` and appends them to `self`, in order,
    /// leaving `other` empty.
    pub fn append(&mut self, other: &mut CommandQueue<C>)
        requires
            old(self).wf(),
            old(other).wf(),
        ensures
            final(self).wf(),
            final(other).wf(),
            final(self)@ == old(self)@ + old(other)@,
            final(other)@ == Seq::<C>::empty(),
    {
        self.raw.append(&mut other.raw);
        proof {
            assert(final(self)@ =~= old(self)@ + old(other)@);
            assert(final(other)@ =~= Seq::<C>::empty());
        }
    }

    /// Returns true if no command waits in the queue.
    pub fn is_empty(&self) -> (b: bool)
        ensures
            b == (self.storage().cursor() >= self.storage().records().len()),
            self.wf() ==> b == (self@.len() == 0),
    {
        self.raw.is_empty()
    }

    /// The number of commands that wait in the queue.
    pub fn len(&self) -> (n: usize)
        requires
            self.wf(),
        ensures
            n == self@.len(),
    {
        self.raw.len()
    }

    /// The storage behind the queue, to work on in place.
    pub(crate) fn get_raw(&mut self) -> (raw: &mut RawCommandQueue<C>)
        ensures
            *raw == old(self).storage(),
            final(self).storage() == *final(raw),
    {
        &mut self.raw
    }
}

} // verus!
