use crate::fault::Fault;
use crate::model::{apply_detached, Applied};
use crate::world::{raised, Command, State, World};
use vstd::prelude::*;

verus! {

/// Wraps every command of `s` as a filled record.
pub open spec fn filled<C>(s: Seq<C>) -> Seq<Option<C>> {
    Seq::new(s.len(), |i: int| Some(s[i]))
}

/// The commands held by a run of filled records.
pub open spec fn contents<C>(r: Seq<Option<C>>) -> Seq<C> {
    Seq::new(r.len(), |i: int| r[i]->0)
}

/// Every record of `r` from `from` on still holds its command.
pub open spec fn all_filled<C>(r: Seq<Option<C>>, from: int) -> bool {
    forall|i: int| from <= i < r.len() ==> (#[trigger] r[i]) is Some
}

/// `contents` undoes `filled`.
pub proof fn lemma_contents_filled<C>(s: Seq<C>)
    ensures
        contents(filled(s)) == s,
        all_filled(filled(s), 0),
        filled(s).len() == s.len(),
{
    assert(contents(filled(s)) =~= s);
}

/// How a flush leaves the storage it started on as `pre`. One that ran to its
/// end has cut the buffer back to the cursor. One that a fault stopped has set
/// `rest` aside: at the end of the recovery buffer while an outer flush is
/// still running, and back in the buffer as the pending region otherwise.
pub open spec fn flush_leaves<C>(
    pre: RawCommandQueue<C>,
    post: RawCommandQueue<C>,
    faulted: bool,
    rest: Seq<C>,
) -> bool {
    &&& post.cursor() == pre.cursor()
    &&& if !faulted {
        &&& post.records() == pre.records().take(pre.cursor())
        &&& post.recovery() == pre.recovery()
    } else if pre.cursor() == 0 {
        &&& post.records() == filled(rest)
        &&& post.recovery().len() == 0
    } else {
        &&& post.records() == pre.records().take(pre.cursor())
        &&& post.recovery() == pre.recovery() + filled(rest)
    }
}

/// How applying a queue of its own leaves the storage of the world's queue,
/// which it found as `pre`. A fault inside the world's own flush leaves it as
/// that flush does; otherwise the buffer ends with what is left with the world.
pub open spec fn world_left<S, C>(
    pre: RawCommandQueue<C>,
    post: RawCommandQueue<C>,
    d: Applied<S, C>,
) -> bool {
    if d.in_flush {
        flush_leaves(pre, post, true, d.deferred)
    } else {
        &&& post.cursor() == pre.cursor()
        &&& post.records() == pre.records().take(pre.cursor()) + filled(d.deferred)
        &&& post.recovery() == pre.recovery()
    }
}

/// The storage of one queue: the records in submission order, the cursor that
/// marks where the pending region starts, and the recovery buffer.
///
/// A record is emptied when its command is taken out; the records below the
/// cursor belong to flushes that are still running.
pub struct RawCommandQueue<C> {
    records: Vec<Option<C>>,
    cursor: usize,
    recovery: Vec<Option<C>>,
}

impl<C> RawCommandQueue<C> {
    /// The records, consumed ones included.
    pub closed spec fn records(self) -> Seq<Option<C>> {
        self.records@
    }

    /// The offset at which the pending region starts.
    pub closed spec fn cursor(self) -> int {
        self.cursor as int
    }

    /// What an interrupted flush has set aside.
    pub closed spec fn recovery(self) -> Seq<Option<C>> {
        self.recovery@
    }

    /// The cursor lies within the buffer, every record from the cursor on is
    /// still filled, and the recovery buffer holds filled records only, and
    /// none while no flush is running.
    pub open spec fn wf(self) -> bool {
        &&& 0 <= self.cursor() <= self.records().len()
        &&& all_filled(self.records(), self.cursor())
        &&& all_filled(self.recovery(), 0)
        &&& (self.cursor() == 0 ==> self.recovery().len() == 0)
    }

    /// The commands that wait to be applied, oldest first.
    pub open spec fn pending(self) -> Seq<C> {
        contents(self.records().skip(self.cursor()))
    }

    /// Returns an empty queue.
    pub fn new() -> (q: Self)
        ensures
            q.wf(),
            q.records().len() == 0,
            q.cursor() == 0,
            q.recovery().len() == 0,
    {
        RawCommandQueue { records: Vec::new(), cursor: 0, recovery: Vec::new() }
    }

    /// Returns true if no command is pending.
    pub fn is_empty(&self) -> (b: bool)
        ensures
            b == (self.cursor() >= self.records().len()),
    {
        self.cursor >= self.records.len()
    }

    /// The number of records, consumed ones included.
    pub fn len(&self) -> (n: usize)
        ensures
            n == self.records().len(),
    {
        self.records.len()
    }

    /// Appends `command` as the newest record; the cursor stays.
    pub fn push(&mut self, command: C)
        ensures
            final(self).records() == old(self).records().push(Some(command)),
            final(self).cursor() == old(self).cursor(),
            final(self).recovery() == old(self).recovery(),
    {
        self.records.push(Some(command));
    }

    /// Moves every record of `other` to the end of this queue, in order, and
    /// leaves `other` without records. Neither cursor moves.
    pub fn append(&mut self, other: &mut RawCommandQueue<C>)
        ensures
            final(self).records() == old(self).records() + old(other).records(),
            final(self).cursor() == old(self).cursor(),
            final(self).recovery() == old(self).recovery(),
            final(other).records().len() == 0,
            final(other).cursor() == old(other).cursor(),
            final(other).recovery() == old(other).recovery(),
    {
        self.records.append(&mut other.records);
    }

    /// Opens a flush: returns the bounds of the pending region and moves the
    /// cursor to its end, so that what is pushed from now on lies beyond it.
    pub fn begin(&mut self) -> (bounds: (usize, usize))
        ensures
            bounds.0 == old(self).cursor(),
            bounds.1 == old(self).records().len(),
            final(self).cursor() == old(self).records().len(),
            final(self).records() == old(self).records(),
            final(self).recovery() == old(self).recovery(),
    {
        let start = self.cursor;
        let stop = self.records.len();
        self.cursor = stop;
        (start, stop)
    }

    /// Takes the command out of the record at `at`, which stays behind empty.
    pub fn take(&mut self, at: usize) -> (command: C)
        requires
            at < old(self).records().len(),
            old(self).records()[at as int] is Some,
        ensures
            Some(command) == old(self).records()[at as int],
            final(self).records() == old(self).records().update(at as int, None),
            final(self).cursor() == old(self).cursor(),
            final(self).recovery() == old(self).recovery(),
    {
        let slot = self.records[at].take();
        slot.unwrap()
    }

    /// Closes a flush that ran to its end: everything from `start` on has been
    /// consumed and is cut off, and the cursor returns to `start`.
    pub fn finish(&mut self, start: usize)
        requires
            start <= old(self).records().len(),
        ensures
            final(self).records() == old(self).records().take(start as int),
            final(self).cursor() == start,
            final(self).recovery() == old(self).recovery(),
    {
        self.records.truncate(start);
        self.cursor = start;
    }

    /// Closes a flush that a fault interrupted. The records from `from` on,
    /// which no one has touched, move to the end of the recovery buffer; the
    /// buffer is cut back to `start` and the cursor returns there. A flush that
    /// started at offset zero is the outermost one: it puts the whole recovery
    /// buffer back as the pending region.
    pub fn recover(&mut self, from: usize, start: usize)
        requires
            start <= from <= old(self).records().len(),
        ensures
            final(self).cursor() == start,
            start != 0 ==> final(self).records() == old(self).records().take(start as int)
                && final(self).recovery() == old(self).recovery() + old(self).records().skip(
                from as int,
            ),
            start == 0 ==> final(self).records() == old(self).recovery() + old(
                self,
            ).records().skip(from as int) && final(self).recovery().len() == 0,
    {
        let mut untouched = self.records.split_off(from);
        self.recovery.append(&mut untouched);
        self.records.truncate(start);
        self.cursor = start;
        if start == 0 {
            self.records.append(&mut self.recovery);
        }
        proof {
            assert(old(self).records().take(from as int).take(start as int) =~= old(
                self,
            ).records().take(start as int));
            assert(old(self).records().subrange(from as int, old(self).records().len() as int)
                =~= old(self).records().skip(from as int));
            if start == 0 {
                assert(Seq::<Option<C>>::empty() + (old(self).recovery() + old(
                    self,
                ).records().skip(from as int)) =~= old(self).recovery() + old(
                    self,
                ).records().skip(from as int));
            }
        }
    }

    /// Consumes every pending command without applying it, oldest first, and
    /// cuts the buffer back to the cursor.
    pub fn drop_queued(&mut self)
        requires
            old(self).wf(),
        ensures
            final(self).wf(),
            flush_leaves(*old(self), *final(self), false, Seq::empty()),
    {
        let ghost pre = *self;
        let (start, stop) = self.begin();
        let mut local: usize = start;
        while local < stop
            invariant
                pre == *old(self),
                pre.wf(),
                pre.cursor() == start,
                start <= local <= stop,
                self.cursor() == stop,
                self.records().len() == stop,
                forall|i: int| 0 <= i < start ==> self.records()[i] == pre.records()[i],
                forall|i: int| local <= i < stop ==> self.records()[i] is Some,
                self.recovery() == pre.recovery(),
            decreases stop - local,
        {
            let _discarded = self.take(local);
            local += 1;
        }
        let ghost walked = *self;
        self.finish(start);
        proof {
            assert(walked.records().take(start as int) =~= pre.records().take(start as int));
        }
    }

    /// Applies every pending command of this queue, which is not the world's
    /// own, to `world`: oldest first, each followed at once by a flush of the
    /// world, so that what a command pushed is applied before its next
    /// sibling. Then cuts the buffer back to where the call began. A fault
    /// stops the call; the commands not yet applied are kept, and the fault is
    /// handed on.
    pub fn apply_queued<S: State>(&mut self, world: &mut World<S, C>) -> (r: Result<(), Fault>) where
        C: Command<S>,

        requires
            old(self).wf(),
            old(world).wf(),
            apply_detached(
                old(self).pending(),
                old(world).deferred().pending(),
                old(world).state(),
            ) is Some,
        ensures
            final(self).wf(),
            final(world).wf(),
            ({
                let d = apply_detached(
                    old(self).pending(),
                    old(world).deferred().pending(),
                    old(world).state(),
                )->0;
                &&& final(world).state() == d.state
                &&& r == raised(d.fault)
                &&& flush_leaves(*old(self), *final(self), d.fault is Some, d.kept)
                &&& world_left(old(world).deferred(), final(world).deferred(), d)
            }),
    {
        let ghost pre = *self;
        let ghost found = *world;
        let ghost cmds = self.pending();
        let (start, stop) = self.begin();
        let mut local: usize = start;
        proof {
            assert(cmds.skip(0) =~= cmds);
            assert(found.deferred().records().take(found.deferred().cursor()) + filled(
                found.deferred().pending(),
            ) =~= found.deferred().records());
        }
        while local < self.len()
            invariant
                pre == *old(self),
                found == *old(world),
                pre.wf(),
                found.wf(),
                world.wf(),
                pre.cursor() == start,
                pre.records().len() == stop,
                cmds == pre.pending(),
                start <= local <= stop,
                self.cursor() == stop,
                self.records().len() == stop,
                forall|i: int| 0 <= i < start ==> self.records()[i] == pre.records()[i],
                forall|i: int| local <= i < stop ==> self.records()[i] == Some(cmds[i - start]),
                self.recovery() == pre.recovery(),
                world.deferred().cursor() == found.deferred().cursor(),
                world.deferred().recovery() == found.deferred().recovery(),
                world.deferred().records() == found.deferred().records().take(
                    found.deferred().cursor(),
                ) + filled(world.deferred().pending()),
                apply_detached(cmds, found.deferred().pending(), found.state()) is Some,
                apply_detached(cmds, found.deferred().pending(), found.state()) == apply_detached(
                    cmds.skip(local - start),
                    world.deferred().pending(),
                    world.state(),
                ),
            decreases stop - local,
        {
            let ghost siblings = cmds.skip(local - start + 1);
            let ghost entered = *self;
            let ghost waiting = world.deferred().pending();
            let ghost prefix = found.deferred().records().take(found.deferred().cursor());
            let command = self.take(local);
            local += 1;
            let ghost e = command.effect(world.state());
            proof {
                assert(cmds.skip(local - 1 - start)[0] == command);
                assert(cmds.skip(local - 1 - start).skip(1) =~= siblings);
                assert(filled(siblings) =~= entered.records().skip(local as int));
                assert(world.deferred().records().take(world.deferred().cursor()) =~= prefix);
            }
            match world.consume(command) {
                Err(f) => {
                    proof {
                        assert(self.records().skip(local as int) =~= filled(siblings));
                        assert(self.records().take(start as int) =~= pre.records().take(
                            start as int,
                        ));
                        assert((prefix + filled(waiting)) + filled(e.queued) =~= prefix + filled(
                            waiting + e.queued,
                        ));
                        lemma_contents_filled(siblings);
                    }
                    self.recover(local, start);
                    return Err(f);
                },
                Ok(()) => {},
            }
            proof {
                assert(world.deferred().pending() =~= Seq::<C>::empty());
                assert(prefix + filled(Seq::<C>::empty()) =~= prefix);
            }
        }
        let ghost walked = *self;
        self.finish(start);
        proof {
            assert(cmds.skip(stop - start).len() == 0);
            assert(walked.records().take(start as int) =~= pre.records().take(start as int));
        }
        Ok(())
    }

    /// With a world, applies the pending commands to it; without one, consumes
    /// them unapplied. Either way the buffer is cut back to where the call
    /// began, unless a fault stops it.
    pub fn apply_or_drop_queued<S: State>(&mut self, world: Option<&mut World<S, C>>) -> (r: Result<
        (),
        Fault,
    >) where C: Command<S>
        requires
            old(self).wf(),
            world matches Some(w) ==> w.wf() && apply_detached(
                old(self).pending(),
                w.deferred().pending(),
                w.state(),
            ) is Some,
        ensures
            final(self).wf(),
            world is None ==> r is Ok && flush_leaves(
                *old(self),
                *final(self),
                false,
                Seq::empty(),
            ),
            world matches Some(w) ==> ({
                let d = apply_detached(
                    old(self).pending(),
                    w.deferred().pending(),
                    w.state(),
                )->0;
                &&& final(w).wf()
                &&& final(w).state() == d.state
                &&& r == raised(d.fault)
                &&& flush_leaves(*old(self), *final(self), d.fault is Some, d.kept)
                &&& world_left(w.deferred(), final(w).deferred(), d)
            }),
    {
        match world {
            Some(w) => self.apply_queued(w),
            None => {
                self.drop_queued();
                Ok(())
            },
        }
    }
}

} // verus!
