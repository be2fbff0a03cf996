use command_queue::queue::CommandQueue;
use command_queue::fault::Fault;
use command_queue::world::{Command, Effect, State, World};
use std::sync::atomic::{AtomicU32, Ordering};
use std::sync::Arc;

struct DropCheck(Arc<AtomicU32>);

impl DropCheck {
    fn new() -> (Self, Arc<AtomicU32>) {
        let drops = Arc::new(AtomicU32::new(0));
        (Self(drops.clone()), drops)
    }
}

impl Drop for DropCheck {
    fn drop(&mut self) {
        self.0.fetch_add(1, Ordering::Relaxed);
    }
}

impl Command<()> for DropCheck {
    // Read by the verifier only, never run.
    fn effect(self, _: ()) -> Effect<(), Self> {
        unreachable!()
    }

    fn apply(self, _: &mut World<(), Self>) -> Result<(), Fault> {
        Ok(())
    }
}

#[test]
fn test_command_queue_inner_drop() {
    let mut queue = CommandQueue::default();

    let (dropcheck_a, drops_a) = DropCheck::new();
    let (dropcheck_b, drops_b) = DropCheck::new();

    queue.push(dropcheck_a);
    queue.push(dropcheck_b);

    assert_eq!(drops_a.load(Ordering::Relaxed), 0);
    assert_eq!(drops_b.load(Ordering::Relaxed), 0);

    let mut world = World::new(());
    assert_eq!(queue.apply(&mut world), Ok(()));

    assert_eq!(drops_a.load(Ordering::Relaxed), 1);
    assert_eq!(drops_b.load(Ordering::Relaxed), 1);
}

#[test]
fn test_command_queue_inner_drop_early() {
    let mut queue = CommandQueue::default();

    let (dropcheck_a, drops_a) = DropCheck::new();
    let (dropcheck_b, drops_b) = DropCheck::new();

    queue.push(dropcheck_a);
    queue.push(dropcheck_b);

    assert_eq!(drops_a.load(Ordering::Relaxed), 0);
    assert_eq!(drops_b.load(Ordering::Relaxed), 0);

    drop(queue);

    assert_eq!(drops_a.load(Ordering::Relaxed), 1);
    assert_eq!(drops_b.load(Ordering::Relaxed), 1);
}

/// A state that counts what was spawned into it.
#[derive(Default)]
struct Entities {
    spawned: usize,
}

impl State for Entities {
    // Read by the verifier only, never run.
    fn spawned(self) -> Self {
        unreachable!()
    }

    fn flush_pending_spawns(&mut self) {}
}

/// The commands of one queue over `Entities`: a spawn, which owns nothing,
/// and a command that owns a string and always fails.
enum EntityCommand {
    Spawn,
    Panic(String),
}

impl Command<Entities> for EntityCommand {
    // Read by the verifier only, never run.
    fn effect(self, _: Entities) -> Effect<Entities, Self> {
        unreachable!()
    }

    fn apply(self, world: &mut World<Entities, Self>) -> Result<(), Fault> {
        match self {
            EntityCommand::Spawn => {
                world.data_mut().spawned += 1;
                Ok(())
            }
            EntityCommand::Panic(_) => Err(Fault { code: 1 }),
        }
    }
}

#[test]
fn test_command_queue_inner() {
    let mut queue = CommandQueue::default();

    queue.push(EntityCommand::Spawn);
    queue.push(EntityCommand::Spawn);

    let mut world = World::new(Entities::default());
    assert_eq!(queue.apply(&mut world), Ok(()));

    assert_eq!(world.data().spawned, 2);

    // The previous call to `apply` cleared the queue.
    // This call should do nothing.
    assert_eq!(queue.apply(&mut world), Ok(()));
    assert_eq!(world.data().spawned, 2);
}

#[test]
fn test_command_queue_inner_panic_safe() {
    let mut queue = CommandQueue::default();

    queue.push(EntityCommand::Panic("I panic!".to_owned()));
    queue.push(EntityCommand::Spawn);

    let mut world = World::new(Entities::default());

    let _ = queue.apply(&mut world);

    // Even though the first command failed, it's still ok to push
    // more commands.
    queue.push(EntityCommand::Spawn);
    queue.push(EntityCommand::Spawn);
    assert_eq!(queue.apply(&mut world), Ok(()));
    assert_eq!(world.data().spawned, 3);
}

#[derive(Default)]
struct Order(Vec<usize>);

impl State for Order {
    // Read by the verifier only, never run.
    fn spawned(self) -> Self {
        unreachable!()
    }

    fn flush_pending_spawns(&mut self) {}
}

/// A command made of a closure, so that one queue holds commands of any
/// number of kinds.
struct Boxed(Box<dyn FnOnce(&mut World<Order, Boxed>) -> Result<(), Fault> + Send>);

impl Command<Order> for Boxed {
    // Read by the verifier only, never run.
    fn effect(self, _: Order) -> Effect<Order, Self> {
        unreachable!()
    }

    fn apply(self, world: &mut World<Order, Self>) -> Result<(), Fault> {
        (self.0)(world)
    }
}

fn add_index(index: usize) -> Boxed {
    Boxed(Box::new(move |world: &mut World<Order, Boxed>| {
        world.data_mut().0.push(index);
        Ok(())
    }))
}

fn panic_command(_reason: String) -> Boxed {
    Boxed(Box::new(|_: &mut World<Order, Boxed>| Err(Fault { code: 7 })))
}

#[test]
fn test_command_queue_inner_nested_panic_safe() {
    let mut world = World::new(Order::default());

    world.queue(add_index(1));
    world.queue(Boxed(Box::new(|world: &mut World<Order, Boxed>| {
        world.queue(add_index(2));
        world.queue(panic_command("I panic!".to_owned()));
        world.queue(add_index(3));
        Ok(())
    })));
    world.queue(add_index(4));

    let _ = world.flush_deferred_buffers();

    world.queue(add_index(5));
    assert_eq!(world.flush_deferred_buffers(), Ok(()));
    assert_eq!(&world.data().0, &[1, 2, 3, 4, 5]);
}

// NOTE: `CommandQueue` is `Send` because `Command` is send.
// This test asserts that Command types are send.
fn assert_is_send_impl(_: impl Send) {}

fn assert_is_send(command: impl Command<Entities>) {
    assert_is_send_impl(command);
}

#[test]
fn test_command_is_send() {
    assert_is_send(EntityCommand::Spawn);
    assert_is_send_impl(CommandQueue::<EntityCommand>::default());
}

#[allow(dead_code)]
struct CommandWithPadding(u8, u16);

impl Command<()> for CommandWithPadding {
    // Read by the verifier only, never run.
    fn effect(self, _: ()) -> Effect<(), Self> {
        unreachable!()
    }

    fn apply(self, _: &mut World<(), Self>) -> Result<(), Fault> {
        Ok(())
    }
}

#[test]
fn test_uninit_bytes() {
    let mut queue = CommandQueue::default();
    queue.push(CommandWithPadding(0, 0));
    let _ = format!("{:?}", queue.len());
}
