use promethius::AccessDecl;
use promethius::CommandBuffer;
use promethius::Event;
use promethius::EventQueue;
use promethius::EventQueueHandler;
use promethius::EventReader;
use promethius::EventWriter;
use promethius::FunctionSystem;
use promethius::PhaseKey;
use promethius::ResourceStore;
use promethius::Scheduler;
use promethius::System;
use promethius::WORLD_RESOURCE_KEY;

const KEY_RES1: u64 = 1;
const KEY_RES2: u64 = 2;
const KEY_MUT1: u64 = 3;
const KEY_COUNT: u64 = 4;
const KEY_EVENT1: u64 = 5;

struct Event1 {
    payload: bool,
}

impl Event for Event1 {}

enum Val {
    Int(i32),
    Queue(EventQueue<Event1>),
}

impl EventQueueHandler for Val {
    fn increment_and_cleanup(&mut self) {
        match self {
            Val::Queue(q) => q.increment_and_cleanup(),
            Val::Int(_) => {}
        }
    }
}

fn get_int(resources: &ResourceStore<Val>, key: u64) -> i32 {
    match resources.get(key) {
        Some(Val::Int(v)) => *v,
        _ => panic!("expected an integer resource"),
    }
}

fn set_int(resources: &mut ResourceStore<Val>, key: u64, v: i32) {
    resources.insert(key, Val::Int(v));
}

enum Sys {
    AssertInt(u64, i32),
    AssertTwoInts(i32, i32),
    AssertAndDouble(u64, i32),
    SpawnIntoWorld,
    CheckWorldPair(i32, bool),
    Nop,
    CommandSpawn(u64),
    AssertWorldLen(u32),
    CheckWorldLabel(u64),
    SendEvent(bool),
    SendEventOnce(bool),
    AssertEvents(Vec<bool>),
    AssertEventLenSeq(Vec<usize>, usize),
    AssertEventCountByRuns,
    AssertIntTwice(i32),
}

impl System<Val> for Sys {
    fn run(
        &mut self,
        resources: &mut ResourceStore<Val>,
        world: &mut Option<hecs::World>,
        commands: &mut CommandBuffer,
    ) {
        match self {
            Sys::AssertInt(key, expected) => {
                assert_eq!(get_int(resources, *key), *expected);
            }
            Sys::AssertTwoInts(e1, e2) => {
                assert_eq!(get_int(resources, KEY_RES1), *e1);
                assert_eq!(get_int(resources, KEY_RES2), *e2);
            }
            Sys::AssertAndDouble(key, expected) => {
                let v = get_int(resources, *key);
                assert_eq!(v, *expected);
                set_int(resources, *key, v * 2);
            }
            Sys::SpawnIntoWorld => {
                world.as_mut().expect("world missing").spawn((1i32, true));
            }
            Sys::CheckWorldPair(en, eb) => {
                let w = world.as_ref().expect("world missing");
                for (n, b) in w.query::<(&i32, &bool)>().iter() {
                    assert_eq!(n, en);
                    assert_eq!(b, eb);
                }
            }
            Sys::Nop => {}
            Sys::CommandSpawn(label) => {
                commands.spawn(*label);
            }
            Sys::AssertWorldLen(expected) => {
                assert_eq!(world.as_ref().expect("world missing").len(), *expected);
            }
            Sys::CheckWorldLabel(expected) => {
                let w = world.as_ref().expect("world missing");
                let mut seen = 0;
                for label in w.query::<&u64>().iter() {
                    assert_eq!(label, expected);
                    seen += 1;
                }
                assert_eq!(seen, 1);
            }
            Sys::SendEvent(payload) => {
                let q = match resources.remove(KEY_EVENT1) {
                    Some(Val::Queue(q)) => q,
                    _ => panic!("event queue missing"),
                };
                let mut writer = EventWriter::new(q);
                writer.send(Event1 { payload: *payload });
                resources.insert(KEY_EVENT1, Val::Queue(writer.into_queue()));
            }
            Sys::SendEventOnce(sent) => {
                if !*sent {
                    *sent = true;
                    let q = match resources.remove(KEY_EVENT1) {
                        Some(Val::Queue(q)) => q,
                        _ => panic!("event queue missing"),
                    };
                    let mut writer = EventWriter::new(q);
                    writer.send(Event1 { payload: true });
                    resources.insert(KEY_EVENT1, Val::Queue(writer.into_queue()));
                }
            }
            Sys::AssertEventLenSeq(expected, idx) => {
                match resources.get(KEY_EVENT1) {
                    Some(Val::Queue(q)) => {
                        assert_eq!(q.len(), expected[*idx], "run {}", *idx);
                    }
                    _ => panic!("event queue missing"),
                }
                *idx += 1;
            }
            Sys::AssertEvents(expected) => {
                match resources.get(KEY_EVENT1) {
                    Some(Val::Queue(q)) => {
                        let reader = EventReader::new(q);
                        let events = reader.read();
                        assert_eq!(events.len(), expected.len());
                        for (e, want) in events.iter().zip(expected.iter()) {
                            assert_eq!(e.payload, *want);
                        }
                    }
                    _ => panic!("event queue missing"),
                }
            }
            Sys::AssertEventCountByRuns => {
                let count = get_int(resources, KEY_COUNT);
                let expected_len = 0;
                match resources.get(KEY_EVENT1) {
                    Some(Val::Queue(q)) => assert_eq!(q.len(), expected_len, "run {count}"),
                    _ => panic!("event queue missing"),
                }
                set_int(resources, KEY_COUNT, count + 1);
            }
            Sys::AssertIntTwice(expected) => {
                assert_eq!(get_int(resources, KEY_RES1), *expected);
                assert_eq!(get_int(resources, KEY_RES1), *expected);
            }
        }
    }
}

fn key(x: f64) -> PhaseKey {
    PhaseKey::from_bits(x.to_bits()).expect("phase key in range")
}

fn reads(k: u64, f: Sys) -> FunctionSystem<Sys> {
    FunctionSystem {
        accesses: vec![AccessDecl::read(k)],
        f,
    }
}

fn writes(k: u64, f: Sys) -> FunctionSystem<Sys> {
    FunctionSystem {
        accesses: vec![AccessDecl::write(k)],
        f,
    }
}

fn create_scheduler() -> Scheduler<Val, Sys> {
    let mut scheduler: Scheduler<Val, Sys> = Scheduler::new();
    scheduler.insert_world(hecs::World::new());
    scheduler
}

fn run_scheduler_start(mut scheduler: Scheduler<Val, Sys>) -> Scheduler<Val, Sys> {
    scheduler
        .run(PhaseKey::start(), PhaseKey::tick())
        .expect("start run");
    scheduler
}

fn run_scheduler_tick(mut scheduler: Scheduler<Val, Sys>) -> Scheduler<Val, Sys> {
    scheduler
        .run(PhaseKey::tick(), PhaseKey::end())
        .expect("tick run");
    scheduler
        .run(PhaseKey::tick(), PhaseKey::end())
        .expect("tick run");
    scheduler
        .run(PhaseKey::tick(), PhaseKey::end())
        .expect("tick run");
    scheduler
}

#[test]
fn single_res() {
    let mut scheduler = create_scheduler();
    scheduler.add_system(key(0.), reads(KEY_RES1, Sys::AssertInt(KEY_RES1, 1)));
    scheduler.add_resource(KEY_RES1, Val::Int(1));

    run_scheduler_start(scheduler);
}

#[test]
fn multiple_res() {
    let mut scheduler = create_scheduler();
    let many1 = FunctionSystem {
        accesses: vec![AccessDecl::read(KEY_RES1), AccessDecl::read(KEY_RES2)],
        f: Sys::AssertTwoInts(1, 3),
    };
    let many2 = FunctionSystem {
        accesses: vec![AccessDecl::read(KEY_RES1), AccessDecl::read(KEY_RES2)],
        f: Sys::AssertTwoInts(1, 3),
    };
    scheduler.add_system(key(0.), many1);
    scheduler.add_system(key(0.), many2);
    scheduler.add_resource(KEY_RES1, Val::Int(1));
    scheduler.add_resource(KEY_RES2, Val::Int(3));

    run_scheduler_start(scheduler);
}

#[test]
fn mut_res() {
    let mut scheduler = create_scheduler();
    scheduler.add_system(key(0.), writes(KEY_MUT1, Sys::AssertAndDouble(KEY_MUT1, 1)));
    scheduler.add_system(key(0.1), writes(KEY_MUT1, Sys::AssertInt(KEY_MUT1, 2)));
    scheduler.add_system(key(1.), writes(KEY_MUT1, Sys::AssertInt(KEY_MUT1, 2)));
    scheduler.add_resource(KEY_MUT1, Val::Int(1));

    let scheduler = run_scheduler_start(scheduler);
    run_scheduler_tick(scheduler);
}

#[test]
fn access_mut_over_phases() {
    let mut scheduler = create_scheduler();
    scheduler.add_system(key(0.), writes(KEY_MUT1, Sys::Nop));
    scheduler.add_system(key(0.1), writes(KEY_MUT1, Sys::Nop));
    scheduler.add_resource(KEY_MUT1, Val::Int(1));

    run_scheduler_start(scheduler);
}

#[test]
fn persistent_world() {
    let mut scheduler = create_scheduler();
    scheduler.add_system(key(0.), writes(WORLD_RESOURCE_KEY, Sys::SpawnIntoWorld));
    scheduler.add_system(key(0.1), reads(WORLD_RESOURCE_KEY, Sys::CheckWorldPair(1, true)));
    scheduler.add_system(key(1.), reads(WORLD_RESOURCE_KEY, Sys::CheckWorldPair(1, true)));

    let scheduler = run_scheduler_start(scheduler);
    run_scheduler_tick(scheduler);
}

#[test]
fn get_many_ref_world() {
    let mut scheduler = create_scheduler();
    scheduler.add_system(key(0.), reads(WORLD_RESOURCE_KEY, Sys::Nop));
    scheduler.add_system(key(0.), reads(WORLD_RESOURCE_KEY, Sys::Nop));

    run_scheduler_start(scheduler);
}

#[test]
fn command_buffer_on_world() {
    let mut scheduler = create_scheduler();
    scheduler.add_system(
        key(0.),
        FunctionSystem {
            accesses: vec![],
            f: Sys::CommandSpawn(3),
        },
    );
    scheduler.add_system(key(0.1), reads(WORLD_RESOURCE_KEY, Sys::AssertWorldLen(0)));
    scheduler.add_system(key(1.), reads(WORLD_RESOURCE_KEY, Sys::CheckWorldLabel(3)));

    let scheduler = run_scheduler_start(scheduler);
    run_scheduler_tick(scheduler);
}

#[test]
fn get_many_ref_command_buffer() {
    let mut scheduler = create_scheduler();
    scheduler.add_system(
        key(0.),
        FunctionSystem {
            accesses: vec![],
            f: Sys::Nop,
        },
    );
    scheduler.add_system(
        key(0.),
        FunctionSystem {
            accesses: vec![],
            f: Sys::Nop,
        },
    );

    run_scheduler_start(scheduler);
}

#[test]
fn event_send_read_works() {
    let mut scheduler = create_scheduler();
    scheduler.add_system(key(0.), writes(KEY_EVENT1, Sys::SendEvent(true)));
    scheduler.add_system(key(0.1), reads(KEY_EVENT1, Sys::AssertEvents(vec![true])));
    scheduler.add_event(KEY_EVENT1, Val::Queue(EventQueue::new()));

    run_scheduler_start(scheduler);
}

// Under the access policy, two same-phase writers of one event queue
// alias; the second writer therefore sits at its own phase key.
#[test]
fn many_reader_writer_works() {
    let mut scheduler = create_scheduler();
    scheduler.add_system(key(0.), writes(KEY_EVENT1, Sys::SendEvent(true)));
    scheduler.add_system(key(0.05), writes(KEY_EVENT1, Sys::SendEvent(false)));
    scheduler.add_system(
        key(0.1),
        reads(KEY_EVENT1, Sys::AssertEvents(vec![true, false])),
    );
    scheduler.add_system(
        key(0.1),
        reads(KEY_EVENT1, Sys::AssertEvents(vec![true, false])),
    );
    scheduler.add_event(KEY_EVENT1, Val::Queue(EventQueue::new()));

    run_scheduler_start(scheduler);
}

// A tick-started run ages and sweeps the queues before its systems run,
// so an event sent during the start run is never seen at the tick phase.
#[test]
fn event_queue_cleared() {
    let mut scheduler = create_scheduler();
    scheduler.add_system(key(0.), writes(KEY_EVENT1, Sys::SendEvent(true)));
    scheduler.add_system(
        key(1.),
        FunctionSystem {
            accesses: vec![AccessDecl::read(KEY_EVENT1), AccessDecl::write(KEY_COUNT)],
            f: Sys::AssertEventCountByRuns,
        },
    );
    scheduler.add_resource(KEY_COUNT, Val::Int(0));
    scheduler.add_event(KEY_EVENT1, Val::Queue(EventQueue::new()));

    let scheduler = run_scheduler_start(scheduler);
    run_scheduler_tick(scheduler);
}

#[test]
fn event_queue_auto_cleared_over_tick() {
    let mut scheduler = create_scheduler();
    scheduler.add_system(key(1.), writes(KEY_EVENT1, Sys::SendEvent(true)));
    scheduler.add_system(key(1.1), reads(KEY_EVENT1, Sys::AssertEvents(vec![true])));
    scheduler.add_event(KEY_EVENT1, Val::Queue(EventQueue::new()));

    run_scheduler_tick(scheduler);
}

#[test]
fn float_precision_order_test() {
    let mut scheduler = create_scheduler();
    scheduler.add_system(
        key(0.5000000000000001 + 2. * f64::EPSILON),
        writes(KEY_MUT1, Sys::AssertInt(KEY_MUT1, 32)),
    );
    scheduler.add_system(
        key(0.49999999999999994),
        writes(KEY_MUT1, Sys::AssertAndDouble(KEY_MUT1, 4)),
    );
    scheduler.add_system(
        key(0.5000000000000001),
        writes(KEY_MUT1, Sys::AssertAndDouble(KEY_MUT1, 8)),
    );
    scheduler.add_system(
        key(f64::MIN_POSITIVE / 2.0),
        writes(KEY_MUT1, Sys::AssertAndDouble(KEY_MUT1, 2)),
    );
    scheduler.add_system(
        key(0.5000000000000001 + f64::EPSILON),
        writes(KEY_MUT1, Sys::AssertAndDouble(KEY_MUT1, 16)),
    );
    scheduler.add_system(key(0.), writes(KEY_MUT1, Sys::AssertAndDouble(KEY_MUT1, 1)));
    scheduler.add_resource(KEY_MUT1, Val::Int(1));

    run_scheduler_start(scheduler);
}

#[test]
fn add_same_type() {
    let mut scheduler = create_scheduler();
    scheduler.add_system(
        key(0.),
        FunctionSystem {
            accesses: vec![AccessDecl::read(KEY_RES1), AccessDecl::read(KEY_RES1)],
            f: Sys::AssertIntTwice(2),
        },
    );
    scheduler.add_resource(KEY_RES1, Val::Int(1));
    scheduler.add_resource(KEY_RES1, Val::Int(2));

    run_scheduler_start(scheduler);
}

// An event sent during one tick run is visible later in that run and
// gone once the next tick run has aged the queue.
#[test]
fn event_sent_once_gone_next_cycle() {
    let mut scheduler = create_scheduler();
    scheduler.add_system(key(1.), writes(KEY_EVENT1, Sys::SendEventOnce(false)));
    scheduler.add_system(
        key(1.1),
        reads(KEY_EVENT1, Sys::AssertEventLenSeq(vec![1, 0, 0], 0)),
    );
    scheduler.add_event(KEY_EVENT1, Val::Queue(EventQueue::new()));

    run_scheduler_tick(scheduler);
}

// Registering an event type twice keeps the first queue.
#[test]
fn add_event_keeps_existing_queue() {
    let mut scheduler = create_scheduler();
    scheduler.add_system(key(1.), writes(KEY_EVENT1, Sys::SendEventOnce(false)));
    scheduler.add_system(
        key(1.1),
        reads(KEY_EVENT1, Sys::AssertEventLenSeq(vec![1], 0)),
    );
    scheduler.add_event(KEY_EVENT1, Val::Queue(EventQueue::new()));
    scheduler.add_resource(KEY_RES1, Val::Int(7));
    scheduler.add_event(KEY_RES1, Val::Queue(EventQueue::new()));
    match scheduler.get_resource(KEY_RES1) {
        Some(Val::Int(v)) => assert_eq!(*v, 7),
        _ => panic!("integer resource replaced by a queue"),
    }
    scheduler
        .run(PhaseKey::tick(), PhaseKey::end())
        .expect("tick run");
}
