use promethius::AccessDecl;
use promethius::CommandBuffer;
use promethius::Event;
use promethius::EventQueue;
use promethius::EventQueueHandler;
use promethius::FunctionSystem;
use promethius::PhaseKey;
use promethius::ResourceStore;
use promethius::Scheduler;
use promethius::SchedulerError;
use promethius::System;
use promethius::WORLD_RESOURCE_KEY;

const KEY_I32: u64 = 1;
const KEY_EVENT1: u64 = 2;

struct Event1 {}

impl Event for Event1 {}

enum Val {
    Int(i32),
    Queue(EventQueue<Event1>),
}

impl EventQueueHandler for Val {
    fn increment_and_cleanup(&mut self) {
        match self {
            Val::Queue(q) => q.increment_and_cleanup(),
            Val::Int(_) => {}
        }
    }
}

enum Sys {
    Nop,
    PanicSystem,
}

impl System<Val> for Sys {
    fn run(
        &mut self,
        _resources: &mut ResourceStore<Val>,
        _world: &mut Option<hecs::World>,
        _commands: &mut CommandBuffer,
    ) {
        match self {
            Sys::Nop => {}
            Sys::PanicSystem => panic!("System called"),
        }
    }
}

fn key(x: f64) -> PhaseKey {
    PhaseKey::from_bits(x.to_bits()).expect("phase key in range")
}

fn reads(k: u64, f: Sys) -> FunctionSystem<Sys> {
    FunctionSystem {
        accesses: vec![AccessDecl::read(k)],
        f,
    }
}

fn writes(k: u64, f: Sys) -> FunctionSystem<Sys> {
    FunctionSystem {
        accesses: vec![AccessDecl::write(k)],
        f,
    }
}

fn create_scheduler() -> Scheduler<Val, Sys> {
    let mut scheduler: Scheduler<Val, Sys> = Scheduler::new();
    scheduler.insert_world(hecs::World::new());
    scheduler
}

fn run_start(scheduler: &mut Scheduler<Val, Sys>) -> Result<promethius::RunLog, SchedulerError> {
    scheduler.run(PhaseKey::start(), PhaseKey::tick())
}

#[test]
#[should_panic(expected = "System called")]
fn system_is_called() {
    let mut scheduler = create_scheduler();
    scheduler.add_system(
        key(0.),
        FunctionSystem {
            accesses: vec![],
            f: Sys::PanicSystem,
        },
    );

    let _ = run_start(&mut scheduler);
}

#[test]
fn many_mut_res() {
    let mut scheduler = create_scheduler();
    scheduler.add_system(key(0.), writes(KEY_I32, Sys::Nop));
    scheduler.add_system(key(0.), writes(KEY_I32, Sys::Nop));
    scheduler.add_resource(KEY_I32, Val::Int(1));

    let r = run_start(&mut scheduler);
    assert_eq!(r.err(), Some(SchedulerError::AliasWw { key: KEY_I32 }));
}

#[test]
fn mut_and_res() {
    let mut scheduler = create_scheduler();
    scheduler.add_system(key(0.), reads(KEY_I32, Sys::Nop));
    scheduler.add_system(key(0.), writes(KEY_I32, Sys::Nop));
    scheduler.add_resource(KEY_I32, Val::Int(1));

    let r = run_start(&mut scheduler);
    assert_eq!(r.err(), Some(SchedulerError::AliasRw { key: KEY_I32 }));
}

#[test]
fn ref_and_mut_world() {
    let mut scheduler = create_scheduler();
    scheduler.add_system(key(0.), reads(WORLD_RESOURCE_KEY, Sys::Nop));
    scheduler.add_system(key(0.), writes(WORLD_RESOURCE_KEY, Sys::Nop));

    let r = run_start(&mut scheduler);
    assert_eq!(
        r.err(),
        Some(SchedulerError::AliasRw {
            key: WORLD_RESOURCE_KEY
        })
    );
}

#[test]
fn get_many_mut_world() {
    let mut scheduler = create_scheduler();
    scheduler.add_system(key(0.), writes(WORLD_RESOURCE_KEY, Sys::Nop));
    scheduler.add_system(key(0.), writes(WORLD_RESOURCE_KEY, Sys::Nop));

    let r = run_start(&mut scheduler);
    assert_eq!(
        r.err(),
        Some(SchedulerError::AliasWw {
            key: WORLD_RESOURCE_KEY
        })
    );
}

#[test]
fn event_send_read_same_phase() {
    let mut scheduler = create_scheduler();
    scheduler.add_system(key(0.), writes(KEY_EVENT1, Sys::Nop));
    scheduler.add_system(key(0.), reads(KEY_EVENT1, Sys::Nop));
    scheduler.add_event(KEY_EVENT1, Val::Queue(EventQueue::new()));

    let r = run_start(&mut scheduler);
    assert_eq!(r.err(), Some(SchedulerError::AliasRw { key: KEY_EVENT1 }));
}

#[test]
fn event_read_send_same_phase() {
    let mut scheduler = create_scheduler();
    scheduler.add_system(key(0.), reads(KEY_EVENT1, Sys::Nop));
    scheduler.add_system(key(0.), writes(KEY_EVENT1, Sys::Nop));
    scheduler.add_event(KEY_EVENT1, Val::Queue(EventQueue::new()));

    let r = run_start(&mut scheduler);
    assert_eq!(r.err(), Some(SchedulerError::AliasRw { key: KEY_EVENT1 }));
}

#[test]
fn nan_phase() {
    let bits = f64::NAN.to_bits();
    assert_eq!(
        PhaseKey::from_bits(bits),
        Err(SchedulerError::InvalidPhase { bits })
    );
}

#[test]
fn out_of_bounds_phase1() {
    let bits = (-0.1f64).to_bits();
    assert_eq!(
        PhaseKey::from_bits(bits),
        Err(SchedulerError::InvalidPhase { bits })
    );
}

#[test]
fn out_of_bounds_phase2() {
    let bits = 4.0f64.to_bits();
    assert_eq!(
        PhaseKey::from_bits(bits),
        Err(SchedulerError::InvalidPhase { bits })
    );
}
