use promethius::Access;
use promethius::AccessDecl;
use promethius::AccessTable;
use promethius::Accumulator;
use promethius::Accumulators;
use promethius::BiMap;
use promethius::CommandBuffer;
use promethius::Delay;
use promethius::Event;
use promethius::EventQueue;
use promethius::EventQueueHandler;
use promethius::EventReader;
use promethius::EventWriter;
use promethius::FunctionSystem;
use promethius::LabelComponent;
use promethius::PhaseKey;
use promethius::PluginId;
use promethius::PluginRegistry;
use promethius::ResMut;
use promethius::ResourceStore;
use promethius::Scheduler;
use promethius::SchedulerError;
use promethius::System;
use promethius::SystemParam;
use promethius::Tick;
use promethius::Time;
use promethius::update_tick_count;
use promethius::update_time;

fn key(x: f64) -> PhaseKey {
    PhaseKey::from_bits(x.to_bits()).expect("phase key in range")
}

#[test]
fn phase_keys_follow_ieee_total_order() {
    let keys = [
        0.0f64,
        f64::MIN_POSITIVE / 2.0,
        0.49999999999999994,
        0.5000000000000001,
        0.5000000000000001 + f64::EPSILON,
        0.5000000000000001 + 2.0 * f64::EPSILON,
    ];
    for w in keys.windows(2) {
        assert!(key(w[0]).lt(&key(w[1])), "{} < {}", w[0], w[1]);
        assert!(key(w[0]).le(&key(w[1])));
        assert!(!key(w[1]).le(&key(w[0])));
    }
}

#[test]
fn phase_key_bounds() {
    assert!(PhaseKey::from_bits(0.0f64.to_bits()).is_ok());
    assert!(PhaseKey::from_bits(3.9999999999999996f64.to_bits()).is_ok());
    assert!(PhaseKey::from_bits(4.0f64.to_bits()).is_err());
    assert!(PhaseKey::from_bits(f64::INFINITY.to_bits()).is_err());
    assert!(PhaseKey::from_bits((-1.0f64).to_bits()).is_err());
    // Negative zero is accepted and is the same key as positive zero.
    let nz = PhaseKey::from_bits((-0.0f64).to_bits()).expect("negative zero");
    assert_eq!(nz.bits(), 0);
    assert_eq!(nz, PhaseKey::start());
    assert_eq!(PhaseKey::tick().bits(), 1.0f64.to_bits());
    assert_eq!(PhaseKey::end().bits(), 2.0f64.to_bits());
    assert_eq!(PhaseKey::exit().bits(), 3.0f64.to_bits());
}

#[test]
fn access_table_policy() {
    let mut t = AccessTable::new();
    assert!(t.declare(AccessDecl::read(7)).is_ok());
    assert!(t.declare(AccessDecl::read(7)).is_ok());
    assert_eq!(
        t.declare(AccessDecl::write(7)),
        Err(SchedulerError::AliasRw { key: 7 })
    );
    assert!(t.declare(AccessDecl::write(8)).is_ok());
    assert_eq!(
        t.declare(AccessDecl::write(8)),
        Err(SchedulerError::AliasWw { key: 8 })
    );
    assert_eq!(
        t.declare(AccessDecl::read(8)),
        Err(SchedulerError::AliasRw { key: 8 })
    );
    t.clear();
    assert!(t.declare(AccessDecl::write(8)).is_ok());
}

#[derive(Debug, PartialEq, Clone, Copy)]
struct Ping(u32);

impl Event for Ping {}

#[test]
fn event_queue_one_cycle() {
    let mut q: EventQueue<Ping> = EventQueue::new();
    q.push(Ping(1));
    q.push(Ping(2));
    assert_eq!(q.len(), 2);
    assert_eq!(q.copy_of_events().as_slice(), &[Ping(1), Ping(2)]);
    // One tick boundary: everything that was live is swept.
    q.increment_and_cleanup();
    assert_eq!(q.len(), 0);
    // What is sent after the boundary lives until the next one.
    q.push(Ping(3));
    assert_eq!(q.copy_of_events().as_slice(), &[Ping(3)]);
    q.increment_and_cleanup();
    assert_eq!(q.len(), 0);
}

#[test]
fn event_reader_and_writer() {
    let q: EventQueue<Ping> = EventQueue::new();
    let mut w = EventWriter::new(q);
    w.send(Ping(9));
    w.send(Ping(10));
    let q = w.into_queue();
    let r = EventReader::new(&q);
    assert_eq!(r.read().as_slice(), &[Ping(9), Ping(10)]);
    // Reads do not consume: a second reader sees the same events.
    let r2 = EventReader::new(&q);
    assert_eq!(r2.read().len(), 2);
}

#[test]
fn resource_store_semantics() {
    let mut s: ResourceStore<&str> = ResourceStore::new();
    assert_eq!(s.len(), 0);
    s.insert(1, "a");
    s.insert(2, "b");
    assert_eq!(s.len(), 2);
    assert!(s.contains(1));
    assert_eq!(s.get(1), Some(&"a"));
    // A second insertion under one key overwrites the first.
    s.insert(1, "c");
    assert_eq!(s.len(), 2);
    assert_eq!(s.get(1), Some(&"c"));
    assert_eq!(s.remove(1), Some("c"));
    assert_eq!(s.get(1), None);
    assert_eq!(s.remove(1), None);
    let mut keys = s.keys();
    keys.sort();
    assert_eq!(keys, vec![2]);
}

#[test]
fn command_buffer_defers_until_run() {
    let mut world = hecs::World::new();
    let mut cb = CommandBuffer::new();
    cb.spawn(41);
    cb.spawn(42);
    assert_eq!(cb.len(), 2);
    // Nothing is visible before the buffer runs on the world.
    assert_eq!(world.len(), 0);
    assert!(cb.run_on(&mut world));
    assert_eq!(cb.len(), 0);
    assert_eq!(world.len(), 2);
    let mut labels: Vec<u64> = world.query::<&u64>().iter().map(|l| *l).collect();
    labels.sort();
    assert_eq!(labels, vec![41, 42]);
}

struct NoVal;

enum NoSys {}

impl System<NoVal> for NoSys {
    fn run(
        &mut self,
        _resources: &mut ResourceStore<NoVal>,
        _world: &mut Option<hecs::World>,
        _commands: &mut CommandBuffer,
    ) {
    }
}

impl EventQueueHandler for NoVal {
    fn increment_and_cleanup(&mut self) {}
}

#[test]
fn run_log_reports_order_and_boundaries() {
    let mut scheduler: Scheduler<NoVal, NoSys> = Scheduler::new();
    // No world: a boundary run skips the flush instead of failing.
    let log = scheduler
        .run(PhaseKey::start(), PhaseKey::tick())
        .expect("empty run");
    assert!(!log.aged);
    assert!(!log.flushed);
    assert!(log.entries.is_empty());
    scheduler.insert_world(hecs::World::new());
    let log = scheduler
        .run(PhaseKey::tick(), PhaseKey::end())
        .expect("tick run");
    assert!(log.aged);
    assert!(log.flushed);
    let log = scheduler
        .run(PhaseKey::end(), PhaseKey::exit())
        .expect("end run");
    assert!(!log.aged);
    assert!(!log.flushed);
}

struct Recorder;

impl System<NoVal> for Recorder {
    fn run(
        &mut self,
        _resources: &mut ResourceStore<NoVal>,
        _world: &mut Option<hecs::World>,
        _commands: &mut CommandBuffer,
    ) {
    }
}

#[test]
fn run_log_entries_ascend_whatever_the_registration_order() {
    let mut scheduler: Scheduler<NoVal, Recorder> = Scheduler::new();
    let phases = [0.7, 0.1, 0.9, 0.1, 0.4];
    for p in phases {
        scheduler.add_system(
            key(p),
            FunctionSystem {
                accesses: vec![],
                f: Recorder,
            },
        );
    }
    let log = scheduler
        .run(PhaseKey::start(), PhaseKey::tick())
        .expect("run");
    let entries = log.entries;
    assert_eq!(entries.len(), 5);
    assert_eq!(
        entries,
        vec![
            (0.1f64.to_bits(), 0),
            (0.1f64.to_bits(), 1),
            (0.4f64.to_bits(), 0),
            (0.7f64.to_bits(), 0),
            (0.9f64.to_bits(), 0),
        ]
    );
}

#[test]
fn function_system_builder_collects_declarations() {
    let fs = FunctionSystem::new(Recorder)
        .with_param::<ResMut<i32>>(3)
        .with_param::<CommandBuffer>(9)
        .with_param::<EventQueue<Ping>>(5);
    assert_eq!(
        fs.accesses,
        vec![
            AccessDecl {
                key: 3,
                access: Access::Write
            },
            AccessDecl {
                key: 5,
                access: Access::Read
            },
        ]
    );
}

#[test]
fn system_param_families_declare_as_documented() {
    assert_eq!(
        <ResMut<i32>>::accesses(5),
        Some(AccessDecl {
            key: 5,
            access: Access::Write
        })
    );
    assert_eq!(<CommandBuffer>::accesses(5), None);
    assert_eq!(
        <EventWriter<Ping>>::accesses(6),
        Some(AccessDecl {
            key: 6,
            access: Access::Write
        })
    );
    assert_eq!(
        <EventQueue<Ping>>::accesses(6),
        Some(AccessDecl {
            key: 6,
            access: Access::Read
        })
    );
}

#[test]
fn time_and_ticks() {
    let mut time = Time::new(1_000);
    update_time(&mut time, 1_500);
    assert_eq!(time.now, 1_500);
    assert_eq!(time.dt, 500);
    assert_eq!(time.init, 1_000);
    update_time(&mut time, 1_500);
    assert_eq!(time.dt, 0);

    let mut tick = Tick::default();
    update_tick_count(&mut tick);
    update_tick_count(&mut tick);
    assert_eq!(tick, Tick(2));

    let mut acc = Accumulator::new(100);
    assert_eq!(acc.time_since(160), 60);
    acc.update(200);
    assert_eq!(acc.time_since(230), 30);

    let mut accs = Accumulators::new();
    assert_eq!(accs.insert_one("frame", 10), None);
    assert_eq!(accs.insert_one("physics", 20), None);
    // A second insertion under a known label replaces that stopwatch.
    assert_eq!(accs.insert_one("frame", 50), Some(Accumulator { time: 10 }));
    assert_eq!(accs.accumulators.len(), 2);
}

#[test]
fn bimap_two_way_lookup() {
    let mut m: BiMap<u32, String> = BiMap::new();
    m.insert(1, "one".to_string());
    m.insert(2, "two".to_string());
    assert_eq!(m.get_value(&1), Some(&"one".to_string()));
    assert_eq!(m.get_key(&"two".to_string()), Some(&2));
    assert_eq!(m.get_value(&3), None);
    assert_eq!(m.get_key(&"three".to_string()), None);
    // A later insertion shadows the earlier one in both directions.
    m.insert(1, "uno".to_string());
    assert_eq!(m.get_value(&1), Some(&"uno".to_string()));
    assert_eq!(m.get_key(&"uno".to_string()), Some(&1));
}

#[test]
fn plugin_registry_keeps_ids_unique() {
    let mut reg = PluginRegistry::new();
    let time_id = PluginId::new("promethius_TimePlugin");
    assert!(reg.register(time_id.clone()));
    assert!(reg.register(PluginId::new("promethius_UIPlugin")));
    assert!(!reg.register(time_id));
    assert!(reg.contains(&PluginId::new("promethius_UIPlugin")));
    assert!(!reg.contains(&PluginId::new("promethius_LabelPlugin")));
}

#[test]
fn label_and_buttons() {
    let label = LabelComponent::new("player");
    assert_eq!(label.id, "player");
    assert_eq!(Delay::default(), Delay::Tick(Tick(1)));
}
