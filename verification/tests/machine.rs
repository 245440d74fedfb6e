use caribou::bundle::{emit, load, Bundle, Entry, Error, Manifest, Section, SectionKind};
use caribou::bridge::plan::{length_of, quiet, sequence_outcome};
use caribou::bridge::settle::{Answer, Outcome};
use caribou::describe::{MemberKind, ModuleDesc};
use caribou::heap::api::{enable, mark_size, record_pause};
use caribou::heap::grant::origin_name;
use caribou::heap::host::{needs_lock, AllocKind};
use caribou::heap::immix::{GcStats, ImmixAllocator};
use caribou::heap::layout::{BLOCK_SIZE, LINE_SIZE};
use caribou::heap::lock::{LockStep, ReentrantGcLock, Release};
use caribou::heap::mutators::{site_name, MutatorWorld, Register};
use caribou::heap::roots::RootSet;
use caribou::heap::sizing;
use caribou::heap::threads::{
    add_scan_root, clear_scan_roots, gc_register_current_os_thread,
    gc_unregister_current_os_thread, register_thread, set_scan_roots, set_scan_roots_live,
    set_stack_top, trigger_context, unregister_thread, Deferrals,
};
use caribou::heap::types::{Boxed, Payload, TypeGraph, TypeKind, TypeNode};
use caribou::object::Objects;
use caribou::platform::Platform;
use caribou::protocol::{Callable, Fault};
use caribou::registry::{ClassIface, FieldIface, Interface, MethodIface, TypeRef};
use caribou::symbol::SymbolTable;
use caribou::value::{ErrorKind, Value};

#[test]
fn the_smallest_limit_along_the_path_binds() {
    let limits = |texts: &[&str]| texts.iter().map(|s| s.to_string()).collect::<Vec<_>>();
    assert_eq!(
        sizing::cgroup_dirs("0::/user/app").unwrap(),
        ["/sys/fs/cgroup", "/sys/fs/cgroup/user", "/sys/fs/cgroup/user/app"]
    );
    assert_eq!(sizing::cgroup_dirs("nothing"), None);
    let meminfo = "MemFree: 1 kB\nMemTotal:       2048 kB\n";
    let found = limits(&["max\n", "1000\n", " 500 \n", "0", "9223372036854771712"]);
    assert_eq!(sizing::usable_ram_bytes(&found, Some(meminfo)), 500);
    assert_eq!(
        sizing::usable_ram_bytes(&limits(&["max"]), Some(meminfo)),
        2048 * 1024
    );
    assert_eq!(
        sizing::usable_ram_bytes(&limits(&[]), None),
        2 * 1024 * 1024 * 1024
    );
}

#[test]
fn settings_are_read_as_they_are_spelled() {
    assert_eq!(sizing::heartbeat_interval(Some("5")), 5);
    assert_eq!(sizing::heartbeat_interval(Some("soon")), 30000);
    assert_eq!(sizing::growth_factor(Some("0")), 4);
    assert_eq!(sizing::growth_factor(Some("3")), 3);
    assert_eq!(sizing::gc_stress_every(Some("0")), 0);
    assert_eq!(sizing::gc_stress_every(Some("16")), 16);
    assert_eq!(sizing::gc_stress_every(Some("yes")), 1);
    assert!(!sizing::recycle_lines(Some("0")));
    assert!(sizing::handback_enabled(None));
    assert!(sizing::no_reclaim(Some("1")));
    assert!(!sizing::gc_stats_enabled(Some("")));
    assert!(sizing::gc_stats_enabled(Some("1")));
    assert!(!sizing::tlab_enabled(0, Some("off")));
    assert!(!sizing::tlab_enabled(3, None));
    let wasm = Platform::Wasm { threads: true };
    assert_eq!(sizing::mark_threads(Some("0"), Some(8), Platform::Native), 1);
    assert_eq!(sizing::mark_threads(Some("6"), Some(8), Platform::Native), 6);
    assert_eq!(sizing::mark_threads(None, Some(8), Platform::Native), 7);
    assert_eq!(sizing::mark_threads(None, Some(8), wasm), 1);
    assert_eq!(sizing::mark_threads(Some("6"), Some(8), wasm), 6);
}

#[test]
fn sizes_follow_the_machine() {
    const GB: u64 = 1 << 30;
    assert_eq!(sizing::heap_max_bytes(None, GB), 512 << 20);
    assert_eq!(sizing::heap_max_bytes(None, 8 * GB), 2 * GB);
    assert_eq!(sizing::heap_max_bytes(None, 64 * GB), 4 * GB);
    assert_eq!(sizing::heap_max_bytes(Some(1), GB), 32 << 20);
    assert_eq!(sizing::heap_max_bytes(Some(100), GB), 100 << 20);
    assert_eq!(sizing::trigger_floor_bytes(None), 8 << 20);
    assert_eq!(sizing::trigger_floor_bytes(Some(0)), 1 << 20);
    assert_eq!(sizing::trigger_ceiling_bytes(GB), 64 << 20);
    assert_eq!(sizing::trigger_ceiling_bytes(8 * GB), 256 << 20);
    assert!(sizing::triggered_collection_allowed(true, 0, 64 << 20, GB));
    assert!(!sizing::triggered_collection_allowed(false, 0, 64 << 20, GB));
    assert!(sizing::triggered_collection_allowed(
        false,
        256 << 20,
        64 << 20,
        GB
    ));
}

#[test]
fn roots_are_kept_once() {
    let mut roots = RootSet::new();
    roots.register_global(4);
    roots.push_stack_root(5);
    roots.push_stack_root(6);
    roots.pop_stack_root();
    assert_eq!(roots.globals, vec![4]);
    assert_eq!(roots.stack_roots, vec![5]);
    roots.register_persistent(9);
    roots.register_persistent(9);
    assert_eq!(roots.persistent_roots, vec![9]);
    roots.unregister_persistent(9);
    assert!(!roots.has_persistent(9));
    roots.add_root_slot(64);
    roots.add_root_slot(64);
    assert!(roots.has_root_slot(64));
    roots.remove_root_slot(64);
    assert!(!roots.has_root_slot(64));
}

#[test]
fn a_stack_is_registered_with_its_threads_own() {
    let mut gc = ImmixAllocator::with_heap_size(0x40_0000, BLOCK_SIZE * 2);
    gc.register_fiber_stack(7, 3, 0x9000, 0x1000);
    let ids: Vec<u32> = gc.fiber_stacks.iter().map(|f| f.id).collect();
    assert_eq!(ids, [0, 3]);
    gc.update_fiber_sp(7, 3, 0x9800);
    assert_eq!(gc.fiber_stacks[1].saved_sp, 0x9800);
    gc.unregister_fiber_stack(7, 3);
    assert_eq!(gc.fiber_stacks.len(), 1);
    gc.set_globals(0x5000, 4);
    assert_eq!(gc.globals_range, Some((0x5000, 4)));
    enable(&mut gc.trigger, false);
    assert!(!gc.trigger.enabled);
    let mut world = MutatorWorld::new();
    assert_eq!(set_stack_top(&mut world, 7, 0xa000), Register::Done);
    clear_scan_roots(&mut gc, &mut world, 7);
    assert!(gc.trigger.safepoint_mode);
    add_scan_root(&mut gc, &mut world, 7, 0x100, 32);
    add_scan_root(&mut gc, &mut world, 7, 0, 32);
    assert_eq!(world.scan_range_count(), 0);
    assert!(!gc.scan_roots_done(&mut world, 7));
    assert_eq!(world.scan_range_count(), 1);
    gc.trigger.collect_pending = true;
    let ranges = vec![(1, 8), (0, 8), (2, 0), (3, 8)];
    assert!(set_scan_roots(&mut gc, &mut world, 7, &ranges));
    assert_eq!(world.scan_range_count(), 2);
    set_scan_roots_live(&mut gc, &mut world, 7, 0x600, 0x700);
    assert_eq!(world.mutators[0].scan_live, Some((0x600, 0x700)));
    world.mark_site(7, 2);
    assert_eq!(world.mutators[0].site, 2);
    assert_eq!(site_name(2), "enter-blocking");
    assert_eq!(world.registered_threads(4), vec![7]);
    assert_eq!(world.stragglers(1), vec!["runtime 0x7".to_owned()]);
    assert_eq!(register_thread(&mut world, 8, 0xb000), Register::Done);
    assert_eq!(world.mutators[1].role, "hdll");
    gc.register_fiber_stack(8, 4, 0x9000, 0x1000);
    let mut deferrals = Deferrals::new();
    deferrals.set_deferred_collection(7, true);
    deferrals.set_deferred_collection(8, true);
    let context = trigger_context(&world, &deferrals, 7, 3, true, 5, 6);
    assert!(context.registered && context.deferred && context.quiet);
    assert_eq!((context.stress, context.ceiling, context.heap_max), (3, 5, 6));
    unregister_thread(&mut gc, &mut world, &mut deferrals, 7);
    assert!(!deferrals.is_deferred(7) && deferrals.is_deferred(8));
    let context = trigger_context(&world, &deferrals, 7, 0, false, 5, 6);
    assert!(!context.registered && !context.deferred);
    assert_eq!(world.registered_threads(4), vec![8]);
    let owners: Vec<u64> = gc.fiber_stacks.iter().map(|f| f.thread).collect();
    assert_eq!(owners, [8, 8]);
    let r = gc_register_current_os_thread(&mut world, 9, 0);
    assert_eq!(r, Register::Ignored);
    gc_unregister_current_os_thread(&mut gc, &mut world, &mut deferrals, 8);
    assert!(!deferrals.is_deferred(8));
    assert!(world.mutators.is_empty());
}

#[test]
fn a_type_marks_what_it_names() {
    let base = 0x40_0000;
    let mut gc = ImmixAllocator::with_heap_size(base, BLOCK_SIZE * 2);
    let line = |n: usize| base + n * LINE_SIZE;
    let graph = TypeGraph {
        nodes: vec![
            TypeNode {
                addr: line(0),
                kind: TypeKind::Object {
                    fields: vec![line(4)],
                    sup: 0,
                },
            },
            TypeNode {
                addr: line(4),
                kind: TypeKind::Function {
                    args: vec![line(0)],
                    ret: line(8),
                },
            },
            TypeNode {
                addr: line(8),
                kind: TypeKind::Other,
            },
        ],
    };
    gc.mark_object(&graph, line(0));
    let marked: Vec<usize> = (0..256)
        .filter(|&l| gc.space.tables.blocks[0].is_marked(l))
        .collect();
    assert!(marked.contains(&0) && marked.contains(&4) && marked.contains(&8));
    assert!(!marked.contains(&12));
    let boxed = Boxed {
        addr: line(20),
        size: 16,
        t: line(8),
        payload: Payload::Nothing,
    };
    gc.mark_vdynamic(&graph, &boxed);
    assert!(gc.space.tables.blocks[0].is_marked(20));
}

#[test]
fn a_lock_is_handed_over() {
    let mut lock = ReentrantGcLock::new();
    assert_eq!(lock.acquire(1), LockStep::Taken);
    assert_eq!(lock.acquire(1), LockStep::Nested);
    assert_eq!(lock.acquire(2), LockStep::Busy);
    lock.begin_wait();
    assert!(!lock.retry(2));
    assert_eq!(lock.release(1), Release::Held);
    assert_eq!(lock.release(1), Release::Freed { notify: true });
    assert!(lock.retry(2));
    assert_eq!(lock.held_depth(2), 1);
}

#[test]
fn only_some_kinds_need_the_lock() {
    assert!(needs_lock(AllocKind::Finalizer, false, false));
    assert!(needs_lock(AllocKind::Typed, true, true));
    assert!(!needs_lock(AllocKind::Typed, true, false));
    assert!(!needs_lock(AllocKind::Raw, true, true));
    assert_eq!(mark_size(0), 0);
    assert_eq!(mark_size(8), 4);
    assert_eq!(mark_size(257 * 8), 36);
    assert_eq!(origin_name(6), "explicit");
    let mut stats = GcStats::new();
    record_pause(&mut stats, 5);
    record_pause(&mut stats, 3);
    assert_eq!((stats.pause_ns_total, stats.pause_ns_max), (8, 5));
    stats.pause_ns_total = u64::MAX;
    record_pause(&mut stats, 2);
    assert_eq!((stats.pause_ns_total, stats.pause_ns_max), (1, 5));
}

#[test]
fn a_kind_that_is_not_known_is_refused() {
    let bundle = Bundle {
        manifest: Manifest {
            name: "n".to_owned(),
            entry: Entry {
                lang: "l".to_owned(),
                module: "m".to_owned(),
            },
            namespaces: vec![],
        },
        sections: vec![Section {
            kind: SectionKind::Language,
            lang: String::new(),
            format: String::new(),
            name: "x".to_owned(),
            data: vec![],
        }],
    };
    let mut bytes = emit(&bundle);
    // The kind is the byte before the section's first text.
    let texts = 4 + 4 + 4 + 1 + 4;
    let at = bytes.len() - texts - 1;
    assert_eq!(bytes[at], 5);
    bytes[at] = 9;
    let e = load(&bytes).unwrap_err();
    assert_eq!(e, Error::Kind(9));
    assert_eq!(e.message(), "section kind 9 is not known here");
    assert_eq!(
        Error::Version(7).message(),
        "bundle version 7; this build reads 1"
    );
    assert_eq!(
        Error::Flags(18).message(),
        "bundle flags 0x12 are not known here"
    );
    assert_eq!(Error::Truncated.message(), "the bundle ends early");
}

#[test]
fn a_sequences_faults_are_described() {
    let mut objects = Objects::new();
    let v = objects.foreign(4, "List");
    let missing = sequence_outcome(&objects, v, "index", Answer::Reply(Err(Fault::Missing)));
    match missing {
        Outcome::Fault(kind, m) => {
            assert_eq!(kind, ErrorKind::Index);
            assert_eq!(m, "a List has no element there");
        }
        _ => panic!("a fault"),
    }
    let mute = sequence_outcome(&objects, v, "len", Answer::Reply(Err(Fault::Unsupported)));
    match mute {
        Outcome::Fault(kind, m) => {
            assert_eq!(kind, ErrorKind::Type);
            assert_eq!(m, "a List does not answer len");
        }
        _ => panic!("a fault"),
    }
    assert_eq!(length_of(Ok(Value::Int(-2))), Ok(0));
    assert_eq!(length_of(Ok(Value::Int(2))), Ok(2));
    assert_eq!(length_of(Err(v)), Err(v));
    assert_eq!(quiet(Answer::Reply(Ok(Value::Int(3)))), (Some(3), false));
    assert_eq!(quiet(Answer::Reply(Err(Fault::Raised))), (None, true));
    assert_eq!(quiet(Answer::Panic("p".to_owned())), (None, false));
}

#[test]
fn an_interface_is_described_member_by_member() {
    let mut table = SymbolTable::new();
    let wren = |table: &mut SymbolTable, sig: &str, is_static: bool| MethodIface {
        name: sig.to_owned(),
        is_static,
        params: vec![],
        ret: TypeRef::Int,
        target: Callable::WrenMethod {
            class: Value::Null,
            signature: table.intern(sig),
            is_static,
        },
    };
    let getter = wren(&mut table, "hp", false);
    let maker = wren(&mut table, "make()", true);
    let iface = Interface {
        lang: 3,
        module: "m".to_owned(),
        classes: vec![ClassIface {
            name: "C".to_owned(),
            ty_name: "m.C".to_owned(),
            superclass: None,
            fields: vec![FieldIface {
                name: "x".to_owned(),
                ty: TypeRef::Float,
            }],
            statics: vec![],
            methods: vec![getter, maker],
            ctor: None,
            class_object: Value::Null,
        }],
    };
    let d = ModuleDesc::of(&iface, "wren", &table);
    assert_eq!((d.lang.as_str(), d.module.as_str()), ("wren", "m"));
    assert_eq!(d.classes[0].fields[0].ty, TypeRef::Float);
    assert_eq!(d.classes[0].members[0].kind, MemberKind::Getter);
    assert_eq!(d.classes[0].members[0].signature, "hp");
    assert_eq!(d.classes[0].members[1].kind, MemberKind::Static);
}

#[test]
fn a_thread_defers_until_it_is_told_otherwise() {
    let mut deferrals = Deferrals::new();
    assert!(!deferrals.is_deferred(3));
    deferrals.set_deferred_collection(3, true);
    deferrals.set_deferred_collection(3, true);
    deferrals.set_deferred_collection(4, false);
    assert!(deferrals.is_deferred(3) && !deferrals.is_deferred(4));
    deferrals.set_deferred_collection(3, false);
    assert!(!deferrals.is_deferred(3));
}
