//! The operation lifecycle engine, free transitions and the tick scheduler.
use sp_runtime::ops::{Callable, OpState, Operation, Registry};
use sp_runtime::runtime::Scheduler;
use sp_runtime::state::StateSpace;
use sp_runtime::transitions::{Transition, TransitionList};
use sp_runtime::value::Value;

/// A small callable vocabulary standing in for the scripted guards/actions.
enum Cb {
    Const(bool),
    Fail(&'static str),
    ReadEqStr(&'static str, &'static str),
    SetBool(&'static str),
}

impl Callable for Cb {
    fn call(&mut self, space: &mut StateSpace) -> Result<Value, String> {
        match self {
            Cb::Const(b) => Ok(Value::Bool(*b)),
            Cb::Fail(m) => Err(m.to_string()),
            Cb::ReadEqStr(p, want) => match space.get(p) {
                Ok(Value::Str(s)) => Ok(Value::Bool(s == *want)),
                _ => Ok(Value::Bool(false)),
            },
            Cb::SetBool(p) => {
                let _ = space.set(p, Value::Bool(true));
                Ok(Value::Null)
            },
        }
    }
}

fn op(name: &str) -> Operation<Cb> {
    Operation::new(name.to_string())
}

#[test]
fn default_operation_never_leaves_idle() {
    let mut space = StateSpace::new();
    let mut sched: Scheduler<Cb> = Scheduler::new();
    sched.registry.register(op("lazy"));
    for _ in 0..5 {
        let (fired, errors) = sched.tick(&mut space);
        assert!(fired.is_empty());
        assert!(errors.is_empty());
        assert_eq!(sched.registry.ops[0].state, OpState::Idle);
    }
}

#[test]
fn true_start_guard_fires_once_and_executes() {
    let mut space = StateSpace::new();
    let mut sched: Scheduler<Cb> = Scheduler::new();
    let mut o = op("motor");
    o.start_guard = Some(Cb::Const(true));
    o.start_action = Some(Cb::SetBool("motor_ran"));
    sched.registry.register(o);
    let (fired, errors) = sched.tick(&mut space);
    assert_eq!(fired, vec!["start_motor".to_string()]);
    assert!(errors.is_empty());
    assert_eq!(sched.registry.ops[0].state, OpState::Executing);
    assert_eq!(space.get("motor_ran").unwrap(), Value::Bool(true));
}

#[test]
fn default_finish_guard_finishes_next_tick() {
    let mut space = StateSpace::new();
    let mut sched: Scheduler<Cb> = Scheduler::new();
    let mut o = op("motor");
    o.start_guard = Some(Cb::Const(true));
    sched.registry.register(o);
    sched.tick(&mut space);
    assert_eq!(sched.registry.ops[0].state, OpState::Executing);
    let (fired, _) = sched.tick(&mut space);
    assert_eq!(fired, vec!["finish_motor".to_string()]);
    assert_eq!(sched.registry.ops[0].state, OpState::Finished);
}

#[test]
fn full_cycle_returns_to_idle() {
    let mut space = StateSpace::new();
    let mut sched: Scheduler<Cb> = Scheduler::new();
    let mut o = op("cyc");
    o.start_guard = Some(Cb::Const(true));
    o.reset_guard = Some(Cb::Const(true));
    sched.registry.register(o);
    sched.tick(&mut space);
    sched.tick(&mut space);
    assert_eq!(sched.registry.ops[0].state, OpState::Finished);
    let (fired, _) = sched.tick(&mut space);
    assert_eq!(fired, vec!["reset_cyc".to_string()]);
    assert_eq!(sched.registry.ops[0].state, OpState::Idle);
}

#[test]
fn guard_fault_is_contained_and_recorded_once() {
    let mut space = StateSpace::new();
    let mut sched: Scheduler<Cb> = Scheduler::new();
    let mut o = op("pump");
    o.start_guard = Some(Cb::Fail("boom"));
    sched.registry.register(o);
    let (fired, errors) = sched.tick(&mut space);
    assert!(fired.is_empty());
    assert_eq!(errors, vec!["start_pump: boom".to_string()]);
    assert_eq!(sched.registry.ops[0].state, OpState::Idle);
}

#[test]
fn guard_fault_does_not_block_other_operations() {
    let mut space = StateSpace::new();
    let mut sched: Scheduler<Cb> = Scheduler::new();
    let mut bad = op("bad");
    bad.start_guard = Some(Cb::Fail("oops"));
    let mut good = op("good");
    good.start_guard = Some(Cb::Const(true));
    sched.registry.register(bad);
    sched.registry.register(good);
    let (fired, errors) = sched.tick(&mut space);
    assert_eq!(fired, vec!["start_good".to_string()]);
    assert_eq!(errors, vec!["start_bad: oops".to_string()]);
}

#[test]
fn action_fault_is_contained_and_recorded() {
    let mut space = StateSpace::new();
    let mut sched: Scheduler<Cb> = Scheduler::new();
    let mut o = op("act");
    o.start_guard = Some(Cb::Const(true));
    o.start_action = Some(Cb::Fail("bad"));
    sched.registry.register(o);
    let (fired, errors) = sched.tick(&mut space);
    assert_eq!(fired, vec!["start_act".to_string()]);
    assert_eq!(errors, vec!["start_act: bad".to_string()]);
    assert_eq!(sched.registry.ops[0].state, OpState::Executing);
}

#[test]
fn pump_scenario_end_to_end() {
    let mut space = StateSpace::new();
    space.set("state.state", Value::Str("i".to_string())).unwrap();
    let mut sched: Scheduler<Cb> = Scheduler::new();
    let mut o = op("pump");
    o.start_guard = Some(Cb::ReadEqStr("state.state", "i"));
    o.start_action = Some(Cb::SetBool("ran"));
    sched.registry.register(o);
    let (fired, errors) = sched.tick(&mut space);
    assert_eq!(fired, vec!["start_pump".to_string()]);
    assert!(errors.is_empty());
    assert_eq!(sched.registry.ops[0].state, OpState::Executing);
    assert_eq!(space.get("ran").unwrap(), Value::Bool(true));
}

#[test]
fn registration_replaces_by_name() {
    let mut reg: Registry<Cb> = Registry::new();
    reg.register(op("a"));
    let mut replacement = op("a");
    replacement.start_guard = Some(Cb::Const(true));
    reg.register(replacement);
    assert_eq!(reg.ops.len(), 1);
    assert!(reg.ops[0].start_guard.is_some());
    reg.register(op("b"));
    assert_eq!(reg.ops.len(), 2);
}

#[test]
fn deregistration_removes_by_name() {
    let mut reg: Registry<Cb> = Registry::new();
    reg.register(op("a"));
    reg.register(op("b"));
    assert!(reg.deregister(&"a".to_string()));
    assert_eq!(reg.ops.len(), 1);
    assert_eq!(reg.ops[0].name, "b");
    assert!(!reg.deregister(&"a".to_string()));
}

#[test]
fn transitions_fire_in_registration_order() {
    let mut space = StateSpace::new();
    let mut list: TransitionList<Cb> = TransitionList::new();
    list.add(Transition {
        name: "t1".to_string(),
        guard: Cb::Const(true),
        action: Cb::SetBool("one"),
    });
    list.add(Transition {
        name: "t2".to_string(),
        guard: Cb::Const(false),
        action: Cb::SetBool("two"),
    });
    let fired = list.run_all(&mut space).unwrap();
    assert_eq!(fired, 1);
    assert_eq!(space.get("one").unwrap(), Value::Bool(true));
    assert!(space.get("two").is_err());
}

#[test]
fn empty_transition_list_sweeps_clean() {
    let mut space = StateSpace::new();
    let mut list: TransitionList<Cb> = TransitionList::new();
    assert_eq!(list.run_all(&mut space), Ok(0));
}

#[test]
fn empty_tick_fires_and_records_nothing() {
    let mut space = StateSpace::new();
    let mut sched: Scheduler<Cb> = Scheduler::new();
    let (fired, errors) = sched.tick(&mut space);
    assert!(fired.is_empty());
    assert!(errors.is_empty());
}

#[test]
fn transition_fault_propagates() {
    let mut space = StateSpace::new();
    let mut list: TransitionList<Cb> = TransitionList::new();
    list.add(Transition {
        name: "t".to_string(),
        guard: Cb::Fail("dead"),
        action: Cb::SetBool("x"),
    });
    assert_eq!(list.run_all(&mut space), Err("dead".to_string()));
}

#[test]
fn tick_runs_functions_and_records_their_faults() {
    let mut space = StateSpace::new();
    let mut sched: Scheduler<Cb> = Scheduler::new();
    sched.add_function("poll".to_string(), Cb::SetBool("polled"));
    sched.add_function("broken".to_string(), Cb::Fail("nope"));
    let (fired, errors) = sched.tick(&mut space);
    assert!(fired.is_empty());
    assert_eq!(errors, vec!["broken: nope".to_string()]);
    assert_eq!(space.get("polled").unwrap(), Value::Bool(true));
}
