//! The operation lifecycle engine.
//!
//! An operation is a long-running guarded unit cycling through
//! `Idle -> Executing -> Finished -> Idle`, at most one phase per tick.
//! Guards and actions are zero-argument callables authored outside the
//! engine; the engine treats them as a capability behind the [`Callable`]
//! trait. A guard fault is contained: it is recorded in the tick's error
//! list and leaves the operation's state unchanged. An action fault is
//! contained the same way (a hardening over letting it abort the tick;
//! the action's partial side effects may of course have happened).
use vstd::prelude::*;
use crate::state::StateSpace;
use crate::text::views_of;
use crate::value::Value;

verus! {

/// The three lifecycle phases.
#[derive(Debug, Clone, Copy, PartialEq, Eq, Structural)]
pub enum OpState {
    Idle,
    Executing,
    Finished,
}

/// The next phase along the fixed cycle.
pub open spec fn advance(st: OpState) -> OpState {
    match st {
        OpState::Idle => OpState::Executing,
        OpState::Executing => OpState::Finished,
        OpState::Finished => OpState::Idle,
    }
}

/// One tick moves a state to itself or one phase onward, never elsewhere.
pub open spec fn one_phase(a: OpState, b: OpState) -> bool {
    b == a || b == advance(a)
}

/// What an unset guard answers: `start` and `reset` default to false,
/// `finish` defaults to true.
pub open spec fn default_verdict(st: OpState) -> bool {
    st is Executing
}

/// The record tag of the phase leaving `st`: `start_`, `finish_` or `reset_`.
pub open spec fn phase_prefix(st: OpState) -> Seq<char> {
    match st {
        OpState::Idle => "start_"@,
        OpState::Executing => "finish_"@,
        OpState::Finished => "reset_"@,
    }
}

/// The fired-record label of an operation leaving `st`.
pub open spec fn phase_label(st: OpState, name: Seq<char>) -> Seq<char> {
    phase_prefix(st) + name
}

/// The error entry for a guard fault `m` in the phase leaving `st`.
pub open spec fn fault_entry(st: OpState, name: Seq<char>, m: Seq<char>) -> Seq<char> {
    phase_label(st, name) + ": "@ + m
}

/// A zero-argument callable bound over the shared state space: the pluggable
/// authoring surface for guards, actions, transitions and tick functions.
/// A guard returns a value read as a truth verdict; an action's value is
/// ignored. A fault is reported as `Err`. An implementation must leave the
/// state space well-formed, which every public `StateSpace` operation does.
pub trait Callable {
    fn call(&mut self, space: &mut StateSpace) -> (r: Result<Value, String>)
        requires
            old(space).wf(),
        ensures
            final(space).wf(),
    ;
}

/// A guarded operation. A `None` guard means the phase's default verdict
/// (`start`/`reset`: false, `finish`: true); a `None` action is a no-op.
pub struct Operation<C> {
    pub name: String,
    pub state: OpState,
    pub start_guard: Option<C>,
    pub start_action: Option<C>,
    pub finish_guard: Option<C>,
    pub finish_action: Option<C>,
    pub reset_guard: Option<C>,
    pub reset_action: Option<C>,
}

/// What one evaluation does, as a function of the phase's guard outcome:
/// `Ok(true)` advances one phase, fires the phase label and runs the action;
/// `Ok(false)` does nothing; a fault records exactly one error entry and
/// changes nothing else.
pub ghost struct StepSpec {
    pub next: OpState,
    pub fired: Option<Seq<char>>,
    pub error: Option<Seq<char>>,
    pub run_action: bool,
}

/// The per-operation step semantics.
pub open spec fn spec_step(st: OpState, name: Seq<char>, outcome: Result<bool, Seq<char>>) -> StepSpec {
    match outcome {
        Ok(true) => StepSpec {
            next: advance(st),
            fired: Some(phase_label(st, name)),
            error: None,
            run_action: true,
        },
        Ok(false) => StepSpec { next: st, fired: None, error: None, run_action: false },
        Err(m) => StepSpec {
            next: st,
            fired: None,
            error: Some(fault_entry(st, name, m)),
            run_action: false,
        },
    }
}

impl<C> Operation<C> {
    /// A newly registered operation: `Idle`, with the given overrides and
    /// defaults everywhere else.
    pub fn new(name: String) -> (r: Operation<C>)
        ensures
            r.name@ == name@,
            r.state == OpState::Idle,
            r.start_guard is None && r.start_action is None && r.finish_guard is None
                && r.finish_action is None && r.reset_guard is None && r.reset_action is None,
    {
        Operation {
            name,
            state: OpState::Idle,
            start_guard: None,
            start_action: None,
            finish_guard: None,
            finish_action: None,
            reset_guard: None,
            reset_action: None,
        }
    }

    /// Whether the guard of the phase leaving `st` is unset (default).
    pub open spec fn guard_is_default(&self, st: OpState) -> bool {
        match st {
            OpState::Idle => self.start_guard is None,
            OpState::Executing => self.finish_guard is None,
            OpState::Finished => self.reset_guard is None,
        }
    }

    /// Whether the action of the phase leaving `st` is unset (no-op).
    pub open spec fn action_is_default(&self, st: OpState) -> bool {
        match st {
            OpState::Idle => self.start_action is None,
            OpState::Executing => self.finish_action is None,
            OpState::Finished => self.reset_action is None,
        }
    }
}

/// Name kept, every guard/action slot kept set or unset as it was.
pub open spec fn slots_preserved<C>(a: Operation<C>, b: Operation<C>) -> bool {
    &&& b.name@ == a.name@
    &&& (b.start_guard is Some <==> a.start_guard is Some)
    &&& (b.start_action is Some <==> a.start_action is Some)
    &&& (b.finish_guard is Some <==> a.finish_guard is Some)
    &&& (b.finish_action is Some <==> a.finish_action is Some)
    &&& (b.reset_guard is Some <==> a.reset_guard is Some)
    &&& (b.reset_action is Some <==> a.reset_action is Some)
}

/// Everything one tick may do to one operation: keep its identity, move at
/// most one phase, and move exactly as the default verdict says wherever the
/// phase's guard is unset.
pub open spec fn stepped<C>(a: Operation<C>, b: Operation<C>) -> bool {
    &&& slots_preserved(a, b)
    &&& one_phase(a.state, b.state)
    &&& (a.guard_is_default(a.state) ==> b.state == (if default_verdict(a.state) {
        advance(a.state)
    } else {
        a.state
    }))
}

/// Build the fired-record label `<prefix><name>` of the phase leaving `st`.
fn make_label(st: OpState, name: &String) -> (r: String)
    ensures
        r@ == phase_label(st, name@),
{
    let mut l = String::new();
    match st {
        OpState::Idle => l.append("start_"),
        OpState::Executing => l.append("finish_"),
        OpState::Finished => l.append("reset_"),
    }
    l.append(name.as_str());
    l
}

/// Apply one guard outcome to an operation: the entire decision logic of a
/// phase evaluation, verified for every possible outcome. Returns whether
/// the phase's action is due.
pub fn apply_outcome<C>(
    op: &mut Operation<C>,
    outcome: Result<bool, String>,
    fired: &mut Vec<String>,
    errors: &mut Vec<String>,
) -> (run_action: bool)
    ensures
        ({
            let ss = spec_step(
                old(op).state,
                old(op).name@,
                match outcome {
                    Ok(b) => Ok(b),
                    Err(m) => Err(m@),
                },
            );
            &&& final(op).state == ss.next
            &&& final(op).name == old(op).name
            &&& final(op).start_guard == old(op).start_guard
            &&& final(op).start_action == old(op).start_action
            &&& final(op).finish_guard == old(op).finish_guard
            &&& final(op).finish_action == old(op).finish_action
            &&& final(op).reset_guard == old(op).reset_guard
            &&& final(op).reset_action == old(op).reset_action
            &&& match ss.fired {
                Some(l) => views_of(final(fired)@) == views_of(old(fired)@).push(l),
                None => final(fired)@ == old(fired)@,
            }
            &&& match ss.error {
                Some(e) => views_of(final(errors)@) == views_of(old(errors)@).push(e),
                None => final(errors)@ == old(errors)@,
            }
            &&& run_action == ss.run_action
        }),
{
    let st = op.state;
    match outcome {
        Ok(true) => {
            op.state = match op.state {
                OpState::Idle => OpState::Executing,
                OpState::Executing => OpState::Finished,
                OpState::Finished => OpState::Idle,
            };
            let label = make_label(st, &op.name);
            let ghost lv = label@;
            let ghost before = fired@;
            fired.push(label);
            proof {
                assert(views_of(fired@) =~= views_of(before).push(lv));
            }
            true
        },
        Ok(false) => false,
        Err(m) => {
            let mut entry = make_label(st, &op.name);
            entry.append(": ");
            entry.append(m.as_str());
            let ghost ev = entry@;
            let ghost before = errors@;
            errors.push(entry);
            proof {
                assert(views_of(errors@) =~= views_of(before).push(ev));
            }
            false
        },
    }
}

/// The full trace one phase evaluation leaves, relative to the guard
/// outcome: state, fired list and error list all move exactly as
/// [`spec_step`] says; an unset guard has its default outcome; an action
/// fault appends exactly one further entry in the same format.
pub open spec fn step_trace<C>(
    a: Operation<C>,
    b: Operation<C>,
    outcome: Result<bool, Seq<char>>,
    fired0: Seq<String>,
    fired1: Seq<String>,
    errors0: Seq<String>,
    errors1: Seq<String>,
) -> bool {
    let ss = spec_step(a.state, a.name@, outcome);
    &&& b.state == ss.next
    &&& (a.guard_is_default(a.state) ==> outcome == Ok::<bool, Seq<char>>(
        default_verdict(a.state),
    ))
    &&& match ss.fired {
        Some(l) => views_of(fired1) == views_of(fired0).push(l),
        None => fired1 == fired0,
    }
    &&& match ss.error {
        Some(e) => views_of(errors1) == views_of(errors0).push(e),
        None => errors1 == errors0 || (ss.run_action && !a.action_is_default(a.state) && exists|
            m: Seq<char>,
        | views_of(errors1) == views_of(errors0).push(fault_entry(a.state, a.name@, m))),
    }
}

/// Evaluate one guard slot; an unset slot answers its default verdict.
fn eval_guard<C: Callable>(g: &mut Option<C>, default: bool, space: &mut StateSpace) -> (r: Result<
    bool,
    String,
>)
    requires
        old(space).wf(),
    ensures
        final(space).wf(),
        (*final(g)) is Some <==> (*old(g)) is Some,
        (*old(g)) is None ==> r == Ok::<bool, String>(default),
{
    match g {
        None => Ok(default),
        Some(c) => match c.call(space) {
            Ok(v) => Ok(v.truthy()),
            Err(m) => Err(m),
        },
    }
}

/// Run one action slot; an unset slot is a no-op. A fault is reported as
/// one error entry in the phase's fault format.
fn run_action_slot<C: Callable>(
    act: &mut Option<C>,
    st: OpState,
    name: &String,
    space: &mut StateSpace,
    errors: &mut Vec<String>,
)
    requires
        old(space).wf(),
    ensures
        final(space).wf(),
        (*final(act)) is Some <==> (*old(act)) is Some,
        final(errors)@ == old(errors)@ || ((*old(act)) is Some && exists|m: Seq<char>|
            views_of(final(errors)@) == views_of(old(errors)@).push(fault_entry(st, name@, m))),
{
    match act {
        None => {},
        Some(c) => match c.call(space) {
            Ok(_) => {},
            Err(m) => {
                let mut entry = make_label(st, name);
                entry.append(": ");
                entry.append(m.as_str());
                let ghost ev = entry@;
                let ghost before = errors@;
                errors.push(entry);
                proof {
                    assert(ev =~= fault_entry(st, name@, m@));
                    assert(views_of(errors@) =~= views_of(before).push(fault_entry(st, name@, m@)));
                }
            },
        },
    }
}

/// Evaluate one operation for one tick: evaluate the guard of its current
/// phase, advance and fire on a true verdict, record a fault otherwise, and
/// run the phase's action after a transition.
pub fn step_op<C: Callable>(
    op: &mut Operation<C>,
    space: &mut StateSpace,
    fired: &mut Vec<String>,
    errors: &mut Vec<String>,
)
    requires
        old(space).wf(),
    ensures
        final(space).wf(),
        stepped(*old(op), *final(op)),
        exists|outcome: Result<bool, Seq<char>>|
            #[trigger] step_trace(
                *old(op),
                *final(op),
                outcome,
                old(fired)@,
                final(fired)@,
                old(errors)@,
                final(errors)@,
            ),
{
    let st = op.state;
    let verdict: Result<bool, String> = match st {
        OpState::Idle => eval_guard(&mut op.start_guard, false, space),
        OpState::Executing => eval_guard(&mut op.finish_guard, true, space),
        OpState::Finished => eval_guard(&mut op.reset_guard, false, space),
    };
    let ghost outcome: Result<bool, Seq<char>> = match &verdict {
        Ok(b) => Ok(*b),
        Err(m) => Err(m@),
    };
    let run = apply_outcome(op, verdict, fired, errors);
    if run {
        let name = op.name.clone();
        match st {
            OpState::Idle => run_action_slot(&mut op.start_action, st, &name, space, errors),
            OpState::Executing => run_action_slot(&mut op.finish_action, st, &name, space, errors),
            OpState::Finished => run_action_slot(&mut op.reset_action, st, &name, space, errors),
        }
    }
    proof {
        assert(step_trace(
            *old(op),
            *op,
            outcome,
            old(fired)@,
            fired@,
            old(errors)@,
            errors@,
        ));
    }
}

/// The operation registry: a name-keyed, unordered collection; a later
/// registration under a held name replaces the earlier operation.
pub struct Registry<C> {
    pub ops: Vec<Operation<C>>,
}

impl<C> Registry<C> {
    /// Registered names are unique.
    pub open spec fn wf(&self) -> bool {
        forall|i: int, j: int|
            0 <= i < j < self.ops@.len() ==> (#[trigger] self.ops@[i].name@) != (
            #[trigger] self.ops@[j].name@)
    }

    /// An empty registry.
    pub fn new() -> (r: Registry<C>)
        ensures
            r.wf(),
            r.ops@.len() == 0,
    {
        Registry { ops: Vec::new() }
    }

    fn find(&self, name: &String) -> (r: Option<usize>)
        ensures
            match r {
                Some(j) => j < self.ops@.len() && self.ops@[j as int].name@ == name@,
                None => forall|t: int|
                    0 <= t < self.ops@.len() ==> (#[trigger] self.ops@[t].name@) != name@,
            },
    {
        let mut j: usize = 0;
        while j < self.ops.len()
            invariant
                j <= self.ops@.len(),
                forall|t: int| 0 <= t < j ==> (#[trigger] self.ops@[t].name@) != name@,
            decreases self.ops@.len() - j,
        {
            if self.ops[j].name == *name {
                return Some(j);
            }
            j += 1;
        }
        None
    }

    /// Register `op`: replace the operation of the same name, or add it.
    pub fn register(&mut self, op: Operation<C>)
        requires
            old(self).wf(),
        ensures
            final(self).wf(),
            (exists|j: int|
                0 <= j < old(self).ops@.len() && (#[trigger] old(self).ops@[j].name@) == op.name@
                    && final(self).ops@ == old(self).ops@.update(j, op)) || ((forall|t: int|
                0 <= t < old(self).ops@.len() ==> (#[trigger] old(self).ops@[t].name@) != op.name@)
                && final(self).ops@ == old(self).ops@.push(op)),
    {
        match self.find(&op.name) {
            Some(j) => {
                self.ops[j] = op;
            },
            None => {
                self.ops.push(op);
            },
        }
    }

    /// Remove the operation registered under `name`, if any.
    pub fn deregister(&mut self, name: &String) -> (found: bool)
        requires
            old(self).wf(),
        ensures
            final(self).wf(),
            found ==> exists|j: int|
                0 <= j < old(self).ops@.len() && (#[trigger] old(self).ops@[j].name@) == name@
                    && final(self).ops@ == old(self).ops@.remove(j),
            !found ==> final(self).ops@ == old(self).ops@ && forall|t: int|
                0 <= t < old(self).ops@.len() ==> (#[trigger] old(self).ops@[t].name@) != name@,
    {
        match self.find(name) {
            Some(j) => {
                self.ops.remove(j);
                true
            },
            None => false,
        }
    }
}

impl<C: Callable> Registry<C> {
    /// One tick's sweep: evaluate every registered operation once, in
    /// isolation — a guard fault in one operation never blocks the others.
    /// Returns the tick's fired-transition labels and error entries.
    pub fn sweep(&mut self, space: &mut StateSpace, fired: &mut Vec<String>, errors: &mut Vec<
        String,
    >)
        requires
            old(self).wf(),
            old(space).wf(),
        ensures
            final(self).wf(),
            final(space).wf(),
            final(self).ops@.len() == old(self).ops@.len(),
            forall|i: int|
                0 <= i < old(self).ops@.len() ==> stepped(
                    old(self).ops@[i],
                    #[trigger] final(self).ops@[i],
                ),
            final(fired)@.len() == old(fired)@.len() + count_advanced(
                old(self).ops@,
                final(self).ops@,
                old(self).ops@.len() as int,
            ),
            exists|outs: Seq<Result<bool, Seq<char>>>, afs: Seq<Option<Seq<char>>>|
                {
                    &&& #[trigger] sweep_trace(old(self).ops@, final(self).ops@, outs, afs)
                    &&& views_of(final(fired)@) == views_of(old(fired)@) + sweep_fired(
                        old(self).ops@,
                        outs,
                        old(self).ops@.len() as int,
                    )
                    &&& views_of(final(errors)@) == views_of(old(errors)@) + sweep_errors(
                        old(self).ops@,
                        outs,
                        afs,
                        old(self).ops@.len() as int,
                    )
                },
    {
        let ghost ops0 = self.ops@;
        let mut k: usize = 0;
        let ghost fired0 = fired@;
        let ghost errors0 = errors@;
        let ghost mut outs: Seq<Result<bool, Seq<char>>> = Seq::empty();
        let ghost mut afs: Seq<Option<Seq<char>>> = Seq::empty();
        while k < self.ops.len()
            invariant
                space.wf(),
                k <= self.ops@.len(),
                self.ops@.len() == ops0.len(),
                outs.len() == k,
                afs.len() == k,
                forall|i: int| 0 <= i < k ==> stepped(ops0[i], #[trigger] self.ops@[i]),
                forall|i: int| k <= i < ops0.len() ==> (#[trigger] self.ops@[i]) == ops0[i],
                fired@.len() == fired0.len() + count_advanced(ops0, self.ops@, k as int),
                forall|i: int|
                    0 <= i < k ==> {
                        let ss = #[trigger] spec_step(ops0[i].state, ops0[i].name@, outs[i]);
                        &&& self.ops@[i].state == ss.next
                        &&& (ops0[i].guard_is_default(ops0[i].state) ==> outs[i] == Ok::<
                            bool,
                            Seq<char>,
                        >(default_verdict(ops0[i].state)))
                        &&& (afs[i] is Some ==> ss.run_action && !ops0[i].action_is_default(
                            ops0[i].state,
                        ))
                    },
                views_of(fired@) == views_of(fired0) + sweep_fired(ops0, outs, k as int),
                views_of(errors@) == views_of(errors0) + sweep_errors(ops0, outs, afs, k as int),
            decreases self.ops@.len() - k,
        {
            let ghost before = self.ops@;
            let ghost fired_before = fired@;
            let ghost errors_before = errors@;
            let mut op = self.ops.remove(k);
            step_op(&mut op, space, fired, errors);
            self.ops.insert(k, op);
            proof {
                assert forall|i: int| 0 <= i <= k implies (#[trigger] self.ops@[i]) == (if i < k {
                    before[i]
                } else {
                    op
                }) by {}
                assert forall|i: int| k < i < ops0.len() implies (#[trigger] self.ops@[i])
                    == before[i] by {}
                lemma_count_advanced_congruent(ops0, before, self.ops@, k as int);
                let a = before[k as int];
                let tr_outcome = choose|outcome: Result<bool, Seq<char>>|
                    #[trigger] step_trace(
                        a,
                        op,
                        outcome,
                        fired_before,
                        fired@,
                        errors_before,
                        errors@,
                    );
                assert(step_trace(
                    a,
                    op,
                    tr_outcome,
                    fired_before,
                    fired@,
                    errors_before,
                    errors@,
                ));
                let ss = spec_step(a.state, a.name@, tr_outcome);
                assert(advance(a.state) != a.state);
                assert(views_of(fired@).len() == fired@.len());
                assert(views_of(fired_before).len() == fired_before.len());
                if op.state == advance(a.state) {
                    assert(ss.fired is Some);
                    assert(views_of(fired@) == views_of(fired_before).push(ss.fired->Some_0));
                    assert(fired@.len() == fired_before.len() + 1);
                } else {
                    assert(fired@.len() == fired_before.len());
                }
                let ghost outs1 = outs.push(tr_outcome);
                let ghost af: Option<Seq<char>> = if ss.error is Some {
                    None
                } else if errors@ == errors_before {
                    None
                } else {
                    Some(
                        choose|m: Seq<char>|
                            views_of(errors@) == views_of(errors_before).push(
                                #[trigger] fault_entry(a.state, a.name@, m),
                            ),
                    )
                };
                let ghost afs1 = afs.push(af);
                lemma_sweep_prefix_congruent(ops0, outs, outs1, afs, afs1, k as int);
                assert(sweep_fired(ops0, outs1, k as int + 1) == sweep_fired(ops0, outs1, k as int)
                    + (match ss.fired {
                    Some(l) => seq![l],
                    None => Seq::<Seq<char>>::empty(),
                }));
                match ss.fired {
                    Some(l) => {
                        assert(views_of(fired@) =~= (views_of(fired0) + sweep_fired(
                            ops0,
                            outs1,
                            k as int,
                        )) + seq![l]);
                        assert(views_of(fired@) =~= views_of(fired0) + sweep_fired(
                            ops0,
                            outs1,
                            k as int + 1,
                        ));
                    },
                    None => {
                        assert(views_of(fired@) =~= views_of(fired0) + sweep_fired(
                            ops0,
                            outs1,
                            k as int + 1,
                        ));
                    },
                }
                let ghost gerr: Seq<Seq<char>> = match ss.error {
                    Some(e) => seq![e],
                    None => Seq::empty(),
                };
                let ghost aerr: Seq<Seq<char>> = match af {
                    Some(m) => seq![fault_entry(a.state, a.name@, m)],
                    None => Seq::empty(),
                };
                assert(views_of(errors@) =~= views_of(errors_before) + gerr + aerr);
                assert(views_of(errors@) =~= (views_of(errors0) + sweep_errors(
                    ops0,
                    outs1,
                    afs1,
                    k as int,
                )) + gerr + aerr);
                assert(views_of(errors@) =~= views_of(errors0) + sweep_errors(
                    ops0,
                    outs1,
                    afs1,
                    k as int + 1,
                ));
                outs = outs1;
                afs = afs1;
            }
            k += 1;
        }
        proof {
            assert forall|i: int, j: int|
                0 <= i < j < self.ops@.len() implies (#[trigger] self.ops@[i].name@) != (
            #[trigger] self.ops@[j].name@) by {
                assert(stepped(ops0[i], self.ops@[i]));
                assert(stepped(ops0[j], self.ops@[j]));
            }
            assert(sweep_trace(ops0, self.ops@, outs, afs));
        }
    }
}

/// The fired labels a sweep leaves, as a function of the per-operation
/// guard outcomes, over the first `k` operations.
pub open spec fn sweep_fired<C>(
    a: Seq<Operation<C>>,
    outs: Seq<Result<bool, Seq<char>>>,
    k: int,
) -> Seq<Seq<char>>
    decreases k,
{
    if k <= 0 {
        Seq::empty()
    } else {
        sweep_fired(a, outs, k - 1) + match spec_step(a[k - 1].state, a[k - 1].name@, outs[k - 1]).fired {
            Some(l) => seq![l],
            None => Seq::empty(),
        }
    }
}

/// The error entries a sweep leaves: per operation, its guard-fault entry if
/// the guard faulted, then its action-fault entry if the action ran and
/// faulted (`afs` holds the action-fault messages), over the first `k`.
pub open spec fn sweep_errors<C>(
    a: Seq<Operation<C>>,
    outs: Seq<Result<bool, Seq<char>>>,
    afs: Seq<Option<Seq<char>>>,
    k: int,
) -> Seq<Seq<char>>
    decreases k,
{
    if k <= 0 {
        Seq::empty()
    } else {
        sweep_errors(a, outs, afs, k - 1) + (match spec_step(
            a[k - 1].state,
            a[k - 1].name@,
            outs[k - 1],
        ).error {
            Some(e) => seq![e],
            None => Seq::empty(),
        }) + (match afs[k - 1] {
            Some(m) => seq![fault_entry(a[k - 1].state, a[k - 1].name@, m)],
            None => Seq::empty(),
        })
    }
}

/// One sweep, operation by operation: each new state is exactly what
/// [`spec_step`] says under its guard outcome, unset guards have their
/// default outcome, and an action-fault message exists only where the
/// action was due and set.
pub open spec fn sweep_trace<C>(
    a: Seq<Operation<C>>,
    b: Seq<Operation<C>>,
    outs: Seq<Result<bool, Seq<char>>>,
    afs: Seq<Option<Seq<char>>>,
) -> bool {
    &&& b.len() == a.len()
    &&& outs.len() == a.len()
    &&& afs.len() == a.len()
    &&& forall|i: int|
        0 <= i < a.len() ==> {
            let ss = #[trigger] spec_step(a[i].state, a[i].name@, outs[i]);
            &&& b[i].state == ss.next
            &&& (a[i].guard_is_default(a[i].state) ==> outs[i] == Ok::<bool, Seq<char>>(
                default_verdict(a[i].state),
            ))
            &&& (afs[i] is Some ==> ss.run_action && !a[i].action_is_default(a[i].state))
        }
}

proof fn lemma_sweep_prefix_congruent<C>(
    a: Seq<Operation<C>>,
    outs1: Seq<Result<bool, Seq<char>>>,
    outs2: Seq<Result<bool, Seq<char>>>,
    afs1: Seq<Option<Seq<char>>>,
    afs2: Seq<Option<Seq<char>>>,
    k: int,
)
    requires
        forall|j: int| 0 <= j < k ==> (#[trigger] outs1[j]) == outs2[j],
        forall|j: int| 0 <= j < k ==> (#[trigger] afs1[j]) == afs2[j],
    ensures
        sweep_fired(a, outs1, k) == sweep_fired(a, outs2, k),
        sweep_errors(a, outs1, afs1, k) == sweep_errors(a, outs2, afs2, k),
    decreases k,
{
    if k > 0 {
        lemma_sweep_prefix_congruent(a, outs1, outs2, afs1, afs2, k - 1);
    }
}

/// How many operations of `a` advanced a phase in `b`, among the first `k`.
pub open spec fn count_advanced<C>(a: Seq<Operation<C>>, b: Seq<Operation<C>>, k: int) -> int
    decreases k,
{
    if k <= 0 {
        0
    } else {
        count_advanced(a, b, k - 1) + if b[k - 1].state == advance(a[k - 1].state) {
            1int
        } else {
            0int
        }
    }
}

proof fn lemma_count_advanced_congruent<C>(
    a: Seq<Operation<C>>,
    b1: Seq<Operation<C>>,
    b2: Seq<Operation<C>>,
    k: int,
)
    requires
        forall|j: int| 0 <= j < k ==> #[trigger] b1[j] == b2[j],
    ensures
        count_advanced(a, b1, k) == count_advanced(a, b2, k),
    decreases k,
{
    if k > 0 {
        lemma_count_advanced_congruent(a, b1, b2, k - 1);
    }
}

/// Law: one evaluation moves an operation's state along the fixed cycle by
/// at most one phase, whatever its guard did.
pub proof fn lemma_step_one_phase(st: OpState, name: Seq<char>, outcome: Result<bool, Seq<char>>)
    ensures
        one_phase(st, spec_step(st, name, outcome).next),
{
}

/// Law: across any run of ticks, an operation's state takes only the three
/// lifecycle values and moves along the fixed cycle
/// `Idle -> Executing -> Finished -> Idle`, one phase at a time, never
/// skipping or reversing.
pub proof fn lemma_cycle_trace<C>(tr: Seq<Operation<C>>)
    requires
        forall|j: int| 0 <= j < tr.len() - 1 ==> stepped(#[trigger] tr[j], tr[j + 1]),
    ensures
        forall|j: int|
            0 <= j < tr.len() - 1 ==> one_phase(#[trigger] tr[j].state, tr[j + 1].state),
{
    assert forall|j: int| 0 <= j < tr.len() - 1 implies one_phase(
        #[trigger] tr[j].state,
        tr[j + 1].state,
    ) by {
        assert(stepped(tr[j], tr[j + 1]));
    }
}

/// Law: across any run of ticks, an operation started with default guards
/// and actions only never leaves `Idle` — its start guard defaults to false.
pub proof fn lemma_default_stays_idle<C>(tr: Seq<Operation<C>>, i: int)
    requires
        0 <= i < tr.len(),
        tr[0].state is Idle,
        tr[0].start_guard is None,
        forall|j: int| 0 <= j < tr.len() - 1 ==> stepped(#[trigger] tr[j], tr[j + 1]),
    ensures
        tr[i].state is Idle,
        tr[i].start_guard is None,
    decreases i,
{
    if i > 0 {
        lemma_default_stays_idle(tr, i - 1);
        assert(stepped(tr[i - 1], tr[i]));
    }
}

/// Law: a guard verdict of true in `Idle` moves the operation to
/// `Executing`, fires exactly the `start_` label once, records no error,
/// and makes the start action due exactly once.
pub proof fn lemma_true_start_fires(name: Seq<char>)
    ensures
        spec_step(OpState::Idle, name, Ok(true)).next == OpState::Executing,
        spec_step(OpState::Idle, name, Ok(true)).fired == Some(
            phase_label(OpState::Idle, name),
        ),
        spec_step(OpState::Idle, name, Ok(true)).error is None,
        spec_step(OpState::Idle, name, Ok(true)).run_action,
{
}

/// Law: with the default finish guard (true), an operation that is
/// `Executing` when evaluated is `Finished` by the next tick, with no
/// further guard changes needed.
pub proof fn lemma_default_finish<C>(a: Operation<C>, b: Operation<C>)
    requires
        stepped(a, b),
        a.state is Executing,
        a.finish_guard is None,
    ensures
        b.state is Finished,
{
}

/// Law: a guard fault leaves the operation's state unchanged, fires
/// nothing, runs no action, and yields exactly one error entry naming the
/// operation and its phase.
pub proof fn lemma_guard_fault(st: OpState, name: Seq<char>, m: Seq<char>)
    ensures
        spec_step(st, name, Err(m)).next == st,
        spec_step(st, name, Err(m)).fired is None,
        spec_step(st, name, Err(m)).error == Some(fault_entry(st, name, m)),
        !spec_step(st, name, Err(m)).run_action,
{
}

} // verus!
