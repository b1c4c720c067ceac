//! The tick scheduler and the store bindings.
//!
//! A tick invokes every registered function callable, then sweeps the
//! operation registry once, and hands back the fired-transition labels and
//! the error entries of the tick. Around the tick, the driver ingests input
//! bindings from the external store and emits output bindings back to it;
//! both directions are best-effort, and the rendering and parsing that they
//! need is here, away from the I/O itself.
use vstd::prelude::*;
use crate::json::{json_scalar, json_text, parse_json_value, render_json, render_value, scalar_text};
use crate::ops::{count_advanced, stepped, sweep_errors, sweep_fired, sweep_trace, Callable, Registry};
use crate::snapshot::{node_json_ok, Json};
use crate::state::{resolve_from, slot_in_range, SlotV, SpError, StateSpace, lemma_resolve_in_range, spec_set};
use crate::text::{dot_free, join_dots, parse_path, views_of};
use crate::value::Value;

verus! {

/// A read-only binding: the store key `key` feeds the state path `var`.
pub struct InputMapping {
    pub key: String,
    pub var: String,
}

/// A write binding: the state path `var` is published under the store key
/// `key`, with an expiry of `ttl` seconds.
pub struct OutputMapping {
    pub key: String,
    pub var: String,
    pub ttl: usize,
}

/// Why one input was skipped this tick.
#[derive(Debug, Clone, Copy, PartialEq, Eq, Structural)]
pub enum IngestError {
    /// The store text is not a scalar JSON value: skip this input.
    Malformed,
    /// The state path rejected the write.
    Path(SpError),
}

/// Ingest one input binding, given the raw text read from the store: parse
/// it as a scalar JSON value and write it at the binding's state path.
/// Malformed text changes nothing; so does a rejected write.
pub fn ingest_input(space: &mut StateSpace, m: &InputMapping, raw: &str) -> (r: Result<
    (),
    IngestError,
>)
    requires
        old(space).wf(),
    ensures
        final(space).wf(),
        (r is Err) ==> final(space)@ == old(space)@,
        (json_scalar(raw@) is None) <==> r == Err::<(), IngestError>(IngestError::Malformed),
        json_scalar(raw@) matches Some(v) ==> exists|segs: Seq<Seq<char>>|
            {
                &&& #[trigger] join_dots(segs) == m.var@
                &&& segs.len() >= 1
                &&& (forall|t: int| 0 <= t < segs.len() ==> dot_free(#[trigger] segs[t]))
                &&& match r {
                    Ok(()) => spec_set(old(space)@, 0, segs, SlotV::Leaf(v)) == Ok::<
                        crate::state::NodesV,
                        SpError,
                    >(final(space)@),
                    Err(e) => e matches IngestError::Path(pe) && spec_set(
                        old(space)@,
                        0,
                        segs,
                        SlotV::Leaf(v),
                    ) == Err::<crate::state::NodesV, SpError>(pe),
                }
            },
{
    let v = match parse_json_value(raw) {
        Some(v) => v,
        None => {
            return Err(IngestError::Malformed);
        },
    };
    match space.set(m.var.as_str(), v) {
        Ok(()) => Ok(()),
        Err(e) => Err(IngestError::Path(e)),
    }
}

/// Render one output binding: read the binding's state path and render the
/// value there as JSON text. A missing or unreadable path, or a leaf that
/// cannot be serialized, yields `None` — that output is skipped this tick,
/// best-effort. An interior node is rendered as a snapshot of the subgraph
/// below it.
pub fn render_output(space: &StateSpace, m: &OutputMapping) -> (r: Option<String>)
    requires
        space.wf(),
    ensures
        exists|segs: Seq<Seq<char>>|
            {
                &&& #[trigger] join_dots(segs) == m.var@
                &&& segs.len() >= 1
                &&& (forall|t: int| 0 <= t < segs.len() ==> dot_free(#[trigger] segs[t]))
                &&& match r {
                    Some(text) => match resolve_from(space@, 0, segs) {
                        Ok(SlotV::Leaf(v)) => text@ == scalar_text(v),
                        Ok(SlotV::Node(c)) => exists|j: Json|
                            node_json_ok(space@, c, j) && text@ == #[trigger] json_text(j),
                        Err(_) => false,
                    },
                    None => match resolve_from(space@, 0, segs) {
                        Ok(SlotV::Leaf(v)) => v is Opaque,
                        Ok(SlotV::Node(_)) => false,
                        Err(_) => true,
                    },
                }
            },
{
    let segs = parse_path(m.var.as_str());
    match space.get_slot_segs(&segs) {
        Ok(crate::state::Slot::Leaf(v)) => render_value(&v),
        Ok(crate::state::Slot::Node(c)) => {
            proof {
                lemma_resolve_in_range(space@, 0, views_of(segs@));
            }
            let j = space.snapshot_from(c);
            Some(render_json(&j))
        },
        Err(_) => None,
    }
}

/// The error entries the tick functions leave: one `<name>: <message>`
/// entry per function that faulted (`fs` holds the fault messages), in
/// order, over the first `k` functions.
pub open spec fn fn_fault_entries<C>(
    fns: Seq<(String, C)>,
    fs: Seq<Option<Seq<char>>>,
    k: int,
) -> Seq<Seq<char>>
    decreases k,
{
    if k <= 0 {
        Seq::empty()
    } else {
        fn_fault_entries(fns, fs, k - 1) + match fs[k - 1] {
            Some(m) => seq![fns[k - 1].0@ + ": "@ + m],
            None => Seq::empty(),
        }
    }
}

proof fn lemma_fn_entries_congruent<C>(
    fns: Seq<(String, C)>,
    fs1: Seq<Option<Seq<char>>>,
    fs2: Seq<Option<Seq<char>>>,
    k: int,
)
    requires
        forall|j: int| 0 <= j < k ==> (#[trigger] fs1[j]) == fs2[j],
    ensures
        fn_fault_entries(fns, fs1, k) == fn_fault_entries(fns, fs2, k),
    decreases k,
{
    if k > 0 {
        lemma_fn_entries_congruent(fns, fs1, fs2, k - 1);
    }
}

/// The tick scheduler: the registered tick functions and the operation
/// registry, advanced together once per tick.
pub struct Scheduler<C> {
    pub functions: Vec<(String, C)>,
    pub registry: Registry<C>,
}

impl<C: Callable> Scheduler<C> {
    /// A scheduler with no functions and no operations.
    pub fn new() -> (r: Scheduler<C>)
        ensures
            r.functions@.len() == 0,
            r.registry.ops@.len() == 0,
            r.registry.wf(),
    {
        Scheduler { functions: Vec::new(), registry: Registry::new() }
    }

    /// Register a named tick function, run at the start of every tick.
    pub fn add_function(&mut self, name: String, f: C)
        ensures
            final(self).functions@ == old(self).functions@.push((name, f)),
            final(self).registry == old(self).registry,
    {
        self.functions.push((name, f));
    }

    /// One tick: run every function callable, then sweep every operation
    /// once. Returns the fired-transition labels and the error entries of
    /// the tick, in evaluation order. A function fault is recorded as
    /// `<name>: <message>` and contains itself to that function.
    #[verifier::loop_isolation(false)]
    pub fn tick(&mut self, space: &mut StateSpace) -> (r: (Vec<String>, Vec<String>))
        requires
            old(space).wf(),
            old(self).registry.wf(),
        ensures
            final(space).wf(),
            final(self).registry.wf(),
            final(self).functions@.len() == old(self).functions@.len(),
            final(self).registry.ops@.len() == old(self).registry.ops@.len(),
            forall|i: int|
                0 <= i < old(self).registry.ops@.len() ==> stepped(
                    old(self).registry.ops@[i],
                    #[trigger] final(self).registry.ops@[i],
                ),
            r.0@.len() == count_advanced(
                old(self).registry.ops@,
                final(self).registry.ops@,
                old(self).registry.ops@.len() as int,
            ),
            exists|
                ffaults: Seq<Option<Seq<char>>>,
                outs: Seq<Result<bool, Seq<char>>>,
                afs: Seq<Option<Seq<char>>>,
            |
                #![trigger fn_fault_entries(old(self).functions@, ffaults, old(self).functions@.len() as int), sweep_trace(old(self).registry.ops@, final(self).registry.ops@, outs, afs)]
                {
                    &&& ffaults.len() == old(self).functions@.len()
                    &&& sweep_trace(old(self).registry.ops@, final(self).registry.ops@, outs, afs)
                    &&& views_of(r.0@) == sweep_fired(
                        old(self).registry.ops@,
                        outs,
                        old(self).registry.ops@.len() as int,
                    )
                    &&& views_of(r.1@) == fn_fault_entries(
                        old(self).functions@,
                        ffaults,
                        old(self).functions@.len() as int,
                    ) + sweep_errors(
                        old(self).registry.ops@,
                        outs,
                        afs,
                        old(self).registry.ops@.len() as int,
                    )
                },
    {
        let mut fired: Vec<String> = Vec::new();
        let mut errors: Vec<String> = Vec::new();
        let mut k: usize = 0;
        let ghost fns0 = self.functions@;
        let ghost mut ffaults: Seq<Option<Seq<char>>> = Seq::empty();
        proof {
            assert(views_of(errors@) =~= fn_fault_entries(fns0, ffaults, 0));
        }
        while k < self.functions.len()
            invariant
                space.wf(),
                k <= self.functions@.len(),
                self.functions@.len() == fns0.len(),
                self.registry == old(self).registry,
                ffaults.len() == k,
                views_of(errors@) == fn_fault_entries(fns0, ffaults, k as int),
                forall|i: int|
                    0 <= i < fns0.len() ==> (#[trigger] self.functions@[i].0)@ == fns0[i].0@,
            decreases self.functions@.len() - k,
        {
            let ghost errs_before = errors@;
            let ghost fns_before = self.functions@;
            let mut entry = self.functions.remove(k);
            proof {
                assert(entry.0@ == fns0[k as int].0@);
            }
            match entry.1.call(space) {
                Ok(_) => {
                    proof {
                        let ghost ff1 = ffaults.push(None);
                        lemma_fn_entries_congruent(fns0, ffaults, ff1, k as int);
                        assert(views_of(errors@) =~= fn_fault_entries(fns0, ff1, k as int + 1));
                        ffaults = ff1;
                    }
                },
                Err(m) => {
                    let mut text = entry.0.clone();
                    text.append(": ");
                    text.append(m.as_str());
                    let ghost tv = text@;
                    errors.push(text);
                    proof {
                        let ghost ff1 = ffaults.push(Some(m@));
                        lemma_fn_entries_congruent(fns0, ffaults, ff1, k as int);
                        assert(tv =~= fns0[k as int].0@ + ": "@ + m@);
                        assert(views_of(errors@) =~= views_of(errs_before).push(tv));
                        assert(views_of(errors@) =~= fn_fault_entries(fns0, ff1, k as int + 1));
                        ffaults = ff1;
                    }
                },
            }
            self.functions.insert(k, entry);
            proof {
                assert(self.functions@ =~= fns_before.update(k as int, entry));
            }
            k += 1;
        }
        let ghost errs_mid = errors@;
        self.registry.sweep(space, &mut fired, &mut errors);
        proof {
            let n = old(self).registry.ops@.len() as int;
            let (outs, afs) = choose|outs: Seq<Result<bool, Seq<char>>>, afs: Seq<
                Option<Seq<char>>,
            >|
                {
                    &&& #[trigger] sweep_trace(old(self).registry.ops@, self.registry.ops@, outs, afs)
                    &&& views_of(fired@) == views_of(Seq::<String>::empty()) + sweep_fired(
                        old(self).registry.ops@,
                        outs,
                        n,
                    )
                    &&& views_of(errors@) == views_of(errs_mid) + sweep_errors(
                        old(self).registry.ops@,
                        outs,
                        afs,
                        n,
                    )
                };
            assert(views_of(Seq::<String>::empty()) =~= Seq::<Seq<char>>::empty());
            assert(views_of(fired@) =~= sweep_fired(old(self).registry.ops@, outs, n));
            assert(views_of(errors@) =~= fn_fault_entries(fns0, ffaults, fns0.len() as int)
                + sweep_errors(old(self).registry.ops@, outs, afs, n));
        }
        (fired, errors)
    }
}

/// Relies on std::time::SystemTime::now and duration_since: the time since
/// the Unix epoch, refreshed into the reserved `now` state slot each tick by
/// the driver. Nothing is promised of a clock reading.
#[verifier::external_body]
fn system_now() -> core::time::Duration {
    std::time::SystemTime::now().duration_since(std::time::UNIX_EPOCH).unwrap_or(
        core::time::Duration::ZERO,
    )
}

/// The current time since the Unix epoch.
pub fn now() -> core::time::Duration {
    system_now()
}

} // verus!
