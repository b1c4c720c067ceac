//! Free transitions: stateless guard/action pairs.
//!
//! A simpler, legacy mode beside the operation engine: the list is swept in
//! registration order every tick, and each transition whose guard holds has
//! its action run. Faults are not contained here — a guard or action fault
//! ends the sweep and is handed back to the caller.
use vstd::prelude::*;
use crate::ops::Callable;
use crate::state::StateSpace;

verus! {

/// How many verdicts in a run are affirmative.
pub open spec fn count_fired(vs: Seq<Result<bool, Seq<char>>>) -> int
    decreases vs.len(),
{
    if vs.len() == 0 {
        0
    } else {
        count_fired(vs.drop_last()) + if vs.last() == Ok::<bool, Seq<char>>(true) {
            1int
        } else {
            0int
        }
    }
}

/// A stateless guard/action pair, fired every tick its guard holds.
pub struct Transition<C> {
    pub name: String,
    pub guard: C,
    pub action: C,
}

/// The ordered list of free transitions.
pub struct TransitionList<C> {
    pub items: Vec<Transition<C>>,
}

impl<C> TransitionList<C> {
    /// An empty list.
    pub fn new() -> (r: TransitionList<C>)
        ensures
            r.items@.len() == 0,
    {
        TransitionList { items: Vec::new() }
    }

    /// Append a transition; registration order is evaluation order.
    pub fn add(&mut self, t: Transition<C>)
        ensures
            final(self).items@ == old(self).items@.push(t),
    {
        self.items.push(t);
    }
}

impl<C: Callable> TransitionList<C> {
    /// Evaluate every transition once, in registration order: a true guard
    /// fires the action. The count of fired transitions comes back; the
    /// first fault ends the sweep (this mode does not contain faults).
    ///
    /// The contract is exact relative to the guard verdicts: on `Ok(k)`
    /// every transition was evaluated and `k` is the number of true
    /// verdicts; on `Err(m)` the evaluated prefix had true-or-false
    /// verdicts until its last item, where either the guard faulted with
    /// `m` or the guard held and the action faulted. An empty list always
    /// sweeps to `Ok(0)`.
    #[verifier::loop_isolation(false)]
    pub fn run_all(&mut self, space: &mut StateSpace) -> (r: Result<usize, String>)
        requires
            old(space).wf(),
        ensures
            final(space).wf(),
            final(self).items@.len() == old(self).items@.len(),
            forall|i: int|
                0 <= i < old(self).items@.len() ==> (#[trigger] final(self).items@[i].name)@ == old(
                    self,
                ).items@[i].name@,
            old(self).items@.len() == 0 ==> r == Ok::<usize, String>(0),
            exists|verdicts: Seq<Result<bool, Seq<char>>>|
                {
                    &&& #[trigger] verdicts.len() <= old(self).items@.len()
                    &&& (forall|t: int| 0 <= t < verdicts.len() - 1 ==> (#[trigger] verdicts[t]) is Ok)
                    &&& match r {
                        Ok(k) => verdicts.len() == old(self).items@.len() && (verdicts.len() == 0
                            || verdicts.last() is Ok) && k == count_fired(verdicts),
                        Err(m) => verdicts.len() >= 1 && (verdicts.last() == Err::<
                            bool,
                            Seq<char>,
                        >(m@) || verdicts.last() == Ok::<bool, Seq<char>>(true)),
                    }
                },
    {
        let ghost items0 = self.items@;
        let ghost mut verdicts: Seq<Result<bool, Seq<char>>> = Seq::empty();
        let mut fired: usize = 0;
        let mut k: usize = 0;
        while k < self.items.len()
            invariant
                space.wf(),
                k <= self.items@.len(),
                self.items@.len() == items0.len(),
                fired <= k,
                verdicts.len() == k,
                forall|t: int| 0 <= t < k ==> (#[trigger] verdicts[t]) is Ok,
                fired == count_fired(verdicts),
                forall|i: int|
                    0 <= i < items0.len() ==> (#[trigger] self.items@[i].name)@
                        == items0[i].name@,
            decreases self.items@.len() - k,
        {
            let ghost before = self.items@;
            let ghost vs0 = verdicts;
            let mut t = self.items.remove(k);
            let verdict = match t.guard.call(space) {
                Ok(v) => v.truthy(),
                Err(m) => {
                    self.items.insert(k, t);
                    proof {
                        assert(self.items@ =~= before.update(k as int, t));
                        verdicts = verdicts.push(Err(m@));
                        assert(verdicts.last() == Err::<bool, Seq<char>>(m@));
                    }
                    return Err(m);
                },
            };
            proof {
                verdicts = verdicts.push(Ok(verdict));
                assert(verdicts.drop_last() =~= vs0);
            }
            if verdict {
                match t.action.call(space) {
                    Ok(_) => {},
                    Err(m) => {
                        self.items.insert(k, t);
                        proof {
                            assert(self.items@ =~= before.update(k as int, t));
                            assert(verdicts.last() == Ok::<bool, Seq<char>>(true));
                        }
                        return Err(m);
                    },
                }
                fired = fired + 1;
            }
            self.items.insert(k, t);
            proof {
                assert(self.items@ =~= before.update(k as int, t));
            }
            k += 1;
        }
        Ok(fired)
    }
}

} // verus!
