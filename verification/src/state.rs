//! The shared state space: a graph of named nodes addressed by dotted paths.
//!
//! Nodes live in an arena (`nodes`); node `0` is the root. An interior slot
//! holds the arena index of its target node, so several paths may reach the
//! same node, and a node may (deliberately or not) reach itself — the
//! snapshot serializer must cope with both.
use vstd::prelude::*;
use crate::value::Value;
use crate::value::ValueV;
use crate::text::{parse_path, views_of, join_dots, dot_free};

verus! {

/// One slot of a node: a scalar leaf, or an edge to an interior node.
pub enum Slot {
    Leaf(Value),
    Node(usize),
}

/// The mathematical value of a slot.
pub enum SlotV {
    Leaf(ValueV),
    Node(int),
}

impl View for Slot {
    type V = SlotV;

    open spec fn view(&self) -> SlotV {
        match self {
            Slot::Leaf(v) => SlotV::Leaf(v@),
            Slot::Node(n) => SlotV::Node(*n as int),
        }
    }
}

/// Why a path operation failed.
#[derive(Debug, Clone, Copy, PartialEq, Eq, Structural)]
pub enum SpError {
    /// Some segment of the path is not bound.
    NotFound,
    /// The path resolves through (or ends at) a slot of the wrong shape.
    TypeMismatch,
}

/// The mathematical value of the arena: per node, its entries in order.
pub type NodesV = Seq<Seq<(Seq<char>, SlotV)>>;

/// First entry of `es` bound to `key`, scanning front to back.
pub open spec fn lookup_entries(es: Seq<(Seq<char>, SlotV)>, key: Seq<char>) -> Option<SlotV>
    decreases es.len(),
{
    if es.len() == 0 {
        None
    } else if es[0].0 == key {
        Some(es[0].1)
    } else {
        lookup_entries(es.drop_first(), key)
    }
}

/// Resolution of a non-empty segment list starting at node `n`: every segment
/// but the last must reach an interior node; the last yields its slot.
pub open spec fn resolve_from(ns: NodesV, n: int, segs: Seq<Seq<char>>) -> Result<SlotV, SpError>
    decreases segs.len(),
{
    if !(0 <= n < ns.len()) {
        Err(SpError::NotFound)
    } else {
        match lookup_entries(ns[n], segs[0]) {
            None => Err(SpError::NotFound),
            Some(slot) => if segs.len() <= 1 {
                Ok(slot)
            } else {
                match slot {
                    SlotV::Leaf(_) => Err(SpError::TypeMismatch),
                    SlotV::Node(c) => resolve_from(ns, c, segs.drop_first()),
                }
            },
        }
    }
}

/// A slot never points outside the arena.
pub open spec fn slot_in_range(ns: NodesV, s: SlotV) -> bool {
    match s {
        SlotV::Leaf(_) => true,
        SlotV::Node(c) => 0 <= c < ns.len(),
    }
}

/// `es` with `key` bound to `slot`: the first binding of `key` is replaced in
/// place; a missing key is appended at the end.
pub open spec fn entries_set(
    es: Seq<(Seq<char>, SlotV)>,
    key: Seq<char>,
    slot: SlotV,
) -> Seq<(Seq<char>, SlotV)>
    decreases es.len(),
{
    if es.len() == 0 {
        seq![(key, slot)]
    } else if es[0].0 == key {
        es.update(0, (key, slot))
    } else {
        seq![es[0]] + entries_set(es.drop_first(), key, slot)
    }
}

/// The arena after writing `slot` at the path `segs` below node `n`: every
/// already-bound non-final segment must be an interior node (else the write
/// is rejected and nothing changes); missing segments are created as fresh
/// empty nodes appended to the arena.
pub open spec fn spec_set(ns: NodesV, n: int, segs: Seq<Seq<char>>, slot: SlotV) -> Result<
    NodesV,
    SpError,
>
    decreases segs.len(),
{
    if !(0 <= n < ns.len()) {
        Err(SpError::NotFound)
    } else if segs.len() <= 1 {
        Ok(ns.update(n, entries_set(ns[n], segs[0], slot)))
    } else {
        match lookup_entries(ns[n], segs[0]) {
            Some(SlotV::Leaf(_)) => Err(SpError::TypeMismatch),
            Some(SlotV::Node(c)) => spec_set(ns, c, segs.drop_first(), slot),
            None => {
                let f = ns.len() as int;
                let ns1 = ns.push(Seq::empty());
                let ns2 = ns1.update(n, ns1[n].push((segs[0], SlotV::Node(f))));
                spec_set(ns2, f, segs.drop_first(), slot)
            },
        }
    }
}

proof fn lemma_entries_set_found(es: Seq<(Seq<char>, SlotV)>, key: Seq<char>, slot: SlotV, j: int)
    requires
        0 <= j < es.len(),
        es[j].0 == key,
        forall|t: int| 0 <= t < j ==> (#[trigger] es[t].0) != key,
    ensures
        entries_set(es, key, slot) =~= es.update(j, (key, slot)),
    decreases j,
{
    if j == 0 {
    } else {
        assert(es[0].0 != key);
        lemma_entries_set_found(es.drop_first(), key, slot, j - 1);
    }
}

proof fn lemma_entries_set_missing(es: Seq<(Seq<char>, SlotV)>, key: Seq<char>, slot: SlotV)
    requires
        lookup_entries(es, key) is None,
    ensures
        entries_set(es, key, slot) =~= es.push((key, slot)),
    decreases es.len(),
{
    if es.len() == 0 {
    } else {
        lemma_entries_set_missing(es.drop_first(), key, slot);
    }
}

/// A key that looks up to nothing is bound to no entry.
proof fn lemma_lookup_none_absent(es: Seq<(Seq<char>, SlotV)>, key: Seq<char>)
    requires
        lookup_entries(es, key) is None,
    ensures
        forall|t: int| 0 <= t < es.len() ==> (#[trigger] es[t].0) != key,
    decreases es.len(),
{
    if es.len() > 0 {
        lemma_lookup_none_absent(es.drop_first(), key);
        assert forall|t: int| 0 <= t < es.len() implies (#[trigger] es[t].0) != key by {
            if t > 0 {
                assert(es[t] == es.drop_first()[t - 1]);
            }
        }
    }
}

/// `entries_set` keeps every key in place; it appends its key only when the
/// key was absent.
proof fn lemma_entries_set_keys(es: Seq<(Seq<char>, SlotV)>, key: Seq<char>, slot: SlotV)
    ensures
        es.len() <= entries_set(es, key, slot).len() <= es.len() + 1,
        forall|t: int|
            0 <= t < es.len() ==> (#[trigger] entries_set(es, key, slot)[t].0) == es[t].0,
        entries_set(es, key, slot).len() == es.len() + 1 ==> entries_set(es, key, slot)[es.len()
            as int].0 == key && (forall|t: int|
            0 <= t < es.len() ==> (#[trigger] es[t].0) != key),
    decreases es.len(),
{
    let r = entries_set(es, key, slot);
    if es.len() == 0 {
    } else if es[0].0 == key {
    } else {
        lemma_entries_set_keys(es.drop_first(), key, slot);
        let rr = entries_set(es.drop_first(), key, slot);
        assert forall|t: int| 0 <= t < es.len() implies (#[trigger] r[t].0) == es[t].0 by {
            if t > 0 {
                assert(r[t] == rr[t - 1]);
                assert(es.drop_first()[t - 1] == es[t]);
            }
        }
        if r.len() == es.len() + 1 {
            assert(r[es.len() as int] == rr[es.drop_first().len() as int]);
            assert forall|t: int| 0 <= t < es.len() implies (#[trigger] es[t].0) != key by {
                if t > 0 {
                    assert(es.drop_first()[t - 1] == es[t]);
                }
            }
        }
    }
}

/// Every slot of `entries_set(es, key, slot)` is a slot of `es` or `slot`.
proof fn lemma_entries_set_slots(es: Seq<(Seq<char>, SlotV)>, key: Seq<char>, slot: SlotV)
    ensures
        forall|j: int|
            0 <= j < entries_set(es, key, slot).len() ==> ((#[trigger] entries_set(
                es,
                key,
                slot,
            )[j].1) == slot || exists|t: int|
                0 <= t < es.len() && (#[trigger] es[t].1) == entries_set(es, key, slot)[j].1),
    decreases es.len(),
{
    let r = entries_set(es, key, slot);
    if es.len() == 0 {
    } else if es[0].0 == key {
        assert forall|j: int| 0 <= j < r.len() implies ((#[trigger] r[j].1) == slot || exists|
            t: int,
        |
            0 <= t < es.len() && (#[trigger] es[t].1) == r[j].1) by {
            if j != 0 {
                assert(es[j].1 == r[j].1);
            }
        }
    } else {
        lemma_entries_set_slots(es.drop_first(), key, slot);
        assert forall|j: int| 0 <= j < r.len() implies ((#[trigger] r[j].1) == slot || exists|
            t: int,
        |
            0 <= t < es.len() && (#[trigger] es[t].1) == r[j].1) by {
            if j == 0 {
                assert(es[0].1 == r[0].1);
            } else {
                let rr = entries_set(es.drop_first(), key, slot);
                assert(r[j].1 == rr[j - 1].1);
                if rr[j - 1].1 != slot {
                    let t = choose|t: int|
                        0 <= t < es.drop_first().len() && (#[trigger] es.drop_first()[t].1) == rr[j
                            - 1].1;
                    assert(es[t + 1].1 == r[j].1);
                }
            }
        }
    }
}

/// Writing below an empty node always succeeds: every segment from there on
/// is created fresh.
proof fn lemma_set_fresh_ok(ns: NodesV, n: int, segs: Seq<Seq<char>>, slot: SlotV)
    requires
        0 <= n < ns.len(),
        ns[n].len() == 0,
        segs.len() >= 1,
    ensures
        spec_set(ns, n, segs, slot) is Ok,
    decreases segs.len(),
{
    if segs.len() <= 1 {
    } else {
        let f = ns.len() as int;
        let ns1 = ns.push(Seq::empty());
        let ns2 = ns1.update(n, ns1[n].push((segs[0], SlotV::Node(f))));
        assert(ns2[f].len() == 0);
        lemma_set_fresh_ok(ns2, f, segs.drop_first(), slot);
    }
}

/// After binding `key` in a node, looking `key` up yields the new slot.
proof fn lemma_lookup_after_entries_set(es: Seq<(Seq<char>, SlotV)>, key: Seq<char>, slot: SlotV)
    ensures
        lookup_entries(entries_set(es, key, slot), key) == Some(slot),
    decreases es.len(),
{
    if es.len() == 0 {
        assert(entries_set(es, key, slot)[0] == (key, slot));
    } else if es[0].0 == key {
    } else {
        lemma_lookup_after_entries_set(es.drop_first(), key, slot);
        let r = entries_set(es, key, slot);
        assert(r.drop_first() =~= entries_set(es.drop_first(), key, slot));
    }
}

/// Law: a write at a one-segment path always succeeds, and reading that
/// path afterwards yields exactly the written slot.
pub proof fn lemma_set_then_get_single(ns: NodesV, n: int, key: Seq<char>, slot: SlotV)
    requires
        0 <= n < ns.len(),
    ensures
        spec_set(ns, n, seq![key], slot) is Ok,
        resolve_from(spec_set(ns, n, seq![key], slot)->Ok_0, n, seq![key]) == Ok::<
            SlotV,
            SpError,
        >(slot),
{
    lemma_lookup_after_entries_set(ns[n], key, slot);
    let ns2 = ns.update(n, entries_set(ns[n], key, slot));
    assert(lookup_entries(ns2[n], seq![key][0]) == Some(slot));
}

/// A slot a successful resolution yields points into the arena.
pub proof fn lemma_resolve_in_range(ns: NodesV, n: int, segs: Seq<Seq<char>>)
    requires
        forall|m: int, j: int|
            0 <= m < ns.len() && 0 <= j < ns[m].len() ==> slot_in_range(ns, #[trigger] ns[m][j].1),
        resolve_from(ns, n, segs) is Ok,
    ensures
        slot_in_range(ns, resolve_from(ns, n, segs)->Ok_0),
    decreases segs.len(),
{
    let looked = lookup_entries(ns[n], segs[0]);
    lemma_lookup_is_entry(ns[n], segs[0]);
    if segs.len() <= 1 {
    } else {
        match looked {
            Some(SlotV::Node(c)) => {
                lemma_resolve_in_range(ns, c, segs.drop_first());
            },
            _ => {},
        }
    }
}

/// A successful lookup returns one of the entries' slots.
proof fn lemma_lookup_is_entry(es: Seq<(Seq<char>, SlotV)>, key: Seq<char>)
    requires
        lookup_entries(es, key) is Some,
    ensures
        exists|j: int|
            0 <= j < es.len() && (#[trigger] es[j].1) == lookup_entries(es, key)->Some_0,
    decreases es.len(),
{
    if es.len() == 0 {
    } else if es[0].0 == key {
        assert(es[0].1 == lookup_entries(es, key)->Some_0);
    } else {
        lemma_lookup_is_entry(es.drop_first(), key);
        let j = choose|j: int|
            0 <= j < es.drop_first().len() && (#[trigger] es.drop_first()[j].1) == lookup_entries(
                es.drop_first(),
                key,
            )->Some_0;
        assert(es[j + 1].1 == lookup_entries(es, key)->Some_0);
    }
}

/// The state space: an arena of nodes, node 0 the root.
pub struct StateSpace {
    pub nodes: Vec<Vec<(String, Slot)>>,
}

impl View for StateSpace {
    type V = NodesV;

    open spec fn view(&self) -> NodesV {
        self.nodes@.map_values(
            |node: Vec<(String, Slot)>| node@.map_values(|e: (String, Slot)| (e.0@, e.1@)),
        )
    }
}

impl StateSpace {
    /// Every interior edge points into the arena, the root exists, and each
    /// node's keys are unique.
    pub open spec fn wf(&self) -> bool {
        &&& self@.len() >= 1
        &&& forall|n: int, j: int|
            0 <= n < self@.len() && 0 <= j < self@[n].len() ==> slot_in_range(
                self@,
                #[trigger] self@[n][j].1,
            )
        &&& forall|n: int, i: int, j: int|
            0 <= n < self@.len() && 0 <= i < j < self@[n].len() ==> (#[trigger] self@[n][i].0) != (
            #[trigger] self@[n][j].0)
    }

    /// An empty state space: just the root node, with no entries.
    pub fn new() -> (r: StateSpace)
        ensures
            r.wf(),
            r@.len() == 1,
            r@[0].len() == 0,
    {
        let mut nodes: Vec<Vec<(String, Slot)>> = Vec::new();
        nodes.push(Vec::new());
        let r = StateSpace { nodes };
        assert(r@ =~~= seq![Seq::<(Seq<char>, SlotV)>::empty()]);
        r
    }

    /// Find the position of `key` among the entries of node `n`.
    fn find_entry(&self, n: usize, key: &String) -> (r: Option<usize>)
        requires
            n < self@.len(),
        ensures
            match r {
                Some(j) => {
                    &&& j < self@[n as int].len()
                    &&& self@[n as int][j as int].0 == key@
                    &&& lookup_entries(self@[n as int], key@) == Some(self@[n as int][j as int].1)
                    &&& forall|t: int| 0 <= t < j ==> (#[trigger] self@[n as int][t].0) != key@
                },
                None => lookup_entries(self@[n as int], key@) is None,
            },
    {
        let ghost es = self@[n as int];
        let mut j: usize = 0;
        assert(es.skip(0) =~= es);
        while j < self.nodes[n].len()
            invariant
                n < self@.len(),
                n < self.nodes@.len(),
                es == self@[n as int],
                j <= es.len(),
                es.len() == self.nodes@[n as int]@.len(),
                lookup_entries(es, key@) == lookup_entries(es.skip(j as int), key@),
                forall|t: int| 0 <= t < j ==> (#[trigger] es[t].0) != key@,
            decreases es.len() - j,
        {
            assert(es.skip(j as int)[0] == es[j as int]);
            assert(es.skip(j as int).drop_first() =~= es.skip(j as int + 1));
            if self.nodes[n][j].0 == *key {
                assert(es[j as int].0 == self.nodes@[n as int]@[j as int].0@);
                return Some(j);
            }
            j += 1;
        }
        assert(es.skip(j as int) =~= Seq::<(Seq<char>, SlotV)>::empty());
        None
    }

    /// Look one key up in node `n`.
    pub fn lookup(&self, n: usize, key: &String) -> (r: Option<Slot>)
        requires
            n < self@.len(),
        ensures
            match r {
                Some(slot) => lookup_entries(self@[n as int], key@) == Some(slot@),
                None => lookup_entries(self@[n as int], key@) is None,
            },
    {
        match self.find_entry(n, key) {
            Some(j) => Some(self.clone_slot(n, j)),
            None => None,
        }
    }

    /// Copy the slot at one position out of the arena.
    fn clone_slot(&self, n: usize, j: usize) -> (r: Slot)
        requires
            n < self@.len(),
            j < self@[n as int].len(),
        ensures
            r@ == self@[n as int][j as int].1,
    {
        match &self.nodes[n][j].1 {
            Slot::Leaf(v) => Slot::Leaf(v.clone_value()),
            Slot::Node(c) => Slot::Node(*c),
        }
    }

    /// Bind `key` to `slot` in node `n` (replace in place, or append).
    fn write_entry(&mut self, n: usize, key: &String, slot: Slot)
        requires
            n < old(self)@.len(),
        ensures
            final(self)@ =~~= old(self)@.update(
                n as int,
                entries_set(old(self)@[n as int], key@, slot@),
            ),
    {
        let ghost slotv = slot@;
        match self.find_entry(n, key) {
            Some(j) => {
                proof {
                    lemma_entries_set_found(self@[n as int], key@, slotv, j as int);
                }
                self.nodes[n][j] = (key.clone(), slot);
            },
            None => {
                proof {
                    lemma_entries_set_missing(self@[n as int], key@, slotv);
                }
                self.nodes[n].push((key.clone(), slot));
            },
        }
    }

    /// Write `slot` at `segs[i..]` below node `n`, creating missing interior
    /// nodes; mirrors [`spec_set`] exactly.
    fn set_from(&mut self, n: usize, segs: &Vec<String>, i: usize, slot: Slot) -> (r: Result<
        (),
        SpError,
    >)
        requires
            old(self).wf(),
            n < old(self)@.len(),
            i < segs@.len(),
            slot_in_range(old(self)@, slot@),
        ensures
            final(self).wf(),
            final(self)@.len() >= old(self)@.len(),
            match r {
                Ok(()) => spec_set(old(self)@, n as int, views_of(segs@).skip(i as int), slot@)
                    == Ok::<NodesV, SpError>(final(self)@),
                Err(e) => final(self)@ == old(self)@ && spec_set(
                    old(self)@,
                    n as int,
                    views_of(segs@).skip(i as int),
                    slot@,
                ) == Err::<NodesV, SpError>(e),
            },
        decreases segs@.len() - i,
    {
        let ghost sk = views_of(segs@).skip(i as int);
        proof {
            assert(sk[0] == segs@[i as int]@);
        }
        if i == segs.len() - 1 {
            self.write_entry(n, &segs[i], slot);
            proof {
                assert(self@ =~~= old(self)@.update(
                    n as int,
                    entries_set(old(self)@[n as int], sk[0], slot@),
                ));
                lemma_entries_set_slots(old(self)@[n as int], sk[0], slot@);
                lemma_entries_set_keys(old(self)@[n as int], sk[0], slot@);
                assert forall|m: int, j: int|
                    0 <= m < self@.len() && 0 <= j < self@[m].len() implies slot_in_range(
                    self@,
                    #[trigger] self@[m][j].1,
                ) by {
                    if m != n as int {
                        assert(self@[m][j] == old(self)@[m][j]);
                        assert(slot_in_range(old(self)@, old(self)@[m][j].1));
                    } else {
                        if self@[m][j].1 != slot@ {
                            let t = choose|t: int|
                                0 <= t < old(self)@[m].len() && (#[trigger] old(
                                    self,
                                )@[m][t].1) == self@[m][j].1;
                            assert(slot_in_range(old(self)@, old(self)@[m][t].1));
                        }
                    }
                }
                assert forall|m: int, t1: int, t2: int|
                    0 <= m < self@.len() && 0 <= t1 < t2 < self@[m].len() implies (
                #[trigger] self@[m][t1].0) != (#[trigger] self@[m][t2].0) by {
                    if m != n as int {
                        assert(self@[m][t1] == old(self)@[m][t1]);
                        assert(self@[m][t2] == old(self)@[m][t2]);
                    } else {
                        let es = old(self)@[n as int];
                        if t2 < es.len() {
                            assert(self@[m][t1].0 == es[t1].0);
                            assert(self@[m][t2].0 == es[t2].0);
                        } else {
                            assert(self@[m].len() == es.len() + 1);
                            assert(self@[m][t1].0 == es[t1].0);
                            assert(es[t1].0 != sk[0]);
                        }
                    }
                }
            }
            Ok(())
        } else {
            proof {
                assert(sk.drop_first() =~= views_of(segs@).skip(i as int + 1));
            }
            match self.lookup(n, &segs[i]) {
                Some(Slot::Leaf(_)) => Err(SpError::TypeMismatch),
                Some(Slot::Node(c)) => {
                    proof {
                        lemma_lookup_is_entry(self@[n as int], sk[0]);
                    }
                    self.set_from(c, segs, i + 1, slot)
                },
                None => {
                    let f = self.nodes.len();
                    let ghost before = self@;
                    self.nodes.push(Vec::new());
                    proof {
                        assert(self@ =~~= before.push(Seq::empty()));
                    }
                    let ghost ns1 = self@;
                    self.nodes[n].push((segs[i].clone(), Slot::Node(f)));
                    proof {
                        assert(self@ =~~= ns1.update(
                            n as int,
                            ns1[n as int].push((sk[0], SlotV::Node(f as int))),
                        ));
                        assert forall|m: int, j: int|
                            0 <= m < self@.len() && 0 <= j < self@[m].len() implies slot_in_range(
                            self@,
                            #[trigger] self@[m][j].1,
                        ) by {
                            if m == n as int && j == self@[m].len() - 1 {
                            } else {
                                assert(self@[m][j] == old(self)@[m][j]);
                                assert(slot_in_range(old(self)@, old(self)@[m][j].1));
                            }
                        }
                        lemma_lookup_none_absent(old(self)@[n as int], sk[0]);
                        assert forall|m: int, t1: int, t2: int|
                            0 <= m < self@.len() && 0 <= t1 < t2 < self@[m].len() implies (
                        #[trigger] self@[m][t1].0) != (#[trigger] self@[m][t2].0) by {
                            if m == n as int {
                                assert(self@[m][t1].0 == old(self)@[m][t1].0);
                                if t2 == self@[m].len() - 1 {
                                    assert(self@[m][t2].0 == sk[0]);
                                    assert(old(self)@[m][t1].0 != sk[0]);
                                } else {
                                    assert(self@[m][t2].0 == old(self)@[m][t2].0);
                                }
                            } else if m < old(self)@.len() {
                                assert(self@[m][t1] == old(self)@[m][t1]);
                                assert(self@[m][t2] == old(self)@[m][t2]);
                            }
                        }
                        assert(self@[f as int].len() == 0);
                        lemma_set_fresh_ok(self@, f as int, sk.drop_first(), slot@);
                    }
                    self.set_from(f, segs, i + 1, slot)
                },
            }
        }
    }

    /// Resolve `segs[i..]` below node `n`; mirrors [`resolve_from`] exactly.
    fn get_slot_from(&self, n: usize, segs: &Vec<String>, i: usize) -> (r: Result<Slot, SpError>)
        requires
            self.wf(),
            n < self@.len(),
            i < segs@.len(),
        ensures
            match r {
                Ok(slot) => resolve_from(self@, n as int, views_of(segs@).skip(i as int)) == Ok::<
                    SlotV,
                    SpError,
                >(slot@),
                Err(e) => resolve_from(self@, n as int, views_of(segs@).skip(i as int)) == Err::<
                    SlotV,
                    SpError,
                >(e),
            },
        decreases segs@.len() - i,
    {
        let ghost sk = views_of(segs@).skip(i as int);
        proof {
            assert(sk[0] == segs@[i as int]@);
        }
        match self.lookup(n, &segs[i]) {
            None => Err(SpError::NotFound),
            Some(slot) => {
                if i == segs.len() - 1 {
                    Ok(slot)
                } else {
                    proof {
                        assert(sk.drop_first() =~= views_of(segs@).skip(i as int + 1));
                    }
                    match slot {
                        Slot::Leaf(_) => Err(SpError::TypeMismatch),
                        Slot::Node(c) => {
                            proof {
                                lemma_lookup_is_entry(self@[n as int], sk[0]);
                            }
                            self.get_slot_from(c, segs, i + 1)
                        },
                    }
                }
            },
        }
    }

    /// Resolve a pre-split path to its slot.
    pub fn get_slot_segs(&self, segs: &Vec<String>) -> (r: Result<Slot, SpError>)
        requires
            self.wf(),
            segs@.len() >= 1,
        ensures
            match r {
                Ok(slot) => resolve_from(self@, 0, views_of(segs@)) == Ok::<SlotV, SpError>(slot@),
                Err(e) => resolve_from(self@, 0, views_of(segs@)) == Err::<SlotV, SpError>(e),
            },
    {
        proof {
            assert(views_of(segs@).skip(0) =~= views_of(segs@));
        }
        self.get_slot_from(0, segs, 0)
    }

    /// Write `slot` at a pre-split path.
    pub fn set_slot_segs(&mut self, segs: &Vec<String>, slot: Slot) -> (r: Result<(), SpError>)
        requires
            old(self).wf(),
            segs@.len() >= 1,
            slot_in_range(old(self)@, slot@),
        ensures
            final(self).wf(),
            match r {
                Ok(()) => spec_set(old(self)@, 0, views_of(segs@), slot@) == Ok::<
                    NodesV,
                    SpError,
                >(final(self)@),
                Err(e) => final(self)@ == old(self)@ && spec_set(old(self)@, 0, views_of(segs@), slot@)
                    == Err::<NodesV, SpError>(e),
            },
    {
        proof {
            assert(views_of(segs@).skip(0) =~= views_of(segs@));
        }
        self.set_from(0, segs, 0, slot)
    }

    /// Read the leaf value at a dotted path. A path that resolves through a
    /// leaf, or that ends at an interior node, is a `TypeMismatch`; an
    /// unbound segment is `NotFound`.
    pub fn get(&self, path: &str) -> (r: Result<Value, SpError>)
        requires
            self.wf(),
        ensures
            exists|segs: Seq<Seq<char>>|
                {
                    &&& #[trigger] join_dots(segs) == path@
                    &&& segs.len() >= 1
                    &&& (forall|t: int| 0 <= t < segs.len() ==> dot_free(#[trigger] segs[t]))
                    &&& match r {
                        Ok(v) => resolve_from(self@, 0, segs) == Ok::<SlotV, SpError>(
                            SlotV::Leaf(v@),
                        ),
                        Err(e) => resolve_from(self@, 0, segs) matches Ok(SlotV::Node(_)) && e
                            == SpError::TypeMismatch || resolve_from(self@, 0, segs) == Err::<
                            SlotV,
                            SpError,
                        >(e),
                    }
                },
    {
        let segs = parse_path(path);
        match self.get_slot_segs(&segs) {
            Ok(Slot::Leaf(v)) => Ok(v),
            Ok(Slot::Node(_)) => Err(SpError::TypeMismatch),
            Err(e) => Err(e),
        }
    }

    /// Write a scalar value at a dotted path, creating missing interior
    /// nodes on the way; an already-bound non-final segment that is a leaf
    /// rejects the write with `TypeMismatch` and changes nothing.
    pub fn set(&mut self, path: &str, v: Value) -> (r: Result<(), SpError>)
        requires
            old(self).wf(),
        ensures
            final(self).wf(),
            r is Err ==> final(self)@ == old(self)@,
            exists|segs: Seq<Seq<char>>|
                {
                    &&& #[trigger] join_dots(segs) == path@
                    &&& segs.len() >= 1
                    &&& (forall|t: int| 0 <= t < segs.len() ==> dot_free(#[trigger] segs[t]))
                    &&& match r {
                        Ok(()) => spec_set(old(self)@, 0, segs, SlotV::Leaf(v@)) == Ok::<
                            NodesV,
                            SpError,
                        >(final(self)@),
                        Err(e) => spec_set(old(self)@, 0, segs, SlotV::Leaf(v@)) == Err::<
                            NodesV,
                            SpError,
                        >(e),
                    }
                },
    {
        let segs = parse_path(path);
        let ghost segsv = views_of(segs@);
        self.set_slot_segs(&segs, Slot::Leaf(v))
    }

    /// Bind the entry at `from` to the very node `to` resolves to: the two
    /// paths then share structure, as table assignment does in the scripted
    /// state space this models.
    pub fn link(&mut self, from: &str, to: &str) -> (r: Result<(), SpError>)
        requires
            old(self).wf(),
        ensures
            final(self).wf(),
            r is Err ==> final(self)@ == old(self)@,
            exists|fsegs: Seq<Seq<char>>, tsegs: Seq<Seq<char>>|
                {
                    &&& #[trigger] join_dots(fsegs) == from@
                    &&& #[trigger] join_dots(tsegs) == to@
                    &&& match r {
                        Ok(()) => resolve_from(old(self)@, 0, tsegs) matches Ok(SlotV::Node(_))
                            && spec_set(
                            old(self)@,
                            0,
                            fsegs,
                            resolve_from(old(self)@, 0, tsegs)->Ok_0,
                        ) == Ok::<NodesV, SpError>(final(self)@),
                        Err(e) => match resolve_from(old(self)@, 0, tsegs) {
                            Err(e2) => e == e2,
                            Ok(SlotV::Leaf(_)) => e == SpError::TypeMismatch,
                            Ok(SlotV::Node(c)) => spec_set(
                                old(self)@,
                                0,
                                fsegs,
                                SlotV::Node(c),
                            ) == Err::<NodesV, SpError>(e),
                        },
                    }
                },
    {
        let fsegs = parse_path(from);
        let tsegs = parse_path(to);
        let target = match self.get_slot_segs(&tsegs) {
            Ok(Slot::Node(c)) => c,
            Ok(Slot::Leaf(_)) => {
                return Err(SpError::TypeMismatch);
            },
            Err(e) => {
                return Err(e);
            },
        };
        proof {
            lemma_resolve_in_range(self@, 0, views_of(tsegs@));
        }
        self.set_slot_segs(&fsegs, Slot::Node(target))
    }
}

} // verus!
