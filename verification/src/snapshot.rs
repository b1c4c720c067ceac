//! The state snapshot serializer.
//!
//! It renders the whole state graph as a JSON-compatible tree. The graph may
//! hold shared substructure and even cycles, so the walk keeps, per pass,
//! a set of nodes in progress and a memo of nodes already rendered: a node
//! reached again after completion is reused from the memo (work stays
//! proportional to the number of distinct nodes), a node reached again while
//! still in progress — a true cycle — is omitted, and a node referencing
//! itself as one of its own fields is skipped outright. Non-serializable
//! leaves are skipped.
use vstd::prelude::*;
use crate::state::{StateSpace, NodesV, SlotV, slot_in_range};
use crate::value::{Value, ValueV};

verus! {

/// A JSON-compatible tree.
#[derive(Debug, PartialEq)]
pub enum Json {
    Null,
    Bool(bool),
    Int(i64),
    Str(String),
    Object(Vec<(String, Json)>),
}

/// The mathematical value of a [`Json`] tree.
pub ghost enum JsonV {
    Null,
    Bool(bool),
    Int(int),
    Str(Seq<char>),
    Object(Seq<(Seq<char>, JsonV)>),
}

/// The mathematical value of a [`Json`] tree.
pub open spec fn json_view(j: Json) -> JsonV
    decreases j,
{
    match j {
        Json::Null => JsonV::Null,
        Json::Bool(b) => JsonV::Bool(b),
        Json::Int(i) => JsonV::Int(i as int),
        Json::Str(s) => JsonV::Str(s@),
        Json::Object(_) => JsonV::Object(obj_view(j, 0)),
    }
}

/// The views of an object's entries from position `k` on.
pub open spec fn obj_view(j: Json, k: int) -> Seq<(Seq<char>, JsonV)>
    decreases j, (j->Object_0)@.len() - k,
{
    if j is Object && 0 <= k < (j->Object_0)@.len() {
        seq![((j->Object_0)@[k].0@, json_view((j->Object_0)@[k].1))] + obj_view(j, k + 1)
    } else {
        Seq::empty()
    }
}

/// A scalar leaf rendered as the right JSON value.
pub open spec fn scalar_matches(j: Json, v: ValueV) -> bool {
    match v {
        ValueV::Null => j is Null,
        ValueV::Bool(b) => j matches Json::Bool(b2) && b2 == b,
        ValueV::Int(i) => j matches Json::Int(i2) && i2 as int == i,
        ValueV::Str(s) => j matches Json::Str(s2) && s2@ == s,
        ValueV::Opaque => false,
    }
}

/// The entries of node `n` from position `k` on, rendered as the entries of
/// the object `j` from position `t` on, in order and with nothing else:
/// every serializable leaf appears exactly, with its key; non-serializable
/// leaves and self-edges are absent; an edge to another node is an object
/// that itself renders the target node, or is absent (the walk leaves an
/// edge out only when its target is still being rendered — a true cycle —
/// which the formula cannot see, so it allows the absence outright).
pub open spec fn entries_ok(ns: NodesV, n: int, k: int, t: int, j: Json) -> bool
    decreases j, ns[n].len() - k + 1,
{
    if !(j is Object) || !(0 <= n < ns.len()) || !(0 <= k) || !(0 <= t) {
        false
    } else {
        let out = (j->Object_0)@;
        if k >= ns[n].len() {
            t == out.len()
        } else {
            let key = ns[n][k].0;
            match ns[n][k].1 {
                SlotV::Leaf(v) => if v is Opaque {
                    entries_ok(ns, n, k + 1, t, j)
                } else {
                    &&& t < out.len()
                    &&& out[t].0@ == key
                    &&& scalar_matches(out[t].1, v)
                    &&& entries_ok(ns, n, k + 1, t + 1, j)
                },
                SlotV::Node(c) => if c == n {
                    entries_ok(ns, n, k + 1, t, j)
                } else {
                    (t < out.len() && out[t].0@ == key && node_json_ok(ns, c, out[t].1)
                        && entries_ok(ns, n, k + 1, t + 1, j)) || entries_ok(ns, n, k + 1, t, j)
                },
            }
        }
    }
}

/// A correct rendering of node `n`: an object whose entries render the
/// node's entries, recursively.
pub open spec fn node_json_ok(ns: NodesV, n: int, j: Json) -> bool
    decreases j, ns[n].len() + 2,
{
    &&& j is Object
    &&& 0 <= n < ns.len()
    &&& entries_ok(ns, n, 0, 0, j)
}

/// Every entry of a rendering comes from a non-self-edge entry of the node,
/// at or after the rendering position.
proof fn lemma_entries_keys_from(ns: NodesV, n: int, k: int, t: int, j: Json)
    requires
        entries_ok(ns, n, k, t, j),
    ensures
        forall|t2: int|
            t <= t2 < (j->Object_0)@.len() ==> exists|k2: int|
                k <= k2 < ns[n].len() && (#[trigger] (j->Object_0)@[t2]).0@ == ns[n][k2].0 && ns[n][k2].1
                    != SlotV::Node(n),
    decreases ns[n].len() - k + 1,
{
    if 0 <= n < ns.len() && 0 <= k && 0 <= t && k < ns[n].len() {
        let out = (j->Object_0)@;
        match ns[n][k].1 {
            SlotV::Leaf(v) => {
                if v is Opaque {
                    lemma_entries_keys_from(ns, n, k + 1, t, j);
                } else {
                    lemma_entries_keys_from(ns, n, k + 1, t + 1, j);
                    assert(out[t].0@ == ns[n][k].0 && ns[n][k].1 != SlotV::Node(n));
                }
            },
            SlotV::Node(c) => {
                if c == n {
                    lemma_entries_keys_from(ns, n, k + 1, t, j);
                } else {
                    if t < out.len() && out[t].0@ == ns[n][k].0 && node_json_ok(ns, c, out[t].1)
                        && entries_ok(ns, n, k + 1, t + 1, j) {
                        lemma_entries_keys_from(ns, n, k + 1, t + 1, j);
                        assert(out[t].0@ == ns[n][k].0 && ns[n][k].1 != SlotV::Node(n));
                    } else {
                        lemma_entries_keys_from(ns, n, k + 1, t, j);
                    }
                }
            },
        }
    }
}

/// Law: a rendered node has no entry under the key of a self-edge — a node
/// referencing itself as one of its own direct fields has that field
/// omitted (the node's keys being unique, as the state space keeps them).
pub proof fn lemma_self_edge_omitted(ns: NodesV, n: int, j: Json, k: int)
    requires
        node_json_ok(ns, n, j),
        0 <= k < ns[n].len(),
        ns[n][k].1 == SlotV::Node(n),
        forall|i1: int, i2: int|
            0 <= i1 < i2 < ns[n].len() ==> (#[trigger] ns[n][i1].0) != (#[trigger] ns[n][i2].0),
    ensures
        forall|t: int|
            0 <= t < (j->Object_0)@.len() ==> ((#[trigger] (j->Object_0)@[t]).0)@ != ns[n][k].0,
{
    lemma_entries_keys_from(ns, n, 0, 0, j);
    assert forall|t: int|
        0 <= t < (j->Object_0)@.len() implies ((#[trigger] (j->Object_0)@[t]).0)@
        != ns[n][k].0 by {
        if (j->Object_0)@[t].0@ == ns[n][k].0 {
            let k2 = choose|k2: int|
                0 <= k2 < ns[n].len() && ((j->Object_0)@[t]).0@ == (#[trigger] ns[n][k2].0)
                    && ns[n][k2].1 != SlotV::Node(n);
            assert(k2 != k);
            if k2 < k {
                assert(ns[n][k2].0 != ns[n][k].0);
            } else {
                assert(ns[n][k].0 != ns[n][k2].0);
            }
        }
    }
}

/// Prepending one rendered entry shifts a rendering one output position.
proof fn lemma_entries_unshift(ns: NodesV, n: int, k: int, t: int, whole: Json, rest: Json)
    requires
        whole is Object,
        rest is Object,
        (whole->Object_0)@.len() == (rest->Object_0)@.len() + 1,
        forall|i: int|
            0 <= i < (rest->Object_0)@.len() ==> (whole->Object_0)@[i + 1] == (#[trigger] (
            rest->Object_0)@[i]),
        entries_ok(ns, n, k, t, rest),
    ensures
        entries_ok(ns, n, k, t + 1, whole),
    decreases ns[n].len() - k + 1,
{
    if 0 <= n < ns.len() && 0 <= k && 0 <= t && k < ns[n].len() {
        match ns[n][k].1 {
            SlotV::Leaf(v) => {
                if v is Opaque {
                    lemma_entries_unshift(ns, n, k + 1, t, whole, rest);
                } else {
                    lemma_entries_unshift(ns, n, k + 1, t + 1, whole, rest);
                }
            },
            SlotV::Node(c) => {
                if c == n {
                    lemma_entries_unshift(ns, n, k + 1, t, whole, rest);
                } else {
                    if entries_ok(ns, n, k + 1, t + 1, rest) && t < (rest->Object_0)@.len() && (
                    rest->Object_0)@[t].0@ == ns[n][k].0 && node_json_ok(
                        ns,
                        c,
                        (rest->Object_0)@[t].1,
                    ) {
                        lemma_entries_unshift(ns, n, k + 1, t + 1, whole, rest);
                    } else {
                        lemma_entries_unshift(ns, n, k + 1, t, whole, rest);
                    }
                }
            },
        }
    }
}

/// A scalar rendering depends only on the JSON value's mathematical value.
proof fn lemma_scalar_matches_congruent(a: Json, b: Json, v: ValueV)
    requires
        scalar_matches(a, v),
        json_view(a) == json_view(b),
    ensures
        scalar_matches(b, v),
{
}

/// A rendering predicate depends only on the JSON tree's mathematical
/// value, so a deep copy renders the same node.
proof fn lemma_node_ok_congruent(ns: NodesV, n: int, a: Json, b: Json)
    requires
        node_json_ok(ns, n, a),
        json_view(a) == json_view(b),
    ensures
        node_json_ok(ns, n, b),
    decreases a, ns[n].len() + 2,
{
    lemma_obj_view_is_entries(a, 0);
    assert(b is Object);
    lemma_obj_view_is_entries(b, 0);
    let ea = (a->Object_0)@;
    let eb = (b->Object_0)@;
    assert(obj_view(a, 0) == obj_view(b, 0));
    assert(jentries_view(ea).skip(0) =~= jentries_view(ea));
    assert(jentries_view(eb).skip(0) =~= jentries_view(eb));
    assert(jentries_view(ea) =~= jentries_view(eb));
    assert(ea.len() == eb.len()) by {
        assert(jentries_view(ea).len() == ea.len());
        assert(jentries_view(eb).len() == eb.len());
    }
    assert forall|i: int|
        0 <= i < ea.len() implies ((#[trigger] ea[i]).0@ == eb[i].0@ && json_view(ea[i].1)
        == json_view(eb[i].1)) by {
        assert(jentries_view(ea)[i] == (ea[i].0@, json_view(ea[i].1)));
        assert(jentries_view(eb)[i] == (eb[i].0@, json_view(eb[i].1)));
    }
    lemma_entries_ok_congruent(ns, n, 0, 0, a, b);
}

proof fn lemma_entries_ok_congruent(ns: NodesV, n: int, k: int, t: int, a: Json, b: Json)
    requires
        a is Object,
        b is Object,
        (a->Object_0)@.len() == (b->Object_0)@.len(),
        forall|i: int|
            0 <= i < (a->Object_0)@.len() ==> ((#[trigger] (a->Object_0)@[i]).0@ == (
            b->Object_0)@[i].0@ && json_view((a->Object_0)@[i].1) == json_view(
                (b->Object_0)@[i].1,
            )),
        entries_ok(ns, n, k, t, a),
    ensures
        entries_ok(ns, n, k, t, b),
    decreases a, ns[n].len() - k + 1,
{
    if 0 <= n < ns.len() && 0 <= k && 0 <= t && k < ns[n].len() {
        let ea = (a->Object_0)@;
        let eb = (b->Object_0)@;
        match ns[n][k].1 {
            SlotV::Leaf(v) => {
                if v is Opaque {
                    lemma_entries_ok_congruent(ns, n, k + 1, t, a, b);
                } else {
                    lemma_scalar_matches_congruent(ea[t].1, eb[t].1, v);
                    lemma_entries_ok_congruent(ns, n, k + 1, t + 1, a, b);
                }
            },
            SlotV::Node(c) => {
                if c == n {
                    lemma_entries_ok_congruent(ns, n, k + 1, t, a, b);
                } else {
                    if t < ea.len() && ea[t].0@ == ns[n][k].0 && node_json_ok(ns, c, ea[t].1)
                        && entries_ok(ns, n, k + 1, t + 1, a) {
                        lemma_node_ok_congruent(ns, c, ea[t].1, eb[t].1);
                        lemma_entries_ok_congruent(ns, n, k + 1, t + 1, a, b);
                    } else {
                        lemma_entries_ok_congruent(ns, n, k + 1, t, a, b);
                    }
                }
            },
        }
    }
}

/// Memo soundness: every memoized value renders its node correctly.
pub open spec fn memo_ok(ns: NodesV, memo: Seq<Option<Json>>) -> bool {
    forall|i: int|
        0 <= i < memo.len() ==> ((#[trigger] memo[i]) matches Some(j) ==> node_json_ok(ns, i, j))
}

/// How many nodes are marked in progress.
pub open spec fn count_marked(marks: Seq<bool>) -> int
    decreases marks.len(),
{
    if marks.len() == 0 {
        0
    } else {
        count_marked(marks.drop_last()) + if marks.last() {
            1int
        } else {
            0int
        }
    }
}

proof fn lemma_count_le_len(marks: Seq<bool>)
    ensures
        0 <= count_marked(marks) <= marks.len(),
    decreases marks.len(),
{
    if marks.len() > 0 {
        lemma_count_le_len(marks.drop_last());
    }
}

proof fn lemma_count_update_true(marks: Seq<bool>, i: int)
    requires
        0 <= i < marks.len(),
        !marks[i],
    ensures
        count_marked(marks.update(i, true)) == count_marked(marks) + 1,
    decreases marks.len(),
{
    let u = marks.update(i, true);
    if i == marks.len() - 1 {
        assert(u.drop_last() =~= marks.drop_last());
    } else {
        assert(u.drop_last() =~= marks.drop_last().update(i, true));
        lemma_count_update_true(marks.drop_last(), i);
    }
}

proof fn lemma_count_monotone(a: Seq<bool>, b: Seq<bool>)
    requires
        a.len() == b.len(),
        forall|i: int| 0 <= i < a.len() && a[i] ==> b[i],
    ensures
        count_marked(a) <= count_marked(b),
    decreases a.len(),
{
    if a.len() > 0 {
        assert(forall|i: int|
            0 <= i < a.len() - 1 && a.drop_last()[i] ==> b.drop_last()[i] == b[i] && a[i] == a.drop_last()[i]);
        lemma_count_monotone(a.drop_last(), b.drop_last());
    }
}

/// Entry views of two objects agree pointwise from `k` on, so their suffix
/// views agree.
proof fn lemma_obj_view_congruent(a: Json, b: Json, k: int)
    requires
        a is Object,
        b is Object,
        (a->Object_0)@.len() == (b->Object_0)@.len(),
        forall|t: int|
            0 <= t < (a->Object_0)@.len() ==> (#[trigger] (a->Object_0)@[t]).0@ == (
            b->Object_0)@[t].0@ && json_view((a->Object_0)@[t].1) == json_view((b->Object_0)@[t].1),
    ensures
        obj_view(a, k) =~= obj_view(b, k),
    decreases (a->Object_0)@.len() - k,
{
    if 0 <= k < (a->Object_0)@.len() {
        lemma_obj_view_congruent(a, b, k + 1);
    }
}

/// An object's suffix view is the view of its rendered entries.
proof fn lemma_obj_view_is_entries(j: Json, k: int)
    requires
        j is Object,
        0 <= k <= (j->Object_0)@.len(),
    ensures
        obj_view(j, k) =~= jentries_view((j->Object_0)@).skip(k),
    decreases (j->Object_0)@.len() - k,
{
    let es = (j->Object_0)@;
    if k < es.len() {
        lemma_obj_view_is_entries(j, k + 1);
        assert(jentries_view(es).skip(k) =~= seq![(es[k].0@, json_view(es[k].1))] + jentries_view(
            es,
        ).skip(k + 1));
    }
}

impl Json {
    /// Copy a tree; the copy has the same mathematical value.
    #[verifier::loop_isolation(false)]
    pub fn deep_clone(&self) -> (r: Json)
        ensures
            json_view(r) == json_view(*self),
        decreases *self,
    {
        match self {
            Json::Null => Json::Null,
            Json::Bool(b) => Json::Bool(*b),
            Json::Int(i) => Json::Int(*i),
            Json::Str(s) => Json::Str(s.clone()),
            Json::Object(es) => {
                let mut out: Vec<(String, Json)> = Vec::new();
                let mut k: usize = 0;
                while k < es.len()
                    invariant
                        k <= es@.len(),
                        out@.len() == k,
                        forall|t: int|
                            0 <= t < k ==> (#[trigger] out@[t]).0@ == es@[t].0@ && json_view(
                                out@[t].1,
                            ) == json_view(es@[t].1),
                    decreases es@.len() - k,
                {
                    proof {
                        assert(es@ == (self->Object_0)@);
                    }
                    let pair = (es[k].0.clone(), es[k].1.deep_clone());
                    out.push(pair);
                    k += 1;
                }
                let r = Json::Object(out);
                proof {
                    lemma_obj_view_congruent(r, *self, 0);
                }
                r
            },
        }
    }
}

/// Render one scalar leaf; `None` for a non-serializable leaf.
fn value_json(v: &Value) -> (r: Option<Json>)
    ensures
        match r {
            Some(j) => scalar_matches(j, v@),
            None => v@ is Opaque,
        },
{
    match v {
        Value::Null => Some(Json::Null),
        Value::Bool(b) => Some(Json::Bool(*b)),
        Value::Int(i) => Some(Json::Int(*i)),
        Value::Str(s) => Some(Json::Str(s.clone())),
        Value::Opaque => None,
    }
}

impl StateSpace {
    /// Render the whole state graph from the root, cycle-safely.
    pub fn snapshot(&self) -> (r: Json)
        requires
            self.wf(),
        ensures
            node_json_ok(self@, 0, r),
    {
        self.snapshot_from(0)
    }

    /// Render the subgraph below one node, cycle-safely.
    pub fn snapshot_from(&self, start: usize) -> (r: Json)
        requires
            self.wf(),
            start < self@.len(),
        ensures
            node_json_ok(self@, start as int, r),
    {
        let n = self.nodes.len();
        let mut marks: Vec<bool> = Vec::new();
        let mut memo: Vec<Option<Json>> = Vec::new();
        let mut i: usize = 0;
        while i < n
            invariant
                i <= n,
                marks@.len() == i,
                memo@.len() == i,
                forall|t: int| 0 <= t < i ==> !(#[trigger] marks@[t]),
                forall|t: int| 0 <= t < i ==> (#[trigger] memo@[t]) is None,
            decreases n - i,
        {
            marks.push(false);
            memo.push(None);
            i += 1;
        }
        proof {
            lemma_count_le_len(marks@);
        }
        self.snap_node(start, &mut marks, &mut memo)
    }

    /// Render node `n`: mark it in progress, render its entries, memoize the
    /// result.
    fn snap_node(&self, n: usize, marks: &mut Vec<bool>, memo: &mut Vec<Option<Json>>) -> (r: Json)
        requires
            self.wf(),
            n < self@.len(),
            old(marks)@.len() == self@.len(),
            old(memo)@.len() == self@.len(),
            !old(marks)@[n as int],
            old(memo)@[n as int] is None,
            memo_ok(self@, old(memo)@),
        ensures
            final(marks)@.len() == self@.len(),
            final(memo)@.len() == self@.len(),
            forall|i: int| 0 <= i < self@.len() && old(marks)@[i] ==> final(marks)@[i],
            forall|i: int|
                0 <= i < self@.len() && (#[trigger] old(memo)@[i]) is Some ==> final(memo)@[i]
                    == old(memo)@[i],
            memo_ok(self@, final(memo)@),
            node_json_ok(self@, n as int, r),
        decreases self@.len() - count_marked(marks@), 0int,
    {
        proof {
            lemma_count_le_len(marks@);
            lemma_count_update_true(marks@, n as int);
        }
        marks[n] = true;
        proof {
            assert(marks@ =~= old(marks)@.update(n as int, true));
            lemma_count_le_len(marks@);
        }
        let entries = self.snap_entries(n, 0, marks, memo);
        let r = Json::Object(entries);
        proof {
            assert(node_json_ok(self@, n as int, r));
        }
        let copy = r.deep_clone();
        proof {
            lemma_node_ok_congruent(self@, n as int, r, copy);
        }
        let ghost before = memo@;
        memo[n] = Some(copy);
        proof {
            assert forall|i: int|
                0 <= i < memo@.len() implies ((#[trigger] memo@[i]) matches Some(j)
                ==> node_json_ok(self@, i, j)) by {
                if i != n as int {
                    assert(memo@[i] == before[i]);
                }
            }
        }
        r
    }

    /// Render the entries of node `n` from position `k` on.
    fn snap_entries(
        &self,
        n: usize,
        k: usize,
        marks: &mut Vec<bool>,
        memo: &mut Vec<Option<Json>>,
    ) -> (out: Vec<(String, Json)>)
        requires
            self.wf(),
            n < self@.len(),
            k <= self@[n as int].len(),
            old(marks)@.len() == self@.len(),
            old(memo)@.len() == self@.len(),
            memo_ok(self@, old(memo)@),
        ensures
            final(marks)@.len() == self@.len(),
            final(memo)@.len() == self@.len(),
            forall|i: int| 0 <= i < self@.len() && old(marks)@[i] ==> final(marks)@[i],
            forall|i: int|
                0 <= i < self@.len() && (#[trigger] old(memo)@[i]) is Some ==> final(memo)@[i]
                    == old(memo)@[i],
            memo_ok(self@, final(memo)@),
            entries_ok(self@, n as int, k as int, 0, Json::Object(out)),
        decreases self@.len() - count_marked(marks@), self@[n as int].len() - k,
    {
        proof {
            lemma_count_le_len(marks@);
        }
        let node_len = self.nodes[n].len();
        if k >= node_len {
            let out: Vec<(String, Json)> = Vec::new();
            proof {
                assert((Json::Object(out)->Object_0)@.len() == 0);
            }
            return out;
        }
        let ghost entry = self@[n as int][k as int];
        proof {
            assert(entry == ((self.nodes@[n as int]@[k as int]).0@, (
            self.nodes@[n as int]@[k as int]).1@));
        }
        let key = self.nodes[n][k].0.clone();
        let head: Option<Json> = match &self.nodes[n][k].1 {
            crate::state::Slot::Leaf(v) => value_json(v),
            crate::state::Slot::Node(c) => {
                let c = *c;
                proof {
                    assert(entry.1 == SlotV::Node(c as int));
                    assert(slot_in_range(self@, self@[n as int][k as int].1));
                }
                if c == n {
                    None
                } else {
                    let reuse: Option<Json> = match &memo[c] {
                        Some(j) => {
                            let jc = j.deep_clone();
                            proof {
                                lemma_node_ok_congruent(self@, c as int, *j, jc);
                            }
                            Some(jc)
                        },
                        None => None,
                    };
                    match reuse {
                        Some(j) => Some(j),
                        None => {
                            if marks[c] {
                                None
                            } else {
                                Some(self.snap_node(c, marks, memo))
                            }
                        },
                    }
                }
            },
        };
        let ghost marks_mid = marks@;
        let ghost memo_mid = memo@;
        proof {
            lemma_count_monotone(old(marks)@, marks@);
            lemma_count_le_len(marks@);
        }
        let rest = self.snap_entries(n, k + 1, marks, memo);
        match head {
            Some(j) => {
                let ghost jg = j;
                let ghost restg = rest;
                let mut out = rest;
                out.insert(0, (key, j));
                proof {
                    assert(out@ =~= seq![(key, jg)] + restg@);
                    assert((Json::Object(out)->Object_0)@.len() == (Json::Object(
                        restg,
                    )->Object_0)@.len() + 1);
                    assert forall|i: int|
                        0 <= i < (Json::Object(restg)->Object_0)@.len() implies (Json::Object(
                        out,
                    )->Object_0)@[i + 1] == (#[trigger] (Json::Object(restg)->Object_0)@[i]) by {}
                    lemma_entries_unshift(
                        self@,
                        n as int,
                        k as int + 1,
                        0,
                        Json::Object(out),
                        Json::Object(restg),
                    );
                    assert((Json::Object(out)->Object_0)@[0] == (key, jg));
                    assert(entries_ok(self@, n as int, k as int, 0, Json::Object(out)));
                }
                out
            },
            None => rest,
        }
    }
}

/// The views of rendered entry pairs.
pub open spec fn jentries_view(es: Seq<(String, Json)>) -> Seq<(Seq<char>, JsonV)> {
    es.map_values(|e: (String, Json)| (e.0@, json_view(e.1)))
}

} // verus!
