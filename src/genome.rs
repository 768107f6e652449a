//! The genome: five sets of genes, and the queries and whole-genome operations on them.
use crate::connections::{connection_key, Connection};
use crate::genes::{crossed, has_key, lemma_crossed_keys, lemma_crossed_self, Gene, Genes};
use crate::ids::{Id, IdGenerator};
use crate::nodes::{node_key, Activation, Node};
use crate::parameters::{Parameters, Structure};
use crate::rng::{is_order, share, share_of, GenomeRng};
use vstd::prelude::*;
use vstd::set_lib::*;

verus! {

/// Some connection of `c` leads from `a` to `b`.
pub open spec fn edge(c: Seq<Connection>, a: Id, b: Id) -> bool {
    exists|i: int| 0 <= i < c.len() && (#[trigger] c[i]).input == a && c[i].output == b
}

/// Consecutive identities of `p` are joined by connections of `c`.
pub open spec fn is_path(c: Seq<Connection>, p: Seq<Id>) -> bool {
    forall|i: int| 0 <= i < p.len() - 1 ==> #[trigger] edge(c, p[i], p[i + 1])
}

/// A path of at least one connection of `c` leads from `a` to `b`.
pub open spec fn reaches(c: Seq<Connection>, a: Id, b: Id) -> bool {
    exists|p: Seq<Id>| p.len() >= 2 && p[0] == a && p.last() == b && #[trigger] is_path(c, p)
}

/// A path of no or more connections of `c` leads from `a` to `b`.
pub open spec fn walks(c: Seq<Connection>, a: Id, b: Id) -> bool {
    exists|p: Seq<Id>| p.len() >= 1 && p[0] == a && p.last() == b && #[trigger] is_path(c, p)
}

/// The connections of `c` form no cycle.
pub open spec fn acyclic(c: Seq<Connection>) -> bool {
    forall|a: Id| !#[trigger] reaches(c, a, a)
}

/// Some node of `s` has identity `id`.
pub open spec fn has_node(s: Seq<Node>, id: Id) -> bool {
    has_key(s, node_key(id))
}

/// No identity is that of a node of `a` and of a node of `b`.
pub open spec fn nodes_apart(a: Seq<Node>, b: Seq<Node>) -> bool {
    forall|id: Id| !(#[trigger] has_node(a, id) && has_node(b, id))
}

/// Where every identity of `a2` is one of `a`, and no node of `a` shares an identity with a
/// node of `b`, no node of `a2` does either.
pub proof fn lemma_apart_within(a: Seq<Node>, a2: Seq<Node>, b: Seq<Node>)
    requires
        nodes_apart(a, b),
        forall|id: Id| #[trigger] has_node(a2, id) ==> has_node(a, id),
    ensures
        nodes_apart(a2, b),
        nodes_apart(b, a2),
{
    assert forall|id: Id| !(#[trigger] has_node(a2, id) && has_node(b, id)) by {
        if has_node(a2, id) {
            assert(has_node(a, id));
        }
    }
}

/// The identities of `a.push(n)`: those of `a`, and that of `n`.
pub proof fn lemma_has_node_push(a: Seq<Node>, n: Node)
    ensures
        forall|id: Id| #[trigger] has_node(a.push(n), id) <==> has_node(a, id) || id == n.id,
{
    assert forall|id: Id| #[trigger] has_node(a.push(n), id) <==> has_node(a, id) || id == n.id by {
        if has_node(a.push(n), id) {
            let j = choose|j: int| 0 <= j < a.push(n).len() && (#[trigger] a.push(n)[j]).key() == node_key(id);
            if j < a.len() {
                assert(a[j] == a.push(n)[j]);
            }
        }
        if has_node(a, id) {
            let j = choose|j: int| 0 <= j < a.len() && (#[trigger] a[j]).key() == node_key(id);
            assert(a.push(n)[j] == a[j]);
        }
        if id == n.id {
            assert(a.push(n)[a.len() as int] == n);
        }
    }
}

/// Some connection of `c` other than one from `exclude` leads into `node`.
pub open spec fn enters_from_other(c: Seq<Connection>, node: Id, exclude: Id) -> bool {
    exists|i: int| 0 <= i < c.len() && (#[trigger] c[i]).output == node && c[i].input != exclude
}

/// Some connection of `c` other than one into `exclude` leaves `node`.
pub open spec fn leaves_to_other(c: Seq<Connection>, node: Id, exclude: Id) -> bool {
    exists|i: int| 0 <= i < c.len() && (#[trigger] c[i]).input == node && c[i].output != exclude
}

/// The genome: input, hidden and output nodes, feed-forward and recurrent connections.
#[derive(Debug, Clone)]
pub struct Genome {
    pub inputs: Genes<Node>,
    pub hidden: Genes<Node>,
    pub outputs: Genes<Node>,
    pub feed_forward: Genes<Connection>,
    pub recurrent: Genes<Connection>,
}

/// Joining a path from `a` to `b` with one from `b` to `c` gives one from `a` to `c`.
pub proof fn lemma_join_paths(c: Seq<Connection>, p: Seq<Id>, q: Seq<Id>)
    requires
        p.len() >= 1,
        q.len() >= 1,
        is_path(c, p),
        is_path(c, q),
        p.last() == q[0],
    ensures
        is_path(c, p + q.drop_first()),
        (p + q.drop_first()).len() == p.len() + q.len() - 1,
        (p + q.drop_first())[0] == p[0],
        (p + q.drop_first()).last() == q.last(),
{
    let r = p + q.drop_first();
    assert forall|i: int| 0 <= i < r.len() - 1 implies #[trigger] edge(c, r[i], r[i + 1]) by {
        if i < p.len() - 1 {
            assert(edge(c, p[i], p[i + 1]));
        } else {
            let k = i - (p.len() - 1);
            assert(edge(c, q[k], q[k + 1]));
            if k == 0 {
                assert(r[i] == p.last());
            } else {
                assert(r[i] == q[k]);
            }
            assert(r[i + 1] == q[k + 1]);
        }
    }
}

/// Walks followed by walks are walks; a walk ending in a reach reaches.
pub proof fn lemma_walk_then(c: Seq<Connection>, a: Id, b: Id, d: Id)
    requires
        walks(c, a, b),
        walks(c, b, d),
    ensures
        walks(c, a, d),
        reaches(c, b, d) ==> reaches(c, a, d),
        reaches(c, a, b) ==> reaches(c, a, d),
{
    let p = choose|p: Seq<Id>| p.len() >= 1 && p[0] == a && p.last() == b && #[trigger] is_path(c, p);
    let q = choose|q: Seq<Id>| q.len() >= 1 && q[0] == b && q.last() == d && #[trigger] is_path(c, q);
    lemma_join_paths(c, p, q);
    assert(is_path(c, p + q.drop_first()));
    if reaches(c, b, d) {
        let q2 = choose|q2: Seq<Id>| q2.len() >= 2 && q2[0] == b && q2.last() == d && #[trigger] is_path(c, q2);
        lemma_join_paths(c, p, q2);
        assert(is_path(c, p + q2.drop_first()));
    }
    if reaches(c, a, b) {
        let p2 = choose|p2: Seq<Id>| p2.len() >= 2 && p2[0] == a && p2.last() == b && #[trigger] is_path(c, p2);
        lemma_join_paths(c, p2, q);
        assert(is_path(c, p2 + q.drop_first()));
    }
}

/// A walk is empty (it stays put) or reaches.
pub proof fn lemma_walk_cases(c: Seq<Connection>, a: Id, b: Id)
    requires
        walks(c, a, b),
    ensures
        a == b || reaches(c, a, b),
{
    let p = choose|p: Seq<Id>| p.len() >= 1 && p[0] == a && p.last() == b && #[trigger] is_path(c, p);
    if p.len() >= 2 {
        assert(reaches(c, a, b));
    }
}

/// One connection of `c` is a walk, and so is staying put.
pub proof fn lemma_edge_walks(c: Seq<Connection>, a: Id, b: Id)
    ensures
        walks(c, a, a),
        edge(c, a, b) ==> reaches(c, a, b) && walks(c, a, b),
{
    let p = seq![a];
    assert(is_path(c, p));
    if edge(c, a, b) {
        let q = seq![a, b];
        assert(is_path(c, q)) by {
            assert forall|i: int| 0 <= i < q.len() - 1 implies #[trigger] edge(c, q[i], q[i + 1]) by {
                assert(i == 0);
            }
        }
    }
}

/// A path of `c` with the connection `s -> e` added, of at least one connection, either reaches
/// in `c` alone or passes the added connection: its start walks to `s` and `e` walks to its end.
proof fn lemma_path_with_edge(c: Seq<Connection>, x: Connection, p: Seq<Id>)
    requires
        p.len() >= 2,
        is_path(c.push(x), p),
        x.input != x.output,
        !reaches(c, x.output, x.input),
    ensures
        reaches(c, p[0], p.last()) || (walks(c, p[0], x.input) && walks(c, x.output, p.last())),
    decreases p.len(),
{
    let c2 = c.push(x);
    let (s, e) = (x.input, x.output);
    let n = p.len();
    let u = p[n - 2];
    let z = p[n - 1];
    assert(edge(c2, p[n - 2], p[n - 2 + 1]));
    let j = choose|j: int| 0 <= j < c2.len() && (#[trigger] c2[j]).input == u && c2[j].output == z;
    let old_edge = j < c.len();
    if old_edge {
        assert(c[j] == c2[j]);
        assert(edge(c, u, z));
    }
    lemma_edge_walks(c, u, z);
    lemma_edge_walks(c, e, e);
    lemma_edge_walks(c, s, s);
    if n == 2 {
        if !old_edge {
            assert(c2[j] == x);
        }
    } else {
        let q = p.drop_last();
        assert(is_path(c2, q)) by {
            assert forall|i: int| 0 <= i < q.len() - 1 implies #[trigger] edge(c2, q[i], q[i + 1]) by {
                assert(edge(c2, p[i], p[i + 1]));
            }
        }
        lemma_path_with_edge(c, x, q);
        assert(q.last() == u);
        if reaches(c, p[0], u) {
            lemma_walk_cases(c, p[0], u);
            assert(walks(c, p[0], u)) by {
                let w = choose|w: Seq<Id>| w.len() >= 2 && w[0] == p[0] && w.last() == u && #[trigger] is_path(c, w);
            }
            if old_edge {
                lemma_walk_then(c, p[0], u, z);
            } else {
                assert(c2[j] == x);
            }
        } else {
            if old_edge {
                lemma_walk_then(c, e, u, z);
            } else {
                assert(c2[j] == x);
                lemma_walk_cases(c, e, u);
            }
        }
    }
}

/// Adding a connection `s -> e` between distinct nodes to an acyclic set, where no path leads
/// from `e` back to `s`, keeps it acyclic.
pub proof fn lemma_add_edge_acyclic(c: Seq<Connection>, x: Connection)
    requires
        acyclic(c),
        x.input != x.output,
        !reaches(c, x.output, x.input),
    ensures
        acyclic(c.push(x)),
{
    assert forall|a: Id| !#[trigger] reaches(c.push(x), a, a) by {
        if reaches(c.push(x), a, a) {
            let p = choose|p: Seq<Id>| p.len() >= 2 && p[0] == a && p.last() == a && #[trigger] is_path(c.push(x), p);
            lemma_path_with_edge(c, x, p);
            assert(!reaches(c, a, a));
            lemma_walk_then(c, x.output, a, x.input);
            lemma_walk_cases(c, x.output, x.input);
        }
    }
}

/// `x` with the identity `n` read as `h`.
pub open spec fn renamed(x: Id, n: Id, h: Id) -> Id {
    if x == n {
        h
    } else {
        x
    }
}

/// Where each connection of `d` is, with `n` read as `h`, a connection of `c`, a cycle of `d`
/// would be one of `c`: so `d` is acyclic where `c` is. With `n` used nowhere this covers
/// subsets of connections.
pub proof fn lemma_renamed_acyclic(c: Seq<Connection>, d: Seq<Connection>, n: Id, h: Id)
    requires
        forall|u: Id, v: Id| #[trigger] edge(d, u, v) ==> edge(c, renamed(u, n, h), renamed(v, n, h)),
        acyclic(c),
    ensures
        acyclic(d),
{
    assert forall|a: Id| !#[trigger] reaches(d, a, a) by {
        if reaches(d, a, a) {
            let p = choose|p: Seq<Id>| p.len() >= 2 && p[0] == a && p.last() == a && #[trigger] is_path(d, p);
            let q = Seq::new(p.len(), |i: int| renamed(p[i], n, h));
            assert forall|i: int| 0 <= i < q.len() - 1 implies #[trigger] edge(c, q[i], q[i + 1]) by {
                assert(edge(d, p[i], p[i + 1]));
            }
            assert(is_path(c, q));
            assert(reaches(c, renamed(a, n, h), renamed(a, n, h)));
        }
    }
}

/// Where `c` and `d` connect the same pairs of nodes, one is acyclic exactly when the other is.
pub proof fn lemma_same_edges_acyclic(c: Seq<Connection>, d: Seq<Connection>)
    requires
        forall|u: Id, v: Id| #[trigger] edge(d, u, v) <==> edge(c, u, v),
    ensures
        acyclic(c) <==> acyclic(d),
{
    let z = Id(0);
    assert forall|u: Id, v: Id| #[trigger] edge(d, u, v) implies edge(c, renamed(u, z, z), renamed(v, z, z)) by {}
    assert forall|u: Id, v: Id| #[trigger] edge(c, u, v) implies edge(d, renamed(u, z, z), renamed(v, z, z)) by {}
    if acyclic(c) {
        lemma_renamed_acyclic(c, d, z, z);
    }
    if acyclic(d) {
        lemma_renamed_acyclic(d, c, z, z);
    }
}

/// Splitting connection `i` of an acyclic set through a node `n` that no connection touches
/// (keeping connection `i`, at any weight) leaves it acyclic.
pub proof fn lemma_split_acyclic(c: Seq<Connection>, i: int, n: Id, w0: i64, w1: i64, w2: i64)
    requires
        acyclic(c),
        0 <= i < c.len(),
        forall|j: int| 0 <= j < c.len() ==> (#[trigger] c[j]).input != n && c[j].output != n,
    ensures
        acyclic(
            c.update(i, Connection { input: c[i].input, output: c[i].output, weight: w0 }).push(
                Connection { input: c[i].input, output: n, weight: w1 },
            ).push(Connection { input: n, output: c[i].output, weight: w2 }),
        ),
{
    let (a, b) = (c[i].input, c[i].output);
    let c0 = c.update(i, Connection { input: a, output: b, weight: w0 });
    let x1 = Connection { input: a, output: n, weight: w1 };
    let x2 = Connection { input: n, output: b, weight: w2 };
    let c1 = c0.push(x1);
    assert forall|u: Id, v: Id| #[trigger] edge(c0, u, v) <==> edge(c, u, v) by {
        if edge(c0, u, v) {
            let j = choose|j: int| 0 <= j < c0.len() && (#[trigger] c0[j]).input == u && c0[j].output == v;
            assert(c[j].input == u && c[j].output == v);
        }
        if edge(c, u, v) {
            let j = choose|j: int| 0 <= j < c.len() && (#[trigger] c[j]).input == u && c[j].output == v;
            assert(c0[j].input == u && c0[j].output == v);
        }
    }
    lemma_same_edges_acyclic(c, c0);
    // nothing leaves or enters `n` in `c0`
    assert forall|j: int| 0 <= j < c0.len() implies (#[trigger] c0[j]).input != n && c0[j].output != n by {
        assert(c0[j].input == c[j].input && c0[j].output == c[j].output);
    }
    assert(!reaches(c0, n, a)) by {
        if reaches(c0, n, a) {
            let p = choose|p: Seq<Id>| p.len() >= 2 && p[0] == n && p.last() == a && #[trigger] is_path(c0, p);
            assert(edge(c0, p[0int], p[0int + 1]));
        }
    }
    assert(a != n) by {
        assert(c[i].input != n);
    }
    lemma_add_edge_acyclic(c0, x1);
    assert(!reaches(c1, b, n)) by {
        if reaches(c1, b, n) {
            let p = choose|p: Seq<Id>| p.len() >= 2 && p[0] == b && p.last() == n && #[trigger] is_path(c1, p);
            lemma_path_with_edge(c0, x1, p);
            if reaches(c0, b, n) {
                let q = choose|q: Seq<Id>| q.len() >= 2 && q[0] == b && q.last() == n && #[trigger] is_path(c0, q);
                assert(edge(c0, q[q.len() - 2], q[q.len() - 2 + 1]));
            } else {
                // b walks to a, and a -> b closes a cycle
                assert(c0[i].input == a && c0[i].output == b);
                assert(edge(c0, a, b));
                lemma_edge_walks(c0, a, b);
                lemma_walk_then(c0, b, a, b);
                assert(!reaches(c0, b, b));
            }
        }
    }
    assert(b != n) by {
        assert(c[i].output != n);
    }
    lemma_add_edge_acyclic(c1, x2);
}

/// Where every connection leads from a node of `from` to a node of `to`, and no identity is
/// in both, there is no cycle.
pub proof fn lemma_bipartite_acyclic(c: Seq<Connection>, from: Seq<Node>, to: Seq<Node>)
    requires
        forall|i: int| 0 <= i < c.len() ==> has_node(from, (#[trigger] c[i]).input) && has_node(to, c[i].output),
        forall|id: Id| !(#[trigger] has_node(from, id) && has_node(to, id)),
    ensures
        acyclic(c),
{
    assert forall|a: Id| !#[trigger] reaches(c, a, a) by {
        if reaches(c, a, a) {
            let p = choose|p: Seq<Id>| p.len() >= 2 && p[0] == a && p.last() == a && #[trigger] is_path(c, p);
            assert(edge(c, p[0int], p[0int + 1]));
            let j = choose|j: int| 0 <= j < c.len() && (#[trigger] c[j]).input == p[0] && c[j].output == p[1];
            assert(has_node(to, p[1]));
            if p.len() == 2 {
                assert(has_node(from, a));
            } else {
                assert(edge(c, p[1int], p[1int + 1]));
                let k = choose|k: int| 0 <= k < c.len() && (#[trigger] c[k]).input == p[1] && c[k].output == p[2];
                assert(has_node(from, p[1]));
            }
        }
    }
}

/// Some connection of `c` leads from a node of `inputs` to `output`.
pub open spec fn fed_from(c: Seq<Connection>, inputs: Seq<Node>, output: Id) -> bool {
    exists|i: int| 0 <= i < inputs.len() && #[trigger] has_key(c, connection_key(inputs[i].id, output))
}

/// The inputs and outputs of `g` are those of a new genome of `structure` whose identities were
/// handed out from `counter` on: `number_of_inputs` linear inputs, then `number_of_outputs`
/// outputs with the configured activation, each at its position.
pub open spec fn fresh_nodes(g: Genome, structure: Structure, counter: nat) -> bool {
    &&& g.inputs@.len() == structure.number_of_inputs
    &&& g.outputs@.len() == structure.number_of_outputs
    &&& forall|i: int| 0 <= i < g.inputs@.len() ==> {
        &&& (#[trigger] g.inputs@[i]).id.0 == counter + i
        &&& g.inputs@[i].activation == Activation::Linear
        &&& g.inputs@[i].order == i
    }
    &&& forall|i: int| 0 <= i < g.outputs@.len() ==> {
        &&& (#[trigger] g.outputs@[i]).id.0 == counter + structure.number_of_inputs + i
        &&& g.outputs@[i].activation == structure.outputs_activation
        &&& g.outputs@[i].order == i
    }
}

/// `id` is the identity of one of the inputs at the first `t` positions of `order`.
pub open spec fn chosen_before(inputs: Seq<Node>, order: Seq<usize>, t: int, id: Id) -> bool {
    exists|t2: int| 0 <= t2 < t && #[trigger] inputs[order[t2] as int].id == id
}

/// `new` is `old` with connections added, each from one of the inputs at the first `k`
/// positions of `order` to an output, weighing at most `cap`; each such input is connected to
/// every output.
pub open spec fn chosen_connected(old: Genome, new: Genome, order: Seq<usize>, k: nat, cap: i64) -> bool {
    &&& new.feed_forward@.len() >= old.feed_forward@.len()
    &&& new.feed_forward@.subrange(0, old.feed_forward@.len() as int) == old.feed_forward@
    &&& connects_chosen(new.feed_forward@, old.inputs@, old.outputs@, order, k)
    &&& forall|i: int|
        old.feed_forward@.len() <= i < new.feed_forward@.len() ==> {
            &&& has_node(old.inputs@, (#[trigger] new.feed_forward@[i]).input)
            &&& chosen_before(old.inputs@, order, k as int, new.feed_forward@[i].input)
            &&& has_node(old.outputs@, new.feed_forward@[i].output)
            &&& -cap <= new.feed_forward@[i].weight <= cap
        }
}

/// What [`Genome::init`] does: the nodes and recurrent connections stay; a `percent` share of
/// the inputs (rounded up), distinct and in an order drawn at random, is connected to every
/// output, and no other connection is added.
pub open spec fn init_connected(old: Genome, new: Genome, percent: u64, cap: i64) -> bool {
    &&& new.inputs@ == old.inputs@
    &&& new.hidden@ == old.hidden@
    &&& new.outputs@ == old.outputs@
    &&& new.recurrent@ == old.recurrent@
    &&& exists|order: Seq<usize>|
        is_order(order, old.inputs@.len()) && order.no_duplicates() && #[trigger] chosen_connected(
            old,
            new,
            order,
            share_of(percent, old.inputs@.len()),
            cap,
        )
}

/// The inputs at the first `k` positions of `order` are each connected in `c` to every node
/// of `outputs`.
pub open spec fn connects_chosen(
    c: Seq<Connection>,
    inputs: Seq<Node>,
    outputs: Seq<Node>,
    order: Seq<usize>,
    k: nat,
) -> bool {
    forall|t: int, o: int|
        0 <= t < k && 0 <= o < outputs.len() ==> has_key(
            c,
            connection_key(#[trigger] inputs[order[t] as int].id, #[trigger] outputs[o].id),
        )
}

impl Genome {
    /// Every gene set holds at most one gene per key, and no two nodes share an identity.
    pub open spec fn wf(&self) -> bool {
        &&& self.inputs.wf()
        &&& self.hidden.wf()
        &&& self.outputs.wf()
        &&& self.feed_forward.wf()
        &&& self.recurrent.wf()
        &&& nodes_apart(self.inputs@, self.hidden@)
        &&& nodes_apart(self.inputs@, self.outputs@)
        &&& nodes_apart(self.hidden@, self.outputs@)
    }

    /// Some node of the genome has identity `id`.
    pub open spec fn has_any_node(&self, id: Id) -> bool {
        has_node(self.inputs@, id) || has_node(self.hidden@, id) || has_node(self.outputs@, id)
    }

    /// A genome without genes.
    pub fn empty() -> (r: Genome)
        ensures
            r.wf(),
            r.inputs@.len() == 0,
            r.hidden@.len() == 0,
            r.outputs@.len() == 0,
            r.feed_forward@.len() == 0,
            r.recurrent@.len() == 0,
    {
        Genome {
            inputs: Genes::new(),
            hidden: Genes::new(),
            outputs: Genes::new(),
            feed_forward: Genes::new(),
            recurrent: Genes::new(),
        }
    }

    /// A gene-for-gene copy.
    pub fn copied(&self) -> (r: Genome)
        ensures
            r.inputs@ == self.inputs@,
            r.hidden@ == self.hidden@,
            r.outputs@ == self.outputs@,
            r.feed_forward@ == self.feed_forward@,
            r.recurrent@ == self.recurrent@,
    {
        Genome {
            inputs: self.inputs.copied(),
            hidden: self.hidden.copied(),
            outputs: self.outputs.copied(),
            feed_forward: self.feed_forward.copied(),
            recurrent: self.recurrent.copied(),
        }
    }

    /// Some node (input, hidden or output) has identity `id`.
    pub fn contains(&self, id: Id) -> (r: bool)
        ensures
            r == self.has_any_node(id),
    {
        let k = (id.0, 0);
        self.inputs.contains_key(k) || self.hidden.contains_key(k) || self.outputs.contains_key(k)
    }

    /// All nodes: inputs, then hidden nodes, then outputs.
    pub fn nodes(&self) -> (r: Vec<Node>)
        ensures
            r@ == self.inputs@ + self.hidden@ + self.outputs@,
    {
        let mut r = self.inputs.copied().0;
        let mut h = self.hidden.copied().0;
        let mut o = self.outputs.copied().0;
        r.append(&mut h);
        r.append(&mut o);
        r
    }

    /// All connections: feed-forward, then recurrent.
    pub fn connections(&self) -> (r: Vec<Connection>)
        ensures
            r@ == self.feed_forward@ + self.recurrent@,
    {
        let mut r = self.feed_forward.copied().0;
        let mut q = self.recurrent.copied().0;
        r.append(&mut q);
        r
    }

    /// The number of connections, feed-forward and recurrent.
    pub fn len(&self) -> (r: usize)
        requires
            self.feed_forward@.len() + self.recurrent@.len() <= usize::MAX,
        ensures
            r == self.feed_forward@.len() + self.recurrent@.len(),
    {
        self.feed_forward.len() + self.recurrent.len()
    }

    /// The genome holds no connection.
    pub fn is_empty(&self) -> (r: bool)
        ensures
            r == (self.feed_forward@.len() == 0 && self.recurrent@.len() == 0),
    {
        self.feed_forward.is_empty() && self.recurrent.is_empty()
    }

    /// Some feed-forward or recurrent connection other than one from `exclude` leads into `node`.
    pub fn has_alternative_input(&self, node: Id, exclude: Id) -> (r: bool)
        ensures
            r == (enters_from_other(self.feed_forward@, node, exclude) || enters_from_other(
                self.recurrent@,
                node,
                exclude,
            )),
    {
        enters_from_other_in(&self.feed_forward, node, exclude) || enters_from_other_in(
            &self.recurrent,
            node,
            exclude,
        )
    }

    /// Some feed-forward or recurrent connection other than one into `exclude` leaves `node`.
    pub fn has_alternative_output(&self, node: Id, exclude: Id) -> (r: bool)
        ensures
            r == (leaves_to_other(self.feed_forward@, node, exclude) || leaves_to_other(
                self.recurrent@,
                node,
                exclude,
            )),
    {
        leaves_to_other_in(&self.feed_forward, node, exclude) || leaves_to_other_in(
            &self.recurrent,
            node,
            exclude,
        )
    }

    /// Adding the feed-forward connection `start -> end` would close a cycle: a path of
    /// feed-forward connections leads from `end` back to `start`.
    pub fn would_form_cycle(&self, start: &Node, end: &Node) -> (r: bool)
        ensures
            r == reaches(self.feed_forward@, end.id, start.id),
    {
        feed_forward_reaches(&self.feed_forward, end.id, start.id)
    }
}


impl Genome {
    /// A genome of `structure`: `number_of_inputs` linear input nodes and `number_of_outputs`
    /// output nodes with the configured activation, each with a fresh identity from `ids`
    /// (inputs first), and no hidden nodes or connections.
    pub fn new(structure: &Structure, ids: &mut IdGenerator) -> (r: Genome)
        requires
            old(ids).wf(),
            old(ids).counter() + structure.number_of_inputs + structure.number_of_outputs < u64::MAX,
        ensures
            r.wf(),
            final(ids).wf(),
            final(ids).counter() == old(ids).counter() + structure.number_of_inputs
                + structure.number_of_outputs,
            forall|key: (Id, Id)| final(ids).cached(key) == old(ids).cached(key),
            fresh_nodes(r, *structure, old(ids).counter()),
            r.hidden@.len() == 0,
            r.feed_forward@.len() == 0,
            r.recurrent@.len() == 0,
            final(ids).extends(*old(ids)),
    {
        let mut g = Genome::empty();
        let ghost c0 = ids.counter();
        proof {
            ids.lemma_extends_itself();
        }
        let mut i: usize = 0;
        while i < structure.number_of_inputs
            invariant
                g.wf(),
                ids.wf(),
                i <= structure.number_of_inputs,
                ids.counter() == c0 + i,
                c0 + structure.number_of_inputs + structure.number_of_outputs < u64::MAX,
                forall|key: (Id, Id)| ids.cached(key) == old(ids).cached(key),
                c0 == old(ids).counter(),
                g.inputs@.len() == i,
                g.outputs@.len() == 0,
                g.hidden@.len() == 0,
                g.feed_forward@.len() == 0,
                g.recurrent@.len() == 0,
                forall|j: int| 0 <= j < g.inputs@.len() ==> {
                    &&& (#[trigger] g.inputs@[j]).id.0 == c0 + j
                    &&& g.inputs@[j].activation == Activation::Linear
                    &&& g.inputs@[j].order == j
                },
            decreases structure.number_of_inputs - i,
        {
            let id = ids.next_id();
            let node = Node::input(id, i);
            g.inputs.insert(node);
            proof {
                if has_key(g.inputs@, node_key(id)) {
                    let j = choose|j: int| 0 <= j < g.inputs@.len() && (#[trigger] g.inputs@[j]).key() == node_key(id);
                    assert(g.inputs@[j].id.0 == c0 + j);
                }
            }
            i = i + 1;
        }
        let mut o: usize = 0;
        while o < structure.number_of_outputs
            invariant
                g.wf(),
                ids.wf(),
                o <= structure.number_of_outputs,
                ids.counter() == c0 + structure.number_of_inputs + o,
                c0 + structure.number_of_inputs + structure.number_of_outputs < u64::MAX,
                forall|key: (Id, Id)| ids.cached(key) == old(ids).cached(key),
                c0 == old(ids).counter(),
                g.inputs@.len() == structure.number_of_inputs,
                g.outputs@.len() == o,
                g.hidden@.len() == 0,
                g.feed_forward@.len() == 0,
                g.recurrent@.len() == 0,
                forall|j: int| 0 <= j < g.inputs@.len() ==> {
                    &&& (#[trigger] g.inputs@[j]).id.0 == c0 + j
                    &&& g.inputs@[j].activation == Activation::Linear
                    &&& g.inputs@[j].order == j
                },
                forall|j: int| 0 <= j < g.outputs@.len() ==> {
                    &&& (#[trigger] g.outputs@[j]).id.0 == c0 + structure.number_of_inputs + j
                    &&& g.outputs@[j].activation == structure.outputs_activation
                    &&& g.outputs@[j].order == j
                },
            decreases structure.number_of_outputs - o,
        {
            let id = ids.next_id();
            let node = Node::output(id, o, structure.outputs_activation);
            g.outputs.insert(node);
            proof {
                if has_key(g.outputs@, node_key(id)) {
                    let j = choose|j: int| 0 <= j < g.outputs@.len() && (#[trigger] g.outputs@[j]).key() == node_key(id);
                    assert(g.outputs@[j].id.0 == c0 + structure.number_of_inputs + j);
                }
            }
            o = o + 1;
        }
        g
    }

    /// A genome of the parameters' structure (see [`Genome::new`]), not yet connected.
    pub fn uninitialized(parameters: &Parameters, ids: &mut IdGenerator) -> (r: Genome)
        requires
            old(ids).wf(),
            old(ids).counter() + parameters.structure.number_of_inputs + parameters.structure.number_of_outputs
                < u64::MAX,
        ensures
            r.wf(),
            final(ids).wf(),
            fresh_nodes(r, parameters.structure, old(ids).counter()),
            final(ids).counter() == old(ids).counter() + parameters.structure.number_of_inputs
                + parameters.structure.number_of_outputs,
            final(ids).extends(*old(ids)),
            r.hidden@.len() == 0,
            r.feed_forward@.len() == 0,
            r.recurrent@.len() == 0,
    {
        Genome::new(&parameters.structure, ids)
    }

    /// A genome of the parameters' structure (see [`Genome::new`]), initialized (see
    /// [`Genome::init`]): its feed-forward connections form no cycle.
    pub fn initialized(parameters: &Parameters, ids: &mut IdGenerator, rng: &mut GenomeRng) -> (r: Genome)
        requires
            old(ids).wf(),
            old(ids).counter() + parameters.structure.number_of_inputs + parameters.structure.number_of_outputs
                < u64::MAX,
            old(rng).cap >= 0,
        ensures
            r.wf(),
            final(ids).wf(),
            fresh_nodes(r, parameters.structure, old(ids).counter()),
            final(ids).counter() == old(ids).counter() + parameters.structure.number_of_inputs
                + parameters.structure.number_of_outputs,
            final(ids).extends(*old(ids)),
            r.hidden@.len() == 0,
            r.recurrent@.len() == 0,
            exists|g: Genome|
                g.inputs@ == r.inputs@ && g.outputs@ == r.outputs@ && g.hidden@.len() == 0 && g.recurrent@.len() == 0
                    && g.feed_forward@.len() == 0 && #[trigger] init_connected(
                    g,
                    r,
                    parameters.structure.percent_of_connected_inputs,
                    old(rng).cap,
                ),
            acyclic(r.feed_forward@),
            final(rng).cap == old(rng).cap,
            final(rng).std_dev == old(rng).std_dev,
    {
        let mut g = Genome::new(&parameters.structure, ids);
        let ghost g0 = g;
        g.init(&parameters.structure, rng);
        assert(init_connected(g0, g, parameters.structure.percent_of_connected_inputs, old(rng).cap));
        g
    }

    /// Connects `share_of(percent, n)` distinct inputs, the first ones of an order drawn at
    /// random, to every output, each connection with a weight drawn as a
    /// perturbation of zero. Connections present before stay as they are.
    pub fn init(&mut self, structure: &Structure, rng: &mut GenomeRng)
        requires
            old(self).wf(),
            old(rng).cap >= 0,
        ensures
            final(self).wf(),
            final(self).inputs@ == old(self).inputs@,
            final(self).hidden@ == old(self).hidden@,
            final(self).outputs@ == old(self).outputs@,
            final(self).recurrent@ == old(self).recurrent@,
            init_connected(*old(self), *final(self), structure.percent_of_connected_inputs, old(rng).cap),
            old(self).feed_forward@.len() == 0 ==> acyclic(final(self).feed_forward@),
            final(rng).cap == old(rng).cap,
            final(rng).std_dev == old(rng).std_dev,
    {
        let n = self.inputs.len();
        let k = share(structure.percent_of_connected_inputs, n);
        let order = rng.shuffled_positions(n);
        let m = self.outputs.len();
        let ghost before = self.feed_forward@;
        let mut t: usize = 0;
        while t < k
            invariant
                self.wf(),
                k <= n,
                n == self.inputs@.len(),
                m == self.outputs@.len(),
                k == share_of(structure.percent_of_connected_inputs, n as nat),
                is_order(order@, n as nat),
                self.inputs@ == old(self).inputs@,
                self.hidden@ == old(self).hidden@,
                self.outputs@ == old(self).outputs@,
                self.recurrent@ == old(self).recurrent@,
                self.feed_forward@.subrange(0, before.len() as int) == before,
                before == old(self).feed_forward@,
                self.feed_forward@.len() >= before.len(),
                forall|i: int|
                    before.len() <= i < self.feed_forward@.len() ==> {
                        &&& has_node(old(self).inputs@, (#[trigger] self.feed_forward@[i]).input)
                        &&& has_node(old(self).outputs@, self.feed_forward@[i].output)
                        &&& -old(rng).cap <= self.feed_forward@[i].weight <= old(rng).cap
                        &&& chosen_before(old(self).inputs@, order@, t as int, self.feed_forward@[i].input)
                    },
                forall|t2: int, o: int|
                    0 <= t2 < t && 0 <= o < m ==> has_key(
                        self.feed_forward@,
                        connection_key(
                            #[trigger] old(self).inputs@[order@[t2] as int].id,
                            #[trigger] old(self).outputs@[o].id,
                        ),
                    ),
                t <= k,
                rng.cap == old(rng).cap,
                rng.std_dev == old(rng).std_dev,
                rng.cap >= 0,
            decreases k - t,
        {
            let input = self.inputs.0[order[t]];
            proof {
                assert(old(self).inputs@[order@[t as int] as int].key() == node_key(input.id));
                assert(has_node(old(self).inputs@, input.id));
            }
            proof {
                assert forall|i: int| before.len() <= i < self.feed_forward@.len() implies chosen_before(
                    old(self).inputs@,
                    order@,
                    t + 1,
                    #[trigger] self.feed_forward@[i].input,
                ) by {
                    assert(chosen_before(old(self).inputs@, order@, t as int, self.feed_forward@[i].input));
                    let t2 = choose|t2: int| 0 <= t2 < t && #[trigger] old(self).inputs@[order@[t2] as int].id == self.feed_forward@[i].input;
                }
            }
            let mut o: usize = 0;
            while o < m
                invariant
                    self.wf(),
                    m == self.outputs@.len(),
                    self.inputs@ == old(self).inputs@,
                    self.hidden@ == old(self).hidden@,
                    self.outputs@ == old(self).outputs@,
                    self.recurrent@ == old(self).recurrent@,
                    self.feed_forward@.subrange(0, before.len() as int) == before,
                    self.feed_forward@.len() >= before.len(),
                    has_node(old(self).inputs@, input.id),
                    input == old(self).inputs@[order@[t as int] as int],
                    is_order(order@, n as nat),
                    t < k,
                    k <= n,
                    n == self.inputs@.len(),
                    forall|i: int|
                        before.len() <= i < self.feed_forward@.len() ==> {
                            &&& has_node(old(self).inputs@, (#[trigger] self.feed_forward@[i]).input)
                            &&& has_node(old(self).outputs@, self.feed_forward@[i].output)
                            &&& -old(rng).cap <= self.feed_forward@[i].weight <= old(rng).cap
                            &&& chosen_before(old(self).inputs@, order@, t + 1, self.feed_forward@[i].input)
                        },
                    forall|t2: int, o2: int|
                        0 <= t2 < t && 0 <= o2 < m ==> has_key(
                            self.feed_forward@,
                            connection_key(
                                #[trigger] old(self).inputs@[order@[t2] as int].id,
                                #[trigger] old(self).outputs@[o2].id,
                            ),
                        ),
                    forall|o2: int|
                        0 <= o2 < o ==> has_key(
                            self.feed_forward@,
                            connection_key(input.id, #[trigger] old(self).outputs@[o2].id),
                        ),
                    o <= m,
                    rng.cap == old(rng).cap,
                    rng.std_dev == old(rng).std_dev,
                    rng.cap >= 0,
                decreases m - o,
            {
                let output = self.outputs.0[o];
                let weight = rng.weight_perturbation(0);
                let ghost pre = self.feed_forward@;
                self.feed_forward.insert(Connection::new(input.id, weight, output.id));
                proof {
                    assert forall|x: (u64, u64)| has_key(pre, x) implies has_key(self.feed_forward@, x) by {
                        let j = choose|j: int| 0 <= j < pre.len() && (#[trigger] pre[j]).key() == x;
                        assert(self.feed_forward@[j] == pre[j]);
                    }
                    assert(self.feed_forward@.subrange(0, before.len() as int) =~= pre.subrange(0, before.len() as int));
                    if self.feed_forward@.len() > pre.len() {
                        assert(self.feed_forward@[pre.len() as int].key() == connection_key(input.id, output.id));
                    }
                    assert(has_key(self.feed_forward@, connection_key(input.id, output.id)));
                    assert forall|i: int|
                        before.len() <= i < self.feed_forward@.len() implies {
                            &&& has_node(old(self).inputs@, (#[trigger] self.feed_forward@[i]).input)
                            &&& has_node(old(self).outputs@, self.feed_forward@[i].output)
                            &&& -old(rng).cap <= self.feed_forward@[i].weight <= old(rng).cap
                        } by {
                        if i < pre.len() {
                            assert(self.feed_forward@[i] == pre[i]);
                        } else {
                            assert(old(self).outputs@[o as int].key() == node_key(output.id));
                            assert(old(self).inputs@[order@[t as int] as int].id == input.id);
                        }
                    }
                }
                o = o + 1;
            }
            t = t + 1;
        }
        assert(connects_chosen(self.feed_forward@, old(self).inputs@, old(self).outputs@, order@, k as nat));
        assert(chosen_connected(*old(self), *self, order@, k as nat, old(rng).cap));
        proof {
            if old(self).feed_forward@.len() == 0 {
                lemma_bipartite_acyclic(self.feed_forward@, old(self).inputs@, old(self).outputs@);
            }
        }
    }

    /// Connects each output to an input drawn uniformly, with a weight drawn as a perturbation
    /// of zero: the least connectivity under which every output receives a signal. A connection
    /// present before stays as it is.
    pub fn mimimum_init(&mut self, rng: &mut GenomeRng)
        requires
            old(self).wf(),
            old(self).inputs@.len() > 0,
            old(rng).cap >= 0,
        ensures
            final(self).wf(),
            final(self).inputs@ == old(self).inputs@,
            final(self).hidden@ == old(self).hidden@,
            final(self).outputs@ == old(self).outputs@,
            final(self).recurrent@ == old(self).recurrent@,
            final(self).feed_forward@.subrange(0, old(self).feed_forward@.len() as int) == old(
                self,
            ).feed_forward@,
            forall|o: int|
                0 <= o < old(self).outputs@.len() ==> fed_from(
                    final(self).feed_forward@,
                    old(self).inputs@,
                    (#[trigger] old(self).outputs@[o]).id,
                ),
            final(rng).cap == old(rng).cap,
            final(rng).std_dev == old(rng).std_dev,
    {
        let m = self.outputs.len();
        let mut o: usize = 0;
        while o < m
            invariant
                self.wf(),
                m == old(self).outputs@.len(),
                o <= m,
                old(self).inputs@.len() > 0,
                self.inputs@ == old(self).inputs@,
                self.hidden@ == old(self).hidden@,
                self.outputs@ == old(self).outputs@,
                self.recurrent@ == old(self).recurrent@,
                self.feed_forward@.len() >= old(self).feed_forward@.len(),
                self.feed_forward@.subrange(0, old(self).feed_forward@.len() as int) == old(self).feed_forward@,
                forall|o2: int|
                    0 <= o2 < o ==> fed_from(self.feed_forward@, old(self).inputs@, (#[trigger] old(self).outputs@[o2]).id),
                rng.cap == old(rng).cap,
                rng.std_dev == old(rng).std_dev,
                rng.cap >= 0,
            decreases m - o,
        {
            let output = self.outputs.0[o];
            let input = match self.inputs.random(rng) {
                Some(input) => input,
                None => {
                    return;
                },
            };
            let ghost i = choose|i: int| 0 <= i < self.inputs@.len() && self.inputs@[i] == input;
            let weight = rng.weight_perturbation(0);
            let ghost pre = self.feed_forward@;
            self.feed_forward.insert(Connection::new(input.id, weight, output.id));
            proof {
                assert forall|x: (u64, u64)| has_key(pre, x) implies has_key(self.feed_forward@, x) by {
                    let j = choose|j: int| 0 <= j < pre.len() && (#[trigger] pre[j]).key() == x;
                    assert(self.feed_forward@[j] == pre[j]);
                }
                assert(self.feed_forward@.subrange(0, old(self).feed_forward@.len() as int) =~= pre.subrange(0, old(self).feed_forward@.len() as int));
                if self.feed_forward@.len() > pre.len() {
                    assert(self.feed_forward@[pre.len() as int].key() == connection_key(input.id, output.id));
                }
                assert(has_key(self.feed_forward@, connection_key(old(self).inputs@[i].id, old(self).outputs@[o as int].id)));
                assert forall|o2: int|
                    0 <= o2 < o + 1 implies fed_from(self.feed_forward@, old(self).inputs@, (#[trigger] old(self).outputs@[o2]).id) by {
                    if o2 < o {
                        assert(fed_from(pre, old(self).inputs@, old(self).outputs@[o2].id));
                        let i2 = choose|i2: int|
                            0 <= i2 < old(self).inputs@.len() && #[trigger] has_key(
                                pre,
                                connection_key(old(self).inputs@[i2].id, old(self).outputs@[o2].id),
                            );
                        assert(has_key(self.feed_forward@, connection_key(old(self).inputs@[i2].id, old(self).outputs@[o2].id)));
                    } else {
                        assert(has_key(self.feed_forward@, connection_key(old(self).inputs@[i].id, old(self).outputs@[o2].id)));
                    }
                }
            }
            o = o + 1;
        }
    }

    /// Crossover rooted at `self`: hidden nodes, feed-forward and recurrent connections are
    /// crossed as [`Genes::cross_in`] does; inputs and outputs are those of `self`.
    pub fn cross_in(&self, other: &Genome, rng: &mut GenomeRng) -> (r: Genome)
        requires
            self.wf(),
            other.wf(),
        ensures
            r.wf(),
            r.inputs@ == self.inputs@,
            r.outputs@ == self.outputs@,
            exists|picks: Seq<bool>|
                picks.len() == self.hidden@.len() && r.hidden@ == crossed(self.hidden@, other.hidden@, picks),
            exists|picks: Seq<bool>|
                picks.len() == self.feed_forward@.len() && r.feed_forward@ == crossed(
                    self.feed_forward@,
                    other.feed_forward@,
                    picks,
                ),
            exists|picks: Seq<bool>|
                picks.len() == self.recurrent@.len() && r.recurrent@ == crossed(
                    self.recurrent@,
                    other.recurrent@,
                    picks,
                ),
            other.hidden@ == self.hidden@ && other.feed_forward@ == self.feed_forward@ && other.recurrent@
                == self.recurrent@ ==> r.hidden@ == self.hidden@ && r.feed_forward@ == self.feed_forward@
                && r.recurrent@ == self.recurrent@,
            acyclic(self.feed_forward@) ==> acyclic(r.feed_forward@),
            final(rng).cap == old(rng).cap,
            final(rng).std_dev == old(rng).std_dev,
    {
        let feed_forward = self.feed_forward.cross_in(&other.feed_forward, rng);
        let recurrent = self.recurrent.cross_in(&other.recurrent, rng);
        let hidden = self.hidden.cross_in(&other.hidden, rng);
        proof {
            let pf = choose|picks: Seq<bool>| picks.len() == self.feed_forward@.len() && feed_forward@ == crossed(self.feed_forward@, other.feed_forward@, picks);
            lemma_crossed_keys(self.feed_forward@, other.feed_forward@, pf);
            let d = feed_forward@;
            let c = self.feed_forward@;
            assert forall|u: Id, v: Id| #[trigger] edge(d, u, v) <==> edge(c, u, v) by {
                if edge(d, u, v) {
                    let j = choose|j: int| 0 <= j < d.len() && (#[trigger] d[j]).input == u && d[j].output == v;
                    assert(d[j].key() == c[j].key());
                    assert(c[j].input == u && c[j].output == v);
                }
                if edge(c, u, v) {
                    let j = choose|j: int| 0 <= j < c.len() && (#[trigger] c[j]).input == u && c[j].output == v;
                    assert(d[j].key() == c[j].key());
                    assert(d[j].input == u && d[j].output == v);
                }
            }
            lemma_same_edges_acyclic(c, d);
            if other.hidden@ == self.hidden@ && other.feed_forward@ == self.feed_forward@ && other.recurrent@
                == self.recurrent@ {
                let p1 = choose|picks: Seq<bool>| picks.len() == self.hidden@.len() && hidden@ == crossed(self.hidden@, other.hidden@, picks);
                let p2 = choose|picks: Seq<bool>| picks.len() == self.feed_forward@.len() && feed_forward@ == crossed(self.feed_forward@, other.feed_forward@, picks);
                let p3 = choose|picks: Seq<bool>| picks.len() == self.recurrent@.len() && recurrent@ == crossed(self.recurrent@, other.recurrent@, picks);
                lemma_crossed_self(self.hidden@, p1);
                lemma_crossed_self(self.feed_forward@, p2);
                lemma_crossed_self(self.recurrent@, p3);
            }
            let ph = choose|picks: Seq<bool>| picks.len() == self.hidden@.len() && hidden@ == crossed(self.hidden@, other.hidden@, picks);
            lemma_crossed_keys(self.hidden@, other.hidden@, ph);
            assert forall|id: Id| #[trigger] has_node(hidden@, id) implies has_node(self.hidden@, id) by {
                let j = choose|j: int| 0 <= j < hidden@.len() && (#[trigger] hidden@[j]).key() == node_key(id);
                assert(self.hidden@[j].key() == hidden@[j].key());
            }
            lemma_apart_within(self.hidden@, hidden@, self.inputs@);
            lemma_apart_within(self.hidden@, hidden@, self.outputs@);
        }
        Genome {
            inputs: self.inputs.copied(),
            hidden,
            outputs: self.outputs.copied(),
            feed_forward,
            recurrent,
        }
    }
}

/// Some connection of `c` other than one from `exclude` leads into `node`.
fn enters_from_other_in(c: &Genes<Connection>, node: Id, exclude: Id) -> (r: bool)
    ensures
        r == enters_from_other(c@, node, exclude),
{
    let mut i: usize = 0;
    while i < c.0.len()
        invariant
            i <= c@.len(),
            forall|j: int| 0 <= j < i ==> !((#[trigger] c@[j]).output == node && c@[j].input != exclude),
        decreases c@.len() - i,
    {
        if c.0[i].output == node && c.0[i].input != exclude {
            return true;
        }
        i = i + 1;
    }
    false
}

/// Some connection of `c` other than one into `exclude` leaves `node`.
fn leaves_to_other_in(c: &Genes<Connection>, node: Id, exclude: Id) -> (r: bool)
    ensures
        r == leaves_to_other(c@, node, exclude),
{
    let mut i: usize = 0;
    while i < c.0.len()
        invariant
            i <= c@.len(),
            forall|j: int| 0 <= j < i ==> !((#[trigger] c@[j]).input == node && c@[j].output != exclude),
        decreases c@.len() - i,
    {
        if c.0[i].input == node && c.0[i].output != exclude {
            return true;
        }
        i = i + 1;
    }
    false
}

/// Edge `j` may be marked: it starts at `from`, or where a marked edge ends.
spec fn markable(c: Seq<Connection>, marked: Seq<bool>, from: Id, j: int) -> bool {
    c[j].input == from || exists|k: int| 0 <= k < c.len() && marked[k] && (#[trigger] c[k]).output == c[j].input
}

/// Every edge that may be marked is.
spec fn closed(c: Seq<Connection>, marked: Seq<bool>, from: Id) -> bool {
    forall|j: int| 0 <= j < c.len() && #[trigger] markable(c, marked, from, j) ==> marked[j]
}

/// In a closed marking, each connection of a path from `from` is realized by a marked edge.
proof fn lemma_closed_path(c: Seq<Connection>, marked: Seq<bool>, from: Id, p: Seq<Id>, i: int)
    requires
        marked.len() == c.len(),
        closed(c, marked, from),
        is_path(c, p),
        p.len() >= 2,
        p[0] == from,
        0 <= i < p.len() - 1,
    ensures
        exists|j: int| 0 <= j < c.len() && marked[j] && (#[trigger] c[j]).input == p[i] && c[j].output == p[i + 1],
    decreases i,
{
    assert(edge(c, p[i], p[i + 1]));
    let j = choose|j: int| 0 <= j < c.len() && (#[trigger] c[j]).input == p[i] && c[j].output == p[i + 1];
    if i == 0 {
        assert(markable(c, marked, from, j));
    } else {
        lemma_closed_path(c, marked, from, p, i - 1);
        let k = choose|k: int| 0 <= k < c.len() && marked[k] && (#[trigger] c[k]).input == p[i - 1] && c[k].output == p[i];
        assert(markable(c, marked, from, j));
    }
}

/// Whether the edges that end where `j` starts include a marked one.
fn marked_into(c: &Genes<Connection>, marked: &Vec<bool>, node: Id) -> (r: bool)
    requires
        marked@.len() == c@.len(),
    ensures
        r == exists|k: int| 0 <= k < c@.len() && marked@[k] && (#[trigger] c@[k]).output == node,
{
    let mut k: usize = 0;
    while k < c.0.len()
        invariant
            marked@.len() == c@.len(),
            k <= c@.len(),
            forall|k2: int| 0 <= k2 < k ==> !(marked@[k2] && (#[trigger] c@[k2]).output == node),
        decreases c@.len() - k,
    {
        if marked[k] && c.0[k].output == node {
            return true;
        }
        k = k + 1;
    }
    false
}

/// Whether a path of at least one connection of `c` leads from `from` to `to`. Edges are marked
/// once their start is known to be reachable from `from`, until nothing changes.
fn feed_forward_reaches(c: &Genes<Connection>, from: Id, to: Id) -> (r: bool)
    ensures
        r == reaches(c@, from, to),
{
    let n = c.0.len();
    let mut marked: Vec<bool> = Vec::new();
    while marked.len() < n
        invariant
            marked@.len() <= n,
            forall|j: int| 0 <= j < marked@.len() ==> !marked@[j],
        decreases n - marked@.len(),
    {
        marked.push(false);
    }
    let ghost mut ms: Set<int> = Set::empty();
    let mut changed = true;
    while changed
        invariant
            n == c@.len(),
            marked@.len() == n,
            ms.finite(),
            forall|j: int| #[trigger] ms.contains(j) <==> 0 <= j < n && marked@[j],
            forall|j: int| 0 <= j < n && #[trigger] marked@[j] ==> walks(c@, from, c@[j].input),
            !changed ==> closed(c@, marked@, from),
        decreases n - ms.len() + (if changed { 1int } else { 0int }),
    {
        proof {
            lemma_int_range(0, n as int);
            lemma_len_subset(ms, set_int_range(0, n as int));
        }
        let ghost pass_start = marked@;
        let ghost start_len = ms.len();
        changed = false;
        let mut j: usize = 0;
        while j < n
            invariant
                n == c@.len(),
                marked@.len() == n,
                j <= n,
                ms.finite(),
                forall|j2: int| #[trigger] ms.contains(j2) <==> 0 <= j2 < n && marked@[j2],
                forall|j2: int| 0 <= j2 < n && #[trigger] marked@[j2] ==> walks(c@, from, c@[j2].input),
                !changed ==> marked@ == pass_start,
                !changed ==> forall|j2: int| 0 <= j2 < j && #[trigger] markable(c@, marked@, from, j2) ==> marked@[j2],
                changed ==> ms.len() > start_len,
                ms.len() >= start_len,
            decreases n - j,
        {
            if !marked[j] {
                let e = c.0[j];
                if e.input == from || marked_into(c, &marked, e.input) {
                    proof {
                        if e.input == from {
                            let p = seq![from];
                            assert(is_path(c@, p));
                        } else {
                            let k = choose|k: int| 0 <= k < c@.len() && marked@[k] && (#[trigger] c@[k]).output == e.input;
                            assert(walks(c@, from, c@[k].input));
                            let p = choose|p: Seq<Id>| p.len() >= 1 && p[0] == from && p.last() == c@[k].input && #[trigger] is_path(c@, p);
                            let q = p.push(e.input);
                            assert forall|i: int| 0 <= i < q.len() - 1 implies #[trigger] edge(c@, q[i], q[i + 1]) by {
                                if i < p.len() - 1 {
                                    assert(edge(c@, p[i], p[i + 1]));
                                } else {
                                    assert(c@[k].input == q[i] && c@[k].output == q[i + 1]);
                                }
                            }
                            assert(is_path(c@, q));
                        }
                    }
                    marked.set(j, true);
                    proof {
                        ms = ms.insert(j as int);
                    }
                    changed = true;
                }
            }
            j = j + 1;
        }
        proof {
            lemma_int_range(0, n as int);
            lemma_len_subset(ms, set_int_range(0, n as int));
        }
    }
    let mut i: usize = 0;
    while i < n
        invariant
            n == c@.len(),
            marked@.len() == n,
            i <= n,
            forall|j: int| 0 <= j < n && #[trigger] marked@[j] ==> walks(c@, from, c@[j].input),
            closed(c@, marked@, from),
            forall|j: int| 0 <= j < i ==> !(marked@[j] && (#[trigger] c@[j]).output == to),
        decreases n - i,
    {
        if marked[i] && c.0[i].output == to {
            proof {
                let e = c@[i as int];
                assert(walks(c@, from, e.input));
                let p = choose|p: Seq<Id>| p.len() >= 1 && p[0] == from && p.last() == e.input && #[trigger] is_path(c@, p);
                let q = p.push(to);
                assert forall|t: int| 0 <= t < q.len() - 1 implies #[trigger] edge(c@, q[t], q[t + 1]) by {
                    if t < p.len() - 1 {
                        assert(edge(c@, p[t], p[t + 1]));
                    } else {
                        assert(c@[i as int].input == q[t] && c@[i as int].output == q[t + 1]);
                    }
                }
                assert(is_path(c@, q));
            }
            return true;
        }
        i = i + 1;
    }
    proof {
        if reaches(c@, from, to) {
            let p = choose|p: Seq<Id>| p.len() >= 2 && p[0] == from && p.last() == to && #[trigger] is_path(c@, p);
            lemma_closed_path(c@, marked@, from, p, p.len() - 2);
            let j = choose|j: int| 0 <= j < c@.len() && marked@[j] && (#[trigger] c@[j]).input == p[p.len() - 2] && c@[j].output == p[p.len() - 2 + 1];
            assert(false);
        }
    }
    false
}

} // verus!
