//! Layered networks: their nodes and weighted references, the random
//! generator that builds them, the output wiring of unreferenced nodes, and
//! the forward sweep that evaluates them.
//!
//! Values, weights and biases are fixed-point integers: `UNIT` stands for 1.

use crate::random::{pick, seeded};
use crate::text::{digits, int_text, push_bytes, push_digits, push_int};
use rand::rngs::StdRng;
use vstd::arithmetic::div_mod::lemma_hoist_over_denominator;
use vstd::prelude::*;

verus! {

/// The fixed-point value of 1.
pub const UNIT: i32 = 1_000_000;

/// The largest magnitude of an output node's bias (0.3).
pub const OUTPUT_BIAS: i32 = 300_000;

/// A weighted edge that reads the node at `(layer, index)`.
#[derive(Clone, Debug, PartialEq)]
pub struct Reference {
    pub layer: usize,
    pub index: usize,
    pub weight: i32,
}

/// A vertex: its last computed value, its bias and its incoming references.
#[derive(Clone, Debug, PartialEq)]
pub struct Node {
    pub references: Option<Vec<Reference>>,
    pub bias: Option<i32>,
    pub value: i32,
}

/// Hidden layers (layer 0 holds the inputs) and a separate output layer.
#[derive(Debug, PartialEq)]
pub struct NeuralNetwork {
    pub num: usize,
    pub layers: Vec<Vec<Node>>,
    pub outputs: Vec<Node>,
}

impl From<i32> for Node {
    /// An input node: a value with neither bias nor references.
    fn from(value: i32) -> (r: Node) {
        Node { references: None, bias: None, value }
    }
}

impl vstd::std_specs::convert::FromSpecImpl<i32> for Node {
    open spec fn obeys_from_spec() -> bool {
        true
    }

    open spec fn from_spec(value: i32) -> Node {
        Node::from_value_spec(value)
    }
}

/// The references of a node, empty where it has none.
pub open spec fn refs_of(n: Node) -> Seq<Reference> {
    match n.references {
        Some(v) => v@,
        None => Seq::empty(),
    }
}

/// The bias of a node, 0 where it has none.
pub open spec fn bias_of(n: Node) -> int {
    match n.bias {
        Some(b) => b as int,
        None => 0,
    }
}

/// The clamped value of an accumulated sum that is scaled by `UNIT * UNIT`:
/// the sum divided by `UNIT` (rounded down), held to `-UNIT..=UNIT`.
pub open spec fn activation(acc: int) -> int {
    if acc <= -(UNIT * UNIT) {
        -UNIT as int
    } else if acc >= UNIT * UNIT {
        UNIT as int
    } else {
        acc / (UNIT as int)
    }
}

/// The sum of `value * weight` over `refs`, with `vals` giving the value read
/// at each coordinate.
pub open spec fn weighted_sum(refs: Seq<Reference>, vals: spec_fn(int, int) -> int) -> int
    decreases refs.len(),
{
    if refs.len() == 0 {
        0
    } else {
        let r = refs.last();
        weighted_sum(refs.drop_last(), vals) + vals(r.layer as int, r.index as int) * r.weight
    }
}

/// The value a node takes when the coordinates it reads hold `vals`.
pub open spec fn node_output(n: Node, vals: spec_fn(int, int) -> int) -> int {
    activation(weighted_sum(refs_of(n), vals) + bias_of(n) * UNIT)
}

/// The nodes of each layer.
pub open spec fn grid(layers: Seq<Vec<Node>>) -> Seq<Seq<Node>> {
    layers.map_values(|v: Vec<Node>| v@)
}

/// Whether `(l, m)` names a node of `layers`.
pub open spec fn in_layers(layers: Seq<Seq<Node>>, l: int, m: int) -> bool {
    0 <= l < layers.len() && 0 <= m < layers[l].len()
}

/// Every reference of every hidden node and of every output node names a
/// node of `layers`.
pub open spec fn refs_in_range(layers: Seq<Seq<Node>>, outputs: Seq<Node>) -> bool {
    &&& forall|i: int, j: int, k: int|
        #![trigger refs_of(layers[i][j])[k]]
        1 <= i < layers.len() && 0 <= j < layers[i].len() && 0 <= k < refs_of(layers[i][j]).len()
            ==> ref_in_layers(layers, refs_of(layers[i][j])[k])
    &&& forall|o: int, k: int|
        #![trigger refs_of(outputs[o])[k]]
        0 <= o < outputs.len() && 0 <= k < refs_of(outputs[o]).len() ==> ref_in_layers(
            layers,
            refs_of(outputs[o])[k],
        )
}

/// Whether a reference names a node of `layers`.
pub open spec fn ref_in_layers(layers: Seq<Seq<Node>>, r: Reference) -> bool {
    in_layers(layers, r.layer as int, r.index as int)
}

/// Whether `(l, m)` comes before `(i, j)` in the sweep order.
pub open spec fn swept_before(l: int, m: int, i: int, j: int) -> bool {
    l < i || (l == i && m < j)
}

/// What node `(i, j)` reads during a sweep from `start` to `end`: the new
/// value of a node already swept, the value from before the sweep otherwise.
pub open spec fn sweep_reads(start: Seq<Seq<Node>>, end: Seq<Seq<Node>>, i: int, j: int) -> spec_fn(
    int,
    int,
) -> int {
    |l: int, m: int|
        if in_layers(end, l, m) && swept_before(l, m, i, j) {
            end[l][m].value as int
        } else {
            start[l][m].value as int
        }
}

/// The values that the layers hold.
pub open spec fn layer_values(layers: Seq<Seq<Node>>) -> spec_fn(int, int) -> int {
    |l: int, m: int| layers[l][m].value as int
}

/// `a` and `b` have the same layers and nodes, but for the nodes' values.
pub open spec fn same_shape(a: Seq<Seq<Node>>, b: Seq<Seq<Node>>) -> bool {
    &&& a.len() == b.len()
    &&& forall|l: int| 0 <= l < a.len() ==> (#[trigger] a[l]).len() == b[l].len()
    &&& forall|l: int, m: int|
        0 <= l < a.len() && 0 <= m < a[l].len() ==> same_node(#[trigger] a[l][m], b[l][m])
}

/// Two nodes with the same references and bias.
pub open spec fn same_node(a: Node, b: Node) -> bool {
    a.references == b.references && a.bias == b.bias
}

/// `layers` with `input` appended to layer 0 as input nodes.
pub open spec fn with_inputs(layers: Seq<Seq<Node>>, input: Seq<i32>) -> Seq<Seq<Node>> {
    layers.update(0, layers[0] + input.map_values(|x: i32| Node::from_value_spec(x)))
}

impl Node {
    /// The input node that holds `value`.
    pub open spec fn from_value_spec(value: i32) -> Node {
        Node { references: None, bias: None, value }
    }
}

/// `end` and `out_end` are what one sweep makes of `start` and `out_start`:
/// the shape is kept, layer 0 is left as it is, each hidden node `(i, j)`
/// takes its value from what it reads mid-sweep, and each output node takes
/// its value from the finished hidden layers.
pub open spec fn swept(
    start: Seq<Seq<Node>>,
    end: Seq<Seq<Node>>,
    out_start: Seq<Node>,
    out_end: Seq<Node>,
) -> bool {
    &&& same_shape(end, start)
    &&& end[0] == start[0]
    &&& forall|i: int, j: int|
        1 <= i < end.len() && 0 <= j < end[i].len() ==> (#[trigger] end[i][j]).value
            == node_output(end[i][j], sweep_reads(start, end, i, j))
    &&& out_end.len() == out_start.len()
    &&& forall|o: int|
        0 <= o < out_end.len() ==> same_node(#[trigger] out_end[o], out_start[o])
            && out_end[o].value == node_output(out_end[o], layer_values(end))
}

/// Every node of the hidden layers past layer 0, and every output node, holds
/// a value in `-UNIT..=UNIT`.
pub open spec fn values_clamped(layers: Seq<Seq<Node>>, outputs: Seq<Node>) -> bool {
    &&& forall|i: int, j: int|
        1 <= i < layers.len() && 0 <= j < layers[i].len() ==> -UNIT <= (
        #[trigger] layers[i][j]).value <= UNIT
    &&& forall|o: int| 0 <= o < outputs.len() ==> -UNIT <= (#[trigger] outputs[o]).value <= UNIT
}

proof fn lemma_weighted_sum_agree(
    refs: Seq<Reference>,
    f: spec_fn(int, int) -> int,
    g: spec_fn(int, int) -> int,
)
    requires
        forall|k: int|
            0 <= k < refs.len() ==> f(refs[k].layer as int, refs[k].index as int) == g(
                refs[k].layer as int,
                refs[k].index as int,
            ),
    ensures
        weighted_sum(refs, f) == weighted_sum(refs, g),
    decreases refs.len(),
{
    if refs.len() > 0 {
        let rest = refs.drop_last();
        assert forall|k: int| 0 <= k < rest.len() implies f(
            rest[k].layer as int,
            rest[k].index as int,
        ) == g(rest[k].layer as int, rest[k].index as int) by {
            assert(rest[k] == refs[k]);
        }
        lemma_weighted_sum_agree(rest, f, g);
        assert(refs.last() == refs[refs.len() - 1]);
    }
}

/// A reference that the generator may place on node `(i, j)`: a weight in
/// `-UNIT..UNIT`, a source layer no later than `i`, and in it a node that
/// existed when the reference was drawn (an earlier one where the source
/// layer is `i`), or index 0 where the source layer was empty then (so the
/// first node of a layer may read itself).
pub open spec fn placed_ref(layers: Seq<Seq<Node>>, r: Reference, i: int, j: int) -> bool {
    &&& -UNIT <= r.weight < UNIT
    &&& r.layer <= i
    &&& if r.layer == i {
        r.index < j || r.index == 0
    } else if layers[r.layer as int].len() == 0 {
        r.index == 0
    } else {
        r.index < layers[r.layer as int].len()
    }
}

/// A generated hidden node `(i, j)`: a bias in `-UNIT..=UNIT` and one to nine
/// placed references.
pub open spec fn generated_node(layers: Seq<Seq<Node>>, n: Node, i: int, j: int) -> bool {
    &&& n.bias is Some
    &&& -UNIT <= n.bias->0 <= UNIT
    &&& n.references is Some
    &&& 1 <= refs_of(n).len() <= 9
    &&& forall|k: int| 0 <= k < refs_of(n).len() ==> placed_ref(layers, #[trigger] refs_of(n)[k], i, j)
}

/// Generated hidden layers: an empty input layer 0 and one to five layers of
/// 3 to 99 generated nodes each.
pub open spec fn generated_layers(layers: Seq<Seq<Node>>) -> bool {
    &&& 2 <= layers.len() <= 6
    &&& layers[0].len() == 0
    &&& forall|i: int| 1 <= i < layers.len() ==> 3 <= (#[trigger] layers[i]).len() <= 99
    &&& forall|i: int, j: int|
        1 <= i < layers.len() && 0 <= j < layers[i].len() ==> generated_node(
            layers,
            #[trigger] layers[i][j],
            i,
            j,
        )
}

/// Whether a reference reads the node `(l, m)`.
pub open spec fn ref_targets(r: Reference, l: int, m: int) -> bool {
    r.layer == l && r.index == m
}

/// Some reference of some node of `layers` reads `(l, m)`.
pub open spec fn referenced(layers: Seq<Seq<Node>>, l: int, m: int) -> bool {
    exists|i: int, j: int, k: int|
        0 <= i < layers.len() && 0 <= j < layers[i].len() && 0 <= k < refs_of(layers[i][j]).len()
            && ref_targets(#[trigger] refs_of(layers[i][j])[k], l, m)
}

/// An orphan: a node of `layers` that no reference of `layers` reads.
pub open spec fn is_orphan(layers: Seq<Seq<Node>>, l: int, m: int) -> bool {
    in_layers(layers, l, m) && !referenced(layers, l, m)
}

/// A reference from an output node: it reads an orphan of `layers`, with a
/// weight in `-UNIT..=UNIT`.
pub open spec fn output_ref(layers: Seq<Seq<Node>>, r: Reference) -> bool {
    is_orphan(layers, r.layer as int, r.index as int) && -UNIT <= r.weight <= UNIT
}

/// A generated output node: a bias in `-OUTPUT_BIAS..=OUTPUT_BIAS`, and
/// references to orphans, present only where there is at least one.
pub open spec fn wired_output(layers: Seq<Seq<Node>>, n: Node) -> bool {
    &&& n.bias is Some
    &&& -OUTPUT_BIAS <= n.bias->0 <= OUTPUT_BIAS
    &&& n.references is Some ==> refs_of(n).len() > 0
    &&& forall|k: int| 0 <= k < refs_of(n).len() ==> output_ref(layers, #[trigger] refs_of(n)[k])
}

/// Every orphan of `layers` is read by some output node.
pub open spec fn orphans_wired(layers: Seq<Seq<Node>>, outputs: Seq<Node>) -> bool {
    forall|l: int, m: int|
        is_orphan(layers, l, m) ==> exists|o: int, k: int|
            0 <= o < outputs.len() && 0 <= k < refs_of(outputs[o]).len() && ref_targets(
                #[trigger] refs_of(outputs[o])[k],
                l,
                m,
            )
}

/// The references `0..kmax` of node `(i, j)` that read a node of `layers`
/// have that node marked.
pub open spec fn node_marked(layers: Seq<Seq<Node>>, marks: Seq<Vec<bool>>, i: int, j: int, kmax: int) -> bool {
    forall|k: int|
        #![trigger refs_of(layers[i][j])[k]]
        0 <= k < kmax && k < refs_of(layers[i][j]).len() && in_layers(
            layers,
            refs_of(layers[i][j])[k].layer as int,
            refs_of(layers[i][j])[k].index as int,
        ) ==> marks[refs_of(layers[i][j])[k].layer as int]@[refs_of(layers[i][j])[k].index as int]
}

/// `marks` has one flag for each node of `layers`, and a set flag only on a
/// referenced node.
pub open spec fn marks_sound(layers: Seq<Seq<Node>>, marks: Seq<Vec<bool>>) -> bool {
    &&& marks.len() == layers.len()
    &&& forall|x: int| 0 <= x < marks.len() ==> (#[trigger] marks[x])@.len() == layers[x].len()
    &&& forall|x: int, y: int|
        in_layers(layers, x, y) && (#[trigger] marks[x]@[y]) ==> referenced(layers, x, y)
}

proof fn lemma_marks_grow(layers: Seq<Seq<Node>>, a: Seq<Vec<bool>>, b: Seq<Vec<bool>>, i: int, j: int, kmax: int)
    requires
        node_marked(layers, a, i, j, kmax),
        a.len() == b.len(),
        forall|x: int| 0 <= x < a.len() ==> (#[trigger] a[x])@.len() == b[x]@.len(),
        forall|x: int, y: int|
            0 <= x < a.len() && 0 <= y < a[x]@.len() && (#[trigger] a[x]@[y]) ==> b[x]@[y],
        layers.len() == a.len(),
        forall|x: int| 0 <= x < a.len() ==> (#[trigger] a[x])@.len() == layers[x].len(),
    ensures
        node_marked(layers, b, i, j, kmax),
{
}

/// `refs[loc.0][loc.1]` exists and reads `(l, m)`.
pub open spec fn located(refs: Seq<Vec<Reference>>, loc: (int, int), l: int, m: int) -> bool {
    0 <= loc.0 < refs.len() && 0 <= loc.1 < refs[loc.0]@.len() && ref_targets(refs[loc.0]@[loc.1], l, m)
}

/// A reference that names a node of `layers`, or the first input node,
/// which exists once any input has been appended.
pub open spec fn ref_ready(layers: Seq<Seq<Node>>, r: Reference) -> bool {
    ref_in_layers(layers, r) || (r.layer == 0 && r.index == 0)
}

/// Every reference of the network is ready: it names a node of `layers`, or
/// the first input node.
pub open spec fn refs_ready(layers: Seq<Seq<Node>>, outputs: Seq<Node>) -> bool {
    &&& forall|i: int, j: int, k: int|
        #![trigger refs_of(layers[i][j])[k]]
        1 <= i < layers.len() && 0 <= j < layers[i].len() && 0 <= k < refs_of(layers[i][j]).len()
            ==> ref_ready(layers, refs_of(layers[i][j])[k])
    &&& forall|o: int, k: int|
        #![trigger refs_of(outputs[o])[k]]
        0 <= o < outputs.len() && 0 <= k < refs_of(outputs[o]).len() ==> ref_ready(
            layers,
            refs_of(outputs[o])[k],
        )
}

/// A freshly generated network with `output_size` outputs.
pub open spec fn generated_network(n: NeuralNetwork, output_size: nat) -> bool {
    &&& generated_layers(grid(n.layers@))
    &&& n.outputs@.len() == output_size
    &&& forall|o: int| 0 <= o < output_size ==> wired_output(grid(n.layers@), #[trigger] n.outputs@[o])
    &&& output_size > 0 ==> orphans_wired(grid(n.layers@), n.outputs@)
}

/// Every reference of a generated network is ready, so the network can be
/// evaluated once it has any input.
pub proof fn lemma_generated_ready(n: NeuralNetwork, output_size: nat)
    requires
        generated_network(n, output_size),
    ensures
        refs_ready(grid(n.layers@), n.outputs@),
{
    let g = grid(n.layers@);
    assert forall|i: int, j: int, k: int|
        1 <= i < g.len() && 0 <= j < g[i].len() && 0 <= k < refs_of(g[i][j]).len() implies ref_ready(
        g,
        #[trigger] refs_of(g[i][j])[k],
    ) by {
        assert(generated_node(g, g[i][j], i, j));
        let r = refs_of(g[i][j])[k];
        assert(placed_ref(g, r, i, j));
        if r.layer != i && r.layer != 0 {
            assert(3 <= g[r.layer as int].len());
        }
    }
    assert forall|o: int, k: int| 0 <= o < n.outputs@.len() && 0 <= k < refs_of(n.outputs@[o]).len() implies ref_ready(
        g,
        #[trigger] refs_of(n.outputs@[o])[k],
    ) by {
        assert(wired_output(g, n.outputs@[o]));
        assert(output_ref(g, refs_of(n.outputs@[o])[k]));
    }
}

proof fn lemma_ready_with_inputs(layers: Seq<Seq<Node>>, input: Seq<i32>, outputs: Seq<Node>)
    requires
        refs_ready(layers, outputs),
        layers.len() >= 1,
        layers[0].len() + input.len() > 0,
    ensures
        refs_in_range(with_inputs(layers, input), outputs),
{
    let w = with_inputs(layers, input);
    assert forall|i: int, j: int, k: int|
        1 <= i < w.len() && 0 <= j < w[i].len() && 0 <= k < refs_of(w[i][j]).len() implies ref_in_layers(
        w,
        #[trigger] refs_of(w[i][j])[k],
    ) by {
        assert(w[i] == layers[i]);
        let r = refs_of(w[i][j])[k];
        assert(ref_ready(layers, r));
        if r.layer != 0 {
            assert(w[r.layer as int] == layers[r.layer as int]);
        }
    }
    assert forall|o: int, k: int| 0 <= o < outputs.len() && 0 <= k < refs_of(outputs[o]).len() implies ref_in_layers(
        w,
        #[trigger] refs_of(outputs[o])[k],
    ) by {
        let r = refs_of(outputs[o])[k];
        assert(ref_ready(layers, r));
        if r.layer != 0 {
            assert(w[r.layer as int] == layers[r.layer as int]);
        }
    }
}

proof fn lemma_ready_kept(start: Seq<Seq<Node>>, end: Seq<Seq<Node>>, out_start: Seq<Node>, out_end: Seq<Node>)
    requires
        refs_in_range(start, out_start),
        swept(start, end, out_start, out_end),
    ensures
        refs_ready(end, out_end),
{
    assert forall|i: int, j: int, k: int|
        1 <= i < end.len() && 0 <= j < end[i].len() && 0 <= k < refs_of(end[i][j]).len() implies ref_ready(
        end,
        #[trigger] refs_of(end[i][j])[k],
    ) by {
        assert(same_node(end[i][j], start[i][j]));
        assert(refs_of(end[i][j]) == refs_of(start[i][j]));
        let r = refs_of(end[i][j])[k];
        assert(ref_in_layers(start, r));
        assert(end[r.layer as int].len() == start[r.layer as int].len());
    }
    assert forall|o: int, k: int| 0 <= o < out_end.len() && 0 <= k < refs_of(out_end[o]).len() implies ref_ready(
        end,
        #[trigger] refs_of(out_end[o])[k],
    ) by {
        assert(same_node(out_end[o], out_start[o]));
        assert(refs_of(out_end[o]) == refs_of(out_start[o]));
        let r = refs_of(out_end[o])[k];
        assert(ref_in_layers(start, r));
        assert(end[r.layer as int].len() == start[r.layer as int].len());
    }
}

/// The name of node `(a, b)` in the graph text: its two indices written
/// one after the other.
pub open spec fn node_name(a: nat, b: nat) -> Seq<u8> {
    digits(a) + digits(b)
}

/// ` [label="`
pub open spec fn label_open() -> Seq<u8> {
    seq![32u8, 91, 108, 97, 98, 101, 108, 61, 34]
}

/// `"]` and a line break.
pub open spec fn label_close() -> Seq<u8> {
    seq![34u8, 93, 10]
}

/// ` -> `
pub open spec fn arrow() -> Seq<u8> {
    seq![32u8, 45, 62, 32]
}

/// `digraph {` and a line break.
pub open spec fn graph_open() -> Seq<u8> {
    seq![100u8, 105, 103, 114, 97, 112, 104, 32, 123, 10]
}

/// A tab, `subgraph subs {`, two tabs and `rank="same"`.
pub open spec fn rank_open() -> Seq<u8> {
    seq![
        9u8, 115, 117, 98, 103, 114, 97, 112, 104, 32, 115, 117, 98, 115, 32, 123,
        9, 9, 114, 97, 110, 107, 61, 34, 115, 97, 109, 101, 34,
    ]
}

/// A tab and `}` closing the subgraph, then `}` and a line break.
pub open spec fn graph_close() -> Seq<u8> {
    seq![9u8, 125, 125, 10]
}

/// The line that declares node `(a, b)` with its value as label.
pub open spec fn node_line(a: nat, b: nat, value: int) -> Seq<u8> {
    seq![9u8] + node_name(a, b) + label_open() + digits(a) + seq![44u8] + digits(b) + int_text(value)
        + label_close()
}

/// One edge line from node `(a, b)` to each node that `refs` reads.
pub open spec fn edge_lines(a: nat, b: nat, refs: Seq<Reference>) -> Seq<u8>
    decreases refs.len(),
{
    if refs.len() == 0 {
        Seq::empty()
    } else {
        edge_lines(a, b, refs.drop_last()) + seq![9u8] + node_name(a, b) + arrow() + node_name(
            refs.last().layer as nat,
            refs.last().index as nat,
        ) + seq![10u8]
    }
}

/// The text of node `(a, b)`: its line, then its edges.
pub open spec fn node_text(a: nat, b: nat, n: Node) -> Seq<u8> {
    node_line(a, b, n.value as int) + edge_lines(a, b, refs_of(n))
}

/// The text of the nodes of layer `a`, in order.
pub open spec fn layer_text(a: nat, nodes: Seq<Node>) -> Seq<u8>
    decreases nodes.len(),
{
    if nodes.len() == 0 {
        Seq::empty()
    } else {
        layer_text(a, nodes.drop_last()) + node_text(a, (nodes.len() - 1) as nat, nodes.last())
    }
}

/// The text of all the layers, in order.
pub open spec fn layers_text(layers: Seq<Seq<Node>>) -> Seq<u8>
    decreases layers.len(),
{
    if layers.len() == 0 {
        Seq::empty()
    } else {
        layers_text(layers.drop_last()) + layer_text((layers.len() - 1) as nat, layers.last())
    }
}

/// The names of the first `count` nodes of layer `a`, each after two tabs.
pub open spec fn rank_text(a: nat, count: nat) -> Seq<u8>
    decreases count,
{
    if count == 0 {
        Seq::empty()
    } else {
        rank_text(a, (count - 1) as nat) + seq![9u8, 9] + node_name(a, (count - 1) as nat)
    }
}

/// The graphviz text of a network: the hidden layers, then the outputs as
/// the layer after them, ranked together.
pub open spec fn dot_text(layers: Seq<Seq<Node>>, outputs: Seq<Node>) -> Seq<u8> {
    graph_open() + layers_text(layers) + layer_text(layers.len(), outputs) + rank_open() + rank_text(
        layers.len(),
        outputs.len(),
    ) + graph_close()
}

/// Two updates in a row keep the network's shape: the same hidden layers,
/// each with the same nodes (references and bias), and the same output
/// nodes; only layer 0 grows, by the inputs of both updates.
pub proof fn lemma_updates_keep_shape(
    layers0: Seq<Seq<Node>>,
    outputs0: Seq<Node>,
    input1: Seq<i32>,
    layers1: Seq<Seq<Node>>,
    outputs1: Seq<Node>,
    input2: Seq<i32>,
    layers2: Seq<Seq<Node>>,
    outputs2: Seq<Node>,
)
    requires
        layers0.len() >= 1,
        swept(with_inputs(layers0, input1), layers1, outputs0, outputs1),
        swept(with_inputs(layers1, input2), layers2, outputs1, outputs2),
    ensures
        layers2.len() == layers0.len(),
        layers2[0].len() == layers0[0].len() + input1.len() + input2.len(),
        forall|i: int| 1 <= i < layers0.len() ==> (#[trigger] layers2[i]).len() == layers0[i].len(),
        forall|i: int, j: int|
            1 <= i < layers0.len() && 0 <= j < layers0[i].len() ==> same_node(
                #[trigger] layers2[i][j],
                layers0[i][j],
            ),
        outputs2.len() == outputs0.len(),
        forall|o: int| 0 <= o < outputs0.len() ==> same_node(#[trigger] outputs2[o], outputs0[o]),
{
    let w1 = with_inputs(layers0, input1);
    let w2 = with_inputs(layers1, input2);
    assert forall|i: int| 1 <= i < layers0.len() implies (#[trigger] layers2[i]).len() == layers0[i].len() by {
        assert(w1[i] == layers0[i]);
        assert(w2[i] == layers1[i]);
        assert(layers2[i].len() == w2[i].len());
        assert(layers1[i].len() == w1[i].len());
    }
    assert forall|i: int, j: int|
        1 <= i < layers0.len() && 0 <= j < layers0[i].len() implies same_node(
            #[trigger] layers2[i][j],
            layers0[i][j],
        ) by {
        assert(w1[i] == layers0[i]);
        assert(w2[i] == layers1[i]);
        assert(layers1[i].len() == w1[i].len());
        assert(same_node(layers2[i][j], w2[i][j]));
        assert(same_node(layers1[i][j], w1[i][j]));
    }
    assert forall|o: int| 0 <= o < outputs0.len() implies same_node(#[trigger] outputs2[o], outputs0[o]) by {
        assert(same_node(outputs2[o], outputs1[o]));
        assert(same_node(outputs1[o], outputs0[o]));
    }
    assert(layers1[0] == w1[0]);
    assert(layers2[0] == w2[0]);
}

proof fn lemma_sweep_unique_before(
    start: Seq<Seq<Node>>,
    end1: Seq<Seq<Node>>,
    end2: Seq<Seq<Node>>,
    out_start: Seq<Node>,
    out1: Seq<Node>,
    out2: Seq<Node>,
    i: int,
    j: int,
)
    requires
        swept(start, end1, out_start, out1),
        swept(start, end2, out_start, out2),
        1 <= i <= start.len(),
        i < start.len() ==> 0 <= j <= start[i].len(),
        i == start.len() ==> j == 0,
    ensures
        forall|l: int, m: int|
            1 <= l && in_layers(start, l, m) && swept_before(l, m, i, j) ==> (#[trigger] end1[l][m]).value
                == end2[l][m].value,
    decreases i, j,
{
    if j > 0 {
        lemma_sweep_unique_before(start, end1, end2, out_start, out1, out2, i, j - 1);
        let jj = j - 1;
        assert(sweep_reads(start, end1, i, jj) =~= sweep_reads(start, end2, i, jj)) by {
            assert forall|a: int, b: int|
                #[trigger] sweep_reads(start, end1, i, jj)(a, b) == sweep_reads(start, end2, i, jj)(a, b) by {
                if in_layers(end1, a, b) && swept_before(a, b, i, jj) && a >= 1 {
                    assert(end1[a].len() == start[a].len());
                }
                if in_layers(end1, a, b) && a == 0 {
                    assert(end1[0] == start[0]);
                    assert(end2[0] == start[0]);
                }
            }
        }
        assert(same_node(end1[i][jj], start[i][jj]));
        assert(same_node(end2[i][jj], start[i][jj]));
        assert(refs_of(end1[i][jj]) == refs_of(end2[i][jj]));
        assert(bias_of(end1[i][jj]) == bias_of(end2[i][jj]));
    } else if i > 1 {
        lemma_sweep_unique_before(start, end1, end2, out_start, out1, out2, i - 1, start[i - 1].len() as int);
    }
}

/// A sweep's result is fixed by what it starts from: two sweeps of the same
/// layers and outputs end in the same layers and outputs.
pub proof fn lemma_sweep_deterministic(
    start: Seq<Seq<Node>>,
    out_start: Seq<Node>,
    end1: Seq<Seq<Node>>,
    out1: Seq<Node>,
    end2: Seq<Seq<Node>>,
    out2: Seq<Node>,
)
    requires
        start.len() >= 1,
        swept(start, end1, out_start, out1),
        swept(start, end2, out_start, out2),
    ensures
        end1 == end2,
        out1 == out2,
{
    lemma_sweep_unique_before(start, end1, end2, out_start, out1, out2, start.len() as int, 0);
    assert forall|l: int| 0 <= l < end1.len() implies #[trigger] end1[l] == end2[l] by {
        if l == 0 {
            assert(end1[0] == start[0]);
        } else {
            assert(end1[l].len() == start[l].len());
            assert(end2[l].len() == start[l].len());
            assert forall|m: int| 0 <= m < end1[l].len() implies #[trigger] end1[l][m] == end2[l][m] by {
                assert(swept_before(l, m, start.len() as int, 0));
                assert(same_node(end1[l][m], start[l][m]));
                assert(same_node(end2[l][m], start[l][m]));
            }
            assert(end1[l] =~= end2[l]);
        }
    }
    assert(end1 =~= end2);
    assert forall|o: int| 0 <= o < out1.len() implies #[trigger] out1[o] == out2[o] by {
        assert(same_node(out1[o], out_start[o]));
        assert(same_node(out2[o], out_start[o]));
        assert(refs_of(out1[o]) == refs_of(out2[o]));
        assert(bias_of(out1[o]) == bias_of(out2[o]));
    }
    assert(out1 =~= out2);
}

proof fn lemma_activation_bounds(acc: int)
    ensures
        -UNIT <= activation(acc) <= UNIT,
{
    if -(UNIT * UNIT) < acc < UNIT * UNIT {
        lemma_hoist_over_denominator(acc, UNIT as int, UNIT as nat);
        assert(0 <= (acc + UNIT * UNIT) / (UNIT as int) <= 2 * UNIT) by (nonlinear_arith)
            requires
                0 < acc + UNIT * UNIT < 2 * UNIT * UNIT,
                UNIT == 1_000_000,
        ;
    }
}

/// The fixed-point activation of an accumulated sum.
fn activate(acc: i128) -> (r: i32)
    ensures
        r == activation(acc as int),
        -UNIT <= r <= UNIT,
{
    proof {
        lemma_activation_bounds(acc as int);
    }
    let sq: i128 = (UNIT as i128) * (UNIT as i128);
    if acc <= -sq {
        -UNIT
    } else if acc >= sq {
        UNIT
    } else {
        let shifted: u64 = (acc + sq) as u64;
        let q: u64 = shifted / (UNIT as u64);
        proof {
            lemma_hoist_over_denominator(acc as int, UNIT as int, UNIT as nat);
            assert(q as int <= 2 * UNIT) by (nonlinear_arith)
                requires
                    q == shifted / 1_000_000u64,
                    shifted < 2 * 1_000_000 * 1_000_000,
            ;
        }
        (q as i64 - UNIT as i64) as i32
    }
}

/// Appends the name of node `(a, b)`.
fn push_name(out: &mut Vec<u8>, a: usize, b: usize)
    ensures
        final(out)@ == old(out)@ + node_name(a as nat, b as nat),
{
    push_digits(out, a as u64);
    push_digits(out, b as u64);
    assert(final(out)@ =~= old(out)@ + node_name(a as nat, b as nat));
}

/// Appends the text of node `(a, b)`: its line, then its edges.
fn push_node(out: &mut Vec<u8>, a: usize, b: usize, n: &Node)
    ensures
        final(out)@ == old(out)@ + node_text(a as nat, b as nat, *n),
{
    out.push(9);
    push_name(out, a, b);
    let open: [u8; 9] = [32, 91, 108, 97, 98, 101, 108, 61, 34];
    assert(open@ =~= label_open());
    push_bytes(out, &open);
    push_digits(out, a as u64);
    out.push(44);
    push_digits(out, b as u64);
    push_int(out, n.value as i64);
    let close: [u8; 3] = [34, 93, 10];
    assert(close@ =~= label_close());
    push_bytes(out, &close);
    let ghost line = out@;
    assert(line =~= old(out)@ + node_line(a as nat, b as nat, n.value as int));
    if let Some(refs) = &n.references {
        let mut k: usize = 0;
        while k < refs.len()
            invariant
                k <= refs@.len(),
                out@ == line + edge_lines(a as nat, b as nat, refs@.take(k as int)),
            decreases refs@.len() - k,
        {
            out.push(9);
            push_name(out, a, b);
            let arr: [u8; 4] = [32, 45, 62, 32];
            assert(arr@ =~= arrow());
            push_bytes(out, &arr);
            push_name(out, refs[k].layer, refs[k].index);
            out.push(10);
            proof {
                let t = refs@.take(k + 1);
                assert(t.drop_last() =~= refs@.take(k as int));
                assert(t.last() == refs@[k as int]);
                assert(out@ =~= line + edge_lines(a as nat, b as nat, t));
            }
            k = k + 1;
        }
        assert(refs@.take(refs@.len() as int) =~= refs@);
    } else {
        assert(line + edge_lines(a as nat, b as nat, refs_of(*n)) =~= line);
    }
}

/// Appends the text of the nodes of layer `a`.
fn push_layer(out: &mut Vec<u8>, a: usize, nodes: &Vec<Node>)
    ensures
        final(out)@ == old(out)@ + layer_text(a as nat, nodes@),
{
    let mut b: usize = 0;
    while b < nodes.len()
        invariant
            b <= nodes@.len(),
            out@ == old(out)@ + layer_text(a as nat, nodes@.take(b as int)),
        decreases nodes@.len() - b,
    {
        push_node(out, a, b, &nodes[b]);
        proof {
            let t = nodes@.take(b + 1);
            assert(t.drop_last() =~= nodes@.take(b as int));
            assert(t.last() == nodes@[b as int]);
            assert(out@ =~= old(out)@ + layer_text(a as nat, t));
        }
        b = b + 1;
    }
    assert(nodes@.take(nodes@.len() as int) =~= nodes@);
}

impl NeuralNetwork {
    /// The value of `node` given the values now held by the layers.
    fn compute_v(&self, node: &Node) -> (r: i32)
        requires
            forall|k: int|
                0 <= k < refs_of(*node).len() ==> in_layers(
                    grid(self.layers@),
                    refs_of(*node)[k].layer as int,
                    refs_of(*node)[k].index as int,
                ),
        ensures
            r == node_output(*node, layer_values(grid(self.layers@))),
            -UNIT <= r <= UNIT,
    {
        let ghost vals = layer_values(grid(self.layers@));
        let mut acc: i128 = 0;
        match &node.references {
            Some(refs) => {
                let mut k: usize = 0;
                while k < refs.len()
                    invariant
                        k <= refs.len(),
                        refs_of(*node) == refs@,
                        vals == layer_values(grid(self.layers@)),
                        forall|k2: int|
                            0 <= k2 < refs_of(*node).len() ==> in_layers(
                                grid(self.layers@),
                                refs_of(*node)[k2].layer as int,
                                refs_of(*node)[k2].index as int,
                            ),
                        acc == weighted_sum(refs@.take(k as int), vals),
                        -(k as int) * 0x4000_0000_0000_0000 <= acc <= (k as int)
                            * 0x4000_0000_0000_0000,
                    decreases refs.len() - k,
                {
                    let r = &refs[k];
                    let v = self.layers[r.layer][r.index].value;
                    proof {
                        assert(refs@.take(k + 1).drop_last() =~= refs@.take(k as int));
                        assert(-0x4000_0000_0000_0000 <= (v as int) * (r.weight as int)
                            <= 0x4000_0000_0000_0000) by (nonlinear_arith)
                            requires
                                -0x8000_0000 <= v < 0x8000_0000,
                                -0x8000_0000 <= r.weight < 0x8000_0000,
                        ;
                    }
                    let p: i64 = (v as i64) * (r.weight as i64);
                    acc = acc + p as i128;
                    k = k + 1;
                }
                assert(refs@.take(refs@.len() as int) =~= refs@);
            },
            None => {},
        }
        let b: i128 = match node.bias {
            Some(b) => b as i128,
            None => 0,
        };
        acc = acc + b * (UNIT as i128);
        activate(acc)
    }

    /// One forward sweep: hidden layers from layer 1 up, each in index order
    /// and each node written before the next is computed, then the outputs.
    fn propagate(&mut self)
        requires
            old(self).layers.len() >= 1,
            old(self).layers[0].len() > 0,
            refs_in_range(grid(old(self).layers@), old(self).outputs@),
        ensures
            final(self).num == old(self).num,
            swept(grid(old(self).layers@), grid(final(self).layers@), old(self).outputs@, final(self).outputs@),
            values_clamped(grid(final(self).layers@), final(self).outputs@),
    {
        let ghost start = grid(self.layers@);
        let mut i: usize = 1;
        while i < self.layers.len()
            invariant
                1 <= i <= self.layers.len(),
                self.num == old(self).num,
                self.outputs == old(self).outputs,
                start == grid(old(self).layers@),
                refs_in_range(start, self.outputs@),
                same_shape(grid(self.layers@), start),
                grid(self.layers@)[0] == start[0],
                forall|l: int, m: int|
                    in_layers(start, l, m) && !swept_before(l, m, i as int, 0) ==> (
                    #[trigger] grid(self.layers@)[l][m]).value == start[l][m].value,
                forall|l: int, m: int|
                    1 <= l && in_layers(start, l, m) && swept_before(l, m, i as int, 0) ==> (
                    #[trigger] grid(self.layers@)[l][m]).value == node_output(
                        grid(self.layers@)[l][m],
                        sweep_reads(start, grid(self.layers@), l, m),
                    ) && -UNIT <= grid(self.layers@)[l][m].value <= UNIT,
            decreases self.layers.len() - i,
        {
            let mut j: usize = 0;
            while j < self.layers[i].len()
                invariant
                    1 <= i < self.layers.len(),
                    j <= self.layers[i as int].len(),
                    self.num == old(self).num,
                    self.outputs == old(self).outputs,
                    start == grid(old(self).layers@),
                    refs_in_range(start, self.outputs@),
                    same_shape(grid(self.layers@), start),
                    grid(self.layers@)[0] == start[0],
                    forall|l: int, m: int|
                        in_layers(start, l, m) && !swept_before(l, m, i as int, j as int) ==> (
                        #[trigger] grid(self.layers@)[l][m]).value == start[l][m].value,
                    forall|l: int, m: int|
                        1 <= l && in_layers(start, l, m) && swept_before(l, m, i as int, j as int)
                            ==> (#[trigger] grid(self.layers@)[l][m]).value == node_output(
                            grid(self.layers@)[l][m],
                            sweep_reads(start, grid(self.layers@), l, m),
                        ) && -UNIT <= grid(self.layers@)[l][m].value <= UNIT,
                decreases self.layers[i as int].len() - j,
            {
                let ghost cur = grid(self.layers@);
                proof {
                    assert(same_node(cur[i as int][j as int], start[i as int][j as int]));
                    assert forall|k: int|
                        0 <= k < refs_of(cur[i as int][j as int]).len() implies in_layers(
                            cur,
                            refs_of(cur[i as int][j as int])[k].layer as int,
                            refs_of(cur[i as int][j as int])[k].index as int,
                        ) by {
                        assert(refs_of(start[i as int][j as int])[k] == refs_of(
                            cur[i as int][j as int],
                        )[k]);
                    }
                }
                let v = self.compute_v(&self.layers[i][j]);
                self.layers[i][j].value = v;
                proof {
                    let nxt = grid(self.layers@);
                    let n = cur[i as int][j as int];
                    assert(nxt == cur.update(i as int, cur[i as int].update(j as int, nxt[i as int][j as int])));
                    let refs = refs_of(n);
                    assert forall|k: int| 0 <= k < refs.len() implies layer_values(cur)(
                        refs[k].layer as int,
                        refs[k].index as int,
                    ) == sweep_reads(start, nxt, i as int, j as int)(
                        refs[k].layer as int,
                        refs[k].index as int,
                    ) by {
                        assert(refs_of(start[i as int][j as int])[k] == refs[k]);
                        let l = refs[k].layer as int;
                        let m = refs[k].index as int;
                        assert(in_layers(start, l, m));
                        if !swept_before(l, m, i as int, j as int) {
                            assert(cur[l][m].value == start[l][m].value);
                        }
                    }
                    lemma_weighted_sum_agree(
                        refs,
                        layer_values(cur),
                        sweep_reads(start, nxt, i as int, j as int),
                    );
                    assert forall|l: int, m: int|
                        1 <= l && in_layers(start, l, m) && swept_before(
                            l,
                            m,
                            i as int,
                            j as int,
                        ) implies sweep_reads(start, nxt, l, m) =~= sweep_reads(
                            start,
                            cur,
                            l,
                            m,
                        ) by {
                        assert forall|a: int, b: int|
                            #[trigger] sweep_reads(start, nxt, l, m)(a, b) == sweep_reads(
                                start,
                                cur,
                                l,
                                m,
                            )(a, b) by {
                            if in_layers(nxt, a, b) && swept_before(a, b, l, m) {
                                assert(!(a == i && b == j));
                            }
                        }
                    }
                    assert forall|l: int, m: int|
                        1 <= l && in_layers(start, l, m) && swept_before(
                            l,
                            m,
                            i as int,
                            j as int + 1,
                        ) implies (#[trigger] nxt[l][m]).value == node_output(
                        nxt[l][m],
                        sweep_reads(start, nxt, l, m),
                    ) && -UNIT <= nxt[l][m].value <= UNIT by {
                        if l == i && m == j {
                        } else {
                            assert(nxt[l][m] == cur[l][m]);
                            assert(sweep_reads(start, nxt, l, m) =~= sweep_reads(start, cur, l, m));
                        }
                    }
                    assert forall|l: int, m: int|
                        in_layers(start, l, m) && !swept_before(l, m, i as int, j as int + 1)
                            implies (#[trigger] nxt[l][m]).value == start[l][m].value by {
                        assert(nxt[l][m] == cur[l][m]);
                    }
                    assert(same_shape(nxt, start)) by {
                        assert forall|l: int, m: int|
                            0 <= l < nxt.len() && 0 <= m < nxt[l].len() implies same_node(
                                #[trigger] nxt[l][m],
                                start[l][m],
                            ) by {
                            if !(l == i && m == j) {
                                assert(nxt[l][m] == cur[l][m]);
                            }
                        }
                    }
                }
                j = j + 1;
            }
            i = i + 1;
        }
        let ghost hidden = grid(self.layers@);
        let mut o: usize = 0;
        while o < self.outputs.len()
            invariant
                o <= self.outputs.len(),
                self.num == old(self).num,
                grid(self.layers@) == hidden,
                refs_in_range(start, old(self).outputs@),
                same_shape(hidden, start),
                self.outputs.len() == old(self).outputs.len(),
                forall|p: int|
                    0 <= p < self.outputs.len() ==> same_node(
                        #[trigger] self.outputs@[p],
                        old(self).outputs@[p],
                    ),
                forall|p: int|
                    o <= p < self.outputs.len() ==> (#[trigger] self.outputs@[p]) == old(
                        self,
                    ).outputs@[p],
                forall|p: int|
                    0 <= p < o ==> (#[trigger] self.outputs@[p]).value == node_output(
                        self.outputs@[p],
                        layer_values(hidden),
                    ) && -UNIT <= self.outputs@[p].value <= UNIT,
            decreases self.outputs.len() - o,
        {
            proof {
                let n = self.outputs@[o as int];
                assert forall|k: int| 0 <= k < refs_of(n).len() implies in_layers(
                    hidden,
                    refs_of(n)[k].layer as int,
                    refs_of(n)[k].index as int,
                ) by {
                    assert(refs_of(old(self).outputs@[o as int])[k] == refs_of(n)[k]);
                }
            }
            let v = self.compute_v(&self.outputs[o]);
            self.outputs[o].value = v;
            o = o + 1;
        }
    }

    /// Appends `input` to layer 0 as input nodes, runs one sweep, and returns
    /// the values of the output nodes.
    pub fn update(&mut self, input: &[i32]) -> (r: Vec<i32>)
        requires
            old(self).layers.len() >= 1,
            old(self).layers[0].len() + input@.len() > 0,
            refs_ready(grid(old(self).layers@), old(self).outputs@),
        ensures
            final(self).num == old(self).num,
            refs_ready(grid(final(self).layers@), final(self).outputs@),
            swept(
                with_inputs(grid(old(self).layers@), input@),
                grid(final(self).layers@),
                old(self).outputs@,
                final(self).outputs@,
            ),
            values_clamped(grid(final(self).layers@), final(self).outputs@),
            r@.len() == final(self).outputs@.len(),
            forall|o: int| 0 <= o < r@.len() ==> #[trigger] r@[o] == final(self).outputs@[o].value,
    {
        let ghost base = grid(self.layers@);
        proof {
            lemma_ready_with_inputs(base, input@, self.outputs@);
        }
        let mut k: usize = 0;
        while k < input.len()
            invariant
                k <= input@.len(),
                self.num == old(self).num,
                self.outputs == old(self).outputs,
                base == grid(old(self).layers@),
                base.len() >= 1,
                self.layers@.len() == base.len(),
                grid(self.layers@) == base.update(
                    0,
                    base[0] + input@.take(k as int).map_values(|x: i32| Node::from_value_spec(x)),
                ),
            decreases input@.len() - k,
        {
            let n = Node::from(input[k]);
            let ghost before = self.layers@;
            assert(grid(before)[0] == before[0]@);
            self.layers[0].push(n);
            proof {
                assert(grid(self.layers@)[0] == self.layers@[0]@);
                assert(self.layers@[0]@ == before[0]@.push(n));
                assert forall|l: int| 1 <= l < base.len() implies grid(self.layers@)[l] == base[l] by {
                    assert(self.layers@[l] == before[l]);
                    assert(grid(before)[l] == before[l]@);
                    assert(grid(self.layers@)[l] == self.layers@[l]@);
                }
                assert(input@.take(k + 1).map_values(|x: i32| Node::from_value_spec(x))
                    =~= input@.take(k as int).map_values(|x: i32| Node::from_value_spec(x)).push(n));
                assert(grid(self.layers@) =~= base.update(
                    0,
                    base[0] + input@.take(k + 1).map_values(|x: i32| Node::from_value_spec(x)),
                ));
            }
            k = k + 1;
        }
        assert(input@.take(input@.len() as int) =~= input@);
        assert(grid(self.layers@)[0] == self.layers@[0]@);
        self.propagate();
        proof {
            lemma_ready_kept(with_inputs(base, input@), grid(self.layers@), old(self).outputs@, self.outputs@);
        }
        let mut r: Vec<i32> = Vec::new();
        let mut o: usize = 0;
        while o < self.outputs.len()
            invariant
                o <= self.outputs.len(),
                r@.len() == o,
                forall|p: int| 0 <= p < o ==> #[trigger] r@[p] == self.outputs@[p].value,
            decreases self.outputs.len() - o,
        {
            r.push(self.outputs[o].value);
            o = o + 1;
        }
        r
    }

    /// Draws the hidden layers after the empty input layer 0.
    fn generate_hidden(&mut self, rng: &mut StdRng)
        requires
            old(self).layers@.len() == 1,
            old(self).layers@[0]@.len() == 0,
        ensures
            final(self).num == old(self).num,
            final(self).outputs == old(self).outputs,
            generated_layers(grid(final(self).layers@)),
    {
        let num_layers = pick(rng, 1, 5);
        while self.layers.len() <= num_layers
            invariant
                1 <= self.layers@.len() <= num_layers + 1,
                1 <= num_layers <= 5,
                self.num == old(self).num,
                self.outputs == old(self).outputs,
                self.layers@[0]@.len() == 0,
                forall|i: int|
                    1 <= i < self.layers@.len() ==> 3 <= (#[trigger] self.layers@[i])@.len() <= 99,
                forall|i: int, j: int|
                    1 <= i < self.layers@.len() && 0 <= j < self.layers@[i]@.len()
                        ==> generated_node(grid(self.layers@), #[trigger] self.layers@[i]@[j], i, j),
            decreases num_layers + 1 - self.layers@.len(),
        {
            let cur_idx = self.layers.len();
            let num_nodes = pick(rng, 3, 99);
            let mut cur: Vec<Node> = Vec::new();
            while cur.len() < num_nodes
                invariant
                    cur_idx == self.layers@.len(),
                    1 <= cur_idx <= num_layers,
                    3 <= num_nodes <= 99,
                    cur@.len() <= num_nodes,
                    self.layers@[0]@.len() == 0,
                    forall|i: int| 1 <= i < cur_idx ==> 3 <= (#[trigger] self.layers@[i])@.len(),
                    forall|j: int|
                        0 <= j < cur@.len() ==> generated_node(
                            grid(self.layers@).push(cur@),
                            #[trigger] cur@[j],
                            cur_idx as int,
                            j,
                        ),
                decreases num_nodes - cur@.len(),
            {
                let num_refs = pick(rng, 1, 9);
                let bias = pick(rng, 0, 2_000_000) as i32 - UNIT;
                let mut refs: Vec<Reference> = Vec::new();
                let ghost all = grid(self.layers@).push(cur@);
                while refs.len() < num_refs
                    invariant
                        cur_idx == self.layers@.len(),
                        1 <= cur_idx,
                        1 <= num_refs <= 9,
                        refs@.len() <= num_refs,
                        all == grid(self.layers@).push(cur@),
                        forall|i: int| 1 <= i < cur_idx ==> 3 <= (#[trigger] self.layers@[i])@.len(),
                        forall|k: int|
                            0 <= k < refs@.len() ==> placed_ref(
                                all,
                                #[trigger] refs@[k],
                                cur_idx as int,
                                cur@.len() as int,
                            ),
                    decreases num_refs - refs@.len(),
                {
                    let layer_idx = if cur.len() == 0 || pick(rng, 0, 99) > 90 {
                        pick(rng, 0, cur_idx)
                    } else {
                        pick(rng, 0, cur_idx - 1)
                    };
                    let len = if layer_idx == cur_idx {
                        cur.len()
                    } else {
                        self.layers[layer_idx].len()
                    };
                    let node_idx = if len == 0 {
                        0
                    } else {
                        pick(rng, 0, len - 1)
                    };
                    let weight = pick(rng, 0, 1_999_999) as i32 - UNIT;
                    let r = Reference { layer: layer_idx, index: node_idx, weight };
                    proof {
                        if layer_idx < cur_idx {
                            assert(all[layer_idx as int] == self.layers@[layer_idx as int]@);
                        }
                    }
                    refs.push(r);
                }
                let node = Node { references: Some(refs), bias: Some(bias), value: 0 };
                proof {
                    assert(refs_of(node) == refs@);
                }
                cur.push(node);
                proof {
                    let nxt = grid(self.layers@).push(cur@);
                    assert forall|j: int|
                        0 <= j < cur@.len() implies generated_node(
                            nxt,
                            #[trigger] cur@[j],
                            cur_idx as int,
                            j,
                        ) by {
                        let n = cur@[j];
                        assert forall|k: int|
                            0 <= k < refs_of(n).len() implies placed_ref(
                                nxt,
                                #[trigger] refs_of(n)[k],
                                cur_idx as int,
                                j,
                            ) by {
                            let r = refs_of(n)[k];
                            if r.layer < cur_idx {
                                assert(nxt[r.layer as int] == all[r.layer as int]);
                            }
                        }
                    }
                }
            }
            let ghost old_layers = self.layers@;
            self.layers.push(cur);
            proof {
                let g = grid(self.layers@);
                assert(g =~= grid(old_layers).push(cur@));
                assert forall|i: int, j: int|
                    1 <= i < self.layers@.len() && 0 <= j < self.layers@[i]@.len()
                        implies generated_node(g, #[trigger] self.layers@[i]@[j], i, j) by {
                    if i < cur_idx {
                        let n = self.layers@[i]@[j];
                        assert(n == old_layers[i]@[j]);
                        assert(generated_node(grid(old_layers), n, i, j));
                        assert forall|k: int|
                            0 <= k < refs_of(n).len() implies placed_ref(
                                g,
                                #[trigger] refs_of(n)[k],
                                i,
                                j,
                            ) by {
                            let r = refs_of(n)[k];
                            assert(placed_ref(grid(old_layers), r, i, j));
                            assert(g[r.layer as int] == grid(old_layers)[r.layer as int]);
                        }
                    } else {
                        assert(self.layers@[i]@[j] == cur@[j]);
                    }
                }
            }
        }
        proof {
            let g = grid(self.layers@);
            assert forall|i: int, j: int|
                1 <= i < g.len() && 0 <= j < g[i].len() implies generated_node(
                    g,
                    #[trigger] g[i][j],
                    i,
                    j,
                ) by {
                assert(g[i][j] == self.layers@[i]@[j]);
            }
            assert forall|i: int| 1 <= i < g.len() implies 3 <= (#[trigger] g[i]).len() <= 99 by {
                assert(g[i] == self.layers@[i]@);
            }
        }
    }

    /// The orphans of the layers, in increasing `(layer, index)` order.
    fn find_orphans(&self) -> (r: Vec<(usize, usize)>)
        ensures
            forall|q: int| 0 <= q < r@.len() ==> is_orphan(grid(self.layers@), (#[trigger] r@[q]).0 as int, r@[q].1 as int),
            forall|l: int, m: int|
                is_orphan(grid(self.layers@), l, m) ==> exists|q: int|
                    0 <= q < r@.len() && (#[trigger] r@[q]).0 == l && r@[q].1 == m,
    {
        let ghost g = grid(self.layers@);
        let mut marks: Vec<Vec<bool>> = Vec::new();
        let mut i: usize = 0;
        while i < self.layers.len()
            invariant
                g == grid(self.layers@),
                i <= g.len(),
                marks@.len() == i,
                forall|x: int| 0 <= x < i ==> (#[trigger] marks@[x])@.len() == g[x].len(),
                forall|x: int, y: int| 0 <= x < i && 0 <= y < g[x].len() ==> !(#[trigger] marks@[x]@[y]),
            decreases g.len() - i,
        {
            let mut row: Vec<bool> = Vec::new();
            while row.len() < self.layers[i].len()
                invariant
                    g == grid(self.layers@),
                    i < g.len(),
                    row@.len() <= g[i as int].len(),
                    forall|y: int| 0 <= y < row@.len() ==> !(#[trigger] row@[y]),
                decreases g[i as int].len() - row@.len(),
            {
                row.push(false);
            }
            marks.push(row);
            i = i + 1;
        }
        i = 0;
        while i < self.layers.len()
            invariant
                g == grid(self.layers@),
                i <= g.len(),
                marks_sound(g, marks@),
                forall|i2: int, j2: int|
                    0 <= i2 < i && 0 <= j2 < g[i2].len() ==> node_marked(g, marks@, i2, j2, refs_of(#[trigger] g[i2][j2]).len() as int),
            decreases g.len() - i,
        {
            let mut j: usize = 0;
            while j < self.layers[i].len()
                invariant
                    g == grid(self.layers@),
                    i < g.len(),
                    j <= g[i as int].len(),
                    marks_sound(g, marks@),
                    forall|i2: int, j2: int|
                        (0 <= i2 < i && 0 <= j2 < g[i2].len()) || (i2 == i && 0 <= j2 < j) ==> node_marked(g, marks@, i2, j2, refs_of(#[trigger] g[i2][j2]).len() as int),
                decreases g[i as int].len() - j,
            {
                if let Some(refs) = &self.layers[i][j].references {
                    let mut k: usize = 0;
                    while k < refs.len()
                        invariant
                            g == grid(self.layers@),
                            i < g.len(),
                            j < g[i as int].len(),
                            refs@ == refs_of(g[i as int][j as int]),
                            k <= refs@.len(),
                            marks_sound(g, marks@),
                            forall|i2: int, j2: int|
                                (0 <= i2 < i && 0 <= j2 < g[i2].len()) || (i2 == i && 0 <= j2 < j) ==> node_marked(g, marks@, i2, j2, refs_of(#[trigger] g[i2][j2]).len() as int),
                            node_marked(g, marks@, i as int, j as int, k as int),
                        decreases refs@.len() - k,
                    {
                        let l = refs[k].layer;
                        let m = refs[k].index;
                        if l < marks.len() && m < marks[l].len() {
                            let ghost before = marks@;
                            marks[l][m] = true;
                            proof {
                                assert(ref_targets(refs_of(g[i as int][j as int])[k as int], l as int, m as int));
                                assert(referenced(g, l as int, m as int));
                                assert forall|x: int, y: int|
                                    0 <= x < before.len() && 0 <= y < before[x]@.len() && (#[trigger] before[x]@[y]) implies marks@[x]@[y] by {
                                    if x != l {
                                        assert(marks@[x] == before[x]);
                                    }
                                }
                                assert forall|x: int, y: int|
                                    in_layers(g, x, y) && (#[trigger] marks@[x]@[y]) implies referenced(g, x, y) by {
                                    if x != l {
                                        assert(marks@[x] == before[x]);
                                    } else if y != m {
                                        assert(marks@[x]@[y] == before[x]@[y]);
                                    }
                                }
                                assert forall|x: int| 0 <= x < marks@.len() implies (#[trigger] marks@[x])@.len() == g[x].len() by {
                                    if x != l {
                                        assert(marks@[x] == before[x]);
                                    }
                                }
                                assert forall|i2: int, j2: int|
                                    (0 <= i2 < i && 0 <= j2 < g[i2].len()) || (i2 == i && 0 <= j2 < j) implies node_marked(g, marks@, i2, j2, refs_of(#[trigger] g[i2][j2]).len() as int) by {
                                    lemma_marks_grow(g, before, marks@, i2, j2, refs_of(g[i2][j2]).len() as int);
                                }
                                lemma_marks_grow(g, before, marks@, i as int, j as int, k as int);
                            }
                        }
                        k = k + 1;
                    }
                }
                j = j + 1;
            }
            i = i + 1;
        }
        let mut r: Vec<(usize, usize)> = Vec::new();
        i = 0;
        while i < self.layers.len()
            invariant
                g == grid(self.layers@),
                i <= g.len(),
                marks_sound(g, marks@),
                forall|i2: int, j2: int|
                    0 <= i2 < g.len() && 0 <= j2 < g[i2].len() ==> node_marked(g, marks@, i2, j2, refs_of(#[trigger] g[i2][j2]).len() as int),
                forall|q: int| 0 <= q < r@.len() ==> is_orphan(g, (#[trigger] r@[q]).0 as int, r@[q].1 as int),
                forall|l: int, m: int|
                    is_orphan(g, l, m) && l < i ==> exists|q: int|
                        0 <= q < r@.len() && (#[trigger] r@[q]).0 == l && r@[q].1 == m,
            decreases g.len() - i,
        {
            let mut m: usize = 0;
            while m < marks[i].len()
                invariant
                    g == grid(self.layers@),
                    i < g.len(),
                    m <= g[i as int].len(),
                    marks_sound(g, marks@),
                    forall|i2: int, j2: int|
                        0 <= i2 < g.len() && 0 <= j2 < g[i2].len() ==> node_marked(g, marks@, i2, j2, refs_of(#[trigger] g[i2][j2]).len() as int),
                    forall|q: int| 0 <= q < r@.len() ==> is_orphan(g, (#[trigger] r@[q]).0 as int, r@[q].1 as int),
                    forall|l: int, n: int|
                        is_orphan(g, l, n) && (l < i || (l == i && n < m)) ==> exists|q: int|
                            0 <= q < r@.len() && (#[trigger] r@[q]).0 == l && r@[q].1 == n,
                decreases g[i as int].len() - m,
            {
                if !marks[i][m] {
                    proof {
                        if referenced(g, i as int, m as int) {
                            let (a, b, c) = choose|a: int, b: int, c: int|
                                0 <= a < g.len() && 0 <= b < g[a].len() && 0 <= c < refs_of(g[a][b]).len()
                                    && ref_targets(#[trigger] refs_of(g[a][b])[c], i as int, m as int);
                            assert(node_marked(g, marks@, a, b, refs_of(g[a][b]).len() as int));
                            assert(marks@[i as int]@[m as int]);
                        }
                    }
                    let ghost before = r@;
                    r.push((i, m));
                    proof {
                        assert(r@[r@.len() - 1] == (i, m));
                        assert forall|l: int, n: int|
                            is_orphan(g, l, n) && (l < i || (l == i && n < m + 1)) implies exists|q: int|
                                0 <= q < r@.len() && (#[trigger] r@[q]).0 == l && r@[q].1 == n by {
                            if l == i && n == m {
                                assert(r@[r@.len() - 1].0 == l);
                            } else {
                                let q = choose|q: int| 0 <= q < before.len() && (#[trigger] before[q]).0 == l && before[q].1 == n;
                                assert(r@[q] == before[q]);
                            }
                        }
                    }
                }
                m = m + 1;
            }
            i = i + 1;
        }
        r
    }

    /// Wires `size` output nodes so that, where `size > 0`, every orphan of the
    /// hidden layers is read by at least one of them.
    fn generate_output_layer(&mut self, size: usize, rng: &mut StdRng)
        ensures
            final(self).num == old(self).num,
            final(self).layers == old(self).layers,
            final(self).outputs@.len() == size,
            forall|o: int|
                0 <= o < size ==> wired_output(grid(final(self).layers@), #[trigger] final(self).outputs@[o]),
            size > 0 ==> orphans_wired(grid(final(self).layers@), final(self).outputs@),
    {
        let ghost g = grid(self.layers@);
        let orphans = self.find_orphans();
        let mut used: Vec<bool> = Vec::new();
        while used.len() < orphans.len()
            invariant
                used@.len() <= orphans@.len(),
                forall|q: int| 0 <= q < used@.len() ==> !(#[trigger] used@[q]),
            decreases orphans@.len() - used@.len(),
        {
            used.push(false);
        }
        let ghost mut home: Seq<(int, int)> = Seq::new(orphans@.len(), |q: int| (0int, 0int));
        let mut out_refs: Vec<Vec<Reference>> = Vec::new();
        let mut biases: Vec<i32> = Vec::new();
        while out_refs.len() < size
            invariant
                g == grid(self.layers@),
                self.num == old(self).num,
                self.layers == old(self).layers,
                out_refs@.len() <= size,
                biases@.len() == out_refs@.len(),
                used@.len() == orphans@.len(),
                home.len() == orphans@.len(),
                forall|q: int| 0 <= q < orphans@.len() ==> is_orphan(g, (#[trigger] orphans@[q]).0 as int, orphans@[q].1 as int),
                forall|q: int| 0 <= q < used@.len() && #[trigger] used@[q] ==> located(out_refs@, home[q], orphans@[q].0 as int, orphans@[q].1 as int),
                forall|o: int, k: int|
                    0 <= o < out_refs@.len() && 0 <= k < out_refs@[o]@.len() ==> output_ref(g, #[trigger] out_refs@[o]@[k]),
                forall|o: int| 0 <= o < biases@.len() ==> -OUTPUT_BIAS <= #[trigger] biases@[o] <= OUTPUT_BIAS,
            decreases size - out_refs@.len(),
        {
            let prob: usize = 100 / size + 1;
            let o = out_refs.len();
            out_refs.push(Vec::new());
            let mut q: usize = 0;
            while q < orphans.len()
                invariant
                    g == grid(self.layers@),
                    o + 1 == out_refs@.len(),
                    out_refs@.len() <= size,
                    biases@.len() == o,
                    used@.len() == orphans@.len(),
                    home.len() == orphans@.len(),
                    q <= orphans@.len(),
                    forall|q2: int| 0 <= q2 < orphans@.len() ==> is_orphan(g, (#[trigger] orphans@[q2]).0 as int, orphans@[q2].1 as int),
                    forall|q2: int| 0 <= q2 < used@.len() && #[trigger] used@[q2] ==> located(out_refs@, home[q2], orphans@[q2].0 as int, orphans@[q2].1 as int),
                    forall|o2: int, k: int|
                        0 <= o2 < out_refs@.len() && 0 <= k < out_refs@[o2]@.len() ==> output_ref(g, #[trigger] out_refs@[o2]@[k]),
                decreases orphans@.len() - q,
            {
                if !used[q] && pick(rng, 0, 99) < prob {
                    let (l, m) = orphans[q];
                    let weight = pick(rng, 0, 2_000_000) as i32 - UNIT;
                    let r = Reference { layer: l, index: m, weight };
                    let ghost before = out_refs@;
                    out_refs[o].push(r);
                    used.set(q, true);
                    proof {
                        home = home.update(q as int, (o as int, before[o as int]@.len() as int));
                        assert forall|o2: int| 0 <= o2 < out_refs@.len() && o2 != o implies out_refs@[o2] == before[o2] by {}
                        assert(out_refs@[o as int]@ == before[o as int]@.push(r));
                        assert forall|q2: int| 0 <= q2 < used@.len() && #[trigger] used@[q2] implies located(out_refs@, home[q2], orphans@[q2].0 as int, orphans@[q2].1 as int) by {
                            if q2 != q {
                                let loc = home[q2];
                                if loc.0 == o {
                                    assert(out_refs@[loc.0]@[loc.1] == before[loc.0]@[loc.1]);
                                }
                            }
                        }
                        assert forall|o2: int, k: int|
                            0 <= o2 < out_refs@.len() && 0 <= k < out_refs@[o2]@.len() implies output_ref(g, #[trigger] out_refs@[o2]@[k]) by {
                            if o2 == o && k < before[o2]@.len() {
                                assert(out_refs@[o2]@[k] == before[o2]@[k]);
                            }
                        }
                    }
                }
                q = q + 1;
            }
            let bias = pick(rng, 0, 600_000) as i32 - OUTPUT_BIAS;
            biases.push(bias);
        }
        if size > 0 {
            let mut q: usize = 0;
            while q < orphans.len()
                invariant
                    size > 0,
                    g == grid(self.layers@),
                    out_refs@.len() == size,
                    used@.len() == orphans@.len(),
                    home.len() == orphans@.len(),
                    q <= orphans@.len(),
                    forall|q2: int| 0 <= q2 < orphans@.len() ==> is_orphan(g, (#[trigger] orphans@[q2]).0 as int, orphans@[q2].1 as int),
                    forall|q2: int| 0 <= q2 < used@.len() && #[trigger] used@[q2] ==> located(out_refs@, home[q2], orphans@[q2].0 as int, orphans@[q2].1 as int),
                    forall|q2: int| 0 <= q2 < q ==> #[trigger] used@[q2],
                    forall|o2: int, k: int|
                        0 <= o2 < out_refs@.len() && 0 <= k < out_refs@[o2]@.len() ==> output_ref(g, #[trigger] out_refs@[o2]@[k]),
                decreases orphans@.len() - q,
            {
                if !used[q] {
                    let slot = pick(rng, 0, size - 1);
                    let (l, m) = orphans[q];
                    let weight = pick(rng, 0, 2_000_000) as i32 - UNIT;
                    let r = Reference { layer: l, index: m, weight };
                    let ghost before = out_refs@;
                    out_refs[slot].push(r);
                    used.set(q, true);
                    proof {
                        home = home.update(q as int, (slot as int, before[slot as int]@.len() as int));
                        assert forall|o2: int| 0 <= o2 < out_refs@.len() && o2 != slot implies out_refs@[o2] == before[o2] by {}
                        assert(out_refs@[slot as int]@ == before[slot as int]@.push(r));
                        assert forall|q2: int| 0 <= q2 < used@.len() && #[trigger] used@[q2] implies located(out_refs@, home[q2], orphans@[q2].0 as int, orphans@[q2].1 as int) by {
                            if q2 != q {
                                let loc = home[q2];
                                if loc.0 == slot {
                                    assert(out_refs@[loc.0]@[loc.1] == before[loc.0]@[loc.1]);
                                }
                            }
                        }
                        assert forall|o2: int, k: int|
                            0 <= o2 < out_refs@.len() && 0 <= k < out_refs@[o2]@.len() implies output_ref(g, #[trigger] out_refs@[o2]@[k]) by {
                            if o2 == slot && k < before[o2]@.len() {
                                assert(out_refs@[o2]@[k] == before[o2]@[k]);
                            }
                        }
                    }
                }
                q = q + 1;
            }
        }
        let ghost wired = out_refs@;
        let mut outputs: Vec<Node> = Vec::new();
        while outputs.len() < size
            invariant
                g == grid(self.layers@),
                self.num == old(self).num,
                self.layers == old(self).layers,
                out_refs@.len() == size,
                biases@.len() == size,
                outputs@.len() <= size,
                forall|o: int| outputs@.len() <= o < size ==> #[trigger] out_refs@[o] == wired[o],
                forall|o: int, k: int|
                    0 <= o < size && 0 <= k < wired[o]@.len() ==> output_ref(g, #[trigger] wired[o]@[k]),
                forall|o: int| 0 <= o < biases@.len() ==> -OUTPUT_BIAS <= #[trigger] biases@[o] <= OUTPUT_BIAS,
                forall|o: int| 0 <= o < outputs@.len() ==> refs_of(#[trigger] outputs@[o]) == wired[o]@ && wired_output(g, outputs@[o]),
            decreases size - outputs@.len(),
        {
            let o = outputs.len();
            let mut refs: Vec<Reference> = Vec::new();
            let ghost before = out_refs@;
            std::mem::swap(&mut refs, &mut out_refs[o]);
            proof {
                assert(refs@ == wired[o as int]@);
                assert forall|o2: int| outputs@.len() < o2 < size implies #[trigger] out_refs@[o2] == wired[o2] by {
                    assert(out_refs@[o2] == before[o2]);
                }
            }
            let references = if refs.len() == 0 {
                None
            } else {
                Some(refs)
            };
            let node = Node { references, bias: Some(biases[o]), value: 0 };
            proof {
                assert(refs_of(node) == wired[o as int]@);
            }
            outputs.push(node);
        }
        self.outputs = outputs;
        proof {
            if size > 0 {
                let outs = self.outputs@;
                assert forall|l: int, m: int| is_orphan(g, l, m) implies exists|o: int, k: int|
                    0 <= o < outs.len() && 0 <= k < refs_of(outs[o]).len() && ref_targets(
                        #[trigger] refs_of(outs[o])[k],
                        l,
                        m,
                    ) by {
                    let q = choose|q: int| 0 <= q < orphans@.len() && (#[trigger] orphans@[q]).0 == l && orphans@[q].1 == m;
                    assert(used@[q]);
                    let loc = home[q];
                    assert(refs_of(outs[loc.0]) == wired[loc.0]@);
                    assert(ref_targets(refs_of(outs[loc.0])[loc.1], l, m));
                }
            }
        }
    }

    /// Draws the hidden layers, then wires `output_size` output nodes.
    fn generate(&mut self, rng: &mut StdRng, output_size: usize)
        requires
            old(self).layers@.len() == 1,
            old(self).layers@[0]@.len() == 0,
        ensures
            final(self).num == old(self).num,
            generated_network(*final(self), output_size as nat),
    {
        self.generate_hidden(rng);
        self.generate_output_layer(output_size, rng);
    }
}

/// A population of networks generated from one seeded random stream.
#[derive(Debug, PartialEq)]
pub struct Simulation {
    pub networks: Vec<NeuralNetwork>,
    /// The stream that all the networks were drawn from.
    pub rng: StdRng,
    /// The number of inputs each network is fed per update.
    pub input_size: usize,
    pub output_size: usize,
}

impl Simulation {
    /// Seeds the stream and generates `num_networks` networks from it, one
    /// after the other.
    pub fn new(seed: u64, num_networks: usize, input_size: usize, output_size: usize) -> (r: Simulation)
        ensures
            r.networks@.len() == num_networks,
            r.input_size == input_size,
            r.output_size == output_size,
            forall|k: int|
                0 <= k < num_networks ==> (#[trigger] r.networks@[k]).num == k && generated_network(
                    r.networks@[k],
                    output_size as nat,
                ) && refs_ready(grid(r.networks@[k].layers@), r.networks@[k].outputs@),
    {
        let mut sim = Simulation { networks: Vec::new(), rng: seeded(seed), input_size, output_size };
        sim.init(num_networks);
        assert forall|k: int| 0 <= k < num_networks implies refs_ready(
            grid(sim.networks@[k].layers@),
            sim.networks@[k].outputs@,
        ) by {
            lemma_generated_ready(sim.networks@[k], output_size as nat);
        }
        sim
    }

    fn init(&mut self, num_networks: usize)
        requires
            old(self).networks@.len() == 0,
        ensures
            final(self).input_size == old(self).input_size,
            final(self).output_size == old(self).output_size,
            final(self).networks@.len() == num_networks,
            forall|k: int|
                0 <= k < num_networks ==> (#[trigger] final(self).networks@[k]).num == k && generated_network(
                    final(self).networks@[k],
                    old(self).output_size as nat,
                ),
    {
        let mut num: usize = 0;
        while num < num_networks
            invariant
                num <= num_networks,
                self.input_size == old(self).input_size,
                self.output_size == old(self).output_size,
                self.networks@.len() == num,
                forall|k: int|
                    0 <= k < num ==> (#[trigger] self.networks@[k]).num == k && generated_network(
                        self.networks@[k],
                        self.output_size as nat,
                    ),
            decreases num_networks - num,
        {
            let mut net = NeuralNetwork { num, layers: Vec::new(), outputs: Vec::new() };
            net.layers.push(Vec::new());
            net.generate(&mut self.rng, self.output_size);
            self.networks.push(net);
            num = num + 1;
        }
    }
}

impl NeuralNetwork {
    /// The network as graphviz text: one labelled line per node and one line
    /// per reference, the outputs as the layer after the hidden ones.
    pub fn export_dot(&self) -> (r: Vec<u8>)
        ensures
            r@ == dot_text(grid(self.layers@), self.outputs@),
    {
        let ghost g = grid(self.layers@);
        let mut out: Vec<u8> = Vec::new();
        let open: [u8; 10] = [100, 105, 103, 114, 97, 112, 104, 32, 123, 10];
        assert(open@ =~= graph_open());
        push_bytes(&mut out, &open);
        let mut i: usize = 0;
        while i < self.layers.len()
            invariant
                i <= g.len(),
                g == grid(self.layers@),
                out@ == graph_open() + layers_text(g.take(i as int)),
            decreases g.len() - i,
        {
            push_layer(&mut out, i, &self.layers[i]);
            proof {
                let t = g.take(i + 1);
                assert(t.drop_last() =~= g.take(i as int));
                assert(t.last() == self.layers@[i as int]@);
                assert(out@ =~= graph_open() + layers_text(t));
            }
            i = i + 1;
        }
        assert(g.take(g.len() as int) =~= g);
        let n = self.layers.len();
        push_layer(&mut out, n, &self.outputs);
        let rank: [u8; 29] = [
            9, 115, 117, 98, 103, 114, 97, 112, 104, 32, 115, 117, 98, 115, 32, 123,
            9, 9, 114, 97, 110, 107, 61, 34, 115, 97, 109, 101, 34,
        ];
        assert(rank@ =~= rank_open());
        push_bytes(&mut out, &rank);
        let ghost head = out@;
        let mut o: usize = 0;
        while o < self.outputs.len()
            invariant
                o <= self.outputs@.len(),
                out@ == head + rank_text(n as nat, o as nat),
            decreases self.outputs@.len() - o,
        {
            out.push(9);
            out.push(9);
            push_name(&mut out, n, o);
            assert(out@ =~= head + rank_text(n as nat, (o + 1) as nat));
            o = o + 1;
        }
        let close: [u8; 4] = [9, 125, 125, 10];
        assert(close@ =~= graph_close());
        push_bytes(&mut out, &close);
        assert(out@ =~= dot_text(g, self.outputs@));
        out
    }
}

} // verus!
