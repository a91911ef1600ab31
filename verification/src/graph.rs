//! The dataflow graph: node storage, the planner that resolves an execution
//! order from requested inputs to requested outputs, and the executor that
//! runs each operator against tensor data.

use vstd::prelude::*;

use crate::ops::{OpError, OpType, Operator};
use crate::tensor::{Tensor, TensorModel};

verus! {

/// An opaque handle for a node in a graph. Ids are assigned on addition and
/// never reused or reassigned.
pub type NodeId = usize;

/// Model of an operator node: its positional input ids, the id of its output
/// slot, and the operator to run.
pub ghost struct OpNodeModel {
    pub inputs: Seq<NodeId>,
    pub output: NodeId,
    pub operator: OpType,
}

/// Model of one node of a graph.
pub ghost enum NodeModel {
    Operator(OpNodeModel),
    Constant(TensorModel<i32>),
    Value,
}

/// The operator node model of a node known to be an operator node.
pub open spec fn op_of(n: NodeModel) -> OpNodeModel {
    n->Operator_0
}

struct OperatorNode {
    inputs: Vec<NodeId>,
    output: NodeId,
    operator: OpType,
}

enum Node {
    Operator(OperatorNode),
    Constant(Tensor<i32>),
    Value,
}

impl View for Node {
    type V = NodeModel;

    closed spec fn view(&self) -> NodeModel {
        match self {
            Node::Operator(op) => NodeModel::Operator(
                OpNodeModel { inputs: op.inputs@, output: op.output, operator: op.operator },
            ),
            Node::Constant(t) => NodeModel::Constant(t@),
            Node::Value => NodeModel::Value,
        }
    }
}

/// A graph is well formed when every operator node's output id refers to a
/// value node of the graph, and no two operator nodes share an output id.
pub open spec fn graph_wf(g: Seq<NodeModel>) -> bool {
    forall|i: int|
        0 <= i < g.len() && g[i] is Operator ==> {
            &&& #[trigger] op_of(g[i]).output < g.len()
            &&& g[op_of(g[i]).output as int] is Value
            &&& forall|j: int|
                0 <= j < g.len() && j != i && g[j] is Operator ==> #[trigger] op_of(g[j]).output
                    != op_of(g[i]).output
        }
}

/// A dataflow graph: an append-only collection of operator, constant and
/// value nodes. Once built, a graph can be executed repeatedly with
/// [`Graph::run`].
pub struct Graph {
    nodes: Vec<Node>,
}

impl View for Graph {
    type V = Seq<NodeModel>;

    closed spec fn view(&self) -> Seq<NodeModel> {
        self.nodes@.map_values(|n: Node| n@)
    }
}

/// Whether to collect per-operator timing while a graph executes.
pub struct RunOptions {
    /// Whether to log operator timing as the graph executes.
    pub timing: bool,
}

impl Default for RunOptions {
    /// Timing is disabled by default.
    fn default() -> (r: Self)
        ensures
            r.timing == false,
    {
        RunOptions { timing: false }
    }
}

/// An error from planning or executing a graph.
#[derive(Debug, PartialEq, Eq)]
pub enum RunError {
    /// A value needed to produce the requested outputs is neither a bound
    /// input, nor a constant, nor the output of an operator that can run.
    MissingValue(NodeId),
    /// An operator signalled an error when run; `node` is the operator's
    /// output id.
    OperatorError { node: NodeId, error: OpError },
}

// ---------------------------------------------------------------------------
// Planning specification
// ---------------------------------------------------------------------------

/// The id of a value that needs no computation: a bound input or a constant
/// node.
pub open spec fn seeded(g: Seq<NodeModel>, seed_ids: Seq<NodeId>, id: NodeId) -> bool {
    (id < g.len() && g[id as int] is Constant) || seed_ids.contains(id)
}

/// The index of the operator node producing `id`, if there is one.
pub open spec fn producer(g: Seq<NodeModel>, id: NodeId) -> Option<int> {
    if exists|i: int| 0 <= i < g.len() && g[i] is Operator && op_of(g[i]).output == id {
        Some(choose|i: int| 0 <= i < g.len() && g[i] is Operator && op_of(g[i]).output == id)
    } else {
        None
    }
}

/// In a well-formed graph any operator producing `id` is the producer of
/// `id`.
pub proof fn lemma_producer_unique(g: Seq<NodeModel>, id: NodeId, i: int)
    requires
        graph_wf(g),
        0 <= i < g.len(),
        g[i] is Operator,
        op_of(g[i]).output == id,
    ensures
        producer(g, id) == Some(i),
{
    let w = choose|k: int| 0 <= k < g.len() && g[k] is Operator && op_of(g[k]).output == id;
    if w != i {
        assert(op_of(g[w]).output != op_of(g[i]).output);
    }
}

/// A value is resolvable within `fuel` steps when it is seeded, or when an
/// operator produces it whose inputs are all resolvable within `fuel - 1`
/// steps.
pub open spec fn resolvable(g: Seq<NodeModel>, seed_ids: Seq<NodeId>, id: NodeId, fuel: nat) -> bool
    decreases fuel,
{
    seeded(g, seed_ids, id) || (fuel > 0 && match producer(g, id) {
        Some(j) => forall|k: int|
            0 <= k < op_of(g[j]).inputs.len() ==> resolvable(
                g,
                seed_ids,
                #[trigger] op_of(g[j]).inputs[k],
                (fuel - 1) as nat,
            ),
        None => false,
    })
}

/// Resolvability only grows with fuel.
pub proof fn lemma_resolvable_mono(
    g: Seq<NodeModel>,
    seed_ids: Seq<NodeId>,
    id: NodeId,
    fuel: nat,
    more: nat,
)
    requires
        resolvable(g, seed_ids, id, fuel),
        fuel <= more,
    ensures
        resolvable(g, seed_ids, id, more),
    decreases fuel,
{
    if !seeded(g, seed_ids, id) {
        let j = producer(g, id)->Some_0;
        assert forall|k: int| 0 <= k < op_of(g[j]).inputs.len() implies resolvable(
            g,
            seed_ids,
            #[trigger] op_of(g[j]).inputs[k],
            (more - 1) as nat,
        ) by {
            lemma_resolvable_mono(g, seed_ids, op_of(g[j]).inputs[k], (fuel - 1) as nat, (more
                - 1) as nat);
        }
    }
}

/// A value is needed within `fuel` steps when it is a requested output that is
/// not seeded, or when it feeds an operator whose own output is needed.
pub open spec fn needed(
    g: Seq<NodeModel>,
    seed_ids: Seq<NodeId>,
    outputs: Seq<NodeId>,
    id: NodeId,
    fuel: nat,
) -> bool
    decreases fuel,
{
    (outputs.contains(id) && !seeded(g, seed_ids, id)) || (fuel > 0 && exists|j: int|
        0 <= j < g.len() && g[j] is Operator && #[trigger] op_of(g[j]).inputs.contains(id)
            && !seeded(g, seed_ids, op_of(g[j]).output) && needed(
            g,
            seed_ids,
            outputs,
            op_of(g[j]).output,
            (fuel - 1) as nat,
        ))
}


/// Appending a non-operator node preserves graph well-formedness.
proof fn lemma_wf_push_non_op(g: Seq<NodeModel>, n: NodeModel)
    requires
        graph_wf(g),
        !(n is Operator),
    ensures
        graph_wf(g.push(n)),
{
    let g2 = g.push(n);
    assert forall|i: int| 0 <= i < g2.len() && g2[i] is Operator implies {
        &&& #[trigger] op_of(g2[i]).output < g2.len()
        &&& g2[op_of(g2[i]).output as int] is Value
        &&& forall|j: int|
            0 <= j < g2.len() && j != i && g2[j] is Operator ==> #[trigger] op_of(g2[j]).output
                != op_of(g2[i]).output
    } by {
        assert(g2[i] == g[i]);
        assert(op_of(g[i]).output < g.len());
        assert(g2[op_of(g[i]).output as int] == g[op_of(g[i]).output as int]);
        assert forall|j: int|
            0 <= j < g2.len() && j != i && g2[j] is Operator implies #[trigger] op_of(
            g2[j],
        ).output != op_of(g2[i]).output by {
            assert(g2[j] == g[j]);
        }
    }
}

/// Appending a fresh value node followed by an operator node whose output is
/// that fresh value preserves graph well-formedness.
proof fn lemma_wf_push_op(g: Seq<NodeModel>, inputs: Seq<NodeId>, op: OpType)
    requires
        graph_wf(g),
        g.len() + 1 < usize::MAX,
    ensures
        graph_wf(
            g.push(NodeModel::Value).push(
                NodeModel::Operator(
                    OpNodeModel { inputs, output: g.len() as usize, operator: op },
                ),
            ),
        ),
{
    let node = NodeModel::Operator(
        OpNodeModel { inputs, output: g.len() as usize, operator: op },
    );
    let g2 = g.push(NodeModel::Value).push(node);
    assert forall|i: int| 0 <= i < g2.len() && g2[i] is Operator implies {
        &&& #[trigger] op_of(g2[i]).output < g2.len()
        &&& g2[op_of(g2[i]).output as int] is Value
        &&& forall|j: int|
            0 <= j < g2.len() && j != i && g2[j] is Operator ==> #[trigger] op_of(g2[j]).output
                != op_of(g2[i]).output
    } by {
        if i < g.len() {
            assert(g2[i] == g[i]);
            assert(op_of(g[i]).output < g.len());
            assert(g2[op_of(g[i]).output as int] == g[op_of(g[i]).output as int]);
        } else {
            assert(i == g.len() + 1);
            assert(g2[g.len() as int] is Value);
        }
        assert forall|j: int|
            0 <= j < g2.len() && j != i && g2[j] is Operator implies #[trigger] op_of(
            g2[j],
        ).output != op_of(g2[i]).output by {
            if i < g.len() && j < g.len() {
                assert(g2[j] == g[j]);
                assert(g2[i] == g[i]);
            } else if i < g.len() {
                // j is the new operator; its output is the fresh id.
                assert(j == g.len() + 1);
                assert(op_of(g2[i]).output < g.len());
            } else {
                assert(i == g.len() + 1);
                assert(j < g.len());
                assert(g2[j] == g[j]);
                assert(op_of(g2[j]).output < g.len());
            }
        }
    }
}

impl Graph {
    #[verifier::type_invariant]
    pub open spec fn inv(self) -> bool {
        graph_wf(self@)
    }

    /// Create a new empty dataflow graph.
    pub fn new() -> (r: Graph)
        ensures
            r@ =~= Seq::<NodeModel>::empty(),
    {
        Graph { nodes: Vec::new() }
    }

    /// The number of nodes in the graph.
    pub fn node_count(&self) -> (r: usize)
        ensures
            r == self@.len(),
    {
        self.nodes.len()
    }

    /// Add a constant node to the graph.
    ///
    /// Returns the ID of the added node.
    pub fn add_constant(&mut self, value: Tensor<i32>) -> (r: NodeId)
        ensures
            r == old(self)@.len(),
            final(self)@ =~= old(self)@.push(NodeModel::Constant(value@)),
    {
        proof {
            use_type_invariant(&*self);
        }
        let mut nodes: Vec<Node> = Vec::new();
        core::mem::swap(&mut nodes, &mut self.nodes);
        let id = nodes.len();
        let ghost v = value@;
        nodes.push(Node::Constant(value));
        proof {
            assert(nodes@.map_values(|n: Node| n@) =~= old(self)@.push(NodeModel::Constant(v)));
            lemma_wf_push_non_op(old(self)@, NodeModel::Constant(v));
        }
        core::mem::swap(&mut nodes, &mut self.nodes);
        proof {
            assert(self@ =~= old(self)@.push(NodeModel::Constant(v)));
        }
        id
    }

    /// Add a value node to the graph.
    ///
    /// This serves as a placeholder for a value which is available only when
    /// the graph is executed, such as an input or operator output.
    ///
    /// Returns the ID of the added node.
    pub fn add_value(&mut self) -> (r: NodeId)
        ensures
            r == old(self)@.len(),
            final(self)@ =~= old(self)@.push(NodeModel::Value),
    {
        proof {
            use_type_invariant(&*self);
        }
        let mut nodes: Vec<Node> = Vec::new();
        core::mem::swap(&mut nodes, &mut self.nodes);
        let id = nodes.len();
        nodes.push(Node::Value);
        proof {
            assert(nodes@.map_values(|n: Node| n@) =~= old(self)@.push(NodeModel::Value));
            lemma_wf_push_non_op(old(self)@, NodeModel::Value);
        }
        core::mem::swap(&mut nodes, &mut self.nodes);
        proof {
            assert(self@ =~= old(self)@.push(NodeModel::Value));
        }
        id
    }

    /// Add an operator node to the graph.
    ///
    /// `inputs` specifies which other nodes in the graph should be used as
    /// inputs to this operation when the graph is executed. These other nodes
    /// can be inputs, constants (for weights and biases) or outputs of other
    /// operators.
    ///
    /// Returns the ID of the added operator's output node.
    pub fn add_op(&mut self, op: OpType, inputs: &[NodeId]) -> (r: NodeId)
        ensures
            r == old(self)@.len(),
            final(self)@ =~= old(self)@.push(NodeModel::Value).push(
                NodeModel::Operator(OpNodeModel { inputs: inputs@, output: r, operator: op }),
            ),
    {
        proof {
            use_type_invariant(&*self);
        }
        let mut nodes: Vec<Node> = Vec::new();
        core::mem::swap(&mut nodes, &mut self.nodes);
        let output_id = nodes.len();
        nodes.push(Node::Value);
        let mut input_vec: Vec<NodeId> = Vec::new();
        let mut i: usize = 0;
        while i < inputs.len()
            invariant
                i <= inputs@.len(),
                input_vec@ =~= inputs@.take(i as int),
            decreases inputs@.len() - i,
        {
            input_vec.push(inputs[i]);
            i = i + 1;
        }
        proof {
            assert(input_vec@ =~= inputs@);
        }
        nodes.push(
            Node::Operator(OperatorNode { inputs: input_vec, output: output_id, operator: op }),
        );
        let node_total = nodes.len();
        proof {
            assert(node_total == old(self)@.len() + 2);
            assert(nodes@.map_values(|n: Node| n@) =~= old(self)@.push(NodeModel::Value).push(
                NodeModel::Operator(
                    OpNodeModel { inputs: inputs@, output: output_id, operator: op },
                ),
            ));
            lemma_wf_push_op(old(self)@, inputs@, op);
        }
        core::mem::swap(&mut nodes, &mut self.nodes);
        proof {
            assert(self@ =~= old(self)@.push(NodeModel::Value).push(
                NodeModel::Operator(
                    OpNodeModel { inputs: inputs@, output: output_id, operator: op },
                ),
            ));
        }
        output_id
    }
}

/// A value available during planning: seeded, or already resolved by a
/// scheduled operator.
pub open spec fn avail(
    g: Seq<NodeModel>,
    seed_ids: Seq<NodeId>,
    resolved: Seq<bool>,
    id: NodeId,
) -> bool {
    seeded(g, seed_ids, id) || (id < resolved.len() && resolved[id as int])
}

/// Ids of `g.len()` or more have no producer in a well-formed graph.
proof fn lemma_no_producer_big_id(g: Seq<NodeModel>, id: NodeId)
    requires
        graph_wf(g),
        id >= g.len(),
    ensures
        producer(g, id) is None,
{
    if producer(g, id) is Some {
        let w = choose|i: int| 0 <= i < g.len() && g[i] is Operator && op_of(g[i]).output == id;
        assert(op_of(g[w]).output < g.len());
    }
}

/// The number of `false` entries of a sequence of booleans.
pub open spec fn count_falses(s: Seq<bool>) -> nat
    decreases s.len(),
{
    if s.len() == 0 {
        0
    } else {
        (if s[0] {
            0nat
        } else {
            1nat
        }) + count_falses(s.skip(1))
    }
}

proof fn lemma_count_falses_update(s: Seq<bool>, i: int)
    requires
        0 <= i < s.len(),
        !s[i],
    ensures
        count_falses(s.update(i, true)) < count_falses(s),
    decreases s.len(),
{
    if i == 0 {
        assert(s.update(0, true).skip(1) =~= s.skip(1));
    } else {
        assert(s.update(i, true).skip(1) =~= s.skip(1).update(i - 1, true));
        lemma_count_falses_update(s.skip(1), i - 1);
    }
}

/// A vector of `n` `false` entries.
fn falses(n: usize) -> (r: Vec<bool>)
    ensures
        r@.len() == n,
        forall|i: int| 0 <= i < n ==> !r@[i],
{
    let mut v: Vec<bool> = Vec::new();
    let mut i: usize = 0;
    while i < n
        invariant
            i <= n,
            v@.len() == i,
            forall|j: int| 0 <= j < i ==> !v@[j],
        decreases n - i,
    {
        v.push(false);
        i = i + 1;
    }
    v
}

/// Whether a list of ids contains `id`.
fn contains_id(ids: &[NodeId], id: NodeId) -> (r: bool)
    ensures
        r == ids@.contains(id),
{
    let mut i: usize = 0;
    while i < ids.len()
        invariant
            i <= ids@.len(),
            forall|j: int| 0 <= j < i ==> ids@[j] != id,
        decreases ids@.len() - i,
    {
        if ids[i] == id {
            return true;
        }
        i = i + 1;
    }
    false
}

impl Graph {
    /// Whether `id` needs no computation: it is a bound input or a constant
    /// node.
    fn is_seeded(&self, input_ids: &[NodeId], id: NodeId) -> (r: bool)
        ensures
            r == seeded(self@, input_ids@, id),
    {
        if id < self.nodes.len() {
            match &self.nodes[id] {
                Node::Constant(_) => {
                    return true;
                },
                _ => {},
            }
        }
        contains_id(input_ids, id)
    }

    /// The index of the operator node producing `id`, if there is one.
    fn find_producer(&self, id: NodeId) -> (r: Option<usize>)
        ensures
            match r {
                Some(j) => {
                    &&& j < self@.len()
                    &&& self@[j as int] is Operator
                    &&& op_of(self@[j as int]).output == id
                    &&& producer(self@, id) == Some(j as int)
                },
                None => producer(self@, id) is None,
            },
    {
        proof {
            use_type_invariant(self);
        }
        let n = self.nodes.len();
        let mut i: usize = 0;
        while i < n
            invariant
                i <= n,
                n == self@.len(),
                graph_wf(self@),
                forall|j: int|
                    0 <= j < i ==> !(self@[j] is Operator && op_of(#[trigger] self@[j]).output
                        == id),
            decreases n - i,
        {
            match &self.nodes[i] {
                Node::Operator(opn) => {
                    if opn.output == id {
                        proof {
                            lemma_producer_unique(self@, id, i as int);
                        }
                        return Some(i);
                    }
                },
                _ => {},
            }
            i = i + 1;
        }
        return None;
    }
}

/// A value is needed at some depth.
pub open spec fn needed_any(
    g: Seq<NodeModel>,
    seed_ids: Seq<NodeId>,
    outputs: Seq<NodeId>,
    id: NodeId,
) -> bool {
    exists|f: nat| #[trigger] needed(g, seed_ids, outputs, id, f)
}

/// A value is resolvable at some depth.
pub open spec fn resolvable_any(g: Seq<NodeModel>, seed_ids: Seq<NodeId>, id: NodeId) -> bool {
    exists|f: nat| #[trigger] resolvable(g, seed_ids, id, f)
}

/// A marking is closed when, for every marked unseeded operator output, every
/// in-range input of that operator is marked too.
pub open spec fn mark_closed(g: Seq<NodeModel>, seed_ids: Seq<NodeId>, mark: Seq<bool>) -> bool {
    forall|j: int, k: int|
        0 <= j < g.len() && g[j] is Operator && mark[op_of(g[j]).output as int] && !seeded(
            g,
            seed_ids,
            op_of(g[j]).output,
        ) && 0 <= k < op_of(g[j]).inputs.len() && #[trigger] op_of(g[j]).inputs[k] < g.len()
            ==> mark[op_of(g[j]).inputs[k] as int]
}

/// As `mark_closed`, but not yet required of the ids still on the work
/// stack.
spec fn mark_closed_except(
    g: Seq<NodeModel>,
    seed_ids: Seq<NodeId>,
    mark: Seq<bool>,
    stack: Seq<NodeId>,
) -> bool {
    forall|j: int, k: int|
        0 <= j < g.len() && g[j] is Operator && mark[op_of(g[j]).output as int] && !seeded(
            g,
            seed_ids,
            op_of(g[j]).output,
        ) && !stack.contains(op_of(g[j]).output) && 0 <= k < op_of(g[j]).inputs.len()
            && #[trigger] op_of(g[j]).inputs[k] < g.len() ==> mark[op_of(g[j]).inputs[k] as int]
}

impl Graph {
    /// Mark every node id that is needed to produce `outputs`: the unseeded
    /// requested outputs and, transitively, the inputs of the operators that
    /// produce marked unseeded values.
    fn mark_needed(&self, input_ids: &[NodeId], outputs: &[NodeId]) -> (mark: Vec<bool>)
        ensures
            mark@.len() == self@.len(),
            forall|id: int|
                0 <= id < mark@.len() && mark@[id] ==> needed_any(
                    self@,
                    input_ids@,
                    outputs@,
                    id as NodeId,
                ),
            forall|i: int|
                0 <= i < outputs@.len() && outputs@[i] < self@.len() && !seeded(
                    self@,
                    input_ids@,
                    outputs@[i],
                ) ==> mark@[outputs@[i] as int],
            mark_closed(self@, input_ids@, mark@),
    {
        proof {
            use_type_invariant(self);
        }
        let n = self.nodes.len();
        let ghost g = self@;
        let ghost seeds = input_ids@;
        let ghost outs = outputs@;
        let mut mark = falses(n);
        let mut stack: Vec<NodeId> = Vec::new();

        // Mark the unseeded requested outputs and queue them for closure.
        let mut i: usize = 0;
        while i < outputs.len()
            invariant
                i <= outs.len(),
                outs == outputs@,
                g == self@,
                seeds == input_ids@,
                n == g.len(),
                mark@.len() == n,
                forall|id: int|
                    0 <= id < n && mark@[id] ==> needed_any(g, seeds, outs, id as NodeId),
                forall|k: int|
                    0 <= k < i && outs[k] < n && !seeded(g, seeds, outs[k]) ==> mark@[outs[k] as int],
                forall|k: int| 0 <= k < stack@.len() ==> stack@[k] < n && mark@[#[trigger] stack@[k] as int],
                forall|id: int| 0 <= id < n && mark@[id] ==> stack@.contains(id as NodeId),
                forall|k1: int, k2: int| 0 <= k1 < k2 < stack@.len() ==> stack@[k1] != stack@[k2],
            decreases outs.len() - i,
        {
            let o = outputs[i];
            if o < n && !self.is_seeded(input_ids, o) {
                if !mark[o] {
                    let ghost stack0 = stack@;
                    mark.set(o, true);
                    stack.push(o);
                    proof {
                        assert(needed(g, seeds, outs, o, 0));
                        assert forall|id: int| 0 <= id < n && mark@[id] implies stack@.contains(
                            id as NodeId,
                        ) by {
                            if id == o as int {
                                assert(stack@[stack0.len() as int] == o);
                            } else {
                                let w = choose|w: int|
                                    0 <= w < stack0.len() && stack0[w] == id as NodeId;
                                assert(stack@[w] == id as NodeId);
                            }
                        }
                        assert forall|k1: int, k2: int|
                            0 <= k1 < k2 < stack@.len() implies stack@[k1] != stack@[k2] by {
                            if k2 == stack0.len() {
                                assert(stack@[k1] == stack0[k1]);
                            } else {
                                assert(stack@[k1] == stack0[k1]);
                                assert(stack@[k2] == stack0[k2]);
                            }
                        }
                    }
                }
            }
            i = i + 1;
        }

        // Close the marking: the inputs of the operator producing a marked
        // unseeded value are needed too.
        proof {
            assert(mark_closed_except(g, seeds, mark@, stack@));
        }
        while stack.len() > 0
            invariant
                g == self@,
                seeds == input_ids@,
                outs == outputs@,
                n == g.len(),
                graph_wf(g),
                mark@.len() == n,
                forall|id: int|
                    0 <= id < n && mark@[id] ==> needed_any(g, seeds, outs, id as NodeId),
                forall|k: int|
                    0 <= k < outs.len() && outs[k] < n && !seeded(g, seeds, outs[k])
                        ==> mark@[outs[k] as int],
                forall|k: int| 0 <= k < stack@.len() ==> stack@[k] < n && mark@[#[trigger] stack@[k] as int],
                forall|k1: int, k2: int| 0 <= k1 < k2 < stack@.len() ==> stack@[k1] != stack@[k2],
                mark_closed_except(g, seeds, mark@, stack@),
            decreases count_falses(mark@), stack@.len(),
        {
            let ghost stack_before = stack@;
            let id = match stack.pop() {
                Some(v) => v,
                None => {
                    proof {
                        assert(false);
                    }
                    return mark;
                },
            };
            proof {
                assert(stack_before.last() == id);
                assert(stack@ =~= stack_before.drop_last());
                assert(!stack@.contains(id)) by {
                    if stack@.contains(id) {
                        let w = choose|w: int| 0 <= w < stack@.len() && stack@[w] == id;
                        assert(stack_before[w] == id);
                        assert(stack_before[stack_before.len() - 1] == id);
                    }
                }
                assert(stack@.push(id) =~= stack_before);
            }
            if self.is_seeded(input_ids, id) {
                proof {
                    assert forall|j: int, k: int|
                        0 <= j < g.len() && g[j] is Operator && mark@[op_of(g[j]).output as int]
                            && !seeded(g, seeds, op_of(g[j]).output) && !stack@.contains(
                            op_of(g[j]).output,
                        ) && 0 <= k < op_of(g[j]).inputs.len() && #[trigger] op_of(
                            g[j],
                        ).inputs[k] < g.len() implies mark@[op_of(g[j]).inputs[k] as int] by {
                        let out = op_of(g[j]).output;
                        if out != id && !stack_before.contains(out) {
                            // Covered by the invariant before the pop.
                        } else if out != id {
                            let w = choose|w: int|
                                0 <= w < stack_before.len() && stack_before[w] == out;
                            assert(stack@[w] == out);
                        }
                    }
                }
                continue;
            }
            let producer_idx = self.find_producer(id);
            match producer_idx {
                None => {
                    proof {
                        assert forall|j: int, k: int|
                            0 <= j < g.len() && g[j] is Operator && mark@[op_of(g[j]).output as int]
                                && !seeded(g, seeds, op_of(g[j]).output) && !stack@.contains(
                                op_of(g[j]).output,
                            ) && 0 <= k < op_of(g[j]).inputs.len() && #[trigger] op_of(
                                g[j],
                            ).inputs[k] < g.len() implies mark@[op_of(g[j]).inputs[k] as int] by {
                            let out = op_of(g[j]).output;
                            if out == id {
                                lemma_producer_unique(g, id, j);
                            } else if !stack_before.contains(out) {
                            } else {
                                let w = choose|w: int|
                                    0 <= w < stack_before.len() && stack_before[w] == out;
                                assert(stack@[w] == out);
                            }
                        }
                    }
                },
                Some(jj) => {
                    let ghost fj: nat = choose|f: nat| #[trigger] needed(g, seeds, outs, id, f);
                    let node = &self.nodes[jj];
                    let opn = match node {
                        Node::Operator(opn) => opn,
                        _ => {
                            proof {
                                assert(false);
                            }
                            return mark;
                        },
                    };
                    let ghost count0 = count_falses(mark@);
                    let ghost stack_after_pop = stack@;
                    let num_inputs = opn.inputs.len();
                    let mut k: usize = 0;
                    while k < num_inputs
                        invariant
                            g == self@,
                            seeds == input_ids@,
                            outs == outputs@,
                            n == g.len(),
                            graph_wf(g),
                            mark@.len() == n,
                            jj < g.len(),
                            g[jj as int] is Operator,
                            op_of(g[jj as int]).output == id,
                            !seeded(g, seeds, id),
                            needed(g, seeds, outs, id, fj),
                            num_inputs == op_of(g[jj as int]).inputs.len(),
                            opn.inputs@ == op_of(g[jj as int]).inputs,
                            k <= num_inputs,
                            mark@[id as int],
                            count_falses(mark@) <= count0,
                            count_falses(mark@) < count0 || stack@ == stack_after_pop,
                            forall|id2: int|
                                0 <= id2 < n && mark@[id2] ==> needed_any(
                                    g,
                                    seeds,
                                    outs,
                                    id2 as NodeId,
                                ),
                            forall|k2: int|
                                0 <= k2 < outs.len() && outs[k2] < n && !seeded(g, seeds, outs[k2])
                                    ==> mark@[outs[k2] as int],
                            forall|k2: int|
                                0 <= k2 < stack@.len() ==> stack@[k2] < n && mark@[#[trigger] stack@[k2] as int],
                            forall|k1: int, k2: int|
                                0 <= k1 < k2 < stack@.len() ==> stack@[k1] != stack@[k2],
                            !stack@.contains(id),
                            mark_closed_except(g, seeds, mark@, stack@.push(id)),
                            forall|k2: int|
                                0 <= k2 < k && op_of(g[jj as int]).inputs[k2] < n
                                    ==> mark@[#[trigger] op_of(g[jj as int]).inputs[k2] as int],
                        decreases num_inputs - k,
                    {
                        let t = opn.inputs[k];
                        if t < n {
                            if !mark[t] {
                                let ghost stack0 = stack@;
                                let ghost mark0 = mark@;
                                mark.set(t, true);
                                stack.push(t);
                                proof {
                                    lemma_count_falses_update(mark0, t as int);
                                    // The newly marked input is needed one
                                    // step beyond its consumer.
                                    assert(op_of(g[jj as int]).inputs.contains(t)) by {
                                        assert(op_of(g[jj as int]).inputs[k as int] == t);
                                    }
                                    assert(needed(g, seeds, outs, t, fj + 1));
                                    assert forall|id2: int|
                                        0 <= id2 < n && mark@[id2] implies needed_any(
                                        g,
                                        seeds,
                                        outs,
                                        id2 as NodeId,
                                    ) by {
                                        if id2 == t as int {
                                            assert(needed(g, seeds, outs, t, fj + 1));
                                        }
                                    }
                                    assert forall|k2: int|
                                        0 <= k2 < stack@.len() implies stack@[k2] < n
                                            && mark@[#[trigger] stack@[k2] as int] by {
                                        if k2 < stack0.len() {
                                            assert(stack@[k2] == stack0[k2]);
                                        } else {
                                            assert(stack@[k2] == t);
                                        }
                                    }
                                    assert forall|k1: int, k2: int|
                                        0 <= k1 < k2 < stack@.len() implies stack@[k1]
                                            != stack@[k2] by {
                                        if k2 == stack0.len() {
                                            // The new top was unmarked, while
                                            // everything on the stack is
                                            // marked.
                                            assert(stack@[k1] == stack0[k1]);
                                            assert(mark0[stack0[k1] as int]);
                                        } else {
                                            assert(stack@[k1] == stack0[k1]);
                                            assert(stack@[k2] == stack0[k2]);
                                        }
                                    }
                                    assert(!stack@.contains(id)) by {
                                        if stack@.contains(id) {
                                            let w = choose|w: int|
                                                0 <= w < stack@.len() && stack@[w] == id;
                                            if w < stack0.len() {
                                                assert(stack0[w] == id);
                                            } else {
                                                assert(stack@[w] == t);
                                                assert(!mark0[t as int]);
                                            }
                                        }
                                    }
                                    assert forall|j2: int, k2: int|
                                        0 <= j2 < g.len() && g[j2] is Operator && mark@[op_of(
                                            g[j2],
                                        ).output as int] && !seeded(g, seeds, op_of(g[j2]).output)
                                            && !stack@.push(id).contains(op_of(g[j2]).output) && 0
                                            <= k2 < op_of(g[j2]).inputs.len() && #[trigger] op_of(
                                            g[j2],
                                        ).inputs[k2] < g.len() implies mark@[op_of(
                                            g[j2],
                                        ).inputs[k2] as int] by {
                                        let out = op_of(g[j2]).output;
                                        if out == t {
                                            // The new id is on the stack.
                                            assert(stack@.push(id)[stack0.len() as int] == t);
                                        } else {
                                            assert(mark0[out as int]);
                                            assert(!stack0.push(id).contains(out)) by {
                                                if stack0.push(id).contains(out) {
                                                    let w = choose|w: int|
                                                        0 <= w < stack0.push(id).len()
                                                            && stack0.push(id)[w] == out;
                                                    if w < stack0.len() {
                                                        assert(stack@.push(id)[w] == out);
                                                    } else {
                                                        assert(stack0.push(id)[w] == id);
                                                        assert(stack@.push(id)[stack@.len() as int]
                                                            == id);
                                                    }
                                                }
                                            }
                                        }
                                    }
                                }
                            }
                        }
                        k = k + 1;
                    }
                    proof {
                        // `id` is now fully processed: the closure holds with
                        // `id` off the stack.
                        assert forall|j2: int, k2: int|
                            0 <= j2 < g.len() && g[j2] is Operator && mark@[op_of(
                                g[j2],
                            ).output as int] && !seeded(g, seeds, op_of(g[j2]).output)
                                && !stack@.contains(op_of(g[j2]).output) && 0 <= k2 < op_of(
                                g[j2],
                            ).inputs.len() && #[trigger] op_of(g[j2]).inputs[k2] < g.len() implies mark@[op_of(
                                g[j2],
                            ).inputs[k2] as int] by {
                            let out = op_of(g[j2]).output;
                            if out == id {
                                lemma_producer_unique(g, id, j2);
                                assert(j2 == jj as int);
                            } else {
                                assert(!stack@.push(id).contains(out)) by {
                                    if stack@.push(id).contains(out) {
                                        let w = choose|w: int|
                                            0 <= w < stack@.push(id).len() && stack@.push(id)[w]
                                                == out;
                                        if w < stack@.len() {
                                            assert(stack@[w] == out);
                                        } else {
                                            assert(stack@.push(id)[w] == id);
                                        }
                                    }
                                }
                            }
                        }
                    }
                },
            }
        }
        mark
    }
}

/// The operator node scheduled at position `k` of a plan.
pub open spec fn plan_op(g: Seq<NodeModel>, plan: Seq<NodeId>, k: int) -> OpNodeModel {
    op_of(g[producer(g, plan[k])->Some_0])
}

/// What a valid execution plan promises: every entry is the output of an
/// operator of the graph, no operator is scheduled twice, every operator's
/// inputs are seeded or produced earlier in the plan, every requested output
/// is seeded or produced by the plan, every scheduled operator is needed for
/// the requested outputs, and nothing is scheduled when every requested
/// output is already seeded.
pub open spec fn plan_valid(
    g: Seq<NodeModel>,
    seed_ids: Seq<NodeId>,
    outputs: Seq<NodeId>,
    plan: Seq<NodeId>,
) -> bool {
    &&& forall|k: int| 0 <= k < plan.len() ==> (#[trigger] plan[k]) < g.len()
    &&& forall|k: int| 0 <= k < plan.len() ==> producer(g, #[trigger] plan[k]) is Some
    &&& forall|k: int| 0 <= k < plan.len() ==> !seeded(g, seed_ids, #[trigger] plan[k])
    &&& forall|k1: int, k2: int| 0 <= k1 < k2 < plan.len() ==> plan[k1] != plan[k2]
    &&& forall|k: int, t: int|
        0 <= k < plan.len() && 0 <= t < plan_op(g, plan, k).inputs.len() ==> seeded(
            g,
            seed_ids,
            #[trigger] plan_op(g, plan, k).inputs[t],
        ) || (exists|j: int| 0 <= j < k && plan[j] == plan_op(g, plan, k).inputs[t])
    &&& forall|i: int|
        0 <= i < outputs.len() ==> seeded(g, seed_ids, #[trigger] outputs[i]) || plan.contains(
            outputs[i],
        )
    &&& forall|k: int| 0 <= k < plan.len() ==> needed_any(g, seed_ids, outputs, #[trigger] plan[k])
    &&& forall|k: int|
        0 <= k < plan.len() ==> resolvable(g, seed_ids, #[trigger] plan[k], (k + 1) as nat)
    &&& ((forall|i: int| 0 <= i < outputs.len() ==> seeded(g, seed_ids, #[trigger] outputs[i]))
        ==> plan.len() == 0)
}

/// The planner's working state: `resolved` holds exactly the seeded values
/// and the outputs of the operators scheduled so far, and the scheduled
/// prefix satisfies the plan promises.
spec fn plan_state_ok(
    g: Seq<NodeModel>,
    seed_ids: Seq<NodeId>,
    mark: Seq<bool>,
    resolved: Seq<bool>,
    plan: Seq<NodeId>,
) -> bool {
    &&& resolved.len() == g.len()
    &&& mark.len() == g.len()
    &&& forall|id: int|
        0 <= id < g.len() ==> ((#[trigger] resolved[id]) <==> (seeded(g, seed_ids, id as NodeId)
            || plan.contains(id as NodeId)))
    &&& forall|k: int| 0 <= k < plan.len() ==> (#[trigger] plan[k]) < g.len()
    &&& forall|k: int| 0 <= k < plan.len() ==> producer(g, #[trigger] plan[k]) is Some
    &&& forall|k: int| 0 <= k < plan.len() ==> !seeded(g, seed_ids, #[trigger] plan[k])
    &&& forall|k: int| 0 <= k < plan.len() ==> mark[(#[trigger] plan[k]) as int]
    &&& forall|k1: int, k2: int| 0 <= k1 < k2 < plan.len() ==> plan[k1] != plan[k2]
    &&& forall|k: int, t: int|
        0 <= k < plan.len() && 0 <= t < plan_op(g, plan, k).inputs.len() ==> seeded(
            g,
            seed_ids,
            #[trigger] plan_op(g, plan, k).inputs[t],
        ) || (exists|j: int| 0 <= j < k && plan[j] == plan_op(g, plan, k).inputs[t])
    &&& forall|k: int|
        0 <= k < plan.len() ==> resolvable(g, seed_ids, #[trigger] plan[k], (k + 1) as nat)
}

/// No marked operator with every input available is left unresolved.
spec fn saturated(
    g: Seq<NodeModel>,
    seed_ids: Seq<NodeId>,
    mark: Seq<bool>,
    resolved: Seq<bool>,
) -> bool {
    forall|j: int|
        0 <= j < g.len() && g[j] is Operator && mark[(#[trigger] op_of(g[j]).output) as int]
            && !resolved[op_of(g[j]).output as int] ==> exists|k: int|
            0 <= k < op_of(g[j]).inputs.len() && !avail(
                g,
                seed_ids,
                resolved,
                #[trigger] op_of(g[j]).inputs[k],
            )
}

proof fn lemma_push_contains(s: Seq<NodeId>, x: NodeId, y: NodeId)
    ensures
        s.push(x).contains(y) <==> (y == x || s.contains(y)),
{
    if s.push(x).contains(y) {
        let w = choose|w: int| 0 <= w < s.push(x).len() && s.push(x)[w] == y;
        if w < s.len() {
            assert(s[w] == y);
        }
    }
    if s.contains(y) {
        let w = choose|w: int| 0 <= w < s.len() && s[w] == y;
        assert(s.push(x)[w] == y);
    }
    if y == x {
        assert(s.push(x)[s.len() as int] == x);
    }
}

/// After saturation, every marked resolvable value is resolved.
proof fn lemma_saturation_complete(
    g: Seq<NodeModel>,
    seed_ids: Seq<NodeId>,
    mark: Seq<bool>,
    resolved: Seq<bool>,
    id: NodeId,
    f: nat,
)
    requires
        graph_wf(g),
        mark.len() == g.len(),
        resolved.len() == g.len(),
        mark_closed(g, seed_ids, mark),
        saturated(g, seed_ids, mark, resolved),
        forall|x: int| 0 <= x < g.len() && seeded(g, seed_ids, x as NodeId) ==> resolved[x],
        id < g.len(),
        mark[id as int],
        resolvable(g, seed_ids, id, f),
    ensures
        resolved[id as int],
    decreases f,
{
    if !seeded(g, seed_ids, id) {
        let j = producer(g, id)->Some_0;
        assert(0 <= j < g.len() && g[j] is Operator && op_of(g[j]).output == id);
        assert forall|k: int| 0 <= k < op_of(g[j]).inputs.len() implies avail(
            g,
            seed_ids,
            resolved,
            #[trigger] op_of(g[j]).inputs[k],
        ) by {
            let t = op_of(g[j]).inputs[k];
            assert(resolvable(g, seed_ids, t, (f - 1) as nat));
            if t < g.len() {
                assert(mark[t as int]);
                lemma_saturation_complete(g, seed_ids, mark, resolved, t, (f - 1) as nat);
            } else {
                lemma_no_producer_big_id(g, t);
                assert(seeded(g, seed_ids, t));
            }
        }
        if !resolved[id as int] {
            let k = choose|k: int|
                0 <= k < op_of(g[j]).inputs.len() && !avail(
                    g,
                    seed_ids,
                    resolved,
                    op_of(g[j]).inputs[k],
                );
            assert(avail(g, seed_ids, resolved, op_of(g[j]).inputs[k]));
        }
    }
}

/// Nothing is needed when every requested output is seeded.
proof fn lemma_not_needed_when_all_seeded(
    g: Seq<NodeModel>,
    seed_ids: Seq<NodeId>,
    outputs: Seq<NodeId>,
    id: NodeId,
    f: nat,
)
    requires
        forall|i: int| 0 <= i < outputs.len() ==> seeded(g, seed_ids, #[trigger] outputs[i]),
    ensures
        !needed(g, seed_ids, outputs, id, f),
    decreases f,
{
    if outputs.contains(id) {
        let w = choose|w: int| 0 <= w < outputs.len() && outputs[w] == id;
        assert(seeded(g, seed_ids, outputs[w]));
    }
    if f > 0 {
        assert forall|j: int|
            0 <= j < g.len() && g[j] is Operator && #[trigger] op_of(g[j]).inputs.contains(id)
                && !seeded(g, seed_ids, op_of(g[j]).output) implies !needed(
            g,
            seed_ids,
            outputs,
            op_of(g[j]).output,
            (f - 1) as nat,
        ) by {
            lemma_not_needed_when_all_seeded(g, seed_ids, outputs, op_of(g[j]).output, (f
                - 1) as nat);
        }
    }
}

impl Graph {
    /// Walk from an unavailable requested output to an unavailable value
    /// with no producer, or to a value on a dependency cycle; either way the
    /// returned id is not resolvable.
    fn missing_walk(
        &self,
        input_ids: &[NodeId],
        mark: &Vec<bool>,
        resolved: &Vec<bool>,
        start: NodeId,
        Ghost(outputs): Ghost<Seq<NodeId>>,
    ) -> (r: NodeId)
        requires
            mark@.len() == self@.len(),
            resolved@.len() == self@.len(),
            mark_closed(self@, input_ids@, mark@),
            saturated(self@, input_ids@, mark@, resolved@),
            forall|x: int|
                0 <= x < self@.len() && seeded(self@, input_ids@, x as NodeId) ==> resolved@[x],
            !avail(self@, input_ids@, resolved@, start),
            start < self@.len() ==> mark@[start as int],
            outputs.contains(start),
        ensures
            !resolvable_any(self@, input_ids@, r),
            needed_any(self@, input_ids@, outputs, r),
    {
        proof {
            use_type_invariant(self);
        }
        let ghost g = self@;
        let ghost seeds = input_ids@;
        let n = self.nodes.len();
        let mut walked = falses(n);
        let mut id = start;
        proof {
            // An unavailable requested output is itself needed.
            assert(!seeded(g, seeds, start));
            assert(needed(g, seeds, outputs, start, 0));
        }
        loop
            invariant
                g == self@,
                seeds == input_ids@,
                n == g.len(),
                graph_wf(g),
                walked@.len() == n,
                mark@.len() == n,
                resolved@.len() == n,
                mark_closed(g, seeds, mark@),
                saturated(g, seeds, mark@, resolved@),
                forall|x: int| 0 <= x < n && seeded(g, seeds, x as NodeId) ==> resolved@[x],
                !avail(g, seeds, resolved@, id),
                id < n ==> mark@[id as int],
                needed_any(g, seeds, outputs, id),
            decreases count_falses(walked@),
        {
            let producer_idx = self.find_producer(id);
            let jj = match producer_idx {
                None => {
                    // `id` is neither seeded nor produced by any operator.
                    proof {
                        assert forall|f: nat| !(#[trigger] resolvable(g, seeds, id, f)) by {
                            if resolvable(g, seeds, id, f) {
                                assert(seeded(g, seeds, id));
                            }
                        }
                    }
                    return id;
                },
                Some(jj) => jj,
            };
            if walked[id] {
                // A dependency cycle: `id` needs itself.
                proof {
                    assert forall|f: nat| !(#[trigger] resolvable(g, seeds, id, f)) by {
                        if resolvable(g, seeds, id, f) {
                            lemma_saturation_complete(g, seeds, mark@, resolved@, id, f);
                        }
                    }
                }
                return id;
            }
            let ghost walked0 = walked@;
            walked.set(id, true);
            proof {
                lemma_count_falses_update(walked0, id as int);
            }
            // `id` is a marked, unresolved operator output, so some input of
            // its producer is unavailable; move to the first such input.
            let node = &self.nodes[jj];
            let opn = match node {
                Node::Operator(opn) => opn,
                _ => {
                    proof {
                        assert(false);
                    }
                    return id;
                },
            };
            let num_inputs = opn.inputs.len();
            let mut k: usize = 0;
            let mut next: Option<NodeId> = None;
            while k < num_inputs
                invariant
                    g == self@,
                    seeds == input_ids@,
                    n == g.len(),
                    resolved@.len() == n,
                    mark@.len() == n,
                    jj < n,
                    g[jj as int] is Operator,
                    num_inputs == op_of(g[jj as int]).inputs.len(),
                    opn.inputs@ == op_of(g[jj as int]).inputs,
                    k <= num_inputs,
                    match next {
                        Some(t) => !avail(g, seeds, resolved@, t) && op_of(
                            g[jj as int],
                        ).inputs.contains(t),
                        None => forall|k2: int|
                            0 <= k2 < k ==> avail(
                                g,
                                seeds,
                                resolved@,
                                #[trigger] op_of(g[jj as int]).inputs[k2],
                            ),
                    },
                decreases num_inputs - k,
            {
                if matches!(next, None) {
                    let t = opn.inputs[k];
                    let av = if t < n {
                        resolved[t]
                    } else {
                        false
                    };
                    let av = av || self.is_seeded(input_ids, t);
                    if !av {
                        next = Some(t);
                        proof {
                            assert(op_of(g[jj as int]).inputs[k as int] == t);
                        }
                    }
                }
                k = k + 1;
            }
            match next {
                Some(t) => {
                    proof {
                        // The next id is marked too, by closure.
                        if t < n {
                            let w = choose|w: int|
                                0 <= w < op_of(g[jj as int]).inputs.len() && op_of(
                                    g[jj as int],
                                ).inputs[w] == t;
                            assert(mark@[t as int]);
                        }
                        // It feeds the producer of a needed, unseeded value,
                        // so it is needed one step deeper.
                        let f = choose|f: nat| #[trigger] needed(g, seeds, outputs, id, f);
                        assert(!seeded(g, seeds, id));
                        assert(needed(g, seeds, outputs, t, f + 1));
                    }
                    id = t;
                },
                None => {
                    proof {
                        // Saturation guarantees an unavailable input exists.
                        assert(!resolved@[id as int]);
                        let k2 = choose|k2: int|
                            0 <= k2 < op_of(g[jj as int]).inputs.len() && !avail(
                                g,
                                seeds,
                                resolved@,
                                op_of(g[jj as int]).inputs[k2],
                            );
                        assert(avail(g, seeds, resolved@, op_of(g[jj as int]).inputs[k2]));
                        assert(false);
                    }
                    return id;
                },
            }
        }
    }
}

impl Graph {
    /// Create an execution plan for `outputs` given the bound input ids
    /// `inputs`: the output ids of the operators to run, in an order in which
    /// every operator's inputs are available (bound, constant, or produced
    /// earlier in the plan) before it runs.
    ///
    /// Node ids in `outputs` which reference constant or bound input values
    /// are omitted from the plan. Planning fails, naming an unresolvable id,
    /// exactly when some requested output cannot be resolved to a bound
    /// input, a constant, or an operator whose inputs are transitively
    /// resolvable; a dependency cycle is reported the same way.
    pub fn create_plan(&self, inputs: &[NodeId], outputs: &[NodeId]) -> (r: Result<
        Vec<NodeId>,
        RunError,
    >)
        ensures
            match r {
                Ok(plan) => plan_valid(self@, inputs@, outputs@, plan@),
                Err(e) => {
                    &&& e is MissingValue
                    &&& !resolvable_any(self@, inputs@, e->MissingValue_0)
                    &&& needed_any(self@, inputs@, outputs@, e->MissingValue_0)
                    &&& exists|i: int|
                        0 <= i < outputs@.len() && !resolvable_any(
                            self@,
                            inputs@,
                            #[trigger] outputs@[i],
                        )
                },
            },
    {
        proof {
            use_type_invariant(self);
        }
        let ghost g = self@;
        let ghost seeds = inputs@;
        let ghost outs = outputs@;
        let n = self.nodes.len();

        let mark = self.mark_needed(inputs, outputs);

        // Seed the resolved set with the bound inputs and the constants.
        let mut resolved = falses(n);
        let mut bi: usize = 0;
        while bi < inputs.len()
            invariant
                bi <= seeds.len(),
                seeds == inputs@,
                g == self@,
                n == g.len(),
                resolved@.len() == n,
                forall|id: int| 0 <= id < n && #[trigger] resolved@[id] ==> seeded(g, seeds, id as NodeId),
                forall|k: int| 0 <= k < bi && seeds[k] < n ==> resolved@[#[trigger] seeds[k] as int],
            decreases seeds.len() - bi,
        {
            let id = inputs[bi];
            if id < n {
                resolved.set(id, true);
                proof {
                    assert(seeds[bi as int] == id);
                    assert(seeds.contains(id));
                }
            }
            bi = bi + 1;
        }
        let mut ci: usize = 0;
        while ci < n
            invariant
                ci <= n,
                seeds == inputs@,
                g == self@,
                n == g.len(),
                resolved@.len() == n,
                forall|id: int| 0 <= id < n && #[trigger] resolved@[id] ==> seeded(g, seeds, id as NodeId),
                forall|k: int| 0 <= k < seeds.len() && seeds[k] < n ==> resolved@[#[trigger] seeds[k] as int],
                forall|i: int| 0 <= i < ci && g[i] is Constant ==> resolved@[i],
            decreases n - ci,
        {
            match &self.nodes[ci] {
                Node::Constant(_) => {
                    resolved.set(ci, true);
                },
                _ => {},
            }
            ci = ci + 1;
        }
        proof {
            // The resolved set now holds exactly the seeded ids.
            assert forall|id: int|
                0 <= id < n implies ((#[trigger] resolved@[id]) <==> seeded(
                g,
                seeds,
                id as NodeId,
            )) by {
                if seeded(g, seeds, id as NodeId) && !(g[id] is Constant) {
                    let w = choose|w: int| 0 <= w < seeds.len() && seeds[w] == id as NodeId;
                    assert(resolved@[seeds[w] as int]);
                }
            }
            assert(plan_state_ok(g, seeds, mark@, resolved@, Seq::<NodeId>::empty()));
        }

        // Schedule marked operators whose inputs are available, until a full
        // pass makes no progress.
        let mut plan: Vec<NodeId> = Vec::new();
        let mut progressed = true;
        while progressed
            invariant
                g == self@,
                seeds == inputs@,
                outs == outputs@,
                n == g.len(),
                graph_wf(g),
                mark@.len() == n,
                mark_closed(g, seeds, mark@),
                forall|id: int|
                    0 <= id < n && mark@[id] ==> needed_any(g, seeds, outs, id as NodeId),
                plan_state_ok(g, seeds, mark@, resolved@, plan@),
                !progressed ==> saturated(g, seeds, mark@, resolved@),
            decreases count_falses(resolved@) + (if progressed { 1int } else { 0int }),
        {
            progressed = false;
            let ghost resolved_head = resolved@;
            let mut i: usize = 0;
            while i < n
                invariant
                    g == self@,
                    seeds == inputs@,
                    outs == outputs@,
                    n == g.len(),
                    graph_wf(g),
                    i <= n,
                    mark@.len() == n,
                    mark_closed(g, seeds, mark@),
                    forall|id: int|
                        0 <= id < n && mark@[id] ==> needed_any(g, seeds, outs, id as NodeId),
                    plan_state_ok(g, seeds, mark@, resolved@, plan@),
                    count_falses(resolved@) <= count_falses(resolved_head),
                    progressed ==> count_falses(resolved@) < count_falses(resolved_head),
                    !progressed ==> resolved@ == resolved_head,
                    !progressed ==> forall|j: int|
                        0 <= j < i && g[j] is Operator && mark@[(#[trigger] op_of(
                            g[j],
                        ).output) as int] && !resolved@[op_of(g[j]).output as int]
                            ==> exists|k: int|
                            0 <= k < op_of(g[j]).inputs.len() && !avail(
                                g,
                                seeds,
                                resolved@,
                                #[trigger] op_of(g[j]).inputs[k],
                            ),
                decreases n - i,
            {
                let node = &self.nodes[i];
                match node {
                    Node::Operator(opn) => {
                        let out = opn.output;
                        proof {
                            assert(g[i as int] is Operator);
                            assert(op_of(g[i as int]).output == out);
                            assert(out < n);
                        }
                        if mark[out] && !resolved[out] {
                            // Check that every input is available.
                            let num_inputs = opn.inputs.len();
                            let mut all = true;
                            let mut k: usize = 0;
                            while k < num_inputs
                                invariant
                                    g == self@,
                                    seeds == inputs@,
                                    n == g.len(),
                                    resolved@.len() == n,
                                    i < n,
                                    g[i as int] is Operator,
                                    num_inputs == op_of(g[i as int]).inputs.len(),
                                    opn.inputs@ == op_of(g[i as int]).inputs,
                                    k <= num_inputs,
                                    all ==> forall|k2: int|
                                        0 <= k2 < k ==> avail(
                                            g,
                                            seeds,
                                            resolved@,
                                            #[trigger] op_of(g[i as int]).inputs[k2],
                                        ),
                                    !all ==> exists|k2: int|
                                        0 <= k2 < op_of(g[i as int]).inputs.len() && !avail(
                                            g,
                                            seeds,
                                            resolved@,
                                            #[trigger] op_of(g[i as int]).inputs[k2],
                                        ),
                                decreases num_inputs - k,
                            {
                                let t = opn.inputs[k];
                                let av_resolved = t < n && resolved[t];
                                let av = av_resolved || self.is_seeded(inputs, t);
                                proof {
                                    assert(op_of(g[i as int]).inputs[k as int] == t);
                                }
                                if !av {
                                    all = false;
                                }
                                k = k + 1;
                            }
                            if all {
                                // Schedule this operator.
                                let ghost plan0 = plan@;
                                let ghost resolved0 = resolved@;
                                plan.push(out);
                                resolved.set(out, true);
                                progressed = true;
                                proof {
                                    lemma_count_falses_update(resolved0, out as int);
                                    lemma_producer_unique(g, out, i as int);
                                    assert(!plan0.contains(out));
                                    // The resolved set still matches the plan.
                                    assert forall|id: int|
                                        0 <= id < n implies ((#[trigger] resolved@[id]) <==> (
                                    seeded(g, seeds, id as NodeId) || plan@.contains(
                                        id as NodeId,
                                    ))) by {
                                        lemma_push_contains(plan0, out, id as NodeId);
                                    }
                                    assert forall|k1: int, k2: int|
                                        0 <= k1 < k2 < plan@.len() implies plan@[k1]
                                            != plan@[k2] by {
                                        if k2 == plan0.len() {
                                            assert(plan@[k1] == plan0[k1]);
                                            assert(plan0.contains(plan0[k1]));
                                        } else {
                                            assert(plan@[k1] == plan0[k1]);
                                            assert(plan@[k2] == plan0[k2]);
                                        }
                                    }
                                    // Scheduled prefix facts carry over, and
                                    // the new entry's inputs are available.
                                    assert forall|k1: int, t: int|
                                        0 <= k1 < plan@.len() && 0 <= t < plan_op(
                                            g,
                                            plan@,
                                            k1,
                                        ).inputs.len() implies seeded(
                                        g,
                                        seeds,
                                        #[trigger] plan_op(g, plan@, k1).inputs[t],
                                    ) || (exists|j: int|
                                        0 <= j < k1 && plan@[j] == plan_op(g, plan@, k1).inputs[t])
                                        by {
                                        if k1 < plan0.len() {
                                            assert(plan@[k1] == plan0[k1]);
                                            assert(plan_op(g, plan@, k1) == plan_op(g, plan0, k1));
                                            if !seeded(g, seeds, plan_op(g, plan0, k1).inputs[t]) {
                                                let j = choose|j: int|
                                                    0 <= j < k1 && plan0[j] == plan_op(
                                                        g,
                                                        plan0,
                                                        k1,
                                                    ).inputs[t];
                                                assert(plan@[j] == plan_op(g, plan@, k1).inputs[t]);
                                            }
                                        } else {
                                            assert(plan@[k1] == out);
                                            assert(plan_op(g, plan@, k1) == op_of(g[i as int]));
                                            let tv = plan_op(g, plan@, k1).inputs[t];
                                            assert(avail(g, seeds, resolved0, tv));
                                            if !seeded(g, seeds, tv) {
                                                assert(resolved0[tv as int]);
                                                assert(plan0.contains(tv));
                                                let j = choose|j: int|
                                                    0 <= j < plan0.len() && plan0[j] == tv;
                                                assert(plan@[j] == tv);
                                            }
                                        }
                                    }
                                    // The new entry is resolvable one step
                                    // beyond its deepest input.
                                    assert forall|k1: int|
                                        0 <= k1 < plan@.len() implies resolvable(
                                        g,
                                        seeds,
                                        #[trigger] plan@[k1],
                                        (k1 + 1) as nat,
                                    ) by {
                                        if k1 < plan0.len() {
                                            assert(plan@[k1] == plan0[k1]);
                                        } else {
                                            assert(plan@[k1] == out);
                                            assert forall|k2: int|
                                                0 <= k2 < op_of(g[i as int]).inputs.len() implies
                                                resolvable(
                                                g,
                                                seeds,
                                                #[trigger] op_of(g[i as int]).inputs[k2],
                                                k1 as nat,
                                            ) by {
                                                let tv = op_of(g[i as int]).inputs[k2];
                                                assert(avail(g, seeds, resolved0, tv));
                                                if seeded(g, seeds, tv) {
                                                    assert(resolvable(g, seeds, tv, k1 as nat));
                                                } else {
                                                    assert(plan0.contains(tv));
                                                    let j = choose|j: int|
                                                        0 <= j < plan0.len() && plan0[j] == tv;
                                                    assert(resolvable(
                                                        g,
                                                        seeds,
                                                        tv,
                                                        (j + 1) as nat,
                                                    ));
                                                    lemma_resolvable_mono(
                                                        g,
                                                        seeds,
                                                        tv,
                                                        (j + 1) as nat,
                                                        k1 as nat,
                                                    );
                                                }
                                            }
                                        }
                                    }
                                }
                            }
                        }
                    },
                    _ => {},
                }
                i = i + 1;
            }
        }

        // Every requested output must now be available.
        let mut oi: usize = 0;
        while oi < outputs.len()
            invariant
                g == self@,
                seeds == inputs@,
                outs == outputs@,
                n == g.len(),
                graph_wf(g),
                mark@.len() == n,
                mark_closed(g, seeds, mark@),
                saturated(g, seeds, mark@, resolved@),
                forall|i2: int|
                    0 <= i2 < outs.len() && outs[i2] < n && !seeded(g, seeds, outs[i2])
                        ==> mark@[outs[i2] as int],
                plan_state_ok(g, seeds, mark@, resolved@, plan@),
                oi <= outs.len(),
                forall|i2: int| 0 <= i2 < oi ==> avail(g, seeds, resolved@, #[trigger] outs[i2]),
            decreases outs.len() - oi,
        {
            let o = outputs[oi];
            let av = (o < n && resolved[o]) || self.is_seeded(inputs, o);
            if !av {
                proof {
                    // The unavailable output is itself unresolvable.
                    assert forall|f: nat| !(#[trigger] resolvable(g, seeds, o, f)) by {
                        if resolvable(g, seeds, o, f) {
                            if o < n {
                                lemma_saturation_complete(g, seeds, mark@, resolved@, o, f);
                            } else {
                                lemma_no_producer_big_id(g, o);
                            }
                        }
                    }
                    assert(outs[oi as int] == o);
                }
                let bad = self.missing_walk(inputs, &mark, &resolved, o, Ghost(outs));
                return Err(RunError::MissingValue(bad));
            }
            oi = oi + 1;
        }

        proof {
            // All plan promises hold of the final plan.
            assert forall|i2: int|
                0 <= i2 < outs.len() implies seeded(g, seeds, #[trigger] outs[i2])
                    || plan@.contains(outs[i2]) by {
                assert(avail(g, seeds, resolved@, outs[i2]));
            }
            assert forall|k: int| 0 <= k < plan@.len() implies needed_any(
                g,
                seeds,
                outs,
                #[trigger] plan@[k],
            ) by {
                assert(mark@[plan@[k] as int]);
            }
            if forall|i2: int| 0 <= i2 < outs.len() ==> seeded(g, seeds, #[trigger] outs[i2]) {
                if plan@.len() > 0 {
                    assert(needed_any(g, seeds, outs, plan@[0]));
                    let f = choose|f: nat| #[trigger] needed(g, seeds, outs, plan@[0], f);
                    lemma_not_needed_when_all_seeded(g, seeds, outs, plan@[0], f);
                }
            }
            assert(plan_valid(g, seeds, outs, plan@));
        }
        Ok(plan)
    }
}

// ---------------------------------------------------------------------------
// Evaluation specification
// ---------------------------------------------------------------------------

/// The models of a list of input bindings.
pub open spec fn bind_models(s: Seq<(NodeId, Tensor<i32>)>) -> Seq<(NodeId, TensorModel<i32>)> {
    s.map_values(|p: (NodeId, Tensor<i32>)| (p.0, p.1@))
}

/// The ids of a list of input bindings.
pub open spec fn bind_ids(binds: Seq<(NodeId, TensorModel<i32>)>) -> Seq<NodeId> {
    binds.map_values(|p: (NodeId, TensorModel<i32>)| p.0)
}

/// The value bound to `id`, if any; a later binding of the same id wins.
pub open spec fn binding_lookup(
    binds: Seq<(NodeId, TensorModel<i32>)>,
    id: NodeId,
) -> Option<TensorModel<i32>>
    decreases binds.len(),
{
    if binds.len() == 0 {
        None
    } else if binds.last().0 == id {
        Some(binds.last().1)
    } else {
        binding_lookup(binds.drop_last(), id)
    }
}

/// The value of `id` that needs no computation: the constant node's tensor,
/// else the bound input. A constant wins over a binding of the same id.
pub open spec fn seed_value(
    g: Seq<NodeModel>,
    binds: Seq<(NodeId, TensorModel<i32>)>,
    id: NodeId,
) -> Option<TensorModel<i32>> {
    if id < g.len() && g[id as int] is Constant {
        Some(g[id as int]->Constant_0)
    } else {
        binding_lookup(binds, id)
    }
}

/// A binding lookup succeeds exactly for the bound ids.
pub proof fn lemma_binding_lookup_ids(binds: Seq<(NodeId, TensorModel<i32>)>, id: NodeId)
    ensures
        binding_lookup(binds, id) is Some <==> bind_ids(binds).contains(id),
    decreases binds.len(),
{
    if binds.len() > 0 {
        if binds.last().0 == id {
            assert(bind_ids(binds)[binds.len() - 1] == id);
        } else {
            lemma_binding_lookup_ids(binds.drop_last(), id);
            assert(bind_ids(binds.drop_last()) =~= bind_ids(binds).drop_last());
            if bind_ids(binds).contains(id) {
                let w = choose|w: int|
                    0 <= w < bind_ids(binds).len() && bind_ids(binds)[w] == id;
                assert(w < binds.len() - 1);
                assert(bind_ids(binds.drop_last())[w] == id);
            }
            if bind_ids(binds.drop_last()).contains(id) {
                let w = choose|w: int|
                    0 <= w < bind_ids(binds.drop_last()).len() && bind_ids(binds.drop_last())[w]
                        == id;
                assert(bind_ids(binds)[w] == id);
            }
        }
    }
}

/// A seed value exists exactly for the seeded ids.
pub proof fn lemma_seed_value_seeded(
    g: Seq<NodeModel>,
    binds: Seq<(NodeId, TensorModel<i32>)>,
    id: NodeId,
)
    ensures
        seed_value(g, binds, id) is Some <==> seeded(g, bind_ids(binds), id),
{
    lemma_binding_lookup_ids(binds, id);
}

/// The fuel that suffices to evaluate any resolvable value of a graph.
pub open spec fn eval_fuel(g: Seq<NodeModel>) -> nat {
    (g.len() + 1) as nat
}

/// The value of node `id` of the graph under the given input bindings: its
/// seed value if it has one; otherwise the result of running the producing
/// operator on the values of its inputs. Produces the planning or operator
/// error encountered first, in input order.
pub open spec fn eval_node(
    g: Seq<NodeModel>,
    binds: Seq<(NodeId, TensorModel<i32>)>,
    id: NodeId,
    fuel: nat,
) -> Result<TensorModel<i32>, RunError>
    decreases fuel, 0nat, 0nat,
{
    match seed_value(g, binds, id) {
        Some(t) => Ok(t),
        None => {
            if fuel == 0 {
                Err(RunError::MissingValue(id))
            } else {
                match producer(g, id) {
                    None => Err(RunError::MissingValue(id)),
                    Some(j) => match eval_inputs(g, binds, op_of(g[j]).inputs, (fuel - 1) as nat) {
                        Err(e) => Err(e),
                        Ok(vals) => match op_of(g[j]).operator.run_spec(vals) {
                            Ok(t) => Ok(t),
                            Err(e) => Err(RunError::OperatorError { node: id, error: e }),
                        },
                    },
                }
            }
        },
    }
}

/// The values of a list of node ids, evaluated left to right.
pub open spec fn eval_inputs(
    g: Seq<NodeModel>,
    binds: Seq<(NodeId, TensorModel<i32>)>,
    ids: Seq<NodeId>,
    fuel: nat,
) -> Result<Seq<TensorModel<i32>>, RunError>
    decreases fuel, 1nat, ids.len(),
{
    if ids.len() == 0 {
        Ok(Seq::empty())
    } else {
        match eval_node(g, binds, ids[0], fuel) {
            Err(e) => Err(e),
            Ok(t) => match eval_inputs(g, binds, ids.skip(1), fuel) {
                Err(e) => Err(e),
                Ok(rest) => Ok(seq![t] + rest),
            },
        }
    }
}

/// A successful evaluation stays the same when the fuel grows.
pub proof fn lemma_eval_node_mono(
    g: Seq<NodeModel>,
    binds: Seq<(NodeId, TensorModel<i32>)>,
    id: NodeId,
    fuel: nat,
    more: nat,
    v: TensorModel<i32>,
)
    requires
        eval_node(g, binds, id, fuel) == Ok::<TensorModel<i32>, RunError>(v),
        fuel <= more,
    ensures
        eval_node(g, binds, id, more) == Ok::<TensorModel<i32>, RunError>(v),
    decreases fuel, 0nat, 0nat,
{
    if seed_value(g, binds, id) is None {
        let j = producer(g, id)->Some_0;
        let vals = eval_inputs(g, binds, op_of(g[j]).inputs, (fuel - 1) as nat)->Ok_0;
        lemma_eval_inputs_mono(
            g,
            binds,
            op_of(g[j]).inputs,
            (fuel - 1) as nat,
            (more - 1) as nat,
            vals,
        );
    }
}

/// A successful list evaluation stays the same when the fuel grows.
pub proof fn lemma_eval_inputs_mono(
    g: Seq<NodeModel>,
    binds: Seq<(NodeId, TensorModel<i32>)>,
    ids: Seq<NodeId>,
    fuel: nat,
    more: nat,
    vals: Seq<TensorModel<i32>>,
)
    requires
        eval_inputs(g, binds, ids, fuel) == Ok::<Seq<TensorModel<i32>>, RunError>(vals),
        fuel <= more,
    ensures
        eval_inputs(g, binds, ids, more) == Ok::<Seq<TensorModel<i32>>, RunError>(vals),
    decreases fuel, 1nat, ids.len(),
{
    if ids.len() > 0 {
        let t = eval_node(g, binds, ids[0], fuel)->Ok_0;
        lemma_eval_node_mono(g, binds, ids[0], fuel, more, t);
        let rest = eval_inputs(g, binds, ids.skip(1), fuel)->Ok_0;
        lemma_eval_inputs_mono(g, binds, ids.skip(1), fuel, more, rest);
    }
}

/// A successful list evaluation gives each id's own value.
pub proof fn lemma_eval_inputs_index(
    g: Seq<NodeModel>,
    binds: Seq<(NodeId, TensorModel<i32>)>,
    ids: Seq<NodeId>,
    fuel: nat,
    vals: Seq<TensorModel<i32>>,
)
    requires
        eval_inputs(g, binds, ids, fuel) == Ok::<Seq<TensorModel<i32>>, RunError>(vals),
    ensures
        vals.len() == ids.len(),
        forall|w: int|
            0 <= w < ids.len() ==> eval_node(g, binds, #[trigger] ids[w], fuel) == Ok::<
                TensorModel<i32>,
                RunError,
            >(vals[w]),
    decreases ids.len(),
{
    if ids.len() > 0 {
        let rest = eval_inputs(g, binds, ids.skip(1), fuel)->Ok_0;
        lemma_eval_inputs_index(g, binds, ids.skip(1), fuel, rest);
        assert forall|w: int|
            0 <= w < ids.len() implies eval_node(g, binds, #[trigger] ids[w], fuel) == Ok::<
            TensorModel<i32>,
            RunError,
        >(vals[w]) by {
            if w > 0 {
                assert(ids.skip(1)[w - 1] == ids[w]);
                assert(rest[w - 1] == vals[w]);
            }
        }
    }
}

/// Pointwise successful evaluations make the list evaluation succeed.
pub proof fn lemma_eval_inputs_construct(
    g: Seq<NodeModel>,
    binds: Seq<(NodeId, TensorModel<i32>)>,
    ids: Seq<NodeId>,
    fuel: nat,
    vals: Seq<TensorModel<i32>>,
)
    requires
        vals.len() == ids.len(),
        forall|w: int|
            0 <= w < ids.len() ==> eval_node(g, binds, #[trigger] ids[w], fuel) == Ok::<
                TensorModel<i32>,
                RunError,
            >(vals[w]),
    ensures
        eval_inputs(g, binds, ids, fuel) == Ok::<Seq<TensorModel<i32>>, RunError>(vals),
    decreases ids.len(),
{
    if ids.len() == 0 {
        assert(vals =~= Seq::<TensorModel<i32>>::empty());
    } else {
        assert(eval_node(g, binds, ids[0], fuel) == Ok::<TensorModel<i32>, RunError>(vals[0]));
        assert forall|w: int|
            0 <= w < ids.skip(1).len() implies eval_node(
            g,
            binds,
            #[trigger] ids.skip(1)[w],
            fuel,
        ) == Ok::<TensorModel<i32>, RunError>(vals.skip(1)[w]) by {
            assert(ids.skip(1)[w] == ids[w + 1]);
            assert(vals.skip(1)[w] == vals[w + 1]);
        }
        lemma_eval_inputs_construct(g, binds, ids.skip(1), fuel, vals.skip(1));
        assert(seq![vals[0]] + vals.skip(1) =~= vals);
    }
}

/// A value that evaluates successfully is resolvable.
pub proof fn lemma_eval_ok_resolvable(
    g: Seq<NodeModel>,
    binds: Seq<(NodeId, TensorModel<i32>)>,
    id: NodeId,
    fuel: nat,
)
    requires
        eval_node(g, binds, id, fuel) is Ok,
    ensures
        resolvable(g, bind_ids(binds), id, fuel),
    decreases fuel,
{
    lemma_seed_value_seeded(g, binds, id);
    if seed_value(g, binds, id) is None {
        let j = producer(g, id)->Some_0;
        let vals = eval_inputs(g, binds, op_of(g[j]).inputs, (fuel - 1) as nat)->Ok_0;
        lemma_eval_inputs_index(g, binds, op_of(g[j]).inputs, (fuel - 1) as nat, vals);
        assert forall|k: int| 0 <= k < op_of(g[j]).inputs.len() implies resolvable(
            g,
            bind_ids(binds),
            #[trigger] op_of(g[j]).inputs[k],
            (fuel - 1) as nat,
        ) by {
            lemma_eval_ok_resolvable(g, binds, op_of(g[j]).inputs[k], (fuel - 1) as nat);
        }
    }
}

/// When every requested output evaluates successfully, so does every needed
/// value.
pub proof fn lemma_needed_eval(
    g: Seq<NodeModel>,
    binds: Seq<(NodeId, TensorModel<i32>)>,
    outputs: Seq<NodeId>,
    id: NodeId,
    f: nat,
)
    requires
        graph_wf(g),
        needed(g, bind_ids(binds), outputs, id, f),
        forall|i: int|
            0 <= i < outputs.len() ==> eval_node(g, binds, #[trigger] outputs[i], eval_fuel(g))
                is Ok,
    ensures
        eval_node(g, binds, id, eval_fuel(g)) is Ok,
    decreases f,
{
    let seeds = bind_ids(binds);
    if outputs.contains(id) && !seeded(g, seeds, id) {
        let w = choose|w: int| 0 <= w < outputs.len() && outputs[w] == id;
        assert(eval_node(g, binds, outputs[w], eval_fuel(g)) is Ok);
    } else {
        let j = choose|j: int|
            0 <= j < g.len() && g[j] is Operator && #[trigger] op_of(g[j]).inputs.contains(id)
                && !seeded(g, seeds, op_of(g[j]).output) && needed(
                g,
                seeds,
                outputs,
                op_of(g[j]).output,
                (f - 1) as nat,
            );
        let out = op_of(g[j]).output;
        lemma_needed_eval(g, binds, outputs, out, (f - 1) as nat);
        lemma_seed_value_seeded(g, binds, out);
        lemma_producer_unique(g, out, j);
        let vals = eval_inputs(g, binds, op_of(g[j]).inputs, (eval_fuel(g) - 1) as nat)->Ok_0;
        lemma_eval_inputs_index(g, binds, op_of(g[j]).inputs, (eval_fuel(g) - 1) as nat, vals);
        let w = choose|w: int|
            0 <= w < op_of(g[j]).inputs.len() && op_of(g[j]).inputs[w] == id;
        let v = vals[w];
        lemma_eval_node_mono(g, binds, id, (eval_fuel(g) - 1) as nat, eval_fuel(g), v);
    }
}

/// One per-operator timing record collected while a graph executes with
/// timing enabled.
pub struct OpTiming {
    /// The operator's output node id.
    pub node: NodeId,
    /// The operator's display name.
    pub name: &'static str,
    /// The shapes of the operator's inputs.
    pub input_shapes: Vec<Vec<usize>>,
    /// Elapsed wall-clock time in whole milliseconds.
    pub elapsed_ms: u128,
}

/// What `run` promises of its result: on success, one tensor per requested
/// output, each the value of that node under the bindings; on failure, either
/// an unresolvable id or a failing operator, and some requested output that
/// cannot be evaluated. The promised values do not depend on the run options.
pub open spec fn run_postcondition(
    g: Seq<NodeModel>,
    binds: Seq<(NodeId, TensorModel<i32>)>,
    outputs: Seq<NodeId>,
    r: Result<Seq<TensorModel<i32>>, RunError>,
) -> bool {
    match r {
        Ok(outs) => {
            &&& outs.len() == outputs.len()
            &&& forall|i: int|
                0 <= i < outputs.len() ==> eval_node(g, binds, #[trigger] outputs[i], eval_fuel(g))
                    == Ok::<TensorModel<i32>, RunError>(outs[i])
        },
        Err(e) => {
            &&& match e {
                RunError::MissingValue(x) => !resolvable_any(g, bind_ids(binds), x)
                    && needed_any(g, bind_ids(binds), outputs, x),
                RunError::OperatorError { node, error } => eval_node(g, binds, node, eval_fuel(g))
                    == Err::<TensorModel<i32>, RunError>(
                    RunError::OperatorError { node, error },
                ),
            }
            &&& exists|i: int|
                0 <= i < outputs.len() && !(eval_node(g, binds, #[trigger] outputs[i], eval_fuel(g))
                    is Ok)
        },
    }
}

/// Whether the given run options ask for timing diagnostics.
pub open spec fn timing_enabled(opts: Option<RunOptions>) -> bool {
    match opts {
        Some(o) => o.timing,
        None => false,
    }
}

/// A sequence of distinct values below `n` has at most `n` entries.
proof fn lemma_distinct_bounded(s: Seq<NodeId>, n: nat)
    requires
        forall|k1: int, k2: int| 0 <= k1 < k2 < s.len() ==> s[k1] != s[k2],
        forall|k: int| 0 <= k < s.len() ==> (#[trigger] s[k]) < n,
    ensures
        s.len() <= n,
{
    broadcast use vstd::set::group_set_axioms;

    let si = s.map_values(|x: NodeId| x as int);
    assert(si.no_duplicates()) by {
        assert forall|k1: int, k2: int|
            0 <= k1 < si.len() && 0 <= k2 < si.len() && k1 != k2 implies si[k1] != si[k2] by {
            if k1 < k2 {
                assert(s[k1] != s[k2]);
            } else {
                assert(s[k2] != s[k1]);
            }
        }
    }
    si.unique_seq_to_set();
    assert(si.to_set().subset_of(vstd::set_lib::set_int_range(0, n as int))) by {
        assert forall|x: int| si.to_set().contains(x) implies vstd::set_lib::set_int_range(
            0,
            n as int,
        ).contains(x) by {
            let w = choose|w: int| 0 <= w < si.len() && si[w] == x;
            assert(s[w] < n);
        }
    }
    vstd::set_lib::lemma_int_range(0, n as int);
    vstd::set_lib::lemma_len_subset(si.to_set(), vstd::set_lib::set_int_range(0, n as int));
}

/// A vector of `n` empty slots.
fn nones(n: usize) -> (r: Vec<Option<Tensor<i32>>>)
    ensures
        r@.len() == n,
        forall|i: int| 0 <= i < n ==> r@[i] is None,
{
    let mut v: Vec<Option<Tensor<i32>>> = Vec::new();
    let mut i: usize = 0;
    while i < n
        invariant
            i <= n,
            v@.len() == i,
            forall|j: int| 0 <= j < i ==> v@[j] is None,
        decreases n - i,
    {
        v.push(None);
        i = i + 1;
    }
    v
}

impl Graph {
    /// Look up the value of `id` among the constant nodes and the input
    /// bindings. A constant wins over a binding of the same id; a later
    /// binding wins over an earlier one.
    fn lookup_seed(&self, bindings: &[(NodeId, Tensor<i32>)], id: NodeId) -> (r: Option<
        Tensor<i32>,
    >)
        ensures
            match r {
                Some(t) => seed_value(self@, bind_models(bindings@), id) == Some(t@),
                None => seed_value(self@, bind_models(bindings@), id) is None,
            },
    {
        let ghost binds = bind_models(bindings@);
        if id < self.nodes.len() {
            match &self.nodes[id] {
                Node::Constant(t) => {
                    return Some(t.duplicate());
                },
                _ => {
                    proof {
                        assert(!(self@[id as int] is Constant));
                    }
                },
            }
        }
        let mut i: usize = bindings.len();
        proof {
            assert(binds.take(bindings@.len() as int) =~= binds);
        }
        while i > 0
            invariant
                i <= bindings@.len(),
                binds == bind_models(bindings@),
                id < self@.len() ==> !(self@[id as int] is Constant),
                binding_lookup(binds, id) == binding_lookup(binds.take(i as int), id),
            decreases i,
        {
            i = i - 1;
            proof {
                assert(binds.take(i + 1).last() == binds[i as int]);
                assert(binds.take(i + 1).drop_last() =~= binds.take(i as int));
            }
            if bindings[i].0 == id {
                return Some(bindings[i].1.duplicate());
            }
        }
        proof {
            assert(binds.take(0) =~= Seq::<(NodeId, TensorModel<i32>)>::empty());
        }
        None
    }

    /// Compute the requested output values, and when `opts` asks for timing,
    /// one timing record per executed operator.
    ///
    /// See [`Graph::run`]; the returned values are the same and do not depend
    /// on the options. With timing disabled no records are returned; with it
    /// enabled, each record names a distinct executed operator by its output
    /// id: one that the graph holds, that is neither bound nor constant, and
    /// that is needed for the requested outputs. Only the elapsed time in a
    /// record is outside the contract.
    pub fn run_with_timing(
        &self,
        inputs: &[(NodeId, Tensor<i32>)],
        outputs: &[NodeId],
        opts: Option<RunOptions>,
    ) -> (r: Result<(Vec<Tensor<i32>>, Vec<OpTiming>), RunError>)
        ensures
            run_postcondition(
                self@,
                bind_models(inputs@),
                outputs@,
                match r {
                    Ok(p) => Ok(crate::ops::models(p.0@)),
                    Err(e) => Err(e),
                },
            ),
            match r {
                Ok(p) => {
                    &&& (!timing_enabled(opts) ==> p.1@.len() == 0)
                    &&& forall|j: int|
                        0 <= j < p.1@.len() ==> {
                            &&& producer(self@, (#[trigger] p.1@[j]).node) is Some
                            &&& !seeded(
                                self@,
                                bind_ids(bind_models(inputs@)),
                                p.1@[j].node,
                            )
                            &&& needed_any(
                                self@,
                                bind_ids(bind_models(inputs@)),
                                outputs@,
                                p.1@[j].node,
                            )
                        }
                    &&& forall|j1: int, j2: int|
                        0 <= j1 < j2 < p.1@.len() ==> p.1@[j1].node != p.1@[j2].node
                },
                Err(e) => true,
            },
    {
        proof {
            use_type_invariant(self);
        }
        let ghost g = self@;
        let ghost binds = bind_models(inputs@);
        let ghost outs = outputs@;
        let n = self.nodes.len();

        let timing = match opts {
            Some(o) => o.timing,
            None => false,
        };
        proof {
            assert(timing == timing_enabled(opts));
        }

        // Plan over the binding ids.
        let mut input_ids: Vec<NodeId> = Vec::new();
        let mut bi: usize = 0;
        while bi < inputs.len()
            invariant
                bi <= inputs@.len(),
                input_ids@.len() == bi,
                forall|k: int| 0 <= k < bi ==> input_ids@[k] == inputs@[k].0,
            decreases inputs@.len() - bi,
        {
            input_ids.push(inputs[bi].0);
            bi = bi + 1;
        }
        proof {
            assert(input_ids@ =~= bind_ids(binds));
        }
        let ghost seeds = bind_ids(binds);

        let plan = match self.create_plan(input_ids.as_slice(), outputs) {
            Ok(plan) => plan,
            Err(e) => {
                proof {
                    let i = choose|i: int|
                        0 <= i < outs.len() && !resolvable_any(g, seeds, #[trigger] outs[i]);
                    assert(!(eval_node(g, binds, outs[i], eval_fuel(g)) is Ok)) by {
                        if eval_node(g, binds, outs[i], eval_fuel(g)) is Ok {
                            lemma_eval_ok_resolvable(g, binds, outs[i], eval_fuel(g));
                        }
                    }
                }
                return Err(e);
            },
        };
        proof {
            lemma_distinct_bounded(plan@, n as nat);
        }

        // Execute the plan in order, keeping operator outputs in a transient
        // table.
        let mut temp = nones(n);
        let mut timings: Vec<OpTiming> = Vec::new();
        let plan_len = plan.len();
        let mut k: usize = 0;
        while k < plan_len
            invariant
                g == self@,
                binds == bind_models(inputs@),
                outs == outputs@,
                seeds == bind_ids(binds),
                n == g.len(),
                graph_wf(g),
                plan_valid(g, seeds, outs, plan@),
                plan_len == plan@.len(),
                plan_len <= n,
                k <= plan_len,
                temp@.len() == n,
                forall|j: int|
                    0 <= j < k ==> (#[trigger] temp@[plan@[j] as int]) is Some && eval_node(
                        g,
                        binds,
                        plan@[j],
                        (j + 1) as nat,
                    ) == Ok::<TensorModel<i32>, RunError>(temp@[plan@[j] as int]->Some_0@),
                !timing ==> timings@.len() == 0,
                timing ==> timings@.len() == k,
                forall|j: int| 0 <= j < timings@.len() ==> (#[trigger] timings@[j]).node == plan@[j],
            decreases plan_len - k,
        {
            let out = plan[k];
            let producer_idx = match self.find_producer(out) {
                Some(j) => j,
                None => {
                    proof {
                        assert(producer(g, plan@[k as int]) is Some);
                        assert(false);
                    }
                    return Err(RunError::MissingValue(out));
                },
            };
            let node = &self.nodes[producer_idx];
            let opn = match node {
                Node::Operator(opn) => opn,
                _ => {
                    proof {
                        assert(false);
                    }
                    return Err(RunError::MissingValue(out));
                },
            };
            proof {
                lemma_producer_unique(g, out, producer_idx as int);
                assert(plan_op(g, plan@, k as int) == op_of(g[producer_idx as int]));
            }

            // Gather the operator's inputs: each is a constant, a bound
            // input, or the output of an operator that ran earlier.
            let num_inputs = opn.inputs.len();
            let mut vals: Vec<Tensor<i32>> = Vec::new();
            let mut w: usize = 0;
            while w < num_inputs
                invariant
                    g == self@,
                    binds == bind_models(inputs@),
                    seeds == bind_ids(binds),
                    n == g.len(),
                    k < plan_len,
                    plan_len == plan@.len(),
                    plan_len <= n,
                    plan_valid(g, seeds, outs, plan@),
                    outs == outputs@,
                    temp@.len() == n,
                    producer_idx < n,
                    g[producer_idx as int] is Operator,
                    opn.inputs@ == op_of(g[producer_idx as int]).inputs,
                    num_inputs == opn.inputs@.len(),
                    plan_op(g, plan@, k as int) == op_of(g[producer_idx as int]),
                    forall|j: int|
                        0 <= j < k ==> (#[trigger] temp@[plan@[j] as int]) is Some && eval_node(
                            g,
                            binds,
                            plan@[j],
                            (j + 1) as nat,
                        ) == Ok::<TensorModel<i32>, RunError>(temp@[plan@[j] as int]->Some_0@),
                    w <= num_inputs,
                    vals@.len() == w,
                    forall|p: int|
                        0 <= p < w ==> eval_node(
                            g,
                            binds,
                            #[trigger] opn.inputs@[p],
                            k as nat,
                        ) == Ok::<TensorModel<i32>, RunError>(vals@[p]@),
                decreases num_inputs - w,
            {
                let t = opn.inputs[w];
                match self.lookup_seed(inputs, t) {
                    Some(v) => {
                        vals.push(v);
                    },
                    None => {
                        proof {
                            lemma_seed_value_seeded(g, binds, t);
                            assert(!seeded(g, seeds, t));
                            // By the plan's ordering promise the input was
                            // produced earlier.
                            let tw = plan_op(g, plan@, k as int).inputs[w as int];
                            assert(seeded(g, seeds, tw) || (exists|j: int|
                                0 <= j < k && plan@[j] == tw));
                        }
                        let ghost j = choose|j: int| 0 <= j < k && plan@[j] == t;
                        proof {
                            assert(temp@[t as int] is Some);
                            assert(t < n);
                        }
                        if t < n {
                            match &temp[t] {
                                Some(v) => {
                                    let d = v.duplicate();
                                    proof {
                                        lemma_eval_node_mono(
                                            g,
                                            binds,
                                            t,
                                            (j + 1) as nat,
                                            k as nat,
                                            d@,
                                        );
                                    }
                                    vals.push(d);
                                },
                                None => {
                                    proof {
                                        assert(false);
                                    }
                                    return Err(RunError::MissingValue(t));
                                },
                            }
                        } else {
                            proof {
                                assert(false);
                            }
                            return Err(RunError::MissingValue(t));
                        }
                    },
                }
                proof {
                    assert(opn.inputs@[w as int] == t);
                }
                w = w + 1;
            }

            let start = if timing {
                Some(crate::timing::instant_now())
            } else {
                None
            };

            let result = opn.operator.run(vals.as_slice());

            match start {
                Some(t0) => {
                    // Record the operator's name, its input shapes and the
                    // elapsed wall-clock time.
                    let mut input_shapes: Vec<Vec<usize>> = Vec::new();
                    let mut si: usize = 0;
                    while si < vals.len()
                        invariant
                            si <= vals@.len(),
                        decreases vals@.len() - si,
                    {
                        input_shapes.push(vals[si].shape_clone());
                        si = si + 1;
                    }
                    let elapsed = crate::timing::instant_elapsed(&t0);
                    timings.push(
                        OpTiming {
                            node: out,
                            name: opn.operator.name(),
                            input_shapes,
                            elapsed_ms: crate::timing::duration_as_millis(&elapsed),
                        },
                    );
                },
                None => {},
            }

            proof {
                lemma_eval_inputs_construct(
                    g,
                    binds,
                    op_of(g[producer_idx as int]).inputs,
                    k as nat,
                    crate::ops::models(vals@),
                );
                lemma_seed_value_seeded(g, binds, out);
                assert(!seeded(g, seeds, plan@[k as int]));
            }

            match result {
                Ok(out_t) => {
                    let ghost temp0 = temp@;
                    proof {
                        assert(eval_node(g, binds, out, (k + 1) as nat) == Ok::<
                            TensorModel<i32>,
                            RunError,
                        >(out_t@));
                    }
                    temp.set(out, Some(out_t));
                    proof {
                        assert forall|j: int|
                            0 <= j < k + 1 implies (#[trigger] temp@[plan@[j] as int]) is Some
                                && eval_node(g, binds, plan@[j], (j + 1) as nat) == Ok::<
                            TensorModel<i32>,
                            RunError,
                        >(temp@[plan@[j] as int]->Some_0@) by {
                            if j < k {
                                assert(plan@[j] != plan@[k as int]);
                                assert(temp@[plan@[j] as int] == temp0[plan@[j] as int]);
                            }
                        }
                    }
                },
                Err(e) => {
                    proof {
                        assert(eval_node(g, binds, out, (k + 1) as nat) == Err::<
                            TensorModel<i32>,
                            RunError,
                        >(RunError::OperatorError { node: out, error: e }));
                        // The same failure shows up at the canonical fuel.
                        lemma_eval_inputs_mono(
                            g,
                            binds,
                            op_of(g[producer_idx as int]).inputs,
                            k as nat,
                            (eval_fuel(g) - 1) as nat,
                            crate::ops::models(vals@),
                        );
                        assert(eval_node(g, binds, out, eval_fuel(g)) == Err::<
                            TensorModel<i32>,
                            RunError,
                        >(RunError::OperatorError { node: out, error: e }));
                        // Some requested output cannot be evaluated, since
                        // this operator is needed for one of them.
                        assert(needed_any(g, seeds, outs, plan@[k as int]));
                        let f = choose|f: nat| #[trigger] needed(g, seeds, outs, out, f);
                        if forall|i: int|
                            0 <= i < outs.len() ==> eval_node(
                                g,
                                binds,
                                #[trigger] outs[i],
                                eval_fuel(g),
                            ) is Ok {
                            lemma_needed_eval(g, binds, outs, out, f);
                        }
                    }
                    return Err(RunError::OperatorError { node: out, error: e });
                },
            }
            k = k + 1;
        }

        // Assemble the requested outputs in request order.
        let mut results: Vec<Tensor<i32>> = Vec::new();
        let mut oi: usize = 0;
        while oi < outputs.len()
            invariant
                g == self@,
                binds == bind_models(inputs@),
                outs == outputs@,
                seeds == bind_ids(binds),
                n == g.len(),
                plan_valid(g, seeds, outs, plan@),
                plan_len == plan@.len(),
                plan_len <= n,
                temp@.len() == n,
                forall|j: int|
                    0 <= j < plan_len ==> (#[trigger] temp@[plan@[j] as int]) is Some && eval_node(
                        g,
                        binds,
                        plan@[j],
                        (j + 1) as nat,
                    ) == Ok::<TensorModel<i32>, RunError>(temp@[plan@[j] as int]->Some_0@),
                oi <= outs.len(),
                results@.len() == oi,
                !timing ==> timings@.len() == 0,
                timing ==> timings@.len() == plan_len,
                forall|j: int| 0 <= j < timings@.len() ==> (#[trigger] timings@[j]).node == plan@[j],
                forall|i: int|
                    0 <= i < oi ==> eval_node(g, binds, #[trigger] outs[i], eval_fuel(g)) == Ok::<
                        TensorModel<i32>,
                        RunError,
                    >(results@[i]@),
            decreases outs.len() - oi,
        {
            let o = outputs[oi];
            match self.lookup_seed(inputs, o) {
                Some(v) => {
                    results.push(v);
                },
                None => {
                    proof {
                        lemma_seed_value_seeded(g, binds, o);
                        assert(seeded(g, seeds, outs[oi as int]) || plan@.contains(
                            outs[oi as int],
                        ));
                    }
                    let ghost j = choose|j: int| 0 <= j < plan@.len() && plan@[j] == o;
                    proof {
                        assert(temp@[o as int] is Some);
                        assert(o < n);
                    }
                    if o < n {
                        match &temp[o] {
                            Some(v) => {
                                let d = v.duplicate();
                                proof {
                                    lemma_eval_node_mono(
                                        g,
                                        binds,
                                        o,
                                        (j + 1) as nat,
                                        eval_fuel(g),
                                        d@,
                                    );
                                }
                                results.push(d);
                            },
                            None => {
                                proof {
                                    assert(false);
                                }
                                return Err(RunError::MissingValue(o));
                            },
                        }
                    } else {
                        proof {
                            assert(false);
                        }
                        return Err(RunError::MissingValue(o));
                    }
                },
            }
            proof {
                assert(outs[oi as int] == o);
            }
            oi = oi + 1;
        }
        proof {
            assert(crate::ops::models(results@).len() == outs.len());
            assert forall|i: int|
                0 <= i < outs.len() implies eval_node(g, binds, #[trigger] outs[i], eval_fuel(g))
                    == Ok::<TensorModel<i32>, RunError>(crate::ops::models(results@)[i]) by {
                assert(crate::ops::models(results@)[i] == results@[i]@);
            }
        }
        Ok((results, timings))
    }

    /// Compute a set of output values given a set of inputs, using the
    /// processing steps and constant values defined by the graph.
    ///
    /// Returns one tensor per requested output id, in request order: the
    /// bound or constant value for seeded ids, and the operator-computed
    /// value otherwise. Fails with a planning error naming an unresolvable id
    /// when an output cannot be resolved, and with the first failing
    /// operator's error when one signals an error. The values depend only on
    /// the graph and the inputs, never on the options.
    pub fn run(
        &self,
        inputs: &[(NodeId, Tensor<i32>)],
        outputs: &[NodeId],
        opts: Option<RunOptions>,
    ) -> (r: Result<Vec<Tensor<i32>>, RunError>)
        ensures
            run_postcondition(
                self@,
                bind_models(inputs@),
                outputs@,
                match r {
                    Ok(v) => Ok(crate::ops::models(v@)),
                    Err(e) => Err(e),
                },
            ),
    {
        match self.run_with_timing(inputs, outputs, opts) {
            Ok(p) => Ok(p.0),
            Err(e) => Err(e),
        }
    }
}

/// Timing non-interference: two runs of the same graph with the same input
/// bindings and requested outputs agree on success versus failure, and on
/// success return the same values, whatever options each was given.
/// Enabling timing changes only the diagnostic records, never the numeric
/// result. (In the failure case the error's diagnostic payload - which
/// unresolvable id or failing operator is reported - is not pinned by the
/// contracts.)
pub proof fn lemma_run_deterministic(
    g: Seq<NodeModel>,
    binds: Seq<(NodeId, TensorModel<i32>)>,
    outputs: Seq<NodeId>,
    r1: Result<Seq<TensorModel<i32>>, RunError>,
    r2: Result<Seq<TensorModel<i32>>, RunError>,
)
    requires
        run_postcondition(g, binds, outputs, r1),
        run_postcondition(g, binds, outputs, r2),
    ensures
        r1 is Ok <==> r2 is Ok,
        r1 is Ok ==> r1 == r2,
{
    // A successful run evaluates every requested output, while a failed one
    // exhibits an output that cannot be evaluated; both at once is absurd.
    if r1 is Ok && r2 is Err {
        let i = choose|i: int|
            0 <= i < outputs.len() && !(eval_node(g, binds, #[trigger] outputs[i], eval_fuel(g))
                is Ok);
        assert(eval_node(g, binds, outputs[i], eval_fuel(g)) == Ok::<TensorModel<i32>, RunError>(
            r1->Ok_0[i],
        ));
    }
    if r2 is Ok && r1 is Err {
        let i = choose|i: int|
            0 <= i < outputs.len() && !(eval_node(g, binds, #[trigger] outputs[i], eval_fuel(g))
                is Ok);
        assert(eval_node(g, binds, outputs[i], eval_fuel(g)) == Ok::<TensorModel<i32>, RunError>(
            r2->Ok_0[i],
        ));
    }
    if r1 is Ok && r2 is Ok {
        let o1 = r1->Ok_0;
        let o2 = r2->Ok_0;
        assert forall|i: int| 0 <= i < outputs.len() implies o1[i] == o2[i] by {
            assert(eval_node(g, binds, outputs[i], eval_fuel(g)) == Ok::<
                TensorModel<i32>,
                RunError,
            >(o1[i]));
        }
        assert(o1 =~= o2);
    }
}

/// Bound-input passthrough: requesting an id that is bound to an input (and
/// is not a constant node) evaluates to that bound value, unchanged, at any
/// fuel; no operator contributes to it.
pub proof fn lemma_bound_input_passthrough(
    g: Seq<NodeModel>,
    binds: Seq<(NodeId, TensorModel<i32>)>,
    id: NodeId,
    fuel: nat,
)
    requires
        !(id < g.len() && g[id as int] is Constant),
        binding_lookup(binds, id) is Some,
    ensures
        eval_node(g, binds, id, fuel) == Ok::<TensorModel<i32>, RunError>(
            binding_lookup(binds, id)->Some_0,
        ),
{
}

/// Constant passthrough: requesting an id that is a constant node evaluates
/// to that constant, unchanged, at any fuel and under any input bindings,
/// including none; no operator contributes to it.
pub proof fn lemma_constant_passthrough(
    g: Seq<NodeModel>,
    binds: Seq<(NodeId, TensorModel<i32>)>,
    id: NodeId,
    fuel: nat,
)
    requires
        id < g.len(),
        g[id as int] is Constant,
    ensures
        eval_node(g, binds, id, fuel) == Ok::<TensorModel<i32>, RunError>(g[id as int]->Constant_0),
{
}

/// An empty request produces an empty plan: no operator is scheduled, and a
/// run returns an empty result list.
pub proof fn lemma_empty_request_empty_plan(
    g: Seq<NodeModel>,
    seed_ids: Seq<NodeId>,
    plan: Seq<NodeId>,
)
    requires
        plan_valid(g, seed_ids, Seq::empty(), plan),
    ensures
        plan.len() == 0,
{
}

} // verus!
