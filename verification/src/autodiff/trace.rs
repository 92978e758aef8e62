//! Trace emission: the engine → frontend contract.
//!
//! A completed forward/backward pass is packaged as what the visualizer
//! animates: a shared node list plus two ordered arrays, `forward` in
//! topological order and `backward` in reverse-topological order.
//!
//! Each node becomes a flat record: a lowercase op tag, with the payload an
//! `OpType` carries split out into `label` (a variable's name) or `attr` (an op
//! parameter: a constant's value or a `pow` exponent, as `f64` bits), so the
//! frontend never has to unpack an enum. Leaves carry no `inputs`.

use vstd::prelude::*;
use crate::autodiff::backward::backprop;
use crate::autodiff::forward::runs;
use crate::autodiff::outcome::{acc_alike, lemma_passes_outcome, partials_alike, passes_fail, views};
use crate::optimize::constfold::deterministic;
use crate::parse::lower::{func_of, reads_alike};
use crate::error::EngineError;
use crate::graph::arena::Graph;
use crate::graph::node::{NodeView, Op, OpType};
use crate::parse::text::text;

verus! {

/// A scalar op parameter (the value of a constant, the exponent of `pow`),
/// as the bit pattern of its `f64`.
#[derive(Debug, Clone, Copy, PartialEq, Eq, Structural)]
pub struct Attr {
    pub k: u64,
}

/// One node in the trace's graph.
#[derive(Debug, Clone, PartialEq)]
pub struct TraceNode {
    pub id: usize,
    pub op: String,
    pub label: Option<String>,
    pub inputs: Option<Vec<usize>>,
    pub attr: Option<Attr>,
}

/// One forward step: a node's computed value (bits), in topological order.
#[derive(Debug, Clone, Copy, PartialEq, Eq, Structural)]
pub struct ForwardStep {
    pub id: usize,
    pub value: u64,
}

/// One backward step: a node's adjoint (bits), in reverse-topological order.
#[derive(Debug, Clone, Copy, PartialEq, Eq, Structural)]
pub struct BackwardStep {
    pub id: usize,
    pub adjoint: u64,
}

/// The whole trace: the graph plus the two ordered step arrays over it.
pub struct Trace {
    pub graph: TraceGraph,
    pub forward: Vec<ForwardStep>,
    pub backward: Vec<BackwardStep>,
}

/// The static graph structure: every node, and the id of the output node.
#[derive(Debug, Clone, PartialEq)]
pub struct TraceGraph {
    pub nodes: Vec<TraceNode>,
    pub output: usize,
}

/// The lowercase tag of an op.
pub open spec fn op_tag(op: Op) -> Seq<char> {
    match op {
        Op::Var(_) => "var"@,
        Op::Const(_) => "const"@,
        Op::Add => "add"@,
        Op::Sub => "sub"@,
        Op::Div => "div"@,
        Op::Mul => "mul"@,
        Op::Neg => "neg"@,
        Op::Pow(_) => "pow"@,
        Op::Sin => "sin"@,
        Op::Cos => "cos"@,
        Op::Exp => "exp"@,
        Op::Ln => "ln"@,
    }
}

/// Two ops of the same kind: the same operator, whatever its payload.
pub open spec fn same_kind(a: Op, b: Op) -> bool {
    match (a, b) {
        (Op::Var(_), Op::Var(_)) => true,
        (Op::Const(_), Op::Const(_)) => true,
        (Op::Pow(_), Op::Pow(_)) => true,
        _ => a == b,
    }
}

proof fn lemma_tags_revealed()
    ensures
        "var"@ =~= seq!['v', 'a', 'r'],
        "const"@ =~= seq!['c', 'o', 'n', 's', 't'],
        "add"@ =~= seq!['a', 'd', 'd'],
        "sub"@ =~= seq!['s', 'u', 'b'],
        "div"@ =~= seq!['d', 'i', 'v'],
        "mul"@ =~= seq!['m', 'u', 'l'],
        "neg"@ =~= seq!['n', 'e', 'g'],
        "pow"@ =~= seq!['p', 'o', 'w'],
        "sin"@ =~= seq!['s', 'i', 'n'],
        "cos"@ =~= seq!['c', 'o', 's'],
        "exp"@ =~= seq!['e', 'x', 'p'],
        "ln"@ =~= seq!['l', 'n'],
{
    reveal_strlit("var");
    reveal_strlit("const");
    reveal_strlit("add");
    reveal_strlit("sub");
    reveal_strlit("div");
    reveal_strlit("mul");
    reveal_strlit("neg");
    reveal_strlit("pow");
    reveal_strlit("sin");
    reveal_strlit("cos");
    reveal_strlit("exp");
    reveal_strlit("ln");
}

/// The tag of an op names its operator and nothing else: ops of different
/// kinds get different tags, every tag is lowercase ASCII letters, and the tag
/// of a function node is the function's name as the parser reads it.
pub proof fn lemma_op_tags(a: Op, b: Op)
    ensures
        op_tag(a) == op_tag(b) <==> same_kind(a, b),
        op_tag(a).len() > 0,
        forall|k: int| 0 <= k < op_tag(a).len() ==> 'a' <= #[trigger] op_tag(a)[k] && op_tag(a)[k] <= 'z',
        (a is Sin || a is Cos || a is Exp || a is Ln) ==> func_of(op_tag(a)) == Some(a),
{
    lemma_tags_revealed();
    if op_tag(a) == op_tag(b) {
        assert(op_tag(a).len() == op_tag(b).len());
        assert(op_tag(a)[0] == op_tag(b)[0]);
        assert(op_tag(a)[1] == op_tag(b)[1]);
        assert(op_tag(a)[op_tag(a).len() - 1] == op_tag(b)[op_tag(b).len() - 1]);
    }
}

/// A trace record's op tag tells the visualizer the node's operator: two
/// records carry the same tag exactly when their nodes have operators of the
/// same kind.
pub proof fn lemma_trace_tags(t1: TraceNode, i1: int, n1: NodeView, t2: TraceNode, i2: int, n2: NodeView)
    requires
        traces(t1, i1, n1),
        traces(t2, i2, n2),
    ensures
        t1.op@ == t2.op@ <==> same_kind(n1.op, n2.op),
{
    lemma_op_tags(n1.op, n2.op);
}

/// `t` is the trace record of node `n` at index `i`.
pub open spec fn traces(t: TraceNode, i: int, n: NodeView) -> bool {
    &&& t.id == i
    &&& t.op@ == op_tag(n.op)
    &&& match n.op {
        Op::Var(name) => t.label matches Some(l) && l@ == name,
        _ => t.label is None,
    }
    &&& if n.inputs.len() == 0 {
        t.inputs is None
    } else {
        t.inputs matches Some(v) && v@ == n.inputs
    }
    &&& match n.op {
        Op::Const(c) => t.attr == Some((Attr { k: c })),
        Op::Pow(k) => t.attr == Some((Attr { k })),
        _ => t.attr is None,
    }
}

/// The step arrays of `t` record the node values `vals` in index order and
/// the adjoints `adj` in reverse index order, over all `n` nodes.
pub open spec fn records(t: Trace, n: nat, vals: Seq<u64>, adj: Seq<u64>) -> bool {
    &&& t.forward@.len() == n
    &&& forall|i: int| 0 <= i < n ==> #[trigger] t.forward@[i] == (ForwardStep { id: i as usize, value: vals[i] })
    &&& t.backward@.len() == n
    &&& forall|j: int|
        0 <= j < n ==> #[trigger] t.backward@[j] == (BackwardStep { id: (n - 1 - j) as usize, adjoint: adj[n - 1 - j] })
}

impl Graph {
    /// The trace's graph: one record per node in index (topological) order,
    /// and `output`, the node the backward pass seeds.
    fn trace_graph(&self, output: usize) -> (tg: TraceGraph)
        ensures
            tg.output == output,
            tg.nodes@.len() == self@.len(),
            forall|i: int| 0 <= i < self@.len() ==> traces(#[trigger] tg.nodes@[i], i, self@[i]),
    {
        let mut nodes: Vec<TraceNode> = Vec::new();
        let mut i: usize = 0;
        while i < self.nodes.len()
            invariant
                i <= self@.len(),
                nodes@.len() == i,
                forall|k: int| 0 <= k < i ==> traces(#[trigger] nodes@[k], k, self@[k]),
            decreases self@.len() - i,
        {
            let node = &self.nodes[i];
            let (op, label, attr) = match &node.op {
                OpType::Var(name) => (text("var"), Some(name.clone()), None),
                OpType::Pow(n) => (text("pow"), None, Some(Attr { k: *n })),
                OpType::Const(c) => (text("const"), None, Some(Attr { k: *c })),
                OpType::Add => (text("add"), None, None),
                OpType::Sub => (text("sub"), None, None),
                OpType::Neg => (text("neg"), None, None),
                OpType::Div => (text("div"), None, None),
                OpType::Mul => (text("mul"), None, None),
                OpType::Sin => (text("sin"), None, None),
                OpType::Cos => (text("cos"), None, None),
                OpType::Exp => (text("exp"), None, None),
                OpType::Ln => (text("ln"), None, None),
            };
            let inputs = if node.inputs.len() == 0 {
                None
            } else {
                Some(node.inputs.clone())
            };
            nodes.push(TraceNode { id: i, op, label, inputs, attr });
            i = i + 1;
        }
        TraceGraph { nodes, output }
    }
    /// Run both passes and package them as a [`Trace`]: the graph, the
    /// forward values in topological (index) order, and every node's adjoint
    /// from the sweep seeded at `output`, in reverse order. The sweep covers
    /// the whole arena wherever `output` sits; nodes above it start from the
    /// seed's `0`. Fails only where the forward pass or the backward sweep
    /// does; and when the closures answer each question one way, fails
    /// exactly there, with that error.
    pub fn trace<
        L: Fn(&String) -> Option<u64>,
        F: Fn(&OpType, u64, u64) -> Result<u64, EngineError>,
        P: Fn(&OpType, u64, u64, u64) -> Result<(u64, u64), EngineError>,
        A: Fn(u64, u64) -> u64,
    >(&self, output: usize, lookup: &L, eval: &F, partials: &P, acc: &A) -> (r: Result<Trace, EngineError>)
        requires
            self.wf(),
            output < self@.len(),
            forall|name: &String| lookup.requires((name,)),
            forall|op: &OpType, a: u64, b: u64| eval.requires((op, a, b)),
            forall|op: &OpType, g: u64, a: u64, b: u64| partials.requires((op, g, a, b)),
            forall|x: u64, c: u64| acc.requires((x, c)),
        ensures
            match r {
                Ok(t) => {
                    &&& t.graph.output == output
                    &&& t.graph.nodes@.len() == self@.len()
                    &&& forall|i: int| 0 <= i < self@.len() ==> traces(#[trigger] t.graph.nodes@[i], i, self@[i])
                    &&& exists|vals: Seq<u64>, adj: Seq<u64>|
                        #[trigger] runs(self.nodes@, *lookup, *eval, Ok(vals)) && #[trigger] backprop(
                            self.nodes@,
                            vals,
                            *partials,
                            *acc,
                            output as int,
                            Ok(adj),
                        ) && records(t, self@.len(), vals, adj)
                },
                Err(e) => passes_fail(self.nodes@, *lookup, *eval, *partials, *acc, output as int, e),
            },
            reads_alike(*lookup) && deterministic(*eval) && partials_alike(*partials) && acc_alike(*acc)
                ==> forall|e: EngineError|
                #[trigger] passes_fail(self.nodes@, *lookup, *eval, *partials, *acc, output as int, e)
                    ==> r == Err::<Trace, EngineError>(e),
    {
        let r = self.run_passes(output, lookup, eval, partials, acc);
        proof {
            if reads_alike(*lookup) && deterministic(*eval) && partials_alike(*partials) && acc_alike(*acc) {
                assert(views(self.nodes@) =~= self@);
                assert forall|e: EngineError|
                    #[trigger] passes_fail(self.nodes@, *lookup, *eval, *partials, *acc, output as int, e)
                    implies r == Err::<Trace, EngineError>(e) by {
                    lemma_passes_outcome(self.nodes@, *lookup, *eval, *partials, *acc, output as int, e);
                }
            }
        }
        r
    }

    fn run_passes<
        L: Fn(&String) -> Option<u64>,
        F: Fn(&OpType, u64, u64) -> Result<u64, EngineError>,
        P: Fn(&OpType, u64, u64, u64) -> Result<(u64, u64), EngineError>,
        A: Fn(u64, u64) -> u64,
    >(&self, output: usize, lookup: &L, eval: &F, partials: &P, acc: &A) -> (r: Result<Trace, EngineError>)
        requires
            self.wf(),
            output < self@.len(),
            forall|name: &String| lookup.requires((name,)),
            forall|op: &OpType, a: u64, b: u64| eval.requires((op, a, b)),
            forall|op: &OpType, g: u64, a: u64, b: u64| partials.requires((op, g, a, b)),
            forall|x: u64, c: u64| acc.requires((x, c)),
        ensures
            match r {
                Ok(t) => {
                    &&& t.graph.output == output
                    &&& t.graph.nodes@.len() == self@.len()
                    &&& forall|i: int| 0 <= i < self@.len() ==> traces(#[trigger] t.graph.nodes@[i], i, self@[i])
                    &&& exists|vals: Seq<u64>, adj: Seq<u64>|
                        #[trigger] runs(self.nodes@, *lookup, *eval, Ok(vals)) && #[trigger] backprop(
                            self.nodes@,
                            vals,
                            *partials,
                            *acc,
                            output as int,
                            Ok(adj),
                        ) && records(t, self@.len(), vals, adj)
                },
                Err(e) => passes_fail(self.nodes@, *lookup, *eval, *partials, *acc, output as int, e),
            },
    {
        let n = self.nodes.len();
        let values = self.forward(lookup, eval)?;
        let graph = self.trace_graph(output);
        let mut forward: Vec<ForwardStep> = Vec::new();
        let mut i: usize = 0;
        while i < n
            invariant
                n == self@.len(),
                values@.len() == n,
                i <= n,
                forward@.len() == i,
                forall|k: int| 0 <= k < i ==> #[trigger] forward@[k] == (ForwardStep { id: k as usize, value: values@[k] }),
            decreases n - i,
        {
            forward.push(ForwardStep { id: i, value: values[i] });
            i = i + 1;
        }
        let adjoints = match self.backward(output, &values, partials, acc) {
            Ok(adj) => adj,
            Err(e) => {
                proof {
                    assert(runs(self.nodes@, *lookup, *eval, Ok(values@)));
                }
                return Err(e);
            },
        };
        let mut backward: Vec<BackwardStep> = Vec::new();
        let mut j: usize = n;
        while j > 0
            invariant
                n == self@.len(),
                adjoints@.len() == n,
                j <= n,
                backward@.len() == n - j,
                forall|k: int|
                    0 <= k < n - j ==> #[trigger] backward@[k] == (BackwardStep { id: (n - 1 - k) as usize, adjoint: adjoints@[n - 1 - k] }),
            decreases j,
        {
            j = j - 1;
            backward.push(BackwardStep { id: j, adjoint: adjoints[j] });
        }
        let t = Trace { graph, forward, backward };
        proof {
            assert(runs(self.nodes@, *lookup, *eval, Ok(values@)));
            assert(backprop(self.nodes@, values@, *partials, *acc, output as int, Ok(adjoints@)));
            assert(records(t, self@.len(), values@, adjoints@));
        }
        Ok(t)
    }
}

} // verus!
