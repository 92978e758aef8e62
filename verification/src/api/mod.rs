//! What the HTTP service keeps and computes: the registry of compiled functions
//! under their assigned ids, and the sorted variable list reported for each.
//! The transport itself (routing, JSON, status codes) is the service's shell.

pub mod registry;

use vstd::prelude::*;
use crate::autodiff::backward::var_entries;
use crate::graph::arena::Graph;
use crate::graph::node::{NodeView, Op, OpType};
use crate::parse::text::{chars_of, text};

verus! {

/// Lexicographic order on character sequences (by code point), which is the
/// order of `String`'s `Ord`.
pub open spec fn lex_lt(a: Seq<char>, b: Seq<char>) -> bool
    decreases a.len(),
{
    if a.len() == 0 {
        b.len() > 0
    } else if b.len() == 0 {
        false
    } else if a[0] == b[0] {
        lex_lt(a.drop_first(), b.drop_first())
    } else {
        a[0] < b[0]
    }
}

pub proof fn lemma_lex_irrefl(a: Seq<char>)
    ensures
        !lex_lt(a, a),
    decreases a.len(),
{
    if a.len() > 0 {
        lemma_lex_irrefl(a.drop_first());
    }
}

pub proof fn lemma_lex_total(a: Seq<char>, b: Seq<char>)
    requires
        a != b,
    ensures
        lex_lt(a, b) || lex_lt(b, a),
    decreases a.len(),
{
    if a.len() > 0 && b.len() > 0 && a[0] == b[0] {
        if a.drop_first() == b.drop_first() {
            assert(a =~= seq![a[0]] + a.drop_first());
            assert(b =~= seq![b[0]] + b.drop_first());
        }
        lemma_lex_total(a.drop_first(), b.drop_first());
    } else if a.len() == 0 && b.len() == 0 {
        assert(a =~= b);
    }
}

pub proof fn lemma_lex_trans(a: Seq<char>, b: Seq<char>, c: Seq<char>)
    requires
        lex_lt(a, b),
        lex_lt(b, c),
    ensures
        lex_lt(a, c),
    decreases a.len(),
{
    if a.len() > 0 && b.len() > 0 && c.len() > 0 {
        if a[0] == b[0] && b[0] == c[0] {
            lemma_lex_trans(a.drop_first(), b.drop_first(), c.drop_first());
        }
    }
}

/// `s` is strictly increasing in lexicographic order.
pub open spec fn strictly_sorted(s: Seq<Seq<char>>) -> bool {
    forall|i: int, j: int| 0 <= i < j < s.len() ==> lex_lt(#[trigger] s[i], #[trigger] s[j])
}

/// The names of the variables of `g`.
pub open spec fn var_names(g: Seq<NodeView>) -> Set<Seq<char>> {
    Set::new(|name: Seq<char>| exists|i: int| 0 <= i < g.len() && #[trigger] g[i].op == Op::Var(name))
}

pub open spec fn string_views(v: Seq<String>) -> Seq<Seq<char>> {
    v.map_values(|s: String| s@)
}

/// Whether `a` precedes `b` lexicographically.
fn lex_less(a: &Vec<char>, b: &Vec<char>) -> (r: bool)
    ensures
        r == lex_lt(a@, b@),
{
    let mut i: usize = 0;
    proof {
        assert(a@.skip(0) =~= a@);
        assert(b@.skip(0) =~= b@);
    }
    while i < a.len() && i < b.len() && a[i] == b[i]
        invariant
            i <= a@.len(),
            i <= b@.len(),
            lex_lt(a@, b@) == lex_lt(a@.skip(i as int), b@.skip(i as int)),
        decreases a@.len() - i,
    {
        proof {
            assert(a@.skip(i as int).drop_first() =~= a@.skip(i as int + 1));
            assert(b@.skip(i as int).drop_first() =~= b@.skip(i as int + 1));
        }
        i = i + 1;
    }
    if i == a.len() {
        i < b.len()
    } else if i == b.len() {
        false
    } else {
        a[i] < b[i]
    }
}

/// The distinct variable names in a graph, sorted so column order is stable.
pub fn variables(graph: &Graph) -> (names: Vec<String>)
    ensures
        strictly_sorted(string_views(names@)),
        string_views(names@).to_set() == var_names(graph@),
{
    let mut names: Vec<String> = Vec::new();
    let mut keys: Vec<Vec<char>> = Vec::new();
    let mut i: usize = 0;
    while i < graph.nodes.len()
        invariant
            i <= graph@.len(),
            keys@.len() == names@.len(),
            forall|k: int| 0 <= k < keys@.len() ==> #[trigger] keys@[k]@ == names@[k]@,
            strictly_sorted(string_views(names@)),
            forall|s: Seq<char>| string_views(names@).contains(s) <==> exists|j: int| 0 <= j < i && #[trigger] graph@[j].op == Op::Var(s),
        decreases graph@.len() - i,
    {
        match &graph.nodes[i].op {
            OpType::Var(name) => {
                let key = chars_of(name.as_str());
                let ghost before = string_views(names@);
                // Find the first stored name not below this one.
                let mut p: usize = 0;
                while p < keys.len() && lex_less(&keys[p], &key)
                    invariant
                        p <= keys@.len(),
                        key@ == name@,
                        keys@.len() == names@.len(),
                        forall|k: int| 0 <= k < keys@.len() ==> #[trigger] keys@[k]@ == names@[k]@,
                        forall|q: int| 0 <= q < p ==> lex_lt(#[trigger] names@[q]@, name@),
                    decreases keys@.len() - p,
                {
                    proof {
                        assert(keys@[p as int]@ == names@[p as int]@);
                        assert(lex_lt(names@[p as int]@, name@));
                    }
                    p = p + 1;
                }
                let present = p < keys.len() && !lex_less(&key, &keys[p]);
                if !present {
                    proof {
                        if p < keys@.len() {
                            assert(lex_lt(name@, names@[p as int]@));
                        }
                    }
                    names.insert(p, name.clone());
                    keys.insert(p, key);
                    proof {
                        let after = string_views(names@);
                        assert(after =~= before.insert(p as int, name@));
                        assert forall|a: int, b: int| 0 <= a < b < after.len() implies lex_lt(#[trigger] after[a], #[trigger] after[b]) by {
                            if b == p {
                                assert(lex_lt(names@[a]@, name@));
                            } else if a == p {
                                if b > p + 1 {
                                    lemma_lex_trans(name@, before[p as int], before[b - 1]);
                                }
                            } else if a < p && b > p {
                                assert(lex_lt(before[a], name@));
                                if b > p + 1 {
                                    lemma_lex_trans(name@, before[p as int], before[b - 1]);
                                }
                                lemma_lex_trans(before[a], name@, before[b - 1]);
                            } else if a > p {
                                assert(lex_lt(before[a - 1], before[b - 1]));
                            } else {
                                assert(lex_lt(before[a], before[b - if b > p { 1int } else { 0int }]));
                            }
                        }
                        assert forall|s: Seq<char>| after.contains(s) <==> exists|j: int| 0 <= j < i + 1 && #[trigger] graph@[j].op == Op::Var(s) by {
                            if after.contains(s) {
                                let q = choose|q: int| 0 <= q < after.len() && after[q] == s;
                                if q != p {
                                    assert(before.contains(s));
                                } else {
                                    assert(graph@[i as int].op == Op::Var(s));
                                }
                            }
                            if exists|j: int| 0 <= j < i + 1 && #[trigger] graph@[j].op == Op::Var(s) {
                                if s == name@ {
                                    assert(after[p as int] == s);
                                } else {
                                    let j = choose|j: int| 0 <= j < i + 1 && #[trigger] graph@[j].op == Op::Var(s);
                                    assert(j < i);
                                    assert(before.contains(s));
                                    let q = choose|q: int| 0 <= q < before.len() && before[q] == s;
                                    if q < p {
                                        assert(after[q] == s);
                                    } else {
                                        assert(after[q + 1] == s);
                                    }
                                }
                            }
                        }
                    }
                } else {
                    proof {
                        assert(!lex_lt(name@, names@[p as int]@));
                        assert(!lex_lt(names@[p as int]@, name@));
                        if names@[p as int]@ != name@ {
                            lemma_lex_total(names@[p as int]@, name@);
                        }
                        assert(before[p as int] == name@);
                        assert forall|s: Seq<char>| before.contains(s) <==> exists|j: int| 0 <= j < i + 1 && #[trigger] graph@[j].op == Op::Var(s) by {
                            if exists|j: int| 0 <= j < i + 1 && #[trigger] graph@[j].op == Op::Var(s) {
                                if s == name@ {
                                    assert(before[p as int] == s);
                                } else {
                                    let j = choose|j: int| 0 <= j < i + 1 && #[trigger] graph@[j].op == Op::Var(s);
                                    assert(j < i);
                                }
                            }
                        }
                    }
                }
            },
            _ => {
                proof {
                    assert forall|s: Seq<char>| string_views(names@).contains(s) <==> exists|j: int| 0 <= j < i + 1 && #[trigger] graph@[j].op == Op::Var(s) by {
                        if exists|j: int| 0 <= j < i + 1 && #[trigger] graph@[j].op == Op::Var(s) {
                            let j = choose|j: int| 0 <= j < i + 1 && #[trigger] graph@[j].op == Op::Var(s);
                            assert(j < i);
                        }
                    }
                }
            },
        }
        i = i + 1;
    }
    proof {
        assert(string_views(names@).to_set() =~= var_names(graph@)) by {
            assert forall|s: Seq<char>| string_views(names@).to_set().contains(s) <==> var_names(graph@).contains(s) by {
                if var_names(graph@).contains(s) {
                    let j = choose|j: int| 0 <= j < graph@.len() && #[trigger] graph@[j].op == Op::Var(s);
                }
            }
        }
    }
    names
}

/// The names among the first `i` nodes' variables.
spec fn names_before(g: Seq<NodeView>, i: int) -> Set<Seq<char>> {
    Set::new(|name: Seq<char>| exists|j: int| 0 <= j < i && #[trigger] g[j].op == Op::Var(name))
}

proof fn lemma_entry_names(g: Seq<NodeView>, adj: Seq<u64>, i: int)
    requires
        0 <= i <= g.len(),
    ensures
        forall|s: Seq<char>|
            (exists|k: int| 0 <= k < var_entries(g, adj, i).len() && #[trigger] var_entries(g, adj, i)[k].0 == s)
                <==> names_before(g, i).contains(s),
    decreases i,
{
    if i > 0 {
        lemma_entry_names(g, adj, i - 1);
        let prev = var_entries(g, adj, i - 1);
        let cur = var_entries(g, adj, i);
        assert forall|s: Seq<char>|
            (exists|k: int| 0 <= k < cur.len() && #[trigger] cur[k].0 == s) <==> names_before(g, i).contains(s) by {
            if exists|k: int| 0 <= k < cur.len() && #[trigger] cur[k].0 == s {
                let k = choose|k: int| 0 <= k < cur.len() && #[trigger] cur[k].0 == s;
                if k < prev.len() {
                    assert(prev[k].0 == s);
                    assert(names_before(g, i - 1).contains(s));
                    let j = choose|j: int| 0 <= j < i - 1 && #[trigger] g[j].op == Op::Var(s);
                    assert(0 <= j < i && g[j].op == Op::Var(s));
                } else {
                    assert(g[i - 1].op == Op::Var(s));
                }
            }
            if names_before(g, i).contains(s) {
                let j = choose|j: int| 0 <= j < i && #[trigger] g[j].op == Op::Var(s);
                if j < i - 1 {
                    assert(names_before(g, i - 1).contains(s));
                    let k = choose|k: int| 0 <= k < prev.len() && #[trigger] prev[k].0 == s;
                    assert(cur[k].0 == s);
                } else {
                    assert(cur[cur.len() - 1].0 == s);
                }
            }
        }
    }
}

/// The variables a compiled function reports are exactly the names its
/// gradient has entries for.
pub proof fn lemma_gradient_names(g: Seq<NodeView>, adj: Seq<u64>)
    ensures
        forall|s: Seq<char>|
            (exists|k: int|
                0 <= k < var_entries(g, adj, g.len() as int).len() && #[trigger] var_entries(g, adj, g.len() as int)[k].0 == s)
                <==> var_names(g).contains(s),
{
    lemma_entry_names(g, adj, g.len() as int);
    assert(names_before(g, g.len() as int) =~= var_names(g));
}

/// Every expected failure of a request: a compile or evaluation failure from
/// the engine is the client's bad request; an unknown function id is not
/// found.
pub enum ApiError {
    BadRequest(String),
    NotFound(String),
}

impl ApiError {
    /// The answer to a request for an id nothing is registered under.
    pub fn not_found(id: &str) -> (e: ApiError)
        ensures
            e matches ApiError::NotFound(m) && m@ == "no function "@ + id@,
    {
        let mut m = text("no function ");
        m.append(id);
        ApiError::NotFound(m)
    }
}

} // verus!
