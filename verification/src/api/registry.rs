//! The registry of compiled functions, keyed by assigned id.
//!
//! Ids come from a monotonic counter (`fn-1`, `fn-2`, ...), so they need no
//! randomness or clock, and no two registrations share one.

use vstd::prelude::*;
use crate::api::{strictly_sorted, string_views, var_names, variables};
use crate::error::EngineError;
use crate::graph::arena::Graph;
use crate::parse::{compile, compiles};
use crate::graph::node::NodeView;
use crate::parse::text::{decimal, decimal_string, digit_char, text};

verus! {

/// A compiled function: its graph and the root node the passes differentiate.
pub struct StoredFn {
    pub graph: Graph,
    pub output: usize,
}

/// The id of the `k`-th registered function.
pub open spec fn fn_id(k: nat) -> Seq<char> {
    "fn-"@ + decimal(k)
}

proof fn lemma_decimal_len(n: nat)
    ensures
        decimal(n).len() >= 1,
        n >= 10 ==> decimal(n).len() >= 2,
    decreases n,
{
    if n >= 10 {
        lemma_decimal_len(n / 10);
    }
}

proof fn lemma_digit_char_injective(x: nat, y: nat)
    requires
        x < 10,
        y < 10,
        digit_char(x) == digit_char(y),
    ensures
        x == y,
{
}

/// Distinct numbers have distinct decimal spellings.
pub proof fn lemma_decimal_injective(a: nat, b: nat)
    requires
        decimal(a) == decimal(b),
    ensures
        a == b,
    decreases a,
{
    lemma_decimal_len(a);
    lemma_decimal_len(b);
    if a >= 10 && b >= 10 {
        let da = decimal(a);
        let db = decimal(b);
        assert(da.drop_last() == decimal(a / 10));
        assert(db.drop_last() == decimal(b / 10));
        lemma_decimal_injective(a / 10, b / 10);
        assert(da[da.len() - 1] == digit_char(a % 10));
        assert(db[db.len() - 1] == digit_char(b % 10));
        lemma_digit_char_injective(a % 10, b % 10);
    } else if a < 10 && b < 10 {
        assert(decimal(a)[0] == digit_char(a));
        assert(decimal(b)[0] == digit_char(b));
        lemma_digit_char_injective(a, b);
    }
}

/// Distinct registrations get distinct ids.
pub proof fn lemma_fn_id_injective(a: nat, b: nat)
    requires
        fn_id(a) == fn_id(b),
    ensures
        a == b,
{
    reveal_strlit("fn-");
    assert(fn_id(a).skip(3) =~= decimal(a));
    assert(fn_id(b).skip(3) =~= decimal(b));
    lemma_decimal_injective(a, b);
}

/// The position of the function registered under `id` among the first `n`.
pub open spec fn find(n: nat, id: Seq<char>) -> Option<nat> {
    if exists|k: nat| 0 < k <= n && #[trigger] fn_id(k) == id {
        Some(((choose|k: nat| 0 < k <= n && #[trigger] fn_id(k) == id) - 1) as nat)
    } else {
        None
    }
}

/// Looking up the id a registration was given finds that registration, and
/// registering leaves every other lookup unchanged.
pub proof fn lemma_find_after_register(n: nat, id: Seq<char>)
    ensures
        find(n + 1, fn_id(n + 1)) == Some(n),
        id != fn_id(n + 1) ==> find(n + 1, id) == find(n, id),
{
    assert(fn_id(n + 1) == fn_id(n + 1));
    let k = choose|k: nat| 0 < k <= n + 1 && #[trigger] fn_id(k) == fn_id(n + 1);
    lemma_fn_id_injective(k, n + 1);
    if id != fn_id(n + 1) {
        if exists|k: nat| 0 < k <= n + 1 && #[trigger] fn_id(k) == id {
            let k2 = choose|k: nat| 0 < k <= n + 1 && #[trigger] fn_id(k) == id;
            assert(k2 <= n);
            let k3 = choose|k: nat| 0 < k <= n && #[trigger] fn_id(k) == id;
            lemma_fn_id_injective(k2, k3);
        }
    }
}

/// Shared registry of compiled functions.
pub struct Registry {
    fns: Vec<(String, StoredFn)>,
    next: u64,
}

impl Registry {
    /// The registered functions in order: the `k`-th has id `fn_id(k + 1)`.
    pub closed spec fn stored(&self) -> Seq<(Seq<NodeView>, usize)> {
        self.fns@.map_values(|e: (String, StoredFn)| (e.1.graph@, e.1.output))
    }

    pub closed spec fn wf(&self) -> bool {
        &&& self.fns@.len() == self.next
        &&& forall|k: int| 0 <= k < self.fns@.len() ==> #[trigger] self.fns@[k].0@ == fn_id((k + 1) as nat)
        &&& forall|k: int| 0 <= k < self.fns@.len() ==> (#[trigger] self.fns@[k]).1.graph.wf()
    }

    /// How many functions are registered.
    pub fn len(&self) -> (n: usize)
        ensures
            n == self.stored().len(),
    {
        self.fns.len()
    }

    pub fn new() -> (r: Registry)
        ensures
            r.wf(),
            r.stored().len() == 0,
    {
        Registry { fns: Vec::new(), next: 0 }
    }

    /// Register a compiled function and return its new id.
    pub fn register(&mut self, graph: Graph, output: usize) -> (id: String)
        requires
            old(self).wf(),
            old(self).stored().len() < u64::MAX,
            graph.wf(),
        ensures
            final(self).wf(),
            id@ == fn_id(old(self).stored().len() + 1),
            final(self).stored() == old(self).stored().push((graph@, output)),
    {
        self.next = self.next + 1;
        let mut id = text("fn-");
        id.append(decimal_string(self.next).as_str());
        let ghost before = self.fns@;
        self.fns.push((id.clone(), StoredFn { graph, output }));
        proof {
            assert(self.stored() =~= old(self).stored().push((graph@, output)));
            assert forall|k: int| 0 <= k < self.fns@.len() implies #[trigger] self.fns@[k].0@ == fn_id((k + 1) as nat) by {
                if k < before.len() {
                    assert(self.fns@[k] == before[k]);
                }
            }
            assert forall|k: int| 0 <= k < self.fns@.len() implies (#[trigger] self.fns@[k]).1.graph.wf() by {
                if k < before.len() {
                    assert(self.fns@[k] == before[k]);
                }
            }
        }
        id
    }

    /// Compile `source`, register the graph and its root, and answer the new
    /// id with the graph's sorted variable names. A source that does not
    /// compile is answered with its error and registers nothing.
    pub fn create_function<F: Fn(&String) -> Option<u64>, S: Fn(&String) -> String>(
        &mut self,
        source: &str,
        conv: &F,
        spell: &S,
    ) -> (r: Result<(String, Vec<String>), EngineError>)
        requires
            old(self).wf(),
            old(self).stored().len() < u64::MAX,
            forall|s: &String| conv.requires((s,)),
            forall|x: &String| spell.requires((x,)),
        ensures
            final(self).wf(),
            match r {
                Err(e) => compiles(source@, *conv, *spell, Err(e)) && final(self).stored() == old(self).stored(),
                Ok((id, names)) => exists|g: Graph, root: usize|
                    #[trigger] compiles(source@, *conv, *spell, Ok((g, root)))
                        && final(self).stored() == old(self).stored().push((g@, root))
                        && id@ == fn_id(old(self).stored().len() + 1)
                        && strictly_sorted(string_views(names@))
                        && string_views(names@).to_set() == var_names(g@),
            },
    {
        let (graph, output) = match compile(source, conv, spell) {
            Ok(c) => c,
            Err(e) => {
                return Err(e);
            },
        };
        let ghost g = graph;
        let names = variables(&graph);
        let id = self.register(graph, output);
        proof {
            assert(compiles(source@, *conv, *spell, Ok((g, output))));
        }
        Ok((id, names))
    }

    /// The function registered under `id`, if any.
    pub fn get(&self, id: &str) -> (r: Option<&StoredFn>)
        requires
            self.wf(),
        ensures
            match find(self.stored().len(), id@) {
                Some(k) => r matches Some(f) && (f.graph@, f.output) == self.stored()[k as int] && f.graph.wf(),
                None => r is None,
            },
    {
        let key = text(id);
        let mut k: usize = 0;
        while k < self.fns.len()
            invariant
                self.wf(),
                key@ == id@,
                k <= self.fns@.len(),
                forall|j: nat| 0 < j <= k ==> #[trigger] fn_id(j) != id@,
            decreases self.fns@.len() - k,
        {
            if self.fns[k].0.eq(&key) {
                proof {
                    assert(self.fns@[k as int].0@ == fn_id((k + 1) as nat));
                    assert(self.fns@[k as int].1.graph.wf());
                    let j = choose|j: nat| 0 < j <= self.stored().len() && #[trigger] fn_id(j) == id@;
                    lemma_fn_id_injective(j, (k + 1) as nat);
                }
                return Some(&self.fns[k].1);
            }
            proof {
                assert(self.fns@[k as int].0@ == fn_id((k + 1) as nat));
            }
            k = k + 1;
        }
        None
    }
}

} // verus!
