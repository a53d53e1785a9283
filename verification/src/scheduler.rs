//! Runtime scheduler: a token-prefix radix cache and a priority batch planner
//! that bills only the prompt tokens a cached prefix does not cover.

use std::collections::BTreeMap;
use vstd::prelude::*;

verus! {

broadcast use {vstd::std_specs::btree::group_btree_axioms, vstd::laws_cmp::group_laws_cmp};

/// Cached KV pages for a token prefix.
#[derive(Debug, Clone, PartialEq, Eq)]
pub struct PrefixValue {
    pub cache_pages: Vec<usize>,
    pub page_generations: Vec<u64>,
    pub token_len: usize,
}

impl View for PrefixValue {
    type V = (Seq<usize>, Seq<u64>, usize);

    open spec fn view(&self) -> (Seq<usize>, Seq<u64>, usize) {
        (self.cache_pages@, self.page_generations@, self.token_len)
    }
}

fn copy_value(v: &PrefixValue) -> (r: PrefixValue)
    ensures
        r@ == v@,
{
    PrefixValue {
        cache_pages: v.cache_pages.clone(),
        page_generations: v.page_generations.clone(),
        token_len: v.token_len,
    }
}

#[derive(Debug, Clone)]
struct PrefixNode {
    children: BTreeMap<usize, usize>,
    value: Option<PrefixValue>,
}

/// Radix trie from token sequences to cached prefix values.
#[derive(Debug, Clone)]
pub struct PrefixRadixCache {
    nodes: Vec<PrefixNode>,
}

/// Child of node `n` along token `t`.
spec fn child_of(ns: Seq<PrefixNode>, n: int, t: usize) -> Option<int> {
    if 0 <= n < ns.len() && ns[n].children@.contains_key(t) {
        Some(ns[n].children@[t] as int)
    } else {
        None
    }
}

/// Node reached from the root by following `k`.
spec fn walk(ns: Seq<PrefixNode>, k: Seq<usize>) -> Option<int>
    decreases k.len(),
{
    if k.len() == 0 {
        if ns.len() > 0 {
            Some(0)
        } else {
            None
        }
    } else {
        match walk(ns, k.drop_last()) {
            Some(n) => child_of(ns, n, k.last()),
            None => None,
        }
    }
}

/// View of an optional cached value.
spec fn value_view(o: Option<PrefixValue>) -> Option<(Seq<usize>, Seq<u64>, usize)> {
    match o {
        Some(v) => Some(v@),
        None => None,
    }
}

/// Value stored for token sequence `k`.
spec fn entry(ns: Seq<PrefixNode>, k: Seq<usize>) -> Option<(Seq<usize>, Seq<u64>, usize)> {
    match walk(ns, k) {
        Some(n) => value_view(ns[n].value),
        None => None,
    }
}

/// Edges point to later nodes, and every node has at most one parent edge.
spec fn tree_shaped(ns: Seq<PrefixNode>) -> bool {
    &&& ns.len() >= 1
    &&& forall|n: int, t: usize|
        0 <= n < ns.len() && #[trigger] ns[n].children@.contains_key(t) ==> n < ns[n].children@[t] < ns.len()
    &&& forall|n1: int, t1: usize, n2: int, t2: usize|
        0 <= n1 < ns.len() && 0 <= n2 < ns.len() && #[trigger] ns[n1].children@.contains_key(t1)
            && #[trigger] ns[n2].children@.contains_key(t2) && ns[n1].children@[t1] == ns[n2].children@[t2]
            ==> n1 == n2 && t1 == t2
}

proof fn lemma_walk_bounds(ns: Seq<PrefixNode>, k: Seq<usize>)
    requires
        tree_shaped(ns),
    ensures
        walk(ns, k) matches Some(n) ==> 0 <= n < ns.len() && (k.len() > 0 ==> n > 0) && (k.len() == 0
            ==> n == 0),
    decreases k.len(),
{
    if k.len() > 0 {
        lemma_walk_bounds(ns, k.drop_last());
    }
}

proof fn lemma_walk_injective(ns: Seq<PrefixNode>, k1: Seq<usize>, k2: Seq<usize>)
    requires
        tree_shaped(ns),
        walk(ns, k1) is Some,
        walk(ns, k1) == walk(ns, k2),
    ensures
        k1 == k2,
    decreases k1.len() + k2.len(),
{
    lemma_walk_bounds(ns, k1);
    lemma_walk_bounds(ns, k2);
    if k1.len() == 0 || k2.len() == 0 {
        assert(k1.len() == 0 && k2.len() == 0);
        assert(k1 =~= k2);
    } else {
        let p1 = walk(ns, k1.drop_last()).unwrap();
        let p2 = walk(ns, k2.drop_last()).unwrap();
        assert(ns[p1].children@.contains_key(k1.last()));
        assert(ns[p2].children@.contains_key(k2.last()));
        lemma_walk_bounds(ns, k1.drop_last());
        lemma_walk_bounds(ns, k2.drop_last());
        lemma_walk_injective(ns, k1.drop_last(), k2.drop_last());
        assert(k1 =~= k1.drop_last().push(k1.last()));
        assert(k2 =~= k2.drop_last().push(k2.last()));
    }
}

/// Adding a fresh empty node under `(n, t)` keeps every old walk and every entry.
proof fn lemma_fresh_child(ns: Seq<PrefixNode>, ns2: Seq<PrefixNode>, n: int, t: usize, p: Seq<usize>)
    requires
        tree_shaped(ns),
        0 <= n < ns.len(),
        walk(ns, p) == Some(n),
        child_of(ns, n, t) is None,
        ns.len() < usize::MAX,
        ns2.len() == ns.len() + 1,
        ns2[ns.len() as int].children@ == Map::<usize, usize>::empty(),
        ns2[ns.len() as int].value is None,
        forall|m: int| 0 <= m < ns.len() && m != n ==> #[trigger] ns2[m] == ns[m],
        ns2[n].children@ == ns[n].children@.insert(t, ns.len() as usize),
        value_view(ns2[n].value) == value_view(ns[n].value),
    ensures
        tree_shaped(ns2),
        walk(ns2, p.push(t)) == Some(ns.len() as int),
        forall|k: Seq<usize>| #[trigger] walk(ns, k) is Some ==> walk(ns2, k) == walk(ns, k),
        forall|k: Seq<usize>| #[trigger] entry(ns2, k) == entry(ns, k),
{
    let f = ns.len() as int;
    assert forall|m: int, u: usize|
        0 <= m < ns2.len() && #[trigger] ns2[m].children@.contains_key(u) implies m < ns2[m].children@[u]
        < ns2.len() by {
        if m != n && m < f {
            assert(ns2[m] == ns[m]);
            assert(ns[m].children@.contains_key(u));
        } else if m == n && u != t {
            assert(ns[m].children@.contains_key(u));
        }
    }
    assert forall|n1: int, t1: usize, n2: int, t2: usize|
        0 <= n1 < ns2.len() && 0 <= n2 < ns2.len() && #[trigger] ns2[n1].children@.contains_key(t1)
            && #[trigger] ns2[n2].children@.contains_key(t2) && ns2[n1].children@[t1]
            == ns2[n2].children@[t2] implies n1 == n2 && t1 == t2 by {
        assert(n1 != f && n2 != f);
        if n1 != n {
            assert(ns2[n1] == ns[n1]);
        }
        if n2 != n {
            assert(ns2[n2] == ns[n2]);
        }
        let new1 = n1 == n && t1 == t;
        let new2 = n2 == n && t2 == t;
        if !new1 {
            assert(ns2[n1].children@[t1] == ns[n1].children@[t1]);
            assert(ns[n1].children@.contains_key(t1));
        }
        if !new2 {
            assert(ns2[n2].children@[t2] == ns[n2].children@[t2]);
            assert(ns[n2].children@.contains_key(t2));
        }
    }
    assert forall|k: Seq<usize>| #[trigger] walk(ns, k) is Some implies walk(ns2, k) == walk(ns, k) by {
        lemma_old_walk_kept(ns, ns2, n, t, k);
    }
    assert(walk(ns2, p) == Some(n)) by {
        lemma_old_walk_kept(ns, ns2, n, t, p);
    }
    assert(p.push(t).drop_last() =~= p);
    assert forall|k: Seq<usize>| #[trigger] entry(ns2, k) == entry(ns, k) by {
        lemma_new_walk(ns, ns2, n, t, p, k);
    }
}

proof fn lemma_old_walk_kept(ns: Seq<PrefixNode>, ns2: Seq<PrefixNode>, n: int, t: usize, k: Seq<usize>)
    requires
        tree_shaped(ns),
        0 <= n < ns.len(),
        child_of(ns, n, t) is None,
        ns.len() < usize::MAX,
        ns2.len() == ns.len() + 1,
        forall|m: int| 0 <= m < ns.len() && m != n ==> #[trigger] ns2[m] == ns[m],
        ns2[n].children@ == ns[n].children@.insert(t, ns.len() as usize),
    ensures
        walk(ns, k) is Some ==> walk(ns2, k) == walk(ns, k),
    decreases k.len(),
{
    if k.len() > 0 {
        lemma_old_walk_kept(ns, ns2, n, t, k.drop_last());
        lemma_walk_bounds(ns, k.drop_last());
        if let Some(m) = walk(ns, k.drop_last()) {
            if m != n {
                assert(ns2[m] == ns[m]);
            }
        }
    }
}

proof fn lemma_new_walk(
    ns: Seq<PrefixNode>,
    ns2: Seq<PrefixNode>,
    n: int,
    t: usize,
    p: Seq<usize>,
    k: Seq<usize>,
)
    requires
        tree_shaped(ns),
        0 <= n < ns.len(),
        walk(ns, p) == Some(n),
        child_of(ns, n, t) is None,
        ns.len() < usize::MAX,
        ns2.len() == ns.len() + 1,
        ns2[ns.len() as int].children@ == Map::<usize, usize>::empty(),
        ns2[ns.len() as int].value is None,
        forall|m: int| 0 <= m < ns.len() && m != n ==> #[trigger] ns2[m] == ns[m],
        ns2[n].children@ == ns[n].children@.insert(t, ns.len() as usize),
        value_view(ns2[n].value) == value_view(ns[n].value),
    ensures
        walk(ns2, k) matches Some(m) ==> (m < ns.len() && walk(ns, k) == Some(m)) || (m == ns.len()
            && walk(ns, k) is None),
        walk(ns2, k) is None ==> walk(ns, k) is None,
        entry(ns2, k) == entry(ns, k),
    decreases k.len(),
{
    let f = ns.len() as int;
    lemma_old_walk_kept(ns, ns2, n, t, k);
    lemma_walk_bounds(ns, k);
    if k.len() > 0 {
        let k0 = k.drop_last();
        let u = k.last();
        lemma_new_walk(ns, ns2, n, t, p, k0);
        lemma_walk_bounds(ns, k0);
        match walk(ns2, k0) {
            Some(m0) => {
                assert(walk(ns2, k) == child_of(ns2, m0, u));
                if m0 == f {
                    assert(!ns2[f].children@.contains_key(u));
                    assert(walk(ns, k0) is None);
                    assert(walk(ns, k) is None);
                } else {
                    assert(walk(ns, k0) == Some(m0));
                    assert(walk(ns, k) == child_of(ns, m0, u));
                    if m0 == n && u == t {
                        assert(walk(ns2, k) == Some(f));
                        assert(walk(ns, k) is None);
                    } else if m0 == n {
                        assert(ns2[n].children@.contains_key(u) == ns[n].children@.contains_key(u));
                        assert(walk(ns2, k) == walk(ns, k));
                    } else {
                        assert(ns2[m0] == ns[m0]);
                        assert(walk(ns2, k) == walk(ns, k));
                    }
                }
            },
            None => {
                assert(walk(ns, k0) is None);
            },
        }
    }
    match walk(ns2, k) {
        Some(m) => {
            if m < f && m != n {
                assert(ns2[m] == ns[m]);
            }
            if m == f {
                assert(entry(ns2, k) == value_view(ns2[f].value));
            }
        },
        None => {},
    }
}

impl PrefixRadixCache {
    /// The trie is well formed: a root exists and nodes form a tree.
    pub closed spec fn wf(&self) -> bool {
        tree_shaped(self.nodes@)
    }

    /// Number of trie nodes allocated so far.
    pub closed spec fn node_count(&self) -> nat {
        self.nodes@.len()
    }

    /// Cached value for the token sequence `k`.
    pub closed spec fn lookup(&self, k: Seq<usize>) -> Option<(Seq<usize>, Seq<u64>, usize)> {
        entry(self.nodes@, k)
    }

    /// Longest prefix of `tokens` of length at most `d` that has a cached value.
    pub open spec fn best_upto(&self, tokens: Seq<usize>, d: int) -> Option<(int, (Seq<usize>, Seq<u64>, usize))>
        decreases d,
    {
        if d <= 0 {
            match self.lookup(tokens.subrange(0, 0)) {
                Some(v) => Some((0, v)),
                None => None,
            }
        } else {
            match self.lookup(tokens.subrange(0, d)) {
                Some(v) => Some((d, v)),
                None => self.best_upto(tokens, d - 1),
            }
        }
    }

    /// An empty cache holding only the root.
    pub fn new() -> (r: Self)
        ensures
            r.wf(),
            r.node_count() == 1,
            forall|k: Seq<usize>| #[trigger] r.lookup(k) is None,
    {
        let root = PrefixNode { children: BTreeMap::new(), value: None };
        let mut nodes: Vec<PrefixNode> = Vec::new();
        nodes.push(root);
        let r = Self { nodes };
        assert forall|k: Seq<usize>| #[trigger] r.lookup(k) is None by {
            lemma_root_only(r.nodes@, k);
        }
        r
    }

    /// Stores `value` for `tokens`, leaving every other sequence unchanged.
    pub fn insert(&mut self, tokens: &[usize], value: PrefixValue)
        requires
            old(self).wf(),
            old(self).node_count() + tokens@.len() <= usize::MAX,
        ensures
            final(self).wf(),
            final(self).node_count() <= old(self).node_count() + tokens@.len(),
            forall|k: Seq<usize>|
                #[trigger] final(self).lookup(k) == if k == tokens@ {
                    Some(value@)
                } else {
                    old(self).lookup(k)
                },
    {
        let ghost old_nodes = self.nodes@;
        let mut node_idx: usize = 0;
        let mut d: usize = 0;
        assert(tokens@.subrange(0, 0) =~= Seq::<usize>::empty());
        while d < tokens.len()
            invariant
                d <= tokens@.len(),
                tree_shaped(self.nodes@),
                self.nodes@.len() <= old_nodes.len() + d,
                old_nodes.len() + tokens@.len() <= usize::MAX,
                walk(self.nodes@, tokens@.subrange(0, d as int)) == Some(node_idx as int),
                forall|k: Seq<usize>| #[trigger] entry(self.nodes@, k) == entry(old_nodes, k),
            decreases tokens@.len() - d,
        {
            let token: usize = tokens[d];
            let ghost p = tokens@.subrange(0, d as int);
            proof {
                lemma_walk_bounds(self.nodes@, p);
                assert(tokens@.subrange(0, d + 1) =~= p.push(token));
                assert(p.push(token).drop_last() =~= p);
            }
            let existing: Option<usize> = match self.nodes[node_idx].children.get(&token) {
                Some(c) => Some(*c),
                None => None,
            };
            match existing {
                Some(child) => {
                    node_idx = child;
                },
                None => {
                    let ghost ns = self.nodes@;
                    let child: usize = self.nodes.len();
                    let fresh = PrefixNode { children: BTreeMap::new(), value: None };
                    self.nodes.push(fresh);
                    let mut children = self.nodes[node_idx].children.clone();
                    children.insert(token, child);
                    let old_value = match &self.nodes[node_idx].value {
                        Some(v) => Some(copy_value(v)),
                        None => None,
                    };
                    let updated = PrefixNode { children, value: old_value };
                    self.nodes.set(node_idx, updated);
                    proof {
                        lemma_fresh_child(ns, self.nodes@, node_idx as int, token, p);
                    }
                    node_idx = child;
                },
            }
            d += 1;
        }
        assert(tokens@.subrange(0, tokens@.len() as int) =~= tokens@);
        let ghost ns = self.nodes@;
        let ghost end = node_idx as int;
        proof {
            lemma_walk_bounds(ns, tokens@);
        }
        let children = self.nodes[node_idx].children.clone();
        let ghost vv = value@;
        self.nodes.set(node_idx, PrefixNode { children, value: Some(value) });
        proof {
            assert forall|k: Seq<usize>|
                #[trigger] entry(self.nodes@, k) == if k == tokens@ {
                    Some(vv)
                } else {
                    entry(old_nodes, k)
                } by {
                lemma_set_value(ns, self.nodes@, end, k);
                if walk(ns, k) == Some(end) {
                    lemma_walk_injective(ns, k, tokens@);
                }
            }
            lemma_set_value_shape(ns, self.nodes@, end);
        }
    }

    /// The longest prefix of `tokens` that has a cached value, with that value.
    pub fn longest_match(&self, tokens: &[usize]) -> (r: Option<(usize, PrefixValue)>)
        requires
            self.wf(),
        ensures
            match self.best_upto(tokens@, tokens@.len() as int) {
                Some((d, v)) => r matches Some((rd, rv)) && rd == d && rv@ == v,
                None => r is None,
            },
    {
        let ghost ns = self.nodes@;
        let mut node_idx: usize = 0;
        let mut best: Option<(usize, PrefixValue)> = match &self.nodes[0].value {
            Some(v) => Some((0, copy_value(v))),
            None => None,
        };
        assert(tokens@.subrange(0, 0) =~= Seq::<usize>::empty());
        let mut depth: usize = 0;
        while depth < tokens.len()
            invariant
                depth <= tokens@.len(),
                ns == self.nodes@,
                tree_shaped(ns),
                walk(ns, tokens@.subrange(0, depth as int)) == Some(node_idx as int),
                match self.best_upto(tokens@, depth as int) {
                    Some((d, v)) => best matches Some((rd, rv)) && rd == d && rv@ == v,
                    None => best is None,
                },
            decreases tokens@.len() - depth,
        {
            let token: usize = tokens[depth];
            let ghost p = tokens@.subrange(0, depth as int);
            proof {
                lemma_walk_bounds(ns, p);
                assert(tokens@.subrange(0, depth + 1) =~= p.push(token));
                assert(p.push(token).drop_last() =~= p);
            }
            let child: usize = match self.nodes[node_idx].children.get(&token) {
                Some(c) => *c,
                None => {
                    proof {
                        lemma_no_deeper(self, tokens@, depth as int + 1, tokens@.len() as int);
                    }
                    return best;
                },
            };
            node_idx = child;
            proof {
                lemma_walk_bounds(ns, tokens@.subrange(0, depth + 1));
            }
            match &self.nodes[node_idx].value {
                Some(v) => {
                    best = Some((depth + 1, copy_value(v)));
                },
                None => {},
            }
            depth += 1;
        }
        best
    }
}

proof fn lemma_root_only(ns: Seq<PrefixNode>, k: Seq<usize>)
    requires
        ns.len() == 1,
        ns[0].children@ == Map::<usize, usize>::empty(),
        ns[0].value is None,
    ensures
        entry(ns, k) is None,
    decreases k.len(),
{
    if k.len() > 0 {
        lemma_root_only(ns, k.drop_last());
    }
}

proof fn lemma_set_value(ns: Seq<PrefixNode>, ns2: Seq<PrefixNode>, end: int, k: Seq<usize>)
    requires
        tree_shaped(ns),
        0 <= end < ns.len(),
        ns2.len() == ns.len(),
        forall|m: int| 0 <= m < ns.len() && m != end ==> #[trigger] ns2[m] == ns[m],
        ns2[end].children@ == ns[end].children@,
    ensures
        walk(ns2, k) == walk(ns, k),
        walk(ns, k) != Some(end) ==> entry(ns2, k) == entry(ns, k),
        walk(ns, k) == Some(end) ==> entry(ns2, k) == value_view(ns2[end].value),
    decreases k.len(),
{
    lemma_walk_bounds(ns, k);
    if k.len() > 0 {
        lemma_walk_bounds(ns, k.drop_last());
        lemma_set_value(ns, ns2, end, k.drop_last());
        if let Some(m) = walk(ns, k.drop_last()) {
            if 0 <= m < ns.len() && m != end {
                assert(ns2[m] == ns[m]);
            }
        }
    }
    if let Some(m) = walk(ns, k) {
        if 0 <= m < ns.len() && m != end {
            assert(ns2[m] == ns[m]);
        }
    }
}

proof fn lemma_set_value_shape(ns: Seq<PrefixNode>, ns2: Seq<PrefixNode>, end: int)
    requires
        tree_shaped(ns),
        0 <= end < ns.len(),
        ns2.len() == ns.len(),
        forall|m: int| 0 <= m < ns.len() && m != end ==> #[trigger] ns2[m] == ns[m],
        ns2[end].children@ == ns[end].children@,
    ensures
        tree_shaped(ns2),
{
    assert forall|m: int, u: usize|
        0 <= m < ns2.len() && #[trigger] ns2[m].children@.contains_key(u) implies m < ns2[m].children@[u]
        < ns2.len() by {
        if m != end {
            assert(ns2[m] == ns[m]);
        }
    }
    assert forall|n1: int, t1: usize, n2: int, t2: usize|
        0 <= n1 < ns2.len() && 0 <= n2 < ns2.len() && #[trigger] ns2[n1].children@.contains_key(t1)
            && #[trigger] ns2[n2].children@.contains_key(t2) && ns2[n1].children@[t1]
            == ns2[n2].children@[t2] implies n1 == n2 && t1 == t2 by {
        if n1 != end {
            assert(ns2[n1] == ns[n1]);
        }
        if n2 != end {
            assert(ns2[n2] == ns[n2]);
        }
        assert(ns[n1].children@.contains_key(t1) && ns[n2].children@.contains_key(t2));
    }
}

/// Once a prefix of `tokens` leaves the trie, no longer prefix has an entry.
proof fn lemma_no_deeper(c: &PrefixRadixCache, tokens: Seq<usize>, from: int, to: int)
    requires
        c.wf(),
        1 <= from <= to <= tokens.len(),
        walk(c.nodes@, tokens.subrange(0, from)) is None,
    ensures
        c.best_upto(tokens, to) == c.best_upto(tokens, from - 1),
    decreases to - from,
{
    if to > from {
        assert(tokens.subrange(0, to).drop_last() =~= tokens.subrange(0, to - 1));
        lemma_walk_none_extends(c.nodes@, tokens, from, to);
        lemma_no_deeper(c, tokens, from, to - 1);
    }
}

proof fn lemma_walk_none_extends(ns: Seq<PrefixNode>, tokens: Seq<usize>, from: int, to: int)
    requires
        1 <= from <= to <= tokens.len(),
        walk(ns, tokens.subrange(0, from)) is None,
    ensures
        walk(ns, tokens.subrange(0, to)) is None,
    decreases to - from,
{
    if to > from {
        lemma_walk_none_extends(ns, tokens, from, to - 1);
        assert(tokens.subrange(0, to).drop_last() =~= tokens.subrange(0, to - 1));
    }
}

/// Lifecycle phase of a request.
#[derive(Debug, Clone, PartialEq, Eq, Structural)]
pub enum RequestState {
    Prefill,
    Decode,
}

/// A generation request waiting to be scheduled.
#[derive(Debug, Clone, PartialEq, Eq)]
pub struct InferenceRequest {
    pub id: u64,
    pub prompt_tokens: Vec<usize>,
    pub generated_tokens: usize,
    pub max_new_tokens: usize,
    pub priority: u8,
}

/// Phase of a request: prefill until its first token is generated.
pub open spec fn state_of(generated_tokens: usize) -> RequestState {
    if generated_tokens == 0 {
        RequestState::Prefill
    } else {
        RequestState::Decode
    }
}

impl InferenceRequest {
    /// Prefill before the first generated token, decode afterwards.
    pub fn state(&self) -> (r: RequestState)
        ensures
            r == state_of(self.generated_tokens),
    {
        if self.generated_tokens == 0 {
            RequestState::Prefill
        } else {
            RequestState::Decode
        }
    }
}

/// One request admitted to a batch, with its token accounting.
#[derive(Debug, Clone, PartialEq, Eq, Structural)]
pub struct PlannedRequest {
    pub id: u64,
    pub state: RequestState,
    pub prompt_tokens: usize,
    pub reusable_prefix_tokens: usize,
    pub billable_tokens: usize,
}

/// Requests admitted to one batch, in scheduling order.
#[derive(Debug, Clone, PartialEq, Eq)]
pub struct BatchPlan {
    pub requests: Vec<PlannedRequest>,
    pub total_billable_tokens: usize,
}

/// Scheduler that plans batches against a token budget.
#[derive(Debug, Clone)]
pub struct RuntimeScheduler {
    pub prefix_cache: PrefixRadixCache,
    pub max_batch_tokens: usize,
}

/// `a` is scheduled strictly before `b`: higher priority first, then lower id.
pub open spec fn goes_before(a: InferenceRequest, b: InferenceRequest) -> bool {
    a.priority > b.priority || (a.priority == b.priority && a.id < b.id)
}

/// Position at which a stable sort places `x` after the sorted run `s` of indices.
pub open spec fn insert_pos(reqs: Seq<InferenceRequest>, s: Seq<int>, x: int) -> int
    decreases s.len(),
{
    if s.len() == 0 {
        0
    } else if goes_before(reqs[x], reqs[s.last()]) {
        insert_pos(reqs, s.drop_last(), x)
    } else {
        s.len() as int
    }
}

/// Indices of the first `n` requests in stable scheduling order.
pub open spec fn schedule_order(reqs: Seq<InferenceRequest>, n: int) -> Seq<int>
    decreases n,
{
    if n <= 0 {
        Seq::empty()
    } else {
        let s = schedule_order(reqs, n - 1);
        s.insert(insert_pos(reqs, s, n - 1), n - 1)
    }
}

/// Cached prefix length reusable by a prompt.
pub open spec fn reusable_of(cache: PrefixRadixCache, prompt: Seq<usize>) -> int {
    match cache.best_upto(prompt, prompt.len() as int) {
        Some((d, _)) => d,
        None => 0,
    }
}

/// Tokens a request is billed: uncached prompt tokens in prefill, one in decode.
pub open spec fn billable_of(cache: PrefixRadixCache, req: InferenceRequest) -> int {
    if req.generated_tokens == 0 {
        req.prompt_tokens@.len() - reusable_of(cache, req.prompt_tokens@)
    } else {
        1
    }
}

/// Admission over billed amounts: how many are admitted among the first `m`, and
/// their total. The first is always admitted; admission stops at the first that
/// would exceed `max`.
pub open spec fn admitted(bills: Seq<int>, max: int, m: int) -> (int, int)
    decreases m,
{
    if m <= 0 {
        (0, 0)
    } else {
        let (c, t) = admitted(bills, max, m - 1);
        if c < m - 1 || (t + bills[m - 1] > max && c > 0) {
            (c, t)
        } else {
            (c + 1, t + bills[m - 1])
        }
    }
}

/// Planned entry of a request.
pub open spec fn planned_of(cache: PrefixRadixCache, req: InferenceRequest) -> PlannedRequest {
    PlannedRequest {
        id: req.id,
        state: state_of(req.generated_tokens),
        prompt_tokens: req.prompt_tokens@.len() as usize,
        reusable_prefix_tokens: reusable_of(cache, req.prompt_tokens@) as usize,
        billable_tokens: billable_of(cache, req) as usize,
    }
}

/// Bills of the requests in scheduling order.
pub open spec fn ordered_bills(cache: PrefixRadixCache, reqs: Seq<InferenceRequest>) -> Seq<int> {
    schedule_order(reqs, reqs.len() as int).map_values(|i: int| billable_of(cache, reqs[i]))
}

proof fn lemma_order_shape(reqs: Seq<InferenceRequest>, n: int)
    requires
        0 <= n,
    ensures
        schedule_order(reqs, n).len() == n,
        forall|i: int| 0 <= i < n ==> 0 <= #[trigger] schedule_order(reqs, n)[i] < n,
    decreases n,
{
    if n > 0 {
        lemma_order_shape(reqs, n - 1);
        lemma_insert_pos_bounds(reqs, schedule_order(reqs, n - 1), n - 1);
        let s = schedule_order(reqs, n - 1);
        let q = insert_pos(reqs, s, n - 1);
        assert forall|i: int| 0 <= i < n implies 0 <= #[trigger] schedule_order(reqs, n)[i] < n by {
            if i < q {
                assert(schedule_order(reqs, n)[i] == s[i]);
            } else if i > q {
                assert(schedule_order(reqs, n)[i] == s[i - 1]);
            }
        }
    }
}

proof fn lemma_insert_pos_bounds(reqs: Seq<InferenceRequest>, s: Seq<int>, x: int)
    ensures
        0 <= insert_pos(reqs, s, x) <= s.len(),
    decreases s.len(),
{
    if s.len() > 0 {
        lemma_insert_pos_bounds(reqs, s.drop_last(), x);
    }
}

proof fn lemma_best_bounds(c: PrefixRadixCache, tokens: Seq<usize>, d: int)
    ensures
        c.best_upto(tokens, d) matches Some((e, _)) ==> 0 <= e && e <= d || (d <= 0 && e == 0),
    decreases d,
{
    if d > 0 {
        lemma_best_bounds(c, tokens, d - 1);
    }
}

proof fn lemma_admitted_stops(bills: Seq<int>, max: int, m: int, to: int)
    requires
        0 <= m <= to,
        admitted(bills, max, m).0 < m,
    ensures
        admitted(bills, max, to) == admitted(bills, max, m),
    decreases to - m,
{
    if to > m {
        lemma_admitted_stops(bills, max, m, to - 1);
    }
}

proof fn lemma_admitted_bounds(bills: Seq<int>, max: int, m: int)
    requires
        0 <= m,
    ensures
        0 <= admitted(bills, max, m).0 <= m,
    decreases m,
{
    if m > 0 {
        lemma_admitted_bounds(bills, max, m - 1);
    }
}

/// Indices of `requests` in scheduling order.
fn order_requests(requests: &[InferenceRequest]) -> (order: Vec<usize>)
    ensures
        order@.len() == requests@.len(),
        forall|i: int| 0 <= i < order@.len() ==> #[trigger] order@[i] as int == schedule_order(requests@, requests@.len() as int)[i],
{
    let ghost reqs = requests@;
    let mut order: Vec<usize> = Vec::new();
    let mut n: usize = 0;
    while n < requests.len()
        invariant
            n <= requests@.len(),
            reqs == requests@,
            order@.len() == n,
            forall|i: int| 0 <= i < n ==> #[trigger] order@[i] as int == schedule_order(reqs, n as int)[i],
        decreases requests@.len() - n,
    {
        let ghost s = schedule_order(reqs, n as int);
        proof {
            lemma_order_shape(reqs, n as int);
        }
        let mut j: usize = order.len();
        assert(s.subrange(0, n as int) =~= s);
        while j > 0 && (requests[n].priority > requests[order[j - 1]].priority || (requests[n].priority
            == requests[order[j - 1]].priority && requests[n].id < requests[order[j - 1]].id))
            invariant
                j <= n,
                n < requests@.len(),
                reqs == requests@,
                order@.len() == n,
                s.len() == n,
                forall|i: int| 0 <= i < n ==> #[trigger] order@[i] as int == s[i],
                forall|i: int| 0 <= i < n ==> 0 <= #[trigger] s[i] < n,
                insert_pos(reqs, s, n as int) == insert_pos(reqs, s.subrange(0, j as int), n as int),
            decreases j,
        {
            proof {
                assert(s.subrange(0, j as int).drop_last() =~= s.subrange(0, j - 1));
                assert(order@[j - 1] as int == s[j - 1]);
            }
            j -= 1;
        }
        proof {
            if j > 0 {
                assert(order@[j - 1] as int == s[j - 1]);
            }
            assert(s.subrange(0, j as int).len() == j);
            if j == n {
                assert(s.subrange(0, j as int) =~= s);
            }
        }
        let ghost before = order@;
        order.insert(j, n);
        proof {
            assert(insert_pos(reqs, s, n as int) == j as int);
            assert(schedule_order(reqs, n + 1) == s.insert(j as int, n as int));
            assert forall|i: int| 0 <= i < n + 1 implies #[trigger] order@[i] as int == schedule_order(reqs, n + 1)[i] by {
                if i < j {
                    assert(order@[i] == before[i]);
                } else if i > j {
                    assert(order@[i] == before[i - 1]);
                }
            }
        }
        n += 1;
    }
    order
}

impl RuntimeScheduler {
    /// A scheduler with an empty prefix cache and the given token budget.
    pub fn new(max_batch_tokens: usize) -> (r: Self)
        ensures
            r.prefix_cache.wf(),
            r.prefix_cache.node_count() == 1,
            forall|k: Seq<usize>| #[trigger] r.prefix_cache.lookup(k) is None,
            r.max_batch_tokens == max_batch_tokens,
    {
        RuntimeScheduler { prefix_cache: PrefixRadixCache::new(), max_batch_tokens }
    }

    /// Orders requests by priority (highest first, then lowest id; stable), bills
    /// each the prompt tokens its longest cached prefix leaves uncovered (one token
    /// once decoding), and admits them in order until the next one would exceed the
    /// budget. The first request is always admitted.
    pub fn plan_batch(&self, requests: &[InferenceRequest]) -> (r: BatchPlan)
        requires
            self.prefix_cache.wf(),
        ensures
            ({
                let order = schedule_order(requests@, requests@.len() as int);
                let bills = ordered_bills(self.prefix_cache, requests@);
                let (c, t) = admitted(bills, self.max_batch_tokens as int, requests@.len() as int);
                &&& r.requests@.len() == c
                &&& r.total_billable_tokens == t
                &&& forall|i: int| 0 <= i < c ==> #[trigger] r.requests@[i] == planned_of(self.prefix_cache, requests@[order[i]])
            }),
    {
        let ghost reqs = requests@;
        let ghost cache = self.prefix_cache;
        let ghost max = self.max_batch_tokens as int;
        let ghost order_spec = schedule_order(reqs, reqs.len() as int);
        let ghost bills = ordered_bills(cache, reqs);
        let order = order_requests(requests);
        proof {
            lemma_order_shape(reqs, reqs.len() as int);
        }
        let mut planned: Vec<PlannedRequest> = Vec::new();
        let mut total: usize = 0;
        let mut k: usize = 0;
        while k < order.len()
            invariant
                k <= order@.len(),
                order@.len() == reqs.len(),
                reqs == requests@,
                cache == self.prefix_cache,
                cache.wf(),
                max == self.max_batch_tokens as int,
                order_spec == schedule_order(reqs, reqs.len() as int),
                bills == ordered_bills(cache, reqs),
                forall|i: int| 0 <= i < order@.len() ==> #[trigger] order@[i] as int == order_spec[i],
                forall|i: int| 0 <= i < reqs.len() ==> 0 <= #[trigger] order_spec[i] < reqs.len(),
                order_spec.len() == reqs.len(),
                admitted(bills, max, k as int) == (planned@.len() as int, total as int),
                planned@.len() == k,
                forall|i: int| 0 <= i < k ==> #[trigger] planned@[i] == planned_of(cache, reqs[order_spec[i]]),
            ensures
                admitted(bills, max, reqs.len() as int) == (planned@.len() as int, total as int),
                planned@.len() <= k,
                forall|i: int| 0 <= i < planned@.len() ==> #[trigger] planned@[i] == planned_of(cache, reqs[order_spec[i]]),
            decreases order@.len() - k,
        {
            let idx: usize = order[k];
            let req = &requests[idx];
            let reusable: usize = match self.prefix_cache.longest_match(&req.prompt_tokens) {
                Some((len, _)) => len,
                None => 0,
            };
            proof {
                lemma_best_bounds(cache, req.prompt_tokens@, req.prompt_tokens@.len() as int);
                assert(reusable as int == reusable_of(cache, req.prompt_tokens@));
            }
            let state = req.state();
            let billable: usize = match state {
                RequestState::Prefill => req.prompt_tokens.len() - reusable,
                RequestState::Decode => 1,
            };
            proof {
                assert(bills[k as int] == billable_of(cache, reqs[order_spec[k as int]]));
                assert(billable as int == bills[k as int]);
            }
            if (total > self.max_batch_tokens || billable > self.max_batch_tokens - total) && planned.len() > 0 {
                proof {
                    assert(admitted(bills, max, k + 1) == admitted(bills, max, k as int));
                    lemma_admitted_stops(bills, max, k + 1, reqs.len() as int);
                    assert(admitted(bills, max, reqs.len() as int) == (planned@.len() as int, total as int));
                }
                break;
            }
            total = total + billable;
            planned.push(
                PlannedRequest {
                    id: req.id,
                    state,
                    prompt_tokens: req.prompt_tokens.len(),
                    reusable_prefix_tokens: reusable,
                    billable_tokens: billable,
                },
            );
            k += 1;
        }
        BatchPlan { requests: planned, total_billable_tokens: total }
    }
}

/// Once a sequence is cached, every prompt that extends it reuses at least that
/// many tokens, and the sequence itself matches in full.
pub proof fn lemma_cached_prefix_is_reused(c: PrefixRadixCache, cached: Seq<usize>, prompt: Seq<usize>)
    requires
        c.lookup(cached) is Some,
        cached.len() <= prompt.len(),
        prompt.subrange(0, cached.len() as int) == cached,
    ensures
        c.best_upto(prompt, prompt.len() as int) matches Some((d, _)) && cached.len() <= d <= prompt.len(),
        c.best_upto(cached, cached.len() as int) == Some((cached.len() as int, c.lookup(cached).unwrap())),
{
    lemma_best_reaches(c, prompt, cached.len() as int, prompt.len() as int);
    assert(cached.subrange(0, cached.len() as int) =~= cached);
    lemma_best_bounds(c, prompt, prompt.len() as int);
}

proof fn lemma_best_reaches(c: PrefixRadixCache, tokens: Seq<usize>, at: int, d: int)
    requires
        0 <= at <= d,
        c.lookup(tokens.subrange(0, at)) is Some,
    ensures
        c.best_upto(tokens, d) matches Some((e, _)) && at <= e <= d,
    decreases d,
{
    if d > at {
        lemma_best_reaches(c, tokens, at, d - 1);
    }
}

/// A plan stays within the token budget unless it holds a single request, and
/// its total is the sum of the bills of the admitted requests.
pub proof fn lemma_plan_within_budget(bills: Seq<int>, max: int, m: int)
    requires
        0 <= m <= bills.len(),
        forall|i: int| 0 <= i < bills.len() ==> #[trigger] bills[i] >= 0,
    ensures
        admitted(bills, max, m).0 <= 1 || admitted(bills, max, m).1 <= max,
        admitted(bills, max, m).1 == bills.subrange(0, admitted(bills, max, m).0).fold_left(
            0int,
            |acc: int, b: int| acc + b,
        ),
    decreases m,
{
    lemma_admitted_bounds(bills, max, m);
    if m > 0 {
        lemma_plan_within_budget(bills, max, m - 1);
        lemma_admitted_bounds(bills, max, m - 1);
        let (c, t) = admitted(bills, max, m - 1);
        if !(c < m - 1 || (t + bills[m - 1] > max && c > 0)) {
            assert(bills.subrange(0, c + 1).drop_last() =~= bills.subrange(0, c));
        }
    }
}

/// `k` is a prefix of `q` no longer than `d`.
pub open spec fn prefix_within(k: Seq<usize>, q: Seq<usize>, d: int) -> bool {
    k.len() <= d && k.len() <= q.len() && q.subrange(0, k.len() as int) == k
}

/// The longest cached prefix after storing `v` under `k`: `k` itself where it is
/// a prefix of the query at least as long as the best match before, and the
/// best match before otherwise.
pub open spec fn best_after_insert(
    before: Option<(int, (Seq<usize>, Seq<u64>, usize))>,
    k: Seq<usize>,
    v: (Seq<usize>, Seq<u64>, usize),
    q: Seq<usize>,
    d: int,
) -> Option<(int, (Seq<usize>, Seq<u64>, usize))> {
    if prefix_within(k, q, d) && (before matches Some((e, _)) ==> e <= k.len()) {
        Some((k.len() as int, v))
    } else {
        before
    }
}

proof fn lemma_best_after_insert_upto(c0: PrefixRadixCache, c1: PrefixRadixCache, k: Seq<usize>, v: (Seq<usize>, Seq<u64>, usize), q: Seq<usize>, d: int)
    requires
        0 <= d <= q.len(),
        forall|key: Seq<usize>| #[trigger] c1.lookup(key) == if key == k { Some(v) } else { c0.lookup(key) },
    ensures
        c1.best_upto(q, d) == best_after_insert(c0.best_upto(q, d), k, v, q, d),
    decreases d,
{
    lemma_best_bounds(c0, q, d);
    let qd = q.subrange(0, d);
    if qd == k {
        assert(k.len() == d);
        assert(q.subrange(0, k.len() as int) == k);
    } else {
        if prefix_within(k, q, d) && k.len() == d {
            assert(qd == k);
        }
        if c0.lookup(qd) is None && d > 0 {
            lemma_best_after_insert_upto(c0, c1, k, v, q, d - 1);
            if prefix_within(k, q, d) {
                assert(k.len() < d);
                assert(prefix_within(k, q, d - 1));
            }
            if prefix_within(k, q, d - 1) {
                assert(prefix_within(k, q, d));
            }
        }
        if d == 0 && prefix_within(k, q, 0) {
            assert(k.len() == 0);
            assert(qd =~= k);
        }
    }
}

/// Read after write on the prefix cache: once `v` is stored under `k` (and
/// nothing else changes), the longest cached prefix of a query `q` is `k` with
/// `v` when `k` is a prefix of `q` at least as long as the best match before;
/// otherwise it is the best match before.
pub proof fn lemma_insert_then_longest_match(c0: PrefixRadixCache, c1: PrefixRadixCache, k: Seq<usize>, v: (Seq<usize>, Seq<u64>, usize), q: Seq<usize>)
    requires
        forall|key: Seq<usize>| #[trigger] c1.lookup(key) == if key == k { Some(v) } else { c0.lookup(key) },
    ensures
        c1.best_upto(q, q.len() as int) == best_after_insert(c0.best_upto(q, q.len() as int), k, v, q, q.len() as int),
        c1.best_upto(k, k.len() as int) == Some((k.len() as int, v)),
{
    lemma_best_after_insert_upto(c0, c1, k, v, q, q.len() as int);
    assert(k.subrange(0, k.len() as int) =~= k);
}

/// Sum of the first `k` bills.
pub open spec fn bill_sum(bills: Seq<int>, k: int) -> int
    decreases k,
{
    if k <= 0 {
        0
    } else {
        bill_sum(bills, k - 1) + bills[k - 1]
    }
}

/// Admission takes the longest prefix of the bills that fits the budget, and at
/// least the first: among the first `m` (with `m >= 1`) it admits `c` bills
/// totalling `bill_sum(bills, c)`, where `c == 1` or that total fits `max`, and
/// where the next bill, if there is one, would exceed `max`.
pub proof fn lemma_admitted_is_longest_fitting_prefix(bills: Seq<int>, max: int, m: int)
    requires
        1 <= m <= bills.len(),
        forall|i: int| 0 <= i < bills.len() ==> #[trigger] bills[i] >= 0,
    ensures
        1 <= admitted(bills, max, m).0 <= m,
        admitted(bills, max, m).1 == bill_sum(bills, admitted(bills, max, m).0),
        admitted(bills, max, m).0 == 1 || bill_sum(bills, admitted(bills, max, m).0) <= max,
        admitted(bills, max, m).0 < m ==> bill_sum(bills, admitted(bills, max, m).0 + 1) > max,
    decreases m,
{
    if m == 1 {
        assert(admitted(bills, max, 0) == (0int, 0int));
        assert(bill_sum(bills, 1) == bill_sum(bills, 0) + bills[0]);
    } else {
        lemma_admitted_is_longest_fitting_prefix(bills, max, m - 1);
        let (c, t) = admitted(bills, max, m - 1);
        assert(bill_sum(bills, c + 1) == bill_sum(bills, c) + bills[c]);
    }
}

/// `s` lists request indices so that none goes before an earlier one.
pub open spec fn order_sorted(reqs: Seq<InferenceRequest>, s: Seq<int>) -> bool {
    forall|i: int, j: int| 0 <= i < j < s.len() ==> !goes_before(reqs[#[trigger] s[j]], reqs[#[trigger] s[i]])
}

/// Requests that tie (neither goes before the other) keep their input order.
pub open spec fn order_stable(reqs: Seq<InferenceRequest>, s: Seq<int>) -> bool {
    forall|i: int, j: int|
        0 <= i < j < s.len() && !goes_before(reqs[#[trigger] s[i]], reqs[#[trigger] s[j]]) && !goes_before(
            reqs[s[j]],
            reqs[s[i]],
        ) ==> s[i] < s[j]
}

/// `s` lists each of the indices `0..n` exactly once.
pub open spec fn order_permutes(s: Seq<int>, n: int) -> bool {
    &&& s.len() == n
    &&& forall|i: int| 0 <= i < n ==> 0 <= #[trigger] s[i] < n
    &&& forall|i: int, j: int| 0 <= i < j < n ==> #[trigger] s[i] != #[trigger] s[j]
}

proof fn lemma_insert_pos_props(reqs: Seq<InferenceRequest>, s: Seq<int>, x: int)
    ensures
        0 <= insert_pos(reqs, s, x) <= s.len(),
        forall|j: int| insert_pos(reqs, s, x) <= j < s.len() ==> goes_before(reqs[x], reqs[#[trigger] s[j]]),
        insert_pos(reqs, s, x) > 0 ==> !goes_before(reqs[x], reqs[s[insert_pos(reqs, s, x) - 1]]),
    decreases s.len(),
{
    if s.len() > 0 && goes_before(reqs[x], reqs[s.last()]) {
        lemma_insert_pos_props(reqs, s.drop_last(), x);
        let p = insert_pos(reqs, s, x);
        assert forall|j: int| p <= j < s.len() implies goes_before(reqs[x], reqs[#[trigger] s[j]]) by {
            if j < s.len() - 1 {
                assert(s[j] == s.drop_last()[j]);
            }
        }
        if p > 0 {
            assert(s[p - 1] == s.drop_last()[p - 1]);
        }
    }
}

/// The scheduling order is a stable sort: it lists every request once, none
/// before a request that goes before it, and ties in their input order.
pub proof fn lemma_schedule_order_is_stable_sort(reqs: Seq<InferenceRequest>, n: int)
    requires
        0 <= n,
    ensures
        order_permutes(schedule_order(reqs, n), n),
        order_sorted(reqs, schedule_order(reqs, n)),
        order_stable(reqs, schedule_order(reqs, n)),
    decreases n,
{
    if n > 0 {
        lemma_schedule_order_is_stable_sort(reqs, n - 1);
        let s = schedule_order(reqs, n - 1);
        let x = n - 1;
        let p = insert_pos(reqs, s, x);
        lemma_insert_pos_props(reqs, s, x);
        let t = schedule_order(reqs, n);
        assert(t == s.insert(p, x));
        assert(t.len() == n);
        assert forall|i: int| 0 <= i < n implies 0 <= #[trigger] t[i] < n by {
            if i < p {
                assert(t[i] == s[i]);
            } else if i > p {
                assert(t[i] == s[i - 1]);
            }
        }
        assert forall|i: int, j: int| 0 <= i < j < n implies #[trigger] t[i] != #[trigger] t[j] by {
            if i < p && j < p {
                assert(t[i] == s[i] && t[j] == s[j]);
            } else if i < p && j == p {
                assert(t[i] == s[i]);
            } else if i < p && j > p {
                assert(t[i] == s[i] && t[j] == s[j - 1]);
            } else if i == p {
                assert(t[j] == s[j - 1]);
            } else {
                assert(t[i] == s[i - 1] && t[j] == s[j - 1]);
            }
        }
        assert forall|i: int, j: int| 0 <= i < j < n implies !goes_before(reqs[#[trigger] t[j]], reqs[#[trigger] t[i]]) by {
            if i < p && j < p {
                assert(t[i] == s[i] && t[j] == s[j]);
            } else if i < p && j == p {
                assert(t[i] == s[i]);
                if i < p - 1 {
                    assert(!goes_before(reqs[s[p - 1]], reqs[s[i]]));
                }
            } else if i < p && j > p {
                assert(t[i] == s[i] && t[j] == s[j - 1]);
            } else if i == p {
                assert(t[j] == s[j - 1]);
                assert(goes_before(reqs[x], reqs[s[j - 1]]));
            } else {
                assert(t[i] == s[i - 1] && t[j] == s[j - 1]);
            }
        }
        assert forall|i: int, j: int|
            0 <= i < j < n && !goes_before(reqs[#[trigger] t[i]], reqs[#[trigger] t[j]]) && !goes_before(
                reqs[t[j]],
                reqs[t[i]],
            ) implies t[i] < t[j] by {
            if i < p && j < p {
                assert(t[i] == s[i] && t[j] == s[j]);
            } else if i < p && j == p {
                assert(t[i] == s[i]);
            } else if i < p && j > p {
                assert(t[i] == s[i] && t[j] == s[j - 1]);
            } else if i == p {
                assert(t[j] == s[j - 1]);
                assert(goes_before(reqs[x], reqs[s[j - 1]]));
            } else {
                assert(t[i] == s[i - 1] && t[j] == s[j - 1]);
            }
        }
    }
}

} // verus!
