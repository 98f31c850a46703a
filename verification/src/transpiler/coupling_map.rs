use vstd::prelude::*;

verus! {

/// The native two-qubit gate of a backend.
#[derive(Debug, Clone, Copy, PartialEq, Eq, Structural)]
pub enum TwoQubitGate {
    /// Direct CX (simulators, older backends).
    CX,
    /// Native CZ.
    CZ,
    /// Native ECR.
    ECR,
}

/// A backend configuration as the service describes it.
pub struct BackendConfiguration {
    /// Name of the backend.
    pub backend_name: String,
    /// Number of physical qubits.
    pub n_qubits: u32,
    /// Natively executable gates.
    pub basis_gates: Vec<String>,
    /// Directed pairs of connected qubits.
    pub coupling_map: Vec<[u32; 2]>,
}

/// The connectivity of a backend: its qubits, native gates and directed edges.
pub struct CouplingMap {
    /// Number of physical qubits.
    pub n_qubits: u32,
    /// Natively supported gates.
    pub basis_gates: Vec<String>,
    /// Directed edges `(control, target)`.
    pub edges: Vec<(u32, u32)>,
}

/// The targets of the edges of `edges` that leave `q`, in order.
pub open spec fn neighbors_in(edges: Seq<(u32, u32)>, q: u32) -> Seq<u32>
    decreases edges.len(),
{
    if edges.len() == 0 {
        Seq::empty()
    } else {
        let rest = neighbors_in(edges.drop_last(), q);
        if edges.last().0 == q {
            rest.push(edges.last().1)
        } else {
            rest
        }
    }
}

/// `x` is listed among the neighbors of `q` exactly when `(q, x)` is an edge.
pub proof fn lemma_neighbors_in(edges: Seq<(u32, u32)>, q: u32)
    ensures
        forall|x: u32| #[trigger] neighbors_in(edges, q).contains(x) <==> edges.contains((q, x)),
    decreases edges.len(),
{
    if edges.len() > 0 {
        let init = edges.drop_last();
        lemma_neighbors_in(init, q);
        assert(edges =~= init.push(edges.last()));
        assert forall|x: u32| #[trigger] neighbors_in(edges, q).contains(x) <==> edges.contains((q, x)) by {
            broadcast use vstd::seq_lib::lemma_seq_contains_after_push;
            assert(neighbors_in(init, q).contains(x) <==> init.contains((q, x)));
            assert(edges.contains((q, x)) <==> init.push(edges.last()).contains((q, x)));
        }
    }
}

impl CouplingMap {
    /// The directed edges, in order.
    pub open spec fn edge_seq(&self) -> Seq<(u32, u32)> {
        self.edges@
    }

    /// There is a directed edge `a -> b`.
    pub open spec fn has_edge(&self, a: u32, b: u32) -> bool {
        self.edge_seq().contains((a, b))
    }

    /// `a` and `b` are connected in one direction or the other.
    pub open spec fn adjacent(&self, a: u32, b: u32) -> bool {
        self.has_edge(a, b) || self.has_edge(b, a)
    }

    /// Some basis gate is named `name`.
    pub open spec fn has_gate(&self, name: Seq<char>) -> bool {
        exists|i: int| 0 <= i < self.basis_gates@.len() && (#[trigger] self.basis_gates@[i])@ == name
    }

    /// `p` is a non-empty walk along directed edges.
    pub open spec fn is_path(&self, p: Seq<u32>) -> bool {
        &&& p.len() >= 1
        &&& forall|i: int| 0 <= i < p.len() - 1 ==> #[trigger] self.has_edge(p[i], p[i + 1])
    }

    /// Some walk along directed edges leads from `from` to `to`.
    pub open spec fn reachable(&self, from: u32, to: u32) -> bool {
        exists|p: Seq<u32>| #[trigger] self.is_path(p) && p[0] == from && p.last() == to
    }

    /// `p` is a walk from `a` to `b` and no walk from `a` to `b` is shorter.
    pub open spec fn shortest_walk(&self, p: Seq<u32>, a: u32, b: u32) -> bool {
        &&& self.is_path(p)
        &&& p[0] == a
        &&& p.last() == b
        &&& forall|q: Seq<u32>| #[trigger] self.is_path(q) && q[0] == a && q.last() == b ==> p.len() <= q.len()
    }

    /// A shortest walk visits no qubit twice: cutting out the part between
    /// two visits would give a shorter walk.
    pub proof fn lemma_shortest_walk_distinct(&self, p: Seq<u32>, a: u32, b: u32)
        requires
            self.shortest_walk(p, a, b),
        ensures
            forall|i: int, j: int| 0 <= i < j < p.len() ==> p[i] != p[j],
    {
        assert forall|i: int, j: int| 0 <= i < j < p.len() implies p[i] != p[j] by {
            if p[i] == p[j] {
                let q = p.take(i) + p.skip(j);
                assert(q.len() == p.len() - (j - i));
                assert forall|k: int| 0 <= k < q.len() - 1 implies #[trigger] self.has_edge(q[k], q[k + 1]) by {
                    if k < i - 1 {
                        assert(q[k] == p[k] && q[k + 1] == p[k + 1]);
                        assert(self.has_edge(p[k], p[k + 1]));
                    } else if k == i - 1 {
                        assert(q[k] == p[k] && q[k + 1] == p[j]);
                        assert(self.has_edge(p[k], p[k + 1]));
                    } else {
                        let l = k - i + j;
                        assert(q[k] == p[l] && q[k + 1] == p[l + 1]);
                        assert(self.has_edge(p[l], p[l + 1]));
                    }
                }
                assert(q[0] == a) by {
                    if i == 0 {
                        assert(q[0] == p[j]);
                    } else {
                        assert(q[0] == p[0]);
                    }
                }
                assert(q.last() == b);
                assert(self.is_path(q));
            }
        }
    }

    /// Builds the coupling map of a backend configuration.
    pub fn from_config(config: BackendConfiguration) -> (r: CouplingMap)
        ensures
            r.n_qubits == config.n_qubits,
            r.basis_gates@ == config.basis_gates@,
            r.edge_seq().len() == config.coupling_map@.len(),
            forall|i: int|
                0 <= i < r.edge_seq().len() ==> #[trigger] r.edge_seq()[i] == (
                    config.coupling_map@[i][0],
                    config.coupling_map@[i][1],
                ),
    {
        let mut edges: Vec<(u32, u32)> = Vec::new();
        let mut i: usize = 0;
        while i < config.coupling_map.len()
            invariant
                i <= config.coupling_map.len(),
                edges@.len() == i,
                forall|j: int|
                    0 <= j < i ==> #[trigger] edges@[j] == (
                        config.coupling_map@[j][0],
                        config.coupling_map@[j][1],
                    ),
            decreases config.coupling_map.len() - i,
        {
            let pair = config.coupling_map[i];
            edges.push((pair[0], pair[1]));
            i += 1;
        }
        CouplingMap { n_qubits: config.n_qubits, basis_gates: config.basis_gates, edges }
    }

    fn has_basis_gate(&self, name: &String) -> (r: bool)
        ensures
            r == self.has_gate(name@),
    {
        let mut i: usize = 0;
        while i < self.basis_gates.len()
            invariant
                i <= self.basis_gates.len(),
                forall|j: int| 0 <= j < i ==> (#[trigger] self.basis_gates@[j])@ != name@,
            decreases self.basis_gates.len() - i,
        {
            if self.basis_gates[i] == *name {
                return true;
            }
            i += 1;
        }
        false
    }

    /// The native two-qubit gate: CZ if `cz` is a basis gate, else ECR if
    /// `ecr` is, else CX.
    pub fn two_qubit_gate(&self) -> (r: TwoQubitGate)
        ensures
            r == (if self.has_gate("cz"@) {
                TwoQubitGate::CZ
            } else if self.has_gate("ecr"@) {
                TwoQubitGate::ECR
            } else {
                TwoQubitGate::CX
            }),
    {
        let cz = "cz".to_owned();
        let ecr = "ecr".to_owned();
        if self.has_basis_gate(&cz) {
            TwoQubitGate::CZ
        } else if self.has_basis_gate(&ecr) {
            TwoQubitGate::ECR
        } else {
            TwoQubitGate::CX
        }
    }

    /// Whether the directed edge `control -> target` exists.
    pub fn is_connected(&self, control: u32, target: u32) -> (r: bool)
        ensures
            r == self.has_edge(control, target),
    {
        let mut i: usize = 0;
        while i < self.edges.len()
            invariant
                i <= self.edges.len(),
                forall|j: int| 0 <= j < i ==> self.edges@[j] != (control, target),
            decreases self.edges.len() - i,
        {
            let (a, b) = self.edges[i];
            if a == control && b == target {
                assert(self.edges@[i as int] == (control, target));
                return true;
            }
            i += 1;
        }
        false
    }

    /// Whether `a` and `b` are connected in either direction.
    pub fn are_neighbors(&self, a: u32, b: u32) -> (r: bool)
        ensures
            r == self.adjacent(a, b),
    {
        self.is_connected(a, b) || self.is_connected(b, a)
    }

    /// The targets of the edges that leave `qubit`, in edge order.
    pub fn neighbors(&self, qubit: u32) -> (r: Vec<u32>)
        ensures
            r@ == neighbors_in(self.edge_seq(), qubit),
    {
        let mut r: Vec<u32> = Vec::new();
        let mut i: usize = 0;
        while i < self.edges.len()
            invariant
                i <= self.edges.len(),
                r@ == neighbors_in(self.edges@.take(i as int), qubit),
            decreases self.edges.len() - i,
        {
            let (a, b) = self.edges[i];
            assert(self.edges@.take(i + 1).drop_last() =~= self.edges@.take(i as int));
            if a == qubit {
                r.push(b);
            }
            i += 1;
        }
        assert(self.edges@.take(i as int) =~= self.edges@);
        r
    }

    /// Whether `gate` is one of the basis gates.
    pub fn is_native_gate(&self, gate: &str) -> (r: bool)
        ensures
            r == self.has_gate(gate@),
    {
        let g = gate.to_owned();
        self.has_basis_gate(&g)
    }

    /// The directed edges.
    pub fn edges(&self) -> (r: &[(u32, u32)])
        ensures
            r@ == self.edge_seq(),
    {
        self.edges.as_slice()
    }
}

/// The number of `true` entries of `s`.
pub open spec fn count_true(s: Seq<bool>) -> nat
    decreases s.len(),
{
    if s.len() == 0 {
        0
    } else {
        count_true(s.drop_last()) + if s.last() { 1nat } else { 0nat }
    }
}

pub proof fn lemma_count_true_le(s: Seq<bool>)
    ensures
        count_true(s) <= s.len(),
    decreases s.len(),
{
    if s.len() > 0 {
        lemma_count_true_le(s.drop_last());
    }
}

pub proof fn lemma_count_true_set(s: Seq<bool>, i: int)
    requires
        0 <= i < s.len(),
        !s[i],
    ensures
        count_true(s.update(i, true)) == count_true(s) + 1,
    decreases s.len(),
{
    let t = s.update(i, true);
    if i == s.len() - 1 {
        assert(t.drop_last() =~= s.drop_last());
    } else {
        lemma_count_true_set(s.drop_last(), i);
        assert(t.drop_last() =~= s.drop_last().update(i, true));
    }
}

pub(crate) fn filled_bool(n: usize, b: bool) -> (r: Vec<bool>)
    ensures
        r@ == Seq::new(n as nat, |i: int| b),
{
    let mut r: Vec<bool> = Vec::new();
    let mut i: usize = 0;
    while i < n
        invariant
            i <= n,
            r@ == Seq::new(i as nat, |k: int| b),
        decreases n - i,
    {
        r.push(b);
        i += 1;
        assert(r@ =~= Seq::new(i as nat, |k: int| b));
    }
    r
}

fn filled_u32(n: usize, x: u32) -> (r: Vec<u32>)
    ensures
        r@ == Seq::new(n as nat, |i: int| x),
{
    let mut r: Vec<u32> = Vec::new();
    let mut i: usize = 0;
    while i < n
        invariant
            i <= n,
            r@ == Seq::new(i as nat, |k: int| x),
        decreases n - i,
    {
        r.push(x);
        i += 1;
        assert(r@ =~= Seq::new(i as nat, |k: int| x));
    }
    r
}

impl CouplingMap {
    /// Parent links that lead from every marked node other than `from` back
    /// towards `from` along edges, with strictly decreasing levels.
    pub open spec fn parent_links(&self, from: u32, marked: Seq<bool>, parent: Seq<u32>, lvl: Seq<nat>) -> bool {
        forall|v: int|
            0 <= v < marked.len() && #[trigger] marked[v] && v != from ==> {
                &&& parent[v] < marked.len()
                &&& marked[parent[v] as int]
                &&& self.has_edge(parent[v], v as u32)
                &&& lvl[v] == lvl[parent[v] as int] + 1
            }
    }

    /// Follows parent links from `to` back to `from` and returns the path from
    /// `from` to `to`.
    fn path_from_parents(
        &self,
        parent: &Vec<u32>,
        from: u32,
        to: u32,
        Ghost(marked): Ghost<Seq<bool>>,
        Ghost(lvl): Ghost<Seq<nat>>,
    ) -> (r: Vec<u32>)
        requires
            marked.len() == parent@.len(),
            lvl.len() == parent@.len(),
            parent@.len() <= u32::MAX,
            to < parent@.len(),
            from < parent@.len(),
            marked[to as int],
            self.parent_links(from, marked, parent@, lvl),
            lvl[from as int] == 0,
        ensures
            self.is_path(r@),
            r@[0] == from,
            r@.last() == to,
            r@.len() == lvl[to as int] + 1,
            forall|i: int|
                1 <= i < r@.len() ==> (#[trigger] r@[i] as int) < parent@.len() && r@[i] != from && marked[r@[i] as int]
                    && parent@[r@[i] as int] == r@[i - 1],
    {
        let mut back: Vec<u32> = Vec::new();
        back.push(to);
        let mut node = to;
        while node != from
            invariant
                node < parent@.len(),
                marked[node as int],
                back@.len() >= 1,
                back@[0] == to,
                back@.last() == node,
                forall|i: int| 0 <= i < back@.len() - 1 ==> #[trigger] self.has_edge(back@[i + 1], back@[i]),
                forall|i: int|
                    0 <= i < back@.len() - 1 ==> (#[trigger] back@[i] as int) < parent@.len() && back@[i] != from
                        && marked[back@[i] as int] && parent@[back@[i] as int] == back@[i + 1],
                marked.len() == parent@.len(),
                lvl.len() == parent@.len(),
                self.parent_links(from, marked, parent@, lvl),
                lvl[from as int] == 0,
                back@.len() + lvl[node as int] == lvl[to as int] + 1,
            decreases lvl[node as int],
        {
            let ghost old_back = back@;
            let p = parent[node as usize];
            assert(marked[node as int] && node as int != from as int);
            node = p;
            back.push(node);
            assert forall|i: int| 0 <= i < back@.len() - 1 implies #[trigger] self.has_edge(back@[i + 1], back@[i]) by {
                if i < old_back.len() - 1 {
                    assert(back@[i + 1] == old_back[i + 1] && back@[i] == old_back[i]);
                }
            }
            assert forall|i: int| 0 <= i < back@.len() - 1 implies (#[trigger] back@[i] as int) < parent@.len()
                && back@[i] != from && marked[back@[i] as int] && parent@[back@[i] as int] == back@[i + 1] by {
                if i < old_back.len() - 1 {
                    assert(back@[i + 1] == old_back[i + 1] && back@[i] == old_back[i]);
                }
            }
        }
        assert(lvl[node as int] == 0);
        let mut r: Vec<u32> = Vec::new();
        let mut k: usize = back.len();
        while k > 0
            invariant
                k <= back@.len(),
                r@.len() == back@.len() - k,
                forall|m: int| 0 <= m < r@.len() ==> #[trigger] r@[m] == back@[back@.len() - 1 - m],
            decreases k,
        {
            k -= 1;
            r.push(back[k]);
        }
        assert forall|i: int| 0 <= i < r@.len() - 1 implies #[trigger] self.has_edge(r@[i], r@[i + 1]) by {
            let j = back@.len() - 2 - i;
            assert(self.has_edge(back@[j + 1], back@[j]));
        }
        assert forall|i: int|
            1 <= i < r@.len() implies (#[trigger] r@[i] as int) < parent@.len() && r@[i] != from && marked[r@[i] as int]
                && parent@[r@[i] as int] == r@[i - 1] by {
            let j = back@.len() - 1 - i;
            assert(r@[i] == back@[j]);
            assert(r@[i - 1] == back@[j + 1]);
        }
        r
    }

    /// Each marked qubit carries the step ranks of its walk along parent
    /// links: `from` none, another qubit those of its parent followed by the
    /// rank of the step from its parent; there are as many as its level.
    spec fn keys_follow_parents(
        &self,
        from: u32,
        marked: Seq<bool>,
        parent: Seq<u32>,
        lvl: Seq<nat>,
        key: Seq<Seq<nat>>,
    ) -> bool {
        forall|v: int|
            0 <= v < marked.len() && #[trigger] marked[v] ==> key[v].len() == lvl[v] && (v != from ==> key[v]
                == key[parent[v] as int].push(self.step_rank(parent[v], v as u32)))
    }

    /// No walk from `from` to a marked qubit, with as many steps as its
    /// level, ranks before the qubit's key.
    spec fn keys_least(&self, from: u32, marked: Seq<bool>, lvl: Seq<nat>, key: Seq<Seq<nat>>) -> bool {
        forall|q: Seq<u32>|
            #[trigger] self.is_path(q) && q[0] == from && (q.last() as int) < marked.len() && marked[q.last() as int]
                && q.len() == lvl[q.last() as int] + 1 ==> !rank_lt(self.walk_rank(q), key[q.last() as int])
    }

    /// The key of the qubit at the end of a walk along parent links is the
    /// walk's step ranks.
    proof fn lemma_parent_walk_keys(
        &self,
        from: u32,
        marked: Seq<bool>,
        parent: Seq<u32>,
        lvl: Seq<nat>,
        key: Seq<Seq<nat>>,
        p: Seq<u32>,
        k: int,
    )
        requires
            self.keys_follow_parents(from, marked, parent, lvl, key),
            (from as int) < marked.len(),
            marked[from as int],
            lvl[from as int] == 0,
            p.len() >= 1,
            p[0] == from,
            forall|i: int|
                1 <= i < p.len() ==> (#[trigger] p[i] as int) < marked.len() && p[i] != from && marked[p[i] as int]
                    && parent[p[i] as int] == p[i - 1],
            0 <= k < p.len(),
        ensures
            key[p[k] as int] == self.walk_rank(p.take(k + 1)),
        decreases k,
    {
        if k == 0 {
            assert(key[from as int] =~= Seq::<nat>::empty());
            assert(self.walk_rank(p.take(1)) =~= Seq::<nat>::empty());
        } else {
            self.lemma_parent_walk_keys(from, marked, parent, lvl, key, p, k - 1);
            assert(marked[p[k] as int] && p[k] != from && parent[p[k] as int] == p[k - 1]);
            assert(self.walk_rank(p.take(k + 1)) =~= self.walk_rank(p.take(k)).push(self.step_rank(p[k - 1], p[k])));
        }
    }

    /// When the search at `cur` meets the unmarked `nb`, no walk from `from`
    /// to `nb` with one step more than `cur`'s level ranks before `cur`'s key
    /// followed by the rank of the step `cur -> nb`.
    #[verifier::rlimit(40)]
    proof fn lemma_found_least(
        &self,
        from: u32,
        queue: Seq<u32>,
        head: int,
        vis: Seq<bool>,
        lvl: Seq<nat>,
        key: Seq<Seq<nat>>,
        cur: u32,
        nb: u32,
    )
        requires
            vis.len() == lvl.len(),
            key.len() == lvl.len(),
            vis.len() <= u32::MAX,
            (from as int) < vis.len(),
            vis[from as int],
            lvl[from as int] == 0,
            0 <= head < queue.len(),
            cur == queue[head],
            forall|k: int| 0 <= k < queue.len() ==> ((#[trigger] queue[k]) as int) < vis.len() && vis[queue[k] as int],
            forall|v: int| 0 <= v < vis.len() && #[trigger] vis[v] ==> queue.contains(v as u32),
            forall|i: int, j: int|
                0 <= i <= j < queue.len() ==> lvl[#[trigger] queue[i] as int] <= lvl[#[trigger] queue[j] as int],
            forall|k: int, x: u32|
                0 <= k < head && #[trigger] self.has_edge(queue[k], x) ==> (x as int) < vis.len() && vis[x as int]
                    && lvl[x as int] <= lvl[queue[k] as int] + 1,
            forall|v: int| 0 <= v < vis.len() && #[trigger] vis[v] ==> key[v].len() == lvl[v],
            self.keys_least(from, vis, lvl, key),
            queue_by_key(queue, lvl, key),
            (nb as int) < vis.len(),
            !vis[nb as int],
            self.has_edge(cur, nb),
        ensures
            forall|q: Seq<u32>|
                #[trigger] self.is_path(q) && q[0] == from && q.last() == nb && q.len() == lvl[cur as int] + 2 ==> !rank_lt(
                    self.walk_rank(q),
                    key[cur as int].push(self.step_rank(cur, nb)),
                ),
    {
        let d = lvl[cur as int];
        assert forall|v: int| 0 <= v < vis.len() && vis[v] && lvl[v] < d implies exists|k: int|
            0 <= k < head && #[trigger] queue[k] == v as u32 by {
            assert(queue.contains(v as u32));
            let k = choose|k: int| 0 <= k < queue.len() && queue[k] == v as u32;
            if k >= head {
                assert(lvl[queue[head] as int] <= lvl[queue[k] as int]);
            }
        }
        assert forall|q: Seq<u32>|
            #[trigger] self.is_path(q) && q[0] == from && q.last() == nb && q.len() == d + 2 implies !rank_lt(
                self.walk_rank(q),
                key[cur as int].push(self.step_rank(cur, nb)),
            ) by {
            let q1 = q.take(d as int + 1);
            assert forall|i: int| 0 <= i < q1.len() - 1 implies #[trigger] self.has_edge(q1[i], q1[i + 1]) by {
                assert(self.has_edge(q[i], q[i + 1]));
            }
            assert(self.is_path(q1));
            self.lemma_bfs_prefix(q1, d as int, from, queue, head, vis, lvl, d);
            let u = q1[d as int];
            assert(u == q[d as int]);
            let di = d as int;
            assert(self.has_edge(q[di], q[di + 1]));
            assert(q[di + 1] == nb);
            assert(queue.contains(u));
            let k = choose|k: int| 0 <= k < queue.len() && queue[k] == u;
            if k < head {
                assert(self.has_edge(queue[k], nb));
            }
            if lvl[u as int] < d {
                let k2 = choose|k2: int| 0 <= k2 < head && #[trigger] queue[k2] == u as u32;
                assert(self.has_edge(queue[k2], nb));
            }
            assert(lvl[u as int] == d);
            let kq1 = self.walk_rank(q1);
            let s = self.step_rank(u, nb);
            assert(self.walk_rank(q) =~= kq1.push(s));
            assert(q1.last() == u);
            assert(!rank_lt(kq1, key[u as int]));
            let kc = key[cur as int];
            if u == cur {
                lemma_rank_not_lt_push(kq1, kc, s);
            } else {
                assert(k > head);
                assert(rank_lt(key[queue[head] as int], key[queue[k] as int]));
                lemma_rank_lt_total(kq1, key[u as int]);
                if kq1 != key[u as int] {
                    lemma_rank_lt_transitive(kc, key[u as int], kq1);
                }
                assert(rank_lt(kc, kq1));
                lemma_rank_lt_push(kc, kq1, self.step_rank(cur, nb), s);
                lemma_rank_lt_asymmetric(kc.push(self.step_rank(cur, nb)), kq1.push(s));
            }
        }
    }

    /// Marking `nb` from `cur`, as the search does, keeps the keys along
    /// parent links, least among walks, and in queue order.
    #[verifier::rlimit(40)]
    proof fn lemma_keys_after_find(
        &self,
        from: u32,
        queue: Seq<u32>,
        head: int,
        vis: Seq<bool>,
        parent: Seq<u32>,
        lvl: Seq<nat>,
        key: Seq<Seq<nat>>,
        cur: u32,
        nb: u32,
        j: nat,
        queue2: Seq<u32>,
        vis2: Seq<bool>,
        parent2: Seq<u32>,
        lvl2: Seq<nat>,
        key2: Seq<Seq<nat>>,
    )
        requires
            vis.len() == lvl.len(),
            key.len() == lvl.len(),
            parent.len() == lvl.len(),
            (from as int) < vis.len(),
            vis[from as int],
            lvl[from as int] == 0,
            0 <= head < queue.len(),
            cur == queue[head],
            forall|k: int| 0 <= k < queue.len() ==> ((#[trigger] queue[k]) as int) < vis.len() && vis[queue[k] as int],
            self.parent_links(from, vis, parent, lvl),
            self.keys_follow_parents(from, vis, parent, lvl, key),
            self.keys_least(from, vis, lvl, key),
            queue_by_key(queue, lvl, key),
            forall|v: int|
                0 <= v < vis.len() && #[trigger] vis[v] && v != from ==> (exists|k: int|
                    0 <= k < head && #[trigger] queue[k] == parent[v]) || (parent[v] == cur && self.step_rank(cur, v as u32)
                    < j),
            forall|q: Seq<u32>|
                #[trigger] self.is_path(q) && q[0] == from && q.last() == nb && q.len() == lvl[cur as int] + 2 ==> !rank_lt(
                    self.walk_rank(q),
                    key[cur as int].push(self.step_rank(cur, nb)),
                ),
            (nb as int) < vis.len(),
            !vis[nb as int],
            j == self.step_rank(cur, nb),
            queue2 == queue.push(nb),
            vis2 == vis.update(nb as int, true),
            parent2 == parent.update(nb as int, cur),
            lvl2 == lvl.update(nb as int, lvl[cur as int] + 1),
            key2 == key.update(nb as int, key[cur as int].push(j)),
        ensures
            self.keys_follow_parents(from, vis2, parent2, lvl2, key2),
            self.keys_least(from, vis2, lvl2, key2),
            queue_by_key(queue2, lvl2, key2),
            forall|v: int|
                0 <= v < vis2.len() && #[trigger] vis2[v] && v != from ==> (exists|k: int|
                    0 <= k < head && #[trigger] queue2[k] == parent2[v]) || (parent2[v] == cur && self.step_rank(
                    cur,
                    v as u32,
                ) < j + 1),
    {
        let n = vis.len();
        assert(vis[cur as int]);
        assert(cur != nb);
        assert forall|v: int| 0 <= v < n && #[trigger] vis2[v] implies key2[v].len() == lvl2[v] && (v != from ==> key2[v]
            == key2[parent2[v] as int].push(self.step_rank(parent2[v], v as u32))) by {
            if v != nb as int {
                assert(vis[v]);
                if v != from {
                    assert(vis[parent[v] as int]);
                    assert(parent[v] != nb);
                }
            }
        }
        assert forall|q: Seq<u32>|
            #[trigger] self.is_path(q) && q[0] == from && (q.last() as int) < vis2.len() && vis2[q.last() as int] && q.len()
                == lvl2[q.last() as int] + 1 implies !rank_lt(self.walk_rank(q), key2[q.last() as int]) by {
            if q.last() != nb {
                assert(vis[q.last() as int]);
            }
        }
        let m = queue.len() as int;
        assert forall|a: int, b: int|
            0 <= a < b < queue2.len() && lvl2[queue2[a] as int] == lvl2[queue2[b] as int] implies rank_lt(
            key2[#[trigger] queue2[a] as int],
            key2[#[trigger] queue2[b] as int],
        ) by {
            assert(queue2[a] == queue[a]);
            assert(vis[queue[a] as int]);
            assert(queue[a] != nb);
            if b < m {
                assert(queue2[b] == queue[b]);
                assert(vis[queue[b] as int]);
                assert(queue[b] != nb);
            } else {
                let w = queue[a];
                assert(queue2[b] == nb);
                assert(lvl[w as int] == lvl[cur as int] + 1);
                assert(w != from);
                let pw = parent[w as int];
                assert(vis[pw as int] && lvl[w as int] == lvl[pw as int] + 1);
                assert(key[w as int] == key[pw as int].push(self.step_rank(pw, w)));
                assert(key[pw as int].len() == lvl[pw as int]);
                assert(key[cur as int].len() == lvl[cur as int]);
                if exists|k: int| 0 <= k < head && #[trigger] queue[k] == parent[w as int] {
                    let k = choose|k: int| 0 <= k < head && #[trigger] queue[k] == parent[w as int];
                    assert(rank_lt(key[queue[k] as int], key[queue[head] as int]));
                    lemma_rank_lt_push(key[pw as int], key[cur as int], self.step_rank(pw, w), j);
                } else {
                    assert(pw == cur && self.step_rank(cur, w) < j);
                    lemma_rank_lt_last(key[cur as int], self.step_rank(cur, w), j);
                }
            }
        }
        assert forall|v: int| 0 <= v < vis2.len() && #[trigger] vis2[v] && v != from implies (exists|k: int|
            0 <= k < head && #[trigger] queue2[k] == parent2[v]) || (parent2[v] == cur && self.step_rank(cur, v as u32)
            < j + 1) by {
            if v != nb as int {
                assert(vis[v]);
                if exists|k: int| 0 <= k < head && #[trigger] queue[k] == parent[v] {
                    let k = choose|k: int| 0 <= k < head && #[trigger] queue[k] == parent[v];
                    assert(queue2[k] == queue[k]);
                }
            }
        }
    }

    /// Every node of a walk that starts in a set closed under edges is in the set.
    proof fn lemma_closed_set_holds_path(&self, p: Seq<u32>, vis: Seq<bool>)
        requires
            self.is_path(p),
            (p[0] as int) < vis.len(),
            vis[p[0] as int],
            forall|x: u32, y: u32|
                (x as int) < vis.len() && vis[x as int] && #[trigger] self.has_edge(x, y)
                    ==> (y as int) < vis.len() && vis[y as int],
        ensures
            (p.last() as int) < vis.len(),
            vis[p.last() as int],
        decreases p.len(),
    {
        if p.len() > 1 {
            let q = p.drop_last();
            assert forall|i: int| 0 <= i < q.len() - 1 implies #[trigger] self.has_edge(q[i], q[i + 1]) by {
                assert(self.has_edge(p[i], p[i + 1]));
            }
            self.lemma_closed_set_holds_path(q, vis);
            let i = p.len() - 2;
            assert(self.has_edge(p[i], p[i + 1]));
        }
    }

    /// Along a walk from `from`, while the search has not passed level `lc`,
    /// the `i`-th node has been found, at a level of at most `i`.
    proof fn lemma_bfs_prefix(
        &self,
        w: Seq<u32>,
        i: int,
        from: u32,
        queue: Seq<u32>,
        head: int,
        vis: Seq<bool>,
        lvl: Seq<nat>,
        lc: nat,
    )
        requires
            self.is_path(w),
            w[0] == from,
            0 <= i < w.len(),
            i <= lc,
            (from as int) < vis.len(),
            vis[from as int],
            lvl[from as int] == 0,
            vis.len() == lvl.len(),
            head <= queue.len(),
            forall|k: int, x: u32|
                0 <= k < head && #[trigger] self.has_edge(queue[k], x) ==> (x as int) < vis.len() && vis[x as int]
                    && lvl[x as int] <= lvl[queue[k] as int] + 1,
            forall|v: int|
                0 <= v < vis.len() && vis[v] && lvl[v] < lc ==> exists|k: int| 0 <= k < head && #[trigger] queue[k] == v as u32,
        ensures
            (w[i] as int) < vis.len(),
            vis[w[i] as int],
            lvl[w[i] as int] <= i,
        decreases i,
    {
        if i > 0 {
            self.lemma_bfs_prefix(w, i - 1, from, queue, head, vis, lvl, lc);
            let v = w[i - 1] as int;
            let j = i - 1;
            assert(self.has_edge(w[j], w[j + 1]));
            if lvl[v] < lc {
                let k = choose|k: int| 0 <= k < head && #[trigger] queue[k] == v as u32;
                assert(self.has_edge(queue[k], w[i]));
            }
        }
    }

    /// Every edge that leaves a qubit reachable from `from` leads to a qubit
    /// of the backend.
    pub open spec fn closed_from(&self, from: u32) -> bool {
        forall|a: u32, b: u32| #[trigger] self.reachable(from, a) && #[trigger] self.has_edge(a, b) ==> b < self.n_qubits
    }

    /// Both ends of every edge are qubits of the backend.
    pub open spec fn edges_on_backend(&self) -> bool {
        forall|i: int|
            0 <= i < self.edge_seq().len() ==> (#[trigger] self.edge_seq()[i]).0 < self.n_qubits
                && self.edge_seq()[i].1 < self.n_qubits
    }

    /// Every edge that leaves a qubit of the backend leads to a qubit of the
    /// backend.
    pub open spec fn closed(&self) -> bool {
        forall|i: int|
            0 <= i < self.edge_seq().len() && (#[trigger] self.edge_seq()[i]).0 < self.n_qubits ==> self.edge_seq()[i].1
                < self.n_qubits
    }

    /// On such a coupling map, a walk that starts on the backend stays on it.
    pub proof fn lemma_walk_in_backend(&self, p: Seq<u32>)
        requires
            self.closed(),
            self.is_path(p),
            p[0] < self.n_qubits,
        ensures
            forall|i: int| 0 <= i < p.len() ==> #[trigger] p[i] < self.n_qubits,
        decreases p.len(),
    {
        if p.len() > 1 {
            let q = p.drop_last();
            assert forall|i: int| 0 <= i < q.len() - 1 implies #[trigger] self.has_edge(q[i], q[i + 1]) by {
                assert(self.has_edge(p[i], p[i + 1]));
            }
            self.lemma_walk_in_backend(q);
            let k = p.len() - 2;
            assert(self.has_edge(p[k], p[k + 1]));
            let e = choose|e: int| 0 <= e < self.edge_seq().len() && self.edge_seq()[e] == (p[k], p[k + 1]);
            assert(q[k] == p[k]);
            assert forall|i: int| 0 <= i < p.len() implies #[trigger] p[i] < self.n_qubits by {
                if i < q.len() {
                    assert(q[i] == p[i]);
                }
            }
        }
    }

    /// On such a coupling map, the search from a qubit of the backend meets
    /// only edges that stay on the backend.
    pub proof fn lemma_closed_from(&self, a: u32)
        requires
            self.closed(),
            a < self.n_qubits,
        ensures
            self.closed_from(a),
    {
        assert forall|x: u32, b: u32| #[trigger] self.reachable(a, x) && #[trigger] self.has_edge(x, b) implies b
            < self.n_qubits by {
            let p = choose|p: Seq<u32>| #[trigger] self.is_path(p) && p[0] == a && p.last() == x;
            self.lemma_walk_in_backend(p);
            assert(p[p.len() - 1] < self.n_qubits);
            let e = choose|e: int| 0 <= e < self.edge_seq().len() && self.edge_seq()[e] == (x, b);
        }
    }

    /// A walk to `a` followed by the edge `a -> b` is a walk to `b`.
    proof fn lemma_reach_step(&self, from: u32, a: u32, b: u32)
        requires
            self.reachable(from, a),
            self.has_edge(a, b),
        ensures
            self.reachable(from, b),
    {
        let p = choose|p: Seq<u32>| #[trigger] self.is_path(p) && p[0] == from && p.last() == a;
        let q = p.push(b);
        assert forall|i: int| 0 <= i < q.len() - 1 implies #[trigger] self.has_edge(q[i], q[i + 1]) by {
            if i < p.len() - 1 {
                assert(q[i] == p[i] && q[i + 1] == p[i + 1]);
                assert(self.has_edge(p[i], p[i + 1]));
            } else {
                assert(q[i] == a && q[i + 1] == b);
            }
        }
        assert(self.is_path(q) && q[0] == from && q.last() == b);
    }

    /// A shortest walk from `from` to `to` along directed edges, found by
    /// breadth-first search that visits out-neighbors in edge order; `None`
    /// when `to` cannot be reached.
    pub fn shortest_path(&self, from: u32, to: u32) -> (r: Option<Vec<u32>>)
        requires
            from == to || (from < self.n_qubits && self.closed_from(from)),
        ensures
            from == to ==> r is Some && r->0@ == seq![from],
            r is Some ==> self.first_shortest_walk(r->0@, from, to),
            r is None <==> !self.reachable(from, to),
    {
        if from == to {
            let mut v: Vec<u32> = Vec::new();
            v.push(from);
            assert(v@ =~= seq![from]);
            assert(self.is_path(v@));
            assert forall|q: Seq<u32>| #[trigger] self.shortest_walk(q, from, to) implies !rank_lt(
                self.walk_rank(q),
                self.walk_rank(v@),
            ) by {
                assert(q.len() <= v@.len());
                assert(self.walk_rank(q).len() == 0);
            }
            return Some(v);
        }
        let n = self.n_qubits as usize;
        let mut visited = filled_bool(n, false);
        let mut parent = filled_u32(n, u32::MAX);
        let ghost mut lvl: Seq<nat> = Seq::new(n as nat, |i: int| 0nat);
        let ghost mut key: Seq<Seq<nat>> = Seq::new(n as nat, |i: int| Seq::<nat>::empty());
        let mut queue: Vec<u32> = Vec::new();
        let mut head: usize = 0;
        proof {
            lemma_count_true_set(visited@, from as int);
            assert(count_true(visited@) == 0) by {
                lemma_count_true_le(visited@.take(0));
                assert(forall|s: Seq<bool>| s.len() == 0 ==> count_true(s) == 0);
                lemma_count_zero(visited@);
            }
        }
        visited.set(from as usize, true);
        proof {
            assert(self.is_path(seq![from]));
            assert(seq![from].last() == from);
            assert(self.reachable(from, from));
            assert forall|v: int| 0 <= v < n && #[trigger] visited@[v] implies self.reachable(from, v as u32) by {
                if v != from as int {
                    assert(!Seq::new(n as nat, |i: int| false)[v]);
                }
            }
        }
        queue.push(from);
        assert(queue@[0] == from);
        proof {
            assert forall|q: Seq<u32>|
                #[trigger] self.is_path(q) && q[0] == from && (q.last() as int) < visited@.len() && visited@[q.last() as int]
                    && q.len() == lvl[q.last() as int] + 1 implies !rank_lt(self.walk_rank(q), key[q.last() as int]) by {
                assert(self.walk_rank(q).len() == 0);
            }
        }
        while head < queue.len()
            invariant
                n == self.n_qubits,
                self.closed_from(from),
                forall|v: int| 0 <= v < n && #[trigger] visited@[v] ==> self.reachable(from, v as u32),
                from < n,
                from != to,
                visited@.len() == n,
                parent@.len() == n,
                lvl.len() == n,
                head <= queue@.len(),
                queue@.len() == count_true(visited@),
                visited@[from as int],
                (to as int) < n ==> !visited@[to as int],
                forall|k: int| 0 <= k < queue@.len() ==> (#[trigger] queue@[k]) < n && visited@[queue@[k] as int],
                forall|v: int| 0 <= v < n && #[trigger] visited@[v] ==> queue@.contains(v as u32),
                self.parent_links(from, visited@, parent@, lvl),
                lvl[from as int] == 0,
                forall|i: int, j: int|
                    0 <= i <= j < queue@.len() ==> lvl[#[trigger] queue@[i] as int] <= lvl[#[trigger] queue@[j] as int],
                head < queue@.len() ==> forall|k: int|
                    0 <= k < queue@.len() ==> lvl[#[trigger] queue@[k] as int] <= lvl[queue@[head as int] as int] + 1,
                forall|k: int, x: u32|
                    0 <= k < head && #[trigger] self.has_edge(queue@[k], x) ==> x < n && visited@[x as int] && lvl[x as int]
                        <= lvl[queue@[k] as int] + 1,
                key.len() == n,
                self.keys_follow_parents(from, visited@, parent@, lvl, key),
                self.keys_least(from, visited@, lvl, key),
                queue_by_key(queue@, lvl, key),
                forall|v: int|
                    0 <= v < n && #[trigger] visited@[v] && v != from ==> exists|k: int|
                        0 <= k < head && #[trigger] queue@[k] == parent@[v],
            decreases n - head,
        {
            proof {
                lemma_count_true_le(visited@);
            }
            let current = queue[head];
            let nbrs = self.neighbors(current);
            proof {
                lemma_neighbors_in(self.edge_seq(), current);
            }
            let mut j: usize = 0;
            while j < nbrs.len()
                invariant
                    n == self.n_qubits,
                    self.closed_from(from),
                    forall|v: int| 0 <= v < n && #[trigger] visited@[v] ==> self.reachable(from, v as u32),
                    from < n,
                    from != to,
                    current == queue@[head as int],
                    head < queue@.len(),
                    nbrs@ == neighbors_in(self.edge_seq(), current),
                    forall|x: u32| #[trigger] nbrs@.contains(x) <==> self.edge_seq().contains((current, x)),
                    j <= nbrs@.len(),
                    visited@.len() == n,
                    parent@.len() == n,
                    lvl.len() == n,
                    queue@.len() == count_true(visited@),
                    visited@[from as int],
                    (to as int) < n ==> !visited@[to as int],
                    forall|k: int| 0 <= k < queue@.len() ==> (#[trigger] queue@[k]) < n && visited@[queue@[k] as int],
                    forall|v: int| 0 <= v < n && #[trigger] visited@[v] ==> queue@.contains(v as u32),
                    self.parent_links(from, visited@, parent@, lvl),
                    lvl[from as int] == 0,
                    forall|i: int, j: int|
                        0 <= i <= j < queue@.len() ==> lvl[#[trigger] queue@[i] as int] <= lvl[#[trigger] queue@[j] as int],
                    forall|k: int| 0 <= k < queue@.len() ==> lvl[#[trigger] queue@[k] as int] <= lvl[current as int] + 1,
                    forall|k: int, x: u32|
                        0 <= k < head && #[trigger] self.has_edge(queue@[k], x) ==> x < n && visited@[x as int] && lvl[x as int]
                            <= lvl[queue@[k] as int] + 1,
                    forall|jj: int|
                        0 <= jj < j ==> (#[trigger] nbrs@[jj]) < n && visited@[nbrs@[jj] as int] && lvl[nbrs@[jj] as int]
                            <= lvl[current as int] + 1,
                    key.len() == n,
                    self.keys_follow_parents(from, visited@, parent@, lvl, key),
                    self.keys_least(from, visited@, lvl, key),
                    queue_by_key(queue@, lvl, key),
                    forall|v: int|
                        0 <= v < n && #[trigger] visited@[v] && v != from ==> (exists|k: int|
                            0 <= k < head && #[trigger] queue@[k] == parent@[v]) || (parent@[v] == current
                            && self.step_rank(current, v as u32) < j),
                decreases nbrs@.len() - j,
            {
                let nb = nbrs[j];
                assert(nbrs@.contains(nb));
                assert(self.has_edge(current, nb));
                proof {
                    assert(visited@[current as int]);
                    assert(self.reachable(from, current));
                    assert(nb < n);
                }
                if !visited[nb as usize] {
                    let ghost old_vis = visited@;
                    let ghost old_queue = queue@;
                    let ghost old_lvl = lvl;
                    let ghost old_key = key;
                    let ghost old_parent = parent@;
                    proof {
                        assert forall|jj: int| 0 <= jj < j implies nbrs@[jj] != nb by {
                            assert(visited@[nbrs@[jj] as int]);
                        }
                        lemma_first_pos(nbrs@, nb, j as int);
                        assert(self.step_rank(current, nb) == j);
                        assert forall|v: int| 0 <= v < n && #[trigger] visited@[v] implies key[v].len() == lvl[v] by {}
                        self.lemma_found_least(from, queue@, head as int, visited@, lvl, key, current, nb);
                        lemma_count_true_set(visited@, nb as int);
                        lemma_count_true_le(visited@.update(nb as int, true));
                    }
                    visited.set(nb as usize, true);
                    proof {
                        self.lemma_reach_step(from, current, nb);
                        assert forall|v: int| 0 <= v < n && #[trigger] visited@[v] implies self.reachable(from, v as u32) by {
                            if v != nb as int {
                                assert(old_vis[v]);
                            }
                        }
                    }
                    parent.set(nb as usize, current);
                    proof {
                        lvl = lvl.update(nb as int, lvl[current as int] + 1);
                        key = key.update(nb as int, key[current as int].push(j as nat));
                    }
                    assert forall|v: int| 0 <= v < n && #[trigger] visited@[v] implies queue@.push(nb).contains(v as u32) by {
                        broadcast use vstd::seq_lib::lemma_seq_contains_after_push;
                        if v != nb as int {
                            assert(old_vis[v]);
                        }
                    }
                    queue.push(nb);
                    proof {
                        self.lemma_keys_after_find(
                            from,
                            old_queue,
                            head as int,
                            old_vis,
                            old_parent,
                            old_lvl,
                            old_key,
                            current,
                            nb,
                            j as nat,
                            queue@,
                            visited@,
                            parent@,
                            lvl,
                            key,
                        );
                    }
                    assert forall|k: int, x: u32|
                        0 <= k < head && #[trigger] self.has_edge(queue@[k], x) implies x < n && visited@[x as int]
                            && lvl[x as int] <= lvl[queue@[k] as int] + 1 by {
                        assert(queue@[k] == old_queue[k]);
                        assert(old_vis[x as int]);
                    }
                    if nb == to {
                        let p = self.path_from_parents(&parent, from, to, Ghost(visited@), Ghost(lvl));
                        proof {
                            self.lemma_parent_walk_keys(from, visited@, parent@, lvl, key, p@, p@.len() - 1);
                            assert(p@.take(p@.len() as int) =~= p@);
                            assert forall|w: Seq<u32>| #[trigger] self.is_path(w) && w[0] == from && w.last() == to implies p@.len()
                                <= w.len() by {
                                if w.len() < p@.len() {
                                    assert forall|v: int|
                                        0 <= v < n && old_vis[v] && old_lvl[v] < old_lvl[current as int] implies exists|k: int|
                                        0 <= k < head && #[trigger] old_queue[k] == v as u32 by {
                                        assert(old_queue.contains(v as u32));
                                        let k = choose|k: int| 0 <= k < old_queue.len() && old_queue[k] == v as u32;
                                        if k >= head {
                                            assert(old_lvl[old_queue[head as int] as int] <= old_lvl[old_queue[k] as int]);
                                        }
                                    }
                                    self.lemma_bfs_prefix(
                                        w,
                                        (w.len() - 1) as int,
                                        from,
                                        old_queue,
                                        head as int,
                                        old_vis,
                                        old_lvl,
                                        old_lvl[current as int],
                                    );
                                }
                            }
                        }
                        assert forall|w: Seq<u32>| #[trigger] self.shortest_walk(w, from, to) implies !rank_lt(
                            self.walk_rank(w),
                            self.walk_rank(p@),
                        ) by {
                            assert(w.len() <= p@.len());
                            assert(p@.len() <= w.len());
                            assert(self.is_path(w));
                        }
                        return Some(p);
                    }
                }
                j += 1;
            }
            assert forall|k: int, x: u32|
                0 <= k < head + 1 && #[trigger] self.has_edge(queue@[k], x) implies x < n && visited@[x as int]
                    && lvl[x as int] <= lvl[queue@[k] as int] + 1 by {
                if k == head {
                    assert(nbrs@.contains(x));
                    let jj = choose|jj: int| 0 <= jj < nbrs@.len() && nbrs@[jj] == x;
                    assert(visited@[nbrs@[jj] as int]);
                }
            }
            assert forall|v: int| 0 <= v < n && #[trigger] visited@[v] && v != from implies exists|k: int|
                0 <= k < head + 1 && #[trigger] queue@[k] == parent@[v] by {
                if !(exists|k: int| 0 <= k < head && #[trigger] queue@[k] == parent@[v]) {
                    assert(queue@[head as int] == parent@[v]);
                }
            }
            head += 1;
            assert(head < queue@.len() ==> lvl[queue@[head - 1] as int] <= lvl[queue@[head as int] as int]);
        }
        proof {
            if self.reachable(from, to) {
                let p = choose|p: Seq<u32>| #[trigger] self.is_path(p) && p[0] == from && p.last() == to;
                assert forall|x: u32, y: u32|
                    (x as int) < visited@.len() && visited@[x as int] && #[trigger] self.has_edge(x, y)
                        implies (y as int) < visited@.len() && visited@[y as int] by {
                    assert(queue@.contains(x));
                    let k = choose|k: int| 0 <= k < queue@.len() && queue@[k] == x;
                    assert(self.has_edge(queue@[k], y));
                }
                self.lemma_closed_set_holds_path(p, visited@);
            }
        }
        None
    }
}

proof fn lemma_count_zero(s: Seq<bool>)
    requires
        forall|i: int| 0 <= i < s.len() ==> !s[i],
    ensures
        count_true(s) == 0,
    decreases s.len(),
{
    if s.len() > 0 {
        lemma_count_zero(s.drop_last());
    }
}

/// Within each level, the queue lists qubits in increasing key order.
spec fn queue_by_key(queue: Seq<u32>, lvl: Seq<nat>, key: Seq<Seq<nat>>) -> bool {
    forall|i: int, j: int|
        0 <= i < j < queue.len() && lvl[queue[i] as int] == lvl[queue[j] as int] ==> rank_lt(
            key[#[trigger] queue[i] as int],
            key[#[trigger] queue[j] as int],
        )
}

/// The position of the first `x` in `s`; meaningful when `s` holds `x`.
#[verifier::opaque]
pub open spec fn first_pos(s: Seq<u32>, x: u32) -> int {
    choose|k: int| 0 <= k < s.len() && s[k] == x && forall|i: int| 0 <= i < k ==> s[i] != x
}

/// A position of `x` with no `x` before it is the first position of `x`.
pub proof fn lemma_first_pos(s: Seq<u32>, x: u32, k: int)
    requires
        0 <= k < s.len(),
        s[k] == x,
        forall|i: int| 0 <= i < k ==> s[i] != x,
    ensures
        first_pos(s, x) == k,
{
    reveal(first_pos);
    let c = first_pos(s, x);
    assert(0 <= k < s.len() && s[k] == x && forall|i: int| 0 <= i < k ==> s[i] != x);
    if c < k {
        assert(s[c] != x);
    }
    if c > k {
        assert(s[k] != x);
    }
}

/// A sequence that holds `x` has a position of `x` with no `x` before it.
proof fn lemma_earliest(s: Seq<u32>, x: u32) -> (k: int)
    requires
        s.contains(x),
    ensures
        0 <= k < s.len(),
        s[k] == x,
        forall|i: int| 0 <= i < k ==> s[i] != x,
    decreases s.len(),
{
    let init = s.drop_last();
    if init.contains(x) {
        let k = lemma_earliest(init, x);
        assert forall|i: int| 0 <= i < k implies s[i] != x by {
            assert(s[i] == init[i]);
        }
        k
    } else {
        let k = s.len() - 1;
        assert forall|i: int| 0 <= i < k implies s[i] != x by {
            assert(s[i] == init[i]);
            assert(!(init[i] == x));
        }
        let j = choose|j: int| 0 <= j < s.len() && s[j] == x;
        if j < k {
            assert(init[j] == x);
        }
        k
    }
}

/// When `s` holds `x`, its first position holds `x`.
pub proof fn lemma_first_pos_held(s: Seq<u32>, x: u32)
    requires
        s.contains(x),
    ensures
        0 <= first_pos(s, x) < s.len(),
        s[first_pos(s, x)] == x,
{
    let k = lemma_earliest(s, x);
    lemma_first_pos(s, x, k);
}

/// `a` and `b` agree before position `i`, where `a` has the smaller entry.
pub open spec fn first_smaller_at(a: Seq<nat>, b: Seq<nat>, i: int) -> bool {
    &&& 0 <= i < a.len()
    &&& i < b.len()
    &&& a.take(i) == b.take(i)
    &&& a[i] < b[i]
}

/// `a` comes before `b` in lexicographic order, at a position both have.
pub open spec fn rank_lt(a: Seq<nat>, b: Seq<nat>) -> bool {
    exists|i: int| #[trigger] first_smaller_at(a, b, i)
}

/// The order is strict.
pub proof fn lemma_rank_lt_asymmetric(a: Seq<nat>, b: Seq<nat>)
    ensures
        rank_lt(a, b) ==> !rank_lt(b, a),
{
    if rank_lt(a, b) && rank_lt(b, a) {
        let i = choose|i: int| #[trigger] first_smaller_at(a, b, i);
        let j = choose|j: int| #[trigger] first_smaller_at(b, a, j);
        if i < j {
            assert(a.take(j)[i] == b.take(j)[i]);
        } else if j < i {
            assert(a.take(i)[j] == b.take(i)[j]);
        }
    }
}

/// The order is transitive.
pub proof fn lemma_rank_lt_transitive(a: Seq<nat>, b: Seq<nat>, c: Seq<nat>)
    requires
        rank_lt(a, b),
        rank_lt(b, c),
    ensures
        rank_lt(a, c),
{
    let i = choose|i: int| #[trigger] first_smaller_at(a, b, i);
    let j = choose|j: int| #[trigger] first_smaller_at(b, c, j);
    if i < j {
        assert(b.take(j)[i] == c.take(j)[i]);
        assert(a.take(i) =~= c.take(i)) by {
            assert forall|k: int| 0 <= k < i implies a.take(i)[k] == c.take(i)[k] by {
                assert(a.take(i)[k] == b.take(i)[k]);
                assert(b.take(j)[k] == c.take(j)[k]);
            }
        }
        assert(first_smaller_at(a, c, i));
    } else if j < i {
        assert(a.take(i)[j] == b.take(i)[j]);
        assert(a.take(j) =~= c.take(j)) by {
            assert forall|k: int| 0 <= k < j implies a.take(j)[k] == c.take(j)[k] by {
                assert(a.take(i)[k] == b.take(i)[k]);
                assert(b.take(j)[k] == c.take(j)[k]);
            }
        }
        assert(first_smaller_at(a, c, j));
    } else {
        assert(a.take(i) =~= c.take(i));
        assert(first_smaller_at(a, c, i));
    }
}

/// Of two different sequences of one length, one comes before the other.
pub proof fn lemma_rank_lt_total(a: Seq<nat>, b: Seq<nat>)
    requires
        a.len() == b.len(),
    ensures
        a != b ==> rank_lt(a, b) || rank_lt(b, a),
    decreases a.len(),
{
    if a != b && a.len() > 0 {
        let n = a.len() - 1;
        if a.drop_last() == b.drop_last() {
            assert(a.take(n) =~= b.take(n)) by {
                assert(a.take(n) =~= a.drop_last());
                assert(b.take(n) =~= b.drop_last());
            }
            if a[n] == b[n] {
                assert(a =~= b) by {
                    assert forall|k: int| 0 <= k < a.len() implies a[k] == b[k] by {
                        if k < n {
                            assert(a.drop_last()[k] == b.drop_last()[k]);
                        }
                    }
                }
            } else if a[n] < b[n] {
                assert(first_smaller_at(a, b, n));
            } else {
                assert(first_smaller_at(b, a, n));
            }
        } else {
            lemma_rank_lt_total(a.drop_last(), b.drop_last());
            if rank_lt(a.drop_last(), b.drop_last()) {
                let i = choose|i: int| #[trigger] first_smaller_at(a.drop_last(), b.drop_last(), i);
                assert(a.take(i) =~= a.drop_last().take(i));
                assert(b.take(i) =~= b.drop_last().take(i));
                assert(first_smaller_at(a, b, i));
            } else {
                let i = choose|i: int| #[trigger] first_smaller_at(b.drop_last(), a.drop_last(), i);
                assert(a.take(i) =~= a.drop_last().take(i));
                assert(b.take(i) =~= b.drop_last().take(i));
                assert(first_smaller_at(b, a, i));
            }
        }
    } else if a.len() == 0 {
        assert(a =~= b);
    }
}

/// Extending two sequences of one length keeps their order.
pub proof fn lemma_rank_lt_push(a: Seq<nat>, b: Seq<nat>, x: nat, y: nat)
    requires
        a.len() == b.len(),
        rank_lt(a, b),
    ensures
        rank_lt(a.push(x), b.push(y)),
{
    let i = choose|i: int| #[trigger] first_smaller_at(a, b, i);
    assert(a.push(x).take(i) =~= a.take(i));
    assert(b.push(y).take(i) =~= b.take(i));
    assert(first_smaller_at(a.push(x), b.push(y), i));
}

/// A sequence extended by a smaller entry comes first.
pub proof fn lemma_rank_lt_last(a: Seq<nat>, x: nat, y: nat)
    requires
        x < y,
    ensures
        rank_lt(a.push(x), a.push(y)),
{
    let i = a.len() as int;
    assert(a.push(x).take(i) =~= a);
    assert(a.push(y).take(i) =~= a);
    assert(first_smaller_at(a.push(x), a.push(y), i));
}

/// Extending two sequences of one length by the same entry keeps them unordered.
pub proof fn lemma_rank_not_lt_push(a: Seq<nat>, b: Seq<nat>, x: nat)
    requires
        a.len() == b.len(),
        !rank_lt(a, b),
    ensures
        !rank_lt(a.push(x), b.push(x)),
{
    if rank_lt(a.push(x), b.push(x)) {
        let i = choose|i: int| #[trigger] first_smaller_at(a.push(x), b.push(x), i);
        if i < a.len() {
            assert(a.take(i) =~= a.push(x).take(i));
            assert(b.take(i) =~= b.push(x).take(i));
            assert(first_smaller_at(a, b, i));
        }
    }
}

/// Coming before a sequence ending in `x` means coming before it ending in a larger `y`.
pub proof fn lemma_rank_lt_raise(a: Seq<nat>, b: Seq<nat>, x: nat, y: nat)
    requires
        a.len() == b.len() + 1,
        rank_lt(a, b.push(x)),
        x <= y,
    ensures
        rank_lt(a, b.push(y)),
{
    let i = choose|i: int| #[trigger] first_smaller_at(a, b.push(x), i);
    assert(b.push(x).take(i) =~= b.push(y).take(i));
    assert(first_smaller_at(a, b.push(y), i));
}

impl CouplingMap {
    /// The rank of the step `u -> x`: where `x` first appears among the
    /// out-neighbors of `u`, listed in edge order.
    pub open spec fn step_rank(&self, u: u32, x: u32) -> nat {
        first_pos(neighbors_in(self.edge_seq(), u), x) as nat
    }

    /// The ranks of the steps of a walk, in order.
    pub open spec fn walk_rank(&self, p: Seq<u32>) -> Seq<nat> {
        Seq::new((p.len() - 1) as nat, |i: int| self.step_rank(p[i], p[i + 1]))
    }

    /// `p` is the shortest walk from `a` to `b` that breadth-first search in
    /// edge order finds: of all shortest walks, the one that, at the first
    /// step where it differs from another, takes the out-neighbor listed
    /// earlier.
    pub open spec fn first_shortest_walk(&self, p: Seq<u32>, a: u32, b: u32) -> bool {
        &&& self.shortest_walk(p, a, b)
        &&& forall|q: Seq<u32>| #[trigger] self.shortest_walk(q, a, b) ==> !rank_lt(self.walk_rank(q), self.walk_rank(p))
    }

    /// Two walks from one qubit with the same step ranks are the same walk.
    proof fn lemma_rank_determines(&self, p: Seq<u32>, q: Seq<u32>, k: int)
        requires
            self.is_path(p),
            self.is_path(q),
            p.len() == q.len(),
            p[0] == q[0],
            self.walk_rank(p) == self.walk_rank(q),
            0 <= k < p.len(),
        ensures
            p[k] == q[k],
        decreases k,
    {
        if k > 0 {
            self.lemma_rank_determines(p, q, k - 1);
            let u = p[k - 1];
            let s = neighbors_in(self.edge_seq(), u);
            let j = k - 1;
            assert(self.has_edge(p[j], p[j + 1]));
            assert(self.has_edge(q[j], q[j + 1]));
            lemma_neighbors_in(self.edge_seq(), u);
            assert(s.contains(p[k]));
            assert(s.contains(q[k]));
            lemma_first_pos_held(s, p[k]);
            lemma_first_pos_held(s, q[k]);
            assert(self.walk_rank(p)[j] == self.step_rank(p[j], p[j + 1]));
            assert(self.walk_rank(q)[j] == self.step_rank(q[j], q[j + 1]));
            assert(first_pos(s, p[k]) == first_pos(s, q[k]));
        }
    }

    /// There is at most one such walk: the contract of `shortest_path` fixes
    /// the walk it returns.
    pub proof fn lemma_first_shortest_walk_unique(&self, p: Seq<u32>, q: Seq<u32>, a: u32, b: u32)
        requires
            self.first_shortest_walk(p, a, b),
            self.first_shortest_walk(q, a, b),
        ensures
            p == q,
    {
        assert(p.len() <= q.len() && q.len() <= p.len());
        lemma_rank_lt_total(self.walk_rank(p), self.walk_rank(q));
        assert(self.walk_rank(p) == self.walk_rank(q));
        assert forall|k: int| 0 <= k < p.len() implies p[k] == q[k] by {
            self.lemma_rank_determines(p, q, k);
        }
        assert(p =~= q);
    }
}

} // verus!
