use vstd::prelude::*;

verus! {

/// The operation that produced a node of the computation graph.
#[derive(Clone, Copy, PartialEq, Eq, Structural, Debug)]
pub enum Op {
    /// An input or parameter, created directly from a scalar.
    Leaf,
    /// `a + b`.
    Add,
    /// `a * b`.
    Mul,
    /// `a ^ b`; the gradient is pushed into the base only.
    Pow,
    /// `tanh(a)`.
    Tanh,
}

impl Op {
    /// How many operands an operation of this kind takes.
    pub open spec fn arity(self) -> nat {
        match self {
            Op::Leaf => 0,
            Op::Tanh => 1,
            _ => 2,
        }
    }
}

/// The nodes listed by a depth-first walk from `i`, appended to `seen`: `i`
/// itself unless `seen` already holds it, and then, for each operand in
/// argument order, the walk from that operand.
pub open spec fn dfs_from(nodes: Seq<Node>, i: int, seen: Seq<usize>) -> Seq<usize>
    decreases i, nodes[i].deps@.len() + 1,
{
    if !(0 <= i < nodes.len()) || seen.contains(i as usize) {
        seen
    } else {
        dfs_deps(nodes, i, 0, seen.push(i as usize))
    }
}

/// The walks from the operands of node `i`, from the `k`-th one on, each
/// appended to what the ones before it listed.
pub open spec fn dfs_deps(nodes: Seq<Node>, i: int, k: int, seen: Seq<usize>) -> Seq<usize>
    decreases i, nodes[i].deps@.len() - k,
{
    if 0 <= i < nodes.len() && 0 <= k < nodes[i].deps@.len() && nodes[i].deps@[k] < i {
        dfs_deps(nodes, i, k + 1, dfs_from(nodes, nodes[i].deps@[k] as int, seen))
    } else {
        seen
    }
}

/// One vertex of the graph: its operation and its operands, in argument order,
/// as indices of earlier nodes.
#[derive(Debug)]
pub struct Node {
    pub op: Op,
    pub deps: Vec<usize>,
}

/// A computation graph kept as an arena: a node is named by its index, and
/// every operand of a node is an earlier node, so the graph is acyclic.
pub struct Graph {
    nodes: Vec<Node>,
}

impl View for Graph {
    type V = Seq<Node>;

    closed spec fn view(&self) -> Seq<Node> {
        self.nodes@
    }
}

impl Graph {
    /// Every node has as many operands as its operation takes, and each
    /// operand was created before the node that uses it.
    pub open spec fn wf(&self) -> bool {
        &&& forall|i: int| 0 <= i < self@.len() ==> #[trigger] self@[i].deps@.len() == self@[i].op.arity()
        &&& forall|i: int, k: int|
            0 <= i < self@.len() && 0 <= k < self@[i].deps@.len() ==> #[trigger] self@[i].deps@[k] < i
    }

    /// Node `j` is node `i` or lies on a chain of operands below it.
    pub open spec fn reaches(&self, i: int, j: int) -> bool
        decreases i,
    {
        if 0 <= i < self@.len() {
            i == j || exists|k: int|
                0 <= k < self@[i].deps@.len() && 0 <= #[trigger] self@[i].deps@[k] < i
                    && self.reaches(self@[i].deps@[k] as int, j)
        } else {
            false
        }
    }

    /// An empty graph.
    pub fn new() -> (g: Graph)
        ensures
            g@.len() == 0,
            g.wf(),
    {
        Graph { nodes: Vec::new() }
    }

    /// The number of nodes.
    pub fn len(&self) -> (r: usize)
        ensures
            r == self@.len(),
    {
        self.nodes.len()
    }

    /// The operation of node `i`.
    pub fn op(&self, i: usize) -> (r: Op)
        requires
            i < self@.len(),
        ensures
            r == self@[i as int].op,
    {
        self.nodes[i].op
    }

    /// The operands of node `i`, in argument order.
    pub fn deps(&self, i: usize) -> (r: &Vec<usize>)
        requires
            i < self@.len(),
        ensures
            r@ == self@[i as int].deps@,
    {
        &self.nodes[i].deps
    }

    fn push_node(&mut self, op: Op, deps: Vec<usize>) -> (r: usize)
        requires
            old(self).wf(),
            deps@.len() == op.arity(),
            forall|k: int| 0 <= k < deps@.len() ==> #[trigger] deps@[k] < old(self)@.len(),
        ensures
            r == old(self)@.len(),
            final(self)@.len() == old(self)@.len() + 1,
            final(self)@.drop_last() == old(self)@,
            final(self)@[r as int].op == op,
            final(self)@[r as int].deps@ == deps@,
            final(self).wf(),
    {
        let r = self.nodes.len();
        self.nodes.push(Node { op, deps });
        assert(self@.drop_last() =~= old(self)@);
        assert forall|i: int, k: int|
            0 <= i < self@.len() && 0 <= k < self@[i].deps@.len() implies #[trigger] self@[i].deps@[k] < i by {
            if i < r {
                assert(self@[i] == old(self)@[i]);
            }
        }
        r
    }

    /// Appends a leaf: a node with no operands.
    pub fn leaf(&mut self) -> (r: usize)
        requires
            old(self).wf(),
        ensures
            r == old(self)@.len(),
            final(self)@.len() == old(self)@.len() + 1,
            final(self)@.drop_last() == old(self)@,
            final(self)@[r as int].op == Op::Leaf,
            final(self)@[r as int].deps@ == Seq::<usize>::empty(),
            final(self).wf(),
    {
        let r = self.push_node(Op::Leaf, Vec::new());
        assert(self@[r as int].deps@ =~= Seq::<usize>::empty());
        r
    }

    /// Appends `a + b`, with operands `[a, b]`.
    pub fn add(&mut self, a: usize, b: usize) -> (r: usize)
        requires
            old(self).wf(),
            a < old(self)@.len(),
            b < old(self)@.len(),
        ensures
            r == old(self)@.len(),
            final(self)@.len() == old(self)@.len() + 1,
            final(self)@.drop_last() == old(self)@,
            final(self)@[r as int].op == Op::Add,
            final(self)@[r as int].deps@ == seq![a, b],
            final(self).wf(),
    {
        let deps = vec![a, b];
        assert(deps@ =~= seq![a, b]);
        self.push_node(Op::Add, deps)
    }

    /// Appends `a * b`, with operands `[a, b]`.
    pub fn mul(&mut self, a: usize, b: usize) -> (r: usize)
        requires
            old(self).wf(),
            a < old(self)@.len(),
            b < old(self)@.len(),
        ensures
            r == old(self)@.len(),
            final(self)@.len() == old(self)@.len() + 1,
            final(self)@.drop_last() == old(self)@,
            final(self)@[r as int].op == Op::Mul,
            final(self)@[r as int].deps@ == seq![a, b],
            final(self).wf(),
    {
        let deps = vec![a, b];
        assert(deps@ =~= seq![a, b]);
        self.push_node(Op::Mul, deps)
    }

    /// Appends `a ^ b`, with operands `[a, b]`: base, then exponent.
    pub fn pow(&mut self, a: usize, b: usize) -> (r: usize)
        requires
            old(self).wf(),
            a < old(self)@.len(),
            b < old(self)@.len(),
        ensures
            r == old(self)@.len(),
            final(self)@.len() == old(self)@.len() + 1,
            final(self)@.drop_last() == old(self)@,
            final(self)@[r as int].op == Op::Pow,
            final(self)@[r as int].deps@ == seq![a, b],
            final(self).wf(),
    {
        let deps = vec![a, b];
        assert(deps@ =~= seq![a, b]);
        self.push_node(Op::Pow, deps)
    }

    /// Appends `tanh(a)`, with the single operand `a`.
    pub fn tanh(&mut self, a: usize) -> (r: usize)
        requires
            old(self).wf(),
            a < old(self)@.len(),
        ensures
            r == old(self)@.len(),
            final(self)@.len() == old(self)@.len() + 1,
            final(self)@.drop_last() == old(self)@,
            final(self)@[r as int].op == Op::Tanh,
            final(self)@[r as int].deps@ == seq![a],
            final(self).wf(),
    {
        let deps = vec![a];
        assert(deps@ =~= seq![a]);
        self.push_node(Op::Tanh, deps)
    }
    /// Appends `-a` as `a * c` for a new leaf `c`, whose value is to be
    /// minus one. Returns `(c, product)`.
    pub fn neg(&mut self, a: usize) -> (r: (usize, usize))
        requires
            old(self).wf(),
            a < old(self)@.len(),
        ensures
            r.0 == old(self)@.len(),
            r.1 == r.0 + 1,
            final(self)@.len() == old(self)@.len() + 2,
            final(self)@.subrange(0, old(self)@.len() as int) == old(self)@,
            final(self)@[r.0 as int].op == Op::Leaf,
            final(self)@[r.0 as int].deps@ == Seq::<usize>::empty(),
            final(self)@[r.1 as int].op == Op::Mul,
            final(self)@[r.1 as int].deps@ == seq![a, r.0],
            final(self).wf(),
    {
        let ghost g0 = self@;
        let c = self.leaf();
        let ghost g1 = self@;
        let m = self.mul(a, c);
        assert(self@.subrange(0, g0.len() as int) =~= g0) by {
            assert forall|x: int| 0 <= x < g0.len() implies self@[x] == g0[x] by {
                assert(self@.drop_last()[x] == g1[x]);
                assert(g1.drop_last()[x] == g0[x]);
            }
        }
        assert(self@[c as int] == g1[c as int]) by {
            assert(self@.drop_last()[c as int] == g1[c as int]);
        }
        (c, m)
    }

    /// Appends `a - b` as `a + (-b)`: a new leaf `c` (to be minus one), the
    /// product `b * c`, and the sum `a + b * c`. Returns `(c, product, sum)`.
    pub fn sub(&mut self, a: usize, b: usize) -> (r: (usize, usize, usize))
        requires
            old(self).wf(),
            a < old(self)@.len(),
            b < old(self)@.len(),
        ensures
            r.0 == old(self)@.len(),
            r.1 == r.0 + 1,
            r.2 == r.0 + 2,
            final(self)@.len() == old(self)@.len() + 3,
            final(self)@.subrange(0, old(self)@.len() as int) == old(self)@,
            final(self)@[r.0 as int].op == Op::Leaf,
            final(self)@[r.0 as int].deps@ == Seq::<usize>::empty(),
            final(self)@[r.1 as int].op == Op::Mul,
            final(self)@[r.1 as int].deps@ == seq![b, r.0],
            final(self)@[r.2 as int].op == Op::Add,
            final(self)@[r.2 as int].deps@ == seq![a, r.1],
            final(self).wf(),
    {
        let ghost g0 = self@;
        let (c, m) = self.neg(b);
        let ghost g1 = self@;
        let s = self.add(a, m);
        assert(self@.subrange(0, g0.len() as int) =~= g0) by {
            assert forall|x: int| 0 <= x < g0.len() implies self@[x] == g0[x] by {
                assert(self@.drop_last()[x] == g1[x]);
                assert(g1.subrange(0, g0.len() as int)[x] == g0[x]);
            }
        }
        assert(self@[c as int] == g1[c as int]) by {
            assert(self@.drop_last()[c as int] == g1[c as int]);
        }
        assert(self@[m as int] == g1[m as int]) by {
            assert(self@.drop_last()[m as int] == g1[m as int]);
        }
        (c, m, s)
    }

    /// Appends the sum of `items` as a fold: a new leaf `z` (to be zero),
    /// then for each item in turn the sum of the running total and that
    /// item. Returns `z`; the total is node `z + items.len()`.
    pub fn sum(&mut self, items: &Vec<usize>) -> (z: usize)
        requires
            old(self).wf(),
            forall|k: int| 0 <= k < items@.len() ==> #[trigger] items@[k] < old(self)@.len(),
        ensures
            z == old(self)@.len(),
            final(self)@.len() == old(self)@.len() + items@.len() + 1,
            final(self)@.subrange(0, old(self)@.len() as int) == old(self)@,
            final(self)@[z as int].op == Op::Leaf,
            final(self)@[z as int].deps@ == Seq::<usize>::empty(),
            forall|k: int|
                0 <= k < items@.len() ==> (#[trigger] final(self)@[z + 1 + k]).op == Op::Add
                    && final(self)@[z + 1 + k].deps@ == seq![(z + k) as usize, items@[k]],
            final(self).wf(),
    {
        let ghost g0 = self@;
        let z = self.leaf();
        let mut total = z;
        let mut k: usize = 0;
        while k < items.len()
            invariant
                self.wf(),
                g0.len() == z,
                k <= items@.len(),
                total == z + k,
                self@.len() == z + k + 1,
                self@.subrange(0, z as int) == g0,
                self@[z as int].op == Op::Leaf,
                self@[z as int].deps@ == Seq::<usize>::empty(),
                forall|x: int| 0 <= x < items@.len() ==> #[trigger] items@[x] < g0.len(),
                forall|x: int|
                    0 <= x < k ==> (#[trigger] self@[z + 1 + x]).op == Op::Add
                        && self@[z + 1 + x].deps@ == seq![(z + x) as usize, items@[x]],
            decreases items@.len() - k,
        {
            let ghost g1 = self@;
            let item = items[k];
            total = self.add(total, item);
            assert forall|x: int| 0 <= x < z + k + 1 implies self@[x] == g1[x] by {
                assert(self@.drop_last()[x] == g1[x]);
            }
            assert(self@.subrange(0, z as int) =~= g0) by {
                assert forall|x: int| 0 <= x < z implies self@[x] == g0[x] by {
                    assert(self@[x] == g1[x]);
                    assert(g1.subrange(0, z as int)[x] == g0[x]);
                }
            }
            assert forall|x: int|
                0 <= x < k + 1 implies (#[trigger] self@[z + 1 + x]).op == Op::Add
                    && self@[z + 1 + x].deps@ == seq![(z + x) as usize, items@[x]] by {
                if x < k {
                    assert(self@[z + 1 + x] == g1[z + 1 + x]);
                }
            }
            k += 1;
        }
        z
    }

    /// `visited` marks exactly the nodes listed in `order`, which holds
    /// each of them once.
    spec fn tracks(&self, visited: Seq<bool>, order: Seq<usize>) -> bool {
        &&& visited.len() == self@.len()
        &&& order.no_duplicates()
        &&& forall|k: int| 0 <= k < order.len() ==> #[trigger] order[k] < self@.len()
        &&& forall|j: int| 0 <= j < self@.len() ==> (#[trigger] visited[j] <==> order.contains(j as usize))
    }

    /// The order of a depth-first walk from `out` that lists each node once.
    pub open spec fn depth_first(&self, out: int) -> Seq<usize> {
        dfs_from(self@, out, Seq::empty())
    }

    /// `r` lists the nodes that `out` reaches, each once, from the latest to
    /// the earliest.
    pub open spec fn reverse_topological(&self, out: int, r: Seq<usize>) -> bool {
        &&& forall|p: int, q: int| 0 <= p < q < r.len() ==> r[p] > r[q]
        &&& forall|k: int| 0 <= k < r.len() ==> #[trigger] r[k] < self@.len()
        &&& forall|j: int| 0 <= j < self@.len() ==> (r.contains(j as usize) <==> self.reaches(out, j))
    }

    /// Every operand of node `j` is marked in `visited`.
    spec fn deps_marked(&self, visited: Seq<bool>, j: int) -> bool {
        forall|k: int| 0 <= k < self@[j].deps@.len() ==> #[trigger] visited[self@[j].deps@[k] as int]
    }

    proof fn lemma_closed_reaches(&self, visited: Seq<bool>, i: int, j: int)
        requires
            self.wf(),
            visited.len() == self@.len(),
            0 <= i < self@.len(),
            visited[i],
            forall|x: int| 0 <= x < self@.len() && #[trigger] visited[x] ==> self.deps_marked(visited, x),
            self.reaches(i, j),
        ensures
            visited[j],
        decreases i,
    {
        if i != j {
            let k = choose|k: int|
                0 <= k < self@[i].deps@.len() && 0 <= #[trigger] self@[i].deps@[k] < i
                    && self.reaches(self@[i].deps@[k] as int, j);
            let d = self@[i].deps@[k] as int;
            assert(self.deps_marked(visited, i));
            assert(visited[d]);
            self.lemma_closed_reaches(visited, d, j);
        }
    }

    fn visit(&self, i: usize, visited: &mut Vec<bool>, order: &mut Vec<usize>)
        requires
            self.wf(),
            i < self@.len(),
            self.tracks(old(visited)@, old(order)@),
        ensures
            self.tracks(final(visited)@, final(order)@),
            old(order)@.len() <= final(order)@.len(),
            final(order)@.subrange(0, old(order)@.len() as int) == old(order)@,
            final(visited)@[i as int],
            final(order)@ == dfs_from(self@, i as int, old(order)@),
            !old(visited)@[i as int] ==> final(order)@[old(order)@.len() as int] == i,
            forall|j: int| 0 <= j < self@.len() && #[trigger] old(visited)@[j] ==> final(visited)@[j],
            forall|j: int|
                0 <= j < self@.len() && #[trigger] final(visited)@[j] && !old(visited)@[j] ==> self.reaches(i as int, j),
            forall|j: int|
                0 <= j < self@.len() && #[trigger] final(visited)@[j] && !old(visited)@[j] ==> self.deps_marked(final(visited)@, j),
        decreases i,
    {
        if visited[i] {
            assert(order@.subrange(0, order@.len() as int) =~= order@);
            assert(order@.contains(i));
            return;
        }
        let ghost v0 = visited@;
        let ghost o0 = order@;
        assert(self@.len() == self.nodes.len());
        visited[i] = true;
        order.push(i);
        assert(order@.subrange(0, o0.len() as int) =~= o0);
        assert forall|j: int| 0 <= j < self@.len() implies (#[trigger] visited@[j] <==> order@.contains(j as usize)) by {
            if j == i {
                assert(order@[o0.len() as int] == i);
            } else if o0.contains(j as usize) {
                let x = choose|x: int| 0 <= x < o0.len() && o0[x] == j as usize;
                assert(order@[x] == j as usize);
            } else if order@.contains(j as usize) {
                let x = choose|x: int| 0 <= x < order@.len() && order@[x] == j as usize;
                assert(order@[o0.len() as int] == i);
                assert(x < o0.len());
                assert(o0[x] == j as usize);
            }
        }
        assert(self.reaches(i as int, i as int));
        assert(!o0.contains(i));
        assert(order@ == o0.push(i));
        let n_deps = self.nodes[i].deps.len();
        let mut k: usize = 0;
        while k < n_deps
            invariant
                self.wf(),
                i < self@.len(),
                n_deps == self@[i as int].deps@.len(),
                k <= n_deps,
                self.tracks(visited@, order@),
                o0 == old(order)@,
                v0 == old(visited)@,
                v0.len() == self@.len(),
                !v0[i as int],
                o0.len() < order@.len(),
                order@.subrange(0, o0.len() as int) == o0,
                order@[o0.len() as int] == i,
                dfs_deps(self@, i as int, k as int, order@) == dfs_from(self@, i as int, o0),
                visited@[i as int],
                forall|j: int| 0 <= j < self@.len() && #[trigger] v0[j] ==> visited@[j],
                forall|j: int| 0 <= j < self@.len() && #[trigger] visited@[j] && !v0[j] ==> self.reaches(i as int, j),
                forall|j: int|
                    0 <= j < self@.len() && #[trigger] visited@[j] && !v0[j] && j != i ==> self.deps_marked(visited@, j),
                forall|x: int| 0 <= x < k ==> #[trigger] visited@[self@[i as int].deps@[x] as int],
            decreases n_deps - k,
        {
            let d = self.nodes[i].deps[k];
            let ghost v1 = visited@;
            let ghost o1 = order@;
            assert(d < i);
            self.visit(d, visited, order);
            assert(dfs_deps(self@, i as int, k as int, o1) == dfs_deps(self@, i as int, k + 1, order@));
            assert(order@.subrange(0, o0.len() as int) =~= o0) by {
                assert forall|x: int| 0 <= x < o0.len() implies order@[x] == o0[x] by {
                    assert(order@.subrange(0, o1.len() as int)[x] == o1[x]);
                    assert(o1.subrange(0, o0.len() as int)[x] == o0[x]);
                }
            }
            assert(order@[o0.len() as int] == i) by {
                assert(order@.subrange(0, o1.len() as int)[o0.len() as int] == o1[o0.len() as int]);
            }
            assert forall|j: int| 0 <= j < self@.len() && #[trigger] visited@[j] && !v0[j] implies self.reaches(i as int, j) by {
                if !v1[j] {
                    assert(self.reaches(d as int, j));
                    assert(0 <= self@[i as int].deps@[k as int] < i);
                }
            }
            assert forall|j: int|
                0 <= j < self@.len() && #[trigger] visited@[j] && !v0[j] && j != i implies self.deps_marked(visited@, j) by {
                if v1[j] {
                    assert(self.deps_marked(v1, j));
                    assert forall|x: int| 0 <= x < self@[j].deps@.len() implies #[trigger] visited@[self@[j].deps@[x] as int] by {
                        assert(v1[self@[j].deps@[x] as int]);
                        assert(self@[j].deps@[x] < j);
                    }
                }
            }
            assert forall|x: int| 0 <= x < k + 1 implies #[trigger] visited@[self@[i as int].deps@[x] as int] by {
                if x < k {
                    assert(v1[self@[i as int].deps@[x] as int]);
                    assert(self@[i as int].deps@[x] < i);
                }
            }
            k += 1;
        }
        assert(self.deps_marked(visited@, i as int));
        assert(dfs_deps(self@, i as int, k as int, order@) == order@);
    }

    /// The order in which a backward pass from `out` fires the local
    /// gradient rules: depth first from `out`, each node on its first
    /// encounter, then its operands in argument order. Every node that `out`
    /// reaches comes exactly once, and no other node comes.
    pub fn backward_order(&self, out: usize) -> (r: Vec<usize>)
        requires
            self.wf(),
            out < self@.len(),
        ensures
            r@ == self.depth_first(out as int),
            r@.len() > 0,
            r@[0] == out,
            r@.no_duplicates(),
            forall|k: int| 0 <= k < r@.len() ==> #[trigger] r@[k] < self@.len(),
            forall|j: int| 0 <= j < self@.len() ==> (r@.contains(j as usize) <==> self.reaches(out as int, j)),
    {
        let n = self.nodes.len();
        let mut visited: Vec<bool> = Vec::new();
        let mut m: usize = 0;
        while m < n
            invariant
                m <= n,
                n == self@.len(),
                visited@.len() == m,
                forall|j: int| 0 <= j < m ==> !#[trigger] visited@[j],
            decreases n - m,
        {
            visited.push(false);
            m += 1;
        }
        let mut order: Vec<usize> = Vec::new();
        let ghost v0 = visited@;
        self.visit(out, &mut visited, &mut order);
        assert forall|j: int| 0 <= j < self@.len() implies (order@.contains(j as usize) <==> self.reaches(out as int, j)) by {
            if self.reaches(out as int, j) {
                assert forall|x: int| 0 <= x < self@.len() && #[trigger] visited@[x] implies self.deps_marked(visited@, x) by {
                    assert(!v0[x]);
                }
                self.lemma_closed_reaches(visited@, out as int, j);
            }
            if order@.contains(j as usize) {
                assert(visited@[j]);
                assert(!v0[j]);
            }
        }
        order
    }
    /// A node reaches only itself and earlier nodes.
    proof fn lemma_reaches_below(&self, i: int, j: int)
        requires
            self.wf(),
            self.reaches(i, j),
        ensures
            0 <= j <= i < self@.len(),
        decreases i,
    {
        if i != j {
            let k = choose|k: int|
                0 <= k < self@[i].deps@.len() && 0 <= #[trigger] self@[i].deps@[k] < i
                    && self.reaches(self@[i].deps@[k] as int, j);
            self.lemma_reaches_below(self@[i].deps@[k] as int, j);
        }
    }

    /// The nodes that `out` reaches, from the latest to the earliest. Since an
    /// operand is always older than the node that uses it, every consumer
    /// comes before each of its operands: a node's rule fires only once all
    /// the gradient owed to it has arrived.
    pub fn topological_order(&self, out: usize) -> (r: Vec<usize>)
        requires
            self.wf(),
            out < self@.len(),
        ensures
            self.reverse_topological(out as int, r@),
            r@.len() > 0,
            r@[0] == out,
            forall|p: int, q: int| 0 <= p < q < r@.len() ==> r@[p] > r@[q],
            forall|k: int| 0 <= k < r@.len() ==> #[trigger] r@[k] < self@.len(),
            forall|j: int| 0 <= j < self@.len() ==> (r@.contains(j as usize) <==> self.reaches(out as int, j)),
            forall|p: int, q: int, k: int|
                0 <= p < r@.len() && 0 <= q < r@.len() && 0 <= k < self@[r@[p] as int].deps@.len()
                    && #[trigger] self@[r@[p] as int].deps@[k] == #[trigger] r@[q] ==> p < q,
    {
        let n = self.nodes.len();
        let dfs = self.backward_order(out);
        let mut marked: Vec<bool> = Vec::new();
        let mut m: usize = 0;
        while m < n
            invariant
                m <= n,
                n == self@.len(),
                marked@.len() == m,
                forall|j: int| 0 <= j < m ==> !#[trigger] marked@[j],
            decreases n - m,
        {
            marked.push(false);
            m += 1;
        }
        let mut k: usize = 0;
        while k < dfs.len()
            invariant
                k <= dfs@.len(),
                n == self@.len(),
                marked@.len() == n,
                forall|x: int| 0 <= x < dfs@.len() ==> #[trigger] dfs@[x] < n,
                forall|j: int| 0 <= j < n ==> (#[trigger] marked@[j] <==> dfs@.subrange(0, k as int).contains(j as usize)),
            decreases dfs@.len() - k,
        {
            let ghost before = marked@;
            marked[dfs[k]] = true;
            assert forall|j: int| 0 <= j < n implies (#[trigger] marked@[j] <==> dfs@.subrange(0, k + 1).contains(j as usize)) by {
                let s0 = dfs@.subrange(0, k as int);
                let s1 = dfs@.subrange(0, k + 1);
                if s0.contains(j as usize) {
                    let x = choose|x: int| 0 <= x < s0.len() && s0[x] == j as usize;
                    assert(s1[x] == j as usize);
                }
                if s1.contains(j as usize) && j as usize != dfs@[k as int] {
                    let x = choose|x: int| 0 <= x < s1.len() && s1[x] == j as usize;
                    assert(s0[x] == j as usize);
                }
                if j as usize == dfs@[k as int] {
                    assert(s1[k as int] == j as usize);
                }
            }
            k += 1;
        }
        assert(dfs@.subrange(0, dfs@.len() as int) =~= dfs@);
        let mut r: Vec<usize> = Vec::new();
        let mut i: usize = n;
        while i > 0
            invariant
                i <= n,
                n == self@.len(),
                marked@.len() == n,
                forall|j: int| 0 <= j < n ==> (#[trigger] marked@[j] <==> self.reaches(out as int, j)),
                forall|p: int, q: int| 0 <= p < q < r@.len() ==> r@[p] > r@[q],
                forall|x: int| 0 <= x < r@.len() ==> i <= #[trigger] r@[x] < n,
                forall|j: int| i <= j < n ==> (#[trigger] marked@[j] <==> r@.contains(j as usize)),
            decreases i,
        {
            i -= 1;
            if marked[i] {
                let ghost r0 = r@;
                r.push(i);
                assert forall|j: int| i <= j < n implies (#[trigger] marked@[j] <==> r@.contains(j as usize)) by {
                    if j == i {
                        assert(r@[r0.len() as int] == i);
                    } else if r0.contains(j as usize) {
                        let x = choose|x: int| 0 <= x < r0.len() && r0[x] == j as usize;
                        assert(r@[x] == j as usize);
                    } else if r@.contains(j as usize) {
                        let x = choose|x: int| 0 <= x < r@.len() && r@[x] == j as usize;
                        assert(x < r0.len());
                        assert(r0[x] == j as usize);
                    }
                }
            } else {
                assert forall|j: int| i <= j < n implies (#[trigger] marked@[j] <==> r@.contains(j as usize)) by {
                    if j == i && r@.contains(j as usize) {
                        let x = choose|x: int| 0 <= x < r@.len() && r@[x] == j as usize;
                        assert(r@[x] >= i + 1);
                    }
                }
            }
        }
        assert forall|j: int| 0 <= j < self@.len() implies (r@.contains(j as usize) <==> self.reaches(out as int, j)) by {
            assert(i == 0);
            assert(marked@[j] <==> self.reaches(out as int, j));
            assert(marked@[j] <==> r@.contains(j as usize));
        }
        assert(self.reaches(out as int, out as int));
        assert(marked@[out as int]);
        assert(r@.contains(out));
        assert(r@[0] == out) by {
            let x = choose|x: int| 0 <= x < r@.len() && r@[x] == out;
            if x > 0 {
                assert(r@[0] > out);
                assert(marked@[r@[0] as int]);
                self.lemma_reaches_below(out as int, r@[0] as int);
            }
        }
        assert forall|p: int, q: int, k: int|
            0 <= p < r@.len() && 0 <= q < r@.len() && 0 <= k < self@[r@[p] as int].deps@.len()
                && #[trigger] self@[r@[p] as int].deps@[k] == #[trigger] r@[q] implies p < q by {
            assert(self@[r@[p] as int].deps@[k] < r@[p]);
        }
        r
    }
}

/// Which nodes a node reaches depends on the graph's nodes alone.
proof fn lemma_reaches_same(g1: &Graph, g2: &Graph, i: int, j: int)
    requires
        g1@ == g2@,
    ensures
        g1.reaches(i, j) == g2.reaches(i, j),
    decreases i,
{
    if 0 <= i < g1@.len() && i != j {
        assert forall|k: int|
            0 <= k < g1@[i].deps@.len() && 0 <= #[trigger] g1@[i].deps@[k] < i implies g1.reaches(
            g1@[i].deps@[k] as int,
            j,
        ) == g2.reaches(g2@[i].deps@[k] as int, j) by {
            lemma_reaches_same(g1, g2, g1@[i].deps@[k] as int, j);
        }
    }
}

/// Two strictly decreasing lists that hold the same indices are equal.
proof fn lemma_decreasing_unique(a: Seq<usize>, b: Seq<usize>)
    requires
        forall|p: int, q: int| 0 <= p < q < a.len() ==> a[p] > a[q],
        forall|p: int, q: int| 0 <= p < q < b.len() ==> b[p] > b[q],
        forall|x: usize| a.contains(x) <==> b.contains(x),
    ensures
        a == b,
    decreases a.len(),
{
    if a.len() == 0 {
        if b.len() > 0 {
            assert(b.contains(b[0]));
        }
        assert(a =~= b);
    } else {
        assert(a.contains(a[0]));
        assert(b.contains(b[0]));
        let y = choose|y: int| 0 <= y < b.len() && b[y] == a[0];
        let x = choose|x: int| 0 <= x < a.len() && a[x] == b[0];
        assert(a[0] == b[0]) by {
            if y > 0 {
                assert(b[0] > b[y]);
            }
            if x > 0 {
                assert(a[0] > a[x]);
            }
        }
        let a1 = a.drop_first();
        let b1 = b.drop_first();
        assert forall|v: usize| a1.contains(v) <==> b1.contains(v) by {
            if a1.contains(v) {
                let i = choose|i: int| 0 <= i < a1.len() && a1[i] == v;
                assert(a[i + 1] == v && v < a[0]);
                assert(a.contains(v));
                let j = choose|j: int| 0 <= j < b.len() && b[j] == v;
                assert(j != 0);
                assert(b1[j - 1] == v);
            }
            if b1.contains(v) {
                let i = choose|i: int| 0 <= i < b1.len() && b1[i] == v;
                assert(b[i + 1] == v && v < b[0]);
                assert(b.contains(v));
                let j = choose|j: int| 0 <= j < a.len() && a[j] == v;
                assert(j != 0);
                assert(a1[j - 1] == v);
            }
        }
        lemma_decreasing_unique(a1, b1);
        assert(a =~= b1.insert(0, b[0]));
        assert(b =~= b1.insert(0, b[0]));
    }
}

/// Building the same graph twice and running a backward pass from the same
/// output gives the same schedule both times: the depth-first order, and any
/// latest-first order of the reached nodes, depend on the graph's nodes and
/// the output alone.
pub proof fn lemma_schedule_determined(g1: &Graph, g2: &Graph, out: int, r1: Seq<usize>, r2: Seq<usize>)
    requires
        g1@ == g2@,
        g1.reverse_topological(out, r1),
        g2.reverse_topological(out, r2),
    ensures
        g1.depth_first(out) == g2.depth_first(out),
        r1 == r2,
{
    assert forall|x: usize| r1.contains(x) <==> r2.contains(x) by {
        if r1.contains(x) {
            let k = choose|k: int| 0 <= k < r1.len() && r1[k] == x;
            assert(r1[k] < g1@.len());
            lemma_reaches_same(g1, g2, out, x as int);
        }
        if r2.contains(x) {
            let k = choose|k: int| 0 <= k < r2.len() && r2[k] == x;
            assert(r2[k] < g2@.len());
            lemma_reaches_same(g1, g2, out, x as int);
        }
    }
    lemma_decreasing_unique(r1, r2);
}

} // verus!
