//! The in-memory commit-graph index and its query surface.
//!
//! The index maps each vertex to its parent vertices. Reachability is
//! modelled by [`in_ancestors`]: membership in the parent-ward transitive
//! closure of a starting set, endpoints included. All queries are specified
//! against that model: `ancestors`, `descendants`, `parents`, `children`,
//! `heads`, `roots`, `only`, `range`, `is_ancestor`, and a deterministic
//! topological `sort`.

use vstd::prelude::*;

use crate::commit_set::CommitSet;
use crate::oid::{bytes_eq, valid_oid_seq, CommitVertex, NonZeroOid};

verus! {

broadcast use vstd::prelude::Seq::lemma_push_map_commute, vstd::prelude::Seq::lemma_push_to_set_commute, vstd::seq_lib::seq_to_set_is_finite;

/// One vertex of the graph together with its parent vertices.
#[derive(Debug)]
pub struct DagNode {
    /// The vertex name.
    pub vertex: CommitVertex,
    /// The names of the vertex's parents.
    pub parents: Vec<CommitVertex>,
}

impl DagNode {
    /// The vertex name's bytes.
    pub open spec fn key(&self) -> Seq<u8> {
        self.vertex@
    }

    /// The parent names' bytes, as a set.
    pub open spec fn parent_set(&self) -> Set<Seq<u8>> {
        self.parents@.map_values(|p: CommitVertex| p@).to_set()
    }
}

/// The graph denoted by a list of nodes: a map from vertex to parent set.
/// A later node with the same key would win; a well-formed index has
/// distinct keys.
pub open spec fn graph_of(nodes: Seq<DagNode>) -> Map<Seq<u8>, Set<Seq<u8>>>
    decreases nodes.len(),
{
    if nodes.len() == 0 {
        Map::empty()
    } else {
        graph_of(nodes.drop_last()).insert(nodes.last().key(), nodes.last().parent_set())
    }
}

/// The keys of a list of nodes, in order.
pub open spec fn node_keys(nodes: Seq<DagNode>) -> Seq<Seq<u8>> {
    nodes.map_values(|n: DagNode| n.key())
}

/// The byte strings of a list of vertex names, in order.
pub open spec fn vertex_views(vs: Seq<CommitVertex>) -> Seq<Seq<u8>> {
    vs.map_values(|v: CommitVertex| v@)
}

/// A well-formed graph: finitely many vertices, every vertex a valid
/// non-zero oid, and closed under parents — every parent is itself a vertex.
pub open spec fn graph_wf(g: Map<Seq<u8>, Set<Seq<u8>>>) -> bool {
    &&& g.dom().finite()
    &&& forall|v: Seq<u8>| #[trigger] g.dom().contains(v) ==> valid_oid_seq(v)
    &&& forall|v: Seq<u8>, p: Seq<u8>|
        g.dom().contains(v) && #[trigger] g[v].contains(p) ==> g.dom().contains(p) && valid_oid_seq(
            p,
        )
}

/// The singleton set of one byte string.
pub open spec fn set_one(x: Seq<u8>) -> Set<Seq<u8>> {
    Set::empty().insert(x)
}

/// Membership in the parent-ward closure of `s` after at most `n` steps.
pub open spec fn in_closure_n(
    g: Map<Seq<u8>, Set<Seq<u8>>>,
    s: Set<Seq<u8>>,
    x: Seq<u8>,
    n: nat,
) -> bool
    decreases n,
{
    if n == 0 {
        s.contains(x)
    } else {
        in_closure_n(g, s, x, (n - 1) as nat) || exists|v: Seq<u8>|
            in_closure_n(g, s, v, (n - 1) as nat) && g.dom().contains(v) && #[trigger] g[v].contains(
                x,
            )
    }
}

/// Membership in the ancestors of `s`: `x` is in `s`, or is reachable from a
/// member of `s` by following parent edges. Endpoints are included.
pub open spec fn in_ancestors(g: Map<Seq<u8>, Set<Seq<u8>>>, s: Set<Seq<u8>>, x: Seq<u8>) -> bool {
    exists|n: nat| in_closure_n(g, s, x, n)
}

/// `a` is an ancestor of `b` (including `a == b`).
pub open spec fn is_ancestor_of(g: Map<Seq<u8>, Set<Seq<u8>>>, a: Seq<u8>, b: Seq<u8>) -> bool {
    in_ancestors(g, set_one(b), a)
}

/// Membership in the descendants of `s`: some member of `s` is an ancestor
/// of `x`.
pub open spec fn in_descendants(g: Map<Seq<u8>, Set<Seq<u8>>>, s: Set<Seq<u8>>, x: Seq<u8>) -> bool {
    exists|u: Seq<u8>| s.contains(u) && #[trigger] is_ancestor_of(g, u, x)
}

/// The set of all ancestors of `s`.
pub open spec fn ancestor_closure(g: Map<Seq<u8>, Set<Seq<u8>>>, s: Set<Seq<u8>>) -> Set<Seq<u8>> {
    Set::new(|x: Seq<u8>| in_ancestors(g, s, x))
}

/// The graph has no cycle: mutual ancestry only holds reflexively.
pub open spec fn acyclic(g: Map<Seq<u8>, Set<Seq<u8>>>) -> bool {
    forall|a: Seq<u8>, b: Seq<u8>|
        #[trigger] is_ancestor_of(g, a, b) && #[trigger] is_ancestor_of(g, b, a) ==> a == b
}

/// The one-step parent targets of `s`.
pub open spec fn parent_targets(g: Map<Seq<u8>, Set<Seq<u8>>>, s: Set<Seq<u8>>) -> Set<Seq<u8>> {
    Set::new(
        |p: Seq<u8>|
            exists|v: Seq<u8>| s.contains(v) && g.dom().contains(v) && #[trigger] g[v].contains(p),
    )
}

/// The one-step child targets of `s`: vertices with a parent in `s`.
pub open spec fn child_targets(g: Map<Seq<u8>, Set<Seq<u8>>>, s: Set<Seq<u8>>) -> Set<Seq<u8>> {
    Set::new(
        |c: Seq<u8>|
            g.dom().contains(c) && exists|p: Seq<u8>| #[trigger] g[c].contains(p) && s.contains(p),
    )
}

/// A member of `s` is among the ancestors of `s`.
pub proof fn lemma_ancestors_base(g: Map<Seq<u8>, Set<Seq<u8>>>, s: Set<Seq<u8>>, x: Seq<u8>)
    requires
        s.contains(x),
    ensures
        in_ancestors(g, s, x),
{
    assert(in_closure_n(g, s, x, 0));
}

/// A parent of an ancestor of `s` is an ancestor of `s`.
pub proof fn lemma_ancestors_edge(
    g: Map<Seq<u8>, Set<Seq<u8>>>,
    s: Set<Seq<u8>>,
    v: Seq<u8>,
    p: Seq<u8>,
)
    requires
        in_ancestors(g, s, v),
        g.dom().contains(v),
        g[v].contains(p),
    ensures
        in_ancestors(g, s, p),
{
    let n = choose|n: nat| in_closure_n(g, s, v, n);
    assert(in_closure_n(g, s, p, n + 1));
}

/// Any set that includes `s` and is closed under parent edges includes all
/// ancestors of `s`.
pub proof fn lemma_closure_in_closed(
    g: Map<Seq<u8>, Set<Seq<u8>>>,
    s: Set<Seq<u8>>,
    r: Set<Seq<u8>>,
    x: Seq<u8>,
    n: nat,
)
    requires
        forall|y: Seq<u8>| s.contains(y) ==> r.contains(y),
        forall|v: Seq<u8>, p: Seq<u8>|
            r.contains(v) && g.dom().contains(v) && #[trigger] g[v].contains(p) ==> r.contains(p),
        in_closure_n(g, s, x, n),
    ensures
        r.contains(x),
    decreases n,
{
    if n == 0 {
    } else {
        if in_closure_n(g, s, x, (n - 1) as nat) {
            lemma_closure_in_closed(g, s, r, x, (n - 1) as nat);
        } else {
            let v = choose|v: Seq<u8>|
                in_closure_n(g, s, v, (n - 1) as nat) && g.dom().contains(v) && #[trigger] g[v].contains(
                    x,
                );
            lemma_closure_in_closed(g, s, r, v, (n - 1) as nat);
        }
    }
}

/// Every ancestor of `s` lies in `s` or among the graph's vertices.
pub proof fn lemma_ancestors_in_bound(
    g: Map<Seq<u8>, Set<Seq<u8>>>,
    s: Set<Seq<u8>>,
    x: Seq<u8>,
    n: nat,
)
    requires
        graph_wf(g),
        in_closure_n(g, s, x, n),
    ensures
        s.contains(x) || g.dom().contains(x),
    decreases n,
{
    if n == 0 {
    } else {
        if in_closure_n(g, s, x, (n - 1) as nat) {
            lemma_ancestors_in_bound(g, s, x, (n - 1) as nat);
        }
    }
}

/// Ancestry is transitive through an intermediate vertex: an ancestor of a
/// vertex that is itself an ancestor of `s` is an ancestor of `s`.
pub proof fn lemma_ancestors_trans(
    g: Map<Seq<u8>, Set<Seq<u8>>>,
    s: Set<Seq<u8>>,
    a: Seq<u8>,
    x: Seq<u8>,
    n: nat,
)
    requires
        in_ancestors(g, s, a),
        in_closure_n(g, set_one(a), x, n),
    ensures
        in_ancestors(g, s, x),
    decreases n,
{
    if n == 0 {
        assert(x == a);
    } else {
        if in_closure_n(g, set_one(a), x, (n - 1) as nat) {
            lemma_ancestors_trans(g, s, a, x, (n - 1) as nat);
        } else {
            let v = choose|v: Seq<u8>|
                in_closure_n(g, set_one(a), v, (n - 1) as nat) && g.dom().contains(v)
                    && #[trigger] g[v].contains(x);
            lemma_ancestors_trans(g, s, a, v, (n - 1) as nat);
            lemma_ancestors_edge(g, s, v, x);
        }
    }
}

/// The ancestors of a vertex that is not in the graph are just the vertex.
pub proof fn lemma_closure_of_unknown(
    g: Map<Seq<u8>, Set<Seq<u8>>>,
    a: Seq<u8>,
    x: Seq<u8>,
    n: nat,
)
    requires
        !g.dom().contains(a),
        in_closure_n(g, set_one(a), x, n),
    ensures
        x == a,
    decreases n,
{
    if n == 0 {
    } else {
        if in_closure_n(g, set_one(a), x, (n - 1) as nat) {
            lemma_closure_of_unknown(g, a, x, (n - 1) as nat);
        } else {
            let v = choose|v: Seq<u8>|
                in_closure_n(g, set_one(a), v, (n - 1) as nat) && g.dom().contains(v)
                    && #[trigger] g[v].contains(x);
            lemma_closure_of_unknown(g, a, v, (n - 1) as nat);
        }
    }
}

/// In an acyclic well-formed graph, a strict ancestor has strictly fewer
/// ancestors: the ancestor set of `a` is contained in that of `b` and misses
/// `b` itself.
pub proof fn lemma_strict_ancestor_fewer(g: Map<Seq<u8>, Set<Seq<u8>>>, a: Seq<u8>, b: Seq<u8>)
    requires
        graph_wf(g),
        acyclic(g),
        is_ancestor_of(g, a, b),
        a != b,
    ensures
        ancestor_closure(g, set_one(a)).finite(),
        ancestor_closure(g, set_one(b)).finite(),
        ancestor_closure(g, set_one(a)).len() < ancestor_closure(g, set_one(b)).len(),
{
    let ca = ancestor_closure(g, set_one(a));
    let cb = ancestor_closure(g, set_one(b));
    lemma_ancestor_closure_finite(g, set_one(a));
    lemma_ancestor_closure_finite(g, set_one(b));
    assert forall|x: Seq<u8>| ca.contains(x) implies cb.contains(x) by {
        let n = choose|n: nat| in_closure_n(g, set_one(a), x, n);
        lemma_ancestors_trans(g, set_one(b), a, x, n);
    }
    assert(cb.contains(b)) by {
        lemma_ancestors_base(g, set_one(b), b);
    }
    assert(!ca.contains(b)) by {
        if ca.contains(b) {
            assert(is_ancestor_of(g, b, a));
        }
    }
    assert(ca.subset_of(cb.remove(b)));
    vstd::set_lib::lemma_len_subset(ca, cb.remove(b));
    assert(cb.remove(b).len() == cb.len() - 1);
}

/// The ancestor set of a finite set is finite.
pub proof fn lemma_ancestor_closure_finite(g: Map<Seq<u8>, Set<Seq<u8>>>, s: Set<Seq<u8>>)
    requires
        graph_wf(g),
        s.finite(),
    ensures
        ancestor_closure(g, s).finite(),
        ancestor_closure(g, s).len() <= s.union(g.dom()).len(),
{
    let c = ancestor_closure(g, s);
    let bound = s.union(g.dom());
    assert forall|x: Seq<u8>| c.contains(x) implies bound.contains(x) by {
        let n = choose|n: nat| in_closure_n(g, s, x, n);
        lemma_ancestors_in_bound(g, s, x, n);
    }
    vstd::set_lib::lemma_len_subset(c, bound);
}

/// The domain of the denoted graph is exactly the node keys.
proof fn lemma_graph_of_dom(nodes: Seq<DagNode>)
    ensures
        graph_of(nodes).dom() =~= node_keys(nodes).to_set(),
        graph_of(nodes).dom().finite(),
    decreases nodes.len(),
{
    if nodes.len() == 0 {
        assert(node_keys(nodes).to_set() =~= Set::<Seq<u8>>::empty());
    } else {
        let rest = nodes.drop_last();
        lemma_graph_of_dom(rest);
        assert(node_keys(rest) =~= node_keys(nodes).drop_last());
        assert forall|x: Seq<u8>|
            graph_of(nodes).dom().contains(x) <==> node_keys(nodes).to_set().contains(x) by {
            let ks = node_keys(nodes);
            if graph_of(nodes).dom().contains(x) {
                if x == nodes.last().key() {
                    assert(ks[ks.len() - 1] == x);
                    assert(ks.contains(x));
                } else {
                    assert(node_keys(rest).contains(x));
                    let j = choose|j: int|
                        0 <= j < node_keys(rest).len() && node_keys(rest)[j] == x;
                    assert(ks[j] == x);
                    assert(ks.contains(x));
                }
            }
            if ks.contains(x) {
                let j = choose|j: int| 0 <= j < ks.len() && ks[j] == x;
                if j == ks.len() - 1 {
                    assert(x == nodes.last().key());
                } else {
                    assert(node_keys(rest)[j] == x);
                    assert(node_keys(rest).contains(x));
                }
            }
        }
    }
}

/// With distinct keys, the denoted graph maps each node's key to that
/// node's parent set.
proof fn lemma_graph_of_index(nodes: Seq<DagNode>, i: int)
    requires
        node_keys(nodes).no_duplicates(),
        0 <= i < nodes.len(),
    ensures
        graph_of(nodes).dom().contains(nodes[i].key()),
        graph_of(nodes)[nodes[i].key()] == nodes[i].parent_set(),
    decreases nodes.len(),
{
    if i == nodes.len() - 1 {
    } else {
        let rest = nodes.drop_last();
        assert(node_keys(rest) =~= node_keys(nodes).drop_last());
        assert(node_keys(rest).no_duplicates());
        lemma_graph_of_index(rest, i);
        assert(nodes[i].key() != nodes.last().key()) by {
            let ks = node_keys(nodes);
            assert(ks[i] == nodes[i].key());
            assert(ks[ks.len() - 1] == nodes.last().key());
        }
    }
}

/// The persistent commit-graph index: vertices with their parent lists.
#[derive(Debug)]
pub struct DagIndex {
    nodes: Vec<DagNode>,
}

impl DagIndex {
    /// The graph this index denotes.
    pub closed spec fn graph(&self) -> Map<Seq<u8>, Set<Seq<u8>>> {
        graph_of(self.nodes@)
    }

    /// Well-formed: distinct keys and a well-formed graph.
    pub closed spec fn wf(&self) -> bool {
        node_keys(self.nodes@).no_duplicates() && graph_wf(self.graph())
    }

    /// A well-formed index has a well-formed graph.
    pub proof fn lemma_wf_graph(&self)
        requires
            self.wf(),
        ensures
            graph_wf(self.graph()),
    {
    }

    /// An empty index: no vertices at all.
    pub fn empty() -> (r: DagIndex)
        ensures
            r.wf(),
            r.graph() =~= Map::<Seq<u8>, Set<Seq<u8>>>::empty(),
    {
        let r = DagIndex { nodes: Vec::new() };
        proof {
            assert(node_keys(r.nodes@) =~= Seq::<Seq<u8>>::empty());
        }
        r
    }

    /// Construct an index directly from nodes. Fails (returns `None`)
    /// unless keys are distinct, every vertex is a valid non-zero oid, and
    /// every parent is itself a node.
    pub fn from_nodes(nodes: Vec<DagNode>) -> (r: Option<DagIndex>)
        ensures
            (match r {
                Some(index) => index.wf() && index.graph() == graph_of(nodes@),
                None => true,
            }),
    {
        let index = DagIndex { nodes };
        if index.check_wf() {
            Some(index)
        } else {
            None
        }
    }

    /// Decide well-formedness of the raw node list.
    fn check_wf(&self) -> (r: bool)
        ensures
            r ==> self.wf(),
    {
        let n = self.nodes.len();
        let mut i: usize = 0;
        // Distinct keys and valid oids.
        while i < n
            invariant
                n == self.nodes@.len(),
                0 <= i <= n,
                forall|a: int, b: int|
                    0 <= a < b < i ==> node_keys(self.nodes@)[a] != node_keys(self.nodes@)[b],
                forall|a: int| 0 <= a < i ==> valid_oid_seq(node_keys(self.nodes@)[a]),
            decreases n - i,
        {
            match crate::oid::vertex_to_nonzero_oid(&self.nodes[i].vertex) {
                Ok(_) => {},
                Err(_) => {
                    return false;
                },
            }
            let mut j: usize = 0;
            while j < i
                invariant
                    n == self.nodes@.len(),
                    0 <= j <= i < n,
                    forall|a: int|
                        0 <= a < j ==> node_keys(self.nodes@)[a] != node_keys(self.nodes@)[i as int],
                decreases i - j,
            {
                if bytes_eq(self.nodes[j].vertex.as_bytes(), self.nodes[i].vertex.as_bytes()) {
                    return false;
                }
                proof {
                    assert(node_keys(self.nodes@)[j as int] == self.nodes@[j as int].key());
                }
                j += 1;
            }
            i += 1;
        }
        proof {
            assert(node_keys(self.nodes@).no_duplicates());
        }
        // Every parent is a key and a valid oid.
        let mut i2: usize = 0;
        while i2 < n
            invariant
                n == self.nodes@.len(),
                node_keys(self.nodes@).no_duplicates(),
                forall|a: int| 0 <= a < n ==> valid_oid_seq(node_keys(self.nodes@)[a]),
                0 <= i2 <= n,
                forall|a: int, b: int|
                    0 <= a < i2 && 0 <= b < self.nodes@[a].parents@.len() ==> node_keys(
                        self.nodes@,
                    ).contains(#[trigger] self.nodes@[a].parents@[b]@) && valid_oid_seq(
                        self.nodes@[a].parents@[b]@,
                    ),
            decreases n - i2,
        {
            let m = self.nodes[i2].parents.len();
            let mut j: usize = 0;
            while j < m
                invariant
                    n == self.nodes@.len(),
                    i2 < n,
                    m == self.nodes@[i2 as int].parents@.len(),
                    forall|a: int| 0 <= a < n ==> valid_oid_seq(node_keys(self.nodes@)[a]),
                    0 <= j <= m,
                    forall|b: int|
                        0 <= b < j ==> node_keys(self.nodes@).contains(
                            #[trigger] self.nodes@[i2 as int].parents@[b]@,
                        ) && valid_oid_seq(self.nodes@[i2 as int].parents@[b]@),
                decreases m - j,
            {
                let mut found = false;
                let mut k: usize = 0;
                while k < n
                    invariant
                        n == self.nodes@.len(),
                        i2 < n,
                        j < m,
                        m == self.nodes@[i2 as int].parents@.len(),
                        0 <= k <= n,
                        found <==> exists|c: int|
                            0 <= c < k && node_keys(self.nodes@)[c] == self.nodes@[
                                i2 as int
                            ].parents@[j as int]@,
                    decreases n - k,
                {
                    if bytes_eq(
                        self.nodes[k].vertex.as_bytes(),
                        self.nodes[i2].parents[j].as_bytes(),
                    ) {
                        found = true;
                        proof {
                            assert(node_keys(self.nodes@)[k as int] == self.nodes@[
                                k as int
                            ].key());
                        }
                    }
                    k += 1;
                }
                if !found {
                    return false;
                }
                proof {
                    let c = choose|c: int|
                        0 <= c < n && node_keys(self.nodes@)[c] == self.nodes@[
                            i2 as int
                        ].parents@[j as int]@;
                    assert(node_keys(self.nodes@).contains(
                        self.nodes@[i2 as int].parents@[j as int]@,
                    ));
                }
                j += 1;
            }
            i2 += 1;
        }
        proof {
            self.lemma_check_wf_done();
        }
        true
    }

    /// The structural facts checked by `check_wf` imply well-formedness.
    proof fn lemma_check_wf_done(&self)
        requires
            node_keys(self.nodes@).no_duplicates(),
            forall|a: int| 0 <= a < self.nodes@.len() ==> valid_oid_seq(node_keys(self.nodes@)[a]),
            forall|a: int, b: int|
                0 <= a < self.nodes@.len() && 0 <= b < self.nodes@[a].parents@.len() ==> node_keys(
                    self.nodes@,
                ).contains(#[trigger] self.nodes@[a].parents@[b]@) && valid_oid_seq(
                    self.nodes@[a].parents@[b]@,
                ),
        ensures
            self.wf(),
    {
        let g = self.graph();
        lemma_graph_of_dom(self.nodes@);
        assert forall|v: Seq<u8>| #[trigger] g.dom().contains(v) implies valid_oid_seq(v) by {
            let j = choose|j: int|
                0 <= j < node_keys(self.nodes@).len() && node_keys(self.nodes@)[j] == v;
        }
        assert forall|v: Seq<u8>, p: Seq<u8>|
            g.dom().contains(v) && #[trigger] g[v].contains(p) implies g.dom().contains(p)
            && valid_oid_seq(p) by {
            let ks = node_keys(self.nodes@);
            let j = choose|j: int| 0 <= j < ks.len() && ks[j] == v;
            assert(self.nodes@[j].key() == v);
            lemma_graph_of_index(self.nodes@, j);
            assert(g[v] == self.nodes@[j].parent_set());
            let mapped = self.nodes@[j].parents@.map_values(|q: CommitVertex| q@);
            assert(mapped.contains(p));
            let b = choose|b: int| 0 <= b < mapped.len() && mapped[b] == p;
            assert(self.nodes@[j].parents@[b]@ == p);
            assert(ks.contains(p));
        }
    }

    /// Look a vertex up; `Some(i)` gives the node position, `None` means
    /// the vertex is not in the graph.
    fn find_node(&self, bytes: &Vec<u8>) -> (r: Option<usize>)
        requires
            self.wf(),
        ensures
            (match r {
                Some(i) => i < self.nodes@.len() && self.nodes@[i as int].key() == bytes@
                    && self.graph().dom().contains(bytes@) && self.graph()[bytes@] == self.nodes@[
                    i as int
                ].parent_set(),
                None => !self.graph().dom().contains(bytes@),
            }),
    {
        let n = self.nodes.len();
        let mut i: usize = 0;
        while i < n
            invariant
                n == self.nodes@.len(),
                self.wf(),
                0 <= i <= n,
                forall|j: int| 0 <= j < i ==> self.nodes@[j].key() != bytes@,
            decreases n - i,
        {
            if bytes_eq(self.nodes[i].vertex.as_bytes(), bytes) {
                proof {
                    lemma_graph_of_index(self.nodes@, i as int);
                }
                return Some(i);
            }
            i += 1;
        }
        proof {
            lemma_graph_of_dom(self.nodes@);
            if self.graph().dom().contains(bytes@) {
                let ks = node_keys(self.nodes@);
                let j = choose|j: int| 0 <= j < ks.len() && ks[j] == bytes@;
                assert(self.nodes@[j].key() == bytes@);
                assert(false);
            }
        }
        None
    }

    /// Whether the graph holds this vertex.
    pub fn contains_vertex(&self, v: &CommitVertex) -> (r: bool)
        requires
            self.wf(),
        ensures
            r <==> self.graph().dom().contains(v@),
    {
        match self.find_node(v.as_bytes()) {
            Some(_) => true,
            None => false,
        }
    }

    /// The one-step parents of every member of `s`, as a set.
    pub fn parents(&self, s: &CommitSet) -> (r: CommitSet)
        requires
            self.wf(),
            s.wf(),
        ensures
            r.wf(),
            forall|x: Seq<u8>| #[trigger] r.contents().contains(x) <==> parent_targets(
                self.graph(),
                s.contents(),
            ).contains(x),
    {
        let ghost g = self.graph();
        let mut r = CommitSet::empty();
        let n = s.count();
        let mut i: usize = 0;
        proof {
            assert(forall|x: Seq<u8>| !(#[trigger] s@.take(0int).contains(x)));
        }
        while i < n
            invariant
                n == s@.len(),
                self.wf(),
                s.wf(),
                g == self.graph(),
                0 <= i <= n,
                r.wf(),
                forall|x: Seq<u8>| #[trigger] r.contents().contains(x) <==> parent_targets(
                    g,
                    s@.take(i as int).to_set(),
                ).contains(x),
            decreases n - i,
        {
            let v = s.get(i);
            let ghost pre = s@.take(i as int).to_set();
            let ghost post = s@.take(i + 1).to_set();
            proof {
                assert(s@.take(i + 1).drop_last() =~= s@.take(i as int));
                assert(s@.take(i + 1) =~= s@.take(i as int).push(s@[i as int]));
                assert(post =~= pre.insert(s@[i as int]));
            }
            match self.find_node(v.as_bytes()) {
                Some(node_index) => {
                    let m = self.nodes[node_index].parents.len();
                    let mut j: usize = 0;
                    while j < m
                        invariant
                            self.wf(),
                            g == self.graph(),
                            node_index < self.nodes@.len(),
                            m == self.nodes@[node_index as int].parents@.len(),
                            self.nodes@[node_index as int].key() == s@[i as int],
                            i < n,
                            n == s@.len(),
                            g.dom().contains(s@[i as int]),
                            g[s@[i as int]] == self.nodes@[node_index as int].parent_set(),
                            0 <= j <= m,
                            r.wf(),
                            forall|x: Seq<u8>| #[trigger] r.contents().contains(x) <==> (
                            parent_targets(g, pre).contains(x) || exists|k: int|
                                0 <= k < j && self.nodes@[node_index as int].parents@[k]@ == x),
                            pre == s@.take(i as int).to_set(),
                        decreases m - j,
                    {
                        let p = self.nodes[node_index].parents[j].duplicate();
                        let ghost prev_contents = r.contents();
                        r = r.insert_new(p);
                        proof {
                            assert forall|x: Seq<u8>| #[trigger] r.contents().contains(x) <==> (
                            parent_targets(g, pre).contains(x) || exists|k: int|
                                0 <= k < j + 1 && self.nodes@[node_index as int].parents@[k]@
                                    == x) by {
                                if r.contents().contains(x) {
                                    if x == self.nodes@[node_index as int].parents@[j as int]@ {
                                        assert(self.nodes@[node_index as int].parents@[
                                            j as int
                                        ]@ == x);
                                    } else {
                                        assert(prev_contents.contains(x));
                                    }
                                }
                                if exists|k: int|
                                    0 <= k < j + 1 && self.nodes@[node_index as int].parents@[k]@
                                        == x {
                                    let k = choose|k: int|
                                        0 <= k < j + 1 && self.nodes@[
                                            node_index as int
                                        ].parents@[k]@ == x;
                                    if k < j {
                                        assert(prev_contents.contains(x));
                                    } else {
                                        assert(r.contents().contains(x));
                                    }
                                }
                            }
                        }
                        j += 1;
                    }
                    proof {
                        lemma_parent_step_union(g, pre, s@[i as int], self.nodes@[
                            node_index as int
                        ].parents@, r.contents());
                        assert(forall|x: Seq<u8>| #[trigger] r.contents().contains(x) <==>
                            parent_targets(g, post).contains(x));
                    }
                },
                None => {
                    proof {
                        assert forall|x: Seq<u8>| #[trigger] r.contents().contains(x) <==>
                            parent_targets(g, post).contains(x) by {
                            if parent_targets(g, post).contains(x) {
                                let v0 = choose|v0: Seq<u8>|
                                    post.contains(v0) && g.dom().contains(v0)
                                        && #[trigger] g[v0].contains(x);
                                assert(pre.contains(v0) || v0 == s@[i as int]);
                                assert(parent_targets(g, pre).contains(x));
                            }
                            if parent_targets(g, pre).contains(x) {
                                let v0 = choose|v0: Seq<u8>|
                                    pre.contains(v0) && g.dom().contains(v0)
                                        && #[trigger] g[v0].contains(x);
                                assert(post.contains(v0));
                                assert(parent_targets(g, post).contains(x));
                            }
                        }
                    }
                },
            }
            i += 1;
        }
        proof {
            assert(s@.take(n as int) =~= s@);
        }
        r
    }
}

/// `a` and `b` are joined by one parent edge, in either direction.
pub open spec fn linked(g: Map<Seq<u8>, Set<Seq<u8>>>, a: Seq<u8>, b: Seq<u8>) -> bool {
    (g.dom().contains(a) && g[a].contains(b)) || (g.dom().contains(b) && g[b].contains(a))
}

/// `a` reaches `b` in at most `n` undirected steps that never leave
/// `within`.
pub open spec fn connected_within_n(
    g: Map<Seq<u8>, Set<Seq<u8>>>,
    within: Set<Seq<u8>>,
    a: Seq<u8>,
    b: Seq<u8>,
    n: nat,
) -> bool
    decreases n,
{
    if n == 0 {
        a == b && within.contains(a)
    } else {
        connected_within_n(g, within, a, b, (n - 1) as nat) || exists|c: Seq<u8>|
            connected_within_n(g, within, a, c, (n - 1) as nat) && #[trigger] linked(g, c, b)
                && within.contains(b)
    }
}

/// `a` and `b` are connected through parent-or-child edges without leaving
/// `within`.
pub open spec fn connected_within(
    g: Map<Seq<u8>, Set<Seq<u8>>>,
    within: Set<Seq<u8>>,
    a: Seq<u8>,
    b: Seq<u8>,
) -> bool {
    exists|n: nat| connected_within_n(g, within, a, b, n)
}

/// Every member of a connected set is connected to every other through the
/// set.
pub open spec fn component_connected(g: Map<Seq<u8>, Set<Seq<u8>>>, comp: Set<Seq<u8>>) -> bool {
    forall|x: Seq<u8>, y: Seq<u8>|
        comp.contains(x) && comp.contains(y) ==> #[trigger] connected_within(g, comp, x, y)
}

/// Connection endpoints lie in the connecting set.
pub proof fn lemma_connected_endpoints(
    g: Map<Seq<u8>, Set<Seq<u8>>>,
    within: Set<Seq<u8>>,
    a: Seq<u8>,
    b: Seq<u8>,
    n: nat,
)
    requires
        connected_within_n(g, within, a, b, n),
    ensures
        within.contains(a),
        within.contains(b),
    decreases n,
{
    if n == 0 {
    } else {
        if connected_within_n(g, within, a, b, (n - 1) as nat) {
            lemma_connected_endpoints(g, within, a, b, (n - 1) as nat);
        } else {
            let c = choose|c: Seq<u8>|
                connected_within_n(g, within, a, c, (n - 1) as nat) && #[trigger] linked(g, c, b)
                    && within.contains(b);
            lemma_connected_endpoints(g, within, a, c, (n - 1) as nat);
        }
    }
}

/// Connection survives growing the connecting set.
pub proof fn lemma_connected_mono(
    g: Map<Seq<u8>, Set<Seq<u8>>>,
    within: Set<Seq<u8>>,
    grown: Set<Seq<u8>>,
    a: Seq<u8>,
    b: Seq<u8>,
    n: nat,
)
    requires
        connected_within_n(g, within, a, b, n),
        within.subset_of(grown),
    ensures
        connected_within_n(g, grown, a, b, n),
    decreases n,
{
    if n == 0 {
    } else {
        if connected_within_n(g, within, a, b, (n - 1) as nat) {
            lemma_connected_mono(g, within, grown, a, b, (n - 1) as nat);
        } else {
            let c = choose|c: Seq<u8>|
                connected_within_n(g, within, a, c, (n - 1) as nat) && #[trigger] linked(g, c, b)
                    && within.contains(b);
            lemma_connected_mono(g, within, grown, a, c, (n - 1) as nat);
            assert(connected_within_n(g, grown, a, b, n));
        }
    }
}

/// Connection extends across one more edge.
pub proof fn lemma_connected_step(
    g: Map<Seq<u8>, Set<Seq<u8>>>,
    within: Set<Seq<u8>>,
    a: Seq<u8>,
    c: Seq<u8>,
    b: Seq<u8>,
)
    requires
        connected_within(g, within, a, c),
        linked(g, c, b),
        within.contains(b),
    ensures
        connected_within(g, within, a, b),
{
    let n = choose|n: nat| connected_within_n(g, within, a, c, n);
    assert(connected_within_n(g, within, a, b, n + 1));
}

/// Connections compose.
pub proof fn lemma_connected_trans(
    g: Map<Seq<u8>, Set<Seq<u8>>>,
    within: Set<Seq<u8>>,
    a: Seq<u8>,
    b: Seq<u8>,
    c: Seq<u8>,
    n: nat,
)
    requires
        connected_within(g, within, a, b),
        connected_within_n(g, within, b, c, n),
    ensures
        connected_within(g, within, a, c),
    decreases n,
{
    if n == 0 {
        assert(b == c);
    } else {
        if connected_within_n(g, within, b, c, (n - 1) as nat) {
            lemma_connected_trans(g, within, a, b, c, (n - 1) as nat);
        } else {
            let m = choose|m: Seq<u8>|
                connected_within_n(g, within, b, m, (n - 1) as nat) && #[trigger] linked(g, m, c)
                    && within.contains(c);
            lemma_connected_trans(g, within, a, b, m, (n - 1) as nat);
            lemma_connected_step(g, within, a, m, c);
        }
    }
}

/// Connection is symmetric.
pub proof fn lemma_connected_sym(
    g: Map<Seq<u8>, Set<Seq<u8>>>,
    within: Set<Seq<u8>>,
    a: Seq<u8>,
    b: Seq<u8>,
    n: nat,
)
    requires
        connected_within_n(g, within, a, b, n),
    ensures
        connected_within(g, within, b, a),
    decreases n,
{
    if n == 0 {
        assert(connected_within_n(g, within, b, a, 0));
    } else {
        if connected_within_n(g, within, a, b, (n - 1) as nat) {
            lemma_connected_sym(g, within, a, b, (n - 1) as nat);
        } else {
            let c = choose|c: Seq<u8>|
                connected_within_n(g, within, a, c, (n - 1) as nat) && #[trigger] linked(g, c, b)
                    && within.contains(b);
            // b reaches c in one step, and c reaches a by induction.
            lemma_connected_endpoints(g, within, a, c, (n - 1) as nat);
            assert(connected_within_n(g, within, b, b, 0));
            lemma_connected_step(g, within, b, b, c);
            lemma_connected_sym(g, within, a, c, (n - 1) as nat);
            let m = choose|m: nat| connected_within_n(g, within, c, a, m);
            lemma_connected_trans(g, within, b, c, a, m);
        }
    }
}

/// Law: a set whose members are all connected to one seed member is
/// pairwise connected.
pub proof fn lemma_seed_connects_component(
    g: Map<Seq<u8>, Set<Seq<u8>>>,
    comp: Set<Seq<u8>>,
    seed: Seq<u8>,
)
    requires
        forall|x: Seq<u8>| comp.contains(x) ==> #[trigger] connected_within(g, comp, seed, x),
        comp.contains(seed),
    ensures
        component_connected(g, comp),
{
    assert forall|x: Seq<u8>, y: Seq<u8>|
        comp.contains(x) && comp.contains(y) implies #[trigger] connected_within(g, comp, x, y) by {
        assert(connected_within(g, comp, seed, x));
        assert(connected_within(g, comp, seed, y));
        let n = choose|n: nat| connected_within_n(g, comp, seed, x, n);
        lemma_connected_sym(g, comp, seed, x, n);
        let m = choose|m: nat| connected_within_n(g, comp, seed, y, m);
        lemma_connected_trans(g, comp, x, seed, y, m);
    }
}

/// A member of `s` with no strict descendant in `s`.
pub open spec fn is_head_within(g: Map<Seq<u8>, Set<Seq<u8>>>, s: Set<Seq<u8>>, x: Seq<u8>) -> bool {
    s.contains(x) && forall|u: Seq<u8>| s.contains(u) && #[trigger] is_ancestor_of(g, x, u) ==> u
        == x
}

/// A member of `s` with no strict ancestor in `s`.
pub open spec fn is_root_within(g: Map<Seq<u8>, Set<Seq<u8>>>, s: Set<Seq<u8>>, x: Seq<u8>) -> bool {
    s.contains(x) && forall|u: Seq<u8>| s.contains(u) && #[trigger] is_ancestor_of(g, u, x) ==> u
        == x
}

/// Strict lexicographic order on byte strings, shorter prefixes first.
pub open spec fn lex_less(a: Seq<u8>, b: Seq<u8>) -> bool
    decreases b.len(),
{
    if b.len() == 0 {
        false
    } else if a.len() == 0 {
        true
    } else if a[0] < b[0] {
        true
    } else if a[0] > b[0] {
        false
    } else {
        lex_less(a.drop_first(), b.drop_first())
    }
}

/// Distinct byte strings are lexicographically comparable.
pub proof fn lemma_lex_total(a: Seq<u8>, b: Seq<u8>)
    requires
        a != b,
    ensures
        lex_less(a, b) || lex_less(b, a),
    decreases a.len() + b.len(),
{
    if b.len() == 0 {
        if a.len() == 0 {
            assert(a =~= b);
        }
    } else if a.len() == 0 {
    } else if a[0] < b[0] || a[0] > b[0] {
    } else {
        if a.drop_first() == b.drop_first() {
            assert(a.drop_first().len() == b.drop_first().len());
            assert(a.len() == b.len());
            assert forall|k: int| 0 <= k < a.len() implies a[k] == b[k] by {
                if k > 0 {
                    assert(a.drop_first()[k - 1] == a[k]);
                    assert(b.drop_first()[k - 1] == b[k]);
                }
            }
            assert(a =~= b);
        }
        lemma_lex_total(a.drop_first(), b.drop_first());
    }
}

/// The lexicographic order is asymmetric.
pub proof fn lemma_lex_asym(a: Seq<u8>, b: Seq<u8>)
    requires
        lex_less(a, b),
    ensures
        !lex_less(b, a),
    decreases a.len() + b.len(),
{
    if b.len() == 0 {
    } else if a.len() == 0 {
    } else if a[0] < b[0] || a[0] > b[0] {
    } else {
        lemma_lex_asym(a.drop_first(), b.drop_first());
    }
}

/// The lexicographic order is transitive.
pub proof fn lemma_lex_trans(a: Seq<u8>, b: Seq<u8>, c: Seq<u8>)
    requires
        lex_less(a, b),
        lex_less(b, c),
    ensures
        lex_less(a, c),
    decreases a.len() + b.len() + c.len(),
{
    if c.len() == 0 {
    } else if b.len() == 0 {
    } else if a.len() == 0 {
    } else {
        if a[0] == b[0] && b[0] == c[0] {
            lemma_lex_trans(a.drop_first(), b.drop_first(), c.drop_first());
        }
    }
}

/// The deterministic topological sort key: ancestor count first, vertex
/// bytes as the tie-break.
pub open spec fn topo_key_lt(g: Map<Seq<u8>, Set<Seq<u8>>>, a: Seq<u8>, b: Seq<u8>) -> bool {
    let ca = ancestor_closure(g, set_one(a)).len();
    let cb = ancestor_closure(g, set_one(b)).len();
    ca < cb || (ca == cb && lex_less(a, b))
}

/// Distinct vertices are comparable under the sort key.
pub proof fn lemma_topo_key_total(g: Map<Seq<u8>, Set<Seq<u8>>>, a: Seq<u8>, b: Seq<u8>)
    requires
        a != b,
    ensures
        topo_key_lt(g, a, b) || topo_key_lt(g, b, a),
{
    lemma_lex_total(a, b);
}

/// The sort key is asymmetric.
pub proof fn lemma_topo_key_asym(g: Map<Seq<u8>, Set<Seq<u8>>>, a: Seq<u8>, b: Seq<u8>)
    requires
        topo_key_lt(g, a, b),
    ensures
        !topo_key_lt(g, b, a),
{
    if lex_less(a, b) {
        lemma_lex_asym(a, b);
    }
}

/// The sort key is transitive.
pub proof fn lemma_topo_key_trans(g: Map<Seq<u8>, Set<Seq<u8>>>, a: Seq<u8>, b: Seq<u8>, c: Seq<u8>)
    requires
        topo_key_lt(g, a, b),
        topo_key_lt(g, b, c),
    ensures
        topo_key_lt(g, a, c),
{
    if ancestor_closure(g, set_one(a)).len() == ancestor_closure(g, set_one(b)).len()
        && ancestor_closure(g, set_one(b)).len() == ancestor_closure(g, set_one(c)).len() {
        lemma_lex_trans(a, b, c);
    }
}

/// Law: in an acyclic well-formed graph a strict ancestor has the smaller
/// sort key, so a sequence sorted by the key lists ancestors before their
/// descendants.
pub proof fn lemma_topo_key_of_ancestor(g: Map<Seq<u8>, Set<Seq<u8>>>, a: Seq<u8>, b: Seq<u8>)
    requires
        graph_wf(g),
        acyclic(g),
        is_ancestor_of(g, a, b),
        a != b,
    ensures
        topo_key_lt(g, a, b),
{
    lemma_strict_ancestor_fewer(g, a, b);
}

/// Law: a sequence sorted by the topological key never lists a strict
/// ancestor after one of its descendants.
pub proof fn lemma_sort_topological(
    g: Map<Seq<u8>, Set<Seq<u8>>>,
    order: Seq<Seq<u8>>,
    i: int,
    j: int,
)
    requires
        graph_wf(g),
        acyclic(g),
        forall|p: int, q: int| 0 <= p < q < order.len() ==> topo_key_lt(
            g,
            #[trigger] order[p],
            #[trigger] order[q],
        ),
        0 <= i < j < order.len(),
        order[i] != order[j],
    ensures
        !is_ancestor_of(g, order[j], order[i]),
{
    if is_ancestor_of(g, order[j], order[i]) {
        lemma_topo_key_of_ancestor(g, order[j], order[i]);
        lemma_topo_key_asym(g, order[j], order[i]);
    }
}

/// Compare byte vectors lexicographically.
pub fn lex_less_exec(a: &Vec<u8>, b: &Vec<u8>) -> (r: bool)
    ensures
        r == lex_less(a@, b@),
{
    let mut i: usize = 0;
    proof {
        assert(a@.skip(0int) =~= a@);
        assert(b@.skip(0int) =~= b@);
    }
    loop
        invariant
            i <= a@.len(),
            i <= b@.len(),
            lex_less(a@, b@) == lex_less(a@.skip(i as int), b@.skip(i as int)),
        decreases b@.len() - i,
    {
        if i == b.len() {
            proof {
                assert(b@.skip(i as int).len() == 0);
            }
            return false;
        }
        if i == a.len() {
            proof {
                assert(a@.skip(i as int).len() == 0);
                assert(b@.skip(i as int).len() > 0);
            }
            return true;
        }
        let ca = a[i];
        let cb = b[i];
        proof {
            assert(a@.skip(i as int)[0] == a@[i as int]);
            assert(b@.skip(i as int)[0] == b@[i as int]);
            assert(a@.skip(i as int).drop_first() =~= a@.skip(i + 1));
            assert(b@.skip(i as int).drop_first() =~= b@.skip(i + 1));
        }
        if ca < cb {
            return true;
        }
        if ca > cb {
            return false;
        }
        i += 1;
    }
}

impl DagIndex {
    /// The set of all ancestors of `s`, endpoints included.
    pub fn ancestors(&self, s: &CommitSet) -> (r: CommitSet)
        requires
            self.wf(),
            s.wf(),
        ensures
            r.wf(),
            forall|x: Seq<u8>| #[trigger] r.contents().contains(x) <==> in_ancestors(
                self.graph(),
                s.contents(),
                x,
            ),
    {
        let ghost g = self.graph();
        let ghost bound = s.contents().union(g.dom());
        let mut r = s.duplicate();
        proof {
            assert(r.wf());
            assert forall|x: Seq<u8>| #[trigger] r.contents().contains(x) implies in_ancestors(
                g,
                s.contents(),
                x,
            ) by {
                lemma_ancestors_base(g, s.contents(), x);
            }
        }
        loop
            invariant
                self.wf(),
                g == self.graph(),
                bound == s.contents().union(g.dom()),
                bound.finite(),
                r.wf(),
                forall|y: Seq<u8>| #[trigger] s.contents().contains(y) ==> r.contents().contains(
                    y,
                ),
                forall|x: Seq<u8>| #[trigger] r.contents().contains(x) ==> in_ancestors(
                    g,
                    s.contents(),
                    x,
                ),
                forall|x: Seq<u8>| #[trigger] r.contents().contains(x) ==> bound.contains(x),
            decreases bound.difference(r.contents()).len(),
        {
            let step = self.parents(&r);
            let fresh = step.difference(&r);
            if fresh.is_empty() {
                proof {
                    assert forall|x: Seq<u8>| in_ancestors(g, s.contents(), x) implies
                        r.contents().contains(x) by {
                        let n = choose|n: nat| in_closure_n(g, s.contents(), x, n);
                        assert forall|v: Seq<u8>, p: Seq<u8>|
                            r.contents().contains(v) && g.dom().contains(v)
                                && #[trigger] g[v].contains(p) implies r.contents().contains(
                            p,
                        ) by {
                            assert(parent_targets(g, r.contents()).contains(p));
                            assert(step.contents().contains(p));
                            if !r.contents().contains(p) {
                                assert(fresh.contents().contains(p));
                            }
                        }
                        lemma_closure_in_closed(g, s.contents(), r.contents(), x, n);
                    }
                }
                return r;
            }
            let ghost old_contents = r.contents();
            let ghost w = fresh@[0];
            proof {
                assert(fresh.contents().contains(w));
                assert(step.contents().contains(w));
                assert(!old_contents.contains(w));
                // Every fresh vertex is a parent of a known ancestor.
                assert forall|x: Seq<u8>| #[trigger] fresh.contents().contains(x) implies
                    in_ancestors(g, s.contents(), x) && bound.contains(x) by {
                    assert(parent_targets(g, r.contents()).contains(x));
                    let v = choose|v: Seq<u8>|
                        r.contents().contains(v) && g.dom().contains(v) && #[trigger] g[v].contains(
                            x,
                        );
                    lemma_ancestors_edge(g, s.contents(), v, x);
                }
            }
            r = r.union(&fresh);
            proof {
                let new_measure = bound.difference(r.contents());
                let old_measure = bound.difference(old_contents);
                assert(new_measure.subset_of(old_measure.remove(w)));
                vstd::set_lib::lemma_len_subset(old_measure, bound);
                vstd::set_lib::lemma_len_subset(new_measure, old_measure.remove(w));
                assert(old_measure.contains(w));
                assert(old_measure.remove(w).len() == old_measure.len() - 1);
            }
        }
    }

    /// The one-step children of every member of `s`: the vertices with a
    /// parent in `s`.
    pub fn children(&self, s: &CommitSet) -> (r: CommitSet)
        requires
            self.wf(),
            s.wf(),
        ensures
            r.wf(),
            forall|x: Seq<u8>| #[trigger] r.contents().contains(x) <==> child_targets(
                self.graph(),
                s.contents(),
            ).contains(x),
    {
        let ghost g = self.graph();
        let mut r = CommitSet::empty();
        let n = self.nodes.len();
        let mut i: usize = 0;
        while i < n
            invariant
                n == self.nodes@.len(),
                self.wf(),
                s.wf(),
                g == self.graph(),
                0 <= i <= n,
                r.wf(),
                forall|x: Seq<u8>| #[trigger] r.contents().contains(x) <==> exists|a: int, b: int|
                    0 <= a < i && self.nodes@[a].key() == x && 0 <= b < self.nodes@[
                        a
                    ].parents@.len() && s.contents().contains(#[trigger] self.nodes@[a].parents@[b]@),
            decreases n - i,
        {
            let m = self.nodes[i].parents.len();
            let mut j: usize = 0;
            let mut found = false;
            while j < m
                invariant
                    n == self.nodes@.len(),
                    i < n,
                    m == self.nodes@[i as int].parents@.len(),
                    0 <= j <= m,
                    found <==> exists|b: int|
                        0 <= b < j && s.contents().contains(
                            #[trigger] self.nodes@[i as int].parents@[b]@,
                        ),
                decreases m - j,
            {
                if s.contains(&self.nodes[i].parents[j]) {
                    found = true;
                    proof {
                        assert(s.contents().contains(self.nodes@[i as int].parents@[j as int]@));
                    }
                }
                j += 1;
            }
            let ghost prev_contents = r.contents();
            if found {
                let key_vertex = self.nodes[i].vertex.duplicate();
                r = r.insert_new(key_vertex);
            }
            proof {
                assert forall|x: Seq<u8>| #[trigger] r.contents().contains(x) <==> exists|
                    a: int,
                    b: int,
                |
                    0 <= a < i + 1 && self.nodes@[a].key() == x && 0 <= b < self.nodes@[
                        a
                    ].parents@.len() && s.contents().contains(#[trigger] self.nodes@[a].parents@[b]@) by {
                    if r.contents().contains(x) {
                        if prev_contents.contains(x) {
                            let (a, b) = choose|a: int, b: int|
                                0 <= a < i && self.nodes@[a].key() == x && 0 <= b
                                    < self.nodes@[a].parents@.len() && s.contents().contains(
                                    #[trigger] self.nodes@[a].parents@[b]@,
                                );
                            assert(0 <= a < i + 1 && self.nodes@[a].key() == x && 0 <= b
                                < self.nodes@[a].parents@.len() && s.contents().contains(
                                self.nodes@[a].parents@[b]@,
                            ));
                        } else {
                            assert(found && x == self.nodes@[i as int].key());
                            let b = choose|b: int|
                                0 <= b < m && s.contents().contains(
                                    #[trigger] self.nodes@[i as int].parents@[b]@,
                                );
                            assert(0 <= i < i + 1 && self.nodes@[i as int].key() == x && 0 <= b
                                < self.nodes@[i as int].parents@.len() && s.contents().contains(
                                self.nodes@[i as int].parents@[b]@,
                            ));
                        }
                    }
                    if exists|a: int, b: int|
                        0 <= a < i + 1 && self.nodes@[a].key() == x && 0 <= b
                            < self.nodes@[a].parents@.len() && s.contents().contains(
                            #[trigger] self.nodes@[a].parents@[b]@,
                        ) {
                        let (a, b) = choose|a: int, b: int|
                            0 <= a < i + 1 && self.nodes@[a].key() == x && 0 <= b
                                < self.nodes@[a].parents@.len() && s.contents().contains(
                                #[trigger] self.nodes@[a].parents@[b]@,
                            );
                        if a < i {
                            assert(prev_contents.contains(x));
                        } else {
                            assert(found);
                        }
                        assert(r.contents().contains(x));
                    }
                }
            }
            i += 1;
        }
        proof {
            lemma_graph_of_dom(self.nodes@);
            assert forall|x: Seq<u8>| #[trigger] r.contents().contains(x) <==> child_targets(
                g,
                s.contents(),
            ).contains(x) by {
                let ks = node_keys(self.nodes@);
                if r.contents().contains(x) {
                    let (a, b) = choose|a: int, b: int|
                        0 <= a < n && self.nodes@[a].key() == x && 0 <= b < self.nodes@[
                            a
                        ].parents@.len() && s.contents().contains(#[trigger] self.nodes@[a].parents@[b]@);
                    assert(ks[a] == x);
                    assert(ks.contains(x));
                    assert(g.dom().contains(x));
                    lemma_graph_of_index(self.nodes@, a);
                    let mapped = self.nodes@[a].parents@.map_values(|q: CommitVertex| q@);
                    assert(mapped[b] == self.nodes@[a].parents@[b]@);
                    assert(mapped.contains(self.nodes@[a].parents@[b]@));
                    assert(g[x].contains(self.nodes@[a].parents@[b]@));
                    assert(child_targets(g, s.contents()).contains(x));
                }
                if child_targets(g, s.contents()).contains(x) {
                    assert(g.dom().contains(x));
                    assert(ks.contains(x));
                    let a = choose|a: int| 0 <= a < ks.len() && ks[a] == x;
                    assert(self.nodes@[a].key() == x);
                    lemma_graph_of_index(self.nodes@, a);
                    let p = choose|p: Seq<u8>| #[trigger] g[x].contains(p)
                        && s.contents().contains(p);
                    let mapped = self.nodes@[a].parents@.map_values(|q: CommitVertex| q@);
                    assert(mapped.contains(p));
                    let b = choose|b: int| 0 <= b < mapped.len() && mapped[b] == p;
                    assert(self.nodes@[a].parents@[b]@ == p);
                    assert(r.contents().contains(x));
                }
            }
        }
        r
    }

    /// The set of all descendants of `s`, endpoints included.
    pub fn descendants(&self, s: &CommitSet) -> (r: CommitSet)
        requires
            self.wf(),
            s.wf(),
        ensures
            r.wf(),
            forall|x: Seq<u8>| #[trigger] r.contents().contains(x) <==> in_descendants(
                self.graph(),
                s.contents(),
                x,
            ),
    {
        let ghost g = self.graph();
        let mut r = s.duplicate();
        let n = self.nodes.len();
        let mut i: usize = 0;
        proof {
            lemma_graph_of_dom(self.nodes@);
        }
        while i < n
            invariant
                n == self.nodes@.len(),
                self.wf(),
                s.wf(),
                g == self.graph(),
                0 <= i <= n,
                r.wf(),
                forall|x: Seq<u8>| #[trigger] r.contents().contains(x) <==> (s.contents().contains(
                    x,
                ) || exists|a: int|
                    0 <= a < i && #[trigger] self.nodes@[a].key() == x && in_descendants(
                        g,
                        s.contents(),
                        x,
                    )),
            decreases n - i,
        {
            let key_vertex = self.nodes[i].vertex.duplicate();
            let single = self.singleton(&key_vertex);
            let anc = self.ancestors(&single);
            let reaches = anc.intersects(s);
            let ghost prev_contents = r.contents();
            proof {
                // `reaches` decides descendant-hood of this key.
                assert(reaches <==> in_descendants(g, s.contents(), key_vertex@)) by {
                    if reaches {
                        let u = choose|u: Seq<u8>|
                            anc.contents().contains(u) && s.contents().contains(u);
                        assert(in_ancestors(g, set_one(key_vertex@), u));
                        assert(is_ancestor_of(g, u, key_vertex@));
                        assert(in_descendants(g, s.contents(), key_vertex@));
                    }
                    if in_descendants(g, s.contents(), key_vertex@) {
                        let u = choose|u: Seq<u8>|
                            s.contents().contains(u) && #[trigger] is_ancestor_of(
                                g,
                                u,
                                key_vertex@,
                            );
                        assert(anc.contents().contains(u));
                    }
                }
            }
            if reaches {
                r = r.insert_new(key_vertex);
            }
            proof {
                let kv = self.nodes@[i as int].key();
                assert forall|x: Seq<u8>| #[trigger] r.contents().contains(x) <==> (
                s.contents().contains(x) || exists|a: int|
                    0 <= a < i + 1 && #[trigger] self.nodes@[a].key() == x && in_descendants(
                        g,
                        s.contents(),
                        x,
                    )) by {
                    if r.contents().contains(x) && !prev_contents.contains(x) {
                        assert(x == kv);
                        assert(0 <= i < i + 1 && self.nodes@[i as int].key() == x
                            && in_descendants(g, s.contents(), x));
                    }
                    if exists|a: int|
                        0 <= a < i + 1 && #[trigger] self.nodes@[a].key() == x && in_descendants(
                            g,
                            s.contents(),
                            x,
                        ) && !s.contents().contains(x) {
                        let a = choose|a: int|
                            0 <= a < i + 1 && #[trigger] self.nodes@[a].key() == x
                                && in_descendants(g, s.contents(), x);
                        if a < i {
                            assert(prev_contents.contains(x));
                            assert(r.contents().contains(x));
                        } else {
                            assert(x == kv);
                            assert(r.contents().contains(x));
                        }
                    }
                }
            }
            i += 1;
        }
        proof {
            assert forall|x: Seq<u8>| #[trigger] r.contents().contains(x) <==> in_descendants(
                g,
                s.contents(),
                x,
            ) by {
                let ks = node_keys(self.nodes@);
                if r.contents().contains(x) {
                    if s.contents().contains(x) {
                        lemma_ancestors_base(g, set_one(x), x);
                        assert(is_ancestor_of(g, x, x));
                        assert(in_descendants(g, s.contents(), x));
                    }
                }
                if in_descendants(g, s.contents(), x) && !s.contents().contains(x) {
                    let u = choose|u: Seq<u8>|
                        s.contents().contains(u) && #[trigger] is_ancestor_of(g, u, x);
                    if g.dom().contains(x) {
                        assert(ks.contains(x));
                        let a = choose|a: int| 0 <= a < ks.len() && ks[a] == x;
                        assert(self.nodes@[a].key() == x);
                        assert(r.contents().contains(x));
                    } else {
                        let nn = choose|nn: nat| in_closure_n(g, set_one(x), u, nn);
                        lemma_closure_of_unknown(g, x, u, nn);
                        assert(u == x);
                        assert(false);
                    }
                }
            }
        }
        r
    }

    /// The singleton set of one vertex.
    pub fn singleton(&self, v: &CommitVertex) -> (r: CommitSet)
        ensures
            r.wf(),
            r@ =~= seq![v@],
            r.contents() =~= set_one(v@),
    {
        let mut vertices: Vec<CommitVertex> = Vec::new();
        vertices.push(v.duplicate());
        let r = CommitSet::from_vertices(&vertices);
        proof {
            let mapped = vertices@.map_values(|q: CommitVertex| q@);
            assert(mapped =~= seq![v@]);
            assert(mapped.no_duplicates());
            crate::commit_set::lemma_first_occurrences_identity(mapped);
            assert(r@ == mapped);
            assert(r.contents() =~= set_one(v@)) by {
                assert(mapped[0] == v@);
                assert forall|x: Seq<u8>| mapped.contains(x) <==> x == v@ by {
                    if mapped.contains(x) {
                        let k = choose|k: int| 0 <= k < mapped.len() && mapped[k] == x;
                    }
                    if x == v@ {
                        assert(mapped[0] == x);
                    }
                }
            }
        }
        r
    }

    /// Whether `a` is an ancestor of `b` (including `a == b`).
    pub fn is_ancestor(&self, a: &CommitVertex, b: &CommitVertex) -> (r: bool)
        requires
            self.wf(),
        ensures
            r == is_ancestor_of(self.graph(), a@, b@),
    {
        let single = self.singleton(b);
        let anc = self.ancestors(&single);
        anc.contains(a)
    }

    /// The members of `s` that have no strict descendant in `s`.
    pub fn heads(&self, s: &CommitSet) -> (r: CommitSet)
        requires
            self.wf(),
            s.wf(),
        ensures
            r.wf(),
            forall|x: Seq<u8>| #[trigger] r.contents().contains(x) <==> is_head_within(
                self.graph(),
                s.contents(),
                x,
            ),
    {
        self.extremal(s, true)
    }

    /// The members of `s` that have no strict ancestor in `s`.
    pub fn roots(&self, s: &CommitSet) -> (r: CommitSet)
        requires
            self.wf(),
            s.wf(),
        ensures
            r.wf(),
            forall|x: Seq<u8>| #[trigger] r.contents().contains(x) <==> is_root_within(
                self.graph(),
                s.contents(),
                x,
            ),
    {
        self.extremal(s, false)
    }

    /// The members of `s` with no strict descendant (`towards_heads`) or no
    /// strict ancestor (otherwise) in `s`.
    fn extremal(&self, s: &CommitSet, towards_heads: bool) -> (r: CommitSet)
        requires
            self.wf(),
            s.wf(),
        ensures
            r.wf(),
            towards_heads ==> forall|x: Seq<u8>| #[trigger] r.contents().contains(x)
                <==> is_head_within(self.graph(), s.contents(), x),
            !towards_heads ==> forall|x: Seq<u8>| #[trigger] r.contents().contains(x)
                <==> is_root_within(self.graph(), s.contents(), x),
    {
        let ghost g = self.graph();
        let mut r = CommitSet::empty();
        let n = s.count();
        let mut i: usize = 0;
        while i < n
            invariant
                n == s@.len(),
                self.wf(),
                s.wf(),
                g == self.graph(),
                0 <= i <= n,
                r.wf(),
                towards_heads ==> forall|x: Seq<u8>| #[trigger] r.contents().contains(x) <==> (
                s@.take(i as int).contains(x) && is_head_within(g, s.contents(), x)),
                !towards_heads ==> forall|x: Seq<u8>| #[trigger] r.contents().contains(x) <==> (
                s@.take(i as int).contains(x) && is_root_within(g, s.contents(), x)),
            decreases n - i,
        {
            let v = s.get(i).duplicate();
            let m = s.count();
            let mut j: usize = 0;
            let mut blocked = false;
            while j < m
                invariant
                    m == n == s@.len(),
                    self.wf(),
                    s.wf(),
                    g == self.graph(),
                    i < n,
                    v@ == s@[i as int],
                    0 <= j <= m,
                    towards_heads ==> (blocked <==> exists|b: int|
                        0 <= b < j && is_ancestor_of(g, v@, #[trigger] s@[b]) && s@[b] != v@),
                    !towards_heads ==> (blocked <==> exists|b: int|
                        0 <= b < j && is_ancestor_of(g, #[trigger] s@[b], v@) && s@[b] != v@),
                decreases m - j,
            {
                let u = s.get(j);
                let strict = if towards_heads {
                    self.is_ancestor(&v, u)
                } else {
                    self.is_ancestor(u, &v)
                };
                if strict && !bytes_eq(u.as_bytes(), v.as_bytes()) {
                    blocked = true;
                    proof {
                        assert(s@[j as int] != v@);
                    }
                }
                j += 1;
            }
            let ghost prev_contents = r.contents();
            if !blocked {
                r = r.insert_new(v);
            }
            proof {
                let sv = s@[i as int];
                // `blocked` decides head- or root-hood of `sv` within `s`.
                if towards_heads {
                    assert(!blocked <==> is_head_within(g, s.contents(), sv)) by {
                        assert(s@.contains(sv));
                        if blocked {
                            let b = choose|b: int|
                                0 <= b < n && is_ancestor_of(g, sv, #[trigger] s@[b]) && s@[b]
                                    != sv;
                            assert(s.contents().contains(s@[b]));
                        } else {
                            assert forall|u: Seq<u8>|
                                s.contents().contains(u) && #[trigger] is_ancestor_of(
                                    g,
                                    sv,
                                    u,
                                ) implies u == sv by {
                                let b = choose|b: int| 0 <= b < s@.len() && s@[b] == u;
                                if u != sv {
                                    assert(is_ancestor_of(g, sv, s@[b]) && s@[b] != sv);
                                    assert(false);
                                }
                            }
                        }
                    }
                } else {
                    assert(!blocked <==> is_root_within(g, s.contents(), sv)) by {
                        assert(s@.contains(sv));
                        if blocked {
                            let b = choose|b: int|
                                0 <= b < n && is_ancestor_of(g, #[trigger] s@[b], sv) && s@[b]
                                    != sv;
                            assert(s.contents().contains(s@[b]));
                        } else {
                            assert forall|u: Seq<u8>|
                                s.contents().contains(u) && #[trigger] is_ancestor_of(
                                    g,
                                    u,
                                    sv,
                                ) implies u == sv by {
                                let b = choose|b: int| 0 <= b < s@.len() && s@[b] == u;
                                if u != sv {
                                    assert(is_ancestor_of(g, s@[b], sv) && s@[b] != sv);
                                    assert(false);
                                }
                            }
                        }
                    }
                }
                assert(s@.take(i + 1).drop_last() =~= s@.take(i as int));
                assert forall|x: Seq<u8>| s@.take(i + 1).contains(x) <==> (s@.take(
                    i as int,
                ).contains(x) || x == sv) by {
                    let post = s@.take(i + 1);
                    let pre = s@.take(i as int);
                    if post.contains(x) {
                        let k = choose|k: int| 0 <= k < post.len() && post[k] == x;
                        if k < pre.len() {
                            assert(pre.contains(x));
                        }
                    }
                    if pre.contains(x) {
                        let k = choose|k: int| 0 <= k < pre.len() && pre[k] == x;
                        assert(post[k] == x);
                    }
                    if x == sv {
                        assert(post[post.len() - 1] == x);
                    }
                }
            }
            i += 1;
        }
        proof {
            assert(s@.take(n as int) =~= s@);
            assert forall|x: Seq<u8>| s@.contains(x) <==> s.contents().contains(x) by {}
        }
        r
    }

    /// The commits reachable from `roots` that are not reachable from
    /// `bases`: `ancestors(roots) \ ancestors(bases)`.
    pub fn only(&self, roots: &CommitSet, bases: &CommitSet) -> (r: CommitSet)
        requires
            self.wf(),
            roots.wf(),
            bases.wf(),
        ensures
            r.wf(),
            forall|x: Seq<u8>| #[trigger] r.contents().contains(x) <==> (in_ancestors(
                self.graph(),
                roots.contents(),
                x,
            ) && !in_ancestors(self.graph(), bases.contents(), x)),
    {
        let from_roots = self.ancestors(roots);
        let from_bases = self.ancestors(bases);
        from_roots.difference(&from_bases)
    }

    /// The commits on a path from `roots` to `heads`:
    /// `descendants(roots) ∩ ancestors(heads)`.
    pub fn range(&self, roots: &CommitSet, heads: &CommitSet) -> (r: CommitSet)
        requires
            self.wf(),
            roots.wf(),
            heads.wf(),
        ensures
            r.wf(),
            forall|x: Seq<u8>| #[trigger] r.contents().contains(x) <==> (in_descendants(
                self.graph(),
                roots.contents(),
                x,
            ) && in_ancestors(self.graph(), heads.contents(), x)),
    {
        let down = self.descendants(roots);
        let up = self.ancestors(heads);
        down.intersection(&up)
    }

    /// The number of ancestors of one vertex.
    fn anc_count(&self, v: &CommitVertex) -> (r: usize)
        requires
            self.wf(),
        ensures
            r == ancestor_closure(self.graph(), set_one(v@)).len(),
    {
        let single = self.singleton(v);
        let anc = self.ancestors(&single);
        let r = anc.count();
        proof {
            assert(anc.contents() =~= ancestor_closure(self.graph(), set_one(v@)));
            vstd::prelude::Seq::unique_seq_to_set(anc@);
        }
        r
    }

    /// Whether `a` comes strictly before `b` in the deterministic
    /// topological order.
    fn topo_before(&self, a: &CommitVertex, b: &CommitVertex) -> (r: bool)
        requires
            self.wf(),
        ensures
            r == topo_key_lt(self.graph(), a@, b@),
    {
        let ca = self.anc_count(a);
        let cb = self.anc_count(b);
        if ca < cb {
            true
        } else if ca > cb {
            false
        } else {
            lex_less_exec(a.as_bytes(), b.as_bytes())
        }
    }

    /// Sort a set topologically and deterministically: by ancestor count,
    /// with vertex bytes as the tie-break. Ancestors come before their
    /// descendants (see [`lemma_sort_topological`]).
    pub fn sort(&self, s: &CommitSet) -> (r: CommitSet)
        requires
            self.wf(),
            s.wf(),
        ensures
            r.wf(),
            r.contents() =~= s.contents(),
            forall|p: int, q: int| 0 <= p < q < r@.len() ==> topo_key_lt(
                self.graph(),
                #[trigger] r@[p],
                #[trigger] r@[q],
            ),
    {
        let ghost g = self.graph();
        let mut out: Vec<CommitVertex> = Vec::new();
        let n = s.count();
        let mut i: usize = 0;
        while i < n
            invariant
                n == s@.len(),
                self.wf(),
                s.wf(),
                g == self.graph(),
                0 <= i <= n,
                out@.map_values(|v: CommitVertex| v@).no_duplicates(),
                out@.map_values(|v: CommitVertex| v@).to_set() =~= s@.take(i as int).to_set(),
                forall|p: int, q: int| 0 <= p < q < out@.len() ==> #[trigger] topo_key_lt(
                    g,
                    out@[p]@,
                    out@[q]@,
                ),
            decreases n - i,
        {
            let ghost old_mapped = out@.map_values(|v: CommitVertex| v@);
            let v = s.get(i).duplicate();
            proof {
                assert(forall|k: int| 0 <= k < out@.len() ==> old_mapped[k] == #[trigger] out@[k]@);
                assert(forall|p: int, q: int|
                    0 <= p < q < old_mapped.len() ==> #[trigger] topo_key_lt(
                        g,
                        old_mapped[p],
                        old_mapped[q],
                    ));
                // `v` is fresh: `s` is duplicate-free.
                assert(!old_mapped.contains(v@)) by {
                    if old_mapped.to_set().contains(v@) {
                        let k = choose|k: int|
                            0 <= k < s@.take(i as int).len() && s@.take(i as int)[k] == v@;
                        assert(s@[k] == s@[i as int]);
                        assert(false);
                    }
                }
            }
            // Find the first position whose element must come after `v`.
            let m = out.len();
            let mut pos: usize = 0;
            let mut found = false;
            while pos < m && !found
                invariant
                    m == out@.len(),
                    self.wf(),
                    g == self.graph(),
                    v@ == s@[i as int],
                    0 <= pos <= m,
                    old_mapped == out@.map_values(|x: CommitVertex| x@),
                    forall|k: int| 0 <= k < pos ==> !topo_key_lt(g, v@, #[trigger] old_mapped[k]),
                    found ==> pos < m && topo_key_lt(g, v@, old_mapped[pos as int]),
                decreases m - pos + (if found { 0int } else { 1int }),
            {
                if self.topo_before(&v, &out[pos]) {
                    found = true;
                } else {
                    pos += 1;
                }
            }
            let ghost vv = v@;
            out.insert(pos, v);
            proof {
                let new_mapped = out@.map_values(|x: CommitVertex| x@);
                old_mapped.insert_ensures(pos as int, vv);
                assert(new_mapped =~= old_mapped.insert(pos as int, vv));
                // Freshness keeps the list duplicate-free.
                assert(new_mapped.no_duplicates()) by {
                    assert forall|a: int, b: int|
                        0 <= a < new_mapped.len() && 0 <= b < new_mapped.len() && a
                            != b implies new_mapped[a] != new_mapped[b] by {
                        let oa: int = if a < pos {
                            a
                        } else {
                            a - 1
                        };
                        let ob: int = if b < pos {
                            b
                        } else {
                            b - 1
                        };
                        if a == pos {
                            if new_mapped[b] == vv {
                                assert(old_mapped[ob] == vv);
                                assert(old_mapped.contains(vv));
                            }
                        } else if b == pos {
                            if new_mapped[a] == vv {
                                assert(old_mapped[oa] == vv);
                                assert(old_mapped.contains(vv));
                            }
                        } else {
                            assert(new_mapped[a] == old_mapped[oa]);
                            assert(new_mapped[b] == old_mapped[ob]);
                        }
                    }
                }
                // Contents grow by exactly `vv`.
                assert(new_mapped.to_set() =~= s@.take(i + 1).to_set()) by {
                    assert(s@.take(i + 1).drop_last() =~= s@.take(i as int));
                    assert forall|x: Seq<u8>|
                        #[trigger] new_mapped.contains(x) <==> old_mapped.contains(x) || x
                            == vv by {
                        if new_mapped.contains(x) {
                            let k = choose|k: int|
                                0 <= k < new_mapped.len() && new_mapped[k] == x;
                            if k < pos {
                                assert(old_mapped[k] == x);
                            } else if k > pos {
                                assert(old_mapped[k - 1] == x);
                            }
                        }
                        if old_mapped.contains(x) {
                            let k = choose|k: int|
                                0 <= k < old_mapped.len() && old_mapped[k] == x;
                            if k < pos {
                                assert(new_mapped[k] == x);
                            } else {
                                assert(new_mapped[k + 1] == x);
                            }
                        }
                        if x == vv {
                            assert(new_mapped[pos as int] == x);
                        }
                    }
                    assert forall|x: Seq<u8>|
                        #[trigger] s@.take(i + 1).contains(x) <==> s@.take(i as int).contains(x)
                            || x == vv by {
                        let post = s@.take(i + 1);
                        let pre = s@.take(i as int);
                        if post.contains(x) {
                            let k = choose|k: int| 0 <= k < post.len() && post[k] == x;
                            if k < pre.len() {
                                assert(pre.contains(x));
                            }
                        }
                        if pre.contains(x) {
                            let k = choose|k: int| 0 <= k < pre.len() && pre[k] == x;
                            assert(post[k] == x);
                        }
                        if x == vv {
                            assert(post[post.len() - 1] == x);
                        }
                    }
                    assert forall|x: Seq<u8>|
                        new_mapped.to_set().contains(x) <==> s@.take(i + 1).to_set().contains(
                            x,
                        ) by {
                        assert(new_mapped.contains(x) <==> old_mapped.contains(x) || x == vv);
                        assert(old_mapped.contains(x) <==> old_mapped.to_set().contains(x));
                        assert(old_mapped.to_set().contains(x) <==> s@.take(
                            i as int,
                        ).to_set().contains(x));
                        assert(s@.take(i + 1).contains(x) <==> s@.take(i as int).contains(x) || x
                            == vv);
                    }
                }
                // Sortedness is preserved around the insertion point.
                assert forall|p: int, q: int| 0 <= p < q < new_mapped.len() implies topo_key_lt(
                    g,
                    new_mapped[p],
                    new_mapped[q],
                ) by {
                    if p == pos {
                        // vv before some old element at q-1 >= pos.
                        let oq = q - 1;
                        assert(new_mapped[q] == old_mapped[oq]);
                        if oq == pos {
                            assert(found);
                            assert(topo_key_lt(g, vv, old_mapped[pos as int]));
                        } else {
                            assert(found);
                            assert(topo_key_lt(g, vv, old_mapped[pos as int]));
                            assert(topo_key_lt(g, old_mapped[pos as int], old_mapped[oq]));
                            lemma_topo_key_trans(g, vv, old_mapped[pos as int], old_mapped[oq]);
                        }
                    } else if q == pos {
                        // Old element at p < pos before vv.
                        assert(new_mapped[p] == old_mapped[p]);
                        assert(!topo_key_lt(g, vv, old_mapped[p]));
                        assert(old_mapped[p] != vv) by {
                            if old_mapped[p] == vv {
                                assert(old_mapped.contains(vv));
                            }
                        }
                        lemma_topo_key_total(g, vv, old_mapped[p]);
                    } else {
                        let op: int = if p < pos {
                            p
                        } else {
                            p - 1
                        };
                        let oq: int = if q < pos {
                            q
                        } else {
                            q - 1
                        };
                        assert(new_mapped[p] == old_mapped[op]);
                        assert(new_mapped[q] == old_mapped[oq]);
                    }
                }
                assert forall|p: int, q: int| 0 <= p < q < out@.len() implies #[trigger] topo_key_lt(
                    g,
                    out@[p]@,
                    out@[q]@,
                ) by {
                    assert(new_mapped[p] == out@[p]@);
                    assert(new_mapped[q] == out@[q]@);
                    assert(topo_key_lt(g, new_mapped[p], new_mapped[q]));
                }
            }
            i += 1;
        }
        let r = CommitSet::from_vertices(&out);
        proof {
            let mapped = out@.map_values(|x: CommitVertex| x@);
            crate::commit_set::lemma_first_occurrences_identity(mapped);
            assert(r@ == mapped);
            assert(s@.take(n as int) =~= s@);
            assert forall|p: int, q: int| 0 <= p < q < r@.len() implies topo_key_lt(
                g,
                #[trigger] r@[p],
                #[trigger] r@[q],
            ) by {
                assert(r@[p] == out@[p]@);
                assert(r@[q] == out@[q]@);
                assert(topo_key_lt(g, out@[p]@, out@[q]@));
            }
        }
        r
    }
}

/// The synchronization walk between the index and an external object store,
/// as a state machine. The caller repeatedly asks [`SyncState::next_request`]
/// which commit to look up, performs the lookup, and hands the commit's
/// parents (or `None` for a garbage-collected or non-commit object) to
/// [`SyncState::resolve`]; missing commits are absorbed as parentless.
/// When nothing is pending, [`SyncState::finish`] yields the extended index.
/// Vertices that are not valid non-zero oids are absorbed silently and never
/// requested.
pub struct SyncState {
    base: DagIndex,
    resolved: Vec<DagNode>,
    pending: Vec<CommitVertex>,
}

impl SyncState {
    /// The keys of the nodes resolved so far in this walk.
    pub closed spec fn resolved_keys(&self) -> Seq<Seq<u8>> {
        node_keys(self.resolved@)
    }

    /// The nodes resolved so far in this walk.
    pub closed spec fn resolved_nodes(&self) -> Seq<DagNode> {
        self.resolved@
    }

    /// The vertices scheduled and not yet resolved.
    pub closed spec fn pending_keys(&self) -> Seq<Seq<u8>> {
        self.pending@.map_values(|v: CommitVertex| v@)
    }

    /// The graph of the index being extended.
    pub closed spec fn base_graph(&self) -> Map<Seq<u8>, Set<Seq<u8>>> {
        self.base.graph()
    }

    /// Every vertex this walk knows: indexed, resolved, or pending.
    pub open spec fn known_keys(&self) -> Set<Seq<u8>> {
        self.base_graph().dom().union(self.resolved_keys().to_set()).union(
            self.pending_keys().to_set(),
        )
    }

    /// The walk's invariant: distinct fresh keys, valid oids everywhere,
    /// and every resolved parent already known.
    pub closed spec fn wf(&self) -> bool {
        &&& self.base.wf()
        &&& self.resolved_keys().no_duplicates()
        &&& self.pending_keys().no_duplicates()
        &&& forall|k: Seq<u8>| #[trigger] self.resolved_keys().to_set().contains(k) ==> (
        valid_oid_seq(k) && !self.base_graph().dom().contains(k)
            && !self.pending_keys().to_set().contains(k))
        &&& forall|k: Seq<u8>| #[trigger] self.pending_keys().to_set().contains(k) ==> (
        valid_oid_seq(k) && !self.base_graph().dom().contains(k))
        &&& forall|j: int, b: int|
            0 <= j < self.resolved@.len() && 0 <= b < self.resolved@[j].parents@.len()
                ==> valid_oid_seq(#[trigger] self.resolved@[j].parents@[b]@) && self.known_keys(
            ).contains(self.resolved@[j].parents@[b]@)
    }

    /// Whether the walk is complete: nothing pending.
    pub fn done(&self) -> (r: bool)
        ensures
            r <==> self.pending_keys().len() == 0,
    {
        self.pending.len() == 0
    }

    /// Begin a walk that extends `index` to cover the given heads. Heads
    /// already indexed, repeated heads, and heads that are not valid
    /// non-zero oids are absorbed: they are not scheduled.
    pub fn start_sync(index: DagIndex, heads: &CommitSet) -> (r: SyncState)
        requires
            index.wf(),
        ensures
            r.wf(),
            r.base_graph() == index.graph(),
            r.resolved_keys().len() == 0,
            r.known_keys() =~= index.graph().dom().union(
                heads.contents().filter(|k: Seq<u8>| valid_oid_seq(k)),
            ),
            (forall|k: Seq<u8>| #[trigger] heads.contents().contains(k) && valid_oid_seq(k)
                ==> index.graph().dom().contains(k)) ==> r.pending_keys().len() == 0,
    {
        let ghost g = index.graph();
        let mut pending: Vec<CommitVertex> = Vec::new();
        let n = heads.count();
        let mut i: usize = 0;
        while i < n
            invariant
                n == heads@.len(),
                index.wf(),
                g == index.graph(),
                0 <= i <= n,
                vertex_views(pending@).no_duplicates(),
                forall|k: Seq<u8>|
                    #[trigger] vertex_views(pending@).to_set().contains(k) ==> valid_oid_seq(k)
                        && !g.dom().contains(k),
                forall|k: Seq<u8>|
                    #[trigger] vertex_views(pending@).to_set().contains(k) <==> (heads@.take(
                        i as int,
                    ).to_set().contains(k) && valid_oid_seq(k) && !g.dom().contains(k)),
            decreases n - i,
        {
            let v = heads.get(i).duplicate();
            let ghost old_pending = vertex_views(pending@);
            let valid = match crate::oid::vertex_to_nonzero_oid(&v) {
                Ok(_) => true,
                Err(_) => false,
            };
            if valid && !index.contains_vertex(&v) {
                let mut already = false;
                let m = pending.len();
                let mut j: usize = 0;
                while j < m
                    invariant
                        m == pending@.len(),
                        old_pending == vertex_views(pending@),
                        0 <= j <= m,
                        already <==> exists|b: int| 0 <= b < j && old_pending[b] == v@,
                    decreases m - j,
                {
                    if bytes_eq(pending[j].as_bytes(), v.as_bytes()) {
                        already = true;
                        proof {
                            assert(old_pending[j as int] == v@);
                        }
                    }
                    j += 1;
                }
                proof {
                    assert(already <==> old_pending.contains(v@));
                    if !already {
                        lemma_push_no_duplicates_bytes(old_pending, v@);
                    }
                }
                if !already {
                    pending.push(v);
                }
            }
            proof {
                let new_pending = vertex_views(pending@);
                let hv = heads@[i as int];
                assert(heads@.take(i + 1).drop_last() =~= heads@.take(i as int));
                assert forall|k: Seq<u8>|
                    heads@.take(i + 1).to_set().contains(k) <==> heads@.take(
                        i as int,
                    ).to_set().contains(k) || k == hv by {
                    let post = heads@.take(i + 1);
                    let pre = heads@.take(i as int);
                    if post.contains(k) {
                        let c = choose|c: int| 0 <= c < post.len() && post[c] == k;
                        if c < pre.len() {
                            assert(pre.contains(k));
                        }
                    }
                    if pre.contains(k) {
                        let c = choose|c: int| 0 <= c < pre.len() && pre[c] == k;
                        assert(post[c] == k);
                    }
                    if k == hv {
                        assert(post[post.len() - 1] == k);
                    }
                }
                assert(v@ == hv);
                assert forall|k: Seq<u8>| #[trigger] new_pending.to_set().contains(k) <==> (
                heads@.take(i + 1).to_set().contains(k) && valid_oid_seq(k) && !g.dom().contains(
                    k,
                )) by {
                    if new_pending.to_set().contains(k) {
                        assert(new_pending.contains(k));
                        let c = choose|c: int|
                            0 <= c < new_pending.len() && new_pending[c] == k;
                        if c < old_pending.len() {
                            assert(old_pending[c] == k);
                            assert(old_pending.to_set().contains(k));
                            assert(heads@.take(i as int).to_set().contains(k) && valid_oid_seq(k)
                                && !g.dom().contains(k));
                            assert(heads@.take(i + 1).to_set().contains(k));
                        } else {
                            assert(k == v@);
                            assert(valid_oid_seq(k) && !g.dom().contains(k));
                            assert(heads@.take(i + 1)[i as int] == hv);
                            assert(heads@.take(i + 1).contains(hv));
                            assert(heads@.take(i + 1).to_set().contains(k));
                        }
                    }
                    if heads@.take(i + 1).to_set().contains(k) && valid_oid_seq(k)
                        && !g.dom().contains(k) {
                        if heads@.take(i as int).to_set().contains(k) {
                            assert(old_pending.to_set().contains(k));
                            assert(old_pending.contains(k));
                            let c = choose|c: int|
                                0 <= c < old_pending.len() && old_pending[c] == k;
                            assert(new_pending[c] == k);
                            assert(new_pending.contains(k));
                            assert(new_pending.to_set().contains(k));
                        } else {
                            assert(k == hv);
                            assert(!old_pending.to_set().contains(k));
                            assert(!old_pending.contains(v@));
                            assert(valid);
                            assert(new_pending[new_pending.len() - 1] == k);
                            assert(new_pending.contains(k));
                            assert(new_pending.to_set().contains(k));
                        }
                    }
                }
            }
            i += 1;
        }
        let r = SyncState { base: index, resolved: Vec::new(), pending };
        proof {
            assert(heads@.take(n as int) =~= heads@);
            assert(node_keys(r.resolved@) =~= Seq::<Seq<u8>>::empty());
            assert(r.resolved_keys().to_set() =~= Set::<Seq<u8>>::empty());
            let keep = |k: Seq<u8>| valid_oid_seq(k);
            assert forall|k: Seq<u8>| #[trigger] r.known_keys().contains(k) <==> g.dom().contains(
                k,
            ) || heads.contents().filter(keep).contains(k) by {}
            if forall|k: Seq<u8>| #[trigger] heads.contents().contains(k) && valid_oid_seq(k)
                ==> g.dom().contains(k) {
                if r.pending_keys().len() > 0 {
                    assert(r.pending_keys().to_set().contains(r.pending_keys()[0]));
                }
            }
        }
        r
    }

    /// The commit that should be looked up next, if any.
    pub fn next_request(&self) -> (r: Option<NonZeroOid>)
        requires
            self.wf(),
        ensures
            (match r {
                Some(oid) => self.pending_keys().len() > 0 && oid@ == self.pending_keys().last()
                    && oid.wf(),
                None => self.pending_keys().len() == 0,
            }),
    {
        if self.pending.len() == 0 {
            return None;
        }
        let v = &self.pending[self.pending.len() - 1];
        proof {
            assert(self.pending_keys()[self.pending_keys().len() - 1] == v@);
            assert(self.pending_keys().to_set().contains(v@)) by {
                assert(self.pending_keys().contains(v@));
            }
        }
        match crate::oid::vertex_to_nonzero_oid(v) {
            Ok(oid) => Some(oid),
            Err(_) => {
                proof {
                    assert(false);
                }
                None
            },
        }
    }

    /// Record the parents of the commit named by the last request. `None`
    /// absorbs a missing (garbage-collected or non-commit) object as
    /// parentless; the walk never fails on such an object. Parents not yet
    /// known are scheduled.
    pub fn resolve(&mut self, parents: Option<&Vec<NonZeroOid>>)
        requires
            old(self).wf(),
            old(self).pending_keys().len() > 0,
            (match parents {
                Some(ps) => forall|b: int| 0 <= b < ps@.len() ==> (#[trigger] ps@[b]).wf(),
                None => true,
            }),
        ensures
            final(self).wf(),
            final(self).base_graph() == old(self).base_graph(),
            final(self).resolved_keys() == old(self).resolved_keys().push(
                old(self).pending_keys().last(),
            ),
            final(self).resolved_nodes().last().key() == old(self).pending_keys().last(),
            final(self).resolved_nodes().last().parent_set() == (match parents {
                Some(ps) => ps@.map_values(|o: NonZeroOid| o@).to_set(),
                None => Set::<Seq<u8>>::empty(),
            }),
            forall|j: int|
                0 <= j < old(self).resolved_nodes().len()
                    ==> final(self).resolved_nodes()[j] == old(self).resolved_nodes()[j],
            forall|k: Seq<u8>|
                #[trigger] old(self).known_keys().contains(k)
                    ==> final(self).known_keys().contains(k),
            (match parents {
                Some(ps) => forall|b: int| 0 <= b < ps@.len() ==> final(self).known_keys(
                ).contains(#[trigger] ps@[b]@),
                None => true,
            }),
    {
        let ghost old_state = *self;
        let v = self.pending.pop().unwrap();
        proof {
            assert(old_state.pending_keys().drop_last() =~= self.pending@.map_values(
                |x: CommitVertex| x@,
            ));
            assert(old_state.pending_keys().last() == v@);
            assert(old_state.pending_keys().to_set().contains(v@)) by {
                assert(old_state.pending_keys().contains(v@));
            }
        }
        let mut parent_vertices: Vec<CommitVertex> = Vec::new();
        match parents {
            Some(ps) => {
                let m = ps.len();
                let mut b: usize = 0;
                while b < m
                    invariant
                        m == ps@.len(),
                        forall|c: int| 0 <= c < m ==> (#[trigger] ps@[c]).wf(),
                        0 <= b <= m,
                        parent_vertices@.map_values(|x: CommitVertex| x@) =~= ps@.map_values(
                            |o: NonZeroOid| o@,
                        ).take(b as int),
                    decreases m - b,
                {
                    parent_vertices.push(CommitVertex::from_oid(&ps[b]));
                    proof {
                        assert(parent_vertices@.map_values(|x: CommitVertex| x@) =~= ps@.map_values(
                            |o: NonZeroOid| o@,
                        ).take(b + 1));
                    }
                    b += 1;
                }
                proof {
                    assert(ps@.map_values(|o: NonZeroOid| o@).take(m as int) =~= ps@.map_values(
                        |o: NonZeroOid| o@,
                    ));
                }
            },
            None => {},
        }
        proof {
            let ghost ps_set = (match parents {
                Some(ps) => ps@.map_values(|o: NonZeroOid| o@).to_set(),
                None => Set::<Seq<u8>>::empty(),
            });
            assert(parent_vertices@.map_values(|x: CommitVertex| x@).to_set() =~= ps_set);
            assert forall|c: int| 0 <= c < parent_vertices@.len() implies valid_oid_seq(
                #[trigger] parent_vertices@[c]@,
            ) by {
                match parents {
                    Some(ps) => {
                        assert(parent_vertices@[c]@ == ps@.map_values(|o: NonZeroOid| o@)[c]);
                    },
                    None => {},
                }
            }
        }
        let node = DagNode { vertex: v, parents: parent_vertices };
        proof {
            // The popped vertex is fresh among the resolved keys.
            assert(!old_state.resolved_keys().to_set().contains(old_state.pending_keys().last()));
            assert(!node_keys(self.resolved@).contains(node.key())) by {
                if node_keys(self.resolved@).contains(node.key()) {
                    assert(node_keys(self.resolved@).to_set().contains(node.key()));
                }
            }
            lemma_push_no_duplicates_bytes(node_keys(self.resolved@), node.key());
            assert(node_keys(self.resolved@.push(node)) =~= node_keys(self.resolved@).push(
                node.key(),
            ));
        }
        // A second copy of the parent vertices, for scheduling.
        let mut sched: Vec<CommitVertex> = Vec::new();
        let m2 = node.parents.len();
        let mut b2: usize = 0;
        while b2 < m2
            invariant
                m2 == node.parents@.len(),
                0 <= b2 <= m2,
                sched@.map_values(|x: CommitVertex| x@) =~= node.parents@.map_values(
                    |x: CommitVertex| x@,
                ).take(b2 as int),
            decreases m2 - b2,
        {
            sched.push(node.parents[b2].duplicate());
            proof {
                assert(sched@.map_values(|x: CommitVertex| x@) =~= node.parents@.map_values(
                    |x: CommitVertex| x@,
                ).take(b2 + 1));
            }
            b2 += 1;
        }
        proof {
            let pviews = node.parents@.map_values(|x: CommitVertex| x@);
            assert(pviews.take(m2 as int) =~= pviews);
        }
        let ghost mid_state = SyncState {
            base: self.base,
            resolved: self.resolved,
            pending: self.pending,
        };
        self.resolved.push(node);
        proof {
            // The intermediate pending list satisfies the scheduler's needs.
            assert(self.pending_keys() =~= old_state.pending_keys().drop_last());
            assert forall|k: Seq<u8>| #[trigger] self.pending_keys().to_set().contains(
                k,
            ) implies valid_oid_seq(k) && !self.base_graph().dom().contains(k)
                && !self.resolved_keys().to_set().contains(k) by {
                let c = choose|c: int|
                    0 <= c < self.pending_keys().len() && self.pending_keys()[c] == k;
                assert(old_state.pending_keys()[c] == k);
                assert(old_state.pending_keys().to_set().contains(k));
                assert(self.resolved_keys() =~= old_state.resolved_keys().push(
                    old_state.pending_keys().last(),
                ));
                if self.resolved_keys().to_set().contains(k) {
                    let d = choose|d: int|
                        0 <= d < self.resolved_keys().len() && self.resolved_keys()[d] == k;
                    if d < old_state.resolved_keys().len() {
                        assert(old_state.resolved_keys().to_set().contains(k));
                        assert(false);
                    } else {
                        // k would be the just-popped vertex, but pending keys
                        // are distinct.
                        assert(k == old_state.pending_keys().last());
                        assert(old_state.pending_keys()[old_state.pending_keys().len() - 1] == k);
                        assert(c < old_state.pending_keys().len() - 1);
                        assert(false);
                    }
                }
            }
        }
        proof {
            assert forall|c: int| 0 <= c < sched@.len() implies valid_oid_seq(
                #[trigger] sched@[c]@,
            ) by {
                let sv = sched@.map_values(|x: CommitVertex| x@);
                let pv = node.parents@.map_values(|x: CommitVertex| x@);
                assert(sv[c] == sched@[c]@);
                assert(sv[c] == pv[c]);
                assert(pv[c] == node.parents@[c]@);
                assert(valid_oid_seq(node.parents@[c]@));
            }
        }
        // Schedule parents that are not yet known.
        self.schedule_unknown(&sched);
        proof {
            let st = *self;
            let vv = old_state.pending_keys().last();
            let ps_views = (match parents {
                Some(ps) => ps@.map_values(|o: NonZeroOid| o@),
                None => Seq::<Seq<u8>>::empty(),
            });
            assert(st.resolved_keys() =~= old_state.resolved_keys().push(vv));
            assert(st.resolved@.last().key() == vv);
            assert(st.resolved@.last().parent_set() =~= ps_views.to_set());
            let sched_views = sched@.map_values(|x: CommitVertex| x@);
            assert(sched_views =~= ps_views);
            // Everything known before stays known.
            assert forall|k: Seq<u8>| #[trigger] old_state.known_keys().contains(k) implies
                st.known_keys().contains(k) by {
                if old_state.base_graph().dom().contains(k) {
                } else if old_state.resolved_keys().to_set().contains(k) {
                    let d = choose|d: int|
                        0 <= d < old_state.resolved_keys().len() && old_state.resolved_keys()[d]
                            == k;
                    assert(st.resolved_keys()[d] == k);
                    assert(st.resolved_keys().to_set().contains(k));
                } else {
                    assert(old_state.pending_keys().to_set().contains(k));
                    let c = choose|c: int|
                        0 <= c < old_state.pending_keys().len() && old_state.pending_keys()[c]
                            == k;
                    if c == old_state.pending_keys().len() - 1 {
                        assert(k == vv);
                        assert(st.resolved_keys()[st.resolved_keys().len() - 1] == k);
                        assert(st.resolved_keys().to_set().contains(k));
                    } else {
                        assert(old_state.pending_keys().drop_last()[c] == k);
                        assert(mid_state.pending_keys().to_set().contains(k)) by {
                            assert(mid_state.pending_keys() =~= old_state.pending_keys(
                            ).drop_last());
                            assert(mid_state.pending_keys().contains(k));
                        }
                        assert(st.pending_keys().to_set().contains(k));
                    }
                }
            }
            // Every reported parent is now known.
            assert forall|b: int| 0 <= b < ps_views.len() implies st.known_keys().contains(
                #[trigger] ps_views[b],
            ) by {
                assert(sched_views[b] == ps_views[b]);
                assert(st.base_graph().dom().contains(sched@[b]@)
                    || st.resolved_keys().to_set().contains(sched@[b]@)
                    || st.pending_keys().to_set().contains(sched@[b]@));
            }
            (match parents {
                Some(ps) => {
                    assert forall|b: int| 0 <= b < ps@.len() implies st.known_keys().contains(
                        #[trigger] ps@[b]@,
                    ) by {
                        assert(ps_views[b] == ps@[b]@);
                        assert(st.known_keys().contains(ps_views[b]));
                    }
                },
                None => (),
            });
            // Re-establish the walk invariant.
            assert(st.wf()) by {
                assert(st.resolved_keys().no_duplicates());
                assert forall|k: Seq<u8>| #[trigger] st.resolved_keys().to_set().contains(
                    k,
                ) implies valid_oid_seq(k) && !st.base_graph().dom().contains(k)
                    && !st.pending_keys().to_set().contains(k) by {
                    let d = choose|d: int|
                        0 <= d < st.resolved_keys().len() && st.resolved_keys()[d] == k;
                    if d < old_state.resolved_keys().len() {
                        assert(old_state.resolved_keys()[d] == k);
                        assert(old_state.resolved_keys().to_set().contains(k));
                    } else {
                        assert(k == vv);
                        assert(old_state.pending_keys().to_set().contains(k));
                    }
                    if st.pending_keys().to_set().contains(k) {
                        assert(!st.resolved_keys().to_set().contains(k));
                    }
                }
                assert forall|j: int, b: int|
                    0 <= j < st.resolved@.len() && 0 <= b < st.resolved@[j].parents@.len() implies
                    valid_oid_seq(#[trigger] st.resolved@[j].parents@[b]@) && st.known_keys(
                ).contains(st.resolved@[j].parents@[b]@) by {
                    if j < old_state.resolved@.len() {
                        assert(st.resolved@[j] == old_state.resolved@[j]);
                        assert(valid_oid_seq(old_state.resolved@[j].parents@[b]@)
                            && old_state.known_keys().contains(
                            old_state.resolved@[j].parents@[b]@,
                        ));
                        assert(st.known_keys().contains(st.resolved@[j].parents@[b]@));
                    } else {
                        assert(st.resolved@[j] == st.resolved@.last());
                        assert(st.resolved@[j].parents@[b]@ == ps_views[b]) by {
                            assert(sched_views[b] == st.resolved@[j].parents@[b]@);
                        }
                        assert(st.known_keys().contains(ps_views[b]));
                        assert(valid_oid_seq(ps_views[b]));
                    }
                }
            }
        }
    }

    /// Schedule every given vertex that is neither indexed, nor resolved,
    /// nor already pending.
    fn schedule_unknown(&mut self, vs: &Vec<CommitVertex>)
        requires
            old(self).base.wf(),
            old(self).pending_keys().no_duplicates(),
            forall|k: Seq<u8>|
                #[trigger] old(self).pending_keys().to_set().contains(k) ==> (valid_oid_seq(k)
                    && !old(self).base_graph().dom().contains(k)
                    && !old(self).resolved_keys().to_set().contains(k)),
            forall|c: int| 0 <= c < vs@.len() ==> valid_oid_seq(#[trigger] vs@[c]@),
        ensures
            final(self).base == old(self).base,
            final(self).resolved == old(self).resolved,
            final(self).pending_keys().no_duplicates(),
            forall|k: Seq<u8>|
                #[trigger] final(self).pending_keys().to_set().contains(k) ==> (valid_oid_seq(k)
                    && !final(self).base_graph().dom().contains(k)
                    && !final(self).resolved_keys().to_set().contains(k)),
            forall|k: Seq<u8>|
                #[trigger] old(self).pending_keys().to_set().contains(k)
                    ==> final(self).pending_keys().to_set().contains(k),
            forall|c: int|
                0 <= c < vs@.len() ==> final(self).base_graph().dom().contains(#[trigger] vs@[c]@)
                    || final(self).resolved_keys().to_set().contains(vs@[c]@)
                    || final(self).pending_keys().to_set().contains(vs@[c]@),
    {
        let n = vs.len();
        let mut i: usize = 0;
        while i < n
            invariant
                n == vs@.len(),
                self.base == old(self).base,
                self.resolved == old(self).resolved,
                self.base.wf(),
                forall|c: int| 0 <= c < n ==> valid_oid_seq(#[trigger] vs@[c]@),
                0 <= i <= n,
                self.pending_keys().no_duplicates(),
                forall|k: Seq<u8>| #[trigger] self.pending_keys().to_set().contains(k) ==> (
                valid_oid_seq(k) && !self.base_graph().dom().contains(k)
                    && !self.resolved_keys().to_set().contains(k)),
                forall|k: Seq<u8>| #[trigger] old(self).pending_keys().to_set().contains(k)
                    ==> self.pending_keys().to_set().contains(k),
                forall|c: int| 0 <= c < i ==> self.base_graph().dom().contains(#[trigger] vs@[c]@)
                    || self.resolved_keys().to_set().contains(vs@[c]@)
                    || self.pending_keys().to_set().contains(vs@[c]@),
            decreases n - i,
        {
            let v = vs[i].duplicate();
            let in_base = self.base.contains_vertex(&v);
            let mut in_resolved = false;
            let rn = self.resolved.len();
            let mut j: usize = 0;
            while j < rn
                invariant
                    rn == self.resolved@.len(),
                    n == vs@.len(),
                    i < n,
                    v@ == vs@[i as int]@,
                    0 <= j <= rn,
                    in_resolved <==> exists|c: int|
                        0 <= c < j && node_keys(self.resolved@)[c] == vs@[i as int]@,
                decreases rn - j,
            {
                if bytes_eq(self.resolved[j].vertex.as_bytes(), v.as_bytes()) {
                    in_resolved = true;
                    proof {
                        assert(self.resolved@[j as int].vertex@ == vs@[i as int]@);
                        assert(node_keys(self.resolved@)[j as int] == self.resolved@[
                            j as int
                        ].key());
                        assert(node_keys(self.resolved@)[j as int] == vs@[i as int]@);
                    }
                }
                j += 1;
            }
            proof {
                assert(in_resolved <==> self.resolved_keys().contains(vs@[i as int]@));
                if self.resolved_keys().to_set().contains(vs@[i as int]@) {
                    assert(self.resolved_keys().contains(vs@[i as int]@));
                }
            }
            let mut in_pending = false;
            let pn = self.pending.len();
            let mut j2: usize = 0;
            while j2 < pn
                invariant
                    pn == self.pending@.len(),
                    n == vs@.len(),
                    i < n,
                    v@ == vs@[i as int]@,
                    0 <= j2 <= pn,
                    in_pending <==> exists|c: int|
                        0 <= c < j2 && self.pending_keys()[c] == vs@[i as int]@,
                decreases pn - j2,
            {
                if bytes_eq(self.pending[j2].as_bytes(), v.as_bytes()) {
                    in_pending = true;
                    proof {
                        assert(self.pending@[j2 as int]@ == vs@[i as int]@);
                        assert(self.pending_keys()[j2 as int] == self.pending@[j2 as int]@);
                    }
                }
                j2 += 1;
            }
            proof {
                assert(in_pending <==> self.pending_keys().contains(vs@[i as int]@));
            }
            let ghost old_pending = self.pending_keys();
            if !in_base && !in_resolved && !in_pending {
                proof {
                    lemma_push_no_duplicates_bytes(old_pending, vs@[i as int]@);
                }
                self.pending.push(v);
                proof {
                    assert(self.pending_keys() =~= old_pending.push(vs@[i as int]@));
                }
            }
            proof {
                assert forall|k: Seq<u8>|
                    #[trigger] self.pending_keys().to_set().contains(k) <==> old_pending.to_set(
                    ).contains(k) || (k == vs@[i as int]@ && !in_base && !in_resolved
                        && !in_pending) by {
                    if self.pending_keys().contains(k) && !old_pending.contains(k) {
                        let c = choose|c: int|
                            0 <= c < self.pending_keys().len() && self.pending_keys()[c] == k;
                        assert(c == self.pending_keys().len() - 1);
                        assert(k == vs@[i as int]@);
                    }
                    if old_pending.contains(k) {
                        let c = choose|c: int| 0 <= c < old_pending.len() && old_pending[c] == k;
                        assert(self.pending_keys()[c] == k);
                    }
                }
                assert(self.base_graph().dom().contains(vs@[i as int]@)
                    || self.resolved_keys().to_set().contains(vs@[i as int]@)
                    || self.pending_keys().to_set().contains(vs@[i as int]@)) by {
                    if in_base {
                    } else if in_resolved {
                        assert(self.resolved_keys().to_set().contains(vs@[i as int]@));
                    } else if in_pending {
                        assert(self.pending_keys().to_set().contains(vs@[i as int]@));
                    } else {
                        assert(self.pending_keys().to_set().contains(vs@[i as int]@));
                    }
                }
            }
            i += 1;
        }
    }

    /// Complete the walk: the extended, well-formed index. Every indexed
    /// vertex keeps its parents; every resolved commit is now indexed with
    /// the parents the caller reported.
    pub fn finish(self) -> (r: DagIndex)
        requires
            self.wf(),
            self.pending_keys().len() == 0,
        ensures
            r.wf(),
            r.graph().dom() =~= self.base_graph().dom().union(self.resolved_keys().to_set()),
            forall|v: Seq<u8>| #[trigger] self.base_graph().dom().contains(v) ==> r.graph().dom(
            ).contains(v) && r.graph()[v] == self.base_graph()[v],
            forall|j: int|
                0 <= j < self.resolved_nodes().len() ==> r.graph().dom().contains(
                    #[trigger] self.resolved_nodes()[j].key(),
                ) && r.graph()[self.resolved_nodes()[j].key()]
                    == self.resolved_nodes()[j].parent_set(),
            self.resolved_nodes().len() == 0 ==> r.graph() =~= self.base_graph(),
    {
        let ghost state = self;
        let SyncState { base, mut resolved, pending: _pending } = self;
        let ghost base_nodes = base.nodes@;
        let ghost res_nodes = resolved@;
        let DagIndex { mut nodes } = base;
        proof {
            assert(res_nodes.skip(0int) =~= res_nodes);
            assert(res_nodes.take(0int) =~= Seq::<DagNode>::empty());
            assert(nodes@ =~= base_nodes + res_nodes.take(0int));
        }
        while resolved.len() > 0
            invariant
                resolved@.len() <= res_nodes.len(),
                nodes@ =~= base_nodes + res_nodes.take(res_nodes.len() - resolved@.len()),
                resolved@ =~= res_nodes.skip(res_nodes.len() - resolved@.len()),
            decreases resolved@.len(),
        {
            let ghost done = res_nodes.len() - resolved@.len();
            let nd = resolved.remove(0);
            proof {
                assert(res_nodes.skip(done)[0] == res_nodes[done]);
                assert(nd == res_nodes[done]);
                assert forall|k: int| 0 <= k < resolved@.len() implies resolved@[k]
                    == res_nodes.skip(done + 1)[k] by {
                    assert(resolved@[k] == res_nodes.skip(done)[k + 1]);
                    assert(res_nodes.skip(done)[k + 1] == res_nodes[done + 1 + k]);
                    assert(res_nodes.skip(done + 1)[k] == res_nodes[done + 1 + k]);
                }
                assert(resolved@ =~= res_nodes.skip(done + 1));
            }
            nodes.push(nd);
            proof {
                assert(nodes@ =~= base_nodes + res_nodes.take(done + 1));
            }
        }
        proof {
            assert(res_nodes.take(res_nodes.len() as int) =~= res_nodes);
        }
        let r = DagIndex { nodes };
        proof {
            let c = r.nodes@;
            assert(c =~= base_nodes + res_nodes);
            let g0 = state.base_graph();
            lemma_graph_of_dom(base_nodes);
            // Keys of the combined list are distinct and valid.
            assert(node_keys(c).no_duplicates()) by {
                assert forall|a: int, b: int|
                    0 <= a < node_keys(c).len() && 0 <= b < node_keys(c).len() && a
                        != b implies node_keys(c)[a] != node_keys(c)[b] by {
                    let bl = base_nodes.len();
                    if a < bl && b < bl {
                        assert(node_keys(base_nodes)[a] == node_keys(c)[a]);
                        assert(node_keys(base_nodes)[b] == node_keys(c)[b]);
                    } else if a >= bl && b >= bl {
                        assert(node_keys(res_nodes)[a - bl] == node_keys(c)[a]);
                        assert(node_keys(res_nodes)[b - bl] == node_keys(c)[b]);
                    } else {
                        let (ba, rb) = if a < bl {
                            (a, b - bl)
                        } else {
                            (b, a - bl)
                        };
                        assert(node_keys(base_nodes)[ba] == c[ba].key());
                        assert(node_keys(res_nodes)[rb] == c[rb + bl].key());
                        if c[ba].key() == c[rb + bl].key() {
                            assert(node_keys(res_nodes).contains(c[rb + bl].key()));
                            assert(state.resolved_keys().to_set().contains(c[rb + bl].key()));
                            assert(node_keys(base_nodes).contains(c[ba].key()));
                            assert(g0.dom().contains(c[ba].key()));
                            assert(false);
                        }
                    }
                }
            }
            assert forall|a: int| 0 <= a < c.len() implies valid_oid_seq(
                #[trigger] node_keys(c)[a],
            ) by {
                let bl = base_nodes.len();
                if a < bl {
                    assert(node_keys(base_nodes)[a] == node_keys(c)[a]);
                    assert(node_keys(base_nodes).contains(node_keys(c)[a]));
                    assert(g0.dom().contains(node_keys(c)[a]));
                } else {
                    assert(node_keys(res_nodes)[a - bl] == node_keys(c)[a]);
                    assert(state.resolved_keys().to_set().contains(node_keys(c)[a]));
                }
            }
            // Every parent of a combined node is itself a key.
            assert forall|a: int, b: int|
                0 <= a < c.len() && 0 <= b < c[a].parents@.len() implies node_keys(c).contains(
                #[trigger] c[a].parents@[b]@,
            ) && valid_oid_seq(c[a].parents@[b]@) by {
                let bl = base_nodes.len();
                let p = c[a].parents@[b]@;
                if a < bl {
                    assert(c[a] == base_nodes[a]);
                    lemma_graph_of_index(base_nodes, a);
                    let mapped = base_nodes[a].parents@.map_values(|q: CommitVertex| q@);
                    assert(mapped[b] == p);
                    assert(mapped.contains(p));
                    assert(g0[base_nodes[a].key()].contains(p));
                    assert(g0.dom().contains(p));
                    assert(node_keys(base_nodes).contains(p));
                    let k = choose|k: int|
                        0 <= k < node_keys(base_nodes).len() && node_keys(base_nodes)[k] == p;
                    assert(node_keys(c)[k] == p);
                    assert(node_keys(c).contains(p));
                } else {
                    assert(c[a] == res_nodes[a - bl]);
                    assert(state.known_keys().contains(p) && valid_oid_seq(p));
                    assert(state.pending_keys().to_set().len() == 0) by {
                        if state.pending_keys().to_set().contains(p) {
                        }
                        vstd::prelude::Seq::unique_seq_to_set(state.pending_keys());
                    }
                    if g0.dom().contains(p) {
                        assert(node_keys(base_nodes).contains(p));
                        let k = choose|k: int|
                            0 <= k < node_keys(base_nodes).len() && node_keys(base_nodes)[k] == p;
                        assert(node_keys(c)[k] == p);
                    } else if state.resolved_keys().to_set().contains(p) {
                        let k = choose|k: int|
                            0 <= k < node_keys(res_nodes).len() && node_keys(res_nodes)[k] == p;
                        assert(node_keys(c)[k + bl] == p);
                    } else {
                        assert(state.pending_keys().to_set().contains(p));
                        assert(state.pending_keys().contains(p));
                        assert(false);
                    }
                }
            }
            r.lemma_check_wf_done();
            // Lookups: base nodes and resolved nodes keep their parents.
            lemma_graph_of_dom(c);
            assert forall|v: Seq<u8>| #[trigger] g0.dom().contains(v) implies r.graph().dom(
            ).contains(v) && r.graph()[v] == g0[v] by {
                assert(node_keys(base_nodes).contains(v));
                let k = choose|k: int|
                    0 <= k < node_keys(base_nodes).len() && node_keys(base_nodes)[k] == v;
                assert(c[k] == base_nodes[k]);
                assert(node_keys(c)[k] == v);
                assert(node_keys(c).contains(v));
                lemma_graph_of_index(c, k);
                lemma_graph_of_index(base_nodes, k);
            }
            assert forall|j: int| 0 <= j < res_nodes.len() implies r.graph().dom().contains(
                #[trigger] res_nodes[j].key(),
            ) && r.graph()[res_nodes[j].key()] == res_nodes[j].parent_set() by {
                let bl = base_nodes.len();
                assert(c[j + bl] == res_nodes[j]);
                lemma_graph_of_index(c, j + bl);
                assert(node_keys(c)[j + bl] == res_nodes[j].key());
                assert(node_keys(c).contains(res_nodes[j].key()));
            }
            // The combined domain is the union of both key sets.
            assert(r.graph().dom() =~= g0.dom().union(state.resolved_keys().to_set())) by {
                assert forall|k: Seq<u8>|
                    node_keys(c).contains(k) <==> node_keys(base_nodes).contains(k) || node_keys(
                        res_nodes,
                    ).contains(k) by {
                    let bl = base_nodes.len();
                    if node_keys(c).contains(k) {
                        let a = choose|a: int| 0 <= a < node_keys(c).len() && node_keys(c)[a] == k;
                        if a < bl {
                            assert(node_keys(base_nodes)[a] == k);
                        } else {
                            assert(node_keys(res_nodes)[a - bl] == k);
                        }
                    }
                    if node_keys(base_nodes).contains(k) {
                        let a = choose|a: int|
                            0 <= a < node_keys(base_nodes).len() && node_keys(base_nodes)[a] == k;
                        assert(node_keys(c)[a] == k);
                    }
                    if node_keys(res_nodes).contains(k) {
                        let a = choose|a: int|
                            0 <= a < node_keys(res_nodes).len() && node_keys(res_nodes)[a] == k;
                        assert(node_keys(c)[a + bl] == k);
                    }
                }
            }
            if res_nodes.len() == 0 {
                assert(r.graph() =~= g0) by {
                    assert(r.graph().dom() =~= g0.dom());
                }
            }
        }
        r
    }
}

/// Pushing a fresh byte string keeps a sequence duplicate-free.
proof fn lemma_push_no_duplicates_bytes(s: Seq<Seq<u8>>, x: Seq<u8>)
    requires
        s.no_duplicates(),
        !s.contains(x),
    ensures
        s.push(x).no_duplicates(),
{
    let t = s.push(x);
    assert forall|i: int, j: int|
        0 <= i < t.len() && 0 <= j < t.len() && i != j implies t[i] != t[j] by {
        if i < s.len() && j < s.len() {
        } else if i == s.len() {
            if t[j] == x {
                assert(s[j] == x);
                assert(s.contains(x));
            }
        } else {
            if t[i] == x {
                assert(s[i] == x);
                assert(s.contains(x));
            }
        }
    }
}

/// After absorbing one node's parents, the accumulated set matches the
/// parent targets of the grown source set.
proof fn lemma_parent_step_union(
    g: Map<Seq<u8>, Set<Seq<u8>>>,
    pre: Set<Seq<u8>>,
    v: Seq<u8>,
    parents: Seq<CommitVertex>,
    acc: Set<Seq<u8>>,
)
    requires
        g.dom().contains(v),
        g[v] == parents.map_values(|p: CommitVertex| p@).to_set(),
        forall|x: Seq<u8>| #[trigger] acc.contains(x) <==> (parent_targets(g, pre).contains(x)
            || exists|k: int| 0 <= k < parents.len() && parents[k]@ == x),
    ensures
        forall|x: Seq<u8>| #[trigger] acc.contains(x) <==> parent_targets(
            g,
            pre.insert(v),
        ).contains(x),
{
    let post = pre.insert(v);
    let mapped = parents.map_values(|p: CommitVertex| p@);
    assert forall|x: Seq<u8>| #[trigger] acc.contains(x) <==> parent_targets(g, post).contains(
        x,
    ) by {
        if acc.contains(x) {
            if parent_targets(g, pre).contains(x) {
                let v0 = choose|v0: Seq<u8>|
                    pre.contains(v0) && g.dom().contains(v0) && #[trigger] g[v0].contains(x);
                assert(post.contains(v0));
                assert(parent_targets(g, post).contains(x));
            } else {
                let k = choose|k: int| 0 <= k < parents.len() && parents[k]@ == x;
                assert(mapped[k] == x);
                assert(mapped.contains(x));
                assert(g[v].contains(x));
                assert(post.contains(v));
                assert(parent_targets(g, post).contains(x));
            }
        }
        if parent_targets(g, post).contains(x) {
            let v0 = choose|v0: Seq<u8>|
                post.contains(v0) && g.dom().contains(v0) && #[trigger] g[v0].contains(x);
            if pre.contains(v0) {
                assert(parent_targets(g, pre).contains(x));
            } else {
                assert(v0 == v);
                assert(mapped.contains(x));
                let k = choose|k: int| 0 <= k < mapped.len() && mapped[k] == x;
                assert(parents[k]@ == x);
            }
        }
    }
}

} // verus!
