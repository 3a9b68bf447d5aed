use vstd::prelude::*;

verus! {

/// An undirected graph over `i32` vertices, held as an adjacency matrix:
/// entry `[i][j]` is 1 when vertices `i` and `j` are joined, else 0.
#[allow(non_camel_case_types)]
pub struct Graph_Matrix {
    vertices: Vec<i32>,
    adj_matrix: Vec<Vec<i32>>,
}

/// Whether the edge list joins `i` and `j`: an edge counts only when both
/// ends are among the first `n` vertices and differ.
pub open spec fn joined(edges: Seq<[usize; 2]>, n: int, i: int, j: int) -> bool {
    exists|k: int|
        0 <= k < edges.len() && edges[k][0] < n && edges[k][1] < n && edges[k][0] != edges[k][1]
            && ((edges[k][0] == i && edges[k][1] == j) || (edges[k][0] == j && edges[k][1] == i))
}

/// The index that entry `k` had before index `r` was taken out.
pub open spec fn skip_index(k: int, r: int) -> int {
    if k < r {
        k
    } else {
        k + 1
    }
}

impl Graph_Matrix {
    pub closed spec fn vertex_seq(&self) -> Seq<i32> {
        self.vertices@
    }

    /// The matrix entry for `i` and `j`.
    pub closed spec fn entry(&self, i: int, j: int) -> i32 {
        self.adj_matrix@[i]@[j]
    }

    /// The matrix is square, one row and one column per vertex.
    pub closed spec fn wf(&self) -> bool {
        &&& self.adj_matrix@.len() == self.vertices@.len()
        &&& forall|i: int|
            0 <= i < self.adj_matrix@.len() ==> (#[trigger] self.adj_matrix@[i])@.len()
                == self.vertices@.len()
    }

    /// A graph with the given vertices and the edges that join two distinct,
    /// existing vertices; other edges are left out.
    pub fn new(vertices: Vec<i32>, edges: Vec<[usize; 2]>) -> (r: Graph_Matrix)
        ensures
            r.wf(),
            r.vertex_seq() == vertices@,
            forall|i: int, j: int|
                0 <= i < vertices@.len() && 0 <= j < vertices@.len() ==> r.entry(i, j) == if joined(
                    edges@,
                    vertices@.len() as int,
                    i,
                    j,
                ) {
                    1i32
                } else {
                    0i32
                },
    {
        let mut graph = Graph_Matrix { vertices: vec![], adj_matrix: vec![] };
        let mut k: usize = 0;
        while k < vertices.len()
            invariant
                k <= vertices@.len(),
                graph.wf(),
                graph.vertex_seq() == vertices@.subrange(0, k as int),
                forall|i: int, j: int|
                    0 <= i < k && 0 <= j < k ==> #[trigger] graph.entry(i, j) == 0,
            decreases vertices@.len() - k,
        {
            graph.add_vertex(vertices[k]);
            assert(vertices@.subrange(0, k as int + 1) =~= vertices@.subrange(0, k as int).push(
                vertices@[k as int],
            ));
            k = k + 1;
        }
        assert(vertices@.subrange(0, k as int) =~= vertices@);
        let n = vertices.len();
        let mut e: usize = 0;
        while e < edges.len()
            invariant
                e <= edges@.len(),
                n == vertices@.len(),
                graph.wf(),
                graph.vertex_seq() == vertices@,
                forall|i: int, j: int|
                    0 <= i < n && 0 <= j < n ==> #[trigger] graph.entry(i, j) == if joined(
                        edges@.subrange(0, e as int),
                        n as int,
                        i,
                        j,
                    ) {
                        1i32
                    } else {
                        0i32
                    },
            decreases edges@.len() - e,
        {
            let ed = edges[e];
            graph.add_edge(ed[0], ed[1]);
            proof {
                let pre = edges@.subrange(0, e as int);
                let post = edges@.subrange(0, e as int + 1);
                assert forall|i: int, j: int| 0 <= i < n && 0 <= j < n implies joined(post, n as int, i, j)
                    == (joined(pre, n as int, i, j) || (ed[0] < n && ed[1] < n && ed[0] != ed[1] && (
                    (ed[0] == i && ed[1] == j) || (ed[0] == j && ed[1] == i)))) by {
                    if joined(pre, n as int, i, j) {
                        let k = choose|k: int|
                            0 <= k < pre.len() && pre[k][0] < n && pre[k][1] < n && pre[k][0]
                                != pre[k][1] && ((pre[k][0] == i && pre[k][1] == j) || (pre[k][0]
                                == j && pre[k][1] == i));
                        assert(post[k] == pre[k]);
                    }
                    if joined(post, n as int, i, j) {
                        let k = choose|k: int|
                            0 <= k < post.len() && post[k][0] < n && post[k][1] < n && post[k][0]
                                != post[k][1] && ((post[k][0] == i && post[k][1] == j) || (
                            post[k][0] == j && post[k][1] == i));
                        if k < e {
                            assert(post[k] == pre[k]);
                        }
                    }
                    if ed[0] < n && ed[1] < n && ed[0] != ed[1] && ((ed[0] == i && ed[1] == j) || (
                    ed[0] == j && ed[1] == i)) {
                        assert(post[e as int] == ed);
                    }
                }
            }
            e = e + 1;
        }
        assert(edges@.subrange(0, e as int) =~= edges@);
        graph
    }

    /// The number of vertices.
    pub fn size(&self) -> (r: usize)
        ensures
            r == self.vertex_seq().len(),
    {
        self.vertices.len()
    }

    /// The vertices, in order.
    pub fn vertices(&self) -> (r: &Vec<i32>)
        ensures
            r@ == self.vertex_seq(),
    {
        &self.vertices
    }

    /// The adjacency matrix, one row per vertex.
    pub fn matrix(&self) -> (r: &Vec<Vec<i32>>)
        requires
            self.wf(),
        ensures
            r@.len() == self.vertex_seq().len(),
            forall|i: int| 0 <= i < r@.len() ==> (#[trigger] r@[i])@.len() == self.vertex_seq().len(),
            forall|i: int, j: int|
                0 <= i < r@.len() && 0 <= j < r@[i]@.len() ==> r@[i]@[j] == self.entry(i, j),
    {
        &self.adj_matrix
    }

    /// Adds vertex `v` with no edges.
    pub fn add_vertex(&mut self, v: i32)
        requires
            old(self).wf(),
        ensures
            final(self).wf(),
            final(self).vertex_seq() == old(self).vertex_seq().push(v),
            forall|i: int, j: int|
                0 <= i < final(self).vertex_seq().len() && 0 <= j < final(self).vertex_seq().len()
                    ==> #[trigger] final(self).entry(i, j) == if i < old(self).vertex_seq().len() && j
                    < old(self).vertex_seq().len() {
                    old(self).entry(i, j)
                } else {
                    0i32
                },
    {
        self.vertices.push(v);
        let n = self.vertices.len();
        let mut i: usize = 0;
        while i < self.adj_matrix.len()
            invariant
                n == self.vertices@.len(),
                n == old(self).vertices@.len() + 1,
                self.vertices@ == old(self).vertices@.push(v),
                self.adj_matrix@.len() == old(self).adj_matrix@.len(),
                old(self).wf(),
                i <= self.adj_matrix@.len(),
                forall|r: int|
                    0 <= r < i ==> (#[trigger] self.adj_matrix@[r])@ == old(self).adj_matrix@[r]@.push(0),
                forall|r: int|
                    i <= r < self.adj_matrix@.len() ==> (#[trigger] self.adj_matrix@[r]) == old(self).adj_matrix@[r],
            decreases self.adj_matrix@.len() - i,
        {
            self.adj_matrix[i].push(0);
            i = i + 1;
        }
        self.adj_matrix.push(vec![0; n]);
    }

    /// Sets the entries for `i`, `j` and for `j`, `i` to `x`.
    fn set_pair(&mut self, i: usize, j: usize, x: i32)
        requires
            old(self).wf(),
            i < old(self).vertex_seq().len(),
            j < old(self).vertex_seq().len(),
        ensures
            final(self).wf(),
            final(self).vertex_seq() == old(self).vertex_seq(),
            forall|a: int, b: int|
                0 <= a < final(self).vertex_seq().len() && 0 <= b < final(self).vertex_seq().len()
                    ==> #[trigger] final(self).entry(a, b) == if (a == i && b == j) || (a == j && b
                    == i) {
                    x
                } else {
                    old(self).entry(a, b)
                },
    {
        self.adj_matrix[i].set(j, x);
        self.adj_matrix[j].set(i, x);
    }

    /// Joins vertices `i` and `j`; does nothing unless both exist and differ.
    pub fn add_edge(&mut self, i: usize, j: usize)
        requires
            old(self).wf(),
        ensures
            final(self).wf(),
            final(self).vertex_seq() == old(self).vertex_seq(),
            forall|a: int, b: int|
                0 <= a < final(self).vertex_seq().len() && 0 <= b < final(self).vertex_seq().len()
                    ==> #[trigger] final(self).entry(a, b) == if i < old(self).vertex_seq().len() && j
                    < old(self).vertex_seq().len() && i != j && ((a == i && b == j) || (a == j && b
                    == i)) {
                    1i32
                } else {
                    old(self).entry(a, b)
                },
    {
        if i >= self.size() || j >= self.size() || i == j {
            return;
        }
        self.set_pair(i, j, 1);
    }

    /// Parts vertices `i` and `j`; does nothing unless both exist and differ.
    pub fn remove_edge(&mut self, i: usize, j: usize)
        requires
            old(self).wf(),
        ensures
            final(self).wf(),
            final(self).vertex_seq() == old(self).vertex_seq(),
            forall|a: int, b: int|
                0 <= a < final(self).vertex_seq().len() && 0 <= b < final(self).vertex_seq().len()
                    ==> #[trigger] final(self).entry(a, b) == if i < old(self).vertex_seq().len() && j
                    < old(self).vertex_seq().len() && i != j && ((a == i && b == j) || (a == j && b
                    == i)) {
                    0i32
                } else {
                    old(self).entry(a, b)
                },
    {
        if i >= self.size() || j >= self.size() || i == j {
            return;
        }
        self.set_pair(i, j, 0);
    }

    /// Takes out vertex `index` with its row and column; does nothing when
    /// there is no such vertex.
    pub fn remove_vertex(&mut self, index: usize)
        requires
            old(self).wf(),
        ensures
            final(self).wf(),
            index >= old(self).vertex_seq().len() ==> *final(self) == *old(self),
            index < old(self).vertex_seq().len() ==> {
                &&& final(self).vertex_seq() == old(self).vertex_seq().remove(index as int)
                &&& forall|a: int, b: int|
                    0 <= a < final(self).vertex_seq().len() && 0 <= b < final(self).vertex_seq().len() ==> #[trigger] final(self).entry(a, b) == old(self).entry(
                        skip_index(a, index as int),
                        skip_index(b, index as int),
                    )
            },
    {
        if index >= self.size() {
            return;
        }
        self.vertices.remove(index);
        self.adj_matrix.remove(index);
        let ghost rows = self.adj_matrix@;
        let mut i: usize = 0;
        while i < self.adj_matrix.len()
            invariant
                self.vertices@ == old(self).vertices@.remove(index as int),
                old(self).wf(),
                index < old(self).vertices@.len(),
                rows == old(self).adj_matrix@.remove(index as int),
                self.adj_matrix@.len() == rows.len(),
                i <= self.adj_matrix@.len(),
                forall|r: int|
                    0 <= r < i ==> (#[trigger] self.adj_matrix@[r])@ == rows[r]@.remove(index as int),
                forall|r: int|
                    i <= r < self.adj_matrix@.len() ==> (#[trigger] self.adj_matrix@[r]) == rows[r],
            decreases self.adj_matrix@.len() - i,
        {
            assert(rows[i as int]@.len() == old(self).vertices@.len());
            self.adj_matrix[i].remove(index);
            i = i + 1;
        }
    }
}

/// A vertex of an adjacency-list graph.
#[derive(Debug, PartialEq, Eq, Structural, Hash, Clone, Copy)]
pub struct Vertex {
    pub value: i32,
}

/// An undirected graph held as adjacency lists: one entry per vertex, in
/// the order the vertices were added, each with its neighbours in the order
/// the edges were added.
#[allow(non_camel_case_types)]
pub struct Graph_List {
    pub adj_list: Vec<(Vertex, Vec<Vertex>)>,
}

/// The index of the entry for `v`.
pub open spec fn entry_of(s: Seq<(Vertex, Seq<Vertex>)>, v: Vertex) -> Option<int> {
    if exists|i: int| 0 <= i < s.len() && s[i].0 == v {
        Some(choose|i: int| 0 <= i < s.len() && s[i].0 == v)
    } else {
        None
    }
}

/// `s` with every occurrence of `v` taken out.
pub open spec fn without(s: Seq<Vertex>, v: Vertex) -> Seq<Vertex>
    decreases s.len(),
{
    if s.len() == 0 {
        s
    } else if s.last() == v {
        without(s.drop_last(), v)
    } else {
        without(s.drop_last(), v).push(s.last())
    }
}

impl Graph_List {
    /// The entries: each vertex with its neighbours.
    pub open spec fn entries(&self) -> Seq<(Vertex, Seq<Vertex>)> {
        self.adj_list@.map_values(|e: (Vertex, Vec<Vertex>)| (e.0, e.1@))
    }

    /// No vertex has two entries.
    pub open spec fn wf(&self) -> bool {
        forall|i: int, j: int|
            0 <= i < j < self.adj_list@.len() ==> (#[trigger] self.adj_list@[i]).0 != (
            #[trigger] self.adj_list@[j]).0
    }

    pub open spec fn has(&self, v: Vertex) -> bool {
        exists|i: int| 0 <= i < self.adj_list@.len() && (#[trigger] self.adj_list@[i]).0 == v
    }

    /// A graph with no vertices.
    pub fn new() -> (r: Graph_List)
        ensures
            r.wf(),
            r.entries().len() == 0,
    {
        Graph_List { adj_list: Vec::new() }
    }

    /// The number of vertices.
    pub fn size(&self) -> (r: usize)
        ensures
            r == self.entries().len(),
    {
        self.adj_list.len()
    }

    /// The index of the entry for `v`.
    fn find(&self, v: Vertex) -> (r: Option<usize>)
        requires
            self.wf(),
        ensures
            match r {
                Some(i) => i < self.adj_list@.len() && self.adj_list@[i as int].0 == v,
                None => !self.has(v),
            },
    {
        let mut i: usize = 0;
        while i < self.adj_list.len()
            invariant
                i <= self.adj_list@.len(),
                forall|k: int| 0 <= k < i ==> (#[trigger] self.adj_list@[k]).0 != v,
            decreases self.adj_list@.len() - i,
        {
            if self.adj_list[i].0 == v {
                return Some(i);
            }
            i = i + 1;
        }
        None
    }

    /// Adds `v` with no neighbours; does nothing when `v` is already there.
    pub fn add_vertex(&mut self, v: Vertex)
        requires
            old(self).wf(),
        ensures
            final(self).wf(),
            old(self).has(v) ==> final(self).entries() == old(self).entries(),
            !old(self).has(v) ==> final(self).entries() == old(self).entries().push(
                (v, Seq::<Vertex>::empty()),
            ),
    {
        if self.find(v).is_some() {
            return;
        }
        let ghost before = self.entries();
        self.adj_list.push((v, Vec::new()));
        assert(self.entries() =~= before.push((v, Seq::<Vertex>::empty())));
    }

    /// A copy of `s` without `v`.
    fn list_without(s: &Vec<Vertex>, v: Vertex) -> (r: Vec<Vertex>)
        ensures
            r@ == without(s@, v),
    {
        let mut r: Vec<Vertex> = Vec::new();
        let mut i: usize = 0;
        while i < s.len()
            invariant
                i <= s@.len(),
                r@ == without(s@.subrange(0, i as int), v),
            decreases s@.len() - i,
        {
            assert(s@.subrange(0, i as int + 1).drop_last() =~= s@.subrange(0, i as int));
            if s[i] != v {
                r.push(s[i]);
            }
            i = i + 1;
        }
        assert(s@.subrange(0, i as int) =~= s@);
        r
    }

    /// Takes out `v` and every edge to it; does nothing when `v` is not there.
    pub fn remove_vertex(&mut self, v: Vertex)
        requires
            old(self).wf(),
        ensures
            final(self).wf(),
            !old(self).has(v) ==> final(self).entries() == old(self).entries(),
            old(self).has(v) ==> {
                let k = entry_of(old(self).entries(), v)->0;
                let rest = old(self).entries().remove(k);
                &&& final(self).entries().len() == rest.len()
                &&& forall|i: int|
                    0 <= i < rest.len() ==> #[trigger] final(self).entries()[i] == (
                        rest[i].0,
                        without(rest[i].1, v),
                    )
            },
    {
        let k = match self.find(v) {
            Some(k) => k,
            None => {
                return;
            },
        };
        proof {
            let es = self.entries();
            assert(es[k as int].0 == v);
            assert(forall|i: int| 0 <= i < es.len() && es[i].0 == v ==> i == k);
        }
        self.adj_list.remove(k);
        let ghost rest = self.adj_list@;
        let mut i: usize = 0;
        while i < self.adj_list.len()
            invariant
                rest == old(self).adj_list@.remove(k as int),
                self.adj_list@.len() == rest.len(),
                i <= rest.len(),
                forall|r: int| 0 <= r < rest.len() ==> (#[trigger] self.adj_list@[r]).0 == rest[r].0,
                forall|r: int| 0 <= r < i ==> (#[trigger] self.adj_list@[r]).1@ == without(rest[r].1@, v),
                forall|r: int| i <= r < rest.len() ==> (#[trigger] self.adj_list@[r]).1 == rest[r].1,
            decreases rest.len() - i,
        {
            let kept = Graph_List::list_without(&self.adj_list[i].1, v);
            self.adj_list[i].1 = kept;
            i = i + 1;
        }
        proof {
            let es = old(self).entries();
            assert(entry_of(es, v) == Some(k as int));
            assert(es.remove(k as int) =~= rest.map_values(|e: (Vertex, Vec<Vertex>)| (e.0, e.1@)));
        }
    }

    /// Joins `v1` and `v2`: each is appended to the other's list. Does
    /// nothing unless both are there.
    pub fn add_edge(&mut self, v1: Vertex, v2: Vertex)
        requires
            old(self).wf(),
        ensures
            final(self).wf(),
            !(old(self).has(v1) && old(self).has(v2)) ==> final(self).entries() == old(self).entries(),
            old(self).has(v1) && old(self).has(v2) ==> {
                let k1 = entry_of(old(self).entries(), v1)->0;
                let k2 = entry_of(old(self).entries(), v2)->0;
                let once = old(self).entries().update(
                    k1,
                    (v1, old(self).entries()[k1].1.push(v2)),
                );
                final(self).entries() == once.update(k2, (v2, once[k2].1.push(v1)))
            },
    {
        let k1 = match self.find(v1) {
            Some(k) => k,
            None => {
                return;
            },
        };
        let k2 = match self.find(v2) {
            Some(k) => k,
            None => {
                return;
            },
        };
        let ghost es = self.entries();
        proof {
            assert(forall|i: int| 0 <= i < es.len() && es[i].0 == v1 ==> i == k1);
            assert(forall|i: int| 0 <= i < es.len() && es[i].0 == v2 ==> i == k2);
            assert(entry_of(es, v1) == Some(k1 as int));
            assert(es[k2 as int].0 == v2);
            assert(entry_of(es, v2) == Some(k2 as int));
        }
        self.adj_list[k1].1.push(v2);
        let ghost once = self.entries();
        assert(once =~= es.update(k1 as int, (v1, es[k1 as int].1.push(v2))));
        self.adj_list[k2].1.push(v1);
        assert(self.entries() =~= once.update(k2 as int, (v2, once[k2 as int].1.push(v1))));
    }

    /// Parts `v1` and `v2`: each is taken out of the other's list. Does
    /// nothing unless both are there.
    pub fn remove_edge(&mut self, v1: Vertex, v2: Vertex)
        requires
            old(self).wf(),
        ensures
            final(self).wf(),
            !(old(self).has(v1) && old(self).has(v2)) ==> final(self).entries() == old(self).entries(),
            old(self).has(v1) && old(self).has(v2) ==> {
                let k1 = entry_of(old(self).entries(), v1)->0;
                let k2 = entry_of(old(self).entries(), v2)->0;
                let once = old(self).entries().update(
                    k1,
                    (v1, without(old(self).entries()[k1].1, v2)),
                );
                final(self).entries() == once.update(k2, (v2, without(once[k2].1, v1)))
            },
    {
        let k1 = match self.find(v1) {
            Some(k) => k,
            None => {
                return;
            },
        };
        let k2 = match self.find(v2) {
            Some(k) => k,
            None => {
                return;
            },
        };
        let ghost es = self.entries();
        proof {
            assert(forall|i: int| 0 <= i < es.len() && es[i].0 == v1 ==> i == k1);
            assert(forall|i: int| 0 <= i < es.len() && es[i].0 == v2 ==> i == k2);
            assert(entry_of(es, v1) == Some(k1 as int));
            assert(es[k2 as int].0 == v2);
            assert(entry_of(es, v2) == Some(k2 as int));
        }
        let l1 = Graph_List::list_without(&self.adj_list[k1].1, v2);
        self.adj_list[k1].1 = l1;
        let ghost once = self.entries();
        assert(once =~= es.update(k1 as int, (v1, without(es[k1 as int].1, v2))));
        let l2 = Graph_List::list_without(&self.adj_list[k2].1, v1);
        self.adj_list[k2].1 = l2;
        assert(self.entries() =~= once.update(k2 as int, (v2, without(once[k2 as int].1, v1))));
    }
}

} // verus!
