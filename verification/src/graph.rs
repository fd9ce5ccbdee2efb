use vstd::prelude::*;
use crate::errors::Error;

verus! {

/// A vertex of a graph, known by its index.
pub trait Vertex {
    /// The index.
    spec fn spec_index(&self) -> usize;

    /// The index.
    fn index(&self) -> (r: usize)
        ensures
            r == self.spec_index(),
    ;
}

/// A directed edge of a graph, from its head vertex to its tail vertex.
pub trait Edge {
    /// The index of the vertex the edge leaves.
    spec fn spec_head(&self) -> usize;

    /// The index of the vertex the edge enters.
    spec fn spec_tail(&self) -> usize;

    /// The index of the vertex the edge leaves.
    fn head(&self) -> (r: usize)
        ensures
            r == self.spec_head(),
    ;

    /// The index of the vertex the edge enters.
    fn tail(&self) -> (r: usize)
        ensures
            r == self.spec_tail(),
    ;
}

/// A directed graph whose vertices are numbered from zero in the order they were
/// inserted, and which holds at most one edge from one vertex to another.
#[derive(Clone, Debug)]
pub struct Graph<V, E> {
    vertices: Vec<V>,
    edges: Vec<E>,
}

impl<V: Vertex, E: Edge> Graph<V, E> {
    /// The vertices, in index order.
    pub closed spec fn spec_vertices(&self) -> Seq<V> {
        self.vertices@
    }

    /// The edges, in insertion order.
    pub closed spec fn spec_edges(&self) -> Seq<E> {
        self.edges@
    }

    /// Whether an edge leads from vertex `head` to vertex `tail`.
    pub open spec fn contains_edge(&self, head: usize, tail: usize) -> bool {
        exists|j: int|
            0 <= j < self.spec_edges().len() && #[trigger] self.spec_edges()[j].spec_head() == head
                && self.spec_edges()[j].spec_tail() == tail
    }

    /// Vertex `i` has index `i`, every edge joins two vertices, and no two edges
    /// join the same vertices in the same direction.
    pub open spec fn wf(&self) -> bool {
        &&& forall|i: int|
            0 <= i < self.spec_vertices().len() ==> #[trigger] self.spec_vertices()[i].spec_index() == i
        &&& forall|j: int|
            0 <= j < self.spec_edges().len() ==> #[trigger] self.spec_edges()[j].spec_head()
                < self.spec_vertices().len() && self.spec_edges()[j].spec_tail()
                < self.spec_vertices().len()
        &&& forall|j: int, k: int|
            0 <= j < k < self.spec_edges().len() ==> !(#[trigger] self.spec_edges()[j].spec_head()
                == #[trigger] self.spec_edges()[k].spec_head() && self.spec_edges()[j].spec_tail()
                == self.spec_edges()[k].spec_tail())
    }

    /// An empty graph.
    pub fn new() -> (r: Self)
        ensures
            r.wf(),
            r.spec_vertices() == Seq::<V>::empty(),
            r.spec_edges() == Seq::<E>::empty(),
    {
        Graph { vertices: Vec::new(), edges: Vec::new() }
    }

    /// The vertices, in index order.
    pub fn vertices(&self) -> (r: &Vec<V>)
        ensures
            r@ == self.spec_vertices(),
    {
        &self.vertices
    }

    /// The edges, in insertion order.
    pub fn edges(&self) -> (r: &Vec<E>)
        ensures
            r@ == self.spec_edges(),
    {
        &self.edges
    }

    /// The number of vertices.
    pub fn num_vertices(&self) -> (r: usize)
        ensures
            r == self.spec_vertices().len(),
    {
        self.vertices.len()
    }

    /// Inserts `v`, whose index must be the number of vertices so far.
    pub fn insert_vertex(&mut self, v: V) -> (r: Result<(), Error>)
        ensures
            v.spec_index() == old(self).spec_vertices().len() ==> r is Ok
                && final(self).spec_vertices() == old(self).spec_vertices().push(v)
                && final(self).spec_edges() == old(self).spec_edges(),
            v.spec_index() != old(self).spec_vertices().len() ==> r == Err::<(), Error>(
                Error::GraphVertexIndex(v.spec_index()),
            ) && final(self).spec_vertices() == old(self).spec_vertices()
                && final(self).spec_edges() == old(self).spec_edges(),
            old(self).wf() ==> final(self).wf(),
    {
        let index = v.index();
        if index == self.vertices.len() {
            self.vertices.push(v);
            Ok(())
        } else {
            Err(Error::GraphVertexIndex(index))
        }
    }

    /// Whether an edge leads from vertex `head` to vertex `tail`.
    pub fn has_edge(&self, head: usize, tail: usize) -> (r: bool)
        ensures
            r == self.contains_edge(head, tail),
    {
        let mut j: usize = 0;
        while j < self.edges.len()
            invariant
                j <= self.edges@.len(),
                forall|k: int|
                    0 <= k < j ==> !(#[trigger] self.edges@[k].spec_head() == head
                        && self.edges@[k].spec_tail() == tail),
            decreases self.edges@.len() - j,
        {
            if self.edges[j].head() == head && self.edges[j].tail() == tail {
                assert(self.spec_edges()[j as int].spec_head() == head);
                return true;
            }
            j = j + 1;
        }
        false
    }

    /// Inserts `e`, which must join two vertices that no edge joins in its direction yet.
    pub fn insert_edge(&mut self, e: E) -> (r: Result<(), Error>)
        ensures
            old(self).contains_edge(e.spec_head(), e.spec_tail()) ==> r == Err::<(), Error>(
                Error::GraphDuplicateEdge(e.spec_head(), e.spec_tail()),
            ),
            !old(self).contains_edge(e.spec_head(), e.spec_tail()) && e.spec_head()
                >= old(self).spec_vertices().len() ==> r == Err::<(), Error>(
                Error::GraphVertexNotFound(e.spec_head()),
            ),
            !old(self).contains_edge(e.spec_head(), e.spec_tail()) && e.spec_head()
                < old(self).spec_vertices().len() && e.spec_tail()
                >= old(self).spec_vertices().len() ==> r == Err::<(), Error>(
                Error::GraphVertexNotFound(e.spec_tail()),
            ),
            r is Ok <==> !old(self).contains_edge(e.spec_head(), e.spec_tail()) && e.spec_head()
                < old(self).spec_vertices().len() && e.spec_tail() < old(self).spec_vertices().len(),
            r is Ok ==> final(self).spec_edges() == old(self).spec_edges().push(e),
            r is Err ==> final(self).spec_edges() == old(self).spec_edges(),
            final(self).spec_vertices() == old(self).spec_vertices(),
            old(self).wf() ==> final(self).wf(),
    {
        let head = e.head();
        let tail = e.tail();
        if self.has_edge(head, tail) {
            return Err(Error::GraphDuplicateEdge(head, tail));
        }
        if head >= self.vertices.len() {
            return Err(Error::GraphVertexNotFound(head));
        }
        if tail >= self.vertices.len() {
            return Err(Error::GraphVertexNotFound(tail));
        }
        self.edges.push(e);
        proof {
            let n = self.edges@.len() - 1;
            assert(self.edges@[n] == e);
            if old(self).wf() {
                assert forall|j: int, k: int|
                    0 <= j < k < self.spec_edges().len() implies !(
                    #[trigger] self.spec_edges()[j].spec_head()
                        == #[trigger] self.spec_edges()[k].spec_head()
                        && self.spec_edges()[j].spec_tail() == self.spec_edges()[k].spec_tail()) by {
                    if k == n {
                        assert(old(self).spec_edges()[j] == self.spec_edges()[j]);
                    }
                }
            }
        }
        Ok(())
    }

    /// The vertex with index `index`.
    pub fn vertex(&self, index: usize) -> (r: Result<&V, Error>)
        ensures
            index < self.spec_vertices().len() ==> r == Ok::<&V, Error>(&self.spec_vertices()[index as int]),
            index >= self.spec_vertices().len() ==> r == Err::<&V, Error>(Error::GraphVertexNotFound(index)),
    {
        if index < self.vertices.len() {
            Ok(&self.vertices[index])
        } else {
            Err(Error::GraphVertexNotFound(index))
        }
    }

    /// The vertex with index `index`, to change.
    pub fn vertex_mut(&mut self, index: usize) -> (r: Result<&mut V, Error>)
        ensures
            index < old(self).spec_vertices().len() ==> (r matches Ok(v) && *v == old(self).spec_vertices()[index as int]
                && final(self).spec_vertices() == old(self).spec_vertices().update(index as int, *final(v))),
            index >= old(self).spec_vertices().len() ==> r == Err::<&mut V, Error>(Error::GraphVertexNotFound(index))
                && final(self).spec_vertices() == old(self).spec_vertices(),
            final(self).spec_edges() == old(self).spec_edges(),
    {
        if index < self.vertices.len() {
            Ok(&mut self.vertices[index])
        } else {
            Err(Error::GraphVertexNotFound(index))
        }
    }
}

} // verus!
