//! An undirected graph whose vertices are named by numbers.
//!
//! The graph owns its vertices and its edges.  A vertex knows, for each
//! neighbour, which edge of the graph's edge list joins the two; an edge
//! names its two ends by their numbers.

use std::collections::HashMap;
use std::mem::swap;
use vstd::prelude::*;

verus! {


/// A vertex: its number, its value, and the edges that start or end at it.
pub struct Vertex<T1> {
    id: u32,
    value: T1,
    edges: HashMap<u32, usize>,
}

/// An edge between two vertices.
pub struct Edge<T2> {
    pub value: T2,
    pub out_vertex: u32,
    pub in_vertex: u32,
}

impl<T1> Vertex<T1> {
    /// The vertex's number.
    pub closed spec fn id(&self) -> u32 {
        self.id
    }

    /// The vertex's value.
    pub closed spec fn value(&self) -> T1 {
        self.value
    }

    /// For each neighbour, the place in the graph's edge list of the edge
    /// that joins it to this vertex.
    pub closed spec fn neighbours(&self) -> Map<u32, usize> {
        self.edges@
    }

    /// A vertex without edges.
    pub fn new(id: u32, value: T1) -> (vertex: Self)
        ensures
            vertex.id() == id,
            vertex.value() == value,
            vertex.neighbours() == Map::<u32, usize>::empty(),
    {
        Vertex { id, value, edges: HashMap::new() }
    }

    pub fn get_value(&self) -> (value: &T1)
        ensures
            *value == self.value(),
    {
        &self.value
    }

    pub fn get_id(&self) -> (id: &u32)
        ensures
            *id == self.id(),
    {
        &self.id
    }
}

impl<T2> Edge<T2> {
    /// The edge from `in_vertex` to `out_vertex`.
    pub fn new(in_vertex: u32, out_vertex: u32, value: T2) -> (edge: Self)
        ensures
            edge.in_vertex == in_vertex,
            edge.out_vertex == out_vertex,
            edge.value == value,
    {
        Edge { in_vertex, out_vertex, value }
    }

    /// The edge joins `a` and `b`, in either direction.
    pub open spec fn joins(&self, a: u32, b: u32) -> bool {
        ||| (self.in_vertex == a && self.out_vertex == b)
        ||| (self.in_vertex == b && self.out_vertex == a)
    }
}

/// Vertices by number, and the edges in the order in which they were added.
pub struct Graph<T1, T2> {
    vertices: HashMap<u32, Vertex<T1>>,
    edges: Vec<Edge<T2>>,
}

impl<T1, T2> Graph<T1, T2> {
    #[verifier::type_invariant]
    spec fn well_formed(self) -> bool {
        linked(self.vertices@, self.edges@)
    }

    /// The vertices by number.
    pub closed spec fn vertices(&self) -> Map<u32, Vertex<T1>> {
        self.vertices@
    }

    /// The edges in the order in which they were added.
    pub closed spec fn edges(&self) -> Seq<Edge<T2>> {
        self.edges@
    }

    /// The graph without vertices and edges.
    pub fn new() -> (graph: Self)
        ensures
            graph.vertices() == Map::<u32, Vertex<T1>>::empty(),
            graph.edges() == Seq::<Edge<T2>>::empty(),
    {
        Graph { vertices: HashMap::new(), edges: Vec::new() }
    }

    /// Puts a vertex without edges under the number `id`.  A vertex that
    /// was there before is taken out and returned.  The edge list is not
    /// touched.
    pub fn add_vertex(&mut self, id: u32, value: T1) -> (replaced: Option<Vertex<T1>>)
        ensures
            replaced == old(self).vertices().get(id),
            final(self).vertices().dom() == old(self).vertices().dom().insert(id),
            final(self).vertices()[id].id() == id,
            final(self).vertices()[id].value() == value,
            final(self).vertices()[id].neighbours() == Map::<u32, usize>::empty(),
            forall|other: u32|
                other != id && old(self).vertices().contains_key(other)
                    ==> final(self).vertices()[other] == old(self).vertices()[other],
            final(self).edges() == old(self).edges(),
            linked(final(self).vertices(), final(self).edges()),
    {
        proof {
            use_type_invariant(&*self);
        }
        let mut vertices = HashMap::new();
        swap(&mut vertices, &mut self.vertices);
        let replaced = vertices.insert(id, Vertex::new(id, value));
        self.vertices = vertices;
        replaced
    }

    /// The vertex with the number `id`, if there is one.
    pub fn get_vertex(&self, id: &u32) -> (vertex: Option<&Vertex<T1>>)
        ensures
            vertex == match self.vertices().get(*id) {
                Some(v) => Some(&v),
                None => None,
            },
    {
        self.vertices.get(id)
    }

    /// Number of edges added so far.
    pub fn edge_count(&self) -> (n: usize)
        ensures
            n == self.edges().len(),
    {
        self.edges.len()
    }

    /// The edge that the vertex `from` knows as leading to `to`, if any.
    pub fn get_edge(&self, from: &u32, to: &u32) -> (edge: Option<&Edge<T2>>)
        ensures
            edge == if self.vertices().contains_key(*from)
                && self.vertices()[*from].neighbours().contains_key(*to) {
                Some(&self.edges()[self.vertices()[*from].neighbours()[*to] as int])
            } else {
                None
            },
    {
        proof {
            use_type_invariant(self);
        }
        match self.vertices.get(from) {
            None => None,
            Some(vertex) => match vertex.edges.get(to) {
                None => None,
                Some(place) => {
                    assert(self.vertices@[*from].neighbours().contains_key(*to));
                    Some(&self.edges[*place])
                },
            },
        }
    }

    /// Joins two different vertices by a new edge with the given value.
    /// The edge goes to the end of the edge list, and each of the two
    /// vertices from now on knows it as the edge to the other.  Returns the
    /// edge's place in the list, or `None`, changing nothing, when the two
    /// numbers are the same or one of them names no vertex.
    pub fn add_edge(&mut self, id_in: u32, id_out: u32, value: T2) -> (place: Option<usize>)
        ensures
            linked(final(self).vertices(), final(self).edges()),
            place is Some <==> id_in != id_out && old(self).vertices().contains_key(id_in)
                && old(self).vertices().contains_key(id_out),
            place is None ==> final(self).vertices() == old(self).vertices() && final(self).edges()
                == old(self).edges(),
            place matches Some(n) ==> {
                &&& n == old(self).edges().len()
                &&& final(self).edges() == old(self).edges().push(
                    Edge { value, in_vertex: id_in, out_vertex: id_out },
                )
                &&& final(self).vertices().dom() == old(self).vertices().dom()
                &&& forall|id: u32| #[trigger]
                    final(self).vertices().contains_key(id) ==> {
                        let before = old(self).vertices()[id];
                        let after = final(self).vertices()[id];
                        &&& after.id() == before.id()
                        &&& after.value() == before.value()
                        &&& after.neighbours() == if id == id_in {
                            before.neighbours().insert(id_out, n)
                        } else if id == id_out {
                            before.neighbours().insert(id_in, n)
                        } else {
                            before.neighbours()
                        }
                    }
            },
    {
        proof {
            use_type_invariant(&*self);
        }
        if id_in == id_out {
            return None;
        }
        if self.get_vertex(&id_in).is_none() || self.get_vertex(&id_out).is_none() {
            return None;
        }
        let ghost was = self.vertices@;
        let mut vertices = HashMap::new();
        swap(&mut vertices, &mut self.vertices);
        let mut edges = Vec::new();
        swap(&mut edges, &mut self.edges);
        let n = edges.len();
        let edge = Edge::new(id_in, id_out, value);

        let mut input_vertex = vertices.remove(&id_in).unwrap();
        input_vertex.edges.insert(id_out, n);
        vertices.insert(id_in, input_vertex);

        let mut output_vertex = vertices.remove(&id_out).unwrap();
        output_vertex.edges.insert(id_in, n);
        vertices.insert(id_out, output_vertex);

        edges.push(edge);
        proof {
            assert forall|id: u32| #[trigger] vertices@.contains_key(id) implies {
                &&& vertices@[id].id() == id
                &&& forall|to: u32| #[trigger]
                    vertices@[id].neighbours().contains_key(to) ==> {
                        &&& vertices@[id].neighbours()[to] < edges@.len()
                        &&& edges@[vertices@[id].neighbours()[to] as int].joins(id, to)
                    }
            } by {
                assert forall|to: u32| #[trigger]
                    vertices@[id].neighbours().contains_key(to) implies {
                    &&& vertices@[id].neighbours()[to] < edges@.len()
                    &&& edges@[vertices@[id].neighbours()[to] as int].joins(id, to)
                } by {
                    let fresh = (id == id_in && to == id_out) || (id == id_out && to == id_in);
                    if !fresh {
                        let at = was[id].neighbours()[to];
                    }
                }
            }
        }
        self.edges = edges;
        self.vertices = vertices;
        Some(n)
    }
}

/// Every vertex is filed under its own number, and what a vertex knows of a
/// neighbour is the place of an edge that joins the two.
pub open spec fn linked<T1, T2>(vertices: Map<u32, Vertex<T1>>, edges: Seq<Edge<T2>>) -> bool {
    forall|id: u32| #[trigger]
        vertices.contains_key(id) ==> {
            &&& vertices[id].id() == id
            &&& forall|to: u32| #[trigger]
                vertices[id].neighbours().contains_key(to) ==> {
                    &&& vertices[id].neighbours()[to] < edges.len()
                    &&& edges[vertices[id].neighbours()[to] as int].joins(id, to)
                }
        }
}

} // verus!
