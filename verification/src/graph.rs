//! A directed graph with weighted edges, whose nodes are named by keys.

use std::hash::Hash;
use vstd::laws_eq::obeys_concrete_eq;
use vstd::prelude::*;

verus! {

/// A directed graph: nodes with keys and, for each node, the edges that leave it.
pub struct Graph<K: Eq + Hash> {
    adjacency_list: Vec<Vec<Edge>>,
    nodes: Vec<K>,
}

/// An edge to the node at the place `node`.
pub struct Edge {
    weight: u32,
    node: usize,
}

/// The first place of `key` among `keys`, if it has one.
pub open spec fn first_index<K>(keys: Seq<K>, key: K) -> Option<int> {
    if exists|i: int| is_first_index(keys, key, i) {
        Some(choose|i: int| is_first_index(keys, key, i))
    } else {
        None
    }
}

/// `i` is the first place of `key` among `keys`.
pub open spec fn is_first_index<K>(keys: Seq<K>, key: K, i: int) -> bool {
    &&& 0 <= i < keys.len()
    &&& keys[i] == key
    &&& forall|j: int| 0 <= j < i ==> keys[j] != key
}

/// The edges, as pairs of weight and target, that lead to keys among `keys`.
pub open spec fn resolved<K>(keys: Seq<K>, edges: Seq<(u32, K)>) -> Seq<(u32, int)>
    decreases edges.len(),
{
    if edges.len() == 0 {
        Seq::empty()
    } else {
        let rest = resolved(keys, edges.drop_last());
        match first_index(keys, edges.last().1) {
            Some(i) => rest.push((edges.last().0, i)),
            None => rest,
        }
    }
}

/// An edge leads from `from` to `to`, or to a node from which `to` is within `degree - 1`
/// edges.
pub open spec fn within(edges: Seq<Seq<(u32, int)>>, from: int, to: int, degree: nat) -> bool
    decreases degree,
{
    degree > 0 && exists|e: int|
        0 <= e < edges[from].len() && (#[trigger] edges[from][e].1 == to || within(
            edges,
            edges[from][e].1,
            to,
            (degree - 1) as nat,
        ))
}

/// The keys whose places are marked, in the order of their places.
pub open spec fn marked<K>(keys: Seq<K>, marks: Seq<bool>) -> Seq<K>
    decreases keys.len(),
{
    if keys.len() == 0 {
        Seq::empty()
    } else if marks.last() {
        marked(keys.drop_last(), marks.drop_last()).push(keys.last())
    } else {
        marked(keys.drop_last(), marks.drop_last())
    }
}

/// The length of a way: not known to be finite, or a number.
#[derive(Clone, Copy)]
pub enum Distance {
    Infinite,
    Number(u32),
}

impl Distance {
    /// A number is less than a greater number, and than the infinite.
    pub open spec fn less(self, other: Distance) -> bool {
        match (self, other) {
            (Distance::Number(a), Distance::Number(b)) => a < b,
            (Distance::Number(_), Distance::Infinite) => true,
            _ => false,
        }
    }

    /// The distance with `weight` added; beyond what a `u32` holds it is infinite.
    pub open spec fn with(self, weight: u32) -> Distance {
        match self {
            Distance::Number(d) if d + weight <= u32::MAX => Distance::Number((d + weight) as u32),
            _ => Distance::Infinite,
        }
    }

    /// The distance is a number, and no more than `total`.
    pub open spec fn at_most(self, total: int) -> bool {
        self matches Distance::Number(d) && d <= total
    }

    /// The distance is no more than `other`.
    pub open spec fn no_more_than(self, other: Distance) -> bool {
        match other {
            Distance::Number(d) => self.at_most(d as int),
            Distance::Infinite => true,
        }
    }

    /// Whether the distance is less than `other`.
    pub fn less_than(self, other: Distance) -> (r: bool)
        ensures
            r == self.less(other),
    {
        match (self, other) {
            (Distance::Number(a), Distance::Number(b)) => a < b,
            (Distance::Number(_), Distance::Infinite) => true,
            _ => false,
        }
    }

    /// The distance with `weight` added.
    pub fn plus(self, weight: u32) -> (r: Distance)
        ensures
            r == self.with(weight),
    {
        match self {
            Distance::Number(d) => {
                if d > u32::MAX - weight {
                    Distance::Infinite
                } else {
                    Distance::Number(d + weight)
                }
            },
            Distance::Infinite => Distance::Infinite,
        }
    }
}

/// `route` is a way along the edges from its first node to its last, of the length
/// `total`.
pub open spec fn is_route(edges: Seq<Seq<(u32, int)>>, route: Seq<int>, total: int) -> bool
    decreases route.len(),
{
    if route.len() == 0 {
        false
    } else if route.len() == 1 {
        total == 0 && 0 <= route[0] < edges.len()
    } else {
        let from = route[route.len() - 2];
        0 <= from < edges.len() && exists|e: int|
            0 <= e < edges[from].len() && #[trigger] edges[from][e].1 == route.last() && is_route(
                edges,
                route.drop_last(),
                total - edges[from][e].0,
            )
    }
}

/// A vector that holds `value` at each of `n` places.
fn repeated<T: Copy>(value: T, n: usize) -> (v: Vec<T>)
    ensures
        v@.len() == n,
        forall|i: int| 0 <= i < n ==> v@[i] == value,
{
    let mut v: Vec<T> = Vec::new();
    while v.len() < n
        invariant
            v@.len() <= n,
            forall|i: int| 0 <= i < v@.len() ==> v@[i] == value,
        decreases n - v@.len(),
    {
        v.push(value);
    }
    v
}

/// The keys that a sequence of references names.
pub open spec fn named<K>(path: Seq<&K>) -> Seq<K> {
    path.map_values(|key: &K| *key)
}

/// Whether two keys are the same.
fn same<K: Eq>(a: &K, b: &K) -> (r: bool)
    requires
        obeys_concrete_eq::<K>(),
    ensures
        r == (*a == *b),
{
    proof {
        reveal(obeys_concrete_eq);
    }
    a == b
}

impl<K: Eq + Hash> Graph<K> {
    /// The keys of the nodes, at the places of the nodes.
    pub closed spec fn keys(&self) -> Seq<K> {
        self.nodes@
    }

    /// The edges that leave the node at each place, as pairs of weight and target.
    pub closed spec fn edges(&self) -> Seq<Seq<(u32, int)>> {
        Seq::new(
            self.adjacency_list@.len(),
            |i: int|
                Seq::new(
                    self.adjacency_list@[i]@.len(),
                    |e: int| (self.adjacency_list@[i]@[e].weight, self.adjacency_list@[i]@[e].node as int),
                ),
        )
    }

    /// Each node has its list of edges, and every edge leads to a node.
    pub closed spec fn well_formed(&self) -> bool {
        &&& self.adjacency_list@.len() == self.nodes@.len()
        &&& forall|i: int, e: int|
            0 <= i < self.adjacency_list@.len() && 0 <= e < self.adjacency_list@[i]@.len() ==> (
            #[trigger] self.adjacency_list@[i]@[e]).node < self.nodes@.len()
    }

    /// A graph without nodes.
    pub fn new() -> (graph: Self)
        ensures
            graph.well_formed(),
            graph.keys() == Seq::<K>::empty(),
            graph.edges() == Seq::<Seq<(u32, int)>>::empty(),
    {
        let graph = Graph { adjacency_list: Vec::new(), nodes: Vec::new() };
        assert(graph.edges() =~= Seq::<Seq<(u32, int)>>::empty());
        graph
    }

    /// The place of the first node with the key `key`.
    pub fn get_node_index(&self, key: &K) -> (found: Option<usize>)
        requires
            obeys_concrete_eq::<K>(),
        ensures
            match found {
                Some(i) => first_index(self.keys(), *key) == Some(i as int),
                None => first_index(self.keys(), *key) is None,
            },
            found matches Some(i) ==> i < self.keys().len() && self.keys()[i as int] == *key,
    {
        let mut i: usize = 0;
        while i < self.nodes.len()
            invariant
                obeys_concrete_eq::<K>(),
                i <= self.nodes@.len(),
                forall|j: int| 0 <= j < i ==> self.nodes@[j] != *key,
            decreases self.nodes@.len() - i,
        {
            if same(&self.nodes[i], key) {
                proof {
                    assert(is_first_index(self.nodes@, *key, i as int));
                    let c = choose|c: int| is_first_index(self.nodes@, *key, c);
                    assert(c == i) by {
                        if c < i {
                            assert(self.nodes@[c] != *key);
                        }
                        if i < c {
                            assert(self.nodes@[i as int] == *key);
                        }
                    }
                }
                return Some(i);
            }
            i += 1;
        }
        assert(forall|c: int| !is_first_index(self.nodes@, *key, c));
        None
    }

    /// Gives the node with the key `from` the edges of `edges` that lead to keys of the
    /// graph; a key `from` that the graph does not have becomes a new node first. Edges to
    /// keys that the graph does not have, the new key among them, are left out.
    pub fn set_edges(&mut self, from: K, edges: Vec<(u32, K)>)
        requires
            obeys_concrete_eq::<K>(),
            old(self).well_formed(),
        ensures
            final(self).well_formed(),
            match first_index(old(self).keys(), from) {
                Some(at) => final(self).keys() == old(self).keys() && final(self).edges()
                    == old(self).edges().update(at, resolved(old(self).keys(), edges@)),
                None => final(self).keys() == old(self).keys().push(from) && final(self).edges()
                    == old(self).edges().push(resolved(old(self).keys(), edges@)),
            },
    {
        let mut found: Vec<Edge> = Vec::new();
        let ghost edges0 = self.edges();
        let mut i: usize = 0;
        while i < edges.len()
            invariant
                obeys_concrete_eq::<K>(),
                i <= edges@.len(),
                Seq::new(found@.len(), |e: int| (found@[e].weight, found@[e].node as int))
                    == resolved(self.keys(), edges@.take(i as int)),
                forall|e: int| 0 <= e < found@.len() ==> (#[trigger] found@[e]).node
                    < self.nodes@.len(),
            decreases edges@.len() - i,
        {
            let ghost before = found@;
            let ghost seen = Seq::new(before.len(), |e: int| (before[e].weight, before[e].node as int));
            assert(edges@.take(i + 1).drop_last() =~= edges@.take(i as int));
            assert(edges@.take(i + 1).last() == edges@[i as int]);
            match self.get_node_index(&edges[i].1) {
                Some(index) => {
                    found.push(Edge { weight: edges[i].0, node: index });
                    assert(Seq::new(found@.len(), |e: int| (found@[e].weight, found@[e].node as int))
                        =~= seen.push((edges@[i as int].0, index as int)));
                },
                None => {},
            }
            i += 1;
        }
        assert(edges@.take(edges@.len() as int) =~= edges@);
        let ghost list = resolved(self.keys(), edges@);
        match self.get_node_index(&from) {
            None => {
                self.nodes.push(from);
                self.adjacency_list.push(found);
                assert(self.edges() =~= edges0.push(list));
                assert forall|i: int, e: int|
                    0 <= i < self.adjacency_list@.len() && 0 <= e
                        < self.adjacency_list@[i]@.len() implies (
                #[trigger] self.adjacency_list@[i]@[e]).node < self.nodes@.len() by {
                    if i < old(self).adjacency_list@.len() {
                        assert(self.adjacency_list@[i] == old(self).adjacency_list@[i]);
                        assert(old(self).adjacency_list@[i]@[e].node < old(self).nodes@.len());
                    }
                }
            },
            Some(at) => {
                self.adjacency_list[at] = found;
                assert(self.edges() =~= edges0.update(at as int, list));
                assert forall|i: int, e: int|
                    0 <= i < self.adjacency_list@.len() && 0 <= e
                        < self.adjacency_list@[i]@.len() implies (
                #[trigger] self.adjacency_list@[i]@[e]).node < self.nodes@.len() by {
                    if i != at {
                        assert(self.adjacency_list@[i] == old(self).adjacency_list@[i]);
                        assert(old(self).adjacency_list@[i]@[e].node < old(self).nodes@.len());
                    }
                }
            },
        }
    }

    /// Makes `nodes` the nodes of the graph, without edges.
    pub fn set_nodes(&mut self, nodes: Vec<K>)
        ensures
            final(self).well_formed(),
            final(self).keys() == nodes@,
            final(self).edges() == Seq::new(nodes@.len(), |i: int| Seq::<(u32, int)>::empty()),
    {
        let mut lists: Vec<Vec<Edge>> = Vec::new();
        while lists.len() < nodes.len()
            invariant
                lists@.len() <= nodes@.len(),
                forall|i: int| 0 <= i < lists@.len() ==> (#[trigger] lists@[i])@.len() == 0,
            decreases nodes@.len() - lists@.len(),
        {
            lists.push(Vec::new());
        }
        self.adjacency_list = lists;
        self.nodes = nodes;
        assert forall|i: int| 0 <= i < nodes@.len() implies #[trigger] self.edges()[i]
            == Seq::<(u32, int)>::empty() by {
            assert(self.edges()[i] =~= Seq::<(u32, int)>::empty());
        }
        assert(self.edges() =~= Seq::new(nodes@.len(), |i: int| Seq::<(u32, int)>::empty()));
    }

    /// The keys of the nodes that are within `degree` edges of the first node with the key
    /// `from`, in the order of their places; nothing if the graph has no such key.
    pub fn connected(&self, from: &K, degree: usize) -> (reached: Option<Vec<&K>>)
        requires
            obeys_concrete_eq::<K>(),
            self.well_formed(),
        ensures
            match first_index(self.keys(), *from) {
                None => reached is None,
                Some(at) => reached is Some && named(reached.unwrap()@) == marked(
                    self.keys(),
                    Seq::new(
                        self.keys().len(),
                        |j: int| within(self.edges(), at, j, degree as nat),
                    ),
                ),
            },
    {
        let from = match self.get_node_index(from) {
            None => {
                return None;
            },
            Some(from) => from,
        };
        let mut marks: Vec<bool> = Vec::new();
        while marks.len() < self.nodes.len()
            invariant
                marks@.len() <= self.nodes@.len(),
                forall|j: int| 0 <= j < marks@.len() ==> !(#[trigger] marks@[j]),
            decreases self.nodes@.len() - marks@.len(),
        {
            marks.push(false);
        }
        self.connected_r(from, degree, &mut marks);
        let ghost wanted = Seq::new(
            self.keys().len(),
            |j: int| within(self.edges(), from as int, j, degree as nat),
        );
        assert(marks@ =~= wanted);
        let mut reached: Vec<&K> = Vec::new();
        let mut i: usize = 0;
        while i < self.nodes.len()
            invariant
                i <= self.nodes@.len(),
                marks@.len() == self.nodes@.len(),
                reached@.map_values(|key: &K| *key) == marked(
                    self.nodes@.take(i as int),
                    marks@.take(i as int),
                ),
            decreases self.nodes@.len() - i,
        {
            let ghost before = reached@;
            assert(self.nodes@.take(i + 1).drop_last() =~= self.nodes@.take(i as int));
            assert(marks@.take(i + 1).drop_last() =~= marks@.take(i as int));
            assert(self.nodes@.take(i + 1).last() == self.nodes@[i as int]);
            assert(marks@.take(i + 1).last() == marks@[i as int]);
            if marks[i] {
                reached.push(&self.nodes[i]);
                assert(reached@.map_values(|key: &K| *key) =~= before.map_values(|key: &K| *key).push(
                    self.nodes@[i as int],
                ));
            }
            i += 1;
        }
        assert(self.nodes@.take(self.nodes@.len() as int) =~= self.nodes@);
        assert(marks@.take(self.nodes@.len() as int) =~= marks@);
        Some(reached)
    }

    /// Marks the nodes that are within `degree` edges of the node at the place `from`.
    fn connected_r(&self, from: usize, degree: usize, marks: &mut Vec<bool>)
        requires
            self.well_formed(),
            from < self.keys().len(),
            old(marks)@.len() == self.keys().len(),
        ensures
            final(marks)@.len() == old(marks)@.len(),
            forall|j: int|
                0 <= j < self.keys().len() ==> #[trigger] final(marks)@[j] == (old(marks)@[j]
                    || within(self.edges(), from as int, j, degree as nat)),
        decreases degree,
    {
        if degree == 0 {
            return ;
        }
        let ghost edges = self.edges();
        let mut e: usize = 0;
        while e < self.adjacency_list[from].len()
            invariant
                self.well_formed(),
                degree > 0,
                from < self.keys().len(),
                edges == self.edges(),
                e <= self.adjacency_list@[from as int]@.len(),
                marks@.len() == self.keys().len(),
                forall|j: int|
                    0 <= j < self.keys().len() ==> #[trigger] marks@[j] == (old(marks)@[j]
                        || exists|f: int|
                        0 <= f < e && (#[trigger] edges[from as int][f].1 == j || within(
                            edges,
                            edges[from as int][f].1,
                            j,
                            (degree - 1) as nat,
                        ))),
            decreases self.adjacency_list@[from as int]@.len() - e,
        {
            let target = self.adjacency_list[from][e].node;
            let ghost before = marks@;
            assert(edges[from as int][e as int].1 == target);
            self.connected_r(target, degree - 1, marks);
            let ghost between = marks@;
            marks[target] = true;
            proof {
                assert forall|j: int| 0 <= j < self.keys().len() implies #[trigger] marks@[j] == (
                old(marks)@[j] || exists|f: int|
                    0 <= f < e + 1 && (#[trigger] edges[from as int][f].1 == j || within(
                        edges,
                        edges[from as int][f].1,
                        j,
                        (degree - 1) as nat,
                    ))) by {
                    let here = edges[from as int][e as int].1 == j || within(
                        edges,
                        edges[from as int][e as int].1,
                        j,
                        (degree - 1) as nat,
                    );
                    assert(between[j] == (before[j] || within(
                        edges,
                        target as int,
                        j,
                        (degree - 1) as nat,
                    )));
                    assert(marks@[j] == (between[j] || j == target));
                    assert(marks@[j] == (before[j] || here));
                    if before[j] && !old(marks)@[j] {
                        let f = choose|f: int|
                            0 <= f < e && (#[trigger] edges[from as int][f].1 == j || within(
                                edges,
                                edges[from as int][f].1,
                                j,
                                (degree - 1) as nat,
                            ));
                        assert(0 <= f < e + 1);
                    }
                }
            }
            e += 1;
        }
        proof {
            assert forall|j: int| 0 <= j < self.keys().len() implies #[trigger] marks@[j] == (
            old(marks)@[j] || within(self.edges(), from as int, j, degree as nat)) by {
                assert(edges[from as int].len() == self.adjacency_list@[from as int]@.len());
            }
        }
    }
}

impl<K: Eq + Hash> Graph<K> {
    /// The place in `open` of a node with the least distance among the nodes of `open`, the
    /// first such place, and that distance.
    fn min_index_in_open(distances: &Vec<Distance>, open: &Vec<usize>) -> (least: (usize, Distance))
        requires
            open@.len() > 0,
            forall|k: int| 0 <= k < open@.len() ==> (#[trigger] open@[k]) < distances@.len(),
        ensures
            least.0 < open@.len(),
            least.1 == distances@[open@[least.0 as int] as int],
            forall|k: int|
                0 <= k < open@.len() ==> !(#[trigger] distances@[open@[k] as int]).less(least.1),
    {
        let mut min_distance = distances[open[0]];
        let mut min_index: usize = 0;
        let mut i: usize = 1;
        while i < open.len()
            invariant
                1 <= i <= open@.len(),
                forall|k: int| 0 <= k < open@.len() ==> (#[trigger] open@[k]) < distances@.len(),
                min_index < open@.len(),
                min_distance == distances@[open@[min_index as int] as int],
                forall|k: int|
                    0 <= k < i ==> !(#[trigger] distances@[open@[k] as int]).less(min_distance),
            decreases open@.len() - i,
        {
            let distance = distances[open[i]];
            if distance.less_than(min_distance) {
                min_distance = distance;
                min_index = i;
            }
            i += 1;
        }
        (min_index, min_distance)
    }

    /// What is known of the node at the place `v` while the ways are sought: a node with a
    /// distance has a way of that length from `from`, which is the way of the node before it
    /// on that way, a node that is done with, and the edge between the two.
    pub closed spec fn settled(
        edges: Seq<Seq<(u32, int)>>,
        from: int,
        distances: Seq<Distance>,
        parent: Seq<Option<usize>>,
        done: Seq<bool>,
        routes: Seq<Seq<int>>,
        v: int,
    ) -> bool {
        match distances[v] {
            Distance::Infinite => parent[v] is None,
            Distance::Number(d) => {
                &&& is_route(edges, routes[v], d as int)
                &&& routes[v][0] == from
                &&& routes[v].last() == v
                &&& match parent[v] {
                    None => v == from && routes[v] == seq![from],
                    Some(u) => u < distances.len() && done[u as int] && distances[u as int]
                        is Number && routes[v] == routes[u as int].push(v),
                }
            },
        }
    }

    /// `route` holds the places of the nodes of a way along the edges from the first node
    /// with the key `from` to the first node with the key `to`, of the length `length`, and
    /// `path` the keys of these nodes.
    pub open spec fn leads(&self, route: Seq<int>, from: K, to: K, length: int, path: Seq<K>) -> bool {
        &&& is_route(self.edges(), route, length)
        &&& Some(route[0]) == first_index(self.keys(), from)
        &&& Some(route.last()) == first_index(self.keys(), to)
        &&& forall|k: int| 0 <= k < route.len() ==> 0 <= #[trigger] route[k] < self.keys().len()
        &&& path == route.map_values(|v: int| self.keys()[v])
    }

    /// No way from `from` to `v` that is no longer than a `u32` can say is shorter than
    /// `distance`.
    pub closed spec fn least(edges: Seq<Seq<(u32, int)>>, from: int, v: int, distance: Distance) -> bool {
        forall|route: Seq<int>, total: int|
            #[trigger] is_route(edges, route, total) && route[0] == from && route.last() == v
                && total <= u32::MAX ==> distance.at_most(total)
    }

    /// No edge from `u` leads to a node whose distance is more than that of `u` and the
    /// weight of the edge.
    pub closed spec fn relaxed(edges: Seq<Seq<(u32, int)>>, distances: Seq<Distance>, u: int) -> bool {
        forall|e: int|
            0 <= e < edges[u].len() ==> distances[(#[trigger] edges[u][e]).1].no_more_than(
                distances[u].with(edges[u][e].0),
            )
    }

    /// Every edge leads to one of `n` nodes.
    pub closed spec fn edges_within(edges: Seq<Seq<(u32, int)>>, n: int) -> bool {
        &&& edges.len() == n
        &&& forall|u: int, e: int|
            0 <= u < n && 0 <= e < edges[u].len() ==> 0 <= (#[trigger] edges[u][e]).1 < n
    }

    /// The edges of a well-formed graph lead to its nodes.
    proof fn lemma_edges_within(&self)
        requires
            self.well_formed(),
        ensures
            Self::edges_within(self.edges(), self.keys().len() as int),
    {
        assert forall|u: int, e: int|
            0 <= u < self.keys().len() && 0 <= e < self.edges()[u].len() implies 0 <= (
        #[trigger] self.edges()[u][e]).1 < self.keys().len() by {
            assert(self.adjacency_list@[u]@[e].node < self.nodes@.len());
        }
    }

    /// Where the nodes that are done with have their least distances, and their edges are
    /// relaxed, a way from `from` ends at a node that is done with and has a distance no
    /// more than the length of the way, or there is a node not yet done with that has.
    proof fn lemma_nearest(
        edges: Seq<Seq<(u32, int)>>,
        from: int,
        distances: Seq<Distance>,
        done: Seq<bool>,
        route: Seq<int>,
        total: int,
    )
        requires
            Self::edges_within(edges, distances.len() as int),
            done.len() == distances.len(),
            0 <= from < distances.len(),
            distances[from] == Distance::Number(0),
            forall|u: int|
                0 <= u < distances.len() && #[trigger] done[u] ==> Self::least(
                    edges,
                    from,
                    u,
                    distances[u],
                ) && Self::relaxed(edges, distances, u),
            is_route(edges, route, total),
            route[0] == from,
            total <= u32::MAX,
        ensures
            0 <= route.last() < distances.len(),
            0 <= total,
            done[route.last()] ==> distances[route.last()].at_most(total),
            !done[route.last()] ==> exists|y: int|
                0 <= y < distances.len() && !#[trigger] done[y] && distances[y].at_most(total),
        decreases route.len(),
    {
        let last = route.last();
        if route.len() == 1 {
            if !done[last] {
                assert(!done[from] && distances[from].at_most(total));
            }
        } else {
            let u = route[route.len() - 2];
            let e = choose|e: int|
                0 <= e < edges[u].len() && #[trigger] edges[u][e].1 == route.last() && is_route(
                    edges,
                    route.drop_last(),
                    total - edges[u][e].0,
                );
            let w = edges[u][e].0;
            let prefix = route.drop_last();
            assert(prefix[0] == route[0]);
            assert(prefix.last() == u);
            Self::lemma_nearest(edges, from, distances, done, prefix, total - w);
            assert(0 <= edges[u][e].1 < distances.len());
            if done[last] {
            } else if done[u] {
                assert(Self::relaxed(edges, distances, u));
                assert(distances[edges[u][e].1].no_more_than(distances[u].with(w)));
                assert(distances[edges[u][e].1].at_most(total));
                assert(!done[last] && distances[last].at_most(total));
            } else {
                let y = choose|y: int|
                    0 <= y < distances.len() && !#[trigger] done[y] && distances[y].at_most(
                        total - w,
                    );
                assert(!done[y] && distances[y].at_most(total));
            }
        }
    }

    /// A shortest way from the first node with the key `from` to the first node with the key
    /// `to`, as its length and the keys along it, found by always going on from the nearest
    /// node not yet done with. Nothing if the graph lacks one of the keys, or if every way is
    /// longer than a `u32` can say, as it is if there is none.
    pub fn shortest_path(&self, from: &K, to: &K) -> (way: Option<(u32, Vec<&K>)>)
        requires
            obeys_concrete_eq::<K>(),
            self.well_formed(),
        ensures
            first_index(self.keys(), *from) is None || first_index(self.keys(), *to) is None
                ==> way is None,
            way is Some ==> exists|route: Seq<int>| #[trigger]
                self.leads(
                    route,
                    *from,
                    *to,
                    way.unwrap().0 as int,
                    named(way.unwrap().1@),
                ),
            forall|route: Seq<int>, total: int|
                #[trigger] is_route(self.edges(), route, total) && Some(route[0]) == first_index(
                    self.keys(),
                    *from,
                ) && Some(route.last()) == first_index(self.keys(), *to) ==> match way {
                    Some(found) => found.0 <= total,
                    None => total > u32::MAX,
                },
    {
        let ghost from_key = *from;
        let ghost to_key = *to;
        let from = match self.get_node_index(from) {
            None => {
                return None;
            },
            Some(from) => from,
        };
        let to = match self.get_node_index(to) {
            None => {
                return None;
            },
            Some(to) => to,
        };
        let n = self.nodes.len();
        let ghost edges = self.edges();
        proof {
            self.lemma_edges_within();
        }
        let mut distances = repeated(Distance::Infinite, n);
        distances[from] = Distance::Number(0);
        let mut open: Vec<usize> = Vec::new();
        while open.len() < n
            invariant
                open@.len() <= n,
                forall|k: int| 0 <= k < open@.len() ==> (#[trigger] open@[k]) == k,
            decreases n - open@.len(),
        {
            open.push(open.len());
        }
        let mut parent: Vec<Option<usize>> = repeated(None, n);
        let mut done: Vec<bool> = repeated(false, n);
        let ghost mut routes: Seq<Seq<int>> = Seq::new(n as nat, |v: int| seq![from as int]);
        let mut found = false;
        proof {
            assert forall|v: int| 0 <= v < n implies Self::settled(
                edges,
                from as int,
                distances@,
                parent@,
                done@,
                routes,
                v,
            ) by {}
            assert forall|v: int| 0 <= v < n && !done@[v] implies exists|k: int|
                0 <= k < open@.len() && #[trigger] open@[k] == v by {
                assert(open@[v] == v);
            }
        }
        while open.len() > 0
            invariant_except_break
                !found,
                !done@[to as int],
                forall|u: int|
                    0 <= u < n && #[trigger] done@[u] ==> Self::relaxed(edges, distances@, u),
            invariant
                self.well_formed(),
                edges == self.edges(),
                Self::edges_within(edges, n as int),
                n == self.nodes@.len(),
                from < n,
                to < n,
                distances@.len() == n,
                parent@.len() == n,
                done@.len() == n,
                routes.len() == n,
                distances@[from as int] == Distance::Number(0),
                forall|k: int| 0 <= k < open@.len() ==> (#[trigger] open@[k]) < n && !done@[open@[k] as int],
                forall|j: int, k: int|
                    0 <= j < k < open@.len() ==> #[trigger] open@[j] != #[trigger] open@[k],
                forall|v: int|
                    0 <= v < n && !done@[v] ==> exists|k: int|
                        0 <= k < open@.len() && #[trigger] open@[k] == v,
                forall|v: int|
                    0 <= v < n ==> Self::settled(
                        edges,
                        from as int,
                        distances@,
                        parent@,
                        done@,
                        routes,
                        v,
                    ),
                forall|u: int|
                    0 <= u < n && #[trigger] done@[u] ==> Self::least(
                        edges,
                        from as int,
                        u,
                        distances@[u],
                    ),
            ensures
                found <==> distances@[to as int] is Number,
                Self::least(edges, from as int, to as int, distances@[to as int]),
            decreases open@.len(),
        {
            let ghost open0 = open@;
            let ghost done0 = done@;
            let (min_index_in_open, min_distance) = Self::min_index_in_open(&distances, &open);
            let min_index_in_nodes = open.swap_remove(min_index_in_open);
            let node = min_index_in_nodes;
            proof {
                assert forall|route: Seq<int>, total: int|
                    #[trigger] is_route(edges, route, total) && route[0] == from && route.last()
                        == node && total <= u32::MAX implies min_distance.at_most(total) by {
                    Self::lemma_nearest(edges, from as int, distances@, done0, route, total);
                    let y = choose|y: int|
                        0 <= y < n && !#[trigger] done0[y] && distances@[y].at_most(total);
                    let k = choose|k: int| 0 <= k < open0.len() && #[trigger] open0[k] == y;
                    assert(!distances@[open0[k] as int].less(min_distance));
                }
                assert(Self::least(edges, from as int, node as int, min_distance));
            }
            done[node] = true;
            proof {
                assert forall|v: int| 0 <= v < n implies Self::settled(
                    edges,
                    from as int,
                    distances@,
                    parent@,
                    done@,
                    routes,
                    v,
                ) by {
                    assert(Self::settled(edges, from as int, distances@, parent@, done0, routes, v));
                }
                assert forall|k: int| 0 <= k < open@.len() implies (#[trigger] open@[k]) < n
                    && !done@[open@[k] as int] by {
                    if k == min_index_in_open {
                        assert(open@[k] == open0[open0.len() - 1]);
                        assert(open0[open0.len() - 1] != open0[min_index_in_open as int]);
                    } else {
                        assert(open@[k] == open0[k]);
                        if k < min_index_in_open {
                            assert(open0[k] != open0[min_index_in_open as int]);
                        } else {
                            assert(open0[min_index_in_open as int] != open0[k]);
                        }
                    }
                }
                assert forall|j: int, k: int| 0 <= j < k < open@.len() implies #[trigger] open@[j]
                    != #[trigger] open@[k] by {
                    let a = if j == min_index_in_open {
                        open0.len() - 1
                    } else {
                        j
                    };
                    let b = if k == min_index_in_open {
                        open0.len() - 1
                    } else {
                        k
                    };
                    assert(open@[j] == open0[a] && open@[k] == open0[b]);
                    if a < b {
                        assert(open0[a] != open0[b]);
                    } else {
                        assert(open0[b] != open0[a]);
                    }
                }
                assert forall|v: int| 0 <= v < n && !done@[v] implies exists|k: int|
                    0 <= k < open@.len() && #[trigger] open@[k] == v by {
                    let k = choose|k: int| 0 <= k < open0.len() && #[trigger] open0[k] == v;
                    if k == open0.len() - 1 {
                        assert(open@[min_index_in_open as int] == v);
                    } else {
                        assert(open@[k] == v);
                    }
                }
            }
            if min_index_in_nodes == to {
                found = match min_distance {
                    Distance::Number(_) => true,
                    Distance::Infinite => false,
                };
                break ;
            }
            let mut e: usize = 0;
            while e < self.adjacency_list[node].len()
                invariant
                    self.well_formed(),
                    edges == self.edges(),
                    Self::edges_within(edges, n as int),
                    n == self.nodes@.len(),
                    from < n,
                    to < n,
                    node < n,
                    node != to,
                    !found,
                    !done@[to as int],
                    done@[node as int],
                    min_distance == distances@[node as int],
                    distances@.len() == n,
                    parent@.len() == n,
                    done@.len() == n,
                    routes.len() == n,
                    distances@[from as int] == Distance::Number(0),
                    e <= self.adjacency_list@[node as int]@.len(),
                    forall|v: int|
                        0 <= v < n ==> Self::settled(
                            edges,
                            from as int,
                            distances@,
                            parent@,
                            done@,
                            routes,
                            v,
                        ),
                    forall|u: int|
                        0 <= u < n && #[trigger] done@[u] ==> Self::least(
                            edges,
                            from as int,
                            u,
                            distances@[u],
                        ),
                    forall|u: int|
                        0 <= u < n && #[trigger] done@[u] && u != node ==> Self::relaxed(
                            edges,
                            distances@,
                            u,
                        ),
                    forall|f: int|
                        0 <= f < e ==> distances@[(#[trigger] edges[node as int][f]).1].no_more_than(
                            distances@[node as int].with(edges[node as int][f].0),
                        ),
                decreases self.adjacency_list@[node as int]@.len() - e,
            {
                let weight = self.adjacency_list[node][e].weight;
                let target = self.adjacency_list[node][e].node;
                let ghost distances0 = distances@;
                let ghost parent0 = parent@;
                let ghost routes0 = routes;
                assert(edges[node as int][e as int] == (weight, target as int));
                assert(Self::settled(
                    edges,
                    from as int,
                    distances0,
                    parent0,
                    done@,
                    routes0,
                    node as int,
                ));
                let new_distance = min_distance.plus(weight);
                if !done[target] {
                    if new_distance.less_than(distances[target]) {
                        distances[target] = new_distance;
                        parent[target] = Some(node);
                        proof {
                            routes = routes.update(target as int, routes0[node as int].push(target as int));
                            let way = routes[target as int];
                            let total = new_distance->Number_0 as int;
                            assert(way.drop_last() =~= routes0[node as int]);
                            assert(routes0[node as int].len() >= 1);
                            assert(way[way.len() - 2] == node);
                            assert(edges[node as int][e as int].1 == way.last() && is_route(
                                edges,
                                way.drop_last(),
                                total - edges[node as int][e as int].0,
                            ));
                            assert(is_route(edges, way, total));
                            assert forall|v: int| 0 <= v < n implies Self::settled(
                                edges,
                                from as int,
                                distances@,
                                parent@,
                                done@,
                                routes,
                                v,
                            ) by {
                                assert(Self::settled(
                                    edges,
                                    from as int,
                                    distances0,
                                    parent0,
                                    done@,
                                    routes0,
                                    v,
                                ));
                            }
                        }
                    }
                } else {
                    proof {
                        if let Distance::Number(d) = min_distance {
                            if d + weight <= u32::MAX {
                                let way = routes[node as int].push(target as int);
                                assert(way.drop_last() =~= routes[node as int]);
                                assert(way[way.len() - 2] == node);
                                assert(edges[node as int][e as int].1 == way.last() && is_route(
                                    edges,
                                    way.drop_last(),
                                    d + weight - edges[node as int][e as int].0,
                                ));
                                assert(is_route(edges, way, d + weight));
                                assert(way[0] == from);
                                assert(Self::least(
                                    edges,
                                    from as int,
                                    target as int,
                                    distances@[target as int],
                                ));
                            }
                        }
                    }
                }
                proof {
                    assert forall|u: int|
                        0 <= u < n && #[trigger] done@[u] && u != node implies Self::relaxed(
                        edges,
                        distances@,
                        u,
                    ) by {
                        assert(Self::relaxed(edges, distances0, u));
                        assert(distances@[u] == distances0[u]);
                        assert forall|f: int| 0 <= f < edges[u].len() implies distances@[(
                        #[trigger] edges[u][f]).1].no_more_than(
                            distances@[u].with(edges[u][f].0),
                        ) by {
                            let v = edges[u][f].1;
                            assert(0 <= v < n);
                            assert(distances0[v].no_more_than(distances0[u].with(edges[u][f].0)));
                        }
                    }
                    assert forall|f: int| 0 <= f < e + 1 implies distances@[(
                    #[trigger] edges[node as int][f]).1].no_more_than(
                        distances@[node as int].with(edges[node as int][f].0),
                    ) by {
                        let v = edges[node as int][f].1;
                        assert(0 <= v < n);
                        if f < e {
                            assert(distances0[v].no_more_than(
                                distances0[node as int].with(edges[node as int][f].0),
                            ));
                        }
                    }
                }
                e += 1;
            }
            proof {
                assert(edges[node as int].len() == self.adjacency_list@[node as int]@.len());
                assert(Self::relaxed(edges, distances@, node as int));
            }
        }
        proof {
            if open@.len() == 0 && !done@[to as int] {
                let k = choose|k: int| 0 <= k < open@.len() && #[trigger] open@[k] == to;
                assert(false);
            }
        }
        if !found {
            return None;
        }
        let distance = match distances[to] {
            Distance::Infinite => {
                return None;
            },
            Distance::Number(distance) => distance,
        };
        let mut cur = to;
        let mut back: Vec<usize> = Vec::new();
        back.push(cur);
        assert(Self::settled(edges, from as int, distances@, parent@, done@, routes, cur as int));
        loop
            invariant
                n == self.nodes@.len(),
                distances@.len() == n,
                parent@.len() == n,
                done@.len() == n,
                routes.len() == n,
                cur < n,
                to < n,
                distances@[cur as int] is Number,
                forall|v: int|
                    0 <= v < n ==> Self::settled(
                        edges,
                        from as int,
                        distances@,
                        parent@,
                        done@,
                        routes,
                        v,
                    ),
                back@.len() > 0,
                back@.last() == cur,
                forall|k: int| 0 <= k < back@.len() ==> (#[trigger] back@[k]) < n,
                routes[to as int].len() == routes[cur as int].len() + back@.len() - 1,
                forall|k: int|
                    0 <= k < routes[cur as int].len() ==> routes[to as int][k]
                        == routes[cur as int][k],
                forall|k: int|
                    0 <= k < back@.len() ==> routes[to as int][routes[to as int].len() - 1 - k]
                        == #[trigger] back@[k],
            ensures
                back@.len() == routes[to as int].len(),
                forall|k: int| 0 <= k < back@.len() ==> (#[trigger] back@[k]) < n,
                forall|k: int|
                    0 <= k < back@.len() ==> routes[to as int][routes[to as int].len() - 1 - k]
                        == #[trigger] back@[k],
            decreases routes[cur as int].len(),
        {
            assert(Self::settled(edges, from as int, distances@, parent@, done@, routes, cur as int));
            match parent[cur] {
                None => {
                    break ;
                },
                Some(before) => {
                    assert(Self::settled(
                        edges,
                        from as int,
                        distances@,
                        parent@,
                        done@,
                        routes,
                        before as int,
                    ));
                    back.push(before);
                    cur = before;
                },
            }
        }
        let mut path: Vec<&K> = Vec::new();
        let mut i = back.len();
        let ghost route = routes[to as int];
        while i > 0
            invariant
                i <= back@.len(),
                n == self.nodes@.len(),
                back@.len() == route.len(),
                path@.len() == back@.len() - i,
                forall|k: int| 0 <= k < back@.len() ==> (#[trigger] back@[k]) < n,
                forall|k: int|
                    0 <= k < back@.len() ==> route[route.len() - 1 - k] == #[trigger] back@[k],
                path@.map_values(|key: &K| *key) == route.take(path@.len() as int).map_values(
                    |v: int| self.nodes@[v],
                ),
            decreases i,
        {
            i -= 1;
            let ghost before = path@;
            assert(route[route.len() - 1 - i] == back@[i as int]);
            path.push(&self.nodes[back[i]]);
            assert(path@.map_values(|key: &K| *key) =~= route.take(path@.len() as int).map_values(
                |v: int| self.nodes@[v],
            )) by {
                assert(path@.map_values(|key: &K| *key) =~= before.map_values(|key: &K| *key).push(
                    self.nodes@[back@[i as int] as int],
                ));
                assert(route.take(path@.len() as int) =~= route.take(before.len() as int).push(
                    route[before.len() as int],
                ));
            }
        }
        proof {
            assert(Self::settled(edges, from as int, distances@, parent@, done@, routes, to as int));
            assert(is_route(self.edges(), route, distance as int));
            assert(route[0] == from && route.last() == to);
            assert(route.take(route.len() as int) =~= route);
            assert forall|k: int| 0 <= k < route.len() implies 0 <= #[trigger] route[k] < n by {
                assert(route[k] == back@[route.len() - 1 - k]);
            }
            assert(path@.map_values(|key: &K| *key) =~= route.map_values(|v: int| self.keys()[v]));
            assert(Some(route[0]) == first_index(self.keys(), from_key));
            assert(Some(route.last()) == first_index(self.keys(), to_key));
            assert(n == self.keys().len());
            assert(self.leads(route, from_key, to_key, distance as int, named(path@)));
        }
        let way = Some((distance, path));
        assert(self.leads(route, from_key, to_key, way.unwrap().0 as int, named(way.unwrap().1@)));
        way
    }
}

} // verus!
