use vstd::prelude::*;

use crate::graph::{key_set, Graph, NodeKey};

verus! {

/// The mathematical shape of a [`Query`], over identifier views.
pub enum QueryView<KV> {
    LinkSourceTarget(KV, KV),
    Node(KV),
    LinkSource(KV),
    LinkTarget(KV),
}

/// An immutable description of a lookup against a graph: by both link
/// endpoints, by a node alone, or by a single link endpoint. Building a
/// query does nothing against any graph; a graph evaluates it in
/// boolean mode (`existence_query`) or set mode (`set_query`).
#[derive(Debug, PartialEq)]
pub enum Query<K: NodeKey> {
    LinkSourceTarget(K, K),
    Node(K),
    LinkSource(K),
    LinkTarget(K),
}

impl<K: NodeKey> View for Query<K> {
    type V = QueryView<K::V>;

    open spec fn view(&self) -> QueryView<K::V> {
        match self {
            Query::LinkSourceTarget(s, t) => QueryView::LinkSourceTarget(s@, t@),
            Query::Node(n) => QueryView::Node(n@),
            Query::LinkSource(s) => QueryView::LinkSource(s@),
            Query::LinkTarget(t) => QueryView::LinkTarget(t@),
        }
    }
}

impl<K: NodeKey> Query<K> {
    /// A query for the presence of the link from `source` to `target`.
    pub fn link_source_target(source: &K, target: &K) -> (q: Query<K>)
        ensures
            q@ == QueryView::LinkSourceTarget(source@, target@),
    {
        Query::LinkSourceTarget(source.key_clone(), target.key_clone())
    }

    /// A query for the presence of a node.
    pub fn node(node: &K) -> (q: Query<K>)
        ensures
            q@ == QueryView::Node(node@),
    {
        Query::Node(node.key_clone())
    }

    /// A query about the links leaving `source`.
    pub fn link_source(source: &K) -> (q: Query<K>)
        ensures
            q@ == QueryView::LinkSource(source@),
    {
        Query::LinkSource(source.key_clone())
    }

    /// A query about the links arriving at `target`.
    pub fn link_target(target: &K) -> (q: Query<K>)
        ensures
            q@ == QueryView::LinkTarget(target@),
    {
        Query::LinkTarget(target.key_clone())
    }

    /// A copy denoting the same shape and identifiers.
    pub fn duplicate(&self) -> (r: Query<K>)
        ensures
            r@ == self@,
    {
        match self {
            Query::LinkSourceTarget(s, t) => Query::LinkSourceTarget(
                s.key_clone(),
                t.key_clone(),
            ),
            Query::Node(n) => Query::Node(n.key_clone()),
            Query::LinkSource(s) => Query::LinkSource(s.key_clone()),
            Query::LinkTarget(t) => Query::LinkTarget(t.key_clone()),
        }
    }
}

/// The mathematical shape of a [`GraphError`].
pub enum GraphErrorView<KV> {
    UnknownNode(KV),
    UnsupportedQuery(QueryView<KV>),
}

/// Why a set-mode query was refused: the named identifier is absent
/// from the node table, or the query's shape does not support set-mode
/// evaluation.
#[derive(Debug, PartialEq)]
pub enum GraphError<K: NodeKey> {
    UnknownNode(K),
    UnsupportedQuery(Query<K>),
}

impl<K: NodeKey> View for GraphError<K> {
    type V = GraphErrorView<K::V>;

    open spec fn view(&self) -> GraphErrorView<K::V> {
        match self {
            GraphError::UnknownNode(n) => GraphErrorView::UnknownNode(n@),
            GraphError::UnsupportedQuery(q) => GraphErrorView::UnsupportedQuery(q@),
        }
    }
}

/// A query bound to a graph, completed incrementally before it runs.
/// A partially specified query — the links from a source, or the links
/// to a target — is refined into a both-endpoint query with
/// [`GraphQuery::target`] or [`GraphQuery::source`]; the terminal
/// operations evaluate it against the bound graph. The handle borrows
/// the graph and must not outlive it.
pub struct GraphQuery<'a, K: NodeKey> {
    graph: &'a Graph<K>,
    query: Query<K>,
}

impl<'a, K: NodeKey> GraphQuery<'a, K> {
    /// The graph this handle is bound to.
    pub closed spec fn bound_graph(self) -> Graph<K> {
        *self.graph
    }

    /// The shape of the held query.
    pub closed spec fn held_query(self) -> QueryView<K::V> {
        self.query@
    }

    /// The handle is usable when its graph is well-formed.
    pub open spec fn wf(self) -> bool {
        self.bound_graph().wf()
    }

    /// Binds a query to a graph. Nothing is evaluated yet.
    pub fn new(graph: &'a Graph<K>, query: Query<K>) -> (r: GraphQuery<'a, K>)
        ensures
            r.bound_graph() == *graph,
            r.held_query() == query@,
    {
        GraphQuery { graph, query }
    }

    /// Refines a "links to target" query into "link from `source` to
    /// that target". Calling this on any other shape is a programming
    /// contract violation, which the precondition rules out.
    pub fn source(&self, source: &K) -> (r: GraphQuery<'a, K>)
        requires
            self.held_query() matches QueryView::LinkTarget(_),
        ensures
            r.bound_graph() == self.bound_graph(),
            self.held_query() matches QueryView::LinkTarget(t) ==> r.held_query()
                == QueryView::LinkSourceTarget(source@, t),
    {
        match &self.query {
            Query::LinkTarget(target) => GraphQuery {
                graph: self.graph,
                query: Query::LinkSourceTarget(source.key_clone(), target.key_clone()),
            },
            _ => unreached(),
        }
    }

    /// Refines a "links from source" query into "link from that source
    /// to `target`". Calling this on any other shape is a programming
    /// contract violation, which the precondition rules out.
    pub fn target(&self, target: &K) -> (r: GraphQuery<'a, K>)
        requires
            self.held_query() matches QueryView::LinkSource(_),
        ensures
            r.bound_graph() == self.bound_graph(),
            self.held_query() matches QueryView::LinkSource(s) ==> r.held_query()
                == QueryView::LinkSourceTarget(s, target@),
    {
        match &self.query {
            Query::LinkSource(source) => GraphQuery {
                graph: self.graph,
                query: Query::LinkSourceTarget(source.key_clone(), target.key_clone()),
            },
            _ => unreached(),
        }
    }

    /// Evaluates the held query in boolean mode against the bound
    /// graph.
    pub fn exists_query(&self) -> (r: Option<bool>)
        requires
            self.wf(),
        ensures
            r == self.bound_graph().model().existence_answer(self.held_query()),
    {
        self.graph.existence_query(&self.query)
    }

    /// Evaluates the held query in set mode against the bound graph.
    pub fn as_set(&self) -> (r: Result<Vec<K>, GraphError<K>>)
        requires
            self.wf(),
        ensures
            match r {
                Ok(v) => self.bound_graph().model().set_answer(self.held_query()) == Ok::<
                    _,
                    GraphErrorView<K::V>,
                >(key_set(v@)) && (forall|j1: int, j2: int|
                    0 <= j1 < j2 < v@.len() ==> v@[j1]@ != v@[j2]@),
                Err(e) => self.bound_graph().model().set_answer(self.held_query()) == Err::<
                    Set<K::V>,
                    _,
                >(e@),
            },
    {
        self.graph.set_query(&self.query)
    }
}

} // verus!
