use vstd::prelude::*;

use crate::query::{GraphErrorView, QueryView};
use crate::value::ValueView;

verus! {

/// The reference semantics of a graph: the node table as a map from
/// identifier views to payload views, and the link set as a set of
/// ordered (source, target) pairs.
///
/// Every executable operation of [`crate::graph::Graph`] is specified
/// against this model: the spec functions below say, for each
/// operation, what it reports and what the next state is, and the
/// executable code is proved to follow them. The derived adjacency
/// index kept by the executable graph does not appear here — it is
/// redundant state, proved in sync with `links`.
#[verifier::ext_equal]
#[verifier::reject_recursive_types(KV)]
pub ghost struct GraphModel<KV> {
    pub nodes: Map<KV, ValueView>,
    pub links: Set<(KV, KV)>,
}

impl<KV> GraphModel<KV> {
    /// The state of a freshly created graph.
    pub open spec fn empty() -> Self {
        GraphModel { nodes: Map::empty(), links: Set::empty() }
    }

    /// Whether `n` is in the node table.
    pub open spec fn has_node(self, n: KV) -> bool {
        self.nodes.contains_key(n)
    }

    /// Every link connects two existing nodes.
    pub open spec fn wf(self) -> bool {
        forall|p: (KV, KV)|
            self.links.contains(p) ==> self.has_node(p.0) && self.has_node(p.1)
    }

    /// What `insert` reports: success exactly when the identifier is new.
    pub open spec fn insert_ok(self, n: KV) -> bool {
        !self.has_node(n)
    }

    /// The state after a successful insertion of `n` with payload `v`.
    pub open spec fn with_node(self, n: KV, v: ValueView) -> Self {
        GraphModel { nodes: self.nodes.insert(n, v), links: self.links }
    }

    /// The state after `insert(n, v)`: unchanged on a duplicate identifier.
    pub open spec fn after_insert(self, n: KV, v: ValueView) -> Self {
        if self.insert_ok(n) {
            self.with_node(n, v)
        } else {
            self
        }
    }

    /// What `delete` reports: success exactly when the node exists.
    pub open spec fn delete_ok(self, n: KV) -> bool {
        self.has_node(n)
    }

    /// The state after `delete(n)`: the node is gone and so is every
    /// link that touched it, on either side. Unchanged if `n` is absent.
    pub open spec fn after_delete(self, n: KV) -> Self {
        GraphModel {
            nodes: self.nodes.remove(n),
            links: self.links.filter(|p: (KV, KV)| p.0 != n && p.1 != n),
        }
    }

    /// What `link` reports: the absent-result signal when either
    /// endpoint is missing, otherwise whether the link is new.
    pub open spec fn link_answer(self, s: KV, t: KV) -> Option<bool> {
        if self.has_node(s) && self.has_node(t) {
            Some(!self.links.contains((s, t)))
        } else {
            None
        }
    }

    /// The state after `link(s, t)`: the pair joins the link set when
    /// both endpoints exist (idempotently), otherwise nothing changes.
    pub open spec fn after_link(self, s: KV, t: KV) -> Self {
        if self.has_node(s) && self.has_node(t) {
            GraphModel { nodes: self.nodes, links: self.links.insert((s, t)) }
        } else {
            self
        }
    }

    /// What `unlink` reports: the absent-result signal when either
    /// endpoint is missing, otherwise whether the link was present.
    pub open spec fn unlink_answer(self, s: KV, t: KV) -> Option<bool> {
        if self.has_node(s) && self.has_node(t) {
            Some(self.links.contains((s, t)))
        } else {
            None
        }
    }

    /// The state after `unlink(s, t)`.
    pub open spec fn after_unlink(self, s: KV, t: KV) -> Self {
        if self.has_node(s) && self.has_node(t) {
            GraphModel { nodes: self.nodes, links: self.links.remove((s, t)) }
        } else {
            self
        }
    }

    /// The nodes reachable from `s` by one outgoing link.
    pub open spec fn targets_of(self, s: KV) -> Set<KV> {
        Set::new(|t: KV| self.links.contains((s, t)))
    }

    /// The nodes from which `t` is reachable by one incoming link.
    pub open spec fn sources_of(self, t: KV) -> Set<KV> {
        Set::new(|s: KV| self.links.contains((s, t)))
    }

    /// Boolean-mode evaluation of a query. The absent-result signal is
    /// returned whenever a referenced identifier is not in the node
    /// table; a bare node query never signals absence — it reports it.
    pub open spec fn existence_answer(self, q: QueryView<KV>) -> Option<bool> {
        match q {
            QueryView::LinkSourceTarget(s, t) => if self.has_node(s) && self.has_node(t) {
                Some(self.links.contains((s, t)))
            } else {
                None
            },
            QueryView::Node(n) => Some(self.has_node(n)),
            QueryView::LinkSource(s) => if self.has_node(s) {
                Some(exists|t: KV| self.links.contains((s, t)))
            } else {
                None
            },
            QueryView::LinkTarget(t) => if self.has_node(t) {
                Some(exists|s: KV| self.links.contains((s, t)))
            } else {
                None
            },
        }
    }

    /// Set-mode evaluation of a query: the adjacency set for a
    /// single-endpoint query on an existing node (empty when the node
    /// has no links in that direction — that is not an error), an
    /// unknown-identifier error for an absent node, and an
    /// unsupported-query error for the other two shapes.
    pub open spec fn set_answer(self, q: QueryView<KV>) -> Result<Set<KV>, GraphErrorView<KV>> {
        match q {
            QueryView::LinkSource(s) => if self.has_node(s) {
                Ok(self.targets_of(s))
            } else {
                Err(GraphErrorView::UnknownNode(s))
            },
            QueryView::LinkTarget(t) => if self.has_node(t) {
                Ok(self.sources_of(t))
            } else {
                Err(GraphErrorView::UnknownNode(t))
            },
            _ => Err(GraphErrorView::UnsupportedQuery(q)),
        }
    }
}

} // verus!
