use vstd::prelude::*;

use crate::model::GraphModel;
use crate::query::{GraphError, GraphErrorView, GraphQuery, Query, QueryView};
use crate::value::{Value, ValueView};

verus! {

/// The two directions in which the adjacency index is kept: an entry
/// keyed `(Source, n)` lists the targets of links leaving `n`, one
/// keyed `(Target, n)` lists the sources of links arriving at `n`.
#[derive(Debug, Clone, Copy, PartialEq, Eq, Hash, Structural)]
pub enum Endpoint {
    Source,
    Target,
}

/// The capability an identifier type must offer to serve as a node
/// key: an equality test and a copy, each agreeing with the type's
/// mathematical view. A single graph fixes one key type for its
/// lifetime.
pub trait NodeKey: View + Sized {
    /// Equality of identifiers, decided by their views.
    fn key_eq(&self, other: &Self) -> (b: bool)
        ensures
            b == (self@ == other@),
    ;

    /// A copy denoting the same view.
    fn key_clone(&self) -> (r: Self)
        ensures
            r@ == self@,
    ;
}

impl NodeKey for String {
    fn key_eq(&self, other: &Self) -> (b: bool) {
        <String as PartialEq>::eq(self, other)
    }

    fn key_clone(&self) -> (r: Self) {
        self.clone()
    }
}

impl NodeKey for u64 {
    fn key_eq(&self, other: &Self) -> (b: bool) {
        *self == *other
    }

    fn key_clone(&self) -> (r: Self) {
        *self
    }
}

/// The derived adjacency index: for each `(direction, node)` key, the
/// set of nodes reachable by one link in that direction.
pub type LinkIndex<K> = Vec<((Endpoint, K), Vec<K>)>;

/// The set of identifier views that a list of identifiers denotes.
pub open spec fn key_set<K: NodeKey>(list: Seq<K>) -> Set<K::V> {
    Set::new(|o: K::V| exists|j: int| 0 <= j < list.len() && list[j]@ == o)
}

/// A directed-link graph: a node table mapping identifiers to payloads,
/// a link set of ordered identifier pairs, and the derived adjacency
/// index. The index is cached, redundant state; [`Graph::wf`] pins it
/// to the link set exactly, and every mutation maintains that.
pub struct Graph<K: NodeKey> {
    nodes: Vec<(K, Value)>,
    links: Vec<(K, K)>,
    link_index: LinkIndex<K>,
}

impl<K: NodeKey> Graph<K> {
    /// Whether some entry of a node table carries the identifier view `k`.
    pub open spec fn nodes_has(nodes: Seq<(K, Value)>, k: K::V) -> bool {
        exists|i: int| 0 <= i < nodes.len() && nodes[i].0@ == k
    }

    /// The position of the entry carrying `k`.
    spec fn nodes_pos(nodes: Seq<(K, Value)>, k: K::V) -> int {
        choose|i: int| 0 <= i < nodes.len() && nodes[i].0@ == k
    }

    /// The payload view stored under `k`.
    spec fn nodes_val(nodes: Seq<(K, Value)>, k: K::V) -> ValueView {
        nodes[Self::nodes_pos(nodes, k)].1@
    }

    /// Identifiers of a node table are unique.
    spec fn nodes_uniq(nodes: Seq<(K, Value)>) -> bool {
        forall|i: int, j: int| 0 <= i < j < nodes.len() ==> nodes[i].0@ != nodes[j].0@
    }

    /// Whether a link list holds the pair `(s, t)`.
    spec fn pairs_has(links: Seq<(K, K)>, s: K::V, t: K::V) -> bool {
        exists|i: int| 0 <= i < links.len() && links[i].0@ == s && links[i].1@ == t
    }

    /// A link list holds no duplicate pair.
    spec fn pairs_uniq(links: Seq<(K, K)>) -> bool {
        forall|i: int, j: int|
            0 <= i < j < links.len() ==> !(links[i].0@ == links[j].0@ && links[i].1@
                == links[j].1@)
    }

    /// Every link of the list connects two nodes of the table.
    spec fn pairs_valid(nodes: Seq<(K, Value)>, links: Seq<(K, K)>) -> bool {
        forall|i: int|
            0 <= i < links.len() ==> Self::nodes_has(nodes, #[trigger] links[i].0@)
                && Self::nodes_has(nodes, links[i].1@)
    }

    /// The key of the index entry at position `i`, over views.
    spec fn index_key(index: Seq<((Endpoint, K), Vec<K>)>, i: int) -> (Endpoint, K::V) {
        (index[i].0.0, index[i].0.1@)
    }

    /// Whether an index records `o` as adjacent to `k` in direction `d`.
    spec fn index_has(index: Seq<((Endpoint, K), Vec<K>)>, d: Endpoint, k: K::V, o: K::V) -> bool {
        exists|i: int, j: int|
            0 <= i < index.len() && Self::index_key(index, i) == (d, k) && 0 <= j
                < index[i].1@.len() && index[i].1@[j]@ == o
    }

    /// Index entry keys are unique.
    spec fn index_keys_uniq(index: Seq<((Endpoint, K), Vec<K>)>) -> bool {
        forall|i: int, j: int|
            0 <= i < j < index.len() ==> Self::index_key(index, i) != Self::index_key(index, j)
    }

    /// No index entry lists the same neighbour twice.
    spec fn index_entries_uniq(index: Seq<((Endpoint, K), Vec<K>)>) -> bool {
        forall|i: int, j1: int, j2: int|
            0 <= i < index.len() && 0 <= j1 < j2 < index[i].1@.len() ==> index[i].1@[j1]@
                != index[i].1@[j2]@
    }

    /// The synchronisation invariant between a link list and an
    /// adjacency index: a pair `(s, t)` is linked exactly when the
    /// index lists `t` under `(Source, s)`, and exactly when it lists
    /// `s` under `(Target, t)`.
    spec fn index_sync(links: Seq<(K, K)>, index: Seq<((Endpoint, K), Vec<K>)>) -> bool {
        &&& forall|s: K::V, t: K::V|
            #![trigger Self::index_has(index, Endpoint::Source, s, t)]
            Self::pairs_has(links, s, t) <==> Self::index_has(index, Endpoint::Source, s, t)
        &&& forall|s: K::V, t: K::V|
            #![trigger Self::index_has(index, Endpoint::Target, t, s)]
            #![trigger Self::pairs_has(links, s, t)]
            Self::pairs_has(links, s, t) <==> Self::index_has(index, Endpoint::Target, t, s)
    }

    /// Whether some node entry carries the identifier view `k`.
    spec fn has_node(self, k: K::V) -> bool {
        Self::nodes_has(self.nodes@, k)
    }

    /// The payload view stored for `k`.
    spec fn node_value(self, k: K::V) -> ValueView {
        Self::nodes_val(self.nodes@, k)
    }

    /// Whether the link set holds the pair `(s, t)`.
    spec fn links_has(self, s: K::V, t: K::V) -> bool {
        Self::pairs_has(self.links@, s, t)
    }

    /// Whether the index records `o` as adjacent to `k` in direction `d`.
    spec fn idx_has(self, d: Endpoint, k: K::V, o: K::V) -> bool {
        Self::index_has(self.link_index@, d, k, o)
    }

    /// Well-formedness: unique node identifiers, a duplicate-free link
    /// set between existing nodes, and a duplicate-free adjacency index
    /// in exact sync with the link set.
    pub closed spec fn wf(self) -> bool {
        &&& Self::nodes_uniq(self.nodes@)
        &&& Self::pairs_uniq(self.links@)
        &&& Self::pairs_valid(self.nodes@, self.links@)
        &&& Self::index_keys_uniq(self.link_index@)
        &&& Self::index_entries_uniq(self.link_index@)
        &&& Self::index_sync(self.links@, self.link_index@)
    }

    /// The graph's reference state: its node table and link set, over
    /// identifier views.
    pub closed spec fn model(self) -> GraphModel<K::V> {
        GraphModel {
            nodes: Map::new(
                |k: K::V| Self::nodes_has(self.nodes@, k),
                |k: K::V| Self::nodes_val(self.nodes@, k),
            ),
            links: Set::new(|p: (K::V, K::V)| Self::pairs_has(self.links@, p.0, p.1)),
        }
    }

    /// A well-formed graph never holds a link whose source or target
    /// is absent from the node table: its model keeps the link
    /// invariant of the data model.
    pub proof fn lemma_model_wf(self)
        requires
            self.wf(),
        ensures
            self.model().wf(),
    {
        assert forall|p: (K::V, K::V)| self.model().links.contains(p) implies self.model(
        ).nodes.contains_key(p.0) && self.model().nodes.contains_key(p.1) by {
            let wi = choose|wi: int|
                0 <= wi < self.links@.len() && self.links@[wi].0@ == p.0 && self.links@[wi].1@
                    == p.1;
            assert(Self::nodes_has(self.nodes@, self.links@[wi].0@));
            assert(Self::nodes_has(self.nodes@, self.links@[wi].1@));
        }
    }

    /// With unique identifiers, the payload of `k` is the one stored at
    /// any entry carrying `k`.
    proof fn lemma_nodes_val_at(nodes: Seq<(K, Value)>, k: K::V, i: int)
        requires
            Self::nodes_uniq(nodes),
            0 <= i < nodes.len(),
            nodes[i].0@ == k,
        ensures
            Self::nodes_has(nodes, k),
            Self::nodes_pos(nodes, k) == i,
            Self::nodes_val(nodes, k) == nodes[i].1@,
    {
        assert(Self::nodes_has(nodes, k));
        let j = Self::nodes_pos(nodes, k);
        assert(0 <= j < nodes.len() && nodes[j].0@ == k);
        if i < j {
            assert(nodes[i].0@ != nodes[j].0@);
        } else if j < i {
            assert(nodes[j].0@ != nodes[i].0@);
        }
    }

    /// An empty graph: no nodes, no links, no index entries.
    pub fn new() -> (g: Graph<K>)
        ensures
            g.wf(),
            g.model() == GraphModel::<K::V>::empty(),
    {
        let g = Graph { nodes: Vec::new(), links: Vec::new(), link_index: Vec::new() };
        proof {
            assert(g.model().nodes =~= GraphModel::<K::V>::empty().nodes);
            assert(g.model().links =~= GraphModel::<K::V>::empty().links);
            assert(g.model() =~= GraphModel::<K::V>::empty());
        }
        g
    }

    /// The position of the node entry carrying `key`, if any.
    fn find_node(&self, key: &K) -> (r: Option<usize>)
        ensures
            match r {
                Some(i) => i < self.nodes@.len() && self.nodes@[i as int].0@ == key@,
                None => !self.has_node(key@),
            },
    {
        let mut i: usize = 0;
        while i < self.nodes.len()
            invariant
                i <= self.nodes@.len(),
                forall|j: int| 0 <= j < i ==> self.nodes@[j].0@ != key@,
            decreases self.nodes@.len() - i,
        {
            if self.nodes[i].0.key_eq(key) {
                return Some(i);
            }
            i = i + 1;
        }
        None
    }

    /// Whether `key` names an existing node.
    fn contains_node(&self, key: &K) -> (b: bool)
        ensures
            b == self.has_node(key@),
    {
        match self.find_node(key) {
            Some(i) => {
                proof {
                    assert(self.nodes@[i as int].0@ == key@);
                }
                true
            },
            None => false,
        }
    }

    /// Adds a node. Fails — reporting `false`, mutating nothing — when
    /// the identifier is already present; otherwise stores the payload
    /// under it and reports `true`. Links and index are untouched.
    pub fn insert(&mut self, name: K, value: Value) -> (r: bool)
        requires
            old(self).wf(),
        ensures
            final(self).wf(),
            r == old(self).model().insert_ok(name@),
            final(self).model() == old(self).model().after_insert(name@, value@),
    {
        if self.contains_node(&name) {
            return false;
        }
        proof {
            assert forall|i: int| 0 <= i < self.nodes@.len() implies self.nodes@[i].0@ != name@ by {
                if self.nodes@[i].0@ == name@ {
                    assert(self.has_node(name@));
                }
            }
        }
        let ghost pre = *self;
        let ghost value_view = value@;
        self.nodes.push((name, value));
        proof {
            let post = *self;
            let n = pre.nodes@.len() as int;
            assert(post.nodes@ == pre.nodes@.push((name, value)));
            // Old entries are still present; the new identifier is too.
            assert forall|k2: K::V| Self::nodes_has(pre.nodes@, k2) implies Self::nodes_has(
                post.nodes@,
                k2,
            ) by {
                let i = choose|i: int| 0 <= i < pre.nodes@.len() && pre.nodes@[i].0@ == k2;
                assert(post.nodes@[i].0@ == k2);
            }
            assert(post.nodes@[n].0@ == name@);
            assert(Self::nodes_has(post.nodes@, name@));
            assert forall|k2: K::V| Self::nodes_has(post.nodes@, k2) implies Self::nodes_has(
                pre.nodes@,
                k2,
            ) || k2 == name@ by {
                let i = choose|i: int| 0 <= i < post.nodes@.len() && post.nodes@[i].0@ == k2;
                if i < n {
                    assert(pre.nodes@[i].0@ == k2);
                }
            }
            assert(Self::nodes_uniq(post.nodes@));
            assert(post.wf());
            // The model gained exactly one node entry.
            let target = pre.model().after_insert(name@, value_view);
            assert forall|k2: K::V| #[trigger] post.model().nodes.contains_key(k2) implies
                post.model().nodes[k2] == target.nodes[k2] by {
                if k2 == name@ {
                    Self::lemma_nodes_val_at(post.nodes@, k2, n);
                } else {
                    let i = choose|i: int| 0 <= i < pre.nodes@.len() && pre.nodes@[i].0@ == k2;
                    Self::lemma_nodes_val_at(pre.nodes@, k2, i);
                    Self::lemma_nodes_val_at(post.nodes@, k2, i);
                }
            }
            assert(post.model().nodes =~= target.nodes);
            assert(post.model().links =~= target.links);
            assert(post.model() =~= target);
        }
        true
    }

    /// The position of the link entry `(source, target)`, if any.
    fn find_link(&self, source: &K, target: &K) -> (r: Option<usize>)
        ensures
            match r {
                Some(i) => i < self.links@.len() && self.links@[i as int].0@ == source@
                    && self.links@[i as int].1@ == target@,
                None => !self.links_has(source@, target@),
            },
    {
        let mut i: usize = 0;
        while i < self.links.len()
            invariant
                i <= self.links@.len(),
                forall|j: int|
                    0 <= j < i ==> !(self.links@[j].0@ == source@ && self.links@[j].1@
                        == target@),
            decreases self.links@.len() - i,
        {
            if self.links[i].0.key_eq(source) && self.links[i].1.key_eq(target) {
                return Some(i);
            }
            i = i + 1;
        }
        None
    }

    /// The position of the index entry keyed `(d, key)`, if any.
    fn find_index_entry(&self, d: Endpoint, key: &K) -> (r: Option<usize>)
        ensures
            match r {
                Some(i) => i < self.link_index@.len() && Self::index_key(
                    self.link_index@,
                    i as int,
                ) == (d, key@),
                None => forall|i: int|
                    0 <= i < self.link_index@.len() ==> Self::index_key(self.link_index@, i) != (
                    d,
                    key@,
                    ),
            },
    {
        let mut i: usize = 0;
        while i < self.link_index.len()
            invariant
                i <= self.link_index@.len(),
                forall|j: int|
                    0 <= j < i ==> Self::index_key(self.link_index@, j) != (d, key@),
            decreases self.link_index@.len() - i,
        {
            let entry = &self.link_index[i];
            if entry.0.0 == d && entry.0.1.key_eq(key) {
                return Some(i);
            }
            i = i + 1;
        }
        None
    }

    /// The position of `key` in a list of identifiers, if any.
    fn find_key_pos(list: &Vec<K>, key: &K) -> (r: Option<usize>)
        ensures
            match r {
                Some(j) => j < list@.len() && list@[j as int]@ == key@,
                None => forall|j: int| 0 <= j < list@.len() ==> list@[j]@ != key@,
            },
    {
        let mut j: usize = 0;
        while j < list.len()
            invariant
                j <= list@.len(),
                forall|j2: int| 0 <= j2 < j ==> list@[j2]@ != key@,
            decreases list@.len() - j,
        {
            if list[j].key_eq(key) {
                return Some(j);
            }
            j = j + 1;
        }
        None
    }

    /// Records `other` as adjacent to `key` in direction `d`. The pair
    /// must not be recorded yet; everything else is left as it is.
    fn index_add(&mut self, d: Endpoint, key: &K, other: &K)
        requires
            Self::index_keys_uniq(old(self).link_index@),
            Self::index_entries_uniq(old(self).link_index@),
            !Self::index_has(old(self).link_index@, d, key@, other@),
        ensures
            final(self).nodes == old(self).nodes,
            final(self).links == old(self).links,
            Self::index_keys_uniq(final(self).link_index@),
            Self::index_entries_uniq(final(self).link_index@),
            forall|d2: Endpoint, k2: K::V, o2: K::V|
                Self::index_has(final(self).link_index@, d2, k2, o2) <==> (Self::index_has(
                    old(self).link_index@,
                    d2,
                    k2,
                    o2,
                ) || (d2 == d && k2 == key@ && o2 == other@)),
    {
        let ghost pre = self.link_index@;
        match self.find_index_entry(d, key) {
            Some(i) => {
                let ghost ii = i as int;
                let mut entry = self.link_index.remove(i);
                entry.1.push(other.key_clone());
                self.link_index.insert(i, entry);
                proof {
                    let post = self.link_index@;
                    let e = post[ii];
                    assert(post =~= pre.update(ii, e));
                    assert(e.0 == pre[ii].0);
                    assert(e.1@ == pre[ii].1@.push(e.1@.last()));
                    assert(e.1@.last()@ == other@);
                    let m = pre[ii].1@.len() as int;
                    // `other` was not yet listed under this key.
                    assert forall|jj: int| 0 <= jj < m implies pre[ii].1@[jj]@ != other@ by {
                        if pre[ii].1@[jj]@ == other@ {
                            assert(Self::index_has(pre, d, key@, other@));
                        }
                    }
                    assert forall|j: int|
                        0 <= j < post.len() implies Self::index_key(post, j) == Self::index_key(
                        pre,
                        j,
                    ) by {}
                    assert(Self::index_keys_uniq(post));
                    assert(Self::index_entries_uniq(post));
                    assert forall|d2: Endpoint, k2: K::V, o2: K::V|
                        Self::index_has(post, d2, k2, o2) <==> (Self::index_has(pre, d2, k2, o2)
                            || (d2 == d && k2 == key@ && o2 == other@)) by {
                        if Self::index_has(post, d2, k2, o2) {
                            let (ci, cj): (int, int) = choose|ci: int, cj: int|
                                0 <= ci < post.len() && Self::index_key(post, ci) == (d2, k2)
                                    && 0 <= cj < post[ci].1@.len() && post[ci].1@[cj]@ == o2;
                            if ci != ii {
                                assert(post[ci] == pre[ci]);
                                assert(Self::index_has(pre, d2, k2, o2));
                            } else {
                                assert((d2, k2) == (d, key@));
                                if cj < m {
                                    assert(pre[ii].1@[cj]@ == o2);
                                    assert(Self::index_has(pre, d2, k2, o2));
                                } else {
                                    assert(o2 == other@);
                                }
                            }
                        }
                        if Self::index_has(pre, d2, k2, o2) {
                            let (ai, aj): (int, int) = choose|ai: int, aj: int|
                                0 <= ai < pre.len() && Self::index_key(pre, ai) == (d2, k2) && 0
                                    <= aj < pre[ai].1@.len() && pre[ai].1@[aj]@ == o2;
                            if ai != ii {
                                assert(post[ai] == pre[ai]);
                                assert(Self::index_has(post, d2, k2, o2));
                            } else {
                                assert(post[ii].1@[aj]@ == o2);
                                assert(Self::index_has(post, d2, k2, o2));
                            }
                        }
                        if d2 == d && k2 == key@ && o2 == other@ {
                            assert(post[ii].1@[m]@ == other@);
                            assert(Self::index_has(post, d2, k2, o2));
                        }
                    }
                }
            },
            None => {
                let mut neighbours: Vec<K> = Vec::new();
                neighbours.push(other.key_clone());
                self.link_index.push(((d, key.key_clone()), neighbours));
                proof {
                    let post = self.link_index@;
                    let n = pre.len() as int;
                    assert(post == pre.push(post[n]));
                    assert(Self::index_key(post, n) == (d, key@));
                    assert(post[n].1@.len() == 1 && post[n].1@[0]@ == other@);
                    assert forall|j: int|
                        0 <= j < n implies Self::index_key(post, j) == Self::index_key(pre, j)
                        && post[j] == pre[j] by {}
                    assert(Self::index_keys_uniq(post));
                    assert(Self::index_entries_uniq(post));
                    assert forall|d2: Endpoint, k2: K::V, o2: K::V|
                        Self::index_has(post, d2, k2, o2) <==> (Self::index_has(pre, d2, k2, o2)
                            || (d2 == d && k2 == key@ && o2 == other@)) by {
                        if Self::index_has(post, d2, k2, o2) {
                            let (ci, cj): (int, int) = choose|ci: int, cj: int|
                                0 <= ci < post.len() && Self::index_key(post, ci) == (d2, k2)
                                    && 0 <= cj < post[ci].1@.len() && post[ci].1@[cj]@ == o2;
                            if ci < n {
                                assert(Self::index_has(pre, d2, k2, o2));
                            } else {
                                assert((d2, k2) == (d, key@) && o2 == other@);
                            }
                        }
                        if Self::index_has(pre, d2, k2, o2) {
                            let (ai, aj): (int, int) = choose|ai: int, aj: int|
                                0 <= ai < pre.len() && Self::index_key(pre, ai) == (d2, k2) && 0
                                    <= aj < pre[ai].1@.len() && pre[ai].1@[aj]@ == o2;
                            assert(post[ai] == pre[ai]);
                            assert(Self::index_has(post, d2, k2, o2));
                        }
                        if d2 == d && k2 == key@ && o2 == other@ {
                            assert(Self::index_has(post, d2, k2, o2));
                        }
                    }
                }
            },
        }
    }

    /// Forgets `other` as adjacent to `key` in direction `d`. The pair
    /// must currently be recorded; the entry itself stays, possibly
    /// empty, and everything else is left as it is.
    fn index_remove(&mut self, d: Endpoint, key: &K, other: &K)
        requires
            Self::index_keys_uniq(old(self).link_index@),
            Self::index_entries_uniq(old(self).link_index@),
            Self::index_has(old(self).link_index@, d, key@, other@),
        ensures
            final(self).nodes == old(self).nodes,
            final(self).links == old(self).links,
            Self::index_keys_uniq(final(self).link_index@),
            Self::index_entries_uniq(final(self).link_index@),
            forall|d2: Endpoint, k2: K::V, o2: K::V|
                Self::index_has(final(self).link_index@, d2, k2, o2) <==> (Self::index_has(
                    old(self).link_index@,
                    d2,
                    k2,
                    o2,
                ) && !(d2 == d && k2 == key@ && o2 == other@)),
    {
        let ghost pre = self.link_index@;
        let i = match self.find_index_entry(d, key) {
            Some(i) => i,
            None => {
                proof {
                    let (wi, wj): (int, int) = choose|wi: int, wj: int|
                        0 <= wi < pre.len() && Self::index_key(pre, wi) == (d, key@) && 0 <= wj
                            < pre[wi].1@.len() && pre[wi].1@[wj]@ == other@;
                    assert(Self::index_key(pre, wi) != (d, key@));
                }
                0
            },
        };
        let ghost ii = i as int;
        proof {
            // The witness entry is this entry: keys are unique.
            let (wi, wj): (int, int) = choose|wi: int, wj: int|
                0 <= wi < pre.len() && Self::index_key(pre, wi) == (d, key@) && 0 <= wj
                    < pre[wi].1@.len() && pre[wi].1@[wj]@ == other@;
            if wi != ii {
                if wi < ii {
                    assert(Self::index_key(pre, wi) != Self::index_key(pre, ii));
                } else {
                    assert(Self::index_key(pre, ii) != Self::index_key(pre, wi));
                }
            }
            assert(exists|j: int| 0 <= j < pre[ii].1@.len() && pre[ii].1@[j]@ == other@);
        }
        let mut entry = self.link_index.remove(i);
        let j = match Self::find_key_pos(&entry.1, other) {
            Some(j) => j,
            None => {
                proof {
                    let wj = choose|wj: int|
                        0 <= wj < pre[ii].1@.len() && pre[ii].1@[wj]@ == other@;
                    assert(entry.1@[wj]@ != other@);
                }
                0
            },
        };
        let ghost jj = j as int;
        entry.1.remove(j);
        self.link_index.insert(i, entry);
        proof {
            let post = self.link_index@;
            let e = post[ii];
            assert(post =~= pre.update(ii, e));
            assert(e.0 == pre[ii].0);
            assert(e.1@ == pre[ii].1@.remove(jj));
            assert(pre[ii].1@[jj]@ == other@);
            let m = pre[ii].1@.len() as int;
            // Each remaining neighbour is an old one, shifted past `jj`.
            assert forall|j2: int|
                0 <= j2 < e.1@.len() implies e.1@[j2] == (if j2 < jj {
                pre[ii].1@[j2]
            } else {
                pre[ii].1@[j2 + 1]
            }) by {}
            // `other` appeared only at `jj`: entries are duplicate-free.
            assert forall|j2: int| 0 <= j2 < m && j2 != jj implies pre[ii].1@[j2]@ != other@ by {
                if j2 < jj {
                    assert(pre[ii].1@[j2]@ != pre[ii].1@[jj]@);
                } else {
                    assert(pre[ii].1@[jj]@ != pre[ii].1@[j2]@);
                }
            }
            assert forall|j2: int|
                0 <= j2 < post.len() implies Self::index_key(post, j2) == Self::index_key(
                pre,
                j2,
            ) by {}
            assert(Self::index_keys_uniq(post));
            assert(Self::index_entries_uniq(post));
            assert forall|d2: Endpoint, k2: K::V, o2: K::V|
                Self::index_has(post, d2, k2, o2) <==> (Self::index_has(pre, d2, k2, o2) && !(d2
                    == d && k2 == key@ && o2 == other@)) by {
                if Self::index_has(post, d2, k2, o2) {
                    let (ci, cj): (int, int) = choose|ci: int, cj: int|
                        0 <= ci < post.len() && Self::index_key(post, ci) == (d2, k2) && 0 <= cj
                            < post[ci].1@.len() && post[ci].1@[cj]@ == o2;
                    if ci != ii {
                        assert(post[ci] == pre[ci]);
                        assert(Self::index_has(pre, d2, k2, o2));
                        if d2 == d && k2 == key@ && o2 == other@ {
                            if ci < ii {
                                assert(Self::index_key(pre, ci) != Self::index_key(pre, ii));
                            } else {
                                assert(Self::index_key(pre, ii) != Self::index_key(pre, ci));
                            }
                        }
                    } else {
                        let oj: int = if cj < jj {
                            cj
                        } else {
                            cj + 1
                        };
                        assert(pre[ii].1@[oj]@ == o2);
                        assert(Self::index_has(pre, d2, k2, o2));
                        if d2 == d && k2 == key@ && o2 == other@ {
                            assert(oj != jj);
                            assert(pre[ii].1@[oj]@ != other@);
                        }
                    }
                }
                if Self::index_has(pre, d2, k2, o2) && !(d2 == d && k2 == key@ && o2 == other@) {
                    let (ai, aj): (int, int) = choose|ai: int, aj: int|
                        0 <= ai < pre.len() && Self::index_key(pre, ai) == (d2, k2) && 0 <= aj
                            < pre[ai].1@.len() && pre[ai].1@[aj]@ == o2;
                    if ai != ii {
                        assert(post[ai] == pre[ai]);
                        assert(Self::index_has(post, d2, k2, o2));
                    } else {
                        assert((d2, k2) == (d, key@));
                        assert(o2 != other@);
                        assert(aj != jj);
                        if aj < jj {
                            assert(e.1@[aj]@ == o2);
                            assert(Self::index_has(post, d2, k2, o2));
                        } else {
                            assert(e.1@[aj - 1]@ == o2);
                            assert(Self::index_has(post, d2, k2, o2));
                        }
                    }
                }
            }
        }
    }

    /// Creates the directed link `(source, target)`. Reports the
    /// absent-result signal — mutating nothing — when either endpoint
    /// is missing from the node table; otherwise the pair joins the
    /// link set and the index, idempotently: `Some(true)` for a new
    /// link, `Some(false)` for one already present.
    pub fn link(&mut self, source: &K, target: &K) -> (r: Option<bool>)
        requires
            old(self).wf(),
        ensures
            final(self).wf(),
            r == old(self).model().link_answer(source@, target@),
            final(self).model() == old(self).model().after_link(source@, target@),
    {
        if !(self.contains_node(source) && self.contains_node(target)) {
            return None;
        }
        match self.find_link(source, target) {
            Some(i) => {
                proof {
                    assert(self.links@[i as int].0@ == source@);
                    assert(self.links_has(source@, target@));
                    assert(self.model().links.contains((source@, target@)));
                    let target_model = self.model().after_link(source@, target@);
                    assert(target_model.links =~= self.model().links);
                    assert(target_model =~= self.model());
                }
                Some(false)
            },
            None => {
                let ghost pre = *self;
                proof {
                    assert(!Self::index_has(pre.link_index@, Endpoint::Source, source@, target@));
                    assert(!Self::index_has(pre.link_index@, Endpoint::Target, target@, source@));
                }
                self.index_add(Endpoint::Source, source, target);
                proof {
                    assert(!Self::index_has(self.link_index@, Endpoint::Target, target@, source@));
                }
                self.index_add(Endpoint::Target, target, source);
                self.links.push((source.key_clone(), target.key_clone()));
                proof {
                    let post = *self;
                    let n = pre.links@.len() as int;
                    assert(post.nodes@ == pre.nodes@);
                    assert(post.links@[n].0@ == source@ && post.links@[n].1@ == target@);
                    // The link set gained exactly the pair `(source, target)`.
                    assert forall|s2: K::V, t2: K::V|
                        Self::pairs_has(post.links@, s2, t2) <==> (Self::pairs_has(
                            pre.links@,
                            s2,
                            t2,
                        ) || (s2 == source@ && t2 == target@)) by {
                        if Self::pairs_has(post.links@, s2, t2) {
                            let ci = choose|ci: int|
                                0 <= ci < post.links@.len() && post.links@[ci].0@ == s2
                                    && post.links@[ci].1@ == t2;
                            if ci < n {
                                assert(pre.links@[ci] == post.links@[ci]);
                                assert(Self::pairs_has(pre.links@, s2, t2));
                            }
                        }
                        if Self::pairs_has(pre.links@, s2, t2) {
                            let ai = choose|ai: int|
                                0 <= ai < pre.links@.len() && pre.links@[ai].0@ == s2
                                    && pre.links@[ai].1@ == t2;
                            assert(post.links@[ai] == pre.links@[ai]);
                            assert(Self::pairs_has(post.links@, s2, t2));
                        }
                        if s2 == source@ && t2 == target@ {
                            assert(Self::pairs_has(post.links@, s2, t2));
                        }
                    }
                    // No duplicate was created: the pair was absent.
                    assert forall|i2: int, j2: int|
                        0 <= i2 < j2 < post.links@.len() implies !(post.links@[i2].0@
                        == post.links@[j2].0@ && post.links@[i2].1@ == post.links@[j2].1@) by {
                        if j2 < n {
                            assert(pre.links@[i2] == post.links@[i2]);
                            assert(pre.links@[j2] == post.links@[j2]);
                        } else {
                            assert(pre.links@[i2] == post.links@[i2]);
                            if post.links@[i2].0@ == source@ && post.links@[i2].1@ == target@ {
                                assert(Self::pairs_has(pre.links@, source@, target@));
                            }
                        }
                    }
                    assert(Self::pairs_uniq(post.links@));
                    // Every link still connects existing nodes.
                    assert forall|i2: int|
                        0 <= i2 < post.links@.len() implies Self::nodes_has(
                        post.nodes@,
                        #[trigger] post.links@[i2].0@,
                    ) && Self::nodes_has(post.nodes@, post.links@[i2].1@) by {
                        if i2 < n {
                            assert(pre.links@[i2] == post.links@[i2]);
                        } else {
                            assert(pre.has_node(source@) && pre.has_node(target@));
                            assert(Self::nodes_has(post.nodes@, source@));
                            assert(Self::nodes_has(post.nodes@, target@));
                        }
                    }
                    // The index is in sync again: it gained exactly the
                    // two records for the new pair.
                    assert forall|s2: K::V, t2: K::V|
                        Self::pairs_has(post.links@, s2, t2) <==> #[trigger] Self::index_has(
                            post.link_index@,
                            Endpoint::Source,
                            s2,
                            t2,
                        ) by {}
                    assert forall|s2: K::V, t2: K::V|
                        #![trigger Self::index_has(post.link_index@, Endpoint::Target, t2, s2)]
                        #![trigger Self::pairs_has(post.links@, s2, t2)]
                        Self::pairs_has(post.links@, s2, t2) <==> Self::index_has(
                            post.link_index@,
                            Endpoint::Target,
                            t2,
                            s2,
                        ) by {}
                    assert(Self::index_sync(post.links@, post.link_index@));
                    assert(post.wf());
                    // The model gained exactly one link.
                    let target_model = pre.model().after_link(source@, target@);
                    assert(post.model().nodes =~= target_model.nodes);
                    assert(post.model().links =~= target_model.links);
                    assert(post.model() =~= target_model);
                }
                Some(true)
            },
        }
    }

    /// Removes the directed link `(source, target)`. Reports the
    /// absent-result signal — mutating nothing — when either endpoint
    /// is missing; otherwise removes the pair from the link set and
    /// both of its index records, reporting whether it was present.
    pub fn unlink(&mut self, source: &K, target: &K) -> (r: Option<bool>)
        requires
            old(self).wf(),
        ensures
            final(self).wf(),
            r == old(self).model().unlink_answer(source@, target@),
            final(self).model() == old(self).model().after_unlink(source@, target@),
    {
        if !(self.contains_node(source) && self.contains_node(target)) {
            return None;
        }
        match self.find_link(source, target) {
            None => {
                proof {
                    let target_model = self.model().after_unlink(source@, target@);
                    assert(target_model.links =~= self.model().links);
                    assert(target_model =~= self.model());
                }
                Some(false)
            },
            Some(i) => {
                let ghost pre = *self;
                let ghost ii = i as int;
                proof {
                    assert(Self::pairs_has(pre.links@, source@, target@));
                    assert(Self::index_has(pre.link_index@, Endpoint::Source, source@, target@));
                    assert(Self::index_has(pre.link_index@, Endpoint::Target, target@, source@));
                }
                self.links.remove(i);
                self.index_remove(Endpoint::Source, source, target);
                proof {
                    assert(Self::index_has(self.link_index@, Endpoint::Target, target@, source@));
                }
                self.index_remove(Endpoint::Target, target, source);
                proof {
                    let post = *self;
                    let n = pre.links@.len() as int;
                    assert(post.nodes@ == pre.nodes@);
                    assert(post.links@ == pre.links@.remove(ii));
                    // The link set lost exactly the pair: identifiers
                    // are unique in it, so position `ii` was the only
                    // occurrence.
                    assert forall|s2: K::V, t2: K::V|
                        Self::pairs_has(post.links@, s2, t2) <==> (Self::pairs_has(
                            pre.links@,
                            s2,
                            t2,
                        ) && !(s2 == source@ && t2 == target@)) by {
                        if Self::pairs_has(post.links@, s2, t2) {
                            let ci = choose|ci: int|
                                0 <= ci < post.links@.len() && post.links@[ci].0@ == s2
                                    && post.links@[ci].1@ == t2;
                            let oi: int = if ci < ii {
                                ci
                            } else {
                                ci + 1
                            };
                            assert(pre.links@[oi] == post.links@[ci]);
                            assert(Self::pairs_has(pre.links@, s2, t2));
                            if s2 == source@ && t2 == target@ {
                                if oi < ii {
                                    assert(!(pre.links@[oi].0@ == pre.links@[ii].0@
                                        && pre.links@[oi].1@ == pre.links@[ii].1@));
                                } else {
                                    assert(!(pre.links@[ii].0@ == pre.links@[oi].0@
                                        && pre.links@[ii].1@ == pre.links@[oi].1@));
                                }
                            }
                        }
                        if Self::pairs_has(pre.links@, s2, t2) && !(s2 == source@ && t2
                            == target@) {
                            let ai = choose|ai: int|
                                0 <= ai < pre.links@.len() && pre.links@[ai].0@ == s2
                                    && pre.links@[ai].1@ == t2;
                            if ai < ii {
                                assert(post.links@[ai] == pre.links@[ai]);
                                assert(Self::pairs_has(post.links@, s2, t2));
                            } else {
                                assert(ai != ii);
                                assert(post.links@[ai - 1] == pre.links@[ai]);
                                assert(Self::pairs_has(post.links@, s2, t2));
                            }
                        }
                    }
                    assert forall|i2: int, j2: int|
                        0 <= i2 < j2 < post.links@.len() implies !(post.links@[i2].0@
                        == post.links@[j2].0@ && post.links@[i2].1@ == post.links@[j2].1@) by {
                        let oi: int = if i2 < ii {
                            i2
                        } else {
                            i2 + 1
                        };
                        let oj: int = if j2 < ii {
                            j2
                        } else {
                            j2 + 1
                        };
                        assert(pre.links@[oi] == post.links@[i2]);
                        assert(pre.links@[oj] == post.links@[j2]);
                    }
                    assert(Self::pairs_uniq(post.links@));
                    assert forall|i2: int|
                        0 <= i2 < post.links@.len() implies Self::nodes_has(
                        post.nodes@,
                        #[trigger] post.links@[i2].0@,
                    ) && Self::nodes_has(post.nodes@, post.links@[i2].1@) by {
                        let oi: int = if i2 < ii {
                            i2
                        } else {
                            i2 + 1
                        };
                        assert(pre.links@[oi] == post.links@[i2]);
                        assert(Self::nodes_has(pre.nodes@, pre.links@[oi].0@));
                        assert(Self::nodes_has(pre.nodes@, pre.links@[oi].1@));
                    }
                    assert forall|s2: K::V, t2: K::V|
                        Self::pairs_has(post.links@, s2, t2) <==> #[trigger] Self::index_has(
                            post.link_index@,
                            Endpoint::Source,
                            s2,
                            t2,
                        ) by {}
                    assert forall|s2: K::V, t2: K::V|
                        #![trigger Self::index_has(post.link_index@, Endpoint::Target, t2, s2)]
                        #![trigger Self::pairs_has(post.links@, s2, t2)]
                        Self::pairs_has(post.links@, s2, t2) <==> Self::index_has(
                            post.link_index@,
                            Endpoint::Target,
                            t2,
                            s2,
                        ) by {}
                    assert(Self::index_sync(post.links@, post.link_index@));
                    assert(post.wf());
                    let target_model = pre.model().after_unlink(source@, target@);
                    assert(post.model().nodes =~= target_model.nodes);
                    assert(post.model().links =~= target_model.links);
                    assert(post.model() =~= target_model);
                }
                Some(true)
            },
        }
    }

    /// Whether a list of identifiers holds one with view `o`.
    spec fn list_has(list: Seq<K>, o: K::V) -> bool {
        exists|j: int| 0 <= j < list.len() && list[j]@ == o
    }

    /// Appending one pair to a link list adds exactly that pair.
    proof fn lemma_pairs_has_push(links: Seq<(K, K)>, x: (K, K), s2: K::V, t2: K::V)
        ensures
            Self::pairs_has(links.push(x), s2, t2) <==> (Self::pairs_has(links, s2, t2) || (x.0@
                == s2 && x.1@ == t2)),
    {
        let n = links.len() as int;
        if Self::pairs_has(links.push(x), s2, t2) {
            let ci = choose|ci: int|
                0 <= ci < links.push(x).len() && links.push(x)[ci].0@ == s2 && links.push(x)[ci].1@
                    == t2;
            if ci < n {
                assert(links[ci] == links.push(x)[ci]);
                assert(Self::pairs_has(links, s2, t2));
            }
        }
        if Self::pairs_has(links, s2, t2) {
            let ai = choose|ai: int| 0 <= ai < links.len() && links[ai].0@ == s2 && links[ai].1@ == t2;
            assert(links.push(x)[ai] == links[ai]);
            assert(Self::pairs_has(links.push(x), s2, t2));
        }
        if x.0@ == s2 && x.1@ == t2 {
            assert(links.push(x)[n] == x);
            assert(Self::pairs_has(links.push(x), s2, t2));
        }
    }

    /// Appending one entry to an index adds exactly that entry's records.
    proof fn lemma_index_has_push(
        index: Seq<((Endpoint, K), Vec<K>)>,
        e: ((Endpoint, K), Vec<K>),
        d2: Endpoint,
        k2: K::V,
        o2: K::V,
    )
        ensures
            Self::index_has(index.push(e), d2, k2, o2) <==> (Self::index_has(index, d2, k2, o2)
                || ((e.0.0, e.0.1@) == (d2, k2) && Self::list_has(e.1@, o2))),
    {
        let n = index.len() as int;
        if Self::index_has(index.push(e), d2, k2, o2) {
            let (ci, cj): (int, int) = choose|ci: int, cj: int|
                0 <= ci < index.push(e).len() && Self::index_key(index.push(e), ci) == (d2, k2)
                    && 0 <= cj < index.push(e)[ci].1@.len() && index.push(e)[ci].1@[cj]@ == o2;
            if ci < n {
                assert(index[ci] == index.push(e)[ci]);
                assert(Self::index_has(index, d2, k2, o2));
            } else {
                assert(index.push(e)[n] == e);
                assert(Self::list_has(e.1@, o2));
            }
        }
        if Self::index_has(index, d2, k2, o2) {
            let (ai, aj): (int, int) = choose|ai: int, aj: int|
                0 <= ai < index.len() && Self::index_key(index, ai) == (d2, k2) && 0 <= aj
                    < index[ai].1@.len() && index[ai].1@[aj]@ == o2;
            assert(index.push(e)[ai] == index[ai]);
            assert(Self::index_has(index.push(e), d2, k2, o2));
        }
        if (e.0.0, e.0.1@) == (d2, k2) && Self::list_has(e.1@, o2) {
            assert(index.push(e)[n] == e);
            let aj = choose|aj: int| 0 <= aj < e.1@.len() && e.1@[aj]@ == o2;
            assert(Self::index_has(index.push(e), d2, k2, o2));
        }
    }

    /// Drops from the link set every pair that touches `key`, on
    /// either side. Nodes and index are left as they are.
    fn purge_links(&mut self, key: &K)
        requires
            Self::pairs_uniq(old(self).links@),
        ensures
            final(self).nodes == old(self).nodes,
            final(self).link_index == old(self).link_index,
            Self::pairs_uniq(final(self).links@),
            forall|s2: K::V, t2: K::V|
                Self::pairs_has(final(self).links@, s2, t2) <==> (Self::pairs_has(
                    old(self).links@,
                    s2,
                    t2,
                ) && s2 != key@ && t2 != key@),
    {
        let ghost pre = self.links@;
        let mut kept: Vec<(K, K)> = Vec::new();
        let mut i: usize = 0;
        while i < self.links.len()
            invariant
                *self == *old(self),
                pre == self.links@,
                i <= pre.len(),
                Self::pairs_uniq(pre),
                Self::pairs_uniq(kept@),
                forall|s2: K::V, t2: K::V|
                    Self::pairs_has(kept@, s2, t2) <==> (Self::pairs_has(
                        pre.take(i as int),
                        s2,
                        t2,
                    ) && s2 != key@ && t2 != key@),
            decreases pre.len() - i,
        {
            let ghost kept_pre = kept@;
            let ghost taken = pre.take(i as int);
            let keep = !(self.links[i].0.key_eq(key) || self.links[i].1.key_eq(key));
            if keep {
                kept.push((self.links[i].0.key_clone(), self.links[i].1.key_clone()));
            }
            proof {
                let x = pre[i as int];
                assert(pre.take(i as int + 1) =~= taken.push(x));
                if keep {
                    let y = kept@.last();
                    assert(kept@ == kept_pre.push(y));
                    assert(y.0@ == x.0@ && y.1@ == x.1@);
                    // The pair is new to `kept`: it occurs only at `i`.
                    if Self::pairs_has(kept_pre, x.0@, x.1@) {
                        let wi = choose|wi: int|
                            0 <= wi < taken.len() && taken[wi].0@ == x.0@ && taken[wi].1@ == x.1@;
                        assert(pre[wi] == taken[wi]);
                        assert(!(pre[wi].0@ == pre[i as int].0@ && pre[wi].1@
                            == pre[i as int].1@));
                    }
                    assert forall|i2: int, j2: int|
                        0 <= i2 < j2 < kept@.len() implies !(kept@[i2].0@ == kept@[j2].0@
                        && kept@[i2].1@ == kept@[j2].1@) by {
                        if j2 < kept_pre.len() {
                            assert(kept@[i2] == kept_pre[i2] && kept@[j2] == kept_pre[j2]);
                        } else {
                            assert(kept@[i2] == kept_pre[i2]);
                            if kept@[i2].0@ == x.0@ && kept@[i2].1@ == x.1@ {
                                assert(Self::pairs_has(kept_pre, x.0@, x.1@));
                            }
                        }
                    }
                    assert forall|s2: K::V, t2: K::V|
                        Self::pairs_has(kept@, s2, t2) <==> (Self::pairs_has(
                            pre.take(i as int + 1),
                            s2,
                            t2,
                        ) && s2 != key@ && t2 != key@) by {
                        Self::lemma_pairs_has_push(kept_pre, y, s2, t2);
                        Self::lemma_pairs_has_push(taken, x, s2, t2);
                    }
                } else {
                    assert(x.0@ == key@ || x.1@ == key@);
                    assert forall|s2: K::V, t2: K::V|
                        Self::pairs_has(kept@, s2, t2) <==> (Self::pairs_has(
                            pre.take(i as int + 1),
                            s2,
                            t2,
                        ) && s2 != key@ && t2 != key@) by {
                        Self::lemma_pairs_has_push(taken, x, s2, t2);
                    }
                }
            }
            i = i + 1;
        }
        proof {
            assert(pre.take(pre.len() as int) == pre);
        }
        self.links = kept;
    }

    /// Drops from the index both of `key`'s own entries and every
    /// record of `key` inside another entry. Nodes and links are left
    /// as they are.
    fn purge_index(&mut self, key: &K)
        requires
            Self::index_keys_uniq(old(self).link_index@),
            Self::index_entries_uniq(old(self).link_index@),
        ensures
            final(self).nodes == old(self).nodes,
            final(self).links == old(self).links,
            Self::index_keys_uniq(final(self).link_index@),
            Self::index_entries_uniq(final(self).link_index@),
            forall|d2: Endpoint, k2: K::V, o2: K::V|
                Self::index_has(final(self).link_index@, d2, k2, o2) <==> (Self::index_has(
                    old(self).link_index@,
                    d2,
                    k2,
                    o2,
                ) && k2 != key@ && o2 != key@),
    {
        let ghost pre = self.link_index@;
        let mut kept: LinkIndex<K> = Vec::new();
        let mut i: usize = 0;
        while i < self.link_index.len()
            invariant
                *self == *old(self),
                pre == self.link_index@,
                i <= pre.len(),
                Self::index_keys_uniq(pre),
                Self::index_entries_uniq(pre),
                Self::index_keys_uniq(kept@),
                Self::index_entries_uniq(kept@),
                forall|j: int|
                    0 <= j < kept@.len() ==> exists|i0: int|
                        0 <= i0 < i && Self::index_key(pre, i0) == #[trigger] Self::index_key(
                            kept@,
                            j,
                        ),
                forall|d2: Endpoint, k2: K::V, o2: K::V|
                    Self::index_has(kept@, d2, k2, o2) <==> (Self::index_has(
                        pre.take(i as int),
                        d2,
                        k2,
                        o2,
                    ) && k2 != key@ && o2 != key@),
            decreases pre.len() - i,
        {
            let ghost kept_pre = kept@;
            let ghost taken = pre.take(i as int);
            let ghost x = pre[i as int];
            let skip = self.link_index[i].0.1.key_eq(key);
            if !skip {
                let mut neighbours: Vec<K> = Vec::new();
                let mut j: usize = 0;
                while j < self.link_index[i].1.len()
                    invariant
                        *self == *old(self),
                        pre == self.link_index@,
                        i < pre.len(),
                        x == pre[i as int],
                        Self::index_entries_uniq(pre),
                        j <= x.1@.len(),
                        forall|j2: int, j3: int|
                            0 <= j2 < j3 < neighbours@.len() ==> neighbours@[j2]@
                                != neighbours@[j3]@,
                        forall|o2: K::V|
                            Self::list_has(neighbours@, o2) <==> (Self::list_has(
                                x.1@.take(j as int),
                                o2,
                            ) && o2 != key@),
                    decreases x.1@.len() - j,
                {
                    let ghost neigh_pre = neighbours@;
                    let ghost taken_n = x.1@.take(j as int);
                    let keep = !self.link_index[i].1[j].key_eq(key);
                    if keep {
                        neighbours.push(self.link_index[i].1[j].key_clone());
                    }
                    proof {
                        let e = x.1@[j as int];
                        assert(x.1@.take(j as int + 1) =~= taken_n.push(e));
                        if keep {
                            let y = neighbours@.last();
                            assert(neighbours@ == neigh_pre.push(y));
                            assert(y@ == e@);
                            // `e` is new to `neighbours`: entries are
                            // duplicate-free in the old index.
                            if Self::list_has(neigh_pre, e@) {
                                let wj = choose|wj: int|
                                    0 <= wj < taken_n.len() && taken_n[wj]@ == e@;
                                assert(x.1@[wj] == taken_n[wj]);
                                assert(pre[i as int].1@[wj]@ != pre[i as int].1@[j as int]@);
                            }
                            assert forall|j2: int, j3: int|
                                0 <= j2 < j3 < neighbours@.len() implies neighbours@[j2]@
                                != neighbours@[j3]@ by {
                                if j3 < neigh_pre.len() {
                                    assert(neighbours@[j2] == neigh_pre[j2]);
                                    assert(neighbours@[j3] == neigh_pre[j3]);
                                } else {
                                    assert(neighbours@[j2] == neigh_pre[j2]);
                                    if neighbours@[j2]@ == e@ {
                                        assert(Self::list_has(neigh_pre, e@));
                                    }
                                }
                            }
                            assert forall|o2: K::V|
                                Self::list_has(neighbours@, o2) <==> (Self::list_has(
                                    x.1@.take(j as int + 1),
                                    o2,
                                ) && o2 != key@) by {
                                if Self::list_has(neighbours@, o2) {
                                    let cj = choose|cj: int|
                                        0 <= cj < neighbours@.len() && neighbours@[cj]@ == o2;
                                    if cj < neigh_pre.len() {
                                        assert(neigh_pre[cj] == neighbours@[cj]);
                                        assert(Self::list_has(neigh_pre, o2));
                                        let aj = choose|aj: int|
                                            0 <= aj < taken_n.len() && taken_n[aj]@ == o2;
                                        assert(taken_n.push(e)[aj] == taken_n[aj]);
                                        assert(Self::list_has(x.1@.take(j as int + 1), o2));
                                    } else {
                                        assert(o2 == e@ && o2 != key@);
                                        assert(taken_n.push(e)[taken_n.len() as int] == e);
                                        assert(Self::list_has(x.1@.take(j as int + 1), o2));
                                    }
                                }
                                if Self::list_has(x.1@.take(j as int + 1), o2) && o2 != key@ {
                                    let aj = choose|aj: int|
                                        0 <= aj < taken_n.push(e).len() && taken_n.push(e)[aj]@
                                            == o2;
                                    if aj < taken_n.len() {
                                        assert(taken_n[aj] == taken_n.push(e)[aj]);
                                        assert(Self::list_has(taken_n, o2));
                                        assert(Self::list_has(neigh_pre, o2));
                                        let bj = choose|bj: int|
                                            0 <= bj < neigh_pre.len() && neigh_pre[bj]@ == o2;
                                        assert(neighbours@[bj] == neigh_pre[bj]);
                                        assert(Self::list_has(neighbours@, o2));
                                    } else {
                                        assert(o2 == e@);
                                        assert(neighbours@[neigh_pre.len() as int]@ == e@);
                                        assert(Self::list_has(neighbours@, o2));
                                    }
                                }
                            }
                        } else {
                            assert(e@ == key@);
                            assert forall|o2: K::V|
                                Self::list_has(neighbours@, o2) <==> (Self::list_has(
                                    x.1@.take(j as int + 1),
                                    o2,
                                ) && o2 != key@) by {
                                if Self::list_has(x.1@.take(j as int + 1), o2) && o2 != key@ {
                                    let aj = choose|aj: int|
                                        0 <= aj < taken_n.push(e).len() && taken_n.push(e)[aj]@
                                            == o2;
                                    assert(aj < taken_n.len());
                                    assert(taken_n[aj] == taken_n.push(e)[aj]);
                                    assert(Self::list_has(taken_n, o2));
                                }
                                if Self::list_has(taken_n, o2) {
                                    let aj = choose|aj: int|
                                        0 <= aj < taken_n.len() && taken_n[aj]@ == o2;
                                    assert(taken_n.push(e)[aj] == taken_n[aj]);
                                    assert(Self::list_has(x.1@.take(j as int + 1), o2));
                                }
                            }
                        }
                    }
                    j = j + 1;
                }
                kept.push(
                    ((self.link_index[i].0.0, self.link_index[i].0.1.key_clone()), neighbours),
                );
                proof {
                    let y = kept@.last();
                    assert(kept@ == kept_pre.push(y));
                    assert((y.0.0, y.0.1@) == Self::index_key(pre, i as int));
                    assert(x.1@.take(x.1@.len() as int) == x.1@);
                    assert(pre.take(i as int + 1) =~= taken.push(x));
                    // The new entry's key is fresh among the kept ones.
                    assert forall|j2: int, j3: int|
                        0 <= j2 < j3 < kept@.len() implies Self::index_key(kept@, j2)
                        != Self::index_key(kept@, j3) by {
                        if j3 < kept_pre.len() {
                            assert(kept@[j2] == kept_pre[j2] && kept@[j3] == kept_pre[j3]);
                            assert(Self::index_key(kept_pre, j2) != Self::index_key(
                                kept_pre,
                                j3,
                            ));
                        } else {
                            assert(kept@[j2] == kept_pre[j2]);
                            let i0 = choose|i0: int|
                                0 <= i0 < i && Self::index_key(pre, i0) == Self::index_key(
                                    kept_pre,
                                    j2,
                                );
                            assert(Self::index_key(pre, i0) != Self::index_key(pre, i as int));
                        }
                    }
                    assert(Self::index_keys_uniq(kept@));
                    assert forall|j2: int, j3: int, j4: int|
                        0 <= j2 < kept@.len() && 0 <= j3 < j4 < kept@[j2].1@.len() implies
                        kept@[j2].1@[j3]@ != kept@[j2].1@[j4]@ by {
                        if j2 < kept_pre.len() {
                            assert(kept@[j2] == kept_pre[j2]);
                        }
                    }
                    assert(Self::index_entries_uniq(kept@));
                    assert forall|j: int|
                        0 <= j < kept@.len() implies exists|i0: int|
                            0 <= i0 < i as int + 1 && Self::index_key(pre, i0)
                                == #[trigger] Self::index_key(kept@, j) by {
                        if j < kept_pre.len() {
                            let i0 = choose|i0: int|
                                0 <= i0 < i && Self::index_key(pre, i0) == Self::index_key(
                                    kept_pre,
                                    j,
                                );
                            assert(kept@[j] == kept_pre[j]);
                            assert(Self::index_key(pre, i0) == Self::index_key(kept@, j));
                        } else {
                            assert(Self::index_key(kept@, j) == Self::index_key(pre, i as int));
                        }
                    }
                    assert forall|d2: Endpoint, k2: K::V, o2: K::V|
                        Self::index_has(kept@, d2, k2, o2) <==> (Self::index_has(
                            pre.take(i as int + 1),
                            d2,
                            k2,
                            o2,
                        ) && k2 != key@ && o2 != key@) by {
                        Self::lemma_index_has_push(kept_pre, y, d2, k2, o2);
                        Self::lemma_index_has_push(taken, x, d2, k2, o2);
                    }
                }
            } else {
                proof {
                    assert(pre.take(i as int + 1) =~= taken.push(x));
                    assert(Self::index_key(pre, i as int).1 == key@);
                    assert forall|d2: Endpoint, k2: K::V, o2: K::V|
                        Self::index_has(kept@, d2, k2, o2) <==> (Self::index_has(
                            pre.take(i as int + 1),
                            d2,
                            k2,
                            o2,
                        ) && k2 != key@ && o2 != key@) by {
                        Self::lemma_index_has_push(taken, x, d2, k2, o2);
                    }
                }
            }
            i = i + 1;
        }
        proof {
            assert(pre.take(pre.len() as int) == pre);
        }
        self.link_index = kept;
    }

    /// Removes a node. Fails — reporting `false`, mutating nothing —
    /// when the identifier is absent. Otherwise removes the node, every
    /// link that touches it on either side, both of its own index
    /// entries, and every record of it inside other entries, reporting
    /// `true`. The adjacency-index invariant survives intact.
    pub fn delete(&mut self, node_id: &K) -> (r: bool)
        requires
            old(self).wf(),
        ensures
            final(self).wf(),
            r == old(self).model().delete_ok(node_id@),
            final(self).model() == old(self).model().after_delete(node_id@),
    {
        let i = match self.find_node(node_id) {
            None => {
                proof {
                    let target_model = self.model().after_delete(node_id@);
                    assert(target_model.nodes =~= self.model().nodes);
                    // No link touches an absent node.
                    assert forall|p: (K::V, K::V)| self.model().links.contains(p) implies p.0
                        != node_id@ && p.1 != node_id@ by {
                        let wi = choose|wi: int|
                            0 <= wi < self.links@.len() && self.links@[wi].0@ == p.0
                                && self.links@[wi].1@ == p.1;
                        assert(Self::nodes_has(self.nodes@, self.links@[wi].0@));
                        assert(Self::nodes_has(self.nodes@, self.links@[wi].1@));
                    }
                    assert(target_model.links =~= self.model().links);
                    assert(target_model =~= self.model());
                }
                return false;
            },
            Some(i) => i,
        };
        let ghost pre = *self;
        let ghost ii = i as int;
        self.purge_links(node_id);
        self.purge_index(node_id);
        self.nodes.remove(i);
        proof {
            let post = *self;
            assert(post.nodes@ == pre.nodes@.remove(ii));
            assert(pre.nodes@[ii].0@ == node_id@);
            // The node table lost exactly the entry for `node_id`.
            assert forall|k2: K::V|
                Self::nodes_has(post.nodes@, k2) <==> (Self::nodes_has(pre.nodes@, k2) && k2
                    != node_id@) by {
                if Self::nodes_has(post.nodes@, k2) {
                    let ci = choose|ci: int|
                        0 <= ci < post.nodes@.len() && post.nodes@[ci].0@ == k2;
                    let oi: int = if ci < ii {
                        ci
                    } else {
                        ci + 1
                    };
                    assert(pre.nodes@[oi] == post.nodes@[ci]);
                    assert(Self::nodes_has(pre.nodes@, k2));
                    if k2 == node_id@ {
                        if oi < ii {
                            assert(pre.nodes@[oi].0@ != pre.nodes@[ii].0@);
                        } else {
                            assert(pre.nodes@[ii].0@ != pre.nodes@[oi].0@);
                        }
                    }
                }
                if Self::nodes_has(pre.nodes@, k2) && k2 != node_id@ {
                    let ai = choose|ai: int| 0 <= ai < pre.nodes@.len() && pre.nodes@[ai].0@ == k2;
                    assert(ai != ii);
                    if ai < ii {
                        assert(post.nodes@[ai] == pre.nodes@[ai]);
                        assert(Self::nodes_has(post.nodes@, k2));
                    } else {
                        assert(post.nodes@[ai - 1] == pre.nodes@[ai]);
                        assert(Self::nodes_has(post.nodes@, k2));
                    }
                }
            }
            assert forall|i2: int, j2: int|
                0 <= i2 < j2 < post.nodes@.len() implies post.nodes@[i2].0@ != post.nodes@[j2].0@
                by {
                let oi: int = if i2 < ii {
                    i2
                } else {
                    i2 + 1
                };
                let oj: int = if j2 < ii {
                    j2
                } else {
                    j2 + 1
                };
                assert(pre.nodes@[oi] == post.nodes@[i2]);
                assert(pre.nodes@[oj] == post.nodes@[j2]);
            }
            assert(Self::nodes_uniq(post.nodes@));
            // Every remaining link still connects existing nodes.
            assert forall|i2: int|
                0 <= i2 < post.links@.len() implies Self::nodes_has(
                post.nodes@,
                #[trigger] post.links@[i2].0@,
            ) && Self::nodes_has(post.nodes@, post.links@[i2].1@) by {
                assert(Self::pairs_has(post.links@, post.links@[i2].0@, post.links@[i2].1@));
                assert(Self::pairs_has(pre.links@, post.links@[i2].0@, post.links@[i2].1@));
                let wi = choose|wi: int|
                    0 <= wi < pre.links@.len() && pre.links@[wi].0@ == post.links@[i2].0@
                        && pre.links@[wi].1@ == post.links@[i2].1@;
                assert(Self::nodes_has(pre.nodes@, pre.links@[wi].0@));
                assert(Self::nodes_has(pre.nodes@, pre.links@[wi].1@));
            }
            // The purges kept the index in sync with the link set.
            assert forall|s2: K::V, t2: K::V|
                Self::pairs_has(post.links@, s2, t2) <==> #[trigger] Self::index_has(
                    post.link_index@,
                    Endpoint::Source,
                    s2,
                    t2,
                ) by {}
            assert forall|s2: K::V, t2: K::V|
                #![trigger Self::index_has(post.link_index@, Endpoint::Target, t2, s2)]
                #![trigger Self::pairs_has(post.links@, s2, t2)]
                Self::pairs_has(post.links@, s2, t2) <==> Self::index_has(
                    post.link_index@,
                    Endpoint::Target,
                    t2,
                    s2,
                ) by {}
            assert(Self::index_sync(post.links@, post.link_index@));
            assert(post.wf());
            // The model lost the node and every link touching it.
            let target_model = pre.model().after_delete(node_id@);
            assert forall|k2: K::V| #[trigger] post.model().nodes.contains_key(k2) implies
                post.model().nodes[k2] == target_model.nodes[k2] by {
                let ai = choose|ai: int| 0 <= ai < pre.nodes@.len() && pre.nodes@[ai].0@ == k2;
                assert(ai != ii);
                Self::lemma_nodes_val_at(pre.nodes@, k2, ai);
                if ai < ii {
                    assert(post.nodes@[ai] == pre.nodes@[ai]);
                    Self::lemma_nodes_val_at(post.nodes@, k2, ai);
                } else {
                    assert(post.nodes@[ai - 1] == pre.nodes@[ai]);
                    Self::lemma_nodes_val_at(post.nodes@, k2, ai - 1);
                }
            }
            assert(post.model().nodes =~= target_model.nodes);
            assert(post.model().links =~= target_model.links);
            assert(post.model() =~= target_model);
        }
        true
    }

    /// Whether any link leaves `source`, read off the index.
    fn has_outgoing(&self, source: &K) -> (b: bool)
        requires
            self.wf(),
        ensures
            b == exists|t2: K::V| self.model().links.contains((source@, t2)),
    {
        match self.find_index_entry(Endpoint::Source, source) {
            Some(i) => {
                let nonempty = self.link_index[i].1.len() > 0;
                proof {
                    let ii = i as int;
                    if nonempty {
                        let o = self.link_index@[ii].1@[0]@;
                        assert(Self::index_has(self.link_index@, Endpoint::Source, source@, o));
                        assert(self.links_has(source@, o));
                        assert(self.model().links.contains((source@, o)));
                    } else {
                        assert forall|t2: K::V| !self.model().links.contains((source@, t2)) by {
                            if Self::pairs_has(self.links@, source@, t2) {
                                assert(Self::index_has(
                                    self.link_index@,
                                    Endpoint::Source,
                                    source@,
                                    t2,
                                ));
                                let (ci, cj): (int, int) = choose|ci: int, cj: int|
                                    0 <= ci < self.link_index@.len() && Self::index_key(
                                        self.link_index@,
                                        ci,
                                    ) == (Endpoint::Source, source@) && 0 <= cj
                                        < self.link_index@[ci].1@.len()
                                        && self.link_index@[ci].1@[cj]@ == t2;
                                if ci != ii {
                                    if ci < ii {
                                        assert(Self::index_key(self.link_index@, ci)
                                            != Self::index_key(self.link_index@, ii));
                                    } else {
                                        assert(Self::index_key(self.link_index@, ii)
                                            != Self::index_key(self.link_index@, ci));
                                    }
                                }
                            }
                        }
                    }
                }
                nonempty
            },
            None => {
                proof {
                    assert forall|t2: K::V| !self.model().links.contains((source@, t2)) by {
                        if Self::pairs_has(self.links@, source@, t2) {
                            assert(Self::index_has(
                                self.link_index@,
                                Endpoint::Source,
                                source@,
                                t2,
                            ));
                            let (ci, cj): (int, int) = choose|ci: int, cj: int|
                                0 <= ci < self.link_index@.len() && Self::index_key(
                                    self.link_index@,
                                    ci,
                                ) == (Endpoint::Source, source@) && 0 <= cj
                                    < self.link_index@[ci].1@.len()
                                    && self.link_index@[ci].1@[cj]@ == t2;
                            assert(Self::index_key(self.link_index@, ci) != (
                                Endpoint::Source,
                                source@,
                            ));
                        }
                    }
                }
                false
            },
        }
    }

    /// Whether any link arrives at `target`, read off the index.
    fn has_incoming(&self, target: &K) -> (b: bool)
        requires
            self.wf(),
        ensures
            b == exists|s2: K::V| self.model().links.contains((s2, target@)),
    {
        match self.find_index_entry(Endpoint::Target, target) {
            Some(i) => {
                let nonempty = self.link_index[i].1.len() > 0;
                proof {
                    let ii = i as int;
                    if nonempty {
                        let o = self.link_index@[ii].1@[0]@;
                        assert(Self::index_has(self.link_index@, Endpoint::Target, target@, o));
                        assert(self.links_has(o, target@));
                        assert(self.model().links.contains((o, target@)));
                    } else {
                        assert forall|s2: K::V| !self.model().links.contains((s2, target@)) by {
                            if Self::pairs_has(self.links@, s2, target@) {
                                assert(Self::index_has(
                                    self.link_index@,
                                    Endpoint::Target,
                                    target@,
                                    s2,
                                ));
                                let (ci, cj): (int, int) = choose|ci: int, cj: int|
                                    0 <= ci < self.link_index@.len() && Self::index_key(
                                        self.link_index@,
                                        ci,
                                    ) == (Endpoint::Target, target@) && 0 <= cj
                                        < self.link_index@[ci].1@.len()
                                        && self.link_index@[ci].1@[cj]@ == s2;
                                if ci != ii {
                                    if ci < ii {
                                        assert(Self::index_key(self.link_index@, ci)
                                            != Self::index_key(self.link_index@, ii));
                                    } else {
                                        assert(Self::index_key(self.link_index@, ii)
                                            != Self::index_key(self.link_index@, ci));
                                    }
                                }
                            }
                        }
                    }
                }
                nonempty
            },
            None => {
                proof {
                    assert forall|s2: K::V| !self.model().links.contains((s2, target@)) by {
                        if Self::pairs_has(self.links@, s2, target@) {
                            assert(Self::index_has(
                                self.link_index@,
                                Endpoint::Target,
                                target@,
                                s2,
                            ));
                            let (ci, cj): (int, int) = choose|ci: int, cj: int|
                                0 <= ci < self.link_index@.len() && Self::index_key(
                                    self.link_index@,
                                    ci,
                                ) == (Endpoint::Target, target@) && 0 <= cj
                                    < self.link_index@[ci].1@.len()
                                    && self.link_index@[ci].1@[cj]@ == s2;
                            assert(Self::index_key(self.link_index@, ci) != (
                                Endpoint::Target,
                                target@,
                            ));
                        }
                    }
                }
                false
            },
        }
    }

    /// Evaluates a query in boolean mode, as the state table of the
    /// reference semantics says: the absent-result signal whenever a
    /// referenced identifier does not exist, otherwise whether the
    /// asked-for link (or any link in the asked-for direction, or the
    /// node itself) is present.
    pub fn existence_query(&self, query: &Query<K>) -> (r: Option<bool>)
        requires
            self.wf(),
        ensures
            r == self.model().existence_answer(query@),
    {
        match query {
            Query::LinkSourceTarget(s, t) => {
                if self.contains_node(s) && self.contains_node(t) {
                    match self.find_link(s, t) {
                        Some(i) => {
                            proof {
                                assert(self.links@[i as int].0@ == s@);
                                assert(self.links_has(s@, t@));
                                assert(self.model().links.contains((s@, t@)));
                            }
                            Some(true)
                        },
                        None => {
                            proof {
                                assert(!self.model().links.contains((s@, t@)));
                            }
                            Some(false)
                        },
                    }
                } else {
                    None
                }
            },
            Query::Node(n) => Some(self.contains_node(n)),
            Query::LinkSource(s) => {
                if self.contains_node(s) {
                    Some(self.has_outgoing(s))
                } else {
                    None
                }
            },
            Query::LinkTarget(t) => {
                if self.contains_node(t) {
                    Some(self.has_incoming(t))
                } else {
                    None
                }
            },
        }
    }

    /// Copies a list of identifiers, preserving views.
    fn clone_keys(list: &Vec<K>) -> (r: Vec<K>)
        ensures
            r@.len() == list@.len(),
            forall|j: int| 0 <= j < list@.len() ==> r@[j]@ == list@[j]@,
    {
        let mut out: Vec<K> = Vec::new();
        let mut j: usize = 0;
        while j < list.len()
            invariant
                j <= list@.len(),
                out@.len() == j as int,
                forall|j2: int| 0 <= j2 < j ==> out@[j2]@ == list@[j2]@,
            decreases list@.len() - j,
        {
            out.push(list[j].key_clone());
            j = j + 1;
        }
        out
    }

    /// Evaluates a query in set mode: the adjacency set for a
    /// single-endpoint query on an existing node — an existing node
    /// with no links in that direction yields an empty set, not an
    /// error — an unknown-identifier error carrying the offending
    /// identifier for an absent node, and an unsupported-query error
    /// naming the query for the other two shapes. The returned list
    /// names each adjacent node once.
    pub fn set_query(&self, query: &Query<K>) -> (r: Result<Vec<K>, GraphError<K>>)
        requires
            self.wf(),
        ensures
            match r {
                Ok(v) => self.model().set_answer(query@) == Ok::<_, GraphErrorView<K::V>>(
                    key_set(v@),
                ) && (forall|j1: int, j2: int|
                    0 <= j1 < j2 < v@.len() ==> v@[j1]@ != v@[j2]@),
                Err(e) => self.model().set_answer(query@) == Err::<Set<K::V>, _>(e@),
            },
    {
        match query {
            Query::LinkSource(s) => {
                if self.contains_node(s) {
                    match self.find_index_entry(Endpoint::Source, s) {
                        Some(i) => {
                            let out = Self::clone_keys(&self.link_index[i].1);
                            proof {
                                let ii = i as int;
                                let entry = self.link_index@[ii].1@;
                                assert forall|o2: K::V|
                                    key_set(out@).contains(o2) <==> self.model().targets_of(
                                        s@,
                                    ).contains(o2) by {
                                    if key_set(out@).contains(o2) {
                                        let cj = choose|cj: int|
                                            0 <= cj < out@.len() && out@[cj]@ == o2;
                                        assert(entry[cj]@ == o2);
                                        assert(Self::index_has(
                                            self.link_index@,
                                            Endpoint::Source,
                                            s@,
                                            o2,
                                        ));
                                        assert(self.links_has(s@, o2));
                                    }
                                    if self.model().targets_of(s@).contains(o2) {
                                        assert(Self::pairs_has(self.links@, s@, o2));
                                        assert(Self::index_has(
                                            self.link_index@,
                                            Endpoint::Source,
                                            s@,
                                            o2,
                                        ));
                                        let (ci, cj): (int, int) = choose|ci: int, cj: int|
                                            0 <= ci < self.link_index@.len() && Self::index_key(
                                                self.link_index@,
                                                ci,
                                            ) == (Endpoint::Source, s@) && 0 <= cj
                                                < self.link_index@[ci].1@.len()
                                                && self.link_index@[ci].1@[cj]@ == o2;
                                        if ci != ii {
                                            if ci < ii {
                                                assert(Self::index_key(self.link_index@, ci)
                                                    != Self::index_key(self.link_index@, ii));
                                            } else {
                                                assert(Self::index_key(self.link_index@, ii)
                                                    != Self::index_key(self.link_index@, ci));
                                            }
                                        }
                                        assert(out@[cj]@ == o2);
                                        assert(key_set(out@).contains(o2));
                                    }
                                }
                                assert(key_set(out@) =~= self.model().targets_of(s@));
                            }
                            Ok(out)
                        },
                        None => {
                            let out: Vec<K> = Vec::new();
                            proof {
                                assert forall|o2: K::V|
                                    !self.model().targets_of(s@).contains(o2) by {
                                    if Self::pairs_has(self.links@, s@, o2) {
                                        assert(Self::index_has(
                                            self.link_index@,
                                            Endpoint::Source,
                                            s@,
                                            o2,
                                        ));
                                        let (ci, cj): (int, int) = choose|ci: int, cj: int|
                                            0 <= ci < self.link_index@.len() && Self::index_key(
                                                self.link_index@,
                                                ci,
                                            ) == (Endpoint::Source, s@) && 0 <= cj
                                                < self.link_index@[ci].1@.len()
                                                && self.link_index@[ci].1@[cj]@ == o2;
                                        assert(Self::index_key(self.link_index@, ci) != (
                                            Endpoint::Source,
                                            s@,
                                        ));
                                    }
                                }
                                assert(key_set(out@) =~= self.model().targets_of(s@));
                            }
                            Ok(out)
                        },
                    }
                } else {
                    Err(GraphError::UnknownNode(s.key_clone()))
                }
            },
            Query::LinkTarget(t) => {
                if self.contains_node(t) {
                    match self.find_index_entry(Endpoint::Target, t) {
                        Some(i) => {
                            let out = Self::clone_keys(&self.link_index[i].1);
                            proof {
                                let ii = i as int;
                                let entry = self.link_index@[ii].1@;
                                assert forall|o2: K::V|
                                    key_set(out@).contains(o2) <==> self.model().sources_of(
                                        t@,
                                    ).contains(o2) by {
                                    if key_set(out@).contains(o2) {
                                        let cj = choose|cj: int|
                                            0 <= cj < out@.len() && out@[cj]@ == o2;
                                        assert(entry[cj]@ == o2);
                                        assert(Self::index_has(
                                            self.link_index@,
                                            Endpoint::Target,
                                            t@,
                                            o2,
                                        ));
                                        assert(self.links_has(o2, t@));
                                    }
                                    if self.model().sources_of(t@).contains(o2) {
                                        assert(Self::pairs_has(self.links@, o2, t@));
                                        assert(Self::index_has(
                                            self.link_index@,
                                            Endpoint::Target,
                                            t@,
                                            o2,
                                        ));
                                        let (ci, cj): (int, int) = choose|ci: int, cj: int|
                                            0 <= ci < self.link_index@.len() && Self::index_key(
                                                self.link_index@,
                                                ci,
                                            ) == (Endpoint::Target, t@) && 0 <= cj
                                                < self.link_index@[ci].1@.len()
                                                && self.link_index@[ci].1@[cj]@ == o2;
                                        if ci != ii {
                                            if ci < ii {
                                                assert(Self::index_key(self.link_index@, ci)
                                                    != Self::index_key(self.link_index@, ii));
                                            } else {
                                                assert(Self::index_key(self.link_index@, ii)
                                                    != Self::index_key(self.link_index@, ci));
                                            }
                                        }
                                        assert(out@[cj]@ == o2);
                                        assert(key_set(out@).contains(o2));
                                    }
                                }
                                assert(key_set(out@) =~= self.model().sources_of(t@));
                            }
                            Ok(out)
                        },
                        None => {
                            let out: Vec<K> = Vec::new();
                            proof {
                                assert forall|o2: K::V|
                                    !self.model().sources_of(t@).contains(o2) by {
                                    if Self::pairs_has(self.links@, o2, t@) {
                                        assert(Self::index_has(
                                            self.link_index@,
                                            Endpoint::Target,
                                            t@,
                                            o2,
                                        ));
                                        let (ci, cj): (int, int) = choose|ci: int, cj: int|
                                            0 <= ci < self.link_index@.len() && Self::index_key(
                                                self.link_index@,
                                                ci,
                                            ) == (Endpoint::Target, t@) && 0 <= cj
                                                < self.link_index@[ci].1@.len()
                                                && self.link_index@[ci].1@[cj]@ == o2;
                                        assert(Self::index_key(self.link_index@, ci) != (
                                            Endpoint::Target,
                                            t@,
                                        ));
                                    }
                                }
                                assert(key_set(out@) =~= self.model().sources_of(t@));
                            }
                            Ok(out)
                        },
                    }
                } else {
                    Err(GraphError::UnknownNode(t.key_clone()))
                }
            },
            Query::Node(_) => Err(GraphError::UnsupportedQuery(query.duplicate())),
            Query::LinkSourceTarget(_, _) => Err(GraphError::UnsupportedQuery(query.duplicate())),
        }
    }

    /// A fluent handle for "the links leaving `source_id`", bound to
    /// this graph.
    pub fn query_link_source<'a>(&'a self, source_id: &K) -> (r: GraphQuery<'a, K>)
        ensures
            r.bound_graph() == *self,
            r.held_query() == QueryView::LinkSource(source_id@),
    {
        GraphQuery::new(self, Query::link_source(source_id))
    }

    /// A fluent handle for "the links arriving at `to_id`", bound to
    /// this graph.
    pub fn query_link_target<'a>(&'a self, to_id: &K) -> (r: GraphQuery<'a, K>)
        ensures
            r.bound_graph() == *self,
            r.held_query() == QueryView::LinkTarget(to_id@),
    {
        GraphQuery::new(self, Query::link_target(to_id))
    }

    /// A fluent handle for "does the node exist", bound to this graph.
    pub fn query_node<'a>(&'a self, node_id: &K) -> (r: GraphQuery<'a, K>)
        ensures
            r.bound_graph() == *self,
            r.held_query() == QueryView::Node(node_id@),
    {
        GraphQuery::new(self, Query::node(node_id))
    }

    /// The node table as stored: one entry per node, identifiers
    /// unique, each entry denoting one binding of the model. For an
    /// external encoder of the graph's state.
    pub fn nodes_list(&self) -> (r: &Vec<(K, Value)>)
        requires
            self.wf(),
        ensures
            forall|i: int|
                0 <= i < r@.len() ==> self.model().nodes.contains_key(#[trigger] r@[i].0@)
                    && self.model().nodes[r@[i].0@] == r@[i].1@,
            forall|k2: K::V|
                #[trigger] self.model().nodes.contains_key(k2) ==> exists|i: int|
                    0 <= i < r@.len() && #[trigger] r@[i].0@ == k2,
            forall|i: int, j: int| 0 <= i < j < r@.len() ==> r@[i].0@ != r@[j].0@,
    {
        proof {
            assert forall|i: int|
                0 <= i < self.nodes@.len() implies self.model().nodes.contains_key(
                #[trigger] self.nodes@[i].0@,
            ) && self.model().nodes[self.nodes@[i].0@] == self.nodes@[i].1@ by {
                Self::lemma_nodes_val_at(self.nodes@, self.nodes@[i].0@, i);
            }
        }
        &self.nodes
    }

    /// The link set as stored: one entry per link, pairs unique, each
    /// entry denoting one link of the model. For an external encoder of
    /// the graph's state.
    pub fn links_list(&self) -> (r: &Vec<(K, K)>)
        requires
            self.wf(),
        ensures
            forall|i: int|
                0 <= i < r@.len() ==> self.model().links.contains(
                    (#[trigger] r@[i].0@, r@[i].1@),
                ),
            forall|p: (K::V, K::V)|
                #[trigger] self.model().links.contains(p) ==> exists|i: int|
                    0 <= i < r@.len() && #[trigger] r@[i].0@ == p.0 && r@[i].1@ == p.1,
            forall|i: int, j: int|
                0 <= i < j < r@.len() ==> !(r@[i].0@ == r@[j].0@ && r@[i].1@ == r@[j].1@),
    {
        proof {
            assert forall|i: int|
                0 <= i < self.links@.len() implies self.model().links.contains(
                (#[trigger] self.links@[i].0@, self.links@[i].1@),
            ) by {
                assert(Self::pairs_has(self.links@, self.links@[i].0@, self.links@[i].1@));
            }
        }
        &self.links
    }

    /// Whether a stored node table and link list describe a graph:
    /// node identifiers unique, and both endpoints of every link
    /// present among the nodes.
    pub open spec fn parts_ok(nodes: Seq<(K, Value)>, links: Seq<(K, K)>) -> bool {
        &&& forall|i: int, j: int| 0 <= i < j < nodes.len() ==> nodes[i].0@ != nodes[j].0@
        &&& forall|i: int|
            #![trigger links[i]]
            0 <= i < links.len() ==> Self::nodes_has(nodes, links[i].0@) && Self::nodes_has(
                nodes,
                links[i].1@,
            )
    }

    /// Rebuilds a graph — derived adjacency index included — from a
    /// stored node table and link list, as an external decoder hands
    /// them back. Fails exactly when the parts describe no graph: a
    /// duplicate node identifier, or a link endpoint absent from the
    /// node table. Duplicate links collapse to one, as `link` is
    /// idempotent. A graph rebuilt from [`Graph::nodes_list`] and
    /// [`Graph::links_list`] answers every query as the original did.
    pub fn from_parts(nodes: &Vec<(K, Value)>, links: &Vec<(K, K)>) -> (r: Option<Graph<K>>)
        ensures
            match r {
                Some(g) => {
                    &&& g.wf()
                    &&& forall|i: int|
                        0 <= i < nodes@.len() ==> g.model().nodes.contains_key(
                            #[trigger] nodes@[i].0@,
                        ) && g.model().nodes[nodes@[i].0@] == nodes@[i].1@
                    &&& forall|k2: K::V|
                        #[trigger] g.model().nodes.contains_key(k2) ==> exists|i: int|
                            0 <= i < nodes@.len() && #[trigger] nodes@[i].0@ == k2
                    &&& forall|i: int|
                        0 <= i < links@.len() ==> g.model().links.contains(
                            (#[trigger] links@[i].0@, links@[i].1@),
                        )
                    &&& forall|p: (K::V, K::V)|
                        #[trigger] g.model().links.contains(p) ==> exists|i: int|
                            0 <= i < links@.len() && #[trigger] links@[i].0@ == p.0
                                && links@[i].1@ == p.1
                    &&& Self::parts_ok(nodes@, links@)
                },
                None => !Self::parts_ok(nodes@, links@),
            },
    {
        let mut g: Graph<K> = Graph::new();
        let mut i: usize = 0;
        while i < nodes.len()
            invariant
                g.wf(),
                i <= nodes@.len(),
                forall|j: int|
                    0 <= j < i ==> g.model().nodes.contains_key(#[trigger] nodes@[j].0@)
                        && g.model().nodes[nodes@[j].0@] == nodes@[j].1@,
                forall|k2: K::V|
                    #[trigger] g.model().nodes.contains_key(k2) ==> exists|j: int|
                        0 <= j < i && #[trigger] nodes@[j].0@ == k2,
                forall|j1: int, j2: int| 0 <= j1 < j2 < i ==> nodes@[j1].0@ != nodes@[j2].0@,
                g.model().links == Set::<(K::V, K::V)>::empty(),
            decreases nodes@.len() - i,
        {
            let added = g.insert(nodes[i].0.key_clone(), nodes[i].1.duplicate());
            if !added {
                proof {
                    let j = choose|j: int| 0 <= j < i && nodes@[j].0@ == nodes@[i as int].0@;
                    assert(nodes@[j].0@ == nodes@[i as int].0@);
                }
                return None;
            }
            i = i + 1;
        }
        let mut i2: usize = 0;
        while i2 < links.len()
            invariant
                g.wf(),
                i2 <= links@.len(),
                forall|j1: int, j2: int|
                    0 <= j1 < j2 < nodes@.len() ==> nodes@[j1].0@ != nodes@[j2].0@,
                forall|j: int|
                    0 <= j < nodes@.len() ==> g.model().nodes.contains_key(
                        #[trigger] nodes@[j].0@,
                    ) && g.model().nodes[nodes@[j].0@] == nodes@[j].1@,
                forall|k2: K::V|
                    #[trigger] g.model().nodes.contains_key(k2) ==> exists|j: int|
                        0 <= j < nodes@.len() && #[trigger] nodes@[j].0@ == k2,
                forall|j: int|
                    0 <= j < i2 ==> g.model().links.contains(
                        (#[trigger] links@[j].0@, links@[j].1@),
                    ),
                forall|p: (K::V, K::V)|
                    #[trigger] g.model().links.contains(p) ==> exists|j: int|
                        0 <= j < i2 && #[trigger] links@[j].0@ == p.0 && links@[j].1@ == p.1,
            decreases links@.len() - i2,
        {
            match g.link(&links[i2].0, &links[i2].1) {
                None => {
                    proof {
                        if Self::parts_ok(nodes@, links@) {
                            let ja = choose|j: int|
                                0 <= j < nodes@.len() && nodes@[j].0@ == links@[i2 as int].0@;
                            assert(g.model().nodes.contains_key(nodes@[ja].0@));
                            let jb = choose|j: int|
                                0 <= j < nodes@.len() && nodes@[j].0@ == links@[i2 as int].1@;
                            assert(g.model().nodes.contains_key(nodes@[jb].0@));
                        }
                    }
                    return None;
                },
                Some(_) => {},
            }
            i2 = i2 + 1;
        }
        proof {
            // Every link that went in connects two listed nodes, so
            // the parts do describe a graph.
            assert forall|i3: int|
                #![trigger links@[i3]]
                0 <= i3 < links@.len() implies Self::nodes_has(nodes@, links@[i3].0@)
                && Self::nodes_has(nodes@, links@[i3].1@) by {
                assert(g.model().links.contains((links@[i3].0@, links@[i3].1@)));
                g.lemma_model_wf();
                assert(g.model().nodes.contains_key(links@[i3].0@));
                let ja = choose|j: int| 0 <= j < nodes@.len() && nodes@[j].0@ == links@[i3].0@;
                assert(0 <= ja < nodes@.len() && nodes@[ja].0@ == links@[i3].0@);
                assert(g.model().nodes.contains_key(links@[i3].1@));
                let jb = choose|j: int| 0 <= j < nodes@.len() && nodes@[j].0@ == links@[i3].1@;
                assert(0 <= jb < nodes@.len() && nodes@[jb].0@ == links@[i3].1@);
            }
            assert(Self::parts_ok(nodes@, links@));
        }
        Some(g)
    }

    /// A copy of the payload stored under `key`, or nothing when the
    /// node is absent. A pure read.
    pub fn get(&self, key: &K) -> (r: Option<Value>)
        requires
            self.wf(),
        ensures
            match r {
                Some(v) => self.model().has_node(key@) && v@ == self.model().nodes[key@],
                None => !self.model().has_node(key@),
            },
    {
        match self.find_node(key) {
            Some(i) => {
                proof {
                    Self::lemma_nodes_val_at(self.nodes@, key@, i as int);
                }
                Some(self.nodes[i].1.duplicate())
            },
            None => None,
        }
    }
}

} // verus!
