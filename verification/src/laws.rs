use vstd::prelude::*;

use crate::model::GraphModel;
use crate::query::{GraphErrorView, QueryView};
use crate::value::ValueView;

verus! {

/// A fresh identifier can be inserted exactly once: on a graph without
/// `n`, inserting reports success; inserting `n` again afterwards — with
/// any payload — reports failure and changes nothing, and the payload
/// stored for `n` stays the one from the first insertion.
pub proof fn lemma_insert_once<KV>(g: GraphModel<KV>, n: KV, v: ValueView, v2: ValueView)
    requires
        !g.has_node(n),
    ensures
        g.insert_ok(n),
        !g.after_insert(n, v).insert_ok(n),
        g.after_insert(n, v).after_insert(n, v2) == g.after_insert(n, v),
        g.after_insert(n, v).has_node(n),
        g.after_insert(n, v).nodes[n] == v,
{
}

/// Linking two existing, unlinked nodes succeeds once and is
/// idempotent: the immediate repetition reports the link as already
/// present and changes nothing, the both-endpoint existence query then
/// sees the link, and the reverse pair stays absent unless it was
/// linked separately.
pub proof fn lemma_link_idempotent<KV>(g: GraphModel<KV>, n1: KV, n2: KV)
    requires
        n1 != n2,
        g.has_node(n1),
        g.has_node(n2),
        !g.links.contains((n1, n2)),
    ensures
        g.link_answer(n1, n2) == Some(true),
        ({
            let g1 = g.after_link(n1, n2);
            &&& g1.link_answer(n1, n2) == Some(false)
            &&& g1.after_link(n1, n2) == g1
            &&& g1.existence_answer(QueryView::LinkSourceTarget(n1, n2)) == Some(true)
            &&& (!g.links.contains((n2, n1)) ==> g1.existence_answer(
                QueryView::LinkSourceTarget(n2, n1),
            ) == Some(false))
        }),
{
    let g1 = g.after_link(n1, n2);
    assert(g1.links.insert((n1, n2)) =~= g1.links);
    assert(g1.after_link(n1, n2) =~= g1);
}

/// Whenever a referenced identifier is absent — never inserted, or
/// deleted since (see [`lemma_delete_purges`]) — both mutation calls
/// return the absent-result signal, every link-shaped existence query
/// does too, and both supported set-mode queries return the
/// unknown-identifier error carrying the absent identifier. The bare
/// node-existence query is the one shape that instead reports the
/// absence as its answer.
pub proof fn lemma_unknown_identifier<KV>(g: GraphModel<KV>, n: KV, m: KV)
    requires
        !g.has_node(n),
    ensures
        g.link_answer(n, m) == None::<bool>,
        g.link_answer(m, n) == None::<bool>,
        g.unlink_answer(n, m) == None::<bool>,
        g.unlink_answer(m, n) == None::<bool>,
        g.existence_answer(QueryView::LinkSourceTarget(n, m)) == None::<bool>,
        g.existence_answer(QueryView::LinkSourceTarget(m, n)) == None::<bool>,
        g.existence_answer(QueryView::LinkSource(n)) == None::<bool>,
        g.existence_answer(QueryView::LinkTarget(n)) == None::<bool>,
        g.set_answer(QueryView::LinkSource(n)) == Err::<Set<KV>, _>(
            GraphErrorView::UnknownNode(n),
        ),
        g.set_answer(QueryView::LinkTarget(n)) == Err::<Set<KV>, _>(
            GraphErrorView::UnknownNode(n),
        ),
        g.existence_answer(QueryView::Node(n)) == Some(false),
{
}

/// A present node with no outgoing links answers the outgoing set
/// query with an empty set — not an error.
pub proof fn lemma_linkless_empty_set<KV>(g: GraphModel<KV>, n: KV)
    requires
        g.has_node(n),
        forall|t: KV| !g.links.contains((n, t)),
    ensures
        g.set_answer(QueryView::LinkSource(n)) == Ok::<_, GraphErrorView<KV>>(
            Set::<KV>::empty(),
        ),
{
    assert(g.targets_of(n) =~= Set::<KV>::empty());
}

/// Deleting a node removes it everywhere, on both sides of every link:
/// afterwards the node is gone, each both-endpoint existence query
/// naming it signals an unknown identifier, and no other node's
/// adjacency set — in either direction — contains it.
pub proof fn lemma_delete_purges<KV>(g: GraphModel<KV>, n: KV, m: KV)
    requires
        g.has_node(n),
    ensures
        g.delete_ok(n),
        ({
            let g1 = g.after_delete(n);
            &&& !g1.has_node(n)
            &&& g1.existence_answer(QueryView::LinkSourceTarget(n, m)) == None::<bool>
            &&& g1.existence_answer(QueryView::LinkSourceTarget(m, n)) == None::<bool>
            &&& (g1.set_answer(QueryView::LinkSource(m)) matches Ok(s) ==> !s.contains(n))
            &&& (g1.set_answer(QueryView::LinkTarget(m)) matches Ok(s) ==> !s.contains(n))
        }),
{
    let g1 = g.after_delete(n);
    assert(!g1.links.contains((m, n)));
    assert(!g1.links.contains((n, m)));
}

} // verus!
