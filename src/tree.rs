use fuzzy_matcher::skim::SkimMatcherV2;
use fuzzy_matcher::FuzzyMatcher;
use vstd::prelude::*;
use vstd::slice::slice_to_vec;

verus! {

/// Identifier of a tree node: a plain value compared by equality.
pub trait NodeId: Copy {
    fn same_id(&self, other: &Self) -> (r: bool)
        ensures
            r == (*self == *other),
    ;
}

impl NodeId for i32 {
    fn same_id(&self, other: &Self) -> (r: bool) {
        *self == *other
    }
}

impl NodeId for i64 {
    fn same_id(&self, other: &Self) -> (r: bool) {
        *self == *other
    }
}

impl NodeId for u32 {
    fn same_id(&self, other: &Self) -> (r: bool) {
        *self == *other
    }
}

impl NodeId for u64 {
    fn same_id(&self, other: &Self) -> (r: bool) {
        *self == *other
    }
}

impl NodeId for usize {
    fn same_id(&self, other: &Self) -> (r: bool) {
        *self == *other
    }
}

/// What a node stands for in the hierarchical source.
#[derive(Debug, Clone, Copy, PartialEq, Eq, Structural)]
pub enum Hdf5Object {
    Group,
    Dataset,
}

/// A node of the hierarchy: an id, a label, ordered children and aggregates.
#[derive(Debug, PartialEq)]
pub struct TreeNode<IdT> {
    id: IdT,
    text: String,
    children: Vec<TreeNode<IdT>>,
    recursive_num_children: usize,
    pub recursive_storage_data_size: u64,
    matching_indices: Vec<usize>,
    pub is_direct_match: bool,
    pub hdf5_object: Option<Hdf5Object>,
}

/// Mathematical model of a node.
pub struct NodeView<IdT> {
    pub id: IdT,
    pub text: Seq<char>,
    pub children: Seq<NodeView<IdT>>,
    pub count: nat,
    pub size: nat,
    pub indices: Seq<usize>,
    pub direct: bool,
    pub object: Option<Hdf5Object>,
}

/// The model of a node and its subtree.
pub closed spec fn node_model<IdT>(n: TreeNode<IdT>) -> NodeView<IdT>
    decreases n,
{
    NodeView {
        id: n.id,
        text: n.text@,
        children: children_model(n.children@),
        count: n.recursive_num_children as nat,
        size: n.recursive_storage_data_size as nat,
        indices: n.matching_indices@,
        direct: n.is_direct_match,
        object: n.hdf5_object,
    }
}

/// The models of a sequence of nodes.
pub closed spec fn children_model<IdT>(s: Seq<TreeNode<IdT>>) -> Seq<NodeView<IdT>>
    decreases s,
{
    if s.len() == 0 {
        Seq::empty()
    } else {
        seq![node_model(s[0])] + children_model(s.drop_first())
    }
}

impl<IdT> View for TreeNode<IdT> {
    type V = NodeView<IdT>;

    open spec fn view(&self) -> NodeView<IdT> {
        node_model(*self)
    }
}

/// Sum over `s` of one plus the descendant count of each node.
pub open spec fn count_sum<IdT>(s: Seq<NodeView<IdT>>) -> nat
    decreases s.len(),
{
    if s.len() == 0 {
        0
    } else {
        1 + s[0].count + count_sum(s.drop_first())
    }
}

/// Sum over `s` of each node's aggregate payload size.
pub open spec fn size_sum<IdT>(s: Seq<NodeView<IdT>>) -> nat
    decreases s.len(),
{
    if s.len() == 0 {
        0
    } else {
        s[0].size + size_sum(s.drop_first())
    }
}

/// Every node of the subtree holds the recursive count of its descendants.
pub open spec fn wf_view<IdT>(m: NodeView<IdT>) -> bool
    decreases m,
{
    &&& m.count == count_sum(m.children)
    &&& forall|i: int| 0 <= i < m.children.len() ==> wf_view(#[trigger] m.children[i])
}

proof fn lemma_children_model<IdT>(s: Seq<TreeNode<IdT>>)
    ensures
        children_model(s).len() == s.len(),
        forall|i: int| 0 <= i < s.len() ==> #[trigger] children_model(s)[i] == node_model(s[i]),
    decreases s.len(),
{
    if s.len() > 0 {
        lemma_children_model(s.drop_first());
        assert forall|i: int| 0 <= i < s.len() implies #[trigger] children_model(s)[i] == node_model(
            s[i],
        ) by {
            if i > 0 {
                assert(s.drop_first()[i - 1] == s[i]);
            }
        }
    }
}

proof fn lemma_children_model_push<IdT>(s: Seq<TreeNode<IdT>>, x: TreeNode<IdT>)
    ensures
        children_model(s.push(x)) == children_model(s).push(node_model(x)),
{
    lemma_children_model(s);
    lemma_children_model(s.push(x));
    assert(children_model(s.push(x)) =~= children_model(s).push(node_model(x)));
}

proof fn lemma_count_sum_suffix_mono<IdT>(s: Seq<NodeView<IdT>>, j: int, k: int)
    requires
        0 <= j <= k <= s.len(),
    ensures
        count_sum(s.subrange(k, s.len() as int)) <= count_sum(s.subrange(j, s.len() as int)),
    decreases k - j,
{
    if j < k {
        lemma_count_sum_suffix_mono(s, j + 1, k);
        assert(s.subrange(j, s.len() as int).drop_first() =~= s.subrange(j + 1, s.len() as int));
    }
}

proof fn lemma_size_sum_suffix_mono<IdT>(s: Seq<NodeView<IdT>>, j: int, k: int)
    requires
        0 <= j <= k <= s.len(),
    ensures
        size_sum(s.subrange(k, s.len() as int)) <= size_sum(s.subrange(j, s.len() as int)),
    decreases k - j,
{
    if j < k {
        lemma_size_sum_suffix_mono(s, j + 1, k);
        assert(s.subrange(j, s.len() as int).drop_first() =~= s.subrange(j + 1, s.len() as int));
    }
}

/// Positions of `text` at which the skim fuzzy matcher places the characters of
/// `query`, or `None` when `query` does not match `text`.
pub uninterp spec fn skim_match_indices(text: Seq<char>, query: Seq<char>) -> Option<Seq<usize>>;

/// Relies on `fuzzy_matcher::skim::SkimMatcherV2::fuzzy_indices` with default settings: the
/// match and its positions depend on the two strings alone, and an empty query matches any
/// text with no positions.
#[verifier::external_body]
fn fuzzy_indices(text: &str, query: &str) -> (r: Option<Vec<usize>>)
    ensures
        match r {
            Some(v) => skim_match_indices(text@, query@) == Some(v@),
            None => skim_match_indices(text@, query@).is_none(),
        },
        query@.len() == 0 ==> r.is_some() && r.unwrap()@.len() == 0,
{
    SkimMatcherV2::default().fuzzy_indices(text, query).map(|(_, indices)| indices)
}

/// The view of `m` pruned by `q`: a node survives when its label matches or when one of its
/// children survives; survivors keep their id and label and record the match.
pub open spec fn filter_view<IdT>(m: NodeView<IdT>, q: Seq<char>) -> Option<NodeView<IdT>>
    decreases m,
{
    let kids = filter_children(m.children, q);
    let hit = skim_match_indices(m.text, q);
    if hit.is_some() || kids.len() > 0 {
        Some(
            NodeView {
                id: m.id,
                text: m.text,
                children: kids,
                count: count_sum(kids),
                size: 0,
                indices: if hit.is_some() {
                    hit.unwrap()
                } else {
                    Seq::empty()
                },
                direct: hit.is_some(),
                object: None,
            },
        )
    } else {
        None
    }
}

/// The surviving nodes of `s` under `q`, in the order they have in `s`.
pub open spec fn filter_children<IdT>(s: Seq<NodeView<IdT>>, q: Seq<char>) -> Seq<NodeView<IdT>>
    decreases s,
{
    if s.len() == 0 {
        Seq::empty()
    } else {
        let rest = filter_children(s.drop_first(), q);
        match filter_view(s[0], q) {
            Some(f) => seq![f] + rest,
            None => rest,
        }
    }
}

/// The survivor of `m` under `q`, as a sequence of zero or one node.
pub open spec fn filter_one<IdT>(m: NodeView<IdT>, q: Seq<char>) -> Seq<NodeView<IdT>> {
    match filter_view(m, q) {
        Some(f) => seq![f],
        None => Seq::empty(),
    }
}

proof fn lemma_filter_children_push<IdT>(s: Seq<NodeView<IdT>>, x: NodeView<IdT>, q: Seq<char>)
    ensures
        filter_children(s.push(x), q) == filter_children(s, q) + filter_one(x, q),
    decreases s.len(),
{
    if s.len() == 0 {
        let t = s.push(x);
        assert(t.drop_first() =~= Seq::<NodeView<IdT>>::empty());
        assert(t[0] == x);
        assert(filter_children(t.drop_first(), q) == Seq::<NodeView<IdT>>::empty());
        assert(filter_children(t, q) =~= filter_one(x, q) + filter_children(t.drop_first(), q));
        assert(filter_children(t, q) =~= filter_children(s, q) + filter_one(x, q));
    } else {
        lemma_filter_children_push(s.drop_first(), x, q);
        let t = s.push(x);
        assert(t.drop_first() =~= s.drop_first().push(x));
        assert(t[0] == s[0]);
        assert(filter_children(s, q) =~= filter_one(s[0], q) + filter_children(s.drop_first(), q));
        assert(filter_children(t, q) =~= filter_one(s[0], q) + filter_children(t.drop_first(), q));
        assert(filter_children(t, q) =~= filter_children(s, q) + filter_one(x, q));
    }
}

proof fn lemma_filter_count<IdT>(m: NodeView<IdT>, q: Seq<char>)
    requires
        wf_view(m),
    ensures
        filter_view(m, q).is_some() ==> filter_view(m, q).unwrap().count <= m.count,
    decreases m,
{
    lemma_filter_children_count(m.children, q);
}

proof fn lemma_filter_children_count<IdT>(s: Seq<NodeView<IdT>>, q: Seq<char>)
    requires
        forall|i: int| 0 <= i < s.len() ==> wf_view(#[trigger] s[i]),
    ensures
        count_sum(filter_children(s, q)) <= count_sum(s),
    decreases s,
{
    if s.len() > 0 {
        lemma_filter_count(s[0], q);
        lemma_filter_children_count(s.drop_first(), q);
        let rest = filter_children(s.drop_first(), q);
        match filter_view(s[0], q) {
            Some(f) => {
                assert((seq![f] + rest).drop_first() =~= rest);
            },
            None => {},
        }
    }
}

proof fn lemma_size_sum_zero<IdT>(s: Seq<NodeView<IdT>>)
    requires
        forall|i: int| 0 <= i < s.len() ==> (#[trigger] s[i]).size == 0,
    ensures
        size_sum(s) == 0,
    decreases s.len(),
{
    if s.len() > 0 {
        lemma_size_sum_zero(s.drop_first());
    }
}

/// The node that `path` leads to from `m`: the path starts with `m`'s id and each further id
/// names a child of the node before it; among siblings the first that leads on is taken.
pub open spec fn resolve<IdT>(m: NodeView<IdT>, path: Seq<IdT>) -> Option<NodeView<IdT>>
    decreases m,
{
    if path.len() == 0 || m.id != path[0] {
        None
    } else if path.len() == 1 {
        Some(m)
    } else {
        resolve_in(m.children, path.drop_first())
    }
}

/// The first resolution of `path` from one of the nodes of `s`.
pub open spec fn resolve_in<IdT>(s: Seq<NodeView<IdT>>, path: Seq<IdT>) -> Option<NodeView<IdT>>
    decreases s,
{
    if s.len() == 0 {
        None
    } else {
        match resolve(s[0], path) {
            Some(n) => Some(n),
            None => resolve_in(s.drop_first(), path),
        }
    }
}

/// The path to the first direct match of the subtree, in pre-order.
pub open spec fn first_match<IdT>(m: NodeView<IdT>) -> Option<Seq<IdT>>
    decreases m,
{
    if m.direct {
        Some(seq![m.id])
    } else {
        match first_match_in(m.children) {
            Some(p) => Some(seq![m.id] + p),
            None => None,
        }
    }
}

/// The path to the first direct match among the subtrees of `s`, in pre-order.
pub open spec fn first_match_in<IdT>(s: Seq<NodeView<IdT>>) -> Option<Seq<IdT>>
    decreases s,
{
    if s.len() == 0 {
        None
    } else {
        match first_match(s[0]) {
            Some(p) => Some(p),
            None => first_match_in(s.drop_first()),
        }
    }
}

/// The path to the first direct match, or the empty path when nothing matches.
pub open spec fn first_match_or_empty<IdT>(m: NodeView<IdT>) -> Seq<IdT> {
    match first_match(m) {
        Some(p) => p,
        None => Seq::empty(),
    }
}

/// `selected` still leads to a direct match of `m`.
pub open spec fn selection_holds<IdT>(m: NodeView<IdT>, selected: Seq<IdT>) -> bool {
    &&& selected.len() > 0
    &&& resolve(m, selected).is_some()
    &&& resolve(m, selected).unwrap().direct
}

/// The selection after reconciliation against `view`.
pub open spec fn reconciled<IdT>(view: Option<NodeView<IdT>>, selected: Seq<IdT>) -> Seq<IdT> {
    match view {
        None => Seq::empty(),
        Some(m) => if selection_holds(m, selected) {
            selected
        } else {
            first_match_or_empty(m)
        },
    }
}

/// Siblings have pairwise distinct ids, throughout the subtree.
pub open spec fn unique_siblings<IdT>(m: NodeView<IdT>) -> bool
    decreases m,
{
    &&& distinct_ids(m.children)
    &&& forall|i: int| 0 <= i < m.children.len() ==> unique_siblings(#[trigger] m.children[i])
}

/// The nodes of `s` have pairwise distinct ids.
pub open spec fn distinct_ids<IdT>(s: Seq<NodeView<IdT>>) -> bool {
    forall|i: int, j: int| 0 <= i < j < s.len() ==> (#[trigger] s[i]).id != (#[trigger] s[j]).id
}

/// Two subtrees with the same ids and labels, arranged alike.
pub open spec fn same_shape<IdT>(a: NodeView<IdT>, b: NodeView<IdT>) -> bool
    decreases a,
{
    &&& a.id == b.id
    &&& a.text == b.text
    &&& a.children.len() == b.children.len()
    &&& forall|i: int|
        0 <= i < a.children.len() ==> same_shape(#[trigger] a.children[i], b.children[i])
}

/// Every node of the subtree matched directly or has a child.
pub open spec fn survivors_justified<IdT>(m: NodeView<IdT>) -> bool
    decreases m,
{
    &&& (m.direct || m.children.len() > 0)
    &&& forall|i: int| 0 <= i < m.children.len() ==> survivors_justified(#[trigger] m.children[i])
}

proof fn lemma_first_match_head<IdT>(m: NodeView<IdT>)
    ensures
        first_match(m).is_some() ==> first_match(m).unwrap().len() > 0
            && first_match(m).unwrap()[0] == m.id,
{
}

proof fn lemma_first_match_in_head<IdT>(s: Seq<NodeView<IdT>>)
    ensures
        first_match_in(s).is_some() ==> first_match_in(s).unwrap().len() > 0 && exists|k: int|
            0 <= k < s.len() && (#[trigger] s[k]).id == first_match_in(s).unwrap()[0],
    decreases s.len(),
{
    if s.len() > 0 {
        lemma_first_match_head(s[0]);
        lemma_first_match_in_head(s.drop_first());
        if first_match(s[0]).is_none() && first_match_in(s.drop_first()).is_some() {
            let k = choose|k: int|
                0 <= k < s.drop_first().len() && (#[trigger] s.drop_first()[k]).id
                    == first_match_in(s.drop_first()).unwrap()[0];
            assert(s[k + 1] == s.drop_first()[k]);
        }
    }
}

proof fn lemma_first_match_resolves<IdT>(m: NodeView<IdT>)
    requires
        unique_siblings(m),
        first_match(m).is_some(),
    ensures
        resolve(m, first_match(m).unwrap()).is_some(),
        resolve(m, first_match(m).unwrap()).unwrap().direct,
    decreases m,
{
    if !m.direct {
        let p = first_match_in(m.children).unwrap();
        lemma_first_match_in_resolves(m.children, p);
        lemma_first_match_in_head(m.children);
        assert((seq![m.id] + p).drop_first() =~= p);
    }
}

proof fn lemma_first_match_in_resolves<IdT>(s: Seq<NodeView<IdT>>, p: Seq<IdT>)
    requires
        distinct_ids(s),
        forall|i: int| 0 <= i < s.len() ==> unique_siblings(#[trigger] s[i]),
        first_match_in(s) == Some(p),
    ensures
        resolve_in(s, p).is_some(),
        resolve_in(s, p).unwrap().direct,
    decreases s,
{
    if s.len() > 0 {
        if first_match(s[0]).is_some() {
            lemma_first_match_resolves(s[0]);
        } else {
            let t = s.drop_first();
            assert(distinct_ids(t)) by {
                assert forall|i: int, j: int| 0 <= i < j < t.len() implies (#[trigger] t[i]).id != (
                #[trigger] t[j]).id by {
                    assert(t[i] == s[i + 1] && t[j] == s[j + 1]);
                }
            }
            lemma_first_match_in_resolves(t, p);
            lemma_first_match_in_head(t);
            let k = choose|k: int| 0 <= k < t.len() && (#[trigger] t[k]).id == p[0];
            assert(t[k] == s[k + 1]);
            assert(resolve(s[0], p).is_none());
        }
    }
}

/// The descendant count of every node is the sum, over its children, of one plus the
/// child's own descendant count.
pub proof fn lemma_recursive_count<IdT: NodeId>(n: TreeNode<IdT>)
    requires
        n.wf(),
    ensures
        n@.count == count_sum(n@.children),
        forall|i: int|
            0 <= i < n@.children.len() ==> (#[trigger] n@.children[i]).count == count_sum(
                n@.children[i].children,
            ),
{
    assert forall|i: int| 0 <= i < n@.children.len() implies (#[trigger] n@.children[i]).count
        == count_sum(n@.children[i].children) by {
        assert(wf_view(n@.children[i]));
    }
}

/// After reconciliation the selection is empty or leads to a node that matched the query
/// directly.
pub proof fn lemma_reconciled_selection_is_direct<IdT>(
    view: Option<NodeView<IdT>>,
    selected: Seq<IdT>,
)
    requires
        view.is_some() ==> unique_siblings(view.unwrap()),
    ensures
        reconciled(view, selected).len() == 0 || (resolve(
            view.unwrap(),
            reconciled(view, selected),
        ).is_some() && resolve(view.unwrap(), reconciled(view, selected)).unwrap().direct),
{
    if let Some(m) = view {
        if !selection_holds(m, selected) && first_match(m).is_some() {
            lemma_first_match_resolves(m);
        }
    }
}

proof fn lemma_filter_view_unique<IdT>(m: NodeView<IdT>, q: Seq<char>)
    requires
        unique_siblings(m),
    ensures
        filter_view(m, q).is_some() ==> unique_siblings(filter_view(m, q).unwrap())
            && filter_view(m, q).unwrap().id == m.id,
    decreases m,
{
    lemma_filter_children_unique(m.children, q);
}

proof fn lemma_filter_children_unique<IdT>(s: Seq<NodeView<IdT>>, q: Seq<char>)
    requires
        forall|k: int| 0 <= k < s.len() ==> unique_siblings(#[trigger] s[k]),
    ensures
        forall|i: int|
            0 <= i < filter_children(s, q).len() ==> unique_siblings(
                #[trigger] filter_children(s, q)[i],
            ) && exists|k: int| 0 <= k < s.len() && s[k].id == filter_children(s, q)[i].id,
        distinct_ids(s) ==> distinct_ids(filter_children(s, q)),
    decreases s,
{
    if s.len() > 0 {
        let t = s.drop_first();
        assert forall|k: int| 0 <= k < t.len() implies unique_siblings(#[trigger] t[k]) by {
            assert(t[k] == s[k + 1]);
        }
        lemma_filter_view_unique(s[0], q);
        lemma_filter_children_unique(t, q);
        let rest = filter_children(t, q);
        let fc = filter_children(s, q);
        assert forall|i: int| 0 <= i < rest.len() implies exists|k: int|
            0 <= k < s.len() && s[k].id == #[trigger] rest[i].id by {
            let k = choose|k: int| 0 <= k < t.len() && t[k].id == rest[i].id;
            assert(s[k + 1] == t[k]);
        }
        if distinct_ids(s) {
            assert(distinct_ids(t)) by {
                assert forall|i: int, j: int| 0 <= i < j < t.len() implies (#[trigger] t[i]).id != (
                #[trigger] t[j]).id by {
                    assert(t[i] == s[i + 1] && t[j] == s[j + 1]);
                }
            }
            assert forall|i: int| 0 <= i < rest.len() implies (#[trigger] rest[i]).id != s[0].id by {
                let k = choose|k: int| 0 <= k < t.len() && t[k].id == rest[i].id;
                assert(s[k + 1] == t[k]);
            }
        }
        match filter_view(s[0], q) {
            Some(f) => {
                assert(fc == seq![f] + rest);
                assert forall|i: int| 0 <= i < fc.len() implies unique_siblings(#[trigger] fc[i])
                    && exists|k: int| 0 <= k < s.len() && s[k].id == fc[i].id by {
                    if i == 0 {
                        assert(fc[0] == f);
                        assert(s[0].id == fc[0].id);
                    } else {
                        assert(fc[i] == rest[i - 1]);
                    }
                }
                if distinct_ids(s) {
                    assert forall|i: int, j: int| 0 <= i < j < fc.len() implies (#[trigger] fc[i]).id
                        != (#[trigger] fc[j]).id by {
                        assert(fc[j] == rest[j - 1]);
                        if i > 0 {
                            assert(fc[i] == rest[i - 1]);
                        }
                    }
                }
            },
            None => {
                assert(fc == rest);
            },
        }
    }
}

/// Filtering keeps sibling ids distinct, so reconciling the selection against the view of a
/// well-formed hierarchy leaves it empty or leading to a direct match.
pub proof fn lemma_reconciled_after_filter<IdT>(
    tree: NodeView<IdT>,
    q: Seq<char>,
    selected: Seq<IdT>,
)
    requires
        unique_siblings(tree),
    ensures
        reconciled(filter_view(tree, q), selected).len() == 0 || ({
            let v = filter_view(tree, q).unwrap();
            let p = reconciled(filter_view(tree, q), selected);
            resolve(v, p).is_some() && resolve(v, p).unwrap().direct
        }),
{
    lemma_filter_view_unique(tree, q);
    lemma_reconciled_selection_is_direct(filter_view(tree, q), selected);
}

/// The paths from `m` to every node of its subtree, in pre-order.
pub open spec fn subtree_paths<IdT>(m: NodeView<IdT>) -> Seq<Seq<IdT>>
    decreases m,
{
    seq![seq![m.id]] + prefixed(m.id, children_paths(m.children))
}

/// The subtree paths of each node of `s`, one node after the other.
pub open spec fn children_paths<IdT>(s: Seq<NodeView<IdT>>) -> Seq<Seq<IdT>>
    decreases s,
{
    if s.len() == 0 {
        Seq::empty()
    } else {
        subtree_paths(s[0]) + children_paths(s.drop_first())
    }
}

/// Each path of `ps` with `id` in front.
pub open spec fn prefixed<IdT>(id: IdT, ps: Seq<Seq<IdT>>) -> Seq<Seq<IdT>> {
    Seq::new(ps.len(), |i: int| seq![id] + ps[i])
}

proof fn lemma_children_paths_push<IdT>(s: Seq<NodeView<IdT>>, x: NodeView<IdT>)
    ensures
        children_paths(s.push(x)) == children_paths(s) + subtree_paths(x),
    decreases s.len(),
{
    let t = s.push(x);
    if s.len() == 0 {
        assert(t.drop_first() =~= Seq::<NodeView<IdT>>::empty());
        assert(children_paths(t.drop_first()) == Seq::<Seq<IdT>>::empty());
        assert(t[0] == x);
        assert(children_paths(t) =~= children_paths(s) + subtree_paths(x));
    } else {
        lemma_children_paths_push(s.drop_first(), x);
        assert(t.drop_first() =~= s.drop_first().push(x));
        assert(t[0] == s[0]);
        assert(children_paths(t) =~= children_paths(s) + subtree_paths(x));
    }
}

/// Every node has one path in its subtree's list: the list is one longer than the node's
/// descendant count.
pub proof fn lemma_subtree_paths_len<IdT>(m: NodeView<IdT>)
    requires
        wf_view(m),
    ensures
        subtree_paths(m).len() == 1 + m.count,
    decreases m,
{
    lemma_children_paths_len(m.children);
}

proof fn lemma_children_paths_len<IdT>(s: Seq<NodeView<IdT>>)
    requires
        forall|i: int| 0 <= i < s.len() ==> wf_view(#[trigger] s[i]),
    ensures
        children_paths(s).len() == count_sum(s),
    decreases s,
{
    if s.len() > 0 {
        lemma_subtree_paths_len(s[0]);
        let t = s.drop_first();
        assert forall|i: int| 0 <= i < t.len() implies wf_view(#[trigger] t[i]) by {
            assert(t[i] == s[i + 1]);
        }
        lemma_children_paths_len(t);
    }
}

/// Every node of a filtered view matched the query directly or keeps a surviving child; its
/// children are exactly the surviving children of the source node, in order.
pub proof fn lemma_filter_survivors<IdT>(m: NodeView<IdT>, q: Seq<char>)
    ensures
        filter_view(m, q).is_some() <==> (skim_match_indices(m.text, q).is_some()
            || filter_children(m.children, q).len() > 0),
        filter_view(m, q).is_some() ==> {
            let f = filter_view(m, q).unwrap();
            &&& survivors_justified(f)
            &&& f.id == m.id
            &&& f.direct == skim_match_indices(m.text, q).is_some()
            &&& f.children == filter_children(m.children, q)
        },
    decreases m,
{
    lemma_filter_children_justified(m.children, q);
}

proof fn lemma_filter_children_justified<IdT>(s: Seq<NodeView<IdT>>, q: Seq<char>)
    ensures
        forall|i: int|
            0 <= i < filter_children(s, q).len() ==> survivors_justified(
                #[trigger] filter_children(s, q)[i],
            ),
    decreases s,
{
    if s.len() > 0 {
        lemma_filter_survivors(s[0], q);
        lemma_filter_children_justified(s.drop_first(), q);
        let rest = filter_children(s.drop_first(), q);
        match filter_view(s[0], q) {
            Some(f) => {
                assert forall|i: int|
                    0 <= i < filter_children(s, q).len() implies survivors_justified(
                    #[trigger] filter_children(s, q)[i],
                ) by {
                    if i > 0 {
                        assert(filter_children(s, q)[i] == rest[i - 1]);
                    }
                }
            },
            None => {},
        }
    }
}

/// Why a hierarchy could not be built.
#[derive(Debug, Clone, Copy, PartialEq, Eq, Structural)]
pub enum TreeError {
    /// Two children of one node carry the same id.
    DuplicateSiblingId,
}

fn has_duplicate_ids<IdT: NodeId>(children: &Vec<TreeNode<IdT>>) -> (r: bool)
    ensures
        r == !distinct_ids(children_model(children@)),
{
    let ghost cm = children_model(children@);
    proof {
        lemma_children_model(children@);
    }
    let mut i: usize = 0;
    while i < children.len()
        invariant
            i <= children@.len(),
            cm == children_model(children@),
            cm.len() == children@.len(),
            forall|k: int| 0 <= k < cm.len() ==> #[trigger] cm[k] == children@[k]@,
            forall|a: int, b: int| 0 <= a < b < i ==> (#[trigger] cm[a]).id != (#[trigger] cm[b]).id,
        decreases children@.len() - i,
    {
        let mut j: usize = 0;
        while j < i
            invariant
                i < children@.len(),
                j <= i,
                cm == children_model(children@),
                cm.len() == children@.len(),
                forall|k: int| 0 <= k < cm.len() ==> #[trigger] cm[k] == children@[k]@,
                forall|a: int| 0 <= a < j ==> (#[trigger] cm[a]).id != cm[i as int].id,
            decreases i - j,
        {
            if children[j].id.same_id(&children[i].id) {
                proof {
                    assert(cm[j as int].id == cm[i as int].id);
                }
                return true;
            }
            j = j + 1;
        }
        i = i + 1;
    }
    false
}

impl<IdT: NodeId> TreeNode<IdT> {
    /// The node and all of its descendants hold their recursive counts.
    pub open spec fn wf(&self) -> bool {
        wf_view(self@)
    }

    /// A node whose label matched with no recorded positions.
    pub fn new(id: IdT, text: &str, children: Vec<TreeNode<IdT>>) -> (r: Self)
        requires
            forall|i: int| 0 <= i < children@.len() ==> (#[trigger] children@[i]).wf(),
            count_sum(children_model(children@)) <= usize::MAX,
            size_sum(children_model(children@)) <= u64::MAX,
        ensures
            r.wf(),
            r@ == (NodeView {
                id,
                text: text@,
                children: children_model(children@),
                count: count_sum(children_model(children@)),
                size: size_sum(children_model(children@)),
                indices: Seq::<usize>::empty(),
                direct: true,
                object: None,
            }),
            r@.children.len() == children@.len(),
            forall|i: int| 0 <= i < children@.len() ==> #[trigger] r@.children[i] == children@[i]@,
    {
        Self::new_with_indices(id, text, children, Vec::new(), true)
    }

    /// A node with its aggregates computed from its children.
    pub fn new_with_indices(
        id: IdT,
        text: &str,
        children: Vec<TreeNode<IdT>>,
        indices: Vec<usize>,
        is_direct_match: bool,
    ) -> (r: Self)
        requires
            forall|i: int| 0 <= i < children@.len() ==> (#[trigger] children@[i]).wf(),
            count_sum(children_model(children@)) <= usize::MAX,
            size_sum(children_model(children@)) <= u64::MAX,
        ensures
            r.wf(),
            r@ == (NodeView {
                id,
                text: text@,
                children: children_model(children@),
                count: count_sum(children_model(children@)),
                size: size_sum(children_model(children@)),
                indices: indices@,
                direct: is_direct_match,
                object: None,
            }),
            r@.children.len() == children@.len(),
            forall|i: int| 0 <= i < children@.len() ==> #[trigger] r@.children[i] == children@[i]@,
    {
        let ghost cm = children_model(children@);
        proof {
            lemma_children_model(children@);
        }
        let mut count: usize = 0;
        let mut size: u64 = 0;
        let mut i: usize = children.len();
        while i > 0
            invariant
                i <= children@.len(),
                cm == children_model(children@),
                cm.len() == children@.len(),
                forall|j: int| 0 <= j < children@.len() ==> #[trigger] cm[j] == node_model(children@[j]),
                count_sum(cm) <= usize::MAX,
                size_sum(cm) <= u64::MAX,
                count as nat == count_sum(cm.subrange(i as int, cm.len() as int)),
                size as nat == size_sum(cm.subrange(i as int, cm.len() as int)),
            decreases i,
        {
            let ghost old_i = i;
            i = i - 1;
            proof {
                assert(cm.subrange(i as int, cm.len() as int).drop_first() =~= cm.subrange(
                    old_i as int,
                    cm.len() as int,
                ));
                lemma_count_sum_suffix_mono(cm, 0, i as int);
                lemma_size_sum_suffix_mono(cm, 0, i as int);
                assert(cm.subrange(0, cm.len() as int) =~= cm);
            }
            let c = &children[i];
            count = count + 1 + c.recursive_num_children;
            size = size + c.recursive_storage_data_size;
        }
        proof {
            assert(cm.subrange(0, cm.len() as int) =~= cm);
        }
        let r = TreeNode {
            id,
            text: text.to_string(),
            children,
            recursive_num_children: count,
            recursive_storage_data_size: size,
            matching_indices: indices,
            is_direct_match,
            hdf5_object: None,
        };
        proof {
            assert forall|j: int| 0 <= j < r@.children.len() implies wf_view(
                #[trigger] r@.children[j],
            ) by {
                assert(r@.children[j] == node_model(r.children@[j]));
            }
        }
        r
    }

    /// Like `new`, but rejects children that share an id.
    pub fn try_new(id: IdT, text: &str, children: Vec<TreeNode<IdT>>) -> (r: Result<Self, TreeError>)
        requires
            forall|i: int| 0 <= i < children@.len() ==> (#[trigger] children@[i]).wf(),
            count_sum(children_model(children@)) <= usize::MAX,
            size_sum(children_model(children@)) <= u64::MAX,
        ensures
            match r {
                Ok(n) => {
                    &&& distinct_ids(children_model(children@))
                    &&& n.wf()
                    &&& n@ == (NodeView {
                        id,
                        text: text@,
                        children: children_model(children@),
                        count: count_sum(children_model(children@)),
                        size: size_sum(children_model(children@)),
                        indices: Seq::<usize>::empty(),
                        direct: true,
                        object: None,
                    })
                    &&& (forall|i: int|
                        0 <= i < children@.len() ==> unique_siblings(#[trigger] children@[i]@))
                        ==> unique_siblings(n@)
                },
                Err(e) => e == TreeError::DuplicateSiblingId && !distinct_ids(
                    children_model(children@),
                ),
            },
    {
        if has_duplicate_ids(&children) {
            return Err(TreeError::DuplicateSiblingId);
        }
        proof {
            lemma_children_model(children@);
        }
        let ghost kids = children@;
        let n = Self::new(id, text, children);
        proof {
            assert forall|i: int| 0 <= i < n@.children.len() implies #[trigger] n@.children[i]
                == kids[i]@ by {}
        }
        Ok(n)
    }

    /// Sets the aggregate payload size of this node.
    pub fn set_storage_dataset_size(self, size: u64) -> (r: Self)
        ensures
            r@ == (NodeView { size: size as nat, ..self@ }),
            self.wf() ==> r.wf(),
    {
        let mut s = self;
        s.recursive_storage_data_size = size;
        s
    }

    /// Records what this node stands for in the source.
    pub fn set_hdf5_object(self, hdf5_object: Hdf5Object) -> (r: Self)
        ensures
            r@ == (NodeView { object: Some(hdf5_object), ..self@ }),
            self.wf() ==> r.wf(),
    {
        let mut s = self;
        s.hdf5_object = Some(hdf5_object);
        s
    }

    /// This node's id.
    pub fn id(&self) -> (r: IdT)
        ensures
            r == self@.id,
    {
        self.id
    }

    /// This node's label.
    pub fn text(&self) -> (r: &str)
        ensures
            r@ == self@.text,
    {
        self.text.as_str()
    }

    /// This node's children, in order.
    pub fn children(&self) -> (r: &[TreeNode<IdT>])
        ensures
            children_model(r@) == self@.children,
            r@.len() == self@.children.len(),
            forall|i: int| 0 <= i < r@.len() ==> #[trigger] r@[i]@ == self@.children[i],
    {
        proof {
            lemma_children_model(self.children@);
        }
        self.children.as_slice()
    }

    /// The number of descendants of this node.
    pub fn recursive_num_children(&self) -> (r: usize)
        ensures
            r == self@.count,
    {
        self.recursive_num_children
    }

    /// Whether this node's own label matched the query.
    pub fn direct_match(&self) -> (r: bool)
        ensures
            r == self@.direct,
    {
        self.is_direct_match
    }

    /// What this node stands for in the source, if known.
    pub fn object(&self) -> (r: Option<Hdf5Object>)
        ensures
            r == self@.object,
    {
        self.hdf5_object
    }

    /// Positions of the label's characters that matched the query.
    pub fn matching_indices(&self) -> (r: &Vec<usize>)
        ensures
            r@ == self@.indices,
    {
        &self.matching_indices
    }

    /// This node pruned by `query`: `None` when neither the node's label nor any
    /// descendant's label matches.
    pub fn filter(&self, query: &str) -> (r: Option<TreeNode<IdT>>)
        requires
            self.wf(),
        ensures
            match r {
                Some(n) => n.wf() && filter_view(self@, query@) == Some(n@),
                None => filter_view(self@, query@).is_none(),
            },
            query@.len() == 0 ==> r.is_some() && same_shape(r.unwrap()@, self@),
        decreases self,
    {
        let indices = fuzzy_indices(self.text.as_str(), query);
        let i_match = indices.is_some();
        let ghost cs = self@.children;
        proof {
            lemma_children_model(self.children@);
        }
        let mut matching: Vec<TreeNode<IdT>> = Vec::new();
        let mut i: usize = 0;
        while i < self.children.len()
            invariant
                i <= self.children@.len(),
                self.wf(),
                cs == self@.children,
                cs.len() == self.children@.len(),
                forall|j: int| 0 <= j < cs.len() ==> #[trigger] cs[j] == self.children@[j]@,
                forall|j: int| 0 <= j < matching@.len() ==> (#[trigger] matching@[j]).wf(),
                forall|j: int| 0 <= j < matching@.len() ==> (#[trigger] matching@[j])@.size == 0,
                children_model(matching@) == filter_children(cs.subrange(0, i as int), query@),
                query@.len() == 0 ==> matching@.len() == i,
                query@.len() == 0 ==> forall|j: int|
                    0 <= j < matching@.len() ==> same_shape(#[trigger] matching@[j]@, cs[j]),
            decreases self.children@.len() - i,
        {
            let child = &self.children[i];
            proof {
                assert(cs[i as int] == child@);
                assert(wf_view(cs[i as int]));
            }
            let f = child.filter(query);
            proof {
                assert(cs.subrange(0, i as int + 1) =~= cs.subrange(0, i as int).push(cs[i as int]));
                lemma_filter_children_push(cs.subrange(0, i as int), cs[i as int], query@);
            }
            match f {
                Some(n) => {
                    proof {
                        lemma_children_model_push(matching@, n);
                    }
                    matching.push(n);
                },
                None => {},
            }
            i = i + 1;
        }
        proof {
            assert(cs.subrange(0, cs.len() as int) =~= cs);
            lemma_children_model(matching@);
            lemma_filter_children_count(cs, query@);
            lemma_size_sum_zero(children_model(matching@));
        }
        if i_match || matching.len() > 0 {
            let ix = match indices {
                Some(v) => v,
                None => Vec::new(),
            };
            let ghost kids = matching@;
            let n = TreeNode::new_with_indices(self.id, self.text.as_str(), matching, ix, i_match);
            proof {
                if query@.len() == 0 {
                    assert forall|j: int| 0 <= j < n@.children.len() implies same_shape(
                        #[trigger] n@.children[j],
                        self@.children[j],
                    ) by {
                        assert(n@.children[j] == kids[j]@);
                    }
                }
            }
            Some(n)
        } else {
            None
        }
    }

    /// The node that `path` leads to, if any.
    pub fn get_selected_node(&self, path: &[IdT]) -> (r: Option<&TreeNode<IdT>>)
        ensures
            match r {
                Some(n) => resolve(self@, path@) == Some(n@),
                None => resolve(self@, path@).is_none(),
            },
    {
        proof {
            assert(path@.subrange(0, path@.len() as int) =~= path@);
        }
        self.resolve_from(path, 0)
    }

    fn resolve_from(&self, path: &[IdT], start: usize) -> (r: Option<&TreeNode<IdT>>)
        requires
            start <= path@.len(),
        ensures
            match r {
                Some(n) => resolve(self@, path@.subrange(start as int, path@.len() as int)) == Some(
                    n@,
                ),
                None => resolve(self@, path@.subrange(start as int, path@.len() as int)).is_none(),
            },
        decreases self,
    {
        let ghost rest = path@.subrange(start as int, path@.len() as int);
        if start >= path.len() {
            return None;
        }
        if !self.id.same_id(&path[start]) {
            return None;
        }
        let next = start + 1;
        if next == path.len() {
            return Some(self);
        }
        let ghost cs = self@.children;
        let ghost tail = path@.subrange(start as int + 1, path@.len() as int);
        proof {
            lemma_children_model(self.children@);
            assert(rest.drop_first() =~= tail);
            assert(rest[0] == path@[start as int]);
            assert(cs.subrange(0, cs.len() as int) =~= cs);
        }
        let mut i: usize = 0;
        while i < self.children.len()
            invariant
                next == start + 1,
                next < path@.len(),
                tail == path@.subrange(next as int, path@.len() as int),
                rest == path@.subrange(start as int, path@.len() as int),
                resolve(self@, rest) == resolve_in(cs, tail),
                i <= self.children@.len(),
                cs == self@.children,
                cs.len() == self.children@.len(),
                forall|j: int| 0 <= j < cs.len() ==> #[trigger] cs[j] == self.children@[j]@,
                resolve_in(cs, tail) == resolve_in(cs.subrange(i as int, cs.len() as int), tail),
            decreases self.children@.len() - i,
        {
            let child = &self.children[i];
            proof {
                let sub = cs.subrange(i as int, cs.len() as int);
                assert(sub.len() == cs.len() - i);
                assert(sub[0] == child@);
                assert(sub.drop_first() =~= cs.subrange(i as int + 1, cs.len() as int));
            }
            let found = child.resolve_from(path, next);
            if found.is_some() {
                proof {
                    let sub = cs.subrange(i as int, cs.len() as int);
                    assert(sub.len() > 0);
                    assert(resolve(sub[0], tail) == Some(found.unwrap()@));
                    assert(resolve_in(sub, tail) == Some(found.unwrap()@));
                }
                return found;
            }
            i = i + 1;
        }
        None
    }

    /// The ids from this node down to the first node, in pre-order, that matched directly;
    /// empty when no node of the subtree matched.
    pub fn path_to_first_match(&self) -> (r: Vec<IdT>)
        ensures
            r@ == first_match_or_empty(self@),
    {
        match self.first_match_path() {
            Some(p) => p,
            None => Vec::new(),
        }
    }

    fn first_match_path(&self) -> (r: Option<Vec<IdT>>)
        ensures
            match r {
                Some(p) => first_match(self@) == Some(p@),
                None => first_match(self@).is_none(),
            },
        decreases self,
    {
        if self.is_direct_match {
            let mut p: Vec<IdT> = Vec::new();
            p.push(self.id);
            proof {
                assert(p@ =~= seq![self@.id]);
            }
            return Some(p);
        }
        let ghost cs = self@.children;
        proof {
            lemma_children_model(self.children@);
            assert(cs.subrange(0, cs.len() as int) =~= cs);
        }
        let mut i: usize = 0;
        while i < self.children.len()
            invariant
                !self@.direct,
                i <= self.children@.len(),
                cs == self@.children,
                cs.len() == self.children@.len(),
                forall|j: int| 0 <= j < cs.len() ==> #[trigger] cs[j] == self.children@[j]@,
                first_match_in(cs) == first_match_in(cs.subrange(i as int, cs.len() as int)),
            decreases self.children@.len() - i,
        {
            let child = &self.children[i];
            proof {
                let sub = cs.subrange(i as int, cs.len() as int);
                assert(sub.len() == cs.len() - i);
                assert(sub[0] == child@);
                assert(sub.drop_first() =~= cs.subrange(i as int + 1, cs.len() as int));
            }
            match child.first_match_path() {
                Some(mut tail) => {
                    let mut p: Vec<IdT> = Vec::new();
                    p.push(self.id);
                    p.append(&mut tail);
                    proof {
                        assert(p@ =~= seq![self@.id] + first_match_in(cs).unwrap());
                    }
                    return Some(p);
                },
                None => {},
            }
            i = i + 1;
        }
        None
    }

    /// The paths from this node to every node of its subtree, in pre-order.
    pub fn all_paths(&self) -> (r: Vec<Vec<IdT>>)
        ensures
            r@.len() == subtree_paths(self@).len(),
            forall|i: int| 0 <= i < r@.len() ==> (#[trigger] r@[i])@ == subtree_paths(self@)[i],
        decreases self,
    {
        let mut r: Vec<Vec<IdT>> = Vec::new();
        let mut own: Vec<IdT> = Vec::new();
        own.push(self.id);
        r.push(own);
        let ghost cs = self@.children;
        let ghost id = self@.id;
        proof {
            lemma_children_model(self.children@);
            assert(cs.subrange(0, 0) =~= Seq::<NodeView<IdT>>::empty());
        }
        let mut i: usize = 0;
        while i < self.children.len()
            invariant
                i <= self.children@.len(),
                cs == self@.children,
                id == self@.id,
                id == self.id,
                cs.len() == self.children@.len(),
                forall|j: int| 0 <= j < cs.len() ==> #[trigger] cs[j] == self.children@[j]@,
                r@.len() == 1 + children_paths(cs.subrange(0, i as int)).len(),
                r@[0]@ == seq![id],
                forall|j: int|
                    1 <= j < r@.len() ==> (#[trigger] r@[j])@ == seq![id] + children_paths(
                        cs.subrange(0, i as int),
                    )[j - 1],
            decreases self.children@.len() - i,
        {
            let child = &self.children[i];
            let sub = child.all_paths();
            let ghost before = children_paths(cs.subrange(0, i as int));
            proof {
                assert(cs.subrange(0, i as int + 1) =~= cs.subrange(0, i as int).push(cs[i as int]));
                lemma_children_paths_push(cs.subrange(0, i as int), cs[i as int]);
            }
            let ghost r0 = r@;
            let mut k: usize = 0;
            while k < sub.len()
                invariant
                    k <= sub@.len(),
                    id == self.id,
                    r@.len() == r0.len() + k,
                    r0.len() == 1 + before.len(),
                    forall|j: int| 0 <= j < r0.len() ==> #[trigger] r@[j] == r0[j],
                    forall|j: int|
                        0 <= j < k ==> (#[trigger] r@[r0.len() + j])@ == seq![id] + sub@[j]@,
                decreases sub@.len() - k,
            {
                let mut p: Vec<IdT> = Vec::new();
                p.push(self.id);
                let mut tail = slice_to_vec(sub[k].as_slice());
                p.append(&mut tail);
                proof {
                    assert(p@ =~= seq![id] + sub@[k as int]@);
                }
                r.push(p);
                k = k + 1;
            }
            proof {
                let after = children_paths(cs.subrange(0, i as int + 1));
                assert(after == before + subtree_paths(child@));
                assert(child@ == cs[i as int]);
                assert forall|j: int| 1 <= j < r@.len() implies (#[trigger] r@[j])@ == seq![id]
                    + after[j - 1] by {
                    if j < r0.len() {
                        assert(r@[j] == r0[j]);
                    } else {
                        let jj = j - r0.len();
                        assert(r@[r0.len() + jj] == r@[j]);
                        assert(after[j - 1] == subtree_paths(child@)[jj]);
                    }
                }
            }
            i = i + 1;
        }
        proof {
            assert(cs.subrange(0, cs.len() as int) =~= cs);
            let sp = subtree_paths(self@);
            assert forall|j: int| 0 <= j < r@.len() implies (#[trigger] r@[j])@ == sp[j] by {
                if j == 0 {
                    assert(sp[0] == seq![id]);
                } else {
                    assert(sp[j] == prefixed(id, children_paths(cs))[j - 1]);
                }
            }
        }
        r
    }
}

/// The selection to show once `view` has replaced the previous view: the previous selection
/// when it still leads to a direct match, else the path to the first direct match (empty when
/// nothing matched, or when there is no view).
pub fn reconcile_selection<IdT: NodeId>(view: Option<&TreeNode<IdT>>, selected: &[IdT]) -> (r:
    Vec<IdT>)
    ensures
        r@ == reconciled(
            match view {
                Some(v) => Some(v@),
                None => None,
            },
            selected@,
        ),
{
    match view {
        None => Vec::new(),
        Some(v) => {
            let keep = match v.get_selected_node(selected) {
                Some(n) => selected.len() > 0 && n.is_direct_match,
                None => false,
            };
            if keep {
                slice_to_vec(selected)
            } else {
                v.path_to_first_match()
            }
        },
    }
}

/// The ancestors of the last node of `path`, as paths from the root: every proper non-empty
/// prefix of `path`, shortest first.
pub fn ancestor_paths<IdT: NodeId>(path: &[IdT]) -> (r: Vec<Vec<IdT>>)
    ensures
        path@.len() == 0 ==> r@.len() == 0,
        path@.len() > 0 ==> r@.len() == path@.len() - 1,
        forall|i: int| 0 <= i < r@.len() ==> (#[trigger] r@[i])@ == path@.subrange(0, i + 1),
{
    let mut r: Vec<Vec<IdT>> = Vec::new();
    let mut prefix: Vec<IdT> = Vec::new();
    if path.len() == 0 {
        return r;
    }
    let mut i: usize = 0;
    while i < path.len() - 1
        invariant
            path@.len() > 0,
            i + 1 <= path@.len(),
            prefix@ == path@.subrange(0, i as int),
            r@.len() == i,
            forall|j: int| 0 <= j < r@.len() ==> (#[trigger] r@[j])@ == path@.subrange(0, j + 1),
        decreases path@.len() - i,
    {
        prefix.push(path[i]);
        proof {
            assert(prefix@ =~= path@.subrange(0, i as int + 1));
        }
        r.push(slice_to_vec(prefix.as_slice()));
        i = i + 1;
    }
    r
}

} // verus!
