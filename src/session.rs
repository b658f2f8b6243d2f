use crate::cache::{after_request, request_outcome, AnalysisCache, RequestState};
use crate::tree::{
    ancestor_paths,
    filter_view,
    reconcile_selection,
    reconciled,
    resolve,
    selection_holds,
    Hdf5Object,
    NodeId,
    NodeView,
    TreeNode,
};
use vstd::prelude::*;

verus! {

/// The model of an optional tree.
pub open spec fn model_of<IdT>(t: Option<TreeNode<IdT>>) -> Option<NodeView<IdT>> {
    match t {
        Some(n) => Some(n@),
        None => None,
    }
}

/// The view that the query `q` derives from the optional tree `t`.
pub open spec fn derived_view<IdT>(t: Option<NodeView<IdT>>, q: Seq<char>) -> Option<NodeView<IdT>> {
    match t {
        Some(m) => filter_view(m, q),
        None => None,
    }
}

/// The navigation state: the hierarchy once built, the view that the current query derives
/// from it, and the selected path, kept valid across view changes.
pub struct Navigator<IdT> {
    tree: Option<TreeNode<IdT>>,
    view: Option<TreeNode<IdT>>,
    query: String,
    selected: Vec<IdT>,
}

impl<IdT: NodeId> Navigator<IdT> {
    pub closed spec fn tree_model(&self) -> Option<NodeView<IdT>> {
        model_of(self.tree)
    }

    pub closed spec fn view_model(&self) -> Option<NodeView<IdT>> {
        model_of(self.view)
    }

    pub closed spec fn query_model(&self) -> Seq<char> {
        self.query@
    }

    pub closed spec fn selected_model(&self) -> Seq<IdT> {
        self.selected@
    }

    /// The view is the one the query derives from the tree, and both are well formed.
    pub closed spec fn wf(&self) -> bool {
        &&& (self.tree.is_some() ==> self.tree.unwrap().wf())
        &&& (self.view.is_some() ==> self.view.unwrap().wf())
        &&& self.view_model() == derived_view(self.tree_model(), self.query@)
    }

    /// A navigator with no hierarchy yet, an empty query and nothing selected.
    pub fn new() -> (r: Self)
        ensures
            r.wf(),
            r.tree_model().is_none(),
            r.view_model().is_none(),
            r.query_model().len() == 0,
            r.selected_model().len() == 0,
    {
        Navigator { tree: None, view: None, query: String::new(), selected: Vec::new() }
    }

    /// Derives the view for the current query and reconciles the selection with it; returns
    /// the paths to open, which are the ancestors of a newly chosen selection.
    fn refresh(&mut self) -> (opened: Vec<Vec<IdT>>)
        requires
            old(self).tree.is_some() ==> old(self).tree.unwrap().wf(),
        ensures
            final(self).wf(),
            final(self).tree == old(self).tree,
            final(self).query == old(self).query,
            final(self).view_model() == derived_view(old(self).tree_model(), old(self).query@),
            final(self).selected@ == reconciled(final(self).view_model(), old(self).selected@),
            opened_holds(final(self).view_model(), old(self).selected@, final(self).selected@, opened@),
    {
        self.view = match &self.tree {
            Some(t) => t.filter(self.query.as_str()),
            None => None,
        };
        let keep = match &self.view {
            Some(v) => {
                let new_sel = reconcile_selection(Some(v), self.selected.as_slice());
                proof {
                    assert(model_of(self.view) == Some(v@));
                }
                let keep = match v.get_selected_node(self.selected.as_slice()) {
                    Some(n) => self.selected.len() > 0 && n.direct_match(),
                    None => false,
                };
                self.selected = new_sel;
                keep
            },
            None => {
                self.selected = Vec::new();
                true
            },
        };
        if keep {
            Vec::new()
        } else {
            ancestor_paths(self.selected.as_slice())
        }
    }

    /// Installs the hierarchy once it is built, then derives the view for the current query.
    pub fn set_tree(&mut self, tree: TreeNode<IdT>) -> (opened: Vec<Vec<IdT>>)
        requires
            tree.wf(),
        ensures
            final(self).wf(),
            final(self).tree_model() == Some(tree@),
            final(self).query_model() == old(self).query_model(),
            final(self).view_model() == filter_view(tree@, old(self).query_model()),
            final(self).selected_model() == reconciled(
                final(self).view_model(),
                old(self).selected_model(),
            ),
            opened_holds(
                final(self).view_model(),
                old(self).selected_model(),
                final(self).selected_model(),
                opened@,
            ),
    {
        self.tree = Some(tree);
        self.refresh()
    }

    /// Replaces the query, derives the new view and reconciles the selection with it.
    pub fn set_query(&mut self, query: &str) -> (opened: Vec<Vec<IdT>>)
        requires
            old(self).wf(),
        ensures
            final(self).wf(),
            final(self).tree_model() == old(self).tree_model(),
            final(self).query_model() == query@,
            final(self).view_model() == derived_view(old(self).tree_model(), query@),
            final(self).selected_model() == reconciled(
                final(self).view_model(),
                old(self).selected_model(),
            ),
            opened_holds(
                final(self).view_model(),
                old(self).selected_model(),
                final(self).selected_model(),
                opened@,
            ),
    {
        self.query = query.to_string();
        self.refresh()
    }

    /// Moves the selection, as the input layer does.
    pub fn select(&mut self, path: Vec<IdT>)
        requires
            old(self).wf(),
        ensures
            final(self).wf(),
            final(self).tree_model() == old(self).tree_model(),
            final(self).view_model() == old(self).view_model(),
            final(self).query_model() == old(self).query_model(),
            final(self).selected_model() == path@,
    {
        self.selected = path;
    }

    /// The hierarchy, once built.
    pub fn tree(&self) -> (r: Option<&TreeNode<IdT>>)
        ensures
            match r {
                Some(t) => self.tree_model() == Some(t@),
                None => self.tree_model().is_none(),
            },
    {
        match &self.tree {
            Some(t) => Some(t),
            None => None,
        }
    }

    /// The view derived by the current query.
    pub fn current_view(&self) -> (r: Option<&TreeNode<IdT>>)
        ensures
            match r {
                Some(t) => self.view_model() == Some(t@),
                None => self.view_model().is_none(),
            },
    {
        match &self.view {
            Some(t) => Some(t),
            None => None,
        }
    }

    /// The selected path.
    pub fn selected_path(&self) -> (r: &Vec<IdT>)
        ensures
            r@ == self.selected_model(),
    {
        &self.selected
    }
}

/// The paths to open after a new view: the ancestors of a newly chosen selection, or none
/// when the selection was kept.
pub open spec fn opened_holds<IdT>(
    view: Option<NodeView<IdT>>,
    before: Seq<IdT>,
    after: Seq<IdT>,
    opened: Seq<Vec<IdT>>,
) -> bool {
    if view.is_some() && !selection_holds(view.unwrap(), before) {
        &&& opened.len() == (if after.len() == 0 {
            0
        } else {
            after.len() - 1
        })
        &&& forall|i: int| 0 <= i < opened.len() ==> (#[trigger] opened[i])@ == after.subrange(0, i + 1)
    } else {
        opened.len() == 0
    }
}

/// The dataset that `path` leads to in `m`, if it leads to one.
pub open spec fn dataset_at(m: NodeView<i64>, path: Seq<i64>) -> Option<i64> {
    match resolve(m, path) {
        Some(n) => if n.object == Some(Hdf5Object::Dataset) {
            Some(n.id)
        } else {
            None
        },
        None => None,
    }
}

/// Looks up the analysis of the dataset that `path` leads to in `tree`, requesting it when it
/// is unknown. Returns the dataset's id and what the request found; `None`, with the cache
/// unchanged, when the path leads to no dataset.
pub fn analysis_for<V>(tree: &TreeNode<i64>, cache: &mut AnalysisCache<V>, path: &[i64]) -> (r:
    Option<(i64, RequestState)>)
    requires
        old(cache).wf(),
    ensures
        final(cache).wf(),
        match dataset_at(tree@, path@) {
            Some(id) => {
                &&& r == Some((id, request_outcome(old(cache)@, id)))
                &&& final(cache)@ == after_request(old(cache)@, id)
            },
            None => r.is_none() && final(cache)@ == old(cache)@,
        },
{
    match tree.get_selected_node(path) {
        Some(n) => {
            if n.object() == Some(Hdf5Object::Dataset) {
                let id = n.id();
                let state = cache.request(id);
                Some((id, state))
            } else {
                None
            }
        },
        None => None,
    }
}

} // verus!
