//! Declared and discovered shapes, and the matcher between them.

use vstd::prelude::*;

verus! {

/// The format of a leaf file, told by its extension.
#[derive(Debug, PartialEq, Eq, Hash, PartialOrd, Ord)]
pub struct AssetFileType {
    pub extension: String,
}

/// A child of a directory under its name.
#[derive(Debug, PartialEq, Eq, Hash, PartialOrd, Ord)]
pub struct AssetTreeNode<T = AssetBound> {
    pub name: String,
    pub inner: T,
}

/// The shape that a file or a directory is expected to have.
///
/// A directory accepts any number of children that fit one of the bounds in
/// `collect`, and names in `defined` the children that it requires.
#[derive(Debug, PartialEq, Eq, Hash, PartialOrd, Ord)]
pub enum AssetBound {
    File { ty: AssetFileType },
    Directory { collect: Vec<AssetBound>, defined: Vec<AssetTreeNode> },
}

/// The shape that a file or a directory was found to have.
#[derive(Debug, PartialEq, Eq, Hash, PartialOrd, Ord)]
pub enum AssetProperties {
    File { ext: String },
    Directory { children: Vec<AssetTreeNode<AssetProperties>> },
}

/// A named child, as contracts see it.
pub struct NodeView<T> {
    pub name: Seq<char>,
    pub inner: T,
}

/// An expected shape, as contracts see it.
pub enum BoundView {
    File { extension: Seq<char> },
    Directory { collect: Seq<BoundView>, defined: Seq<NodeView<BoundView>> },
}

/// A discovered shape, as contracts see it.
pub enum PropertiesView {
    File { ext: Seq<char> },
    Directory { children: Seq<NodeView<PropertiesView>> },
}

impl View for AssetFileType {
    type V = Seq<char>;

    open spec fn view(&self) -> Seq<char> {
        self.extension@
    }
}

impl<T: View> View for AssetTreeNode<T> {
    type V = NodeView<T::V>;

    open spec fn view(&self) -> NodeView<T::V> {
        NodeView { name: self.name@, inner: self.inner@ }
    }
}

/// The expected shape that a bound stands for.
pub open spec fn bound_view(bound: AssetBound) -> BoundView
    decreases bound,
{
    match bound {
        AssetBound::File { ty } => BoundView::File { extension: ty.extension@ },
        AssetBound::Directory { collect, defined } => BoundView::Directory {
            collect: Seq::new(
                collect@.len(),
                |i: int|
                    if 0 <= i < collect@.len() {
                        bound_view(collect@[i])
                    } else {
                        arbitrary()
                    },
            ),
            defined: Seq::new(
                defined@.len(),
                |i: int|
                    if 0 <= i < defined@.len() {
                        NodeView { name: defined@[i].name@, inner: bound_view(defined@[i].inner) }
                    } else {
                        arbitrary()
                    },
            ),
        },
    }
}

/// The discovered shape that properties stand for.
pub open spec fn properties_view(properties: AssetProperties) -> PropertiesView
    decreases properties,
{
    match properties {
        AssetProperties::File { ext } => PropertiesView::File { ext: ext@ },
        AssetProperties::Directory { children } => PropertiesView::Directory {
            children: Seq::new(
                children@.len(),
                |i: int|
                    if 0 <= i < children@.len() {
                        NodeView {
                            name: children@[i].name@,
                            inner: properties_view(children@[i].inner),
                        }
                    } else {
                        arbitrary()
                    },
            ),
        },
    }
}

impl View for AssetBound {
    type V = BoundView;

    open spec fn view(&self) -> BoundView {
        bound_view(*self)
    }
}

impl View for AssetProperties {
    type V = PropertiesView;

    open spec fn view(&self) -> PropertiesView {
        properties_view(*self)
    }
}

/// The views of a sequence of bounds, one for one.
pub open spec fn bounds_view(bounds: Seq<AssetBound>) -> Seq<BoundView> {
    Seq::new(bounds.len(), |i: int| bounds[i]@)
}

/// The views of a sequence of named children, one for one.
pub open spec fn nodes_view<T: View>(nodes: Seq<AssetTreeNode<T>>) -> Seq<NodeView<T::V>> {
    Seq::new(nodes.len(), |i: int| nodes[i]@)
}

/// Whether a discovered shape fits an expected one.
///
/// Two files fit when their extensions are equal. Two directories fit when
/// every child that is present is accepted. A file never fits a directory,
/// nor a directory a file.
pub open spec fn shape_matches(properties: PropertiesView, bound: BoundView) -> bool
    decreases properties,
{
    match (properties, bound) {
        (PropertiesView::File { ext }, BoundView::File { extension }) => ext == extension,
        (PropertiesView::Directory { children }, BoundView::Directory { collect, defined }) => {
            forall|i: int|
                #![trigger children[i]]
                0 <= i < children.len() ==> child_accepted(children[i], collect, defined)
        },
        _ => false,
    }
}

/// Whether a directory with these rules accepts a child: it fits one of the
/// `collect` bounds, or `defined` holds its name with a bound that it fits.
pub open spec fn child_accepted(
    child: NodeView<PropertiesView>,
    collect: Seq<BoundView>,
    defined: Seq<NodeView<BoundView>>,
) -> bool
    decreases child,
{
    ||| exists|j: int|
        #![trigger collect[j]]
        0 <= j < collect.len() && shape_matches(child.inner, collect[j])
    ||| exists|k: int|
        #![trigger defined[k]]
        0 <= k < defined.len() && defined[k].name == child.name && shape_matches(
            child.inner,
            defined[k].inner,
        )
}

/// Whether one of the first `n` bounds of `collect` fits the shape.
pub open spec fn collect_fits(inner: PropertiesView, collect: Seq<BoundView>, n: int) -> bool {
    exists|j: int|
        #![trigger collect[j]]
        0 <= j < n && j < collect.len() && shape_matches(inner, collect[j])
}

/// Whether one of the first `n` entries of `defined` has the child's name and
/// a bound that the child fits.
pub open spec fn defined_fits(
    child: NodeView<PropertiesView>,
    defined: Seq<NodeView<BoundView>>,
    n: int,
) -> bool {
    exists|k: int|
        #![trigger defined[k]]
        0 <= k < n && k < defined.len() && defined[k].name == child.name && shape_matches(
            child.inner,
            defined[k].inner,
        )
}

/// A directory bound stands for the views of its two lists.
pub proof fn lemma_directory_view(collect: Vec<AssetBound>, defined: Vec<AssetTreeNode>)
    ensures
        (AssetBound::Directory { collect, defined })@ == (BoundView::Directory {
            collect: bounds_view(collect@),
            defined: nodes_view(defined@),
        }),
{
    let b = (AssetBound::Directory { collect, defined })@;
    assert(b->collect =~= bounds_view(collect@));
    assert(b->defined =~= nodes_view(defined@));
}

/// Directory properties stand for the views of their children.
pub proof fn lemma_children_view(children: Vec<AssetTreeNode<AssetProperties>>)
    ensures
        (AssetProperties::Directory { children })@ == (PropertiesView::Directory {
            children: nodes_view(children@),
        }),
{
    let p = (AssetProperties::Directory { children })@;
    assert(p->children =~= nodes_view(children@));
}

/// Whether no two of the children have the same name.
pub open spec fn distinct_names<T>(children: Seq<NodeView<T>>) -> bool {
    forall|i: int, j: int|
        #![trigger children[i], children[j]]
        0 <= i < j < children.len() ==> children[i].name != children[j].name
}

/// Whether the names of the required children of a bound are distinct, in
/// the bound itself and in every bound within it.
pub open spec fn well_formed(bound: BoundView) -> bool
    decreases bound,
{
    match bound {
        BoundView::File { extension } => true,
        BoundView::Directory { collect, defined } => {
            &&& distinct_names(defined)
            &&& forall|i: int|
                #![trigger collect[i]]
                0 <= i < collect.len() ==> well_formed(collect[i])
            &&& forall|i: int|
                #![trigger defined[i]]
                0 <= i < defined.len() ==> well_formed(defined[i].inner)
        },
    }
}

/// A directory does not fit a bound if one of its children has the name of
/// a required child without fitting the bound of that child, and fits none
/// of the `collect` bounds either.
pub proof fn lemma_confused_child_is_rejected(
    children: Seq<NodeView<PropertiesView>>,
    collect: Seq<BoundView>,
    defined: Seq<NodeView<BoundView>>,
    child: int,
    entry: int,
)
    requires
        well_formed(BoundView::Directory { collect, defined }),
        0 <= child < children.len(),
        0 <= entry < defined.len(),
        defined[entry].name == children[child].name,
        !shape_matches(children[child].inner, defined[entry].inner),
        forall|j: int|
            #![trigger collect[j]]
            0 <= j < collect.len() ==> !shape_matches(children[child].inner, collect[j]),
    ensures
        !shape_matches(
            PropertiesView::Directory { children },
            BoundView::Directory { collect, defined },
        ),
{
    let properties = PropertiesView::Directory { children };
    assert(properties->children[child] == children[child]);
}

impl AssetProperties {
    /// Tells whether this discovered shape fits `bound`.
    ///
    /// The test asks nothing of children that are absent: it only holds what
    /// is present against the rules of the bound.
    pub fn matches(&self, bound: &AssetBound) -> (fits: bool)
        ensures
            fits == shape_matches(self@, bound@),
        decreases self, 1nat,
    {
        match self {
            AssetProperties::File { ext } => match bound {
                AssetBound::File { ty } => *ext == ty.extension,
                AssetBound::Directory { .. } => false,
            },
            AssetProperties::Directory { children } => match bound {
                AssetBound::File { .. } => false,
                AssetBound::Directory { collect, defined } => {
                    proof {
                        lemma_children_view(*children);
                        lemma_directory_view(*collect, *defined);
                    }
                    let mut i: usize = 0;
                    while i < children.len()
                        invariant
                            i <= children.len(),
                            self@ == (PropertiesView::Directory {
                                children: nodes_view(children@),
                            }),
                            bound@ == (BoundView::Directory {
                                collect: bounds_view(collect@),
                                defined: nodes_view(defined@),
                            }),
                            forall|k: int|
                                #![trigger nodes_view(children@)[k]]
                                0 <= k < i ==> child_accepted(
                                    nodes_view(children@)[k],
                                    bounds_view(collect@),
                                    nodes_view(defined@),
                                ),
                            forall|k: int|
                                0 <= k < children.len() ==> decreases_to!(self => #[trigger] children[k]),
                        decreases children.len() - i,
                    {
                        if !Self::accepted(&children[i], collect, defined) {
                            assert(!child_accepted(
                                self@->children[i as int],
                                bound@->collect,
                                bound@->defined,
                            ));
                            return false;
                        }
                        i += 1;
                    }
                    true
                },
            },
        }
    }

    /// Tells whether a directory with the rules `collect` and `defined`
    /// accepts `child`.
    fn accepted(
        child: &AssetTreeNode<AssetProperties>,
        collect: &Vec<AssetBound>,
        defined: &Vec<AssetTreeNode>,
    ) -> (fits: bool)
        ensures
            fits == child_accepted(child@, bounds_view(collect@), nodes_view(defined@)),
        decreases child, 0nat,
    {
        let mut j: usize = 0;
        while j < collect.len()
            invariant
                j <= collect.len(),
                !collect_fits(child@.inner, bounds_view(collect@), j as int),
            decreases collect.len() - j,
        {
            if child.inner.matches(&collect[j]) {
                assert(shape_matches(child@.inner, bounds_view(collect@)[j as int]));
                return true;
            }
            j += 1;
        }
        let mut k: usize = 0;
        while k < defined.len()
            invariant
                k <= defined.len(),
                !collect_fits(child@.inner, bounds_view(collect@), collect.len() as int),
                !defined_fits(child@, nodes_view(defined@), k as int),
            decreases defined.len() - k,
        {
            if child.inner.matches(&defined[k].inner) && defined[k].name == child.name {
                assert(shape_matches(child@.inner, nodes_view(defined@)[k as int].inner));
                return true;
            }
            k += 1;
        }
        false
    }
}

impl Clone for AssetFileType {
    fn clone(&self) -> (copy: Self)
        ensures
            copy@ == self@,
    {
        AssetFileType { extension: self.extension.clone() }
    }
}

impl<T: Clone> Clone for AssetTreeNode<T> {
    fn clone(&self) -> (copy: Self)
        ensures
            copy.name@ == self.name@,
            cloned(self.inner, copy.inner),
    {
        AssetTreeNode { name: self.name.clone(), inner: self.inner.clone() }
    }
}

impl Clone for AssetBound {
    fn clone(&self) -> (copy: Self)
        ensures
            copy@ == self@,
    {
        clone_bound(self)
    }
}

impl Clone for AssetProperties {
    fn clone(&self) -> (copy: Self)
        ensures
            copy@ == self@,
    {
        clone_properties(self)
    }
}

/// Copies a bound with all that it holds.
fn clone_bound(bound: &AssetBound) -> (copy: AssetBound)
    ensures
        copy@ == bound@,
    decreases bound,
{
    match bound {
        AssetBound::File { ty } => AssetBound::File { ty: ty.clone() },
        AssetBound::Directory { collect, defined } => {
            let mut collect_copy: Vec<AssetBound> = Vec::new();
            let mut i: usize = 0;
            while i < collect.len()
                invariant
                    i <= collect.len(),
                    collect_copy.len() == i,
                    forall|k: int| 0 <= k < i ==> collect_copy[k]@ == #[trigger] collect[k]@,
                    forall|k: int|
                        0 <= k < collect.len() ==> decreases_to!(bound => #[trigger] collect[k]),
                decreases collect.len() - i,
            {
                collect_copy.push(clone_bound(&collect[i]));
                i += 1;
            }
            let mut defined_copy: Vec<AssetTreeNode> = Vec::new();
            let mut j: usize = 0;
            while j < defined.len()
                invariant
                    j <= defined.len(),
                    defined_copy.len() == j,
                    forall|k: int| 0 <= k < j ==> defined_copy[k]@ == #[trigger] defined[k]@,
                    forall|k: int|
                        0 <= k < defined.len() ==> decreases_to!(bound => #[trigger] defined[k]),
                decreases defined.len() - j,
            {
                defined_copy.push(
                    AssetTreeNode {
                        name: defined[j].name.clone(),
                        inner: clone_bound(&defined[j].inner),
                    },
                );
                j += 1;
            }
            proof {
                lemma_directory_view(*collect, *defined);
                lemma_directory_view(collect_copy, defined_copy);
                assert(bounds_view(collect_copy@) =~= bounds_view(collect@));
                assert(nodes_view(defined_copy@) =~= nodes_view(defined@));
            }
            AssetBound::Directory { collect: collect_copy, defined: defined_copy }
        },
    }
}

/// Copies properties with all that they hold.
fn clone_properties(properties: &AssetProperties) -> (copy: AssetProperties)
    ensures
        copy@ == properties@,
    decreases properties,
{
    match properties {
        AssetProperties::File { ext } => AssetProperties::File { ext: ext.clone() },
        AssetProperties::Directory { children } => {
            let mut copy: Vec<AssetTreeNode<AssetProperties>> = Vec::new();
            let mut i: usize = 0;
            while i < children.len()
                invariant
                    i <= children.len(),
                    copy.len() == i,
                    forall|k: int| 0 <= k < i ==> copy[k]@ == #[trigger] children[k]@,
                    forall|k: int|
                        0 <= k < children.len() ==> decreases_to!(
                            properties => #[trigger] children[k],
                        ),
                decreases children.len() - i,
            {
                copy.push(
                    AssetTreeNode {
                        name: children[i].name.clone(),
                        inner: clone_properties(&children[i].inner),
                    },
                );
                i += 1;
            }
            proof {
                lemma_children_view(*children);
                lemma_children_view(copy);
                assert(nodes_view(copy@) =~= nodes_view(children@));
            }
            AssetProperties::Directory { children: copy }
        },
    }
}

} // verus!
