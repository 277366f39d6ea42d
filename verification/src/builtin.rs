//! A directory whose members are found, not declared: every child that fits
//! the bound of the element type is loaded under its name.

use crate::asset::{bound_yields, child_yields, Asset};
use crate::bound::{
    bounds_view, child_accepted, lemma_directory_view, nodes_view, shape_matches, AssetBound,
    AssetProperties, AssetTreeNode, BoundView, NodeView, PropertiesView,
};
use crate::error::Error;
use crate::loader::{iter_dir_yields, subdir_yields, AssetLoader};
use vstd::prelude::*;

verus! {

/// For each name of a folder the position at which its member is stored,
/// kept in a hash map of `hashbrown`. Verus sees the map only through
/// `index_entries`.
#[verifier::external_body]
pub struct NameIndex {
    map: hashbrown::HashMap<String, usize>,
}

/// What an index holds: the position under each name.
pub uninterp spec fn index_entries(index: NameIndex) -> Map<Seq<char>, usize>;

/// Calls `hashbrown::HashMap::new`, which gives a map that holds nothing.
#[verifier::external_body]
fn index_new() -> (index: NameIndex)
    ensures
        index_entries(index) =~= Map::empty(),
{
    NameIndex { map: hashbrown::HashMap::new() }
}

/// Calls `hashbrown::HashMap::insert`. Afterwards the map holds `at` under
/// `name` and is otherwise as before; what it held under `name` before, if
/// anything, is returned.
#[verifier::external_body]
fn index_insert(index: &mut NameIndex, name: String, at: usize) -> (prior: Option<usize>)
    ensures
        index_entries(*final(index)) == index_entries(*old(index)).insert(name@, at),
        prior == if index_entries(*old(index)).contains_key(name@) {
            Some(index_entries(*old(index))[name@])
        } else {
            None
        },
{
    index.map.insert(name, at)
}

/// Calls `hashbrown::HashMap::get`, which gives what the map holds under
/// `name`, if anything.
#[verifier::external_body]
fn index_get(index: &NameIndex, name: &str) -> (at: Option<usize>)
    ensures
        at == if index_entries(*index).contains_key(name@) {
            Some(index_entries(*index)[name@])
        } else {
            None
        },
{
    index.map.get(name).copied()
}

/// The members of a directory of open membership, each under its name.
///
/// The members are stored in the order in which they were found; the index
/// tells under which position a name is stored.
pub struct Folder<T> {
    index: NameIndex,
    names: Vec<String>,
    elems: Vec<T>,
}

impl<T> View for Folder<T> {
    type V = Map<Seq<char>, T>;

    closed spec fn view(&self) -> Map<Seq<char>, T> {
        Map::new(
            |name: Seq<char>| index_entries(self.index).contains_key(name),
            |name: Seq<char>| self.elems[index_entries(self.index)[name] as int],
        )
    }
}

/// The bound of a folder whose members fit `element`: any number of
/// children that fit it, and no required child.
pub open spec fn folder_bound(element: BoundView) -> BoundView {
    BoundView::Directory { collect: seq![element], defined: Seq::empty() }
}

/// Whether the entry `i` of the listing was read and fits `element`.
pub open spec fn admitted_at<E>(
    listing: Seq<Result<AssetTreeNode<AssetProperties>, Error<E>>>,
    element: BoundView,
    i: int,
) -> bool {
    listing[i] matches Ok(node) && shape_matches(node.inner@, element)
}

/// Whether the listing holds an entry named `name` that was read and fits
/// `element`.
pub open spec fn admits<E>(
    listing: Seq<Result<AssetTreeNode<AssetProperties>, Error<E>>>,
    element: BoundView,
    name: Seq<char>,
) -> bool {
    exists|i: int|
        #![trigger listing[i]]
        0 <= i < listing.len() && admitted_at(listing, element, i) && listing[i]->Ok_0.name@
            == name
}

/// The members that a load makes of a listing, given the value that was
/// loaded for each entry: each entry that fits `element`, in order, puts its
/// value under its name, in place of what an earlier entry put there. The
/// values of entries that do not fit are not read.
pub open spec fn assembled<T, E>(
    listing: Seq<Result<AssetTreeNode<AssetProperties>, Error<E>>>,
    element: BoundView,
    values: Seq<T>,
) -> Map<Seq<char>, T>
    decreases listing.len(),
{
    if listing.len() == 0 || values.len() != listing.len() {
        Map::empty()
    } else if admitted_at(listing, element, listing.len() - 1) {
        assembled(listing.drop_last(), element, values.drop_last()).insert(
            listing.last()->Ok_0.name@,
            values.last(),
        )
    } else {
        assembled(listing.drop_last(), element, values.drop_last())
    }
}

/// Whether `values[i]` is a value that `load` can give for the name of the
/// entry `i`, for each entry of the listing that fits `element`.
pub open spec fn each_loaded<T, L: AssetLoader, F: Fn(&L) -> Result<T, Error<L::Error>>>(
    ctx: L,
    listing: Seq<Result<AssetTreeNode<AssetProperties>, Error<L::Error>>>,
    element: BoundView,
    load: F,
    values: Seq<T>,
) -> bool {
    &&& values.len() == listing.len()
    &&& forall|i: int|
        #![trigger listing[i]]
        0 <= i < listing.len() && admitted_at(listing, element, i) ==> child_yields(
            ctx,
            listing[i]->Ok_0.name@,
            load,
            Ok::<T, Error<L::Error>>(values[i]),
        )
}

/// Whether the members are what a load can make of the listing with
/// `load`: every entry was read, and the members are assembled from values
/// that `load` can give for the entries that fit `element`.
pub open spec fn loaded_from<T, L: AssetLoader, F: Fn(&L) -> Result<T, Error<L::Error>>>(
    ctx: L,
    listing: Seq<Result<AssetTreeNode<AssetProperties>, Error<L::Error>>>,
    element: BoundView,
    load: F,
    members: Map<Seq<char>, T>,
) -> bool {
    &&& forall|i: int| 0 <= i < listing.len() ==> (#[trigger] listing[i]) is Ok
    &&& exists|values: Seq<T>|
        each_loaded(ctx, listing, element, load, values) && members == assembled(
            listing,
            element,
            values,
        )
}

/// Whether a load with `load` gets past the entry: it was read, and if it
/// fits `element`, `load` can give a value for its name.
pub open spec fn entry_passed<T, L: AssetLoader, F: Fn(&L) -> Result<T, Error<L::Error>>>(
    ctx: L,
    element: BoundView,
    load: F,
    entry: Result<AssetTreeNode<AssetProperties>, Error<L::Error>>,
) -> bool {
    entry matches Ok(node) && (shape_matches(node.inner@, element) ==> exists|value: T|
        child_yields(ctx, node.name@, load, Ok::<T, Error<L::Error>>(value)))
}

/// Whether a load with `load` can fail with `e` at the entry `i` of the
/// listing, after it got past the entries before it: the entry is that
/// failure, or it fits `element` and `load` can fail so for its name.
pub open spec fn failed_at_entry<T, L: AssetLoader, F: Fn(&L) -> Result<T, Error<L::Error>>>(
    ctx: L,
    listing: Seq<Result<AssetTreeNode<AssetProperties>, Error<L::Error>>>,
    element: BoundView,
    load: F,
    i: int,
    e: Error<L::Error>,
) -> bool {
    &&& 0 <= i < listing.len()
    &&& forall|j: int| 0 <= j < i ==> entry_passed(ctx, element, load, #[trigger] listing[j])
    &&& match listing[i] {
        Err(failure) => failure == e,
        Ok(node) => shape_matches(node.inner@, element) && child_yields(
            ctx,
            node.name@,
            load,
            Err::<T, Error<L::Error>>(e),
        ),
    }
}

/// Whether a load of the entries of the listing with `load` can fail with
/// `e`.
pub open spec fn failed_on<T, L: AssetLoader, F: Fn(&L) -> Result<T, Error<L::Error>>>(
    ctx: L,
    listing: Seq<Result<AssetTreeNode<AssetProperties>, Error<L::Error>>>,
    element: BoundView,
    load: F,
    e: Error<L::Error>,
) -> bool {
    exists|i: int| failed_at_entry(ctx, listing, element, load, i, e)
}

/// Whether a load of the entries of the listing with `load` can have this
/// outcome.
pub open spec fn entries_yield<T, L: AssetLoader, F: Fn(&L) -> Result<T, Error<L::Error>>>(
    ctx: L,
    listing: Seq<Result<AssetTreeNode<AssetProperties>, Error<L::Error>>>,
    element: BoundView,
    load: F,
    outcome: Result<Folder<T>, Error<L::Error>>,
) -> bool {
    match outcome {
        Ok(folder) => loaded_from(ctx, listing, element, load, folder@),
        Err(e) => failed_on(ctx, listing, element, load, e),
    }
}

impl<T> Folder<T> {
    #[verifier::type_invariant]
    spec fn well_formed(self) -> bool {
        &&& self.names.len() == self.elems.len()
        &&& forall|name: Seq<char>| #[trigger]
            index_entries(self.index).contains_key(name) ==> index_entries(self.index)[name]
                < self.names.len() && self.names[index_entries(self.index)[name] as int]@ == name
        &&& forall|i: int|
            0 <= i < self.names.len() ==> index_entries(self.index).contains_key(
                #[trigger] self.names[i]@,
            ) && index_entries(self.index)[self.names[i]@] == i
    }

    /// A folder without members.
    fn new() -> (folder: Self)
        ensures
            folder@ == Map::<Seq<char>, T>::empty(),
    {
        let folder = Folder { index: index_new(), names: Vec::new(), elems: Vec::new() };
        folder
    }

    /// The folder with `value` as the member `name`, in place of a member
    /// that it had under that name.
    fn insert(self, name: String, value: T) -> (folder: Self)
        ensures
            folder@ == self@.insert(name@, value),
    {
        proof {
            use_type_invariant(&self);
        }
        let Folder { index, names, elems } = self;
        let mut index = index;
        let mut names = names;
        let mut elems = elems;
        match index_get(&index, name.as_str()) {
            Some(at) => {
                elems.set(at, value);
            },
            None => {
                let at = names.len();
                index_insert(&mut index, name.clone(), at);
                names.push(name);
                elems.push(value);
            },
        }
        let folder = Folder { index, names, elems };
        folder
    }

    /// The member `name`, if the folder has one.
    pub fn get(&self, name: &str) -> (member: Option<&T>)
        ensures
            match member {
                Some(value) => self@.contains_key(name@) && *value == self@[name@],
                None => !self@.contains_key(name@),
            },
    {
        proof {
            use_type_invariant(self);
        }
        match index_get(&self.index, name) {
            Some(at) => Some(&self.elems[at]),
            None => None,
        }
    }

    /// The member `name` under its name, if the folder has one.
    pub fn get_node(&self, name: &str) -> (node: Option<AssetTreeNode<&T>>)
        ensures
            match node {
                Some(found) => self@.contains_key(name@) && found.name@ == name@ && *found.inner
                    == self@[name@],
                None => !self@.contains_key(name@),
            },
    {
        match self.get(name) {
            Some(value) => Some(AssetTreeNode { name: String::from_str(name), inner: value }),
            None => None,
        }
    }

    /// The names of the members, in the order in which they are stored.
    pub closed spec fn order(&self) -> Seq<Seq<char>> {
        Seq::new(self.names.len() as nat, |i: int| self.names[i]@)
    }

    /// All the members, each under its name and each once. The order is
    /// that in which the members are stored; it says nothing of the store.
    pub fn iter_nodes(&self) -> (nodes: Vec<AssetTreeNode<&T>>)
        ensures
            enumerates(self.order(), self@.dom()),
            nodes.len() == self.order().len(),
            forall|i: int|
                0 <= i < nodes.len() ==> (#[trigger] nodes[i]).name@ == self.order()[i]
                    && *nodes[i].inner == self@[self.order()[i]],
    {
        proof {
            use_type_invariant(self);
            self.lemma_order_enumerates();
        }
        let mut nodes: Vec<AssetTreeNode<&T>> = Vec::new();
        let mut i: usize = 0;
        while i < self.names.len()
            invariant
                i <= self.names.len(),
                self.names.len() == self.elems.len(),
                nodes.len() == i,
                forall|k: int|
                    0 <= k < i ==> (#[trigger] nodes[k]).name@ == self.names[k]@ && *nodes[k].inner
                        == self.elems[k],
            decreases self.names.len() - i,
        {
            nodes.push(AssetTreeNode { name: self.names[i].clone(), inner: &self.elems[i] });
            i += 1;
        }
        nodes
    }

    /// All the members, each once, in the order of `iter_nodes`.
    pub fn values(&self) -> (members: Vec<&T>)
        ensures
            enumerates(self.order(), self@.dom()),
            members.len() == self.order().len(),
            forall|i: int|
                0 <= i < members.len() ==> *#[trigger] members[i] == self@[self.order()[i]],
    {
        proof {
            use_type_invariant(self);
            self.lemma_order_enumerates();
        }
        let mut members: Vec<&T> = Vec::new();
        let mut i: usize = 0;
        while i < self.elems.len()
            invariant
                i <= self.elems.len(),
                members.len() == i,
                forall|k: int| 0 <= k < i ==> *#[trigger] members[k] == self.elems[k],
            decreases self.elems.len() - i,
        {
            members.push(&self.elems[i]);
            i += 1;
        }
        members
    }

    /// The stored order names every member once, and holds each member at
    /// the place of its name.
    proof fn lemma_order_enumerates(self)
        requires
            self.well_formed(),
        ensures
            enumerates(self.order(), self@.dom()),
            self.order().len() == self.elems.len(),
            forall|i: int|
                0 <= i < self.order().len() ==> self@[#[trigger] self.order()[i]] == self.elems[i],
    {
        let order = self.order();
        assert forall|name: Seq<char>| #[trigger] self@.dom().contains(name) implies exists|i: int|
            0 <= i < order.len() && #[trigger] order[i] == name by {
            let at = index_entries(self.index)[name] as int;
            assert(order[at] == name);
        }
    }
}

/// Whether the sequence holds every name of the set once, and no other.
pub open spec fn enumerates(order: Seq<Seq<char>>, names: Set<Seq<char>>) -> bool {
    &&& forall|i: int| 0 <= i < order.len() ==> names.contains(#[trigger] order[i])
    &&& forall|i: int, j: int|
        0 <= i < j < order.len() ==> #[trigger] order[i] != #[trigger] order[j]
    &&& forall|name: Seq<char>| #[trigger]
        names.contains(name) ==> exists|i: int| 0 <= i < order.len() && #[trigger] order[i] == name
}

impl<T> Folder<T> {
    /// Loads the members of a folder from the listing of the location of
    /// `ctx`. Each entry that was read and fits `bound` is loaded by `load`
    /// at the child of its name and becomes the member of that name; a later
    /// entry of the same name takes the place of an earlier one. Entries
    /// that do not fit are passed over. The first entry that could not be
    /// read, or that fits and fails to load, fails the whole load.
    pub fn load_with<L: AssetLoader, F: Fn(&L) -> Result<T, Error<L::Error>>>(
        ctx: &L,
        listing: Vec<Result<AssetTreeNode<AssetProperties>, Error<L::Error>>>,
        bound: &AssetBound,
        load: F,
    ) -> (outcome: Result<Self, Error<L::Error>>)
        requires
            forall|sub: &L| call_requires(load, (sub,)),
        ensures
            entries_yield(*ctx, listing@, bound@, load, outcome),
    {
        let mut folder: Folder<T> = Folder::new();
        let ghost mut values: Seq<T> = Seq::empty();
        for entry in it: listing
            invariant
                forall|sub: &L| call_requires(load, (sub,)),
                forall|j: int|
                    0 <= j < it.index() ==> entry_passed(*ctx, bound@, load, #[trigger] listing@[j]),
                each_loaded(*ctx, listing@.take(it.index() as int), bound@, load, values),
                folder@ == assembled(listing@.take(it.index() as int), bound@, values),
        {
            let ghost n = it.index() as int;
            let ghost before = listing@.take(n);
            let ghost after = listing@.take(n + 1);
            proof {
                assert(after.drop_last() =~= before);
            }
            match entry {
                Err(e) => {
                    assert(failed_at_entry(*ctx, listing@, bound@, load, n, e));
                    return Err(e);
                },
                Ok(node) => {
                    if node.inner.matches(bound) {
                        let sub = ctx.subdir(node.name.as_str());
                        assert(subdir_yields(*ctx, node.name@, sub));
                        match load(&sub) {
                            Err(e) => {
                                assert(failed_at_entry(*ctx, listing@, bound@, load, n, e));
                                return Err(e);
                            },
                            Ok(value) => {
                                assert(child_yields(
                                    *ctx,
                                    node.name@,
                                    load,
                                    Ok::<T, Error<L::Error>>(value),
                                ));
                                folder = folder.insert(node.name, value);
                                proof {
                                    lemma_each_loaded_step(
                                        *ctx,
                                        listing@,
                                        bound@,
                                        load,
                                        values,
                                        value,
                                        n,
                                    );
                                    assert(values.push(value).drop_last() =~= values);
                                    values = values.push(value);
                                }
                            },
                        }
                    } else {
                        proof {
                            let spare: T = arbitrary();
                            lemma_each_loaded_step(
                                *ctx,
                                listing@,
                                bound@,
                                load,
                                values,
                                spare,
                                n,
                            );
                            assert(values.push(spare).drop_last() =~= values);
                            values = values.push(spare);
                        }
                    }
                },
            }
        }
        proof {
            assert(listing@.take(listing@.len() as int) == listing@);
        }
        Ok(folder)
    }
}

/// Values for the first `n` entries of a listing, followed by a value for
/// the entry `n`, are values for the first `n + 1` entries, if the value is
/// one that `load` can give for the entry, or the entry does not fit.
proof fn lemma_each_loaded_step<T, L: AssetLoader, F: Fn(&L) -> Result<T, Error<L::Error>>>(
    ctx: L,
    listing: Seq<Result<AssetTreeNode<AssetProperties>, Error<L::Error>>>,
    element: BoundView,
    load: F,
    values: Seq<T>,
    value: T,
    n: int,
)
    requires
        0 <= n < listing.len(),
        each_loaded(ctx, listing.take(n), element, load, values),
        admitted_at(listing, element, n) ==> child_yields(
            ctx,
            listing[n]->Ok_0.name@,
            load,
            Ok::<T, Error<L::Error>>(value),
        ),
    ensures
        each_loaded(ctx, listing.take(n + 1), element, load, values.push(value)),
{
}

/// The names of the members that a load assembles are those of the entries
/// that fit, and each member is the value of such an entry of its name.
pub proof fn lemma_assembled_members<T, E>(
    listing: Seq<Result<AssetTreeNode<AssetProperties>, Error<E>>>,
    element: BoundView,
    values: Seq<T>,
)
    requires
        values.len() == listing.len(),
    ensures
        forall|name: Seq<char>|
            #![trigger assembled(listing, element, values).contains_key(name)]
            #![trigger admits(listing, element, name)]
            assembled(listing, element, values).contains_key(name) <==> admits(
                listing,
                element,
                name,
            ),
        forall|name: Seq<char>| #[trigger]
            assembled(listing, element, values).contains_key(name) ==> exists|i: int|
                #![trigger listing[i]]
                0 <= i < listing.len() && admitted_at(listing, element, i)
                    && listing[i]->Ok_0.name@ == name && assembled(listing, element, values)[name]
                    == values[i],
    decreases listing.len(),
{
    if listing.len() > 0 {
        let n = listing.len() - 1;
        let shorter = listing.drop_last();
        let fewer = values.drop_last();
        let rest = assembled(shorter, element, fewer);
        assert(assembled(listing, element, values) == if admitted_at(listing, element, n) {
            rest.insert(listing[n]->Ok_0.name@, values[n])
        } else {
            rest
        });
        lemma_assembled_members(shorter, element, fewer);
        lemma_admits_step(listing, element, n);
        assert(listing.take(n + 1) =~= listing);
    } else {
        assert forall|name: Seq<char>| !admits(listing, element, name) by {}
    }
}

/// The entries that the first `n + 1` entries of a listing admit are those
/// that the first `n` admit, and the entry `n` if it fits.
proof fn lemma_admits_step<E>(
    listing: Seq<Result<AssetTreeNode<AssetProperties>, Error<E>>>,
    element: BoundView,
    n: int,
)
    requires
        0 <= n < listing.len(),
    ensures
        forall|name: Seq<char>| #[trigger]
            admits(listing.take(n + 1), element, name) <==> admits(listing.take(n), element, name)
                || (admitted_at(listing, element, n) && listing[n]->Ok_0.name@ == name),
{
    let shorter = listing.take(n);
    let longer = listing.take(n + 1);
    assert forall|name: Seq<char>| #[trigger]
        admits(longer, element, name) <==> admits(shorter, element, name) || (admitted_at(
            listing,
            element,
            n,
        ) && listing[n]->Ok_0.name@ == name) by {
        if admitted_at(listing, element, n) && listing[n]->Ok_0.name@ == name {
            assert(admitted_at(longer, element, n));
        }
    }
}

/// Whether a load of a folder of `T` can have this outcome at `ctx`. It
/// fails as the listing of the location does, or at an entry of the
/// listing: one that could not be read, or one that fits the bound of `T`,
/// every entry before it having been read. It succeeds if every entry was
/// read, with the entries that fit the bound of `T` as members.
pub open spec fn folder_load_yields<T: Asset, L: AssetLoader>(
    ctx: L,
    outcome: Result<Folder<T>, Error<L::Error>>,
) -> bool {
    ||| outcome matches Err(e) && iter_dir_yields(ctx, Err(e))
    ||| exists|
        listing: Vec<Result<AssetTreeNode<AssetProperties>, Error<L::Error>>>,
        element: BoundView,
    |
        #![trigger iter_dir_yields(ctx, Ok(listing)), bound_yields::<T>(element)]
        iter_dir_yields(ctx, Ok(listing)) && bound_yields::<T>(element) && listing_yields(
            listing@,
            element,
            outcome,
        )
}

/// Whether a load of the entries of the listing can have this outcome,
/// whatever the loads of the members give.
pub open spec fn listing_yields<T, E>(
    listing: Seq<Result<AssetTreeNode<AssetProperties>, Error<E>>>,
    element: BoundView,
    outcome: Result<Folder<T>, Error<E>>,
) -> bool {
    match outcome {
        Ok(folder) => {
            &&& forall|i: int| 0 <= i < listing.len() ==> (#[trigger] listing[i]) is Ok
            &&& forall|name: Seq<char>|
                #![trigger folder@.contains_key(name)]
                #![trigger admits(listing, element, name)]
                folder@.contains_key(name) <==> admits(listing, element, name)
        },
        Err(e) => exists|i: int|
            #![trigger listing[i]]
            {
                &&& 0 <= i < listing.len()
                &&& forall|j: int| 0 <= j < i ==> (#[trigger] listing[j]) is Ok
                &&& listing[i] == Err::<AssetTreeNode<AssetProperties>, Error<E>>(e)
                    || admitted_at(listing, element, i)
            },
    }
}

/// Two loads of one listing, from a store that gives each member the same
/// value whenever it is asked, yield the same members under the same names.
pub proof fn lemma_unchanged_store_loads_the_same<
    T,
    L: AssetLoader,
    F: Fn(&L) -> Result<T, Error<L::Error>>,
>(
    ctx: L,
    listing: Seq<Result<AssetTreeNode<AssetProperties>, Error<L::Error>>>,
    element: BoundView,
    load: F,
    first: Map<Seq<char>, T>,
    second: Map<Seq<char>, T>,
)
    requires
        forall|name: Seq<char>, a: Result<T, Error<L::Error>>, b: Result<T, Error<L::Error>>|
            #![trigger child_yields(ctx, name, load, a), child_yields(ctx, name, load, b)]
            child_yields(ctx, name, load, a) && child_yields(ctx, name, load, b) ==> a == b,
        loaded_from(ctx, listing, element, load, first),
        loaded_from(ctx, listing, element, load, second),
    ensures
        first == second,
{
    let one = choose|values: Seq<T>|
        each_loaded(ctx, listing, element, load, values) && first == assembled(
            listing,
            element,
            values,
        );
    let other = choose|values: Seq<T>|
        each_loaded(ctx, listing, element, load, values) && second == assembled(
            listing,
            element,
            values,
        );
    assert forall|i: int|
        0 <= i < listing.len() && admitted_at(listing, element, i) implies one[i] == other[i] by {
        let name = listing[i]->Ok_0.name@;
        assert(child_yields(ctx, name, load, Ok::<T, Error<L::Error>>(one[i])));
        assert(child_yields(ctx, name, load, Ok::<T, Error<L::Error>>(other[i])));
    }
    lemma_assembled_reads_fitting_values(listing, element, one, other);
}

/// What a load assembles depends on the values of the entries that fit, and
/// on no other.
proof fn lemma_assembled_reads_fitting_values<T, E>(
    listing: Seq<Result<AssetTreeNode<AssetProperties>, Error<E>>>,
    element: BoundView,
    one: Seq<T>,
    other: Seq<T>,
)
    requires
        one.len() == listing.len(),
        other.len() == listing.len(),
        forall|i: int|
            0 <= i < listing.len() && admitted_at(listing, element, i) ==> one[i] == other[i],
    ensures
        assembled(listing, element, one) == assembled(listing, element, other),
    decreases listing.len(),
{
    if listing.len() > 0 {
        let shorter = listing.drop_last();
        lemma_assembled_reads_fitting_values(shorter, element, one.drop_last(), other.drop_last());
    }
}

/// A directory that holds only children that fit `element` fits the bound
/// of a folder of `element`.
pub proof fn lemma_members_fit_folder_bound(
    children: Seq<NodeView<PropertiesView>>,
    element: BoundView,
)
    requires
        forall|i: int|
            #![trigger children[i]]
            0 <= i < children.len() ==> shape_matches(children[i].inner, element),
    ensures
        shape_matches(PropertiesView::Directory { children }, folder_bound(element)),
{
    assert forall|i: int| 0 <= i < children.len() implies child_accepted(
        #[trigger] children[i],
        seq![element],
        Seq::empty(),
    ) by {
        assert(seq![element][0] == element);
    }
}

impl<T: Asset> Asset for Folder<T> {
    /// A folder that was loaded holds members that were loaded.
    open spec fn loaded(&self) -> bool {
        forall|name: Seq<char>| self@.contains_key(name) ==> (#[trigger] self@[name]).loaded()
    }

    /// The bound of a folder: any number of children that fit the bound of
    /// `T`, and no required child.
    fn bound() -> (bound: AssetBound)
        ensures
            exists|element: BoundView|
                #![trigger bound_yields::<T>(element)]
                bound_yields::<T>(element) && bound@ == folder_bound(element),
    {
        let mut collect: Vec<AssetBound> = Vec::new();
        let element = T::bound();
        assert(bound_yields::<T>(element@));
        collect.push(element);
        let defined: Vec<AssetTreeNode> = Vec::new();
        proof {
            lemma_directory_view(collect, defined);
            assert(bounds_view(collect@) =~= seq![element@]);
            assert(nodes_view(defined@) =~= Seq::empty());
        }
        AssetBound::Directory { collect, defined }
    }

    /// Lists the location of `ctx` and loads the entries that fit the bound
    /// of `T`, each at the child of its name.
    fn load<L: AssetLoader>(ctx: &L) -> (outcome: Result<Self, Error<L::Error>>)
        ensures
            folder_load_yields(*ctx, outcome),
    {
        match ctx.iter_dir() {
            Err(e) => Err(e),
            Ok(listing) => {
                let bound = T::bound();
                let load = |sub: &L| -> (member: Result<T, Error<L::Error>>)
                    ensures
                        member matches Ok(value) ==> value.loaded(),
                    { T::load(sub) };
                let outcome = Self::load_with(ctx, listing, &bound, load);
                proof {
                    assert(iter_dir_yields(*ctx, Ok(listing)));
                    assert(bound_yields::<T>(bound@));
                    if let Ok(folder) = &outcome {
                        let values = choose|values: Seq<T>|
                            each_loaded(*ctx, listing@, bound@, load, values) && folder@
                                == assembled(listing@, bound@, values);
                        lemma_assembled_members(listing@, bound@, values);
                        assert forall|name: Seq<char>| folder@.contains_key(name) implies (
                        #[trigger] folder@[name]).loaded() by {
                            let i = choose|i: int|
                                #![trigger listing@[i]]
                                0 <= i < listing@.len() && admitted_at(listing@, bound@, i)
                                    && listing@[i]->Ok_0.name@ == name && folder@[name]
                                    == values[i];
                            assert(child_yields(
                                *ctx,
                                name,
                                load,
                                Ok::<T, Error<L::Error>>(values[i]),
                            ));
                        }
                    }
                }
                outcome
            },
        }
    }
}

} // verus!
