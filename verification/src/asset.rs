//! What can be loaded from a store: the capability, and the rules by which
//! a directory with fixed, named fields is described.

use crate::bound::{
    bounds_view, child_accepted, distinct_names, lemma_directory_view, nodes_view, shape_matches,
    well_formed, AssetBound, AssetFileType, AssetTreeNode, BoundView, NodeView, PropertiesView,
};
use crate::error::{Error, ErrorKind};
use crate::loader::{load_file_yields, located, subdir_yields, AssetLoader};
use vstd::prelude::*;

verus! {

/// A value that a store can hold: it knows the shape that it expects in the
/// store, and can be built from a loader at its location.
///
/// The library asks nothing of a type but what the signatures say. Where a
/// contract of the library speaks of the bound of a type, it speaks of what
/// `bound` can return: see `bound_yields`.
pub trait Asset: Sized {
    /// Whether this value is one that `load` can give, whatever the store
    /// holds. A type states here what holds of every value that it loads; a
    /// type that states nothing leaves this as it is, and it then holds of
    /// every value.
    open spec fn loaded(&self) -> bool {
        true
    }

    /// The shape that this type expects in the store.
    fn bound() -> AssetBound;

    /// Builds a value from what the store holds at the location of `ctx`.
    fn load<L: AssetLoader>(ctx: &L) -> (outcome: Result<Self, Error<L::Error>>)
        ensures
            outcome matches Ok(value) ==> value.loaded(),
    ;

    /// Loads anew and, if that succeeds, replaces this value by the new one,
    /// which is a value that `load` gives. If it fails, this value stays as
    /// it was.
    fn reload<L: AssetLoader>(&mut self, ctx: &L) -> (outcome: Result<(), Error<L::Error>>)
        ensures
            match outcome {
                Ok(()) => final(self).loaded(),
                Err(_) => *final(self) == *old(self),
            },
    {
        install(self, Self::load(ctx))
    }
}

/// Puts a value that was loaded in the place of `current`. If the load
/// failed, `current` stays as it was and the failure is handed on.
pub fn install<T, E>(current: &mut T, loaded: Result<T, E>) -> (outcome: Result<(), E>)
    ensures
        match loaded {
            Ok(fresh) => outcome is Ok && *final(current) == fresh,
            Err(e) => outcome == Err::<(), E>(e) && *final(current) == *old(current),
        },
{
    match loaded {
        Ok(fresh) => {
            *current = fresh;
            Ok(())
        },
        Err(e) => Err(e),
    }
}

/// A directory with fixed fields that has a name of its own in its parent.
pub trait StaticAssetFolder: Asset {
    /// The name of the directory in its parent.
    fn name() -> &'static str;

    /// The directory as a required child: a name that `name` reports, with
    /// a bound that `bound` reports.
    fn asset_tree() -> (node: AssetTreeNode)
        ensures
            exists|name: &'static str, bound: AssetBound|
                #![trigger call_ensures(Self::name, (), name), call_ensures(Self::bound, (), bound)]
                call_ensures(Self::name, (), name) && call_ensures(Self::bound, (), bound)
                    && node@ == (NodeView { name: name@, inner: bound@ }),
    {
        AssetTreeNode { name: String::from_str(Self::name()), inner: Self::bound() }
    }
}

/// Whether `T::bound` can report a bound that stands for `shape`.
pub open spec fn bound_yields<T: Asset>(shape: BoundView) -> bool {
    exists|bound: AssetBound|
        #![trigger call_ensures(T::bound, (), bound)]
        bound@ == shape && call_ensures(T::bound, (), bound)
}

/// The bound of a directory with exactly the given fields: it admits no
/// child beside them.
pub open spec fn composite_bound(fields: Seq<NodeView<BoundView>>) -> BoundView {
    BoundView::Directory { collect: Seq::empty(), defined: fields }
}

/// A directory that holds exactly its fields, each under its name and with a
/// shape that fits the bound of the field, fits the bound of the directory.
pub proof fn lemma_fields_match(
    children: Seq<NodeView<PropertiesView>>,
    fields: Seq<NodeView<BoundView>>,
)
    requires
        children.len() == fields.len(),
        forall|i: int|
            #![trigger children[i]]
            0 <= i < children.len() ==> children[i].name == fields[i].name && shape_matches(
                children[i].inner,
                fields[i].inner,
            ),
    ensures
        shape_matches(PropertiesView::Directory { children }, composite_bound(fields)),
{
}

/// The field `name` of a directory as a required child: the name with a
/// bound that the type of the field reports.
pub fn field_node<T: Asset>(name: &str) -> (node: AssetTreeNode)
    ensures
        node@.name == name@,
        bound_yields::<T>(node@.inner),
{
    AssetTreeNode { name: String::from_str(name), inner: T::bound() }
}

/// The bound of a directory with exactly the given fields. It is well
/// formed if the names of the fields are distinct and their bounds are well
/// formed.
pub fn fields_bound(fields: Vec<AssetTreeNode>) -> (bound: AssetBound)
    ensures
        bound@ == composite_bound(nodes_view(fields@)),
        distinct_names(nodes_view(fields@)) && (forall|i: int|
            0 <= i < fields.len() ==> well_formed(#[trigger] fields[i].inner@)) ==> well_formed(
            bound@,
        ),
{
    let collect: Vec<AssetBound> = Vec::new();
    proof {
        lemma_directory_view(collect, fields);
        assert(bounds_view(collect@) =~= Seq::empty());
    }
    AssetBound::Directory { collect, defined: fields }
}

/// Whether `load` can have this outcome for the child `name` of the
/// location of `ctx`: at a loader that `subdir` can give for the name.
pub open spec fn child_yields<T, L: AssetLoader, F: FnOnce(&L) -> Result<T, Error<L::Error>>>(
    ctx: L,
    name: Seq<char>,
    load: F,
    outcome: Result<T, Error<L::Error>>,
) -> bool {
    exists|sub: L|
        #![trigger subdir_yields(ctx, name, sub)]
        subdir_yields(ctx, name, sub) && call_ensures(load, (&sub,), outcome)
}

/// Loads the child `name` of the location of `ctx`: `load` is called at the
/// loader of the child, and what it returns is returned.
pub fn load_child<T, L: AssetLoader, F: FnOnce(&L) -> Result<T, Error<L::Error>>>(
    ctx: &L,
    name: &str,
    load: F,
) -> (outcome: Result<T, Error<L::Error>>)
    requires
        forall|sub: &L| call_requires(load, (sub,)),
    ensures
        child_yields(*ctx, name@, load, outcome),
{
    let sub = ctx.subdir(name);
    assert(subdir_yields(*ctx, name@, sub));
    load(&sub)
}

/// The bound of a leaf file with the extension `extension`.
pub fn file_bound(extension: &str) -> (bound: AssetBound)
    ensures
        bound@ == (BoundView::File { extension: extension@ }),
        well_formed(bound@),
{
    AssetBound::File { ty: AssetFileType { extension: String::from_str(extension) } }
}

/// Whether a load of a leaf can fail with `e`: as the read of the file
/// does, or, the file having been read, with the message of the conversion
/// that failed and a location of the loader.
pub open spec fn leaf_failed<T, L: AssetLoader, F: FnOnce(Vec<u8>) -> Result<T, String>>(
    ctx: L,
    extension: Seq<char>,
    convert: F,
    e: Error<L::Error>,
) -> bool {
    ||| load_file_yields(ctx, extension, Err::<Vec<u8>, Error<L::Error>>(e))
    ||| exists|bytes: Vec<u8>, message: String|
        #![trigger load_file_yields(ctx, extension, Ok::<Vec<u8>, Error<L::Error>>(bytes)), call_ensures(convert, (bytes,), Err::<T, String>(message))]
        {
            &&& load_file_yields(ctx, extension, Ok::<Vec<u8>, Error<L::Error>>(bytes))
            &&& call_ensures(convert, (bytes,), Err::<T, String>(message))
            &&& located(ctx, e@.location)
            &&& e@.kind == ErrorKind::<L::Error>::Deserialization(message)
        }
}

/// Whether a load of a leaf can have this outcome: a value is what
/// `convert` makes of bytes that the read of the file can give.
pub open spec fn leaf_yields<T, L: AssetLoader, F: FnOnce(Vec<u8>) -> Result<T, String>>(
    ctx: L,
    extension: Seq<char>,
    convert: F,
    outcome: Result<T, Error<L::Error>>,
) -> bool {
    match outcome {
        Ok(value) => exists|bytes: Vec<u8>|
            #![trigger load_file_yields(ctx, extension, Ok::<Vec<u8>, Error<L::Error>>(bytes))]
            load_file_yields(ctx, extension, Ok::<Vec<u8>, Error<L::Error>>(bytes))
                && call_ensures(convert, (bytes,), Ok::<T, String>(value)),
        Err(e) => leaf_failed(ctx, extension, convert, e),
    }
}

/// Loads a leaf: reads the file of the location of `ctx` with the extension
/// `extension`, and has `convert` turn its bytes into a value. A failure of
/// the read is returned as it is. A failure of the conversion is reported
/// as such, with the message of the conversion and the location of `ctx`.
pub fn load_leaf<T, L: AssetLoader, F: FnOnce(Vec<u8>) -> Result<T, String>>(
    ctx: &L,
    extension: &str,
    convert: F,
) -> (outcome: Result<T, Error<L::Error>>)
    requires
        forall|bytes: Vec<u8>| call_requires(convert, (bytes,)),
    ensures
        leaf_yields(*ctx, extension@, convert, outcome),
{
    match ctx.load_file(extension) {
        Err(e) => {
            Err(e)
        },
        Ok(bytes) => {
            assert(load_file_yields(*ctx, extension@, Ok::<Vec<u8>, Error<L::Error>>(bytes)));
            match convert(bytes) {
                Ok(value) => Ok(value),
                Err(message) => {
                    let location = ctx.current_location();
                    let e = Error::deserialization(location, message);
                    Err(e)
                },
            }
        },
    }
}

} // verus!
