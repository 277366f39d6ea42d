//! The contract of a store, and the rules by which a listing becomes shapes.

use crate::bound::{nodes_view, AssetProperties, AssetTreeNode, NodeView, PropertiesView};
use crate::error::Error;
use vstd::prelude::*;

verus! {

/// A read-only store of bytes, laid out as files in directories. A value of
/// the type stands for one location in the store.
///
/// The library asks nothing of a store but what the signatures say. Where a
/// contract of the library speaks of a store, it speaks of what these
/// operations can return: see `located`, `subdir_yields`, `check_file_yields`,
/// `load_file_yields` and `iter_dir_yields`.
pub trait AssetLoader: Sized {
    /// The store's own error.
    type Error;

    /// Opens the store at `root`, or fails if the root cannot be reached.
    fn new(root: String) -> Result<Self, Error<Self::Error>>;

    /// The location of this loader, for messages and reports.
    fn current_location(&self) -> String;

    /// The loader for the child `name`. It does not ask whether the child
    /// exists.
    fn subdir(&self, name: &str) -> Self;

    /// Tells whether the file of this location with the extension `ext`
    /// exists. A file that is absent is `Ok(false)`, not an error.
    fn check_file(&self, ext: &str) -> Result<bool, Error<Self::Error>>;

    /// Reads the file of this location with the extension `ext`.
    fn load_file(&self, ext: &str) -> Result<Vec<u8>, Error<Self::Error>>;

    /// Lists the children of this location, each with its whole shape. It
    /// fails as a whole if the location cannot be listed; a child whose own
    /// directory cannot be listed is an `Err` among the entries.
    fn iter_dir(&self) -> Result<
        Vec<Result<AssetTreeNode<AssetProperties>, Error<Self::Error>>>,
        Error<Self::Error>,
    >;
}

/// Whether `current_location` can return `location` at `ctx`.
pub open spec fn located<L: AssetLoader>(ctx: L, location: Seq<char>) -> bool {
    exists|text: String|
        #![trigger call_ensures(L::current_location, (&ctx,), text)]
        text@ == location && call_ensures(L::current_location, (&ctx,), text)
}

/// Whether `subdir` can return `sub` at `ctx` for the child `name`.
pub open spec fn subdir_yields<L: AssetLoader>(ctx: L, name: Seq<char>, sub: L) -> bool {
    exists|text: &str|
        #![trigger call_ensures(L::subdir, (&ctx, text), sub)]
        text@ == name && call_ensures(L::subdir, (&ctx, text), sub)
}

/// Whether `check_file` can have this outcome at `ctx` for the extension
/// `ext`.
pub open spec fn check_file_yields<L: AssetLoader>(
    ctx: L,
    ext: Seq<char>,
    outcome: Result<bool, Error<L::Error>>,
) -> bool {
    exists|text: &str|
        #![trigger call_ensures(L::check_file, (&ctx, text), outcome)]
        text@ == ext && call_ensures(L::check_file, (&ctx, text), outcome)
}

/// Whether `load_file` can have this outcome at `ctx` for the extension
/// `ext`.
pub open spec fn load_file_yields<L: AssetLoader>(
    ctx: L,
    ext: Seq<char>,
    outcome: Result<Vec<u8>, Error<L::Error>>,
) -> bool {
    exists|text: &str|
        #![trigger call_ensures(L::load_file, (&ctx, text), outcome)]
        text@ == ext && call_ensures(L::load_file, (&ctx, text), outcome)
}

/// Whether `iter_dir` can have this outcome at `ctx`.
pub open spec fn iter_dir_yields<L: AssetLoader>(
    ctx: L,
    outcome: Result<
        Vec<Result<AssetTreeNode<AssetProperties>, Error<L::Error>>>,
        Error<L::Error>,
    >,
) -> bool {
    call_ensures(L::iter_dir, (&ctx,), outcome)
}

/// Whether `subdir`, called along the names of `path` from `ctx` on, can
/// lead to `loader`.
pub open spec fn reaches<L: AssetLoader>(ctx: L, path: Seq<Seq<char>>, loader: L) -> bool
    decreases path.len(),
{
    if path.len() == 0 {
        loader == ctx
    } else {
        exists|sub: L|
            #![trigger subdir_yields(ctx, path[0], sub)]
            subdir_yields(ctx, path[0], sub) && reaches(sub, path.drop_first(), loader)
    }
}

/// The entries that could be read, in their order.
pub open spec fn readable_entries<P, E>(entries: Seq<Result<P, E>>) -> Seq<P>
    decreases entries.len(),
{
    if entries.len() == 0 {
        Seq::empty()
    } else {
        match entries.last() {
            Ok(entry) => readable_entries(entries.drop_last()).push(entry),
            Err(_) => readable_entries(entries.drop_last()),
        }
    }
}

/// Drops the entries of a listing that could not be read and keeps the
/// others, in their order: one entry that fails does not fail the listing.
pub fn readable<P, E>(entries: Vec<Result<P, E>>) -> (kept: Vec<P>)
    ensures
        kept@ == readable_entries(entries@),
{
    let mut kept: Vec<P> = Vec::new();
    for entry in it: entries
        invariant
            kept@ == readable_entries(entries@.take(it.index() as int)),
    {
        proof {
            let n = it.index() as int;
            assert(entries@.take(n + 1).drop_last() == entries@.take(n));
        }
        match entry {
            Ok(e) => {
                kept.push(e);
            },
            Err(_) => {},
        }
    }
    proof {
        assert(entries@.take(entries@.len() as int) == entries@);
    }
    kept
}

/// The first failure among the entries, if there is one.
pub open spec fn first_failure<P, E>(entries: Seq<Result<P, E>>) -> Option<E>
    decreases entries.len(),
{
    if entries.len() == 0 {
        None
    } else {
        match first_failure(entries.drop_last()) {
            Some(e) => Some(e),
            None => match entries.last() {
                Ok(_) => None,
                Err(e) => Some(e),
            },
        }
    }
}

/// Hands out all the entries if none failed, and the first failure
/// otherwise.
pub fn collected<P, E>(entries: Vec<Result<P, E>>) -> (all: Result<Vec<P>, E>)
    ensures
        match first_failure(entries@) {
            Some(e) => all == Err::<Vec<P>, E>(e),
            None => all matches Ok(kept) && kept@ == readable_entries(entries@),
        },
{
    let mut kept: Vec<P> = Vec::new();
    for entry in it: entries
        invariant
            first_failure(entries@.take(it.index() as int)) is None,
            kept@ == readable_entries(entries@.take(it.index() as int)),
    {
        proof {
            let n = it.index() as int;
            assert(entries@.take(n + 1).drop_last() == entries@.take(n));
        }
        match entry {
            Ok(e) => {
                kept.push(e);
            },
            Err(e) => {
                proof {
                    lemma_first_failure_stays(entries@, it.index() as int + 1);
                }
                return Err(e);
            },
        }
    }
    proof {
        assert(entries@.take(entries@.len() as int) == entries@);
    }
    Ok(kept)
}

/// A failure among the first `n` entries is the first failure of them all.
proof fn lemma_first_failure_stays<P, E>(entries: Seq<Result<P, E>>, n: int)
    requires
        0 <= n <= entries.len(),
        first_failure(entries.take(n)) is Some,
    ensures
        first_failure(entries) == first_failure(entries.take(n)),
    decreases entries.len() - n,
{
    if n < entries.len() {
        assert(entries.take(n + 1).drop_last() == entries.take(n));
        lemma_first_failure_stays(entries, n + 1);
    } else {
        assert(entries.take(n) == entries);
    }
}

/// Whether the last dot of `name` stands at `i`.
pub open spec fn last_dot(name: Seq<char>, i: int) -> bool {
    &&& 0 <= i < name.len()
    &&& name[i] == '.'
    &&& forall|j: int| i < j < name.len() ==> name[j] != '.'
}

/// Where the extension of a file name starts: at its last dot, unless that
/// is its first character or the name is `..`.
pub open spec fn extension_dot(name: Seq<char>) -> Option<int> {
    if name == seq!['.', '.'] {
        None
    } else if exists|i: int| 0 < i && last_dot(name, i) {
        Some(choose|i: int| 0 < i && last_dot(name, i))
    } else {
        None
    }
}

/// The name of a file without its extension.
pub open spec fn file_stem(name: Seq<char>) -> Seq<char> {
    match extension_dot(name) {
        Some(i) => name.take(i),
        None => name,
    }
}

/// The extension of a file name: what follows its last dot.
pub open spec fn file_extension(name: Seq<char>) -> Option<Seq<char>> {
    match extension_dot(name) {
        Some(i) => Some(name.skip(i + 1)),
        None => None,
    }
}

/// Finds the last dot of `name`.
fn find_last_dot(name: &str) -> (at: Option<usize>)
    ensures
        match at {
            Some(i) => last_dot(name@, i as int),
            None => forall|j: int| 0 <= j < name@.len() ==> name@[j] != '.',
        },
{
    let n = name.unicode_len();
    let mut i: usize = n;
    while i > 0
        invariant
            i <= n,
            n == name@.len(),
            forall|j: int| i <= j < n ==> name@[j] != '.',
        decreases i,
    {
        i -= 1;
        if name.get_char(i) == '.' {
            return Some(i);
        }
    }
    None
}

/// The node that a listing shows for the file `file_name`: its stem as the
/// name, its extension as the shape. A file without an extension has no
/// shape, and no node.
pub fn file_node(file_name: &str) -> (node: Option<AssetTreeNode<AssetProperties>>)
    ensures
        match file_extension(file_name@) {
            Some(ext) => node matches Some(n) && n@ == (NodeView {
                name: file_stem(file_name@),
                inner: PropertiesView::File { ext },
            }),
            None => node is None,
        },
{
    let n = file_name.unicode_len();
    if n == 2 && file_name.get_char(0) == '.' && file_name.get_char(1) == '.' {
        assert(file_name@ =~= seq!['.', '.']);
        return None;
    }
    match find_last_dot(file_name) {
        Some(i) => {
            if i == 0 {
                None
            } else {
                let stem = file_name.substring_char(0, i);
                let ext = file_name.substring_char(i + 1, n);
                Some(
                    AssetTreeNode {
                        name: String::from_str(stem),
                        inner: AssetProperties::File { ext: String::from_str(ext) },
                    },
                )
            }
        },
        None => None,
    }
}

/// The node that a listing shows for the directory `name`, given the listing
/// of the directory itself: a failure to list it, or of an entry in it, is
/// the failure of the node.
pub fn directory_node<E>(
    name: String,
    listing: Result<Vec<Result<AssetTreeNode<AssetProperties>, Error<E>>>, Error<E>>,
) -> (node: Result<AssetTreeNode<AssetProperties>, Error<E>>)
    ensures
        match listing {
            Err(e) => node == Err::<AssetTreeNode<AssetProperties>, Error<E>>(e),
            Ok(entries) => match first_failure(entries@) {
                Some(e) => node == Err::<AssetTreeNode<AssetProperties>, Error<E>>(e),
                None => node matches Ok(n) && n@ == (NodeView {
                    name: name@,
                    inner: PropertiesView::Directory {
                        children: nodes_view(readable_entries(entries@)),
                    },
                }),
            },
        },
{
    match listing {
        Err(e) => Err(e),
        Ok(entries) => match collected(entries) {
            Err(e) => Err(e),
            Ok(children) => {
                proof {
                    crate::bound::lemma_children_view(children);
                }
                Ok(AssetTreeNode { name, inner: AssetProperties::Directory { children } })
            },
        },
    }
}

} // verus!
