//! The check that a store holds every file that a schema requires.

use crate::bound::{nodes_view, AssetBound, AssetTreeNode, BoundView, NodeView};
use crate::error::Error;
use crate::loader::{check_file_yields, located, reaches, subdir_yields, AssetLoader};
use vstd::prelude::*;

verus! {

/// A file that a schema requires: the names of the directories that lead to
/// it from the root of the schema, and its extension. The last name is the
/// name of the file itself.
pub struct RequiredFile {
    pub path: Seq<Seq<char>>,
    pub extension: Seq<char>,
}

/// The files that `bound` requires, in the order in which it names them. A
/// file bound requires its file. A directory bound requires what its
/// `defined` children require, each under the name of the child; its
/// `collect` rules require nothing.
pub open spec fn required_files(bound: BoundView) -> Seq<RequiredFile>
    decreases bound,
{
    match bound {
        BoundView::File { extension } => seq![RequiredFile { path: Seq::empty(), extension }],
        BoundView::Directory { collect, defined } => required_in(defined),
    }
}

/// The files that the children `defined` of a directory require.
pub open spec fn required_in(defined: Seq<NodeView<BoundView>>) -> Seq<RequiredFile>
    decreases defined,
{
    if defined.len() == 0 {
        Seq::empty()
    } else {
        required_in(defined.drop_last()) + under(
            defined.last().name,
            required_files(defined.last().inner),
        )
    }
}

/// The files as seen from the parent of the directory `name` that holds
/// them.
pub open spec fn under(name: Seq<char>, files: Seq<RequiredFile>) -> Seq<RequiredFile> {
    Seq::new(
        files.len(),
        |i: int| RequiredFile { path: seq![name] + files[i].path, extension: files[i].extension },
    )
}

/// What a check learns of one file: the loader that it asked, the answer,
/// and, for a file that is absent, the location that the loader gave.
pub struct Visit<L> {
    pub loader: L,
    pub present: bool,
    pub location: Seq<char>,
}

/// The path by which a report names a file: its location, a dot, and its
/// extension.
pub open spec fn path_text(location: Seq<char>, extension: Seq<char>) -> Seq<char> {
    location + seq!['.'] + extension
}

/// Whether a check that starts at `ctx` can learn `visit` of `file`: the
/// loader is one that `subdir` leads to along the path of the file, the
/// answer is one that the loader can give, and the location of an absent
/// file is one that the loader can give.
pub open spec fn visited<L: AssetLoader>(ctx: L, file: RequiredFile, visit: Visit<L>) -> bool {
    &&& reaches(ctx, file.path, visit.loader)
    &&& check_file_yields(visit.loader, file.extension, Ok::<bool, Error<L::Error>>(visit.present))
    &&& !visit.present ==> located(visit.loader, visit.location)
}

/// Whether a check that starts at `ctx` can learn `visits[i]` of `files[i]`,
/// for each of the files.
pub open spec fn all_visited<L: AssetLoader>(
    ctx: L,
    files: Seq<RequiredFile>,
    visits: Seq<Visit<L>>,
) -> bool {
    &&& visits.len() == files.len()
    &&& forall|i: int| #![trigger files[i]] 0 <= i < files.len() ==> visited(ctx, files[i], visits[i])
}

/// The paths of the files that were found absent, in the order of the
/// files.
pub open spec fn absent<L>(files: Seq<RequiredFile>, visits: Seq<Visit<L>>) -> Seq<Seq<char>>
    decreases files.len(),
{
    if files.len() == 0 || visits.len() != files.len() {
        Seq::empty()
    } else if visits.last().present {
        absent(files.drop_last(), visits.drop_last())
    } else {
        absent(files.drop_last(), visits.drop_last()).push(
            path_text(visits.last().location, files.last().extension),
        )
    }
}

/// Whether a check that starts at `ctx` can report exactly `missing`: the
/// store was asked for every file, in order, and `missing` holds the paths
/// of those that it found absent.
pub open spec fn told_absent<L: AssetLoader>(
    ctx: L,
    files: Seq<RequiredFile>,
    missing: Seq<Seq<char>>,
) -> bool {
    exists|visits: Seq<Visit<L>>| all_visited(ctx, files, visits) && missing == absent(files, visits)
}

/// Whether the store can fail with `e` when asked for the file `files[i]`
/// at `loader`, after it has answered for the files before it.
pub open spec fn failed_at<L: AssetLoader>(
    ctx: L,
    files: Seq<RequiredFile>,
    i: int,
    loader: L,
    e: Error<L::Error>,
) -> bool {
    &&& 0 <= i < files.len()
    &&& reaches(ctx, files[i].path, loader)
    &&& check_file_yields(loader, files[i].extension, Err::<bool, Error<L::Error>>(e))
    &&& exists|visits: Seq<Visit<L>>| all_visited(ctx, files.take(i), visits)
}

/// Whether `e` can be the first failure of the store, asked for the files
/// in order.
pub open spec fn failed<L: AssetLoader>(ctx: L, files: Seq<RequiredFile>, e: Error<L::Error>) -> bool {
    exists|i: int, loader: L| failed_at(ctx, files, i, loader, e)
}

/// Whether a check of the files that starts at `ctx` can have this outcome.
/// A list of paths is what some answers of the store tell to be absent, the
/// store being asked for every file, in order. An error is the first that
/// the store gave.
pub open spec fn integrity_yields<L: AssetLoader>(
    ctx: L,
    files: Seq<RequiredFile>,
    outcome: Result<Vec<String>, Error<L::Error>>,
) -> bool {
    match outcome {
        Ok(missing) => told_absent(ctx, files, missing.deep_view()),
        Err(e) => failed(ctx, files, e),
    }
}

/// The path by which a report names the file at `location` with the
/// extension `extension`.
pub fn file_path(location: &str, extension: &str) -> (path: String)
    ensures
        path@ == path_text(location@, extension@),
{
    let mut path = String::from_str(location);
    path.append(".");
    path.append(extension);
    proof {
        reveal_strlit(".");
    }
    path
}

/// Checks that the store holds every file that `tree` requires, and lists
/// the paths of those that it lacks, in the order in which the schema names
/// them. Only the children that a directory defines are required. The
/// check asks the store for every required file and reads none of them; an
/// error of the store ends it.
pub fn check_integrity<L: AssetLoader>(tree: &AssetTreeNode, ctx: &L) -> (outcome: Result<
    Vec<String>,
    Error<L::Error>,
>)
    ensures
        integrity_yields(*ctx, required_files(tree.inner@), outcome),
{
    check_bound(&tree.inner, ctx)
}

/// Checks that the store holds every file that `bound` requires at `ctx`.
fn check_bound<L: AssetLoader>(bound: &AssetBound, ctx: &L) -> (outcome: Result<
    Vec<String>,
    Error<L::Error>,
>)
    ensures
        integrity_yields(*ctx, required_files(bound@), outcome),
    decreases bound,
{
    match bound {
        AssetBound::File { ty } => {
            let ghost file = RequiredFile { path: Seq::empty(), extension: ty.extension@ };
            let ghost files = required_files(bound@);
            match ctx.check_file(ty.extension.as_str()) {
                Err(e) => {
                    proof {
                        assert(all_visited(*ctx, files.take(0), Seq::<Visit<L>>::empty()));
                        assert(failed_at(*ctx, files, 0, *ctx, e));
                    }
                    Err(e)
                },
                Ok(present) => {
                    let mut missing: Vec<String> = Vec::new();
                    let ghost mut location = Seq::<char>::empty();
                    if !present {
                        let text = ctx.current_location();
                        proof {
                            location = text@;
                        }
                        missing.push(file_path(text.as_str(), ty.extension.as_str()));
                    }
                    proof {
                        let visit = Visit { loader: *ctx, present, location };
                        lemma_absent_one(file, visit);
                        assert(missing.deep_view() =~= absent(files, seq![visit]));
                    }
                    Ok(missing)
                },
            }
        },
        AssetBound::Directory { collect, defined } => {
            let ghost fields = nodes_view(defined@);
            proof {
                crate::bound::lemma_directory_view(*collect, *defined);
            }
            let mut missing: Vec<String> = Vec::new();
            let ghost mut visits: Seq<Visit<L>> = Seq::empty();
            let mut i: usize = 0;
            while i < defined.len()
                invariant
                    i <= defined.len(),
                    fields == nodes_view(defined@),
                    required_files(bound@) == required_in(fields),
                    all_visited(*ctx, required_in(fields.take(i as int)), visits),
                    missing.deep_view() == absent(required_in(fields.take(i as int)), visits),
                    forall|k: int|
                        0 <= k < defined.len() ==> decreases_to!(bound => #[trigger] defined[k]),
                decreases defined.len() - i,
            {
                let ghost name = fields[i as int].name;
                let ghost done = required_in(fields.take(i as int));
                let ghost inner = required_files(fields[i as int].inner);
                let ghost next = under(name, inner);
                proof {
                    lemma_required_in_step(fields, i as int);
                    lemma_required_in_prefix(fields, i as int + 1);
                }
                let sub = ctx.subdir(defined[i].name.as_str());
                match check_bound(&defined[i].inner, &sub) {
                    Err(e) => {
                        proof {
                            let (k, loader) = choose|k: int, loader: L|
                                failed_at(sub, inner, k, loader, e);
                            let before = choose|before: Seq<Visit<L>>|
                                all_visited(sub, inner.take(k), before);
                            lemma_visited_under(*ctx, name, sub, inner.take(k), before);
                            assert(under(name, inner.take(k)) =~= next.take(k));
                            lemma_visited_joined(*ctx, done, visits, next.take(k), before);
                            assert((done + next).take(done.len() + k) =~= done + next.take(k));
                            lemma_reaches_under(*ctx, name, sub, inner[k].path, loader);
                            lemma_failed_in_prefix(
                                *ctx,
                                done + next,
                                required_in(fields),
                                done.len() + k,
                                loader,
                                e,
                            );
                        }
                        return Err(e);
                    },
                    Ok(found) => {
                        let mut found = found;
                        proof {
                            let seen = choose|seen: Seq<Visit<L>>|
                                all_visited(sub, inner, seen) && found.deep_view() == absent(
                                    inner,
                                    seen,
                                );
                            lemma_visited_under(*ctx, name, sub, inner, seen);
                            lemma_absent_under(name, inner, seen);
                            lemma_visited_joined(*ctx, done, visits, next, seen);
                            lemma_absent_joined(done, visits, next, seen);
                            visits = visits + seen;
                        }
                        missing.append(&mut found);
                    },
                }
                i += 1;
            }
            proof {
                assert(fields.take(defined.len() as int) =~= fields);
            }
            Ok(missing)
        },
    }
}

/// What one visit tells of one file.
proof fn lemma_absent_one<L>(file: RequiredFile, visit: Visit<L>)
    ensures
        absent(seq![file], seq![visit]) == if visit.present {
            Seq::<Seq<char>>::empty()
        } else {
            seq![path_text(visit.location, file.extension)]
        },
{
    reveal_with_fuel(absent, 2);
}

/// A loader that `sub` leads to along `path` is one that `ctx` leads to
/// along `name` and then `path`, if `sub` is a child `name` of `ctx`.
proof fn lemma_reaches_under<L: AssetLoader>(
    ctx: L,
    name: Seq<char>,
    sub: L,
    path: Seq<Seq<char>>,
    loader: L,
)
    requires
        subdir_yields(ctx, name, sub),
        reaches(sub, path, loader),
    ensures
        reaches(ctx, seq![name] + path, loader),
{
    let longer = seq![name] + path;
    assert(longer[0] == name);
    assert(longer.drop_first() =~= path);
}

/// What a check that starts at a child learns of files is what a check
/// that starts at the parent learns of them, seen from the parent.
proof fn lemma_visited_under<L: AssetLoader>(
    ctx: L,
    name: Seq<char>,
    sub: L,
    files: Seq<RequiredFile>,
    visits: Seq<Visit<L>>,
)
    requires
        subdir_yields(ctx, name, sub),
        all_visited(sub, files, visits),
    ensures
        all_visited(ctx, under(name, files), visits),
{
    let seen = under(name, files);
    assert forall|i: int| #![trigger seen[i]] 0 <= i < seen.len() implies visited(
        ctx,
        seen[i],
        visits[i],
    ) by {
        lemma_reaches_under(ctx, name, sub, files[i].path, visits[i].loader);
    }
}

/// The files that are found absent do not depend on the directory from
/// which the files are seen.
proof fn lemma_absent_under<L>(name: Seq<char>, files: Seq<RequiredFile>, visits: Seq<Visit<L>>)
    ensures
        absent(under(name, files), visits) == absent(files, visits),
    decreases files.len(),
{
    if files.len() > 0 && visits.len() == files.len() {
        assert(under(name, files).drop_last() =~= under(name, files.drop_last()));
        lemma_absent_under(name, files.drop_last(), visits.drop_last());
    }
}

/// The files that the first `i + 1` children require are those that the
/// first `i` require, followed by those of the child `i`.
proof fn lemma_required_in_step(fields: Seq<NodeView<BoundView>>, i: int)
    requires
        0 <= i < fields.len(),
    ensures
        required_in(fields.take(i + 1)) == required_in(fields.take(i)) + under(
            fields[i].name,
            required_files(fields[i].inner),
        ),
{
    assert(fields.take(i + 1).drop_last() =~= fields.take(i));
}

/// The files that the first `n` children require come first among those
/// that all of them require.
proof fn lemma_required_in_prefix(fields: Seq<NodeView<BoundView>>, n: int)
    requires
        0 <= n <= fields.len(),
    ensures
        required_in(fields.take(n)).is_prefix_of(required_in(fields)),
    decreases fields.len() - n,
{
    if n == fields.len() {
        assert(fields.take(n) =~= fields);
    } else {
        lemma_required_in_step(fields, n);
        lemma_required_in_prefix(fields, n + 1);
    }
}

/// A failure among the files that come first is a failure among them all.
proof fn lemma_failed_in_prefix<L: AssetLoader>(
    ctx: L,
    first: Seq<RequiredFile>,
    all: Seq<RequiredFile>,
    i: int,
    loader: L,
    e: Error<L::Error>,
)
    requires
        first.is_prefix_of(all),
        failed_at(ctx, first, i, loader, e),
    ensures
        failed_at(ctx, all, i, loader, e),
{
    assert(all.take(i) =~= first.take(i));
}

/// Visits of two runs of files, joined, are visits of the joined runs.
proof fn lemma_visited_joined<L: AssetLoader>(
    ctx: L,
    a: Seq<RequiredFile>,
    va: Seq<Visit<L>>,
    b: Seq<RequiredFile>,
    vb: Seq<Visit<L>>,
)
    requires
        all_visited(ctx, a, va),
        all_visited(ctx, b, vb),
    ensures
        all_visited(ctx, a + b, va + vb),
{
}

/// What joined visits tell of joined runs of files is what each tells of
/// its own, joined.
proof fn lemma_absent_joined<L>(
    a: Seq<RequiredFile>,
    va: Seq<Visit<L>>,
    b: Seq<RequiredFile>,
    vb: Seq<Visit<L>>,
)
    requires
        va.len() == a.len(),
        vb.len() == b.len(),
    ensures
        absent(a + b, va + vb) == absent(a, va) + absent(b, vb),
    decreases b.len(),
{
    if b.len() > 0 {
        assert((a + b).drop_last() =~= a + b.drop_last());
        assert((va + vb).drop_last() =~= va + vb.drop_last());
        lemma_absent_joined(a, va, b.drop_last(), vb.drop_last());
    }
}

/// Whether the store, asked for the file by a check that starts at `ctx`,
/// can only answer `present`.
pub open spec fn only_answer<L: AssetLoader>(ctx: L, file: RequiredFile, present: bool) -> bool {
    forall|loader: L, outcome: Result<bool, Error<L::Error>>|
        #![trigger reaches(ctx, file.path, loader), check_file_yields(loader, file.extension, outcome)]
        reaches(ctx, file.path, loader) && check_file_yields(loader, file.extension, outcome)
            ==> outcome == Ok::<bool, Error<L::Error>>(present)
}

/// Whether `path` names the file, as a check that starts at `ctx` names
/// it: by a location of a loader that `subdir` leads to along the path of
/// the file, a dot, and the extension of the file.
pub open spec fn names_file<L: AssetLoader>(ctx: L, file: RequiredFile, path: Seq<char>) -> bool {
    exists|loader: L, location: Seq<char>|
        #![trigger reaches(ctx, file.path, loader), located(loader, location)]
        reaches(ctx, file.path, loader) && located(loader, location) && path == path_text(
            location,
            file.extension,
        )
}

/// A check of a store that holds every required file succeeds and reports
/// nothing.
pub proof fn lemma_intact_store_reports_nothing<L: AssetLoader>(
    ctx: L,
    files: Seq<RequiredFile>,
    outcome: Result<Vec<String>, Error<L::Error>>,
)
    requires
        forall|i: int| 0 <= i < files.len() ==> only_answer(ctx, #[trigger] files[i], true),
        integrity_yields(ctx, files, outcome),
    ensures
        outcome matches Ok(missing) && missing.deep_view() == Seq::<Seq<char>>::empty(),
{
    lemma_one_gap(ctx, files, files.len() as int, outcome);
}

/// A check of a store that lacks exactly one required file succeeds and
/// reports one path, which names that file.
pub proof fn lemma_one_missing_file_is_reported<L: AssetLoader>(
    ctx: L,
    files: Seq<RequiredFile>,
    gap: int,
    outcome: Result<Vec<String>, Error<L::Error>>,
)
    requires
        0 <= gap < files.len(),
        only_answer(ctx, files[gap], false),
        forall|i: int|
            0 <= i < files.len() && i != gap ==> only_answer(ctx, #[trigger] files[i], true),
        integrity_yields(ctx, files, outcome),
    ensures
        outcome matches Ok(missing) && missing.len() == 1 && names_file(
            ctx,
            files[gap],
            missing[0]@,
        ),
{
    lemma_one_gap(ctx, files, gap, outcome);
}

/// What a check reports of a store that holds all the files but the one at
/// `gap`, if `gap` is the place of a file.
proof fn lemma_one_gap<L: AssetLoader>(
    ctx: L,
    files: Seq<RequiredFile>,
    gap: int,
    outcome: Result<Vec<String>, Error<L::Error>>,
)
    requires
        0 <= gap <= files.len(),
        forall|i: int| 0 <= i < files.len() ==> only_answer(ctx, #[trigger] files[i], i != gap),
        integrity_yields(ctx, files, outcome),
    ensures
        outcome matches Ok(missing) && if gap < files.len() {
            missing.len() == 1 && names_file(ctx, files[gap], missing[0]@)
        } else {
            missing.deep_view() == Seq::<Seq<char>>::empty()
        },
{
    match outcome {
        Err(e) => {
            let (i, _) = choose|i: int, loader: L| failed_at(ctx, files, i, loader, e);
        },
        Ok(missing) => {
            let visits = choose|visits: Seq<Visit<L>>|
                all_visited(ctx, files, visits) && missing.deep_view() == absent(files, visits);
            assert forall|i: int| 0 <= i < files.len() implies visits[i].present == (i != gap) by {
                assert(visited(ctx, files[i], visits[i]));
            }
            lemma_absent_around_gap(files, visits, gap);
            if gap < files.len() {
                assert(missing.deep_view().len() == 1);
                assert(missing.deep_view()[0] == missing@[0]@);
            }
        },
    }
}

/// Visits that find every file present but the one at `gap` tell exactly
/// that file to be absent.
proof fn lemma_absent_around_gap<L>(files: Seq<RequiredFile>, visits: Seq<Visit<L>>, gap: int)
    requires
        visits.len() == files.len(),
        0 <= gap,
        forall|i: int| 0 <= i < files.len() ==> visits[i].present == (i != gap),
    ensures
        absent(files, visits) == if gap < files.len() {
            seq![path_text(visits[gap].location, files[gap].extension)]
        } else {
            Seq::<Seq<char>>::empty()
        },
    decreases files.len(),
{
    if files.len() > 0 {
        lemma_absent_around_gap(files.drop_last(), visits.drop_last(), gap);
    }
}

} // verus!
