//! The package diff of two system closures, queried from a store.
use vstd::prelude::*;

use crate::diff::{
    line_views, name_column_width, packages_fit, path_views, render_lines, reported_diffs,
    write_packages_diffln, PathView,
};
use crate::storepath::{parse_store_path, store_path_parts};
use crate::store::{CombinedStoreBackend, StoreBackend, StoreError};
use crate::style::Segment;

verus! {

/// The store paths among `paths` that name a package, as (name, version),
/// in order.
pub open spec fn store_path_views(paths: Seq<Seq<char>>) -> Seq<PathView>
    decreases paths.len(),
{
    if paths.len() == 0 {
        seq![]
    } else {
        let rest = store_path_views(paths.drop_last());
        if paths.last().len() + 64 <= usize::MAX {
            match store_path_parts(paths.last()) {
                Some(p) => rest.push(p),
                None => rest,
            }
        } else {
            rest
        }
    }
}

pub open spec fn text_views(v: Seq<String>) -> Seq<Seq<char>> {
    v.map_values(|s: String| s@)
}

/// Reads the store paths among `paths` into the package name and version each
/// encodes, skipping paths that are not store paths.
pub fn parse_store_paths(paths: &Vec<String>) -> (r: Vec<(String, Option<String>)>)
    ensures
        path_views(r@) == store_path_views(text_views(paths@)),
{
    let ghost pv = text_views(paths@);
    let mut r: Vec<(String, Option<String>)> = Vec::new();
    let mut k: usize = 0;
    assert(path_views(r@) =~= store_path_views(pv.take(0)));
    while k < paths.len()
        invariant
            k <= paths@.len(),
            pv == text_views(paths@),
            path_views(r@) == store_path_views(pv.take(k as int)),
        decreases paths@.len() - k,
    {
        let p = paths[k].as_str();
        assert(pv.take(k + 1).drop_last() == pv.take(k as int));
        assert(pv.take(k + 1).last() == p@);
        let n = p.unicode_len();
        let ghost before = path_views(r@);
        if n <= usize::MAX - 64 {
            match parse_store_path(p) {
                Ok(parts) => {
                    r.push(parts);
                    assert(path_views(r@) =~= before.push(path_views(r@).last()));
                },
                Err(_) => {},
            }
        }
        k = k + 1;
    }
    assert(pv.take(paths@.len() as int) == pv);
    r
}

/// Why a package diff could not be made.
#[derive(Debug, Clone, PartialEq, Eq)]
pub enum PackageDiffError {
    /// The store failed to connect or to answer.
    Store(StoreError),
    /// A package has too many versions, or versions of too many parts, to
    /// pair them.
    TooLarge,
}

/// Diffs the packages of the closures of `path_old` and `path_new`: connects
/// the store, asks it for each closure's paths and system derivations, and
/// lays out the diff after a blank line; gives the lines and how many
/// package diffs they hold.
pub fn write_package_diff<B: StoreBackend>(
    store: &mut CombinedStoreBackend<B>,
    path_old: &str,
    path_new: &str,
) -> (r: Result<(Vec<Vec<Segment>>, usize), PackageDiffError>)
    ensures
        final(store).backends().len() == old(store).backends().len(),
        !final(store).is_connected() ==> r is Err,
        r matches Ok((lines, n)) ==> lines@.len() >= 1 && lines@[0]@.len() == 0 && diff_of_store(
            *final(store),
            path_old,
            path_new,
            line_views(lines@).drop_first(),
            n as nat,
        ),
        r matches Err(PackageDiffError::Store(e)) ==> store_failure(*old(store), *final(store), path_old, path_new, e),
        r matches Err(PackageDiffError::TooLarge) ==> too_large_for_store(*final(store), path_old, path_new),
{
    let ghost before = *store;
    match store.connect() {
        Ok(()) => {},
        Err(e) => {
            return Err(PackageDiffError::Store(e));
        },
    }
    let old_paths = match store.query_dependents(path_old) {
        Ok(p) => p,
        Err(e) => {
            return Err(PackageDiffError::Store(e));
        },
    };
    let new_paths = match store.query_dependents(path_new) {
        Ok(p) => p,
        Err(e) => {
            return Err(PackageDiffError::Store(e));
        },
    };
    let old_system = match store.query_system_derivations(path_old) {
        Ok(p) => p,
        Err(e) => {
            return Err(PackageDiffError::Store(e));
        },
    };
    let new_system = match store.query_system_derivations(path_new) {
        Ok(p) => p,
        Err(e) => {
            return Err(PackageDiffError::Store(e));
        },
    };
    match package_diff_lines(&old_paths, &new_paths, &old_system, &new_system) {
        Some((diff, count)) => {
            let mut lines: Vec<Vec<Segment>> = Vec::new();
            lines.push(Vec::new());
            let ghost shown = line_views(diff@);
            let mut diff = diff;
            lines.append(&mut diff);
            assert(line_views(lines@).drop_first() =~= shown);
            assert(closures_fit(text_views(old_paths@), text_views(new_paths@)) && shows_package_diff(
                text_views(old_paths@),
                text_views(new_paths@),
                text_views(old_system@),
                text_views(new_system@),
                line_views(lines@).drop_first(),
                count as nat,
            ));
            assert(store_answers(*store, path_old, path_new, old_paths, new_paths, old_system, new_system));
            Ok((lines, count))
        },
        None => {
            assert(!closures_fit(text_views(old_paths@), text_views(new_paths@)));
            assert(store.dependents_answer(path_old, &Ok::<Vec<String>, StoreError>(old_paths)));
            assert(store.dependents_answer(path_new, &Ok::<Vec<String>, StoreError>(new_paths)));
            Err(PackageDiffError::TooLarge)
        },
    }
}

/// Diffs the packages of the closures of `path_old` and `path_new`, as
/// `write_package_diff` does; the name the diff had before.
pub fn write_paths_diffln<B: StoreBackend>(
    store: &mut CombinedStoreBackend<B>,
    path_old: &str,
    path_new: &str,
) -> (r: Result<(Vec<Vec<Segment>>, usize), PackageDiffError>)
    ensures
        final(store).backends().len() == old(store).backends().len(),
        !final(store).is_connected() ==> r is Err,
        r matches Ok((lines, n)) ==> lines@.len() >= 1 && lines@[0]@.len() == 0 && diff_of_store(
            *final(store),
            path_old,
            path_new,
            line_views(lines@).drop_first(),
            n as nat,
        ),
        r matches Err(PackageDiffError::Store(e)) ==> store_failure(*old(store), *final(store), path_old, path_new, e),
        r matches Err(PackageDiffError::TooLarge) ==> too_large_for_store(*final(store), path_old, path_new),
{
    write_package_diff(store, path_old, path_new)
}

/// The names of the packages among store paths.
pub open spec fn path_names(p: Seq<PathView>) -> Seq<Seq<char>> {
    p.map_values(|x: PathView| x.0)
}

fn names_of(paths: &Vec<(String, Option<String>)>) -> (r: Vec<String>)
    ensures
        text_views(r@) == path_names(path_views(paths@)),
{
    let mut r: Vec<String> = Vec::new();
    let mut k: usize = 0;
    while k < paths.len()
        invariant
            k <= paths@.len(),
            text_views(r@) == path_names(path_views(paths@)).take(k as int),
        decreases paths@.len() - k,
    {
        let name = paths[k].0.as_str().to_owned();
        let ghost all = path_names(path_views(paths@));
        let ghost prev = text_views(r@);
        assert(all[k as int] == name@);
        r.push(name);
        assert(text_views(r@) =~= prev.push(name@));
        assert(all.take(k + 1) =~= all.take(k as int).push(all[k as int]));
        k = k + 1;
    }
    assert(path_names(path_views(paths@)).take(paths@.len() as int) =~= path_names(
        path_views(paths@),
    ));
    r
}

/// Whether the packages of two closures, given by their store paths, are
/// small enough to pair their versions.
pub open spec fn closures_fit(old_paths: Seq<Seq<char>>, new_paths: Seq<Seq<char>>) -> bool {
    crate::diff::entries_fit(
        crate::diff::collected_versions(store_path_views(old_paths), store_path_views(new_paths)),
    )
}

/// Whether `lines` lay out the `n` package diffs between two closures, given
/// by their store paths and the store paths of their system derivations:
/// the closures' paths are read as packages, and the system derivations by
/// their package names.
pub open spec fn shows_package_diff(
    old_paths: Seq<Seq<char>>,
    new_paths: Seq<Seq<char>>,
    old_system: Seq<Seq<char>>,
    new_system: Seq<Seq<char>>,
    lines: Seq<Seq<crate::diff::SegView>>,
    n: nat,
) -> bool {
    exists|so: Seq<String>, sn: Seq<String>|
        #![trigger text_views(so), text_views(sn)]
        text_views(so) == path_names(store_path_views(old_system)) && text_views(sn) == path_names(
            store_path_views(new_system),
        ) && ({
            let diffs = reported_diffs(store_path_views(old_paths), store_path_views(new_paths), so, sn);
            lines == render_lines(diffs, name_column_width(diffs)) && n == diffs.len()
        })
}

proof fn lemma_selection_by_names(d: Seq<crate::diff::DiffView>, a: Seq<String>, b: Seq<String>, a2: Seq<String>, b2: Seq<String>)
    requires
        text_views(a) == text_views(a2),
        text_views(b) == text_views(b2),
    ensures
        d.map_values(|x: crate::diff::DiffView| crate::diff::with_selection(x, a, b)) == d.map_values(
            |x: crate::diff::DiffView| crate::diff::with_selection(x, a2, b2),
        ),
{
    assert forall|name: Seq<char>| crate::diff::names_contain(a, name) == crate::diff::names_contain(a2, name)
        && crate::diff::names_contain(b, name) == crate::diff::names_contain(b2, name) by {
        if crate::diff::names_contain(a, name) {
            let i = choose|i: int| 0 <= i < a.len() && #[trigger] a[i]@ == name;
            assert(text_views(a).len() == a.len() && text_views(a2).len() == a2.len());
            assert(text_views(a)[i] == a[i]@ && text_views(a2)[i] == a2[i]@);
        }
        if crate::diff::names_contain(a2, name) {
            let i = choose|i: int| 0 <= i < a2.len() && #[trigger] a2[i]@ == name;
            assert(text_views(a2).len() == a2.len() && text_views(a).len() == a.len());
            assert(text_views(a2)[i] == a2[i]@ && text_views(a)[i] == a[i]@);
        }
        if crate::diff::names_contain(b, name) {
            let i = choose|i: int| 0 <= i < b.len() && #[trigger] b[i]@ == name;
            assert(text_views(b).len() == b.len() && text_views(b2).len() == b2.len());
            assert(text_views(b)[i] == b[i]@ && text_views(b2)[i] == b2[i]@);
        }
        if crate::diff::names_contain(b2, name) {
            let i = choose|i: int| 0 <= i < b2.len() && #[trigger] b2[i]@ == name;
            assert(text_views(b2).len() == b2.len() && text_views(b).len() == b.len());
            assert(text_views(b2)[i] == b2[i]@ && text_views(b)[i] == b[i]@);
        }
    }
    assert(d.map_values(|x: crate::diff::DiffView| crate::diff::with_selection(x, a, b)) =~= d.map_values(
        |x: crate::diff::DiffView| crate::diff::with_selection(x, a2, b2),
    ));
}

/// The package diff is a function of the store's four answers: two runs of
/// `write_package_diff` or of `write_paths_diffln` (which forwards to it)
/// whose store gave the same dependents and system derivations for the two
/// paths write the same lines and count the same diffs.
pub proof fn law_package_diff_determined_by_answers(
    old_paths: Seq<Seq<char>>,
    new_paths: Seq<Seq<char>>,
    old_system: Seq<Seq<char>>,
    new_system: Seq<Seq<char>>,
    lines_a: Seq<Seq<crate::diff::SegView>>,
    n_a: nat,
    lines_b: Seq<Seq<crate::diff::SegView>>,
    n_b: nat,
)
    requires
        shows_package_diff(old_paths, new_paths, old_system, new_system, lines_a, n_a),
        shows_package_diff(old_paths, new_paths, old_system, new_system, lines_b, n_b),
    ensures
        lines_a == lines_b,
        n_a == n_b,
{
    let (so, sn) = choose|so: Seq<String>, sn: Seq<String>|
        #![trigger text_views(so), text_views(sn)]
        text_views(so) == path_names(store_path_views(old_system)) && text_views(sn) == path_names(
            store_path_views(new_system),
        ) && ({
            let diffs = reported_diffs(store_path_views(old_paths), store_path_views(new_paths), so, sn);
            lines_a == render_lines(diffs, name_column_width(diffs)) && n_a == diffs.len()
        });
    let (so2, sn2) = choose|so: Seq<String>, sn: Seq<String>|
        #![trigger text_views(so), text_views(sn)]
        text_views(so) == path_names(store_path_views(old_system)) && text_views(sn) == path_names(
            store_path_views(new_system),
        ) && ({
            let diffs = reported_diffs(store_path_views(old_paths), store_path_views(new_paths), so, sn);
            lines_b == render_lines(diffs, name_column_width(diffs)) && n_b == diffs.len()
        });
    let d = crate::diff::diffs_of(
        crate::diff::collected_versions(store_path_views(old_paths), store_path_views(new_paths)),
    );
    lemma_selection_by_names(d, so, sn, so2, sn2);
}

/// Whether the store, asked for the dependents and the system derivations
/// of `path_old` and of `path_new`, can answer with these four lists.
pub open spec fn store_answers<B: StoreBackend>(
    store: CombinedStoreBackend<B>,
    path_old: &str,
    path_new: &str,
    old_paths: Vec<String>,
    new_paths: Vec<String>,
    old_system: Vec<String>,
    new_system: Vec<String>,
) -> bool {
    &&& store.dependents_answer(path_old, &Ok::<Vec<String>, StoreError>(old_paths))
    &&& store.dependents_answer(path_new, &Ok::<Vec<String>, StoreError>(new_paths))
    &&& store.system_derivations_answer(path_old, &Ok::<Vec<String>, StoreError>(old_system))
    &&& store.system_derivations_answer(path_new, &Ok::<Vec<String>, StoreError>(new_system))
}

/// Whether `lines` lay out the `n` package diffs between the closures of
/// `path_old` and `path_new`, as the store answers the queries about them.
pub open spec fn diff_of_store<B: StoreBackend>(
    store: CombinedStoreBackend<B>,
    path_old: &str,
    path_new: &str,
    lines: Seq<Seq<crate::diff::SegView>>,
    n: nat,
) -> bool {
    exists|old_paths: Vec<String>, new_paths: Vec<String>, old_system: Vec<String>, new_system: Vec<String>|
        #[trigger] store_answers(store, path_old, path_new, old_paths, new_paths, old_system, new_system)
            && closures_fit(text_views(old_paths@), text_views(new_paths@)) && shows_package_diff(
            text_views(old_paths@),
            text_views(new_paths@),
            text_views(old_system@),
            text_views(new_system@),
            lines,
            n,
        )
}

/// Whether `e` is a failure the diff can meet: connecting the store, as it
/// was `before`, fails with it, or the connected store answers one of the
/// four queries with it.
pub open spec fn store_failure<B: StoreBackend>(
    before: CombinedStoreBackend<B>,
    after: CombinedStoreBackend<B>,
    path_old: &str,
    path_new: &str,
    e: StoreError,
) -> bool {
    ||| before.connect_answer(&after, &Err::<(), StoreError>(e))
    ||| after.dependents_answer(path_old, &Err::<Vec<String>, StoreError>(e))
    ||| after.dependents_answer(path_new, &Err::<Vec<String>, StoreError>(e))
    ||| after.system_derivations_answer(path_old, &Err::<Vec<String>, StoreError>(e))
    ||| after.system_derivations_answer(path_new, &Err::<Vec<String>, StoreError>(e))
}

/// Whether the store can answer the dependents of the two paths with
/// closures too large to pair.
pub open spec fn too_large_for_store<B: StoreBackend>(
    store: CombinedStoreBackend<B>,
    path_old: &str,
    path_new: &str,
) -> bool {
    exists|old_paths: Vec<String>, new_paths: Vec<String>|
        #[trigger] store.dependents_answer(path_old, &Ok::<Vec<String>, StoreError>(old_paths))
            && #[trigger] store.dependents_answer(path_new, &Ok::<Vec<String>, StoreError>(new_paths)) && !closures_fit(
            text_views(old_paths@),
            text_views(new_paths@),
        )
}

/// The diff lines of two closures from the paths a store gave: the closures'
/// store paths are read, and the system derivations by their package names;
/// none when the packages are too large to pair.
pub fn package_diff_lines(
    old_paths: &Vec<String>,
    new_paths: &Vec<String>,
    old_system: &Vec<String>,
    new_system: &Vec<String>,
) -> (r: Option<(Vec<Vec<Segment>>, usize)>)
    ensures
        r is None <==> !closures_fit(text_views(old_paths@), text_views(new_paths@)),
        r matches Some((lines, n)) ==> shows_package_diff(
            text_views(old_paths@),
            text_views(new_paths@),
            text_views(old_system@),
            text_views(new_system@),
            line_views(lines@),
            n as nat,
        ),
{
    let old_parsed = parse_store_paths(old_paths);
    let new_parsed = parse_store_paths(new_paths);
    let old_names = names_of(&parse_store_paths(old_system));
    let new_names = names_of(&parse_store_paths(new_system));
    if !packages_fit(&old_parsed, &new_parsed) {
        return None;
    }
    let r = write_packages_diffln(&old_parsed, &new_parsed, &old_names, &new_names);
    assert(text_views(old_names@) == path_names(store_path_views(text_views(old_system@))));
    assert(text_views(new_names@) == path_names(store_path_views(text_views(new_system@))));
    Some(r)
}

} // verus!
