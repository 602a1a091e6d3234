//! The search for files under a list of paths: a depth-first walk that keeps a
//! stack of paths still to examine and collects those that are files.  Looking
//! at a path (is it a file, a directory and with which entries) is file-system
//! work done by the caller; this module decides, after each look, what to look
//! at next and when the search is over.

use vstd::prelude::*;

verus! {

/// What the file system says of a path.
#[derive(Debug, PartialEq, Eq)]
pub enum PathKind {
    /// A regular file.
    File,
    /// A directory, with the paths of the entries that could be read (none
    /// when the directory could not be read).
    Directory(Vec<String>),
    /// Neither (missing, or of another kind).
    Other,
}

/// The state of a search: the stack of paths still to examine (the last is
/// examined next) and the files found so far, in the order found.
pub struct FileSearch {
    pub pending: Vec<String>,
    pub files: Vec<String>,
}

/// What the caller is to do next.
#[derive(Debug, PartialEq, Eq)]
pub enum SearchAction {
    /// Find out what the path is, and report it.
    Probe(String),
    /// The search is over; these are the files found.
    Finish(Vec<String>),
}

/// The texts of a vector of strings.
pub open spec fn texts(v: Seq<String>) -> Seq<Seq<char>> {
    v.map_values(|s: String| s@)
}

impl FileSearch {
    /// The stack of paths still to examine.
    pub open spec fn pending_paths(&self) -> Seq<Seq<char>> {
        texts(self.pending@)
    }

    /// The files found so far.
    pub open spec fn found_files(&self) -> Seq<Seq<char>> {
        texts(self.files@)
    }

    /// Starts a search of the given paths.  They are examined from the last
    /// one back, as a stack.
    pub fn new(paths: Vec<String>) -> (search: FileSearch)
        ensures
            search.pending_paths() == texts(paths@),
            search.found_files() == Seq::<Seq<char>>::empty(),
    {
        let search = FileSearch { pending: paths, files: Vec::new() };
        proof {
            assert(search.found_files() =~= Seq::<Seq<char>>::empty());
        }
        search
    }
}

/// What a look at `path` adds to the search: a file is found, a directory's
/// entries are pushed on the stack in the order given.
pub open spec fn after_probe(
    pending: Seq<Seq<char>>,
    files: Seq<Seq<char>>,
    path: Seq<char>,
    kind: PathKind,
) -> (Seq<Seq<char>>, Seq<Seq<char>>) {
    match kind {
        PathKind::File => (pending, files.push(path)),
        PathKind::Directory(entries) => (pending + texts(entries@), files),
        PathKind::Other => (pending, files),
    }
}

/// One step of the search.  The report on the path examined last, if any, is
/// taken into account first; then the next path is taken off the stack to be
/// examined, or, when the stack is empty, the search finishes with the files
/// found.
pub fn search_files(search: &mut FileSearch, report: Option<(String, PathKind)>) -> (action:
    SearchAction)
    ensures
        ({
            let (pending, files) = match report {
                Some((path, kind)) => after_probe(
                    old(search).pending_paths(),
                    old(search).found_files(),
                    path@,
                    kind,
                ),
                None => (old(search).pending_paths(), old(search).found_files()),
            };
            &&& final(search).found_files() == files
            &&& if pending.len() == 0 {
                &&& final(search).pending_paths() == pending
                &&& action matches SearchAction::Finish(found) && texts(found@) == files
            } else {
                &&& final(search).pending_paths() == pending.drop_last()
                &&& action matches SearchAction::Probe(next) && next@ == pending.last()
            }
        }),
{
    match report {
        Some((path, kind)) => match kind {
            PathKind::File => {
                proof {
                    assert(texts(search.files@.push(path)) =~= texts(search.files@).push(path@));
                }
                search.files.push(path);
            },
            PathKind::Directory(entries) => {
                let ghost before = search.pending@;
                let mut i: usize = 0;
                while i < entries.len()
                    invariant
                        i <= entries.len(),
                        search.files == old(search).files,
                        texts(search.pending@) == texts(before) + texts(entries@.take(i as int)),
                    decreases entries.len() - i,
                {
                    proof {
                        assert(texts(entries@.take(i + 1)) =~= texts(entries@.take(i as int)).push(
                            entries@[i as int]@,
                        ));
                        assert(texts(search.pending@.push(entries@[i as int])) =~= texts(
                            search.pending@,
                        ).push(entries@[i as int]@));
                    }
                    search.pending.push(entries[i].clone());
                    i = i + 1;
                }
                proof {
                    assert(entries@.take(entries.len() as int) =~= entries@);
                }
            },
            PathKind::Other => {},
        },
        None => {},
    }
    let ghost pending = search.pending@;
    match search.pending.pop() {
        Some(next) => {
            proof {
                assert(texts(search.pending@) =~= texts(pending).drop_last());
            }
            SearchAction::Probe(next)
        },
        None => {
            proof {
                assert(texts(pending) =~= Seq::<Seq<char>>::empty());
            }
            let mut found: Vec<String> = Vec::new();
            let mut i: usize = 0;
            while i < search.files.len()
                invariant
                    i <= search.files.len(),
                    texts(found@) == texts(search.files@.take(i as int)),
                decreases search.files.len() - i,
            {
                proof {
                    assert(search.files@.take(i + 1) =~= search.files@.take(i as int).push(
                        search.files@[i as int],
                    ));
                    assert(texts(found@.push(search.files@[i as int])) =~= texts(found@).push(
                        search.files@[i as int]@,
                    ));
                    assert(texts(search.files@.take(i + 1)) =~= texts(search.files@.take(i as int)).push(
                        search.files@[i as int]@,
                    ));
                }
                found.push(search.files[i].clone());
                i = i + 1;
            }
            proof {
                assert(search.files@.take(search.files.len() as int) =~= search.files@);
            }
            SearchAction::Finish(found)
        },
    }
}

// ---------------------------------------------------------------------------
// Laws of a whole search, over a file system that does not change
// ---------------------------------------------------------------------------

/// One step of a search on a file system that says `fs(path)` of each path
/// looked at: the last pending path is taken off the stack and looked at.
pub open spec fn search_step(
    fs: spec_fn(Seq<char>) -> PathKind,
    pending: Seq<Seq<char>>,
    found: Seq<Seq<char>>,
) -> (Seq<Seq<char>>, Seq<Seq<char>>) {
    after_probe(pending.drop_last(), found, pending.last(), fs(pending.last()))
}

/// The files a search finds within `fuel` looks, or `None` if it is not
/// over by then.
pub open spec fn explore(
    fs: spec_fn(Seq<char>) -> PathKind,
    pending: Seq<Seq<char>>,
    found: Seq<Seq<char>>,
    fuel: nat,
) -> Option<Seq<Seq<char>>>
    decreases fuel,
{
    if pending.len() == 0 {
        Some(found)
    } else if fuel == 0 {
        None
    } else {
        let next = search_step(fs, pending, found);
        explore(fs, next.0, next.1, (fuel - 1) as nat)
    }
}

/// The files that a search of `paths` finds, or `None` when the search never
/// ends (as on a directory that contains itself).
pub open spec fn search_outcome(fs: spec_fn(Seq<char>) -> PathKind, paths: Seq<Seq<char>>) -> Option<
    Seq<Seq<char>>,
> {
    if exists|n: nat| #[trigger] explore(fs, paths, seq![], n) is Some {
        explore(fs, paths, seq![], choose|n: nat| #[trigger] explore(fs, paths, seq![], n) is Some)
    } else {
        None
    }
}

/// More looks do not change the result of a search that is over.
proof fn lemma_explore_more_fuel(
    fs: spec_fn(Seq<char>) -> PathKind,
    pending: Seq<Seq<char>>,
    found: Seq<Seq<char>>,
    n: nat,
    k: nat,
)
    requires
        explore(fs, pending, found, n) is Some,
    ensures
        explore(fs, pending, found, n + k) == explore(fs, pending, found, n),
    decreases n,
{
    if pending.len() > 0 {
        let next = search_step(fs, pending, found);
        lemma_explore_more_fuel(fs, next.0, next.1, (n - 1) as nat, k);
        assert((n + k - 1) as nat == (n - 1) as nat + k);
    }
}

/// A search that is over has one result, whatever the number of looks.
proof fn lemma_explore_unique(
    fs: spec_fn(Seq<char>) -> PathKind,
    pending: Seq<Seq<char>>,
    found: Seq<Seq<char>>,
    n1: nat,
    n2: nat,
)
    requires
        explore(fs, pending, found, n1) is Some,
        explore(fs, pending, found, n2) is Some,
    ensures
        explore(fs, pending, found, n1) == explore(fs, pending, found, n2),
{
    if n1 <= n2 {
        lemma_explore_more_fuel(fs, pending, found, n1, (n2 - n1) as nat);
    } else {
        lemma_explore_more_fuel(fs, pending, found, n2, (n1 - n2) as nat);
    }
}

/// A search that is over within some number of looks has that outcome.
proof fn lemma_outcome_of(fs: spec_fn(Seq<char>) -> PathKind, paths: Seq<Seq<char>>, n: nat)
    requires
        explore(fs, paths, seq![], n) is Some,
    ensures
        search_outcome(fs, paths) == explore(fs, paths, seq![], n),
{
    assert(exists|m: nat| #[trigger] explore(fs, paths, seq![], m) is Some);
    let m = choose|m: nat| #[trigger] explore(fs, paths, seq![], m) is Some;
    lemma_explore_unique(fs, paths, seq![], n, m);
}

/// The files found before a search only precede those it finds.
proof fn lemma_explore_found(
    fs: spec_fn(Seq<char>) -> PathKind,
    pending: Seq<Seq<char>>,
    found: Seq<Seq<char>>,
    n: nat,
)
    ensures
        explore(fs, pending, found, n) == match explore(fs, pending, seq![], n) {
            Some(r) => Some(found + r),
            None => None::<Seq<Seq<char>>>,
        },
    decreases n,
{
    if pending.len() == 0 {
        assert(found + Seq::<Seq<char>>::empty() =~= found);
    } else if n > 0 {
        let next = search_step(fs, pending, found);
        let bare = search_step(fs, pending, seq![]);
        assert(next.0 == bare.0);
        assert(next.1 =~= found + bare.1);
        lemma_explore_found(fs, next.0, next.1, (n - 1) as nat);
        lemma_explore_found(fs, bare.0, bare.1, (n - 1) as nat);
        lemma_explore_found(fs, bare.0, seq![], (n - 1) as nat);
        match explore(fs, bare.0, seq![], (n - 1) as nat) {
            Some(r) => {
                assert(found + (bare.1 + r) =~= (found + bare.1) + r);
            },
            None => {},
        }
    }
}

/// Paths under the stack are not touched while the paths above are searched.
proof fn lemma_step_framed(
    fs: spec_fn(Seq<char>) -> PathKind,
    below: Seq<Seq<char>>,
    above: Seq<Seq<char>>,
    found: Seq<Seq<char>>,
)
    requires
        above.len() > 0,
    ensures
        search_step(fs, below + above, found) == (
            below + search_step(fs, above, found).0,
            search_step(fs, above, found).1,
        ),
{
    assert((below + above).last() == above.last());
    assert((below + above).drop_last() =~= below + above.drop_last());
    match fs(above.last()) {
        PathKind::Directory(entries) => {
            assert(below + above.drop_last() + texts(entries@) =~= below + (above.drop_last()
                + texts(entries@)));
        },
        _ => {},
    }
}

/// Searching the upper paths to their end, then the lower ones, is searching both.
proof fn lemma_explore_stacked(
    fs: spec_fn(Seq<char>) -> PathKind,
    below: Seq<Seq<char>>,
    above: Seq<Seq<char>>,
    found: Seq<Seq<char>>,
    n: nat,
    m: nat,
)
    requires
        explore(fs, above, found, n) is Some,
        explore(fs, below, explore(fs, above, found, n)->0, m) is Some,
    ensures
        explore(fs, below + above, found, n + m) == explore(
            fs,
            below,
            explore(fs, above, found, n)->0,
            m,
        ),
    decreases n,
{
    if above.len() == 0 {
        assert(below + above =~= below);
        lemma_explore_more_fuel(fs, below, found, m, n);
        assert(n + m == m + n);
    } else {
        lemma_step_framed(fs, below, above, found);
        let next = search_step(fs, above, found);
        lemma_explore_stacked(fs, below, next.0, next.1, (n - 1) as nat, m);
        assert((n + m - 1) as nat == (n - 1) as nat + m);
    }
}

/// A search of both stacked parts that is over went through the upper part
/// to its end first.
proof fn lemma_explore_unstacked(
    fs: spec_fn(Seq<char>) -> PathKind,
    below: Seq<Seq<char>>,
    above: Seq<Seq<char>>,
    found: Seq<Seq<char>>,
    n: nat,
) -> (mid: Seq<Seq<char>>)
    requires
        explore(fs, below + above, found, n) is Some,
    ensures
        explore(fs, above, found, n) == Some(mid),
        explore(fs, below, mid, n) == explore(fs, below + above, found, n),
    decreases n,
{
    if above.len() == 0 {
        assert(below + above =~= below);
        found
    } else {
        lemma_step_framed(fs, below, above, found);
        let next = search_step(fs, above, found);
        let mid = lemma_explore_unstacked(fs, below, next.0, next.1, (n - 1) as nat);
        lemma_explore_more_fuel(fs, below, mid, (n - 1) as nat, 1);
        assert((n - 1) as nat + 1 == n);
        mid
    }
}

/// Searching `first + second` finds what searching `second` finds, then
/// what searching `first` finds (the paths are taken from the back); it ends
/// exactly when both searches do.
pub proof fn law_search_concat(
    fs: spec_fn(Seq<char>) -> PathKind,
    first: Seq<Seq<char>>,
    second: Seq<Seq<char>>,
)
    ensures
        search_outcome(fs, first + second) == match (
            search_outcome(fs, second),
            search_outcome(fs, first),
        ) {
            (Some(later), Some(earlier)) => Some(later + earlier),
            _ => None::<Seq<Seq<char>>>,
        },
{
    let both = first + second;
    if exists|n: nat| #[trigger] explore(fs, both, seq![], n) is Some {
        let n = choose|n: nat| #[trigger] explore(fs, both, seq![], n) is Some;
        let mid = lemma_explore_unstacked(fs, first, second, seq![], n);
        lemma_outcome_of(fs, second, n);
        lemma_explore_found(fs, first, mid, n);
        lemma_outcome_of(fs, first, n);
        lemma_outcome_of(fs, both, n);
    } else {
        if search_outcome(fs, second) is Some && search_outcome(fs, first) is Some {
            let nb = choose|n: nat| #[trigger] explore(fs, second, seq![], n) is Some;
            let na = choose|n: nat| #[trigger] explore(fs, first, seq![], n) is Some;
            let later = explore(fs, second, seq![], nb)->0;
            lemma_explore_found(fs, first, later, na);
            lemma_explore_stacked(fs, first, second, seq![], nb, na);
            assert(explore(fs, both, seq![], nb + na) is Some);
        }
    }
}

/// A directory is searched like its entries, pushed in the order listed.
pub proof fn law_search_directory(
    fs: spec_fn(Seq<char>) -> PathKind,
    dir: Seq<char>,
    entries: Vec<String>,
)
    requires
        fs(dir) == PathKind::Directory(entries),
    ensures
        search_outcome(fs, seq![dir]) == search_outcome(fs, texts(entries@)),
{
    let start = seq![dir];
    let inner = texts(entries@);
    assert(search_step(fs, start, seq![]) == (inner, Seq::<Seq<char>>::empty())) by {
        assert(start.drop_last() + inner =~= inner);
    }
    if exists|n: nat| #[trigger] explore(fs, inner, seq![], n) is Some {
        let n = choose|n: nat| #[trigger] explore(fs, inner, seq![], n) is Some;
        assert(explore(fs, start, seq![], n + 1) == explore(fs, inner, seq![], n));
        lemma_outcome_of(fs, inner, n);
        lemma_outcome_of(fs, start, n + 1);
    } else if exists|n: nat| #[trigger] explore(fs, start, seq![], n) is Some {
        let n = choose|n: nat| #[trigger] explore(fs, start, seq![], n) is Some;
        assert(n > 0);
        assert(explore(fs, inner, seq![], (n - 1) as nat) is Some);
    }
}

/// A file is found, and only it.
pub proof fn law_search_file(fs: spec_fn(Seq<char>) -> PathKind, path: Seq<char>)
    requires
        fs(path) == PathKind::File,
    ensures
        search_outcome(fs, seq![path]) == Some(seq![path]),
{
    let start = seq![path];
    assert(search_step(fs, start, seq![]) == (Seq::<Seq<char>>::empty(), seq![path])) by {
        assert(start.drop_last() =~= Seq::<Seq<char>>::empty());
        assert(Seq::<Seq<char>>::empty().push(path) =~= seq![path]);
    }
    assert(explore(fs, Seq::<Seq<char>>::empty(), seq![path], 0) == Some(seq![path]));
    assert(explore(fs, start, seq![], 1) == Some(seq![path]));
    lemma_outcome_of(fs, start, 1);
}

/// A path that is neither a file nor a readable directory with entries
/// yields nothing, and adding it to a search changes nothing.
pub proof fn law_search_skips(
    fs: spec_fn(Seq<char>) -> PathKind,
    path: Seq<char>,
    paths: Seq<Seq<char>>,
)
    requires
        fs(path) == PathKind::Other || (fs(path) matches PathKind::Directory(entries) && entries.len() == 0),
    ensures
        search_outcome(fs, seq![path]) == Some(Seq::<Seq<char>>::empty()),
        search_outcome(fs, paths + seq![path]) == search_outcome(fs, paths),
{
    let start = seq![path];
    assert(search_step(fs, start, seq![]) == (Seq::<Seq<char>>::empty(), Seq::<Seq<char>>::empty())) by {
        assert(start.drop_last() =~= Seq::<Seq<char>>::empty());
        match fs(path) {
            PathKind::Directory(entries) => {
                assert(texts(entries@) =~= Seq::<Seq<char>>::empty());
                assert(Seq::<Seq<char>>::empty() + texts(entries@) =~= Seq::<Seq<char>>::empty());
            },
            _ => {},
        }
    }
    assert(explore(fs, Seq::<Seq<char>>::empty(), Seq::<Seq<char>>::empty(), 0) == Some(
        Seq::<Seq<char>>::empty(),
    ));
    assert(explore(fs, start, seq![], 1) == Some(Seq::<Seq<char>>::empty()));
    lemma_outcome_of(fs, start, 1);
    law_search_concat(fs, paths, start);
    match search_outcome(fs, paths) {
        Some(r) => {
            assert(Seq::<Seq<char>>::empty() + r =~= r);
        },
        None => {},
    }
}

/// The searches of each path on its own, joined from the last path to the
/// first, or `None` when one of them never ends.
pub open spec fn joined_searches(fs: spec_fn(Seq<char>) -> PathKind, paths: Seq<Seq<char>>) -> Option<
    Seq<Seq<char>>,
>
    decreases paths.len(),
{
    if paths.len() == 0 {
        Some(seq![])
    } else {
        match (search_outcome(fs, seq![paths.last()]), joined_searches(fs, paths.drop_last())) {
            (Some(later), Some(earlier)) => Some(later + earlier),
            _ => None,
        }
    }
}

/// An empty search finds nothing.
proof fn lemma_search_nothing(fs: spec_fn(Seq<char>) -> PathKind)
    ensures
        search_outcome(fs, Seq::<Seq<char>>::empty()) == Some(Seq::<Seq<char>>::empty()),
{
    assert(explore(fs, Seq::<Seq<char>>::empty(), seq![], 0) == Some(Seq::<Seq<char>>::empty()));
    lemma_outcome_of(fs, Seq::<Seq<char>>::empty(), 0);
}

/// Searching a list of paths is searching each path on its own, the last
/// one first.
pub proof fn law_search_each_path(fs: spec_fn(Seq<char>) -> PathKind, paths: Seq<Seq<char>>)
    ensures
        search_outcome(fs, paths) == joined_searches(fs, paths),
    decreases paths.len(),
{
    if paths.len() == 0 {
        lemma_search_nothing(fs);
    } else {
        let init = paths.drop_last();
        let last = seq![paths.last()];
        assert(init + last =~= paths);
        law_search_each_path(fs, init);
        law_search_concat(fs, init, last);
    }
}

/// A directory is searched as its entries, each on its own, from the last
/// listed to the first; a directory without entries yields nothing.
pub proof fn law_search_directory_entries(
    fs: spec_fn(Seq<char>) -> PathKind,
    dir: Seq<char>,
    entries: Vec<String>,
)
    requires
        fs(dir) == PathKind::Directory(entries),
    ensures
        search_outcome(fs, seq![dir]) == joined_searches(fs, texts(entries@)),
        entries.len() == 0 ==> search_outcome(fs, seq![dir]) == Some(Seq::<Seq<char>>::empty()),
{
    law_search_directory(fs, dir, entries);
    law_search_each_path(fs, texts(entries@));
    if entries.len() == 0 {
        assert(texts(entries@) =~= Seq::<Seq<char>>::empty());
    }
}

/// A set of paths closed under directory listing, on which `rank` strictly
/// decreases from a directory to each of its entries: within it no
/// directory reaches itself, and every chain of directories is finite.
pub open spec fn ranked_closed(
    fs: spec_fn(Seq<char>) -> PathKind,
    reach: Set<Seq<char>>,
    rank: spec_fn(Seq<char>) -> nat,
) -> bool {
    forall|p: Seq<char>|
        #[trigger] reach.contains(p) ==> match fs(p) {
            PathKind::Directory(entries) => forall|i: int|
                0 <= i < entries.len() ==> reach.contains(#[trigger] entries@[i]@) && rank(
                    entries@[i]@,
                ) < rank(p),
            _ => true,
        }
}

/// Each path of a finite acyclic part of the file system is searched to an end.
proof fn lemma_search_one_ends(
    fs: spec_fn(Seq<char>) -> PathKind,
    reach: Set<Seq<char>>,
    rank: spec_fn(Seq<char>) -> nat,
    path: Seq<char>,
)
    requires
        ranked_closed(fs, reach, rank),
        reach.contains(path),
    ensures
        search_outcome(fs, seq![path]) is Some,
    decreases rank(path),
{
    match fs(path) {
        PathKind::File => {
            law_search_file(fs, path);
        },
        PathKind::Other => {
            law_search_skips(fs, path, Seq::<Seq<char>>::empty());
        },
        PathKind::Directory(entries) => {
            let inner = texts(entries@);
            assert forall|i: int| 0 <= i < inner.len() implies search_outcome(
                fs,
                seq![#[trigger] inner[i]],
            ) is Some by {
                assert(inner[i] == entries@[i]@);
                assert(reach.contains(entries@[i]@));
                lemma_search_one_ends(fs, reach, rank, inner[i]);
            }
            lemma_search_list_ends(fs, inner);
            law_search_directory(fs, path, entries);
        },
    }
}

/// A list of paths each searched to an end is searched to an end.
proof fn lemma_search_list_ends(fs: spec_fn(Seq<char>) -> PathKind, paths: Seq<Seq<char>>)
    requires
        forall|i: int| 0 <= i < paths.len() ==> search_outcome(fs, seq![#[trigger] paths[i]]) is Some,
    ensures
        search_outcome(fs, paths) is Some,
    decreases paths.len(),
{
    if paths.len() == 0 {
        lemma_search_nothing(fs);
    } else {
        let init = paths.drop_last();
        let last = seq![paths.last()];
        assert(init + last =~= paths);
        assert forall|i: int| 0 <= i < init.len() implies search_outcome(
            fs,
            seq![#[trigger] init[i]],
        ) is Some by {
            assert(init[i] == paths[i]);
        }
        lemma_search_list_ends(fs, init);
        assert(search_outcome(fs, seq![paths[paths.len() - 1]]) is Some);
        law_search_concat(fs, init, last);
    }
}

/// The search ends when the paths lie in a part of the file system that is
/// closed under directory listing and in which directories can be ranked so
/// that every entry ranks below its directory (finitely many directories
/// reachable, none reaching itself).
pub proof fn law_search_ends(
    fs: spec_fn(Seq<char>) -> PathKind,
    paths: Seq<Seq<char>>,
    reach: Set<Seq<char>>,
    rank: spec_fn(Seq<char>) -> nat,
)
    requires
        ranked_closed(fs, reach, rank),
        forall|i: int| 0 <= i < paths.len() ==> reach.contains(#[trigger] paths[i]),
    ensures
        search_outcome(fs, paths) is Some,
{
    assert forall|i: int| 0 <= i < paths.len() implies search_outcome(fs, seq![#[trigger] paths[i]])
        is Some by {
        lemma_search_one_ends(fs, reach, rank, paths[i]);
    }
    lemma_search_list_ends(fs, paths);
}

} // verus!
