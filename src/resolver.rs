//! The review of duplicate groups: which folders to create, and what each
//! operator command does to the folders that are still under review.
//!
//! The filesystem is the authority on what a folder holds, so every command
//! takes a fresh listing of each live folder and answers with the moves and
//! removals to carry out.
use vstd::prelude::*;
use crate::folder_name::{folder_name, folder_name_of};
use crate::grouping::{HashGroup, group_seq, is_grouping, path_seq};

verus! {

/// A folder to create for one duplicate group, and the files to move into it.
pub struct FolderPlan {
    pub digest: [u8; 32],
    pub name: String,
    pub members: Vec<String>,
}

impl FolderPlan {
    /// The digest's bytes, the folder's name and the members' paths.
    pub open spec fn view(&self) -> (Seq<u8>, Seq<char>, Seq<Seq<char>>) {
        (self.digest@, self.name@, path_seq(self.members@))
    }
}

/// Plans as triples of digest, folder name and members.
pub open spec fn plan_seq(plans: Seq<FolderPlan>) -> Seq<(Seq<u8>, Seq<char>, Seq<Seq<char>>)> {
    plans.map_values(|p: FolderPlan| p.view())
}

/// The folders that the first `n` groups call for: one for each group of two
/// or more files, in the order of the groups.
pub open spec fn planned_folders(groups: Seq<(Seq<u8>, Seq<Seq<char>>)>, n: int) -> Seq<
    (Seq<u8>, Seq<char>, Seq<Seq<char>>),
>
    decreases n,
{
    if n <= 0 {
        Seq::empty()
    } else if groups[n - 1].1.len() >= 2 {
        planned_folders(groups, n - 1).push(
            (groups[n - 1].0, folder_name_of(groups[n - 1].0), groups[n - 1].1),
        )
    } else {
        planned_folders(groups, n - 1)
    }
}

/// The folders to create for `groups`: one per group of two or more files,
/// named after its digest and holding that group's files; a group of one file
/// gets none.
pub fn materialize(groups: &Vec<HashGroup>) -> (r: Vec<FolderPlan>)
    ensures
        plan_seq(r@) == planned_folders(group_seq(groups@), groups@.len() as int),
{
    let ghost gs = group_seq(groups@);
    let mut plans: Vec<FolderPlan> = Vec::new();
    let mut i: usize = 0;
    while i < groups.len()
        invariant
            i <= groups@.len(),
            gs == group_seq(groups@),
            plan_seq(plans@) == planned_folders(gs, i as int),
        decreases groups@.len() - i,
    {
        let g = &groups[i];
        if g.paths.len() >= 2 {
            let name = folder_name(&g.digest);
            let mut members: Vec<String> = Vec::new();
            append_paths(&mut members, &g.paths);
            assert(path_seq(members@) =~= path_seq(g.paths@));
            let ghost before = plan_seq(plans@);
            plans.push(FolderPlan { digest: g.digest, name, members });
            assert(plan_seq(plans@) =~= before.push((gs[i as int].0, folder_name_of(gs[i as int].0), gs[i as int].1)));
        } else {
            assert(plan_seq(plans@) == planned_folders(gs, i + 1));
        }
        i = i + 1;
    }
    plans
}

/// An operator command.
#[derive(Clone, Copy, Debug, PartialEq, Eq, Structural)]
pub enum Command {
    /// Look at every folder again and dissolve those left with fewer than two
    /// files.
    Refresh,
    /// Move every remaining file back and end the review.
    Quit,
}

/// Where the review stands.
#[derive(Clone, Copy, Debug, PartialEq, Eq, Structural)]
pub enum Phase {
    /// Folders are under review: the operator is asked for a command.
    AwaitingCommand,
    /// Every folder was dissolved by refreshes.
    Resolved,
    /// The operator quit: every remaining file went back.
    Aborted,
}

/// The folders still under review.
pub struct ReviewSession {
    pub folders: Vec<String>,
    pub phase: Phase,
}

/// What to carry out after a command, in this order: move `restore` back to
/// the target directory, remove the folders in `remove_folders`, then, if
/// `remove_scratch_root`, the whole scratch tree.
pub struct Resolution {
    pub restore: Vec<String>,
    pub remove_folders: Vec<String>,
    pub remove_scratch_root: bool,
}

/// Listings of folders as paths in text.
pub open spec fn listing_seq(listings: Seq<Vec<String>>) -> Seq<Seq<Seq<char>>> {
    listings.map_values(|l: Vec<String>| path_seq(l@))
}

/// Of the first `n` folders, those whose listing holds two files or more.
pub open spec fn kept(folders: Seq<Seq<char>>, listings: Seq<Seq<Seq<char>>>, n: int) -> Seq<
    Seq<char>,
>
    decreases n,
{
    if n <= 0 {
        Seq::empty()
    } else if listings[n - 1].len() >= 2 {
        kept(folders, listings, n - 1).push(folders[n - 1])
    } else {
        kept(folders, listings, n - 1)
    }
}

/// Of the first `n` folders, those whose listing holds fewer than two files.
pub open spec fn dissolved(folders: Seq<Seq<char>>, listings: Seq<Seq<Seq<char>>>, n: int) -> Seq<
    Seq<char>,
>
    decreases n,
{
    if n <= 0 {
        Seq::empty()
    } else if listings[n - 1].len() < 2 {
        dissolved(folders, listings, n - 1).push(folders[n - 1])
    } else {
        dissolved(folders, listings, n - 1)
    }
}

/// The files left in those of the first `n` folders that hold fewer than two.
pub open spec fn stragglers(listings: Seq<Seq<Seq<char>>>, n: int) -> Seq<Seq<char>>
    decreases n,
{
    if n <= 0 {
        Seq::empty()
    } else if listings[n - 1].len() < 2 {
        stragglers(listings, n - 1) + listings[n - 1]
    } else {
        stragglers(listings, n - 1)
    }
}

/// Every file listed in the first `n` folders.
pub open spec fn all_listed(listings: Seq<Seq<Seq<char>>>, n: int) -> Seq<Seq<char>>
    decreases n,
{
    if n <= 0 {
        Seq::empty()
    } else {
        all_listed(listings, n - 1) + listings[n - 1]
    }
}

/// Copies of the paths in `paths`, appended to `out`.
fn append_paths(out: &mut Vec<String>, paths: &Vec<String>)
    ensures
        path_seq(final(out)@) == path_seq(old(out)@) + path_seq(paths@),
{
    let ghost start = path_seq(out@);
    let mut j: usize = 0;
    while j < paths.len()
        invariant
            j <= paths@.len(),
            path_seq(out@) == start + path_seq(paths@).subrange(0, j as int),
        decreases paths@.len() - j,
    {
        let p = paths[j].clone();
        let ghost before = out@;
        out.push(p);
        assert(path_seq(before).len() == before.len());
        assert(path_seq(out@) =~= path_seq(before).push(p@));
        j = j + 1;
        assert(path_seq(out@) =~= start + path_seq(paths@).subrange(0, j as int));
    }
    assert(path_seq(paths@).subrange(0, j as int) =~= path_seq(paths@));
}

impl ReviewSession {
    /// Names of the folders under review.
    pub open spec fn folder_names(&self) -> Seq<Seq<char>> {
        path_seq(self.folders@)
    }

    /// The review of the folders that were created: under way when there is at
    /// least one, else already resolved.
    pub fn new(plans: &Vec<FolderPlan>) -> (r: ReviewSession)
        ensures
            r.folder_names() == plan_seq(plans@).map_values(
                |p: (Seq<u8>, Seq<char>, Seq<Seq<char>>)| p.1,
            ),
            r.phase == (if plans@.len() == 0 {
                Phase::Resolved
            } else {
                Phase::AwaitingCommand
            }),
    {
        let mut folders: Vec<String> = Vec::new();
        let mut i: usize = 0;
        while i < plans.len()
            invariant
                i <= plans@.len(),
                path_seq(folders@) == plan_seq(plans@).subrange(0, i as int).map_values(
                    |p: (Seq<u8>, Seq<char>, Seq<Seq<char>>)| p.1,
                ),
            decreases plans@.len() - i,
        {
            let name = plans[i].name.clone();
            let ghost before = folders@;
            folders.push(name);
            assert(path_seq(before).len() == before.len());
            assert(path_seq(folders@) =~= path_seq(before).push(name@));
            i = i + 1;
            assert(path_seq(folders@) =~= plan_seq(plans@).subrange(0, i as int).map_values(
                |p: (Seq<u8>, Seq<char>, Seq<Seq<char>>)| p.1,
            ));
        }
        assert(plan_seq(plans@).subrange(0, i as int) =~= plan_seq(plans@));
        let phase = if plans.len() == 0 {
            Phase::Resolved
        } else {
            Phase::AwaitingCommand
        };
        ReviewSession { folders, phase }
    }

    /// Carries out `cmd` against `listings`, the files that each folder under
    /// review holds now (`listings[i]` for `folders[i]`).
    ///
    /// On refresh, a folder with fewer than two files is dissolved: its files
    /// go back and the folder is removed, while the others stay under review,
    /// untouched; once none is left the review is resolved and the scratch tree
    /// goes. On quit, every listed file goes back, no folder stays under review,
    /// and the scratch tree goes.
    pub fn apply_command(&mut self, cmd: Command, listings: &Vec<Vec<String>>) -> (r: Resolution)
        requires
            old(self).phase == Phase::AwaitingCommand,
            listings@.len() == old(self).folders@.len(),
        ensures
            ({
                let names = old(self).folder_names();
                let ls = listing_seq(listings@);
                let n = names.len() as int;
                match cmd {
                    Command::Refresh => {
                        &&& final(self).folder_names() == kept(names, ls, n)
                        &&& path_seq(r.restore@) == stragglers(ls, n)
                        &&& path_seq(r.remove_folders@) == dissolved(names, ls, n)
                        &&& r.remove_scratch_root == (kept(names, ls, n).len() == 0)
                        &&& final(self).phase == (if kept(names, ls, n).len() == 0 {
                            Phase::Resolved
                        } else {
                            Phase::AwaitingCommand
                        })
                    },
                    Command::Quit => {
                        &&& final(self).folder_names() == Seq::<Seq<char>>::empty()
                        &&& path_seq(r.restore@) == all_listed(ls, n)
                        &&& r.remove_folders@.len() == 0
                        &&& r.remove_scratch_root
                        &&& final(self).phase == Phase::Aborted
                    },
                }
            }),
    {
        let ghost names = self.folder_names();
        let ghost ls = listing_seq(listings@);
        let mut restore: Vec<String> = Vec::new();
        let mut remove_folders: Vec<String> = Vec::new();
        let mut still: Vec<String> = Vec::new();
        let n = self.folders.len();
        let mut i: usize = 0;
        while i < n
            invariant
                i <= n,
                n == names.len(),
                names == self.folder_names(),
                ls == listing_seq(listings@),
                listings@.len() == n,
                match cmd {
                    Command::Refresh => {
                        &&& path_seq(still@) == kept(names, ls, i as int)
                        &&& path_seq(restore@) == stragglers(ls, i as int)
                        &&& path_seq(remove_folders@) == dissolved(names, ls, i as int)
                    },
                    Command::Quit => {
                        &&& path_seq(restore@) == all_listed(ls, i as int)
                        &&& remove_folders@.len() == 0
                    },
                },
            decreases n - i,
        {
            let listing = &listings[i];
            assert(ls[i as int] == path_seq(listing@));
            match cmd {
                Command::Refresh => {
                    let name = self.folders[i].clone();
                    assert(names[i as int] == name@);
                    if listing.len() >= 2 {
                        let ghost before = still@;
                        still.push(name);
                        assert(path_seq(before).len() == before.len());
                        assert(path_seq(still@) =~= path_seq(before).push(name@));
                    } else {
                        append_paths(&mut restore, listing);
                        let ghost before = remove_folders@;
                        remove_folders.push(name);
                        assert(path_seq(before).len() == before.len());
                        assert(path_seq(remove_folders@) =~= path_seq(before).push(name@));
                    }
                },
                Command::Quit => {
                    append_paths(&mut restore, listing);
                },
            }
            i = i + 1;
        }
        match cmd {
            Command::Refresh => {
                let done = still.len() == 0;
                self.folders = still;
                self.phase = if done {
                    Phase::Resolved
                } else {
                    Phase::AwaitingCommand
                };
                Resolution { restore, remove_folders, remove_scratch_root: done }
            },
            Command::Quit => {
                self.folders = Vec::new();
                self.phase = Phase::Aborted;
                assert(path_seq(self.folders@) =~= Seq::<Seq<char>>::empty());
                Resolution { restore, remove_folders, remove_scratch_root: true }
            },
        }
    }
}

/// A group gets a folder if and only if it has two files or more; that folder
/// is named after the group's digest and holds exactly the group's files.
pub proof fn lemma_folder_iff_duplicate(
    files: Seq<Seq<char>>,
    digests: Seq<Option<Seq<u8>>>,
    groups: Seq<(Seq<u8>, Seq<Seq<char>>)>,
    k: int,
)
    requires
        is_grouping(files, digests, groups),
        0 <= k < groups.len(),
    ensures
        (exists|j: int|
            0 <= j < planned_folders(groups, groups.len() as int).len()
                && #[trigger] planned_folders(groups, groups.len() as int)[j].0 == groups[k].0)
            <==> groups[k].1.len() >= 2,
        groups[k].1.len() >= 2 ==> exists|j: int|
            0 <= j < planned_folders(groups, groups.len() as int).len()
                && #[trigger] planned_folders(groups, groups.len() as int)[j] == (
                groups[k].0,
                folder_name_of(groups[k].0),
                groups[k].1,
            ),
{
    lemma_planned_folders(groups, groups.len() as int, k);
    let plans = planned_folders(groups, groups.len() as int);
    if groups[k].1.len() >= 2 {
        let j = choose|j: int|
            0 <= j < plans.len() && #[trigger] plans[j] == (
                groups[k].0,
                folder_name_of(groups[k].0),
                groups[k].1,
            );
        assert(plans[j].0 == groups[k].0);
    }
    if exists|j: int|
        0 <= j < planned_folders(groups, groups.len() as int).len()
            && #[trigger] planned_folders(groups, groups.len() as int)[j].0 == groups[k].0 {
        let j = choose|j: int|
            0 <= j < planned_folders(groups, groups.len() as int).len()
                && #[trigger] planned_folders(groups, groups.len() as int)[j].0 == groups[k].0;
        lemma_planned_from_group(groups, groups.len() as int, j);
        let k2 = choose|k2: int|
            0 <= k2 < groups.len() && groups[k2].1.len() >= 2
                && planned_folders(groups, groups.len() as int)[j] == (
                groups[k2].0,
                folder_name_of(groups[k2].0),
                groups[k2].1,
            );
        if k2 != k {
            assert(groups[k2].0 != groups[k].0);
        }
    }
}

/// A duplicate group among the first `n` has its folder among their plans.
proof fn lemma_planned_folders(groups: Seq<(Seq<u8>, Seq<Seq<char>>)>, n: int, k: int)
    requires
        0 <= k < n <= groups.len(),
    ensures
        groups[k].1.len() >= 2 ==> exists|j: int|
            0 <= j < planned_folders(groups, n).len() && #[trigger] planned_folders(groups, n)[j] == (
                groups[k].0,
                folder_name_of(groups[k].0),
                groups[k].1,
            ),
    decreases n,
{
    if k < n - 1 {
        lemma_planned_folders(groups, n - 1, k);
        if groups[k].1.len() >= 2 {
            let j = choose|j: int|
                0 <= j < planned_folders(groups, n - 1).len() && #[trigger] planned_folders(
                    groups,
                    n - 1,
                )[j] == (groups[k].0, folder_name_of(groups[k].0), groups[k].1);
            assert(planned_folders(groups, n)[j] == planned_folders(groups, n - 1)[j]);
        }
    } else if groups[k].1.len() >= 2 {
        let j = planned_folders(groups, n - 1).len() as int;
        assert(planned_folders(groups, n)[j] == (
            groups[k].0,
            folder_name_of(groups[k].0),
            groups[k].1,
        ));
    }
}

/// Every plan among the first `n` is that of a duplicate group among them.
proof fn lemma_planned_from_group(groups: Seq<(Seq<u8>, Seq<Seq<char>>)>, n: int, j: int)
    requires
        0 <= n <= groups.len(),
        0 <= j < planned_folders(groups, n).len(),
    ensures
        exists|k: int|
            0 <= k < n && groups[k].1.len() >= 2 && planned_folders(groups, n)[j] == (
                groups[k].0,
                folder_name_of(groups[k].0),
                groups[k].1,
            ),
    decreases n,
{
    if n > 0 {
        if j < planned_folders(groups, n - 1).len() {
            lemma_planned_from_group(groups, n - 1, j);
            let k = choose|k: int|
                0 <= k < n - 1 && groups[k].1.len() >= 2 && planned_folders(groups, n - 1)[j] == (
                    groups[k].0,
                    folder_name_of(groups[k].0),
                    groups[k].1,
                );
            assert(planned_folders(groups, n)[j] == planned_folders(groups, n - 1)[j]);
        } else {
            assert(groups[n - 1].1.len() >= 2);
        }
    }
}

/// Quit leaves nothing behind: every file listed in any folder is among the
/// files moved back.
pub proof fn lemma_quit_restores_all(listings: Seq<Seq<Seq<char>>>, i: int, j: int)
    requires
        0 <= i < listings.len(),
        0 <= j < listings[i].len(),
    ensures
        all_listed(listings, listings.len() as int).contains(listings[i][j]),
{
    lemma_all_listed_contains(listings, listings.len() as int, i, j);
}

proof fn lemma_all_listed_contains(listings: Seq<Seq<Seq<char>>>, n: int, i: int, j: int)
    requires
        0 <= i < n <= listings.len(),
        0 <= j < listings[i].len(),
    ensures
        all_listed(listings, n).contains(listings[i][j]),
    decreases n,
{
    let prev = all_listed(listings, n - 1);
    if i == n - 1 {
        assert(all_listed(listings, n)[prev.len() + j] == listings[i][j]);
    } else {
        lemma_all_listed_contains(listings, n - 1, i, j);
        let m = choose|m: int| 0 <= m < prev.len() && prev[m] == listings[i][j];
        assert(all_listed(listings, n)[m] == listings[i][j]);
    }
}

/// A refresh with no change from outside keeps every folder that holds two
/// files or more under review, and moves and removes nothing.
pub proof fn lemma_refresh_keeps_full_folders(
    names: Seq<Seq<char>>,
    listings: Seq<Seq<Seq<char>>>,
)
    requires
        names.len() == listings.len(),
        forall|i: int| 0 <= i < listings.len() ==> #[trigger] listings[i].len() >= 2,
    ensures
        kept(names, listings, names.len() as int) == names,
        stragglers(listings, names.len() as int) == Seq::<Seq<char>>::empty(),
        dissolved(names, listings, names.len() as int) == Seq::<Seq<char>>::empty(),
{
    lemma_refresh_keeps_prefix(names, listings, names.len() as int);
    assert(names.subrange(0, names.len() as int) =~= names);
}

proof fn lemma_refresh_keeps_prefix(names: Seq<Seq<char>>, listings: Seq<Seq<Seq<char>>>, n: int)
    requires
        0 <= n <= names.len() == listings.len(),
        forall|i: int| 0 <= i < listings.len() ==> #[trigger] listings[i].len() >= 2,
    ensures
        kept(names, listings, n) == names.subrange(0, n),
        stragglers(listings, n) == Seq::<Seq<char>>::empty(),
        dissolved(names, listings, n) == Seq::<Seq<char>>::empty(),
    decreases n,
{
    if n > 0 {
        lemma_refresh_keeps_prefix(names, listings, n - 1);
        assert(listings[n - 1].len() >= 2);
        assert(names.subrange(0, n - 1).push(names[n - 1]) =~= names.subrange(0, n));
    }
}

/// A refresh that finds a single file left in a folder moves that file back
/// and removes the folder, which then leaves the review.
pub proof fn lemma_refresh_dissolves_single(
    names: Seq<Seq<char>>,
    listings: Seq<Seq<Seq<char>>>,
    i: int,
)
    requires
        names.len() == listings.len(),
        names.no_duplicates(),
        0 <= i < listings.len(),
        listings[i].len() == 1,
    ensures
        stragglers(listings, listings.len() as int).contains(listings[i][0]),
        dissolved(names, listings, names.len() as int).contains(names[i]),
        !kept(names, listings, names.len() as int).contains(names[i]),
{
    lemma_single_dissolved(names, listings, names.len() as int, i);
    if kept(names, listings, names.len() as int).contains(names[i]) {
        lemma_kept_from(names, listings, names.len() as int, names[i]);
    }
}

proof fn lemma_single_dissolved(names: Seq<Seq<char>>, listings: Seq<Seq<Seq<char>>>, n: int, i: int)
    requires
        0 <= i < n <= names.len(),
        names.len() == listings.len(),
        listings[i].len() == 1,
    ensures
        stragglers(listings, n).contains(listings[i][0]),
        dissolved(names, listings, n).contains(names[i]),
    decreases n,
{
    let ps = stragglers(listings, n - 1);
    let pd = dissolved(names, listings, n - 1);
    if i == n - 1 {
        assert(stragglers(listings, n)[ps.len() as int] == listings[i][0]);
        assert(dissolved(names, listings, n)[pd.len() as int] == names[i]);
    } else {
        lemma_single_dissolved(names, listings, n - 1, i);
        let a = choose|a: int| 0 <= a < ps.len() && ps[a] == listings[i][0];
        let b = choose|b: int| 0 <= b < pd.len() && pd[b] == names[i];
        if listings[n - 1].len() < 2 {
            assert(stragglers(listings, n)[a] == listings[i][0]);
            assert(dissolved(names, listings, n)[b] == names[i]);
        }
    }
}

proof fn lemma_kept_from(names: Seq<Seq<char>>, listings: Seq<Seq<Seq<char>>>, n: int, x: Seq<char>)
    requires
        0 <= n <= names.len(),
        names.len() == listings.len(),
        kept(names, listings, n).contains(x),
    ensures
        exists|k: int| 0 <= k < n && listings[k].len() >= 2 && names[k] == x,
    decreases n,
{
    let pk = kept(names, listings, n - 1);
    if pk.contains(x) {
        lemma_kept_from(names, listings, n - 1, x);
    } else {
        let m = choose|m: int| 0 <= m < kept(names, listings, n).len() && kept(names, listings, n)[m] == x;
        if listings[n - 1].len() < 2 {
            assert(pk[m] == x);
        } else if m < pk.len() {
            assert(pk[m] == x);
        }
    }
}

} // verus!
