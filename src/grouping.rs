//! Partitioning scanned files by content digest.
use vstd::prelude::*;

verus! {

/// The files that share one content digest, in the order they were scanned.
pub struct HashGroup {
    pub digest: [u8; 32],
    pub paths: Vec<String>,
}

impl HashGroup {
    /// The digest's bytes and the paths, as text.
    pub open spec fn view(&self) -> (Seq<u8>, Seq<Seq<char>>) {
        (self.digest@, path_seq(self.paths@))
    }
}

/// Paths as text.
pub open spec fn path_seq(paths: Seq<String>) -> Seq<Seq<char>> {
    paths.map_values(|p: String| p@)
}

/// A digest result as bytes: `None` for a file that could not be read.
pub open spec fn digest_seq(digests: Seq<Option<[u8; 32]>>) -> Seq<Option<Seq<u8>>> {
    digests.map_values(|d: Option<[u8; 32]>| match d {
        Some(a) => Some(a@),
        None => None,
    })
}

/// Groups as pairs of digest and paths.
pub open spec fn group_seq(groups: Seq<HashGroup>) -> Seq<(Seq<u8>, Seq<Seq<char>>)> {
    groups.map_values(|g: HashGroup| g.view())
}

/// The paths among the first `n` whose digest is `d`, in scan order.
pub open spec fn members(
    files: Seq<Seq<char>>,
    digests: Seq<Option<Seq<u8>>>,
    d: Seq<u8>,
    n: int,
) -> Seq<Seq<char>>
    decreases n,
{
    if n <= 0 {
        Seq::empty()
    } else if digests[n - 1] == Some(d) {
        members(files, digests, d, n - 1).push(files[n - 1])
    } else {
        members(files, digests, d, n - 1)
    }
}

/// `groups` groups the first `n` files by digest: one group for each digest
/// that some file got, holding exactly the files with that digest in scan
/// order; files that got no digest are in no group.
pub open spec fn is_grouping_upto(
    files: Seq<Seq<char>>,
    digests: Seq<Option<Seq<u8>>>,
    groups: Seq<(Seq<u8>, Seq<Seq<char>>)>,
    n: int,
) -> bool {
    &&& forall|k: int|
        0 <= k < groups.len() ==> #[trigger] groups[k].1 == members(files, digests, groups[k].0, n)
            && groups[k].1.len() > 0
    &&& forall|k1: int, k2: int|
        0 <= k1 < groups.len() && 0 <= k2 < groups.len() && k1 != k2 ==> #[trigger] groups[k1].0
            != #[trigger] groups[k2].0
    &&& forall|i: int|
        0 <= i < n && #[trigger] digests[i] is Some ==> exists|k: int|
            0 <= k < groups.len() && groups[k].0 == digests[i]->Some_0
}

/// `groups` groups all of `files` by their digests.
pub open spec fn is_grouping(
    files: Seq<Seq<char>>,
    digests: Seq<Option<Seq<u8>>>,
    groups: Seq<(Seq<u8>, Seq<Seq<char>>)>,
) -> bool {
    files.len() == digests.len() && is_grouping_upto(files, digests, groups, files.len() as int)
}

/// Whether two digests are the same bytes.
pub fn same_digest(a: &[u8; 32], b: &[u8; 32]) -> (r: bool)
    ensures
        r == (a@ == b@),
{
    let mut i: usize = 0;
    while i < 32
        invariant
            i <= 32,
            forall|j: int| 0 <= j < i ==> a@[j] == b@[j],
        decreases 32 - i,
    {
        if a[i] != b[i] {
            return false;
        }
        i = i + 1;
    }
    assert(a@ =~= b@);
    true
}

/// The index of the group with digest `d`, if there is one.
fn find_group(groups: &Vec<HashGroup>, d: &[u8; 32]) -> (r: Option<usize>)
    ensures
        match r {
            Some(j) => j < groups@.len() && groups@[j as int].digest@ == d@,
            None => forall|k: int| 0 <= k < groups@.len() ==> groups@[k].digest@ != d@,
        },
{
    let mut k: usize = 0;
    while k < groups.len()
        invariant
            k <= groups@.len(),
            forall|m: int| 0 <= m < k ==> groups@[m].digest@ != d@,
        decreases groups@.len() - k,
    {
        if same_digest(&groups[k].digest, d) {
            return Some(k);
        }
        k = k + 1;
    }
    None
}

/// Groups `files` by content digest: `digests[i]` is the digest of
/// `files[i]`, or `None` where the file could not be read. Within a group the
/// paths keep their scan order.
pub fn group_file_paths_by_hash(files: &Vec<String>, digests: &Vec<Option<[u8; 32]>>) -> (r: Vec<
    HashGroup,
>)
    requires
        files@.len() == digests@.len(),
    ensures
        is_grouping(path_seq(files@), digest_seq(digests@), group_seq(r@)),
{
    let ghost fs = path_seq(files@);
    let ghost ds = digest_seq(digests@);
    let mut groups: Vec<HashGroup> = Vec::new();
    let mut i: usize = 0;
    while i < files.len()
        invariant
            i <= files@.len(),
            files@.len() == digests@.len(),
            fs == path_seq(files@),
            ds == digest_seq(digests@),
            is_grouping_upto(fs, ds, group_seq(groups@), i as int),
        decreases files@.len() - i,
    {
        let ghost old_groups = group_seq(groups@);
        match &digests[i] {
            None => {
                assert forall|k: int| 0 <= k < old_groups.len() implies #[trigger] old_groups[k].1
                    == members(fs, ds, old_groups[k].0, i + 1) by {}
            },
            Some(d) => {
                let path = files[i].clone();
                assert(ds[i as int] == Some(d@));
                assert(fs[i as int] == path@);
                match find_group(&groups, d) {
                    Some(j) => {
                        groups[j].paths.push(path);
                        let ghost ng = group_seq(groups@);
                        assert forall|k: int| 0 <= k < ng.len() implies #[trigger] ng[k].1
                            == members(fs, ds, ng[k].0, i + 1) && ng[k].1.len() > 0 by {
                            if k == j {
                                assert(ng[k].1 =~= old_groups[k].1.push(fs[i as int]));
                            } else {
                                assert(ng[k] == old_groups[k]);
                                assert(old_groups[k].0 != old_groups[j as int].0);
                            }
                        }
                        assert forall|m: int|
                            0 <= m < i + 1 && #[trigger] ds[m] is Some implies exists|k: int|
                            0 <= k < ng.len() && ng[k].0 == ds[m]->Some_0 by {
                            if m < i {
                                let k = choose|k: int|
                                    0 <= k < old_groups.len() && old_groups[k].0 == ds[m]->Some_0;
                                assert(ng[k].0 == old_groups[k].0);
                            } else {
                                assert(ng[j as int].0 == ds[m]->Some_0);
                            }
                        }
                        assert forall|k1: int, k2: int|
                            0 <= k1 < ng.len() && 0 <= k2 < ng.len() && k1 != k2 implies #[trigger] ng[k1].0
                            != #[trigger] ng[k2].0 by {
                            assert(ng[k1].0 == old_groups[k1].0);
                            assert(ng[k2].0 == old_groups[k2].0);
                        }
                    },
                    None => {
                        let mut paths: Vec<String> = Vec::new();
                        paths.push(path);
                        groups.push(HashGroup { digest: *d, paths });
                        let ghost ng = group_seq(groups@);
                        let ghost n = old_groups.len() as int;
                        assert(members(fs, ds, d@, i as int) =~= Seq::<Seq<char>>::empty()) by {
                            lemma_members_empty(fs, ds, d@, i as int, old_groups);
                        }
                        assert forall|k: int| 0 <= k < ng.len() implies #[trigger] ng[k].1
                            == members(fs, ds, ng[k].0, i + 1) && ng[k].1.len() > 0 by {
                            if k == n {
                                assert(ng[k].1 =~= seq![fs[i as int]]);
                                assert(members(fs, ds, ng[k].0, i + 1) =~= seq![fs[i as int]]);
                            } else {
                                assert(ng[k] == old_groups[k]);
                                assert(old_groups[k].0 != d@);
                            }
                        }
                        assert forall|m: int|
                            0 <= m < i + 1 && #[trigger] ds[m] is Some implies exists|k: int|
                            0 <= k < ng.len() && ng[k].0 == ds[m]->Some_0 by {
                            if m < i {
                                let k = choose|k: int|
                                    0 <= k < old_groups.len() && old_groups[k].0 == ds[m]->Some_0;
                                assert(ng[k].0 == old_groups[k].0);
                            } else {
                                assert(ng[n].0 == ds[m]->Some_0);
                            }
                        }
                        assert forall|k1: int, k2: int|
                            0 <= k1 < ng.len() && 0 <= k2 < ng.len() && k1 != k2 implies #[trigger] ng[k1].0
                            != #[trigger] ng[k2].0 by {
                            if k1 < n {
                                assert(ng[k1].0 == old_groups[k1].0);
                            }
                            if k2 < n {
                                assert(ng[k2].0 == old_groups[k2].0);
                            }
                        }
                    },
                }
            },
        }
        i = i + 1;
    }
    groups
}

/// Grouping is a partition: a file that got a digest is listed in the group
/// of that digest, and that group is the only one whose digest it has; a file
/// that got no digest belongs to no group.
pub proof fn lemma_grouping_is_partition(
    files: Seq<Seq<char>>,
    digests: Seq<Option<Seq<u8>>>,
    groups: Seq<(Seq<u8>, Seq<Seq<char>>)>,
    i: int,
)
    requires
        is_grouping(files, digests, groups),
        0 <= i < files.len(),
    ensures
        digests[i] is Some ==> exists|k: int|
            0 <= k < groups.len() && groups[k].0 == digests[i]->Some_0 && groups[k].1.contains(
                files[i],
            ) && forall|k2: int|
                0 <= k2 < groups.len() && k2 != k ==> groups[k2].0 != digests[i]->Some_0,
        digests[i] is None ==> forall|k: int|
            0 <= k < groups.len() ==> digests[i] != Some(#[trigger] groups[k].0),
{
    if digests[i] is Some {
        let k = choose|k: int| 0 <= k < groups.len() && groups[k].0 == digests[i]->Some_0;
        assert(groups[k].1 == members(files, digests, groups[k].0, files.len() as int));
        lemma_members_contains(files, digests, groups[k].0, files.len() as int, i);
        assert forall|k2: int| 0 <= k2 < groups.len() && k2 != k implies groups[k2].0
            != digests[i]->Some_0 by {
            assert(groups[k2].0 != groups[k].0);
        }
    }
}

/// A file with digest `d` among the first `n` is listed among their members.
proof fn lemma_members_contains(
    files: Seq<Seq<char>>,
    digests: Seq<Option<Seq<u8>>>,
    d: Seq<u8>,
    n: int,
    i: int,
)
    requires
        0 <= i < n <= digests.len(),
        digests[i] == Some(d),
    ensures
        members(files, digests, d, n).contains(files[i]),
    decreases n,
{
    if i == n - 1 {
        assert(members(files, digests, d, n).last() == files[i]);
    } else {
        lemma_members_contains(files, digests, d, n - 1, i);
        let m = members(files, digests, d, n - 1);
        let j = choose|j: int| 0 <= j < m.len() && m[j] == files[i];
        assert(members(files, digests, d, n)[j] == files[i]);
    }
}

/// With no group for digest `d`, no file among the first `n` has it.
proof fn lemma_members_empty(
    files: Seq<Seq<char>>,
    digests: Seq<Option<Seq<u8>>>,
    d: Seq<u8>,
    n: int,
    groups: Seq<(Seq<u8>, Seq<Seq<char>>)>,
)
    requires
        0 <= n <= digests.len(),
        is_grouping_upto(files, digests, groups, n),
        forall|k: int| 0 <= k < groups.len() ==> groups[k].0 != d,
    ensures
        members(files, digests, d, n) == Seq::<Seq<char>>::empty(),
{
    assert forall|i: int| 0 <= i < n implies digests[i] != Some(d) by {
        if digests[i] == Some(d) {
            assert(digests[i] is Some);
        }
    }
    lemma_members_empty_rec(files, digests, d, n);
}

proof fn lemma_members_empty_rec(
    files: Seq<Seq<char>>,
    digests: Seq<Option<Seq<u8>>>,
    d: Seq<u8>,
    n: int,
)
    requires
        0 <= n <= digests.len(),
        forall|i: int| 0 <= i < n ==> digests[i] != Some(d),
    ensures
        members(files, digests, d, n) == Seq::<Seq<char>>::empty(),
    decreases n,
{
    if n > 0 {
        lemma_members_empty_rec(files, digests, d, n - 1);
    }
}

} // verus!
