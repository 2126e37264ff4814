//! The stages of the duplicate search: files grouped by size, then by the
//! digest of their first bytes, then by the digest of their whole contents.
use crate::dupfind::config::Config;
use crate::dupfind::grouping::{group_by_key, is_grouping, FileDigest};
use vstd::prelude::*;

verus! {

/// A file together with its size in bytes.
pub struct SizedFile {
    pub path: String,
    pub size: u64,
}

/// Files that share a size (and, once the search is done, their contents).
pub struct Group {
    pub size: u64,
    pub files: Vec<String>,
}

/// A file with its size and the digest of its first bytes.
pub struct PartialHashed {
    pub path: String,
    pub size: u64,
    pub partial: FileDigest,
}

/// Files that share a size and the digest of their first bytes.
pub struct PartialGroup {
    pub size: u64,
    pub partial: FileDigest,
    pub files: Vec<String>,
}

/// A file with its size, the digest of its first bytes and that of its whole contents.
pub struct FullyHashed {
    pub path: String,
    pub size: u64,
    pub partial: FileDigest,
    pub full: FileDigest,
}

/// The file passes the size limit: there is none, or the file is at least that large.
pub open spec fn passes_min_size(size: u64, min_size: Option<u64>) -> bool {
    match min_size {
        Some(min) => size >= min,
        None => true,
    }
}

/// The files that pass the size limit, each filed under its size.
pub open spec fn size_items(files: Seq<SizedFile>, min_size: Option<u64>) -> Seq<(u64, String)>
    decreases files.len(),
{
    if files.len() == 0 {
        Seq::empty()
    } else {
        let rest = size_items(files.drop_last(), min_size);
        let f = files.last();
        if passes_min_size(f.size, min_size) {
            rest.push((f.size, f.path))
        } else {
            rest
        }
    }
}

/// The groups as pairs of a size and its files.
pub open spec fn group_pairs(groups: Seq<Group>) -> Seq<(u64, Vec<String>)> {
    groups.map_values(|g: Group| (g.size, g.files))
}

/// Groups the files that pass the size limit by size; a size that only one file
/// has forms no group, since such a file cannot have a duplicate.
pub fn group_by_size(files: Vec<SizedFile>, config: &Config) -> (groups: Vec<Group>)
    ensures
        is_grouping(size_items(files@, config.min_size), group_pairs(groups@)),
{
    let min_size = config.min_size;
    let mut items: Vec<(u64, String)> = Vec::new();
    let mut i: usize = 0;
    while i < files.len()
        invariant
            0 <= i <= files.len(),
            items@ == size_items(files@.take(i as int), min_size),
        decreases files.len() - i,
    {
        assert(files@.take(i + 1).drop_last() =~= files@.take(i as int));
        let size = files[i].size;
        let keep = match min_size {
            Some(min) => size >= min,
            None => true,
        };
        if keep {
            items.push((size, files[i].path.clone()));
        }
        i = i + 1;
    }
    assert(files@.take(files.len() as int) =~= files@);
    let mut pairs = group_by_key(&items);
    let ghost found = pairs@;
    let mut groups: Vec<Group> = Vec::new();
    let mut j: usize = 0;
    while j < pairs.len()
        invariant
            0 <= j <= pairs.len(),
            pairs.len() == found.len(),
            forall|a: int| j <= a < found.len() ==> pairs@[a] == found[a],
            groups.len() == j,
            forall|g: int|
                0 <= g < j ==> (#[trigger] groups@[g]).size == found[g].0 && groups@[g].files
                    == found[g].1,
        decreases pairs.len() - j,
    {
        let mut files_here: Vec<String> = Vec::new();
        std::mem::swap(&mut files_here, &mut pairs[j].1);
        groups.push(Group { size: pairs[j].0, files: files_here });
        j = j + 1;
    }
    assert(group_pairs(groups@) =~= found);
    groups
}


/// Each file filed under its size and the digest of its first bytes.
pub open spec fn partial_items(files: Seq<PartialHashed>) -> Seq<((u64, FileDigest), String)> {
    files.map_values(|f: PartialHashed| ((f.size, f.partial), f.path))
}

/// The groups as pairs of a (size, digest) key and its files.
pub open spec fn partial_group_pairs(groups: Seq<PartialGroup>) -> Seq<
    ((u64, FileDigest), Vec<String>),
> {
    groups.map_values(|g: PartialGroup| ((g.size, g.partial), g.files))
}

/// Groups files by size and the digest of their first bytes, keeping only the
/// groups of two or more files.
pub fn group_by_partial_hash(files: Vec<PartialHashed>) -> (groups: Vec<PartialGroup>)
    ensures
        is_grouping(partial_items(files@), partial_group_pairs(groups@)),
{
    let mut items: Vec<((u64, FileDigest), String)> = Vec::new();
    let mut i: usize = 0;
    while i < files.len()
        invariant
            0 <= i <= files.len(),
            items@ == partial_items(files@).take(i as int),
        decreases files.len() - i,
    {
        items.push(((files[i].size, files[i].partial), files[i].path.clone()));
        assert(items@ =~= partial_items(files@).take(i + 1));
        i = i + 1;
    }
    assert(items@ =~= partial_items(files@));
    let mut pairs = group_by_key(&items);
    let ghost found = pairs@;
    let mut groups: Vec<PartialGroup> = Vec::new();
    let mut j: usize = 0;
    while j < pairs.len()
        invariant
            0 <= j <= pairs.len(),
            pairs.len() == found.len(),
            forall|a: int| j <= a < found.len() ==> pairs@[a] == found[a],
            groups.len() == j,
            forall|g: int|
                0 <= g < j ==> (#[trigger] groups@[g]).size == found[g].0.0 && groups@[g].partial
                    == found[g].0.1 && groups@[g].files == found[g].1,
        decreases pairs.len() - j,
    {
        let mut files_here: Vec<String> = Vec::new();
        std::mem::swap(&mut files_here, &mut pairs[j].1);
        groups.push(PartialGroup { size: (pairs[j].0).0, partial: (pairs[j].0).1, files: files_here });
        j = j + 1;
    }
    assert(partial_group_pairs(groups@) =~= found);
    groups
}

/// Each file filed under its size, the digest of its first bytes and that of its contents.
pub open spec fn full_items(files: Seq<FullyHashed>) -> Seq<(((u64, FileDigest), FileDigest), String)> {
    files.map_values(|f: FullyHashed| (((f.size, f.partial), f.full), f.path))
}

/// The size and the files of each group of a grouping by (size, digest, digest).
pub open spec fn sized_groups(found: Seq<(((u64, FileDigest), FileDigest), Vec<String>)>) -> Seq<(u64, Vec<String>)> {
    found.map_values(|p: (((u64, FileDigest), FileDigest), Vec<String>)| (p.0.0.0, p.1))
}

/// The duplicates among `files`: the groups of two or more files that share their
/// size, the digest of their first bytes and the digest of their whole contents.
pub fn find_duplicates(files: Vec<FullyHashed>) -> (groups: Vec<Group>)
    ensures
        exists|found: Seq<(((u64, FileDigest), FileDigest), Vec<String>)>|
            is_grouping(full_items(files@), found) && group_pairs(groups@) == sized_groups(found),
{
    let mut items: Vec<(((u64, FileDigest), FileDigest), String)> = Vec::new();
    let mut i: usize = 0;
    while i < files.len()
        invariant
            0 <= i <= files.len(),
            items@ == full_items(files@).take(i as int),
        decreases files.len() - i,
    {
        items.push((((files[i].size, files[i].partial), files[i].full), files[i].path.clone()));
        assert(items@ =~= full_items(files@).take(i + 1));
        i = i + 1;
    }
    assert(items@ =~= full_items(files@));
    let mut pairs = group_by_key(&items);
    let ghost found = pairs@;
    let mut groups: Vec<Group> = Vec::new();
    let mut j: usize = 0;
    while j < pairs.len()
        invariant
            0 <= j <= pairs.len(),
            pairs.len() == found.len(),
            forall|a: int| j <= a < found.len() ==> pairs@[a] == found[a],
            groups.len() == j,
            forall|g: int|
                0 <= g < j ==> (#[trigger] groups@[g]).size == found[g].0.0.0 && groups@[g].files
                    == found[g].1,
        decreases pairs.len() - j,
    {
        let mut files_here: Vec<String> = Vec::new();
        std::mem::swap(&mut files_here, &mut pairs[j].1);
        groups.push(Group { size: ((pairs[j].0).0).0, files: files_here });
        j = j + 1;
    }
    assert(group_pairs(groups@) =~= sized_groups(found));
    groups
}

} // verus!
