//! The entries of the archive: which of them is the spreadsheet, and where
//! the others can be found again.

use crate::error::{ErrorView, IliasError};
use crate::path::{is_enclosed, is_metadata_path, matches_metadata_pattern, stays_inside};
use crate::text::text_eq;
use vstd::prelude::*;

verus! {

/// One entry of the index: a path inside the archive, and the number under
/// which the archive hands out the entry.
#[derive(Debug, Clone, PartialEq, Eq)]
pub struct IndexEntry {
    pub path: String,
    pub index: usize,
}

/// The mathematical content of an [`IndexEntry`].
pub struct EntryView {
    pub path: Seq<char>,
    pub index: int,
}

impl View for IndexEntry {
    type V = EntryView;

    open spec fn view(&self) -> EntryView {
        EntryView { path: self.path@, index: self.index as int }
    }
}

/// The contents of a list of entries.
pub open spec fn entry_views(entries: Seq<IndexEntry>) -> Seq<EntryView> {
    Seq::new(entries.len(), |i: int| entries[i]@)
}

/// Where `path` stands among the entries, or their number if it does not.
pub open spec fn find_path(entries: Seq<EntryView>, path: Seq<char>) -> int
    decreases entries.len(),
{
    if entries.len() == 0 {
        0
    } else if entries[0].path == path {
        0
    } else {
        1 + find_path(entries.drop_first(), path)
    }
}

/// The entries after `path` has been filed under `index`: a path that is
/// already there keeps its place and gets the new number, a new path goes to
/// the end.
pub open spec fn filed(entries: Seq<EntryView>, path: Seq<char>, index: int) -> Seq<EntryView> {
    let at = find_path(entries, path);
    if 0 <= at < entries.len() {
        entries.update(at, EntryView { path, index })
    } else {
        entries.push(EntryView { path, index })
    }
}

/// Whether every path stays inside the archive and none comes twice.
pub open spec fn is_index(entries: Seq<EntryView>) -> bool {
    &&& forall|i: int| 0 <= i < entries.len() ==> stays_inside(#[trigger] entries[i].path)
    &&& forall|i: int, j: int|
        0 <= i < j < entries.len() ==> (#[trigger] entries[i]).path != (#[trigger] entries[j]).path
}

/// `find_path` gives the one place of a path, or the number of entries.
pub proof fn lemma_find_path(entries: Seq<EntryView>, path: Seq<char>)
    ensures
        0 <= find_path(entries, path) <= entries.len(),
        forall|i: int| 0 <= i < find_path(entries, path) ==> (#[trigger] entries[i]).path != path,
        find_path(entries, path) < entries.len() ==> entries[find_path(entries, path)].path
            == path,
    decreases entries.len(),
{
    if entries.len() > 0 && entries[0].path != path {
        let rest = entries.drop_first();
        lemma_find_path(rest, path);
        assert forall|i: int| 0 <= i < find_path(entries, path) implies (#[trigger] entries[i]).path
            != path by {
            if i > 0 {
                assert(entries[i] == rest[i - 1]);
            }
        }
    }
}

/// Filing a path that stays inside the archive keeps an index an index.
pub proof fn lemma_filed_is_index(entries: Seq<EntryView>, path: Seq<char>, index: int)
    requires
        is_index(entries),
        stays_inside(path),
    ensures
        is_index(filed(entries, path, index)),
{
    lemma_find_path(entries, path);
    let at = find_path(entries, path);
    let after = filed(entries, path, index);
    if at < entries.len() {
        assert forall|i: int, j: int| 0 <= i < j < after.len() implies (#[trigger] after[i]).path
            != (#[trigger] after[j]).path by {
            assert(after[i].path == entries[i].path);
            assert(after[j].path == entries[j].path);
        }
    } else {
        assert forall|i: int, j: int| 0 <= i < j < after.len() implies (#[trigger] after[i]).path
            != (#[trigger] after[j]).path by {
            assert(after[i] == entries[i]);
            if j < entries.len() {
                assert(after[j] == entries[j]);
            }
        }
    }
}

/// An index of the archive mapping paths to entry numbers. Only paths that
/// stay inside the archive get in, and each path at most once.
#[derive(Debug, PartialEq, Eq)]
pub struct ArchiveIndex {
    entries: Vec<IndexEntry>,
}

impl View for ArchiveIndex {
    type V = Seq<EntryView>;

    closed spec fn view(&self) -> Seq<EntryView> {
        entry_views(self.entries@)
    }
}

impl ArchiveIndex {
    #[verifier::type_invariant]
    spec fn well_formed(self) -> bool {
        is_index(entry_views(self.entries@))
    }

    /// An index without entries.
    pub fn new() -> (index: ArchiveIndex)
        ensures
            index@ == Seq::<EntryView>::empty(),
    {
        let index = ArchiveIndex { entries: Vec::new() };
        assert(index@ =~= Seq::<EntryView>::empty());
        index
    }

    /// The number of entries.
    pub fn len(&self) -> (n: usize)
        ensures
            n == self@.len(),
            is_index(self@),
    {
        proof {
            use_type_invariant(self);
        }
        self.entries.len()
    }

    /// The entry at a position, if the index reaches that far. Whatever is
    /// handed out stays inside the archive.
    pub fn entry(&self, at: usize) -> (entry: Option<&IndexEntry>)
        ensures
            is_index(self@),
            match entry {
                Some(e) => at < self@.len() && e@ == self@[at as int] && stays_inside(e@.path),
                None => at >= self@.len(),
            },
    {
        proof {
            use_type_invariant(self);
        }
        if at < self.entries.len() {
            assert(self@[at as int] == self.entries@[at as int]@);
            Some(&self.entries[at])
        } else {
            None
        }
    }

    /// The entry number under which a path is filed.
    pub fn get(&self, path: &str) -> (found: Option<usize>)
        ensures
            match found {
                Some(index) => find_path(self@, path@) < self@.len() && self@[find_path(
                    self@,
                    path@,
                )].index == index,
                None => find_path(self@, path@) == self@.len(),
            },
    {
        match self.locate(path) {
            Some(at) => Some(self.entries[at].index),
            None => None,
        }
    }

    fn locate(&self, path: &str) -> (found: Option<usize>)
        ensures
            match found {
                Some(at) => at == find_path(self@, path@) && at < self@.len(),
                None => find_path(self@, path@) == self@.len(),
            },
    {
        let mut i: usize = 0;
        proof {
            lemma_find_path(self@, path@);
        }
        while i < self.entries.len()
            invariant
                i <= self.entries.len(),
                forall|k: int| 0 <= k < i ==> (#[trigger] self@[k]).path != path@,
                0 <= find_path(self@, path@) <= self@.len(),
                forall|k: int|
                    0 <= k < find_path(self@, path@) ==> (#[trigger] self@[k]).path != path@,
                find_path(self@, path@) < self@.len() ==> self@[find_path(self@, path@)].path
                    == path@,
            decreases self.entries.len() - i,
        {
            assert(self@[i as int] == self.entries@[i as int]@);
            if text_eq(self.entries[i].path.as_str(), path) {
                return Some(i);
            }
            i += 1;
        }
        None
    }

    /// Files `path` under `index`, unless it leads out of the archive.
    pub fn insert(&mut self, path: String, index: usize) -> (done: Result<(), IliasError>)
        ensures
            match done {
                Ok(()) => stays_inside(path@) && final(self)@ == filed(
                    old(self)@,
                    path@,
                    index as int,
                ),
                Err(e) => !stays_inside(path@) && final(self)@ == old(self)@ && e@
                    == ErrorView::PathTraversal(path@),
            },
    {
        proof {
            use_type_invariant(&*self);
        }
        if !is_enclosed(path.as_str()) {
            return Err(IliasError::PathTraversal(path));
        }
        let ghost before = self@;
        proof {
            lemma_filed_is_index(before, path@, index as int);
        }
        let found = self.locate(path.as_str());
        let mut entries: Vec<IndexEntry> = Vec::new();
        assert(entry_views(entries@) =~= Seq::<EntryView>::empty());
        core::mem::swap(&mut self.entries, &mut entries);
        match found {
            Some(at) => {
                entries.set(at, IndexEntry { path, index });
            },
            None => {
                entries.push(IndexEntry { path, index });
            },
        }
        assert(entry_views(entries@) =~= filed(before, path@, index as int));
        self.entries = entries;
        Ok(())
    }
}

/// What a look through the archive found: the spreadsheet, and the index of
/// everything else.
#[derive(Debug, PartialEq, Eq)]
pub struct ArchiveScan {
    /// The entry number of the spreadsheet.
    pub metadata: usize,
    /// All other entries, by path.
    pub index: ArchiveIndex,
}

/// The outcome of looking at the first `upto` entry names, in archive order:
/// the entry number of the spreadsheet if one was met, and the index of the
/// other entries. A name that leads out of the archive ends the scan, and so
/// does a second spreadsheet.
pub open spec fn scan_upto(names: Seq<Seq<char>>, upto: int) -> Result<
    (Option<int>, Seq<EntryView>),
    ErrorView,
>
    decreases upto,
{
    if upto <= 0 {
        Ok((None, Seq::empty()))
    } else {
        match scan_upto(names, upto - 1) {
            Err(e) => Err(e),
            Ok((metadata, entries)) => {
                let name = names[upto - 1];
                if !stays_inside(name) {
                    Err(ErrorView::PathTraversal(name))
                } else if is_metadata_path(name) {
                    if metadata is Some {
                        Err(ErrorView::DuplicateMetadata(name))
                    } else {
                        Ok((Some(upto - 1), entries))
                    }
                } else {
                    Ok((metadata, filed(entries, name, upto - 1)))
                }
            },
        }
    }
}

/// The outcome of looking through all entry names: the spreadsheet's entry
/// number and the index of the rest, if there is exactly one spreadsheet and
/// no name leads out of the archive.
pub open spec fn scanned(names: Seq<Seq<char>>) -> Result<(int, Seq<EntryView>), ErrorView> {
    match scan_upto(names, names.len() as int) {
        Err(e) => Err(e),
        Ok((None, _)) => Err(ErrorView::MissingMetadata),
        Ok((Some(metadata), entries)) => Ok((metadata, entries)),
    }
}

/// What a scan that went through says of the names it saw: all of them stay
/// inside the archive; the spreadsheet, if one was met, is the only name that
/// matches the metadata pattern; and the index holds each other name, and
/// nothing else, under the number of the name's last occurrence.
pub proof fn lemma_scan_upto(names: Seq<Seq<char>>, upto: int)
    requires
        0 <= upto <= names.len(),
        scan_upto(names, upto) is Ok,
    ensures
        ({
            let (metadata, entries) = scan_upto(names, upto)->Ok_0;
            &&& is_index(entries)
            &&& metadata matches Some(m) ==> 0 <= m < upto
            &&& forall|j: int| 0 <= j < upto ==> stays_inside(#[trigger] names[j])
            &&& forall|j: int|
                0 <= j < upto ==> (is_metadata_path(#[trigger] names[j]) <==> metadata == Some(j))
            &&& forall|j: int|
                0 <= j < upto && !is_metadata_path(#[trigger] names[j]) ==> find_path(
                    entries,
                    names[j],
                ) < entries.len()
            &&& forall|k: int|
                0 <= k < entries.len() ==> 0 <= (#[trigger] entries[k]).index < upto
                    && names[entries[k].index] == entries[k].path && !is_metadata_path(
                    entries[k].path,
                )
        }),
    decreases upto,
{
    if upto > 0 {
        lemma_scan_upto(names, upto - 1);
        let (metadata, entries) = scan_upto(names, upto - 1)->Ok_0;
        let (now_metadata, now) = scan_upto(names, upto)->Ok_0;
        let name = names[upto - 1];
        if !is_metadata_path(name) {
            lemma_filed_is_index(entries, name, upto - 1);
            lemma_find_path(entries, name);
            lemma_find_path(now, name);
            let at = find_path(entries, name);
            assert forall|j: int|
                0 <= j < upto && !is_metadata_path(#[trigger] names[j]) implies find_path(
                now,
                names[j],
            ) < now.len() by {
                lemma_find_path(now, names[j]);
                if j < upto - 1 {
                    lemma_find_path(entries, names[j]);
                    let was = find_path(entries, names[j]);
                    assert(now[was].path == names[j]);
                } else {
                    if at < entries.len() {
                        assert(now[at].path == name);
                    } else {
                        assert(now[entries.len() as int].path == name);
                    }
                }
            }
            assert forall|k: int| 0 <= k < now.len() implies 0 <= (#[trigger] now[k]).index < upto
                && names[now[k].index] == now[k].path && !is_metadata_path(now[k].path) by {
                if k < entries.len() && k != at {
                    assert(now[k] == entries[k]);
                }
            }
        }
    }
}

/// Looks through the entry names of an archive, in archive order, for the
/// spreadsheet, and files every other name in the index.
pub fn scan_archive(names: &Vec<String>) -> (found: Result<ArchiveScan, IliasError>)
    ensures
        match found {
            Ok(scan) => scanned(crate::text::texts(names@)) == Ok::<
                (int, Seq<EntryView>),
                ErrorView,
            >((scan.metadata as int, scan.index@)),
            Err(e) => scanned(crate::text::texts(names@)) == Err::<
                (int, Seq<EntryView>),
                ErrorView,
            >(e@),
        },
        found matches Ok(scan) ==> scan.metadata < names.len() && is_metadata_path(
            names@[scan.metadata as int]@,
        ),
{
    let mut metadata: Option<usize> = None;
    let mut index = ArchiveIndex::new();
    let mut i: usize = 0;
    let ghost all = crate::text::texts(names@);
    while i < names.len()
        invariant
            i <= names.len(),
            all == crate::text::texts(names@),
            scan_upto(all, i as int) == Ok::<(Option<int>, Seq<EntryView>), ErrorView>(
                (
                    match metadata {
                        Some(m) => Some(m as int),
                        None => None,
                    },
                    index@,
                ),
            ),
            metadata matches Some(m) ==> m < i && is_metadata_path(names@[m as int]@),
        decreases names.len() - i,
    {
        assert(all[i as int] == names@[i as int]@);
        let name = names[i].as_str();
        if !is_enclosed(name) {
            proof {
                lemma_scan_fails_early(all, i + 1);
            }
            return Err(IliasError::PathTraversal(name.to_owned()));
        }
        if matches_metadata_pattern(name) {
            if metadata.is_some() {
                proof {
                    lemma_scan_fails_early(all, i + 1);
                }
                return Err(IliasError::DuplicateMetadata(name.to_owned()));
            }
            metadata = Some(i);
        } else {
            let filed = index.insert(name.to_owned(), i);
            assert(filed is Ok);
        }
        i += 1;
    }
    match metadata {
        Some(metadata) => Ok(ArchiveScan { metadata, index }),
        None => Err(IliasError::MissingMetadata),
    }
}

/// Once the scan has failed, it reports that failure, whatever follows.
proof fn lemma_scan_fails_early(names: Seq<Seq<char>>, k: int)
    requires
        0 <= k <= names.len(),
        scan_upto(names, k) is Err,
    ensures
        scan_upto(names, names.len() as int) == scan_upto(names, k),
    decreases names.len() - k,
{
    if k < names.len() {
        lemma_scan_fails_early(names, k + 1);
    }
}

} // verus!
