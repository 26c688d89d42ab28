//! The identity table: inodes, attribute records, the name index and the
//! directory listing of the flat root, built once from the catalog.
use vstd::prelude::*;
use vstd::string::StringExecFns;
use crate::basename::{basename_of, get_basename};

verus! {

/// The inode of the root directory.
pub const ROOT_INODE: u64 = 1;

/// Apparent size of every track file. It is a sentinel, not the true size,
/// chosen large enough that reads reach the engine; the read path enforces the
/// true end of the content.
pub const PLACEHOLDER_SIZE: u64 = 591646132;

/// Seconds for which the kernel layer may cache an attribute record.
pub const ATTR_TTL_SECS: i64 = 1;

/// One record of the remote catalog.
#[derive(Default, Debug, Clone, PartialEq)]
pub struct Track {
    pub id: Option<String>,
    pub name: Option<String>,
    pub artist: Option<String>,
    pub album: Option<String>,
    pub genre: Option<String>,
    pub year: Option<i32>,
    pub format: Option<String>,
    pub filetype: Option<String>,
    pub path: Option<String>,
}

/// A point in time, as seconds and nanoseconds since the epoch.
#[derive(Clone, Copy, Debug, PartialEq, Eq, Structural)]
pub struct Timestamp {
    pub sec: i64,
    pub nsec: i32,
}

#[derive(Clone, Copy, Debug, PartialEq, Eq, Structural)]
pub enum FileKind {
    Directory,
    RegularFile,
}

/// The attribute record of an inode. Its access, modification, change and
/// creation times are all the mount time, held once here.
#[derive(Clone, Copy, Debug, PartialEq, Eq, Structural)]
pub struct FileAttr {
    pub ino: u64,
    pub size: u64,
    pub kind: FileKind,
    pub perm: u16,
    pub nlink: u32,
    pub time: Timestamp,
}

#[derive(Clone, Copy, Debug, PartialEq, Eq, Structural)]
pub enum FsError {
    /// Unknown inode or name.
    NotFound,
    /// The remote request failed, or its answer was unusable.
    RemoteUnavailable,
}

/// One entry of a directory listing: the inode, the offset at which a
/// listing resumes after it, the kind, and the name.
#[derive(Clone, Debug, PartialEq, Eq)]
pub struct DirEntry {
    pub ino: u64,
    pub offset: i64,
    pub kind: FileKind,
    pub name: String,
}

pub struct DirEntryView {
    pub ino: u64,
    pub offset: i64,
    pub kind: FileKind,
    pub name: Seq<char>,
}

impl View for DirEntry {
    type V = DirEntryView;

    open spec fn view(&self) -> DirEntryView {
        DirEntryView { ino: self.ino, offset: self.offset, kind: self.kind, name: self.name@ }
    }
}

pub open spec fn root_attr(t: Timestamp) -> FileAttr {
    FileAttr { ino: ROOT_INODE, size: 0, kind: FileKind::Directory, perm: 0o755, nlink: 0, time: t }
}

pub open spec fn file_attr(ino: u64, t: Timestamp) -> FileAttr {
    FileAttr { ino, size: PLACEHOLDER_SIZE, kind: FileKind::RegularFile, perm: 0o644, nlink: 0, time: t }
}

/// The name of a track in the root directory, if its path gives one.
pub open spec fn track_name(t: Track) -> Option<Seq<char>> {
    match t.path {
        Some(p) => basename_of(p@),
        None => None,
    }
}

pub open spec fn catalog_names(tree: Seq<Track>) -> Seq<Option<Seq<char>>> {
    tree.map_values(|t: Track| track_name(t))
}

/// Track `i` is reachable by name: it has a name and no later track has the same one.
pub open spec fn reachable(names: Seq<Option<Seq<char>>>, i: int) -> bool {
    &&& 0 <= i < names.len()
    &&& names[i] is Some
    &&& forall|j: int| i < j < names.len() ==> names[j] != names[i]
}

/// The `(name, inode)` pairs of the reachable tracks from index `i` on, in catalog order.
pub open spec fn listing_from(names: Seq<Option<Seq<char>>>, i: int) -> Seq<(Seq<char>, int)>
    decreases names.len() - i,
{
    if i < 0 || i >= names.len() {
        Seq::empty()
    } else if reachable(names, i) {
        seq![(names[i]->0, i + 2)] + listing_from(names, i + 1)
    } else {
        listing_from(names, i + 1)
    }
}

pub open spec fn listing(names: Seq<Option<Seq<char>>>) -> Seq<(Seq<char>, int)> {
    listing_from(names, 0)
}

pub open spec fn dot_entry(name: Seq<char>, offset: i64) -> DirEntryView {
    DirEntryView { ino: ROOT_INODE, offset, kind: FileKind::Directory, name }
}

/// The directory entry of the `j`-th pair of a listing.
pub open spec fn file_entry(l: Seq<(Seq<char>, int)>, j: int) -> DirEntryView {
    DirEntryView { ino: l[j].1 as u64, offset: (j + 2) as i64, kind: FileKind::RegularFile, name: l[j].0 }
}

/// Index of the first pair of a listing that a page at `offset` holds. Position
/// 0 of the resumable sequence is the root's own entry, never emitted; pair `j`
/// stands at position `j + 1` and resumes at offset `j + 2`.
pub open spec fn first_pair(offset: int) -> int {
    if offset <= 1 { 0 } else { offset - 1 }
}

/// The root directory read from `offset`: `.` and `..` at offset 0, then the
/// pairs of the listing from that position on.
pub open spec fn dir_page(l: Seq<(Seq<char>, int)>, offset: i64) -> Seq<DirEntryView> {
    if offset < 0 {
        Seq::empty()
    } else {
        let dots = if offset == 0 {
            seq![dot_entry(seq!['.'], 0), dot_entry(seq!['.', '.'], 1)]
        } else {
            Seq::empty()
        };
        let first = first_pair(offset as int);
        let n = if first < l.len() { l.len() - first } else { 0 };
        dots + Seq::new(n as nat, |k: int| file_entry(l, first + k))
    }
}

pub struct IdentityTable {
    names: Vec<Option<String>>,
    entries: Vec<(String, u64)>,
    mount_time: Timestamp,
}

pub open spec fn opt_view(o: Option<String>) -> Option<Seq<char>> {
    match o {
        Some(s) => Some(s@),
        None => None,
    }
}

impl IdentityTable {
    /// The name of each track, in catalog order; none where it has none.
    pub closed spec fn names(&self) -> Seq<Option<Seq<char>>> {
        self.names@.map_values(|o: Option<String>| opt_view(o))
    }

    pub closed spec fn time(&self) -> Timestamp {
        self.mount_time
    }

    pub closed spec fn wf(&self) -> bool {
        &&& self.entries@.map_values(|e: (String, u64)| (e.0@, e.1 as int)) == listing(self.names())
        &&& self.names@.len() + 2 <= i64::MAX
    }

    pub open spec fn track_count(&self) -> int {
        self.names().len() as int
    }

    /// The attribute record of `ino`, if it names the root or a track.
    pub open spec fn attr_spec(&self, ino: u64) -> Option<FileAttr> {
        if ino == ROOT_INODE {
            Some(root_attr(self.time()))
        } else if 2 <= ino && ino < self.track_count() + 2 {
            Some(file_attr(ino, self.time()))
        } else {
            None
        }
    }
}

/// What a listing from index `i` holds: pairs of reachable tracks with their
/// names and inodes, in increasing inode order, each reachable track once.
pub proof fn lemma_listing_from(names: Seq<Option<Seq<char>>>, i: int)
    requires
        0 <= i <= names.len(),
    ensures
        listing_from(names, i).len() <= names.len() - i,
        forall|k: int| 0 <= k < listing_from(names, i).len() ==> {
            let e = #[trigger] listing_from(names, i)[k];
            &&& i + 2 <= e.1 < names.len() + 2
            &&& reachable(names, e.1 - 2)
            &&& names[e.1 - 2] == Some(e.0)
        },
        forall|k1: int, k2: int| 0 <= k1 < k2 < listing_from(names, i).len()
            ==> #[trigger] listing_from(names, i)[k1].1 < #[trigger] listing_from(names, i)[k2].1,
        forall|m: int| i <= m < names.len() && #[trigger] reachable(names, m)
            ==> exists|k: int| 0 <= k < listing_from(names, i).len()
                && #[trigger] listing_from(names, i)[k] == (names[m]->0, m + 2),
    decreases names.len() - i,
{
    if i < names.len() {
        lemma_listing_from(names, i + 1);
        let rest = listing_from(names, i + 1);
        let l = listing_from(names, i);
        if reachable(names, i) {
            assert(l == seq![(names[i]->0, i + 2)] + rest);
            assert forall|k: int| 0 <= k < l.len() implies {
                let e = #[trigger] l[k];
                &&& i + 2 <= e.1 < names.len() + 2
                &&& reachable(names, e.1 - 2)
                &&& names[e.1 - 2] == Some(e.0)
            } by {
                if k > 0 {
                    assert(l[k] == rest[k - 1]);
                }
            }
            assert forall|k1: int, k2: int| 0 <= k1 < k2 < l.len() implies #[trigger] l[k1].1 < #[trigger] l[k2].1 by {
                assert(l[k2] == rest[k2 - 1]);
                if k1 > 0 {
                    assert(l[k1] == rest[k1 - 1]);
                }
            }
            assert forall|m: int| i <= m < names.len() && #[trigger] reachable(names, m)
                implies exists|k: int| 0 <= k < l.len() && #[trigger] l[k] == (names[m]->0, m + 2) by {
                if m == i {
                    assert(l[0] == (names[m]->0, m + 2));
                } else {
                    let k = choose|k: int| 0 <= k < rest.len() && #[trigger] rest[k] == (names[m]->0, m + 2);
                    assert(l[k + 1] == rest[k]);
                }
            }
        }
    }
}

fn same_name(a: &Option<String>, b: &String) -> (r: bool)
    ensures
        r == (opt_view(*a) == Some(b@)),
{
    match a {
        Some(x) => *x == *b,
        None => false,
    }
}

fn name_of_track(t: &Track) -> (r: Option<String>)
    ensures
        opt_view(r) == track_name(*t),
{
    match &t.path {
        Some(p) => get_basename(p.as_str()),
        None => None,
    }
}

impl IdentityTable {
    /// Builds the table from the catalog: track `i` gets inode `i + 2`, the
    /// name of its decoded path, and a place in the listing unless a later
    /// track takes the same name.
    pub fn build(tree: &Vec<Track>, mount_time: Timestamp) -> (r: IdentityTable)
        requires
            tree@.len() + 2 <= i64::MAX,
        ensures
            r.wf(),
            r.names() == catalog_names(tree@),
            r.time() == mount_time,
    {
        let n: usize = tree.len();
        let mut names: Vec<Option<String>> = Vec::new();
        let mut i: usize = 0;
        while i < n
            invariant
                n == tree@.len(),
                i <= n,
                names@.len() == i,
                forall|k: int| 0 <= k < i ==> opt_view(#[trigger] names@[k]) == track_name(tree@[k]),
            decreases n - i,
        {
            let nm = name_of_track(&tree[i]);
            names.push(nm);
            i = i + 1;
        }
        let ghost nv = names@.map_values(|o: Option<String>| opt_view(o));
        assert(nv =~= catalog_names(tree@));
        let mut entries: Vec<(String, u64)> = Vec::new();
        let mut i: usize = n;
        while i > 0
            invariant
                n == tree@.len(),
                i <= n,
                nv == names@.map_values(|o: Option<String>| opt_view(o)),
                nv.len() == n,
                entries@.map_values(|e: (String, u64)| (e.0@, e.1 as int)) == listing_from(nv, i as int),
                n + 2 <= i64::MAX,
            decreases i,
        {
            i = i - 1;
            match &names[i] {
                Some(nm) => {
                    let mut later = false;
                    let mut j: usize = i + 1;
                    while j < n
                        invariant
                            i < n,
                            i < j <= n,
                            nv.len() == n,
                            nv == names@.map_values(|o: Option<String>| opt_view(o)),
                            nv[i as int] == Some(nm@),
                            later == exists|k: int| i < k < j && nv[k] == nv[i as int],
                        decreases n - j,
                    {
                        let same = same_name(&names[j], nm);
                        assert(nv[j as int] == opt_view(names@[j as int]));
                        if same {
                            later = true;
                        }
                        j = j + 1;
                        assert(later == exists|k: int| i < k < j && nv[k] == nv[i as int]) by {
                            if same {
                                assert(nv[j - 1] == nv[i as int]);
                            } else {
                                assert forall|k: int| i < k < j && nv[k] == nv[i as int] implies k < j - 1 by {}
                            }
                        }
                    }
                    if !later {
                        entries.insert(0, (nm.clone(), i as u64 + 2));
                        assert(reachable(nv, i as int));
                    } else {
                        assert(!reachable(nv, i as int));
                    }
                },
                None => {},
            }
            assert(entries@.map_values(|e: (String, u64)| (e.0@, e.1 as int)) =~= listing_from(nv, i as int));
        }
        IdentityTable { names, entries, mount_time }
    }

    /// The attribute record of the root or of a track; `NotFound` for any other inode.
    pub fn attributes_of(&self, ino: u64) -> (r: Result<FileAttr, FsError>)
        requires
            self.wf(),
        ensures
            match self.attr_spec(ino) {
                Some(a) => r == Ok::<FileAttr, FsError>(a),
                None => r == Err::<FileAttr, FsError>(FsError::NotFound),
            },
    {
        if ino == ROOT_INODE {
            Ok(FileAttr {
                ino: ROOT_INODE,
                size: 0,
                kind: FileKind::Directory,
                perm: 0o755,
                nlink: 0,
                time: self.mount_time,
            })
        } else if 2 <= ino && ino - 2 < self.names.len() as u64 {
            Ok(FileAttr {
                ino,
                size: PLACEHOLDER_SIZE,
                kind: FileKind::RegularFile,
                perm: 0o644,
                nlink: 0,
                time: self.mount_time,
            })
        } else {
            Err(FsError::NotFound)
        }
    }

    /// The inode that `name` reaches in the root directory.
    pub fn inode_of(&self, name: &str) -> (r: Result<u64, FsError>)
        requires
            self.wf(),
        ensures
            match r {
                Ok(ino) => exists|k: int|
                    0 <= k < listing(self.names()).len()
                    && #[trigger] listing(self.names())[k] == (name@, ino as int),
                Err(e) => e == FsError::NotFound
                    && forall|k: int| 0 <= k < listing(self.names()).len()
                        ==> (#[trigger] listing(self.names())[k]).0 != name@,
            },
    {
        let wanted = name.to_owned();
        let ghost l = listing(self.names());
        let mut k: usize = 0;
        while k < self.entries.len()
            invariant
                self.wf(),
                l == listing(self.names()),
                l.len() == self.entries@.len(),
                k <= self.entries@.len(),
                wanted@ == name@,
                forall|m: int| 0 <= m < k ==> (#[trigger] l[m]).0 != name@,
            decreases self.entries@.len() - k,
        {
            assert(l[k as int] == (self.entries@[k as int].0@, self.entries@[k as int].1 as int));
            if self.entries[k].0 == wanted {
                return Ok(self.entries[k].1);
            }
            k = k + 1;
        }
        Err(FsError::NotFound)
    }

    /// The root directory read from `offset`.
    pub fn page(&self, offset: i64) -> (r: Vec<DirEntry>)
        requires
            self.wf(),
        ensures
            r@.map_values(|e: DirEntry| e@) == dir_page(listing(self.names()), offset),
    {
        let ghost l = listing(self.names());
        proof {
            lemma_listing_from(self.names(), 0);
        }
        let mut out: Vec<DirEntry> = Vec::new();
        if offset < 0 {
            assert(out@.map_values(|e: DirEntry| e@) =~= dir_page(l, offset));
            return out;
        }
        if offset == 0 {
            proof {
                reveal_strlit(".");
                reveal_strlit("..");
            }
            let dot = String::from_str(".");
            let dotdot = String::from_str("..");
            assert(dot@ =~= seq!['.']);
            assert(dotdot@ =~= seq!['.', '.']);
            out.push(DirEntry { ino: ROOT_INODE, offset: 0, kind: FileKind::Directory, name: dot });
            out.push(DirEntry { ino: ROOT_INODE, offset: 1, kind: FileKind::Directory, name: dotdot });
            assert(out@.map_values(|e: DirEntry| e@) =~= seq![dot_entry(seq!['.'], 0), dot_entry(seq!['.', '.'], 1)]);
        }
        let ghost dots = out@.map_values(|e: DirEntry| e@);
        let first: usize = if offset <= 1 {
            0
        } else if offset as u64 - 1 < self.entries.len() as u64 {
            (offset - 1) as usize
        } else {
            self.entries.len()
        };
        let ghost f = first_pair(offset as int);
        let mut j: usize = first;
        while j < self.entries.len()
            invariant
                self.wf(),
                l == listing(self.names()),
                l.len() == self.entries@.len(),
                self.entries@.len() + 2 <= i64::MAX,
                first <= j <= self.entries@.len(),
                f >= l.len() ==> first == l.len(),
                f < l.len() ==> first == f,
                out@.len() == dots.len() + (j - first),
                forall|m: int| 0 <= m < dots.len() ==> #[trigger] out@[m]@ == dots[m],
                forall|m: int| first <= m < j ==> #[trigger] out@[dots.len() + m - first]@ == file_entry(l, m),
            decreases self.entries@.len() - j,
        {
            assert(l[j as int] == (self.entries@[j as int].0@, self.entries@[j as int].1 as int));
            let e = DirEntry {
                ino: self.entries[j].1,
                offset: j as i64 + 2,
                kind: FileKind::RegularFile,
                name: self.entries[j].0.clone(),
            };
            out.push(e);
            j = j + 1;
        }
        proof {
            let want = dir_page(l, offset);
            if offset != 0 {
                assert(dots =~= Seq::<DirEntryView>::empty());
            }
            let got = out@.map_values(|e: DirEntry| e@);
            assert(got.len() == want.len());
            assert forall|m: int| 0 <= m < got.len() implies got[m] == want[m] by {
                if m >= dots.len() {
                    let p = m - dots.len() + first;
                    assert(out@[dots.len() + p - first]@ == file_entry(l, p));
                }
            }
            assert(got =~= want);
        }
        out
    }
}

} // verus!
