//! The filesystem engine. Metadata operations answer at once. A read is a
//! short exchange: `read` either answers or names one remote request; the
//! caller performs it and hands its outcome to `read_with_length`,
//! `finish_head` or `finish_range`.
use vstd::prelude::*;
use vstd::string::StringExecFns;
use crate::catalog::{
    DirEntry, FileAttr, FsError, IdentityTable, Timestamp, Track, ROOT_INODE,
    dir_page, listing, opt_view,
};
use crate::head_cache::{after_put, clamped, head_for, HeadCache, CACHE_HEAD, MAX_CACHE_SIZE};
use crate::length_cache::{header_length, length_for, parse_content_length, LengthCache};

verus! {

/// The outcome of one step of a read.
#[derive(Debug, PartialEq, Eq)]
pub enum ReadStep {
    /// Answer the read with these bytes.
    Reply(Vec<u8>),
    /// Answer the read with this error.
    Fail(FsError),
    /// Ask `url` for its content length (a metadata-only request); hand the
    /// content-length header to `read_with_length`.
    FetchLength { url: String },
    /// Fetch bytes `0..=last` of `url`; hand the body to `finish_head`.
    FetchHead { url: String, last: u64 },
    /// Fetch bytes `first..=last` of `url`; hand the body to `finish_range`.
    FetchRange { url: String, first: u64, last: u64 },
}

pub enum ReadStepView {
    Reply(Seq<u8>),
    Fail(FsError),
    FetchLength { url: Seq<char> },
    FetchHead { url: Seq<char>, last: u64 },
    FetchRange { url: Seq<char>, first: u64, last: u64 },
}

impl View for ReadStep {
    type V = ReadStepView;

    open spec fn view(&self) -> ReadStepView {
        match self {
            ReadStep::Reply(b) => ReadStepView::Reply(b@),
            ReadStep::Fail(e) => ReadStepView::Fail(*e),
            ReadStep::FetchLength { url } => ReadStepView::FetchLength { url: url@ },
            ReadStep::FetchHead { url, last } => ReadStepView::FetchHead { url: url@, last: *last },
            ReadStep::FetchRange { url, first, last } => ReadStepView::FetchRange { url: url@, first: *first, last: *last },
        }
    }
}

pub open spec fn min(a: int, b: int) -> int {
    if a < b { a } else { b }
}

/// The cache key of a track: its identifier, else its remote path.
pub open spec fn track_key(t: Track) -> Option<Seq<char>> {
    match t.id {
        Some(id) => Some(id@),
        None => opt_view(t.path),
    }
}

/// The remote location of a track: the base URL, a slash, and its path.
pub open spec fn track_url(base: Seq<char>, t: Track) -> Option<Seq<char>> {
    match t.path {
        Some(p) => Some(base + seq!['/'] + p@),
        None => None,
    }
}

/// What a read of `size` bytes at `offset` does once the content length `len`
/// is known: nothing at or past the end; inside the head region, an answer
/// from the head cache or a fetch of the whole head; past it, one ranged fetch
/// of the requested window cut at the end.
pub open spec fn planned(
    heads: Seq<(Seq<char>, Seq<u8>)>,
    key: Seq<char>,
    url: Seq<char>,
    offset: u64,
    size: u32,
    len: u64,
) -> ReadStepView {
    if offset >= len {
        ReadStepView::Reply(Seq::empty())
    } else if offset + size <= CACHE_HEAD {
        match head_for(heads, key) {
            Some(b) => ReadStepView::Reply(clamped(b, offset as int, min(offset + size, len as int))),
            None => ReadStepView::FetchHead { url, last: (min(CACHE_HEAD as int, len as int) - 1) as u64 },
        }
    } else {
        ReadStepView::FetchRange { url, first: offset, last: (min(offset + size, len as int) - 1) as u64 }
    }
}

pub struct JsonFilesystem {
    table: IdentityTable,
    keys: Vec<Option<String>>,
    urls: Vec<Option<String>>,
    lengths: LengthCache,
    heads: HeadCache,
}

impl JsonFilesystem {
    pub closed spec fn table(&self) -> IdentityTable {
        self.table
    }

    /// The cache key of each track, in catalog order.
    pub closed spec fn keys(&self) -> Seq<Option<Seq<char>>> {
        self.keys@.map_values(|o: Option<String>| opt_view(o))
    }

    /// The remote location of each track, in catalog order.
    pub closed spec fn urls(&self) -> Seq<Option<Seq<char>>> {
        self.urls@.map_values(|o: Option<String>| opt_view(o))
    }

    pub closed spec fn lengths(&self) -> Seq<(Seq<char>, u64)> {
        self.lengths@
    }

    pub closed spec fn heads(&self) -> Seq<(Seq<char>, Seq<u8>)> {
        self.heads@
    }

    pub closed spec fn wf(&self) -> bool {
        &&& self.table.wf()
        &&& self.heads.wf()
        &&& self.keys@.len() == self.table.track_count()
        &&& self.urls@.len() == self.table.track_count()
    }

    /// The key and location of the track with inode `ino`, where it has both.
    pub open spec fn track_of(&self, ino: u64) -> Option<(Seq<char>, Seq<char>)> {
        let i = ino - 2;
        if ino < 2 || i >= self.keys().len() || i >= self.urls().len() {
            None
        } else if self.keys()[i] is Some && self.urls()[i] is Some {
            Some((self.keys()[i]->0, self.urls()[i]->0))
        } else {
            None
        }
    }

    /// What `read` answers in the current state.
    pub open spec fn read_spec(&self, ino: u64, offset: u64, size: u32) -> ReadStepView {
        match self.track_of(ino) {
            None => ReadStepView::Fail(FsError::NotFound),
            Some((key, url)) => match length_for(self.lengths(), key) {
                None => ReadStepView::FetchLength { url },
                Some(len) => planned(self.heads(), key, url, offset, size, len),
            },
        }
    }
}

fn key_of_track(t: &Track) -> (r: Option<String>)
    ensures
        opt_view(r) == track_key(*t),
{
    match &t.id {
        Some(id) => Some(id.clone()),
        None => match &t.path {
            Some(p) => Some(p.clone()),
            None => None,
        },
    }
}

fn url_of_track(base: &str, t: &Track) -> (r: Option<String>)
    ensures
        opt_view(r) == track_url(base@, *t),
{
    match &t.path {
        Some(p) => {
            proof {
                reveal_strlit("/");
            }
            let u = String::from_str(base).concat("/").concat(p.as_str());
            assert(u@ =~= base@ + seq!['/'] + p@);
            Some(u)
        },
        None => None,
    }
}

fn clone_opt(o: &Option<String>) -> (r: Option<String>)
    ensures
        opt_view(r) == opt_view(*o),
{
    match o {
        Some(s) => Some(s.clone()),
        None => None,
    }
}

impl JsonFilesystem {
    /// Mounts the catalog `tree`: track `i` gets inode `i + 2`; remote
    /// locations are `base_url/path`; both caches start empty.
    pub fn new(tree: &Vec<Track>, base_url: &str, mount_time: Timestamp) -> (r: JsonFilesystem)
        requires
            tree@.len() + 2 <= i64::MAX,
        ensures
            r.wf(),
            r.table().names() == crate::catalog::catalog_names(tree@),
            r.table().time() == mount_time,
            r.keys() == tree@.map_values(|t: Track| track_key(t)),
            r.urls() == tree@.map_values(|t: Track| track_url(base_url@, t)),
            r.lengths() == Seq::<(Seq<char>, u64)>::empty(),
            r.heads() == Seq::<(Seq<char>, Seq<u8>)>::empty(),
    {
        let table = IdentityTable::build(tree, mount_time);
        let mut keys: Vec<Option<String>> = Vec::new();
        let mut urls: Vec<Option<String>> = Vec::new();
        let mut i: usize = 0;
        while i < tree.len()
            invariant
                i <= tree@.len(),
                keys@.len() == i,
                urls@.len() == i,
                forall|k: int| 0 <= k < i ==> opt_view(#[trigger] keys@[k]) == track_key(tree@[k]),
                forall|k: int| 0 <= k < i ==> opt_view(#[trigger] urls@[k]) == track_url(base_url@, tree@[k]),
            decreases tree@.len() - i,
        {
            keys.push(key_of_track(&tree[i]));
            urls.push(url_of_track(base_url, &tree[i]));
            i = i + 1;
        }
        let r = JsonFilesystem { table, keys, urls, lengths: LengthCache::new(), heads: HeadCache::new() };
        assert(r.keys() =~= tree@.map_values(|t: Track| track_key(t)));
        assert(r.urls() =~= tree@.map_values(|t: Track| track_url(base_url@, t)));
        r
    }

    /// The attribute record of `ino`: the root, a track, or `NotFound`.
    pub fn getattr(&self, ino: u64) -> (r: Result<FileAttr, FsError>)
        requires
            self.wf(),
        ensures
            match self.table().attr_spec(ino) {
                Some(a) => r == Ok::<FileAttr, FsError>(a),
                None => r == Err::<FileAttr, FsError>(FsError::NotFound),
            },
    {
        self.table.attributes_of(ino)
    }

    /// The attribute record of the entry `name` of directory `parent`; only the
    /// root has entries.
    pub fn lookup(&self, parent: u64, name: &str) -> (r: Result<FileAttr, FsError>)
        requires
            self.wf(),
        ensures
            match r {
                Ok(a) => parent == ROOT_INODE && exists|k: int|
                    0 <= k < listing(self.table().names()).len()
                    && #[trigger] listing(self.table().names())[k] == (name@, a.ino as int)
                    && self.table().attr_spec(a.ino) == Some(a),
                Err(e) => e == FsError::NotFound && (parent != ROOT_INODE
                    || forall|k: int| 0 <= k < listing(self.table().names()).len()
                        ==> (#[trigger] listing(self.table().names())[k]).0 != name@),
            },
    {
        if parent != ROOT_INODE {
            return Err(FsError::NotFound);
        }
        let ino = self.table.inode_of(name);
        match ino {
            Ok(ino) => {
                proof {
                    crate::catalog::lemma_listing_from(self.table().names(), 0);
                }
                self.table.attributes_of(ino)
            },
            Err(e) => Err(e),
        }
    }

    /// The entries of directory `ino` from `offset` on; only the root is a directory.
    pub fn readdir(&self, ino: u64, offset: i64) -> (r: Result<Vec<DirEntry>, FsError>)
        requires
            self.wf(),
        ensures
            ino == ROOT_INODE ==> r is Ok && r->Ok_0@.map_values(|e: DirEntry| e@)
                == dir_page(listing(self.table().names()), offset),
            ino != ROOT_INODE ==> r == Err::<Vec<DirEntry>, FsError>(FsError::NotFound),
    {
        if ino == ROOT_INODE {
            Ok(self.table.page(offset))
        } else {
            Err(FsError::NotFound)
        }
    }

    /// How many track heads are cached; never more than `MAX_CACHE_SIZE / CACHE_HEAD`.
    pub fn head_cache_len(&self) -> (r: usize)
        requires
            self.wf(),
        ensures
            r == self.heads().len(),
            r <= MAX_CACHE_SIZE / CACHE_HEAD,
    {
        self.heads.len()
    }

    /// The content length cached for the track with inode `ino`.
    pub fn cached_length(&self, ino: u64) -> (r: Option<u64>)
        requires
            self.wf(),
        ensures
            match self.track_of(ino) {
                None => r is None,
                Some((key, _)) => r == length_for(self.lengths(), key),
            },
    {
        match self.resolve(ino) {
            None => None,
            Some((_i, key, _url)) => self.lengths.get(key),
        }
    }

    /// The index, key and location of the track with inode `ino`.
    fn resolve(&self, ino: u64) -> (r: Option<(usize, &String, &String)>)
        requires
            self.wf(),
        ensures
            match r {
                Some((i, key, url)) => self.track_of(ino) == Some((key@, url@)) && i == ino - 2,
                None => self.track_of(ino) is None,
            },
    {
        if ino < 2 || ino - 2 >= self.keys.len() as u64 {
            return None;
        }
        let i: usize = (ino - 2) as usize;
        assert(self.keys()[i as int] == opt_view(self.keys@[i as int]));
        assert(self.urls()[i as int] == opt_view(self.urls@[i as int]));
        match (&self.keys[i], &self.urls[i]) {
            (Some(key), Some(url)) => Some((i, key, url)),
            _ => None,
        }
    }

    /// The step that a read decided by the content length `len` takes.
    fn plan(&self, key: &String, url: &String, offset: u64, size: u32, len: u64) -> (r: ReadStep)
        requires
            self.wf(),
            offset <= i64::MAX,
        ensures
            r@ == planned(self.heads(), key@, url@, offset, size, len),
    {
        if offset >= len {
            let v: Vec<u8> = Vec::new();
            assert(v@ =~= Seq::<u8>::empty());
            return ReadStep::Reply(v);
        }
        let end: u64 = offset + size as u64;
        let cut: u64 = if end < len { end } else { len };
        if end <= CACHE_HEAD {
            match self.heads.read_range(key, offset, cut) {
                Some(b) => ReadStep::Reply(b),
                None => {
                    let head_end: u64 = if CACHE_HEAD < len { CACHE_HEAD } else { len };
                    ReadStep::FetchHead { url: url.clone(), last: head_end - 1 }
                },
            }
        } else {
            ReadStep::FetchRange { url: url.clone(), first: offset, last: cut - 1 }
        }
    }

    /// First step of a read of `size` bytes at `offset` of inode `ino`.
    pub fn read(&self, ino: u64, offset: i64, size: u32) -> (r: ReadStep)
        requires
            self.wf(),
            offset >= 0,
            size > 0,
        ensures
            r@ == self.read_spec(ino, offset as u64, size),
    {
        match self.resolve(ino) {
            None => ReadStep::Fail(FsError::NotFound),
            Some((_i, key, url)) => match self.lengths.get(key) {
                None => ReadStep::FetchLength { url: url.clone() },
                Some(len) => self.plan(key, url, offset as u64, size, len),
            },
        }
    }

    /// Continues a read with the content-length header that the metadata
    /// request returned (none where the request failed or had none). A usable
    /// length is cached under the track's key and the read goes on as `read`
    /// would; otherwise the read fails and nothing changes.
    pub fn read_with_length(&mut self, ino: u64, offset: i64, size: u32, header: Option<String>) -> (r: ReadStep)
        requires
            old(self).wf(),
            offset >= 0,
            size > 0,
        ensures
            final(self).wf(),
            final(self).table() == old(self).table(),
            final(self).keys() == old(self).keys(),
            final(self).urls() == old(self).urls(),
            final(self).heads() == old(self).heads(),
            match old(self).track_of(ino) {
                None => r@ == ReadStepView::Fail(FsError::NotFound) && final(self).lengths() == old(self).lengths(),
                Some((key, url)) => {
                    let len = match header {
                        Some(h) => header_length(h@),
                        None => None,
                    };
                    match len {
                        None => r@ == ReadStepView::Fail(FsError::RemoteUnavailable)
                            && final(self).lengths() == old(self).lengths(),
                        Some(n) => final(self).lengths() == old(self).lengths().push((key, n))
                            && r@ == planned(old(self).heads(), key, url, offset as u64, size, n),
                    }
                },
            },
    {
        let (key, url) = match self.resolve(ino) {
            None => return ReadStep::Fail(FsError::NotFound),
            Some((_i, key, url)) => (key.clone(), url.clone()),
        };
        let len = match &header {
            Some(h) => parse_content_length(h.as_str()),
            None => None,
        };
        match len {
            None => ReadStep::Fail(FsError::RemoteUnavailable),
            Some(n) => {
                self.lengths.insert(key.clone(), n);
                self.plan(&key, &url, offset as u64, size, n)
            },
        }
    }

    /// Completes a read that fetched the head region of inode `ino`: the body
    /// (none where the request failed) is cached whole under the track's key,
    /// and the requested window of it, cut at the content length, is returned.
    pub fn finish_head(&mut self, ino: u64, offset: i64, size: u32, body: Option<Vec<u8>>) -> (r: Result<Vec<u8>, FsError>)
        requires
            old(self).wf(),
            offset >= 0,
            size > 0,
        ensures
            final(self).wf(),
            final(self).table() == old(self).table(),
            final(self).keys() == old(self).keys(),
            final(self).urls() == old(self).urls(),
            final(self).lengths() == old(self).lengths(),
            match (old(self).track_of(ino), body) {
                (None, _) => r == Err::<Vec<u8>, FsError>(FsError::NotFound)
                    && final(self).heads() == old(self).heads(),
                (Some(_), None) => r == Err::<Vec<u8>, FsError>(FsError::RemoteUnavailable)
                    && final(self).heads() == old(self).heads(),
                (Some((key, _)), Some(b)) => match length_for(old(self).lengths(), key) {
                    None => r == Err::<Vec<u8>, FsError>(FsError::RemoteUnavailable)
                        && final(self).heads() == old(self).heads(),
                    Some(len) => r is Ok
                        && r->Ok_0@ == clamped(b@, offset as int, min(offset + size, len as int))
                        && final(self).heads() == after_put(old(self).heads(), key, b@),
                },
            },
    {
        let key = match self.resolve(ino) {
            None => return Err(FsError::NotFound),
            Some((_i, key, _url)) => key.clone(),
        };
        let b = match body {
            None => return Err(FsError::RemoteUnavailable),
            Some(b) => b,
        };
        let len = match self.lengths.get(&key) {
            None => return Err(FsError::RemoteUnavailable),
            Some(len) => len,
        };
        let end: u64 = offset as u64 + size as u64;
        let cut: u64 = if end < len { end } else { len };
        let out = crate::head_cache::copy_clamped(&b, offset as u64, cut);
        self.heads.put(key, b);
        Ok(out)
    }
}

/// Once `finish_head` has cached `body` for the track of `ino`, the same read
/// is answered from the cache with the bytes that `finish_head` returned, and
/// so is every repetition of it until the entry is evicted.
pub proof fn lemma_read_repeats_fill(
    before: JsonFilesystem,
    after: JsonFilesystem,
    ino: u64,
    offset: u64,
    size: u32,
    body: Seq<u8>,
)
    requires
        before.wf(),
        before.track_of(ino) is Some,
        length_for(before.lengths(), (before.track_of(ino)->0).0) is Some,
        offset < length_for(before.lengths(), (before.track_of(ino)->0).0)->0,
        offset + size <= CACHE_HEAD,
        after.keys() == before.keys(),
        after.urls() == before.urls(),
        after.lengths() == before.lengths(),
        after.heads() == after_put(before.heads(), (before.track_of(ino)->0).0, body),
    ensures
        after.read_spec(ino, offset, size) == ReadStepView::Reply(clamped(
            body,
            offset as int,
            min(offset + size, length_for(before.lengths(), (before.track_of(ino)->0).0)->0 as int),
        )),
{
    crate::laws::lemma_read_after_fill(
        before.heads(),
        (before.track_of(ino)->0).0,
        (before.track_of(ino)->0).1,
        body,
        offset,
        size,
        length_for(before.lengths(), (before.track_of(ino)->0).0)->0,
    );
}

/// Completes a read that fetched a range past the head region: the body is
/// the answer, unchanged and not cached.
pub fn finish_range(body: Option<Vec<u8>>) -> (r: Result<Vec<u8>, FsError>)
    ensures
        match body {
            Some(b) => r is Ok && r->Ok_0@ == b@,
            None => r == Err::<Vec<u8>, FsError>(FsError::RemoteUnavailable),
        },
{
    match body {
        Some(b) => Ok(b),
        None => Err(FsError::RemoteUnavailable),
    }
}

} // verus!
