//! Properties of the read path and of the root directory that relate several
//! operations.
use vstd::prelude::*;
use crate::catalog::{
    dir_page, dot_entry, listing, lemma_listing_from, reachable, FileKind, ROOT_INODE,
};
use crate::engine::{min, planned, ReadStepView};
use crate::head_cache::{after_put, clamped, distinct_keys, head_for, lemma_after_put, CACHE_HEAD};

verus! {

/// A read answers with as many bytes as were asked for, cut at the content
/// length: none at or past the end; past the head region, the one ranged
/// fetch covers exactly that window; inside it, a cached or fetched head of
/// the full head length gives exactly that many bytes.
pub proof fn lemma_read_byte_count(
    heads: Seq<(Seq<char>, Seq<u8>)>,
    key: Seq<char>,
    url: Seq<char>,
    offset: u64,
    size: u32,
    len: u64,
    head: Seq<u8>,
)
    requires
        size > 0,
        offset <= i64::MAX,
    ensures
        offset >= len ==> planned(heads, key, url, offset, size, len) == ReadStepView::Reply(Seq::<u8>::empty()),
        offset < len && offset + size > CACHE_HEAD ==> {
            let step = planned(heads, key, url, offset, size, len);
            &&& step is FetchRange
            &&& step->FetchRange_first == offset
            &&& step->FetchRange_last - step->FetchRange_first + 1 == min(size as int, len - offset)
        },
        offset < len && offset + size <= CACHE_HEAD && head.len() == min(CACHE_HEAD as int, len as int) ==> {
            &&& clamped(head, offset as int, min(offset + size, len as int)).len() == min(size as int, len - offset)
            &&& head_for(heads, key) == Some(head) ==> planned(heads, key, url, offset, size, len)
                == ReadStepView::Reply(clamped(head, offset as int, min(offset + size, len as int)))
        },
{
}

/// A read inside the head region that follows the caching of a head answers
/// with the very bytes that the read which fetched that head returned.
pub proof fn lemma_read_after_fill(
    heads: Seq<(Seq<char>, Seq<u8>)>,
    key: Seq<char>,
    url: Seq<char>,
    head: Seq<u8>,
    offset: u64,
    size: u32,
    len: u64,
)
    requires
        distinct_keys(heads),
        offset < len,
        offset + size <= CACHE_HEAD,
    ensures
        planned(after_put(heads, key, head), key, url, offset, size, len)
            == ReadStepView::Reply(clamped(head, offset as int, min(offset + size, len as int))),
{
    lemma_after_put(heads, key, head);
}

/// Reading the root from offset 0 gives `.`, `..`, then each track that is
/// reachable by name exactly once, in catalog order, with distinct names.
pub proof fn lemma_root_listing(names: Seq<Option<Seq<char>>>)
    requires
        names.len() + 2 <= i64::MAX,
    ensures
        ({
            let p = dir_page(listing(names), 0);
            &&& p.len() == listing(names).len() + 2
            &&& p[0] == dot_entry(seq!['.'], 0)
            &&& p[1] == dot_entry(seq!['.', '.'], 1)
            &&& forall|k: int| 2 <= k < p.len() ==> {
                &&& reachable(names, (#[trigger] p[k]).ino - 2)
                &&& names[p[k].ino - 2] == Some(p[k].name)
                &&& p[k].kind == FileKind::RegularFile
                &&& p[k].ino != ROOT_INODE
            }
            &&& forall|i: int| #[trigger] reachable(names, i) ==> exists|k: int|
                2 <= k < p.len() && (#[trigger] p[k]).ino == i + 2 && p[k].name == names[i]->0
            &&& forall|k1: int, k2: int| 2 <= k1 < k2 < p.len() ==> (#[trigger] p[k1]).ino < (#[trigger] p[k2]).ino
            &&& forall|k1: int, k2: int| 2 <= k1 < p.len() && 2 <= k2 < p.len() && k1 != k2
                ==> (#[trigger] p[k1]).name != (#[trigger] p[k2]).name
        }),
{
    lemma_listing_from(names, 0);
    let l = listing(names);
    let p = dir_page(l, 0);
    assert forall|k: int| 2 <= k < p.len() implies p[k].ino as int == l[k - 2].1 by {}
    assert forall|i: int| #[trigger] reachable(names, i) implies exists|k: int|
        2 <= k < p.len() && (#[trigger] p[k]).ino == i + 2 && p[k].name == names[i]->0 by {
        let j = choose|j: int| 0 <= j < l.len() && #[trigger] l[j] == (names[i]->0, i + 2);
        assert(p[j + 2].ino == i + 2);
    }
    assert forall|k1: int, k2: int| 2 <= k1 < p.len() && 2 <= k2 < p.len() && k1 != k2
        implies (#[trigger] p[k1]).name != (#[trigger] p[k2]).name by {
        let (a, b) = if k1 < k2 { (k1, k2) } else { (k2, k1) };
        assert(l[a - 2].1 < l[b - 2].1);
    }
}

} // verus!
