//! An exact inverted index from trigrams to the files that hold them.
use vstd::prelude::*;
use crate::index::{path_set, paths_of, distinct_paths, holds_path, insert_path};
use crate::trigram::{Trigram, code_of};
use std::collections::HashMap;
use vstd::string::StringSliceAdditionalSpecFns;

verus! {

/// The lower-case form of the character with code `b` (ASCII and Latin-1
/// capitals fold; everything else is kept).
pub open spec fn latin1_lower(b: u8) -> u8 {
    if (65 <= b && b <= 90) || (0xC0 <= b && b <= 0xDE && b != 0xD7) {
        (b + 32) as u8
    } else {
        b
    }
}

/// The trigram of the three bytes of `buf` at `i`, each folded to lower case.
pub open spec fn trigram_at(buf: Seq<u8>, i: int) -> Trigram {
    Trigram {
        first: latin1_lower(buf[i]),
        second: latin1_lower(buf[i + 1]),
        third: latin1_lower(buf[i + 2]),
    }
}

/// Number of three-byte windows in `n` bytes: `n - 2`, none below three.
pub open spec fn scan_count(n: nat) -> nat {
    if n >= 3 {
        (n - 2) as nat
    } else {
        0
    }
}

/// The trigrams that the exact index records for a buffer.
pub open spec fn buffer_trigrams(buf: Seq<u8>) -> Set<Trigram> {
    Set::new(|t: Trigram| exists|i: int| 0 <= i < scan_count(buf.len()) && t == trigram_at(buf, i))
}

fn fold_byte(b: u8) -> (r: u8)
    ensures
        r == latin1_lower(b),
{
    if (65 <= b && b <= 90) || (0xC0 <= b && b <= 0xDE && b != 0xD7) {
        b + 32
    } else {
        b
    }
}

impl Trigram {
    /// The trigram of the first three bytes of `buf`, folded to lower case.
    pub fn create(buf: &[u8]) -> (r: Trigram)
        requires
            buf@.len() >= 3,
        ensures
            r == trigram_at(buf@, 0),
    {
        Trigram { first: fold_byte(buf[0]), second: fold_byte(buf[1]), third: fold_byte(buf[2]) }
    }
}

/// The trigrams that the exact index reads from `buf`, in order.
fn scan_buffer(buf: &[u8]) -> (r: Vec<Trigram>)
    ensures
        r@.to_set() == buffer_trigrams(buf@),
        forall|i: int| 0 <= i < r@.len() ==> r@[i] == trigram_at(buf@, i),
        r@.len() == scan_count(buf@.len()),
{
    let mut trigrams: Vec<Trigram> = Vec::new();
    let n = buf.len();
    if n < 3 {
        assert(trigrams@.to_set() =~= buffer_trigrams(buf@));
        return trigrams;
    }
    let mut i: usize = 0;
    while i < n - 2
        invariant
            n == buf@.len(),
            n >= 3,
            i <= n - 2,
            trigrams@.len() == i,
            forall|k: int| 0 <= k < i ==> trigrams@[k] == trigram_at(buf@, k),
        decreases n - 2 - i,
    {
        let t = Trigram {
            first: fold_byte(buf[i]),
            second: fold_byte(buf[i + 1]),
            third: fold_byte(buf[i + 2]),
        };
        trigrams.push(t);
        i = i + 1;
    }
    assert(trigrams@.to_set() =~= buffer_trigrams(buf@)) by {
        assert forall|t: Trigram| trigrams@.to_set().contains(t) implies buffer_trigrams(
            buf@,
        ).contains(t) by {
            let k = choose|k: int| 0 <= k < trigrams@.len() && trigrams@[k] == t;
        }
        assert forall|t: Trigram| buffer_trigrams(buf@).contains(t) implies trigrams@.to_set().contains(
            t,
        ) by {
            let k = choose|k: int| 0 <= k < scan_count(buf@.len()) && t == trigram_at(buf@, k);
            assert(trigrams@[k] == t);
        }
    }
    trigrams
}

/// One indexed file of a batch: its path and its trigrams.
pub struct Document {
    pub path: String,
    pub trigrams: Vec<Trigram>,
}

/// The trigrams recorded for `p` by the first document of `docs` with that
/// path; none if there is no such document.
pub open spec fn doc_trigrams(docs: Seq<Document>, p: Seq<char>) -> Option<Set<Trigram>>
    decreases docs.len(),
{
    if docs.len() == 0 {
        None
    } else if docs[0].path@ == p {
        Some(docs[0].trigrams@.to_set())
    } else {
        doc_trigrams(docs.drop_first(), p)
    }
}

/// The files of a batch being indexed, each with its trigrams.
pub struct IndexBatch {
    pub contained_trigrams: Vec<Document>,
}

proof fn lemma_doc_trigrams_update(docs: Seq<Document>, i: int, d: Document, p: Seq<char>)
    requires
        0 <= i < docs.len(),
        docs[i].path@ == d.path@,
        forall|j: int| 0 <= j < i ==> docs[j].path@ != d.path@,
    ensures
        doc_trigrams(docs.update(i, d), p) == if p == d.path@ {
            Some(d.trigrams@.to_set())
        } else {
            doc_trigrams(docs, p)
        },
    decreases docs.len(),
{
    assert(docs.update(i, d)[0] == if i == 0 {
        d
    } else {
        docs[0]
    });
    if i == 0 {
        assert(docs.update(i, d).drop_first() =~= docs.drop_first());
    } else {
        assert(docs.update(i, d).drop_first() =~= docs.drop_first().update(i - 1, d));
        assert forall|j: int| 0 <= j < i - 1 implies docs.drop_first()[j].path@ != d.path@ by {
            assert(docs.drop_first()[j] == docs[j + 1]);
        }
        lemma_doc_trigrams_update(docs.drop_first(), i - 1, d, p);
    }
}

proof fn lemma_doc_trigrams_push(docs: Seq<Document>, d: Document, p: Seq<char>)
    requires
        forall|j: int| 0 <= j < docs.len() ==> docs[j].path@ != d.path@,
    ensures
        doc_trigrams(docs.push(d), p) == if p == d.path@ {
            Some(d.trigrams@.to_set())
        } else {
            doc_trigrams(docs, p)
        },
    decreases docs.len(),
{
    if docs.len() > 0 {
        assert(docs.push(d)[0] == docs[0]);
        assert(docs.push(d).drop_first() =~= docs.drop_first().push(d));
        assert forall|j: int| 0 <= j < docs.drop_first().len() implies docs.drop_first()[j].path@
            != d.path@ by {
            assert(docs.drop_first()[j] == docs[j + 1]);
        }
        lemma_doc_trigrams_push(docs.drop_first(), d, p);
    } else {
        assert(doc_trigrams(Seq::<Document>::empty(), p) is None);
        assert(docs.push(d)[0] == d);
        assert(docs.push(d).drop_first() =~= Seq::<Document>::empty());
    }
}

impl IndexBatch {
    /// A batch with no files.
    pub fn new() -> (r: IndexBatch)
        ensures
            r.contained_trigrams@.len() == 0,
    {
        IndexBatch { contained_trigrams: Vec::new() }
    }

    /// Records the trigrams of `buf`, the text of the file `file_name`: those
    /// of all its `n - 2` windows of three bytes, folded to lower case. A
    /// file recorded before is replaced.
    pub fn index_buffer(&mut self, file_name: &str, buf: &[u8])
        ensures
            forall|p: Seq<char>|
                #![trigger doc_trigrams(final(self).contained_trigrams@, p)]
                doc_trigrams(final(self).contained_trigrams@, p) == if p == file_name@ {
                    Some(buffer_trigrams(buf@))
                } else {
                    doc_trigrams(old(self).contained_trigrams@, p)
                },
    {
        let trigrams = scan_buffer(buf);
        let doc = Document { path: file_name.to_string(), trigrams };
        assert(doc.path@ == file_name@);
        assert(doc.trigrams@.to_set() == buffer_trigrams(buf@));
        let ghost docs = self.contained_trigrams@;
        let mut i: usize = 0;
        while i < self.contained_trigrams.len()
            invariant
                i <= docs.len(),
                docs == self.contained_trigrams@,
                docs == old(self).contained_trigrams@,
                doc.path@ == file_name@,
                doc.trigrams@.to_set() == buffer_trigrams(buf@),
                forall|j: int| 0 <= j < i ==> docs[j].path@ != doc.path@,
            decreases docs.len() - i,
        {
            if self.contained_trigrams[i].path == doc.path {
                proof {
                    assert forall|p: Seq<char>| true implies doc_trigrams(docs.update(i as int, doc), p)
                        == if p == file_name@ {
                        Some(buffer_trigrams(buf@))
                    } else {
                        doc_trigrams(docs, p)
                    } by {
                        lemma_doc_trigrams_update(docs, i as int, doc, p);
                    }
                }
                self.contained_trigrams.set(i, doc);
                return;
            }
            i = i + 1;
        }
        proof {
            assert forall|p: Seq<char>| true implies doc_trigrams(docs.push(doc), p) == if p
                == file_name@ {
                Some(buffer_trigrams(buf@))
            } else {
                doc_trigrams(docs, p)
            } by {
                lemma_doc_trigrams_push(docs, doc, p);
            }
        }
        self.contained_trigrams.push(doc);
    }
}

/// The files recorded for `t`, keyed by its packed code; none if the index has
/// no entry for it.
pub open spec fn posting_of(m: Map<u32, Vec<String>>, t: Trigram) -> Option<Set<Seq<char>>> {
    if m.contains_key(code_of(t)) {
        Some(path_set(m[code_of(t)]@))
    } else {
        None
    }
}

/// The files recorded for `t`, none being the empty set.
pub open spec fn posted(m: Map<u32, Vec<String>>, t: Trigram) -> Set<Seq<char>> {
    match posting_of(m, t) {
        Some(s) => s,
        None => Set::empty(),
    }
}

/// Every entry lists each of its files once.
pub open spec fn postings_distinct(m: Map<u32, Vec<String>>) -> bool {
    forall|k: u32| #[trigger] m.contains_key(k) ==> distinct_paths(m[k]@)
}

/// An exact inverted index: every file, and the files of each trigram, keyed
/// by the trigram's packed code.
pub struct Index {
    pub files: Vec<String>,
    pub trigrams_to_files: HashMap<u32, Vec<String>>,
}

/// Distinct trigrams have distinct packed codes.
proof fn lemma_code_injective(t: Trigram, u: Trigram)
    ensures
        code_of(t) == code_of(u) ==> t == u,
{
    let (a, b, c) = (t.first as int, t.second as int, t.third as int);
    let (x, y, z) = (u.first as int, u.second as int, u.third as int);
    if code_of(t) == code_of(u) {
        assert(a * 65536 + b * 256 + c == x * 65536 + y * 256 + z) by {
            assert(0 <= a * 65536 + b * 256 + c < 0x1_0000_0000) by (nonlinear_arith)
                requires
                    0 <= a < 256,
                    0 <= b < 256,
                    0 <= c < 256,
            ;
            assert(0 <= x * 65536 + y * 256 + z < 0x1_0000_0000) by (nonlinear_arith)
                requires
                    0 <= x < 256,
                    0 <= y < 256,
                    0 <= z < 256,
            ;
        }
        assert(a == x && b == y && c == z) by (nonlinear_arith)
            requires
                a * 65536 + b * 256 + c == x * 65536 + y * 256 + z,
                0 <= a < 256,
                0 <= b < 256,
                0 <= c < 256,
                0 <= x < 256,
                0 <= y < 256,
                0 <= z < 256,
        ;
    }
}

/// Some document of the batches `bs` has the path `p`.
pub open spec fn batches_hold(bs: Seq<IndexBatch>, p: Seq<char>) -> bool {
    exists|b: int, d: int|
        0 <= b < bs.len() && 0 <= d < bs[b].contained_trigrams@.len()
            && (#[trigger] bs[b].contained_trigrams@[d]).path@ == p
}

/// Some document of the batches `bs` has the path `p` and the trigram `t`.
pub open spec fn batches_hold_trigram(bs: Seq<IndexBatch>, p: Seq<char>, t: Trigram) -> bool {
    exists|b: int, d: int|
        0 <= b < bs.len() && 0 <= d < bs[b].contained_trigrams@.len()
            && (#[trigger] bs[b].contained_trigrams@[d]).path@ == p
            && bs[b].contained_trigrams@[d].trigrams@.contains(t)
}

impl Index {
    /// Records that the file `path` holds the trigram `t`.
    fn post(&mut self, t: Trigram, path: &String)
        requires
            postings_distinct(old(self).trigrams_to_files@),
            postings_nonempty(old(self).trigrams_to_files@),
        ensures
            postings_distinct(final(self).trigrams_to_files@),
            postings_nonempty(final(self).trigrams_to_files@),
            final(self).files@ == old(self).files@,
            forall|u: Trigram|
                #![trigger posting_of(final(self).trigrams_to_files@, u)]
                posting_of(final(self).trigrams_to_files@, u) == if u == t {
                    Some(posted(old(self).trigrams_to_files@, t).insert(path@))
                } else {
                    posting_of(old(self).trigrams_to_files@, u)
                },
    {
        broadcast use vstd::std_specs::hash::group_hash_axioms;

        let ghost m = self.trigrams_to_files@;
        let code = t.to_u32();
        let mut files: Vec<String> = match self.trigrams_to_files.get(&code) {
            Some(listed) => {
                let copy = listed.clone();
                proof {
                    assert(copy@ =~= m[code]@) by {
                        assert forall|k: int| 0 <= k < copy@.len() implies copy@[k] == m[code]@[k] by {
                            assert(vstd::pervasive::cloned(m[code]@[k], copy@[k]));
                        }
                    }
                }
                copy
            },
            None => {
                let empty: Vec<String> = Vec::new();
                proof {
                    assert(paths_of(empty@) =~= Seq::<Seq<char>>::empty());
                    assert(path_set(empty@) =~= Set::<Seq<char>>::empty());
                }
                empty
            },
        };
        assert(path_set(files@) == posted(m, t));
        insert_path(&mut files, path);
        assert(files@.len() > 0) by {
            assert(path_set(files@).contains(path@));
            if files@.len() == 0 {
                assert(paths_of(files@) =~= Seq::<Seq<char>>::empty());
            }
        }
        let ghost added = files;
        self.trigrams_to_files.insert(code, files);
        proof {
            assert(self.trigrams_to_files@ == m.insert(code, added));
            assert forall|u: Trigram| true implies #[trigger] posting_of(self.trigrams_to_files@, u)
                == if u == t {
                Some(posted(m, t).insert(path@))
            } else {
                posting_of(m, u)
            } by {
                lemma_code_injective(t, u);
            }
        }
    }
}

/// One of the first `n` documents of `docs` has the path `p`.
pub open spec fn docs_hold(docs: Seq<Document>, n: int, p: Seq<char>) -> bool {
    exists|d: int| 0 <= d < n && (#[trigger] docs[d]).path@ == p
}

/// One of the first `n` documents of `docs` has the path `p` and the
/// trigram `t`.
pub open spec fn docs_hold_trigram(docs: Seq<Document>, n: int, p: Seq<char>, t: Trigram) -> bool {
    exists|d: int| 0 <= d < n && (#[trigger] docs[d]).path@ == p && docs[d].trigrams@.contains(t)
}

/// Every entry lists at least one file.
pub open spec fn postings_nonempty(m: Map<u32, Vec<String>>) -> bool {
    forall|k: u32| #[trigger] m.contains_key(k) ==> m[k]@.len() > 0
}

proof fn lemma_posting_nonempty(m: Map<u32, Vec<String>>, t: Trigram)
    requires
        postings_nonempty(m),
    ensures
        posting_of(m, t) is Some <==> posted(m, t) != Set::<Seq<char>>::empty(),
{
    if m.contains_key(code_of(t)) {
        let f = m[code_of(t)]@;
        assert(path_set(f).contains(f[0]@)) by {
            assert(paths_of(f)[0] == f[0]@);
        }
    }
}

impl Index {
    /// An index with no files.
    pub fn empty() -> (r: Index)
        ensures
            path_set(r.files@) == Set::<Seq<char>>::empty(),
            distinct_paths(r.files@),
            r.trigrams_to_files@ == Map::<u32, Vec<String>>::empty(),
    {
        let r = Index { files: Vec::new(), trigrams_to_files: HashMap::new() };
        assert(paths_of(r.files@) =~= Seq::<Seq<char>>::empty());
        assert(path_set(r.files@) =~= Set::<Seq<char>>::empty());
        r
    }

    /// Records the file `path` with the trigrams `trigrams`.
    fn add_document(&mut self, path: &String, trigrams: &Vec<Trigram>)
        requires
            postings_distinct(old(self).trigrams_to_files@),
            postings_nonempty(old(self).trigrams_to_files@),
            distinct_paths(old(self).files@),
        ensures
            postings_distinct(final(self).trigrams_to_files@),
            postings_nonempty(final(self).trigrams_to_files@),
            distinct_paths(final(self).files@),
            path_set(final(self).files@) == path_set(old(self).files@).insert(path@),
            forall|u: Trigram|
                #![trigger posting_of(final(self).trigrams_to_files@, u)]
                posting_of(final(self).trigrams_to_files@, u) == if trigrams@.contains(u) {
                    Some(posted(old(self).trigrams_to_files@, u).insert(path@))
                } else {
                    posting_of(old(self).trigrams_to_files@, u)
                },
    {
        insert_path(&mut self.files, path);
        let ghost start = self.trigrams_to_files@;
        let mut k: usize = 0;
        while k < trigrams.len()
            invariant
                k <= trigrams@.len(),
                start == old(self).trigrams_to_files@,
                postings_distinct(self.trigrams_to_files@),
                postings_nonempty(self.trigrams_to_files@),
                distinct_paths(self.files@),
                path_set(self.files@) == path_set(old(self).files@).insert(path@),
                forall|u: Trigram|
                    #![trigger posting_of(self.trigrams_to_files@, u)]
                    posting_of(self.trigrams_to_files@, u) == if trigrams@.subrange(
                        0,
                        k as int,
                    ).contains(u) {
                        Some(posted(start, u).insert(path@))
                    } else {
                        posting_of(start, u)
                    },
            decreases trigrams@.len() - k,
        {
            let t = trigrams[k];
            let ghost before = self.trigrams_to_files@;
            self.post(t, path);
            proof {
                assert forall|u: Trigram| true implies #[trigger] posting_of(self.trigrams_to_files@, u)
                    == if trigrams@.subrange(0, k as int + 1).contains(u) {
                    Some(posted(start, u).insert(path@))
                } else {
                    posting_of(start, u)
                } by {
                    let pre = trigrams@.subrange(0, k as int);
                    let post = trigrams@.subrange(0, k as int + 1);
                    assert(post =~= pre.push(t));
                    if u == t {
                        assert(post.contains(u)) by {
                            assert(post[k as int] == t);
                        }
                        if pre.contains(u) {
                            assert(posted(before, t) == posted(start, t).insert(path@));
                            assert(posted(start, t).insert(path@).insert(path@) =~= posted(
                                start,
                                t,
                            ).insert(path@));
                        } else {
                            assert(posted(before, t) == posted(start, t));
                        }
                    } else {
                        assert(post.contains(u) == pre.contains(u)) by {
                            if post.contains(u) {
                                let j = choose|j: int| 0 <= j < post.len() && post[j] == u;
                                assert(pre[j] == u);
                            }
                            if pre.contains(u) {
                                let j = choose|j: int| 0 <= j < pre.len() && pre[j] == u;
                                assert(post[j] == u);
                            }
                        }
                    }
                }
            }
            k = k + 1;
        }
        assert(trigrams@.subrange(0, trigrams@.len() as int) =~= trigrams@);
    }
}

proof fn lemma_hold_next_batch(bs: Seq<IndexBatch>, b: int, p: Seq<char>, t: Trigram)
    requires
        0 <= b < bs.len(),
    ensures
        batches_hold(bs.subrange(0, b + 1), p) <==> batches_hold(bs.subrange(0, b), p) || docs_hold(
            bs[b].contained_trigrams@,
            bs[b].contained_trigrams@.len() as int,
            p,
        ),
        batches_hold_trigram(bs.subrange(0, b + 1), p, t) <==> batches_hold_trigram(
            bs.subrange(0, b),
            p,
            t,
        ) || docs_hold_trigram(
            bs[b].contained_trigrams@,
            bs[b].contained_trigrams@.len() as int,
            p,
            t,
        ),
{
    let pre = bs.subrange(0, b);
    let post = bs.subrange(0, b + 1);
    let docs = bs[b].contained_trigrams@;
    assert(post[b] == bs[b]);
    if batches_hold(post, p) {
        let (x, d) = choose|x: int, d: int|
            0 <= x < post.len() && 0 <= d < post[x].contained_trigrams@.len()
                && (#[trigger] post[x].contained_trigrams@[d]).path@ == p;
        if x < b {
            assert(pre[x] == post[x]);
        } else {
            assert(docs[d].path@ == p);
        }
    }
    if batches_hold(pre, p) {
        let (x, d) = choose|x: int, d: int|
            0 <= x < pre.len() && 0 <= d < pre[x].contained_trigrams@.len()
                && (#[trigger] pre[x].contained_trigrams@[d]).path@ == p;
        assert(post[x] == pre[x]);
    }
    if docs_hold(docs, docs.len() as int, p) {
        let d = choose|d: int| 0 <= d < docs.len() && (#[trigger] docs[d]).path@ == p;
        assert(post[b].contained_trigrams@[d] == docs[d]);
    }
    if batches_hold_trigram(post, p, t) {
        let (x, d) = choose|x: int, d: int|
            0 <= x < post.len() && 0 <= d < post[x].contained_trigrams@.len()
                && (#[trigger] post[x].contained_trigrams@[d]).path@ == p
                && post[x].contained_trigrams@[d].trigrams@.contains(t);
        if x < b {
            assert(pre[x] == post[x]);
        } else {
            assert(docs[d].path@ == p);
        }
    }
    if batches_hold_trigram(pre, p, t) {
        let (x, d) = choose|x: int, d: int|
            0 <= x < pre.len() && 0 <= d < pre[x].contained_trigrams@.len()
                && (#[trigger] pre[x].contained_trigrams@[d]).path@ == p
                && pre[x].contained_trigrams@[d].trigrams@.contains(t);
        assert(post[x] == pre[x]);
    }
    if docs_hold_trigram(docs, docs.len() as int, p, t) {
        let d = choose|d: int|
            0 <= d < docs.len() && (#[trigger] docs[d]).path@ == p && docs[d].trigrams@.contains(t);
        assert(post[b].contained_trigrams@[d] == docs[d]);
    }
}

impl IndexBatch {
    /// Merges the batches into one exact index: every file of every batch,
    /// and for each trigram the files that hold it.
    pub fn merge(batches: Vec<IndexBatch>) -> (r: Index)
        ensures
            distinct_paths(r.files@),
            postings_distinct(r.trigrams_to_files@),
            postings_nonempty(r.trigrams_to_files@),
            forall|p: Seq<char>|
                #![trigger path_set(r.files@).contains(p)]
                path_set(r.files@).contains(p) <==> batches_hold(batches@, p),
            forall|p: Seq<char>, t: Trigram|
                #![trigger posted(r.trigrams_to_files@, t).contains(p)]
                posted(r.trigrams_to_files@, t).contains(p) <==> batches_hold_trigram(
                    batches@,
                    p,
                    t,
                ),
    {
        let ghost bs = batches@;
        let mut index = Index::empty();
        let mut b: usize = 0;
        assert(bs.subrange(0, 0) =~= Seq::<IndexBatch>::empty());
        while b < batches.len()
            invariant
                b <= bs.len(),
                bs == batches@,
                distinct_paths(index.files@),
                postings_distinct(index.trigrams_to_files@),
                postings_nonempty(index.trigrams_to_files@),
                forall|p: Seq<char>|
                    #![trigger path_set(index.files@).contains(p)]
                    path_set(index.files@).contains(p) <==> batches_hold(bs.subrange(0, b as int), p),
                forall|p: Seq<char>, t: Trigram|
                    #![trigger posted(index.trigrams_to_files@, t).contains(p)]
                    posted(index.trigrams_to_files@, t).contains(p) <==> batches_hold_trigram(
                        bs.subrange(0, b as int),
                        p,
                        t,
                    ),
            decreases bs.len() - b,
        {
            let batch = &batches[b];
            let ghost docs = batch.contained_trigrams@;
            let mut d: usize = 0;
            while d < batch.contained_trigrams.len()
                invariant
                    b < bs.len(),
                    bs == batches@,
                    *batch == bs[b as int],
                    docs == bs[b as int].contained_trigrams@,
                    d <= docs.len(),
                    distinct_paths(index.files@),
                    postings_distinct(index.trigrams_to_files@),
                    postings_nonempty(index.trigrams_to_files@),
                    forall|p: Seq<char>|
                        #![trigger path_set(index.files@).contains(p)]
                        path_set(index.files@).contains(p) <==> batches_hold(
                            bs.subrange(0, b as int),
                            p,
                        ) || docs_hold(docs, d as int, p),
                    forall|p: Seq<char>, t: Trigram|
                        #![trigger posted(index.trigrams_to_files@, t).contains(p)]
                        posted(index.trigrams_to_files@, t).contains(p) <==> batches_hold_trigram(
                            bs.subrange(0, b as int),
                            p,
                            t,
                        ) || docs_hold_trigram(docs, d as int, p, t),
                decreases docs.len() - d,
            {
                let doc = &batch.contained_trigrams[d];
                let ghost before = index.trigrams_to_files@;
                let ghost files_before = path_set(index.files@);
                index.add_document(&doc.path, &doc.trigrams);
                proof {
                    assert(docs[d as int] == *doc);
                    assert forall|p: Seq<char>| #[trigger]
                        path_set(index.files@).contains(p) <==> batches_hold(
                            bs.subrange(0, b as int),
                            p,
                        ) || docs_hold(docs, d as int + 1, p) by {
                        if docs_hold(docs, d as int + 1, p) && !(doc.path@ == p) {
                            let x = choose|x: int| 0 <= x < d + 1 && (#[trigger] docs[x]).path@ == p;
                            assert(x < d);
                        }
                        if doc.path@ == p {
                            assert(docs_hold(docs, d as int + 1, p)) by {
                                assert(docs[d as int].path@ == p);
                            }
                        }
                        if docs_hold(docs, d as int, p) {
                            let x = choose|x: int| 0 <= x < d && (#[trigger] docs[x]).path@ == p;
                            assert(docs_hold(docs, d as int + 1, p)) by {
                                assert(docs[x].path@ == p);
                            }
                        }
                    }
                    assert forall|p: Seq<char>, t: Trigram| #[trigger]
                        posted(index.trigrams_to_files@, t).contains(p) <==> batches_hold_trigram(
                            bs.subrange(0, b as int),
                            p,
                            t,
                        ) || docs_hold_trigram(docs, d as int + 1, p, t) by {
                        assert(posting_of(index.trigrams_to_files@, t) == if doc.trigrams@.contains(t) {
                            Some(posted(before, t).insert(doc.path@))
                        } else {
                            posting_of(before, t)
                        });
                        if doc.trigrams@.contains(t) {
                            assert(posted(index.trigrams_to_files@, t) == posted(before, t).insert(
                                doc.path@,
                            ));
                        } else {
                            assert(posted(index.trigrams_to_files@, t) == posted(before, t));
                        }
                        assert(posted(before, t).contains(p) <==> batches_hold_trigram(
                            bs.subrange(0, b as int),
                            p,
                            t,
                        ) || docs_hold_trigram(docs, d as int, p, t));
                        if docs_hold_trigram(docs, d as int + 1, p, t) && !(doc.path@ == p
                            && doc.trigrams@.contains(t)) {
                            let x = choose|x: int|
                                0 <= x < d + 1 && (#[trigger] docs[x]).path@ == p
                                    && docs[x].trigrams@.contains(t);
                            assert(x < d);
                        }
                        if doc.path@ == p && doc.trigrams@.contains(t) {
                            assert(docs_hold_trigram(docs, d as int + 1, p, t)) by {
                                assert(docs[d as int].path@ == p);
                            }
                        }
                        if docs_hold_trigram(docs, d as int, p, t) {
                            let x = choose|x: int|
                                0 <= x < d && (#[trigger] docs[x]).path@ == p
                                    && docs[x].trigrams@.contains(t);
                            assert(docs_hold_trigram(docs, d as int + 1, p, t)) by {
                                assert(docs[x].path@ == p);
                            }
                        }
                    }
                }
                d = d + 1;
            }
            proof {
                assert forall|p: Seq<char>| #[trigger]
                    path_set(index.files@).contains(p) <==> batches_hold(
                        bs.subrange(0, b as int + 1),
                        p,
                    ) by {
                    lemma_hold_next_batch(bs, b as int, p, Trigram { first: 0, second: 0, third: 0 });
                }
                assert forall|p: Seq<char>, t: Trigram| #[trigger]
                    posted(index.trigrams_to_files@, t).contains(p) <==> batches_hold_trigram(
                        bs.subrange(0, b as int + 1),
                        p,
                        t,
                    ) by {
                    lemma_hold_next_batch(bs, b as int, p, t);
                }
            }
            b = b + 1;
        }
        assert(bs.subrange(0, bs.len() as int) =~= bs);
        index
    }
}

/// `f` is listed for the trigram of window `i` of `q`, or that trigram has
/// no posting.
pub open spec fn passes_window(ps: Map<u32, Vec<String>>, q: Seq<u8>, i: int, f: Seq<char>) -> bool {
    match posting_of(ps, trigram_at(q, i)) {
        Some(s) => s.contains(f),
        None => true,
    }
}

/// The files of `v` that `keep` also lists.
fn keep_listed(v: &Vec<String>, keep: &Vec<String>) -> (r: Vec<String>)
    ensures
        path_set(r@) == path_set(v@).intersect(path_set(keep@)),
{
    let mut out: Vec<String> = Vec::new();
    let mut i: usize = 0;
    assert(path_set(out@) =~= path_set(v@.subrange(0, 0)).intersect(path_set(keep@))) by {
        assert(paths_of(out@) =~= Seq::<Seq<char>>::empty());
        assert(paths_of(v@.subrange(0, 0)) =~= Seq::<Seq<char>>::empty());
    }
    while i < v.len()
        invariant
            i <= v@.len(),
            path_set(out@) == path_set(v@.subrange(0, i as int)).intersect(path_set(keep@)),
        decreases v@.len() - i,
    {
        let ghost prev = out@;
        proof {
            assert(paths_of(v@.subrange(0, i as int + 1)) =~= paths_of(v@.subrange(0, i as int)).push(
                v@[i as int]@,
            ));
            paths_of(v@.subrange(0, i as int)).lemma_push_to_set_commute(v@[i as int]@);
        }
        if holds_path(keep, &v[i]) {
            out.push(v[i].clone());
            proof {
                assert(paths_of(out@) =~= paths_of(prev).push(v@[i as int]@));
                paths_of(prev).lemma_push_to_set_commute(v@[i as int]@);
            }
        }
        i = i + 1;
        assert(path_set(out@) =~= path_set(v@.subrange(0, i as int)).intersect(path_set(keep@)));
    }
    assert(v@.subrange(0, v@.len() as int) =~= v@);
    out
}

impl Index {
    /// The files that may contain `query`: those listed for every trigram of
    /// its `n - 2` windows that the index has a posting for. A query shorter
    /// than three bytes has no window and yields every file.
    pub fn get_candidates(&self, query: &str) -> (r: Vec<String>)
        ensures
            forall|f: Seq<char>|
                #![trigger path_set(r@).contains(f)]
                path_set(r@).contains(f) <==> path_set(self.files@).contains(f) && forall|i: int|
                    0 <= i < scan_count(query.spec_bytes().len()) ==> #[trigger] passes_window(
                        self.trigrams_to_files@,
                        query.spec_bytes(),
                        i,
                        f,
                    ),
    {
        broadcast use vstd::std_specs::hash::group_hash_axioms;

        let query_bytes = query.as_bytes();
        let ghost qb = query_bytes@;
        let ghost ps = self.trigrams_to_files@;
        let trigrams = scan_buffer(query_bytes);
        let mut candidates: Vec<String> = Vec::new();
        let mut j: usize = 0;
        while j < self.files.len()
            invariant
                j <= self.files@.len(),
                paths_of(candidates@) == paths_of(self.files@.subrange(0, j as int)),
            decreases self.files@.len() - j,
        {
            let ghost prev = candidates@;
            let c = self.files[j].clone();
            candidates.push(c);
            assert(paths_of(candidates@) =~= paths_of(prev).push(c@));
            assert(paths_of(self.files@.subrange(0, j as int + 1)) =~= paths_of(
                self.files@.subrange(0, j as int),
            ).push(self.files@[j as int]@));
            j = j + 1;
            assert(paths_of(candidates@) =~= paths_of(self.files@.subrange(0, j as int)));
        }
        assert(self.files@.subrange(0, self.files@.len() as int) =~= self.files@);
        let mut k: usize = 0;
        while k < trigrams.len()
            invariant
                k <= trigrams@.len(),
                qb == query_bytes@,
                qb == query.spec_bytes(),
                ps == self.trigrams_to_files@,
                trigrams@.len() == scan_count(qb.len()),
                forall|i: int| 0 <= i < trigrams@.len() ==> trigrams@[i] == trigram_at(qb, i),
                forall|f: Seq<char>|
                    #![trigger path_set(candidates@).contains(f)]
                    path_set(candidates@).contains(f) <==> path_set(self.files@).contains(f)
                        && forall|i: int| 0 <= i < k ==> #[trigger] passes_window(ps, qb, i, f),
            decreases trigrams@.len() - k,
        {
            let ghost before = path_set(candidates@);
            let t = trigrams[k];
            let code = t.to_u32();
            match self.trigrams_to_files.get(&code) {
                Some(listed) => {
                    candidates = keep_listed(&candidates, listed);
                },
                None => {},
            }
            proof {
                assert forall|f: Seq<char>| #[trigger]
                    path_set(candidates@).contains(f) <==> path_set(self.files@).contains(f)
                        && forall|i: int| 0 <= i < k + 1 ==> #[trigger] passes_window(ps, qb, i, f) by {
                    assert(before.contains(f) <==> path_set(self.files@).contains(f) && forall|i: int|
                        0 <= i < k ==> #[trigger] passes_window(ps, qb, i, f));
                    if forall|i: int| 0 <= i < k + 1 ==> #[trigger] passes_window(ps, qb, i, f) {
                        assert(passes_window(ps, qb, k as int, f));
                    }
                }
            }
            k = k + 1;
        }
        candidates
    }
}

} // verus!
