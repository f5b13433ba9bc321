//! File entries, leaf chunks and the flat search over them.
use vstd::prelude::*;
use crate::bloom::{BloomFilter, bloom_of, covers, lemma_covers_transitive, zero_filter, lemma_zero_covered};
use crate::trigram::{Trigram, text_trigram_codes, text_codes, normalized, normalized_bytes};

verus! {

/// Number of bits that a file's filter is sized for.
pub const BLOOM_FILTER_BITS: usize = 714;

/// Number of 64-bit words in every filter of an index.
pub const BLOOM_FILTER_SIZE: usize = (BLOOM_FILTER_BITS + 63) / 64;

/// The filter of the trigrams of the normalised form of `text`.
pub open spec fn text_filter(text: Seq<char>) -> Seq<u64> {
    bloom_of(text_codes(text), BLOOM_FILTER_SIZE as nat)
}

/// Builds the filter of the trigrams of the normalised form of `text`.
pub fn text_bloom_filter(text: &str) -> (r: BloomFilter)
    ensures
        r@ == text_filter(text@),
{
    let codes = text_trigram_codes(text);
    BloomFilter::new(codes.as_slice(), BLOOM_FILTER_SIZE)
}

/// A path and the filter of the trigrams of its text, as plain values.
pub type EntryView = (Seq<char>, Seq<u64>);

/// One indexed file: its path and the filter of its trigrams.
pub struct FileEntry {
    pub file_path: String,
    pub bloom_filter: BloomFilter,
}

impl View for FileEntry {
    type V = EntryView;

    open spec fn view(&self) -> EntryView {
        (self.file_path@, self.bloom_filter@)
    }
}

impl FileEntry {
    /// The entry of the file at `file_path` whose text is `file_text`.
    pub fn from_text(file_path: &str, file_text: &str) -> (r: FileEntry)
        ensures
            r@ == (file_path@, text_filter(file_text@)),
    {
        FileEntry { file_path: file_path.to_string(), bloom_filter: text_bloom_filter(file_text) }
    }

    /// An entry with the same path and filter.
    pub fn duplicate(&self) -> (r: FileEntry)
        ensures
            r@ == self@,
    {
        FileEntry { file_path: self.file_path.clone(), bloom_filter: self.bloom_filter.duplicate() }
    }
}

/// The views of a sequence of entries.
pub open spec fn entries_view(es: Seq<FileEntry>) -> Seq<EntryView> {
    es.map_values(|e: FileEntry| e@)
}

/// Every entry's filter has `w` words.
pub open spec fn entries_width(es: Seq<EntryView>, w: nat) -> bool {
    forall|i: int| 0 <= i < es.len() ==> (#[trigger] es[i]).1.len() == w
}

/// The paths of the entries of `es` whose filters cover `q`.
pub open spec fn matching_paths(es: Seq<EntryView>, q: Seq<u64>) -> Set<Seq<char>>
    decreases es.len(),
{
    if es.len() == 0 {
        Set::empty()
    } else {
        let rest = matching_paths(es.drop_first(), q);
        if covers(es[0].1, q) {
            rest.insert(es[0].0)
        } else {
            rest
        }
    }
}

/// The paths held in `v`, in order.
pub open spec fn paths_of(v: Seq<String>) -> Seq<Seq<char>> {
    v.map_values(|s: String| s@)
}

/// The paths held in `v`, as a set.
pub open spec fn path_set(v: Seq<String>) -> Set<Seq<char>> {
    paths_of(v).to_set()
}

/// No path occurs twice in `v`.
pub open spec fn distinct_paths(v: Seq<String>) -> bool {
    paths_of(v).no_duplicates()
}

pub proof fn lemma_matching_paths_append(a: Seq<EntryView>, b: Seq<EntryView>, q: Seq<u64>)
    ensures
        matching_paths(a + b, q) == matching_paths(a, q).union(matching_paths(b, q)),
    decreases a.len(),
{
    if a.len() == 0 {
        assert(a + b =~= b);
        assert(matching_paths(a, q).union(matching_paths(b, q)) =~= matching_paths(b, q));
    } else {
        assert((a + b).drop_first() =~= a.drop_first() + b);
        lemma_matching_paths_append(a.drop_first(), b, q);
        assert(matching_paths(a + b, q) =~= matching_paths(a, q).union(matching_paths(b, q)));
    }
}

/// A path is among the matches exactly when some entry with that path covers `q`.
pub proof fn lemma_matching_paths_member(es: Seq<EntryView>, q: Seq<u64>, p: Seq<char>)
    ensures
        matching_paths(es, q).contains(p) <==> exists|i: int|
            0 <= i < es.len() && (#[trigger] es[i]).0 == p && covers(es[i].1, q),
    decreases es.len(),
{
    if es.len() > 0 {
        lemma_matching_paths_member(es.drop_first(), q, p);
        if matching_paths(es, q).contains(p) {
            if !(covers(es[0].1, q) && es[0].0 == p) {
                let j = choose|j: int|
                    0 <= j < es.drop_first().len() && (#[trigger] es.drop_first()[j]).0 == p
                        && covers(es.drop_first()[j].1, q);
                assert(es[j + 1] == es.drop_first()[j]);
            }
        }
        if exists|i: int| 0 <= i < es.len() && (#[trigger] es[i]).0 == p && covers(es[i].1, q) {
            let i = choose|i: int| 0 <= i < es.len() && (#[trigger] es[i]).0 == p && covers(es[i].1, q);
            if i > 0 {
                assert(es.drop_first()[i - 1] == es[i]);
            }
        }
    }
}

/// Where `f` covers every entry's filter but not `q`, no entry matches `q`.
pub proof fn lemma_no_match_under_pruned(es: Seq<EntryView>, f: Seq<u64>, q: Seq<u64>)
    requires
        forall|i: int| 0 <= i < es.len() ==> covers(f, (#[trigger] es[i]).1),
        f.len() == q.len(),
        !covers(f, q),
    ensures
        matching_paths(es, q) == Set::<Seq<char>>::empty(),
    decreases es.len(),
{
    if es.len() > 0 {
        if covers(es[0].1, q) {
            lemma_covers_transitive(f, es[0].1, q);
        }
        assert forall|i: int| 0 <= i < es.drop_first().len() implies covers(
            f,
            (#[trigger] es.drop_first()[i]).1,
        ) by {
            assert(es.drop_first()[i] == es[i + 1]);
        }
        lemma_no_match_under_pruned(es.drop_first(), f, q);
    }
}

/// The paths of all entries of `es`.
pub open spec fn all_paths(es: Seq<EntryView>) -> Set<Seq<char>> {
    Set::new(|p: Seq<char>| exists|i: int| 0 <= i < es.len() && (#[trigger] es[i]).0 == p)
}

/// A query with fewer than three letters and digits has the all-zero filter,
/// so it matches every entry of the index width: a short query narrows
/// nothing.
pub proof fn lemma_short_query_matches_all(es: Seq<EntryView>, query: Seq<char>)
    requires
        normalized(query).len() < 3,
        entries_width(es, BLOOM_FILTER_SIZE as nat),
    ensures
        text_filter(query) == zero_filter(BLOOM_FILTER_SIZE as nat),
        matching_paths(es, text_filter(query)) == all_paths(es),
{
    let w = BLOOM_FILTER_SIZE as nat;
    assert(normalized_bytes(query).len() == normalized(query).len());
    assert(text_codes(query) =~= Seq::<u32>::empty());
    assert(text_filter(query) =~= zero_filter(w));
    assert forall|i: int| 0 <= i < es.len() implies covers(
        (#[trigger] es[i]).1,
        zero_filter(w),
    ) by {
        lemma_zero_covered(es[i].1);
    }
    assert forall|p: Seq<char>| matching_paths(es, zero_filter(w)).contains(p) == all_paths(
        es,
    ).contains(p) by {
        lemma_matching_paths_member(es, zero_filter(w), p);
    }
    assert(matching_paths(es, zero_filter(w)) =~= all_paths(es));
}

/// Whether `files` holds `path`.
pub(crate) fn holds_path(files: &Vec<String>, path: &String) -> (r: bool)
    ensures
        r == path_set(files@).contains(path@),
{
    let mut i: usize = 0;
    while i < files.len()
        invariant
            i <= files@.len(),
            forall|j: int| 0 <= j < i ==> files@[j]@ != path@,
        decreases files@.len() - i,
    {
        if files[i] == *path {
            assert(paths_of(files@)[i as int] == path@);
            return true;
        }
        i = i + 1;
    }
    proof {
        if path_set(files@).contains(path@) {
            let j = choose|j: int|
                0 <= j < files@.len() && #[trigger] paths_of(files@)[j] == path@;
        }
    }
    false
}

/// Adds `path` to `files` unless it is already there.
pub(crate) fn insert_path(files: &mut Vec<String>, path: &String)
    requires
        distinct_paths(old(files)@),
    ensures
        path_set(final(files)@) == path_set(old(files)@).insert(path@),
        distinct_paths(final(files)@),
{
    if !holds_path(files, path) {
        let ghost before = files@;
        files.push(path.clone());
        proof {
            let vb = paths_of(before);
            let va = paths_of(files@);
            assert(va =~= vb.push(path@));
            assert(path_set(files@) =~= path_set(before).insert(path@)) by {
                vb.lemma_push_to_set_commute(path@);
            }
        }
    } else {
        assert(path_set(files@).insert(path@) =~= path_set(files@));
    }
}

/// A leaf chunk: an ordered list of file entries, with counts of trigram
/// occurrences where they are tracked.
pub struct Index {
    pub files: Vec<FileEntry>,
    pub trigram_counts: Option<Vec<(Trigram, usize)>>,
}

/// The counts of `s` never increase: the most frequent trigrams come first.
pub open spec fn sorted_by_count(s: Seq<(Trigram, usize)>) -> bool {
    forall|i: int, j: int| 0 <= i < j < s.len() ==> s[i].1 >= s[j].1
}

impl View for Index {
    type V = Seq<EntryView>;

    open spec fn view(&self) -> Seq<EntryView> {
        entries_view(self.files@)
    }
}

impl Index {
    /// An index with no files.
    pub fn new() -> (r: Index)
        ensures
            r@ == Seq::<EntryView>::empty(),
    {
        let r = Index { files: Vec::new(), trigram_counts: None };
        assert(r@ =~= Seq::<EntryView>::empty());
        r
    }

    /// Appends `file` to the index.
    pub fn add_file(&mut self, file: FileEntry)
        ensures
            final(self)@ == old(self)@.push(file@),
    {
        self.files.push(file);
        assert(self@ =~= old(self)@.push(file@));
    }

    /// Number of entries in the index.
    pub fn files_count(&self) -> (r: usize)
        ensures
            r == self@.len(),
    {
        self.files.len()
    }

    /// The tracked trigram counts, most frequent first (equal counts keep
    /// their order); none where counts are not tracked.
    pub fn trigram_stats(&self) -> (r: Option<Vec<(Trigram, usize)>>)
        ensures
            r is None <==> self.trigram_counts is None,
            r matches Some(v) ==> v@.to_multiset() == self.trigram_counts->Some_0@.to_multiset()
                && sorted_by_count(v@),
    {
        match &self.trigram_counts {
            None => None,
            Some(counts) => {
                let mut out: Vec<(Trigram, usize)> = Vec::new();
                let mut i: usize = 0;
                proof {
                    assert(counts@.subrange(0, 0) =~= Seq::<(Trigram, usize)>::empty());
                    assert(out@ =~= Seq::<(Trigram, usize)>::empty());
                }
                while i < counts.len()
                    invariant
                        i <= counts@.len(),
                        sorted_by_count(out@),
                        out@.to_multiset() == counts@.subrange(0, i as int).to_multiset(),
                    decreases counts@.len() - i,
                {
                    let x = counts[i];
                    let mut pos: usize = 0;
                    while pos < out.len() && out[pos].1 >= x.1
                        invariant
                            pos <= out@.len(),
                            forall|k: int| 0 <= k < pos ==> out@[k].1 >= x.1,
                        decreases out@.len() - pos,
                    {
                        pos = pos + 1;
                    }
                    let ghost before = out@;
                    proof {
                        if pos < before.len() {
                            assert(before[pos as int].1 < x.1);
                        }
                        vstd::seq_lib::to_multiset_insert(before, pos as int, x);
                        vstd::seq_lib::to_multiset_build(counts@.subrange(0, i as int), x);
                        assert(counts@.subrange(0, i as int + 1) =~= counts@.subrange(
                            0,
                            i as int,
                        ).push(x));
                    }
                    out.insert(pos, x);
                    proof {
                        assert(out@ == before.insert(pos as int, x));
                        assert forall|a: int, b: int| 0 <= a < b < out@.len() implies out@[a].1
                            >= out@[b].1 by {
                            if b < pos {
                                assert(out@[a] == before[a] && out@[b] == before[b]);
                            } else if b == pos {
                                assert(out@[a] == before[a]);
                            } else if a < pos {
                                assert(out@[a] == before[a] && out@[b] == before[b - 1]);
                                assert(before[pos as int].1 < x.1);
                                assert(before[pos as int].1 >= before[b - 1].1 || pos == b - 1);
                            } else if a == pos {
                                assert(out@[b] == before[b - 1]);
                                assert(before[pos as int].1 < x.1);
                                assert(before[pos as int].1 >= before[b - 1].1 || pos == b - 1);
                            } else {
                                assert(out@[a] == before[a - 1] && out@[b] == before[b - 1]);
                            }
                        }
                    }
                    i = i + 1;
                }
                assert(counts@.subrange(0, counts@.len() as int) =~= counts@);
                Some(out)
            },
        }
    }

    /// Whether every entry's filter has the index width.
    pub fn has_index_width(&self) -> (r: bool)
        ensures
            r == entries_width(self@, BLOOM_FILTER_SIZE as nat),
    {
        let mut i: usize = 0;
        while i < self.files.len()
            invariant
                i <= self@.len(),
                forall|k: int| 0 <= k < i ==> (#[trigger] self@[k]).1.len() == BLOOM_FILTER_SIZE,
            decreases self@.len() - i,
        {
            assert(self@[i as int] == self.files@[i as int]@);
            if self.files[i].bloom_filter.filter_array.len() != BLOOM_FILTER_SIZE {
                return false;
            }
            i = i + 1;
        }
        true
    }

    /// An index with the same entries.
    pub fn duplicate(&self) -> (r: Index)
        ensures
            r@ == self@,
    {
        let mut files: Vec<FileEntry> = Vec::new();
        let mut i: usize = 0;
        while i < self.files.len()
            invariant
                i <= self.files@.len(),
                entries_view(files@) == self@.subrange(0, i as int),
            decreases self.files@.len() - i,
        {
            let e = self.files[i].duplicate();
            assert(e@ == self@[i as int]);
            let ghost prev = files@;
            files.push(e);
            assert(entries_view(files@) =~= entries_view(prev).push(e@));
            i = i + 1;
            assert(entries_view(files@) =~= self@.subrange(0, i as int));
        }
        assert(self@.subrange(0, self@.len() as int) =~= self@);
        Index { files, trigram_counts: None }
    }

    /// Adds to `results` the path of every entry whose filter covers `query`,
    /// and returns the number of filters compared. A filter of another width
    /// than the query's covers nothing.
    pub fn collect_matches(&self, query: &BloomFilter, results: &mut Vec<String>) -> (r: usize)
        requires
            distinct_paths(old(results)@),
        ensures
            path_set(final(results)@) == path_set(old(results)@).union(
                matching_paths(self@, query@),
            ),
            distinct_paths(final(results)@),
            r == self@.len(),
    {
        let mut i: usize = 0;
        while i < self.files.len()
            invariant
                i <= self@.len(),
                distinct_paths(results@),
                path_set(results@) == path_set(old(results)@).union(
                    matching_paths(self@.subrange(0, i as int), query@),
                ),
            decreases self@.len() - i,
        {
            let file = &self.files[i];
            assert(self@[i as int] == file@);
            let ghost s = self@.subrange(0, i as int);
            let ghost one = seq![file@];
            proof {
                assert(self@.subrange(0, i as int + 1) =~= s + one);
                lemma_matching_paths_append(s, one, query@);
                assert(one.drop_first() =~= Seq::<EntryView>::empty());
                assert(matching_paths(one.drop_first(), query@) == Set::<Seq<char>>::empty());
                assert(one[0] == file@);
            }
            if file.bloom_filter.filter_array.len() == query.filter_array.len()
                && file.bloom_filter.possibly_contains(query) {
                insert_path(results, &file.file_path);
                assert(matching_paths(one, query@) == Set::<Seq<char>>::empty().insert(file@.0));
                assert(path_set(results@) =~= path_set(old(results)@).union(
                    matching_paths(self@.subrange(0, i as int + 1), query@),
                ));
            } else {
                assert(matching_paths(one, query@) == Set::<Seq<char>>::empty());
                assert(path_set(results@) =~= path_set(old(results)@).union(
                    matching_paths(self@.subrange(0, i as int + 1), query@),
                ));
            }
            i = i + 1;
        }
        assert(self@.subrange(0, self@.len() as int) =~= self@);
        self.files.len()
    }

    /// The paths of the entries whose filters cover the filter of `query`:
    /// every entry that may contain the query's trigrams. A query with fewer
    /// than three letters and digits has the all-zero filter, which every
    /// entry covers.
    pub fn search_files(&self, query: &str) -> (r: Vec<String>)
        requires
            entries_width(self@, BLOOM_FILTER_SIZE as nat),
        ensures
            path_set(r@) == matching_paths(self@, text_filter(query@)),
            distinct_paths(r@),
    {
        let query_bloom_filter = text_bloom_filter(query);
        let mut results: Vec<String> = Vec::new();
        proof {
            assert(distinct_paths(results@)) by {
                assert(paths_of(results@) =~= Seq::<Seq<char>>::empty());
            }
            assert(path_set(results@) =~= Set::<Seq<char>>::empty()) by {
                assert(paths_of(results@) =~= Seq::<Seq<char>>::empty());
            }
        }
        self.collect_matches(&query_bloom_filter, &mut results);
        assert(path_set(results@) =~= matching_paths(self@, text_filter(query@)));
        results
    }
}

} // verus!
