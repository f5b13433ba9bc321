//! The index tree: interior nodes hold the union of the filters below them,
//! and bottom nodes refer by name to leaf chunks of file entries.
use vstd::prelude::*;
use vstd::seq_lib::lemma_flatten_concat;
use crate::bloom::{
    BloomFilter, covers, union_of, union_word, lemma_bloom_subset_covered, zero_filter, all_width, filters_view,
    lemma_union_covers_each, lemma_covers_transitive,
};
use crate::batching::{
    batch_items, vecs_view, per_batch, lemma_batched_flatten, lemma_batches_sizes,
    lemma_halves_count, lemma_batches_index, batches_of,
};
use crate::trigram::{push_char, text_codes, lemma_substring_codes};
use crate::index::{
    FileEntry, entries_width, entries_view,
    Index, EntryView, BLOOM_FILTER_SIZE, matching_paths, path_set,
    distinct_paths, lemma_matching_paths_append, lemma_no_match_under_pruned, text_filter,
    text_bloom_filter, paths_of, lemma_matching_paths_member,
};

verus! {

/// A reference by file name to a stored leaf chunk.
pub struct LazyIndex {
    pub file_name: String,
}

impl LazyIndex {
    /// A reference to the chunk stored under `path`.
    pub fn from_file(path: &str) -> (r: LazyIndex)
        ensures
            r.file_name@ == path@,
    {
        LazyIndex { file_name: path.to_string() }
    }
}

/// A leaf chunk together with the name it is stored under.
pub struct Chunk {
    pub file_name: String,
    pub index: Index,
}

/// A chunk's name and entries, as plain values.
pub type ChunkView = (Seq<char>, Seq<EntryView>);

impl View for Chunk {
    type V = ChunkView;

    open spec fn view(&self) -> ChunkView {
        (self.file_name@, self.index@)
    }
}

/// The views of a sequence of chunks.
pub open spec fn store_view(cs: Seq<Chunk>) -> Seq<ChunkView> {
    cs.map_values(|c: Chunk| c@)
}

/// The entries of the first chunk of `store` named `name`; none if there is
/// no such chunk.
pub open spec fn lookup(store: Seq<ChunkView>, name: Seq<char>) -> Seq<EntryView>
    decreases store.len(),
{
    if store.len() == 0 {
        Seq::empty()
    } else if store[0].0 == name {
        store[0].1
    } else {
        lookup(store.drop_first(), name)
    }
}

/// The entries of the chunks in `cs`, one chunk after another.
pub open spec fn chunk_entries(cs: Seq<ChunkView>) -> Seq<EntryView>
    decreases cs.len(),
{
    if cs.len() == 0 {
        Seq::empty()
    } else {
        chunk_entries(cs.drop_last()) + cs.last().1
    }
}

/// The entries that the references `leaves` resolve to in `store`.
pub open spec fn leaf_entries(leaves: Seq<LazyIndex>, store: Seq<ChunkView>) -> Seq<EntryView>
    decreases leaves.len(),
{
    if leaves.len() == 0 {
        Seq::empty()
    } else {
        leaf_entries(leaves.drop_last(), store) + lookup(store, leaves.last().file_name@)
    }
}

/// A node of the index tree.
pub struct IndexTree {
    pub child_indexes: Vec<LazyIndex>,
    pub child_nodes: Vec<IndexTree>,
    pub bloom_filter: BloomFilter,
    pub files_count: usize,
}

/// The entries below `t` from its child node `k` on: those of each child node
/// in turn, then those of its leaf chunks.
pub open spec fn entries_from(t: IndexTree, k: int, store: Seq<ChunkView>) -> Seq<EntryView>
    decreases t, t.child_nodes@.len() - k,
{
    if 0 <= k < t.child_nodes@.len() {
        entries_from(t.child_nodes@[k], 0, store) + entries_from(t, k + 1, store)
    } else {
        leaf_entries(t.child_indexes@, store)
    }
}

/// All entries below `t`, depth first, child nodes before leaf chunks.
pub open spec fn tree_entries(t: IndexTree, store: Seq<ChunkView>) -> Seq<EntryView> {
    entries_from(t, 0, store)
}

/// The entries below each of `ns` in turn.
pub open spec fn nodes_entries(ns: Seq<IndexTree>, store: Seq<ChunkView>) -> Seq<EntryView>
    decreases ns.len(),
{
    if ns.len() == 0 {
        Seq::empty()
    } else {
        nodes_entries(ns.drop_last(), store) + tree_entries(ns.last(), store)
    }
}

/// `f` covers the filter of every entry of `es`.
pub open spec fn covers_entries(f: Seq<u64>, es: Seq<EntryView>) -> bool {
    forall|i: int| 0 <= i < es.len() ==> covers(f, (#[trigger] es[i]).1)
}

/// The word-wise OR of the filters of the entries `es`; all zero where there
/// are none.
pub open spec fn entries_union(es: Seq<EntryView>) -> Seq<u64> {
    union_of(entry_filters(es), BLOOM_FILTER_SIZE as nat)
}

proof fn lemma_union_word_append(a: Seq<Seq<u64>>, b: Seq<Seq<u64>>, i: int)
    ensures
        union_word(a + b, i) == union_word(a, i) | union_word(b, i),
    decreases b.len(),
{
    let ua = union_word(a, i);
    if b.len() == 0 {
        assert(a + b =~= a);
        assert(ua | 0 == ua) by (bit_vector);
    } else {
        assert((a + b).drop_last() =~= a + b.drop_last());
        assert((a + b).last() == b.last());
        lemma_union_word_append(a, b.drop_last(), i);
        let ub = union_word(b.drop_last(), i);
        let l = b.last()[i];
        assert((ua | ub) | l == ua | (ub | l)) by (bit_vector);
    }
}

proof fn lemma_entry_filters_append(a: Seq<EntryView>, b: Seq<EntryView>)
    ensures
        entry_filters(a + b) == entry_filters(a) + entry_filters(b),
{
    assert(entry_filters(a + b) =~= entry_filters(a) + entry_filters(b));
}

/// The union of the filters of well-formed nodes is the union of the filters
/// of the entries below them.
proof fn lemma_nodes_union(ns: Seq<IndexTree>, store: Seq<ChunkView>, i: int)
    requires
        0 <= i < BLOOM_FILTER_SIZE,
        forall|k: int| 0 <= k < ns.len() ==> #[trigger] well_formed(ns[k], store),
    ensures
        union_word(node_filters(ns), i) == union_word(entry_filters(nodes_entries(ns, store)), i),
    decreases ns.len(),
{
    if ns.len() == 0 {
        assert(node_filters(ns) =~= Seq::<Seq<u64>>::empty());
        assert(nodes_entries(ns, store) == Seq::<EntryView>::empty());
        assert(entry_filters(Seq::<EntryView>::empty()) =~= Seq::<Seq<u64>>::empty());
    } else {
        let init = ns.drop_last();
        let last = ns.last();
        assert(well_formed(ns[ns.len() - 1], store));
        lemma_well_formed_unfold(last, store);
        assert forall|k: int| 0 <= k < init.len() implies #[trigger] well_formed(init[k], store) by {
            assert(init[k] == ns[k]);
        }
        lemma_nodes_union(init, store, i);
        assert(node_filters(ns).drop_last() =~= node_filters(init));
        assert(node_filters(ns).last() == last.bloom_filter@);
        assert(nodes_entries(ns, store) == nodes_entries(init, store) + tree_entries(last, store));
        let ea = entry_filters(nodes_entries(init, store));
        let eb = entry_filters(tree_entries(last, store));
        lemma_entry_filters_append(nodes_entries(init, store), tree_entries(last, store));
        lemma_union_word_append(ea, eb, i);
        assert(last.bloom_filter@[i] == union_word(eb, i));
    }
}

/// `t` has a filter of the index width that is the union of the filters of
/// all entries below it, it counts those entries, and it refers to at most
/// two leaf chunks or to at most two child nodes, but not to both.
pub open spec fn node_well_formed(t: IndexTree, store: Seq<ChunkView>) -> bool {
    &&& t.bloom_filter@.len() == BLOOM_FILTER_SIZE
    &&& t.bloom_filter@ == entries_union(tree_entries(t, store))
    &&& (t.child_indexes@.len() == 0 || t.child_nodes@.len() == 0)
    &&& t.child_indexes@.len() <= CHILDREN_PER_NODE
    &&& t.child_nodes@.len() <= CHILDREN_PER_NODE
    &&& covers_entries(t.bloom_filter@, tree_entries(t, store))
    &&& t.files_count == tree_entries(t, store).len()
}

/// `t` is well formed, and so is every node below its child nodes from `k` on.
pub open spec fn well_formed_from(t: IndexTree, k: int, store: Seq<ChunkView>) -> bool
    decreases t, t.child_nodes@.len() - k,
{
    if 0 <= k < t.child_nodes@.len() {
        well_formed_from(t.child_nodes@[k], 0, store) && well_formed_from(t, k + 1, store)
    } else {
        node_well_formed(t, store)
    }
}

/// `t` and every node below it are well formed.
pub open spec fn well_formed(t: IndexTree, store: Seq<ChunkView>) -> bool {
    well_formed_from(t, 0, store)
}

proof fn lemma_well_formed_from_unfold(t: IndexTree, k: int, store: Seq<ChunkView>)
    requires
        0 <= k <= t.child_nodes@.len(),
    ensures
        well_formed_from(t, k, store) <==> node_well_formed(t, store) && forall|i: int|
            k <= i < t.child_nodes@.len() ==> #[trigger] well_formed(t.child_nodes@[i], store),
    decreases t.child_nodes@.len() - k,
{
    let n = t.child_nodes@.len() as int;
    if k < n {
        lemma_well_formed_from_unfold(t, k + 1, store);
        let c = t.child_nodes@[k];
        assert(well_formed_from(t, k, store) == (well_formed_from(c, 0, store) && well_formed_from(
            t,
            k + 1,
            store,
        )));
        if well_formed_from(t, k, store) {
            assert forall|i: int| k <= i < n implies #[trigger] well_formed(
                t.child_nodes@[i],
                store,
            ) by {
                if i == k {
                    assert(well_formed(c, store));
                }
            }
        }
        if node_well_formed(t, store) && forall|i: int|
            k <= i < n ==> #[trigger] well_formed(t.child_nodes@[i], store) {
            assert(well_formed(t.child_nodes@[k], store));
            assert forall|i: int| k + 1 <= i < n implies #[trigger] well_formed(
                t.child_nodes@[i],
                store,
            ) by {
                assert(k <= i);
            }
        }
    }
}

/// A node is well formed exactly when it is well formed itself and so are its
/// child nodes.
pub proof fn lemma_well_formed_unfold(t: IndexTree, store: Seq<ChunkView>)
    ensures
        well_formed(t, store) <==> node_well_formed(t, store) && forall|i: int|
            0 <= i < t.child_nodes@.len() ==> #[trigger] well_formed(t.child_nodes@[i], store),
{
    lemma_well_formed_from_unfold(t, 0, store);
}

/// The filters of the nodes `ns`.
pub open spec fn node_filters(ns: Seq<IndexTree>) -> Seq<Seq<u64>> {
    ns.map_values(|t: IndexTree| t.bloom_filter@)
}

/// The filters of the entries `es`.
pub open spec fn entry_filters(es: Seq<EntryView>) -> Seq<Seq<u64>> {
    es.map_values(|e: EntryView| e.1)
}

/// The sum of the file counts of `ns`.
pub open spec fn count_sum(ns: Seq<IndexTree>) -> int
    decreases ns.len(),
{
    if ns.len() == 0 {
        0
    } else {
        count_sum(ns.drop_last()) + ns.last().files_count
    }
}

/// The filter of a node over `nodes` and the chunks `cs`: the union of the
/// nodes' filters and the filters of the chunks' entries; all zero where there
/// are none.
pub open spec fn node_filter(nodes: Seq<IndexTree>, cs: Seq<ChunkView>) -> Seq<u64> {
    let fs = node_filters(nodes) + entry_filters(chunk_entries(cs));
    if fs.len() == 0 {
        zero_filter(BLOOM_FILTER_SIZE as nat)
    } else {
        union_of(fs, BLOOM_FILTER_SIZE as nat)
    }
}

proof fn lemma_nodes_entries_append(a: Seq<IndexTree>, b: Seq<IndexTree>, store: Seq<ChunkView>)
    ensures
        nodes_entries(a + b, store) == nodes_entries(a, store) + nodes_entries(b, store),
    decreases b.len(),
{
    if b.len() == 0 {
        assert(a + b =~= a);
        assert(nodes_entries(a, store) + nodes_entries(b, store) =~= nodes_entries(a, store));
    } else {
        assert((a + b).drop_last() =~= a + b.drop_last());
        lemma_nodes_entries_append(a, b.drop_last(), store);
        assert(nodes_entries(a + b, store) =~= nodes_entries(a, store) + nodes_entries(b, store));
    }
}

proof fn lemma_chunk_entries_append(a: Seq<ChunkView>, b: Seq<ChunkView>)
    ensures
        chunk_entries(a + b) == chunk_entries(a) + chunk_entries(b),
    decreases b.len(),
{
    if b.len() == 0 {
        assert(a + b =~= a);
        assert(chunk_entries(a) + chunk_entries(b) =~= chunk_entries(a));
    } else {
        assert((a + b).drop_last() =~= a + b.drop_last());
        lemma_chunk_entries_append(a, b.drop_last());
        assert(chunk_entries(a + b) =~= chunk_entries(a) + chunk_entries(b));
    }
}

proof fn lemma_leaf_entries_append(a: Seq<LazyIndex>, b: Seq<LazyIndex>, store: Seq<ChunkView>)
    ensures
        leaf_entries(a + b, store) == leaf_entries(a, store) + leaf_entries(b, store),
    decreases b.len(),
{
    if b.len() == 0 {
        assert(a + b =~= a);
        assert(leaf_entries(a, store) + leaf_entries(b, store) =~= leaf_entries(a, store));
    } else {
        assert((a + b).drop_last() =~= a + b.drop_last());
        lemma_leaf_entries_append(a, b.drop_last(), store);
        assert(leaf_entries(a + b, store) =~= leaf_entries(a, store) + leaf_entries(b, store));
    }
}

proof fn lemma_count_sum_append(a: Seq<IndexTree>, b: Seq<IndexTree>)
    ensures
        count_sum(a + b) == count_sum(a) + count_sum(b),
        count_sum(a) >= 0,
    decreases b.len(),
{
    lemma_count_sum_nonneg(a);
    if b.len() == 0 {
        assert(a + b =~= a);
    } else {
        assert((a + b).drop_last() =~= a + b.drop_last());
        lemma_count_sum_append(a, b.drop_last());
    }
}

proof fn lemma_count_sum_nonneg(a: Seq<IndexTree>)
    ensures
        count_sum(a) >= 0,
    decreases a.len(),
{
    if a.len() > 0 {
        lemma_count_sum_nonneg(a.drop_last());
    }
}

proof fn lemma_nodes_entries_single(t: IndexTree, store: Seq<ChunkView>)
    ensures
        nodes_entries(seq![t], store) == tree_entries(t, store),
{
    assert(seq![t].drop_last() =~= Seq::<IndexTree>::empty());
    assert(seq![t].last() == t);
    assert(nodes_entries(Seq::<IndexTree>::empty(), store) == Seq::<EntryView>::empty());
    assert(nodes_entries(seq![t], store) =~= tree_entries(t, store));
}

/// The entries below a node are those of its child nodes, then those of its
/// leaf chunks.
proof fn lemma_entries_from_split(t: IndexTree, k: int, store: Seq<ChunkView>)
    requires
        0 <= k <= t.child_nodes@.len(),
    ensures
        entries_from(t, k, store) == nodes_entries(
            t.child_nodes@.subrange(k, t.child_nodes@.len() as int),
            store,
        ) + leaf_entries(t.child_indexes@, store),
    decreases t.child_nodes@.len() - k,
{
    let n = t.child_nodes@.len() as int;
    let l = leaf_entries(t.child_indexes@, store);
    if k == n {
        assert(t.child_nodes@.subrange(k, n) =~= Seq::<IndexTree>::empty());
        assert(nodes_entries(Seq::<IndexTree>::empty(), store) + l =~= l);
    } else {
        lemma_entries_from_split(t, k + 1, store);
        let c = t.child_nodes@[k];
        let rest = t.child_nodes@.subrange(k + 1, n);
        assert(t.child_nodes@.subrange(k, n) =~= seq![c] + rest);
        lemma_nodes_entries_append(seq![c], rest, store);
        lemma_nodes_entries_single(c, store);
        assert(entries_from(t, k, store) =~= nodes_entries(t.child_nodes@.subrange(k, n), store)
            + l);
    }
}

/// The entries below a node are those of its child nodes, then those of its
/// leaf chunks.
pub proof fn lemma_tree_entries_split(t: IndexTree, store: Seq<ChunkView>)
    ensures
        tree_entries(t, store) == nodes_entries(t.child_nodes@, store) + leaf_entries(
            t.child_indexes@,
            store,
        ),
{
    lemma_entries_from_split(t, 0, store);
    assert(t.child_nodes@.subrange(0, t.child_nodes@.len() as int) =~= t.child_nodes@);
}

/// A node's entries are counted by its count, once it is well formed; so are
/// those of a list of well-formed nodes by the sum of their counts.
proof fn lemma_count_sum_entries(ns: Seq<IndexTree>, store: Seq<ChunkView>)
    requires
        forall|i: int| 0 <= i < ns.len() ==> #[trigger] well_formed(ns[i], store),
    ensures
        count_sum(ns) == nodes_entries(ns, store).len(),
    decreases ns.len(),
{
    if ns.len() > 0 {
        assert(well_formed(ns[ns.len() - 1], store));
        lemma_well_formed_unfold(ns[ns.len() - 1], store);
        assert forall|i: int| 0 <= i < ns.drop_last().len() implies #[trigger] well_formed(
            ns.drop_last()[i],
            store,
        ) by {
            assert(ns.drop_last()[i] == ns[i]);
        }
        lemma_count_sum_entries(ns.drop_last(), store);
    }
}

/// Where `f` covers the filter of each well-formed node of `ns`, it covers the
/// filter of every entry below them.
proof fn lemma_nodes_entries_covered(ns: Seq<IndexTree>, f: Seq<u64>, store: Seq<ChunkView>)
    requires
        forall|i: int| 0 <= i < ns.len() ==> #[trigger] well_formed(ns[i], store),
        forall|i: int| 0 <= i < ns.len() ==> covers(f, (#[trigger] ns[i]).bloom_filter@),
    ensures
        covers_entries(f, nodes_entries(ns, store)),
    decreases ns.len(),
{
    if ns.len() > 0 {
        let init = ns.drop_last();
        let last = ns.last();
        assert(well_formed(ns[ns.len() - 1], store));
        lemma_well_formed_unfold(ns[ns.len() - 1], store);
        assert(covers(f, ns[ns.len() - 1].bloom_filter@));
        assert forall|i: int| 0 <= i < init.len() implies #[trigger] well_formed(init[i], store)
            && covers(f, init[i].bloom_filter@) by {
            assert(init[i] == ns[i]);
        }
        lemma_nodes_entries_covered(init, f, store);
        let a = nodes_entries(init, store);
        let b = tree_entries(last, store);
        assert forall|i: int| 0 <= i < (a + b).len() implies covers(f, (#[trigger] (a + b)[i]).1) by {
            if i < a.len() {
                assert((a + b)[i] == a[i]);
            } else {
                assert((a + b)[i] == b[i - a.len()]);
                assert(covers(last.bloom_filter@, b[i - a.len()].1));
                lemma_covers_transitive(f, last.bloom_filter@, b[i - a.len()].1);
            }
        }
    }
}

/// Where each named chunk of `cs` is what its name resolves to in `store`, the
/// references to them resolve to their entries.
proof fn lemma_leaf_entries_resolve(
    leaves: Seq<LazyIndex>,
    cs: Seq<ChunkView>,
    store: Seq<ChunkView>,
)
    requires
        leaves.len() == cs.len(),
        forall|i: int| 0 <= i < cs.len() ==> (#[trigger] leaves[i]).file_name@ == cs[i].0,
        forall|i: int| 0 <= i < cs.len() ==> lookup(store, (#[trigger] cs[i]).0) == cs[i].1,
    ensures
        leaf_entries(leaves, store) == chunk_entries(cs),
    decreases cs.len(),
{
    if cs.len() > 0 {
        assert(leaves[leaves.len() - 1].file_name@ == cs[cs.len() - 1].0);
        assert(lookup(store, cs[cs.len() - 1].0) == cs[cs.len() - 1].1);
        assert forall|i: int| 0 <= i < cs.drop_last().len() implies (
        #[trigger] leaves.drop_last()[i]).file_name@ == cs.drop_last()[i].0 && lookup(
            store,
            cs.drop_last()[i].0,
        ) == cs.drop_last()[i].1 by {
            assert(leaves.drop_last()[i] == leaves[i]);
            assert(cs.drop_last()[i] == cs[i]);
        }
        lemma_leaf_entries_resolve(leaves.drop_last(), cs.drop_last(), store);
    }
}

/// A node made by `from_nodes` over well-formed nodes and over chunks that
/// `store` resolves is well formed, and holds the nodes' entries followed by
/// the chunks' entries.
pub proof fn lemma_from_nodes_well_formed(
    r: IndexTree,
    nodes: Seq<IndexTree>,
    cs: Seq<ChunkView>,
    store: Seq<ChunkView>,
)
    requires
        forall|i: int| 0 <= i < nodes.len() ==> #[trigger] well_formed(nodes[i], store),
        forall|i: int| 0 <= i < cs.len() ==> lookup(store, (#[trigger] cs[i]).0) == cs[i].1,
        forall|i: int|
            0 <= i < chunk_entries(cs).len() ==> (#[trigger] chunk_entries(cs)[i]).1.len()
                == BLOOM_FILTER_SIZE,
        r.child_nodes@ == nodes,
        r.child_indexes@.len() == cs.len(),
        forall|i: int| 0 <= i < cs.len() ==> (#[trigger] r.child_indexes@[i]).file_name@ == cs[i].0,
        r.bloom_filter@ == node_filter(nodes, cs),
        r.files_count == count_sum(nodes) + chunk_entries(cs).len(),
        nodes.len() == 0 || cs.len() == 0,
        nodes.len() <= CHILDREN_PER_NODE,
        cs.len() <= CHILDREN_PER_NODE,
    ensures
        well_formed(r, store),
        tree_entries(r, store) == nodes_entries(nodes, store) + chunk_entries(cs),
{
    let w = BLOOM_FILTER_SIZE as nat;
    lemma_tree_entries_split(r, store);
    lemma_leaf_entries_resolve(r.child_indexes@, cs, store);
    lemma_count_sum_entries(nodes, store);
    let nf = node_filters(nodes);
    let ef = entry_filters(chunk_entries(cs));
    let fs = nf + ef;
    let f = r.bloom_filter@;
    let a = nodes_entries(nodes, store);
    let b = chunk_entries(cs);
    if fs.len() == 0 {
        assert(nodes.len() == 0);
        assert(a =~= Seq::<EntryView>::empty());
        assert(b.len() == 0);
        assert(tree_entries(r, store) =~= Seq::<EntryView>::empty());
    } else {
        assert(all_width(fs, w)) by {
            assert forall|k: int| 0 <= k < fs.len() implies (#[trigger] fs[k]).len() == w by {
                if k < nf.len() {
                    assert(well_formed(nodes[k], store));
                    lemma_well_formed_unfold(nodes[k], store);
                } else {
                    assert(fs[k] == b[k - nf.len()].1);
                }
            }
        }
        assert forall|i: int| 0 <= i < nodes.len() implies covers(
            f,
            (#[trigger] nodes[i]).bloom_filter@,
        ) by {
            lemma_union_covers_each(fs, w, i);
            assert(fs[i] == nodes[i].bloom_filter@);
        }
        lemma_nodes_entries_covered(nodes, f, store);
        assert forall|i: int| 0 <= i < (a + b).len() implies covers(f, (#[trigger] (a + b)[i]).1) by {
            if i < a.len() {
                assert((a + b)[i] == a[i]);
            } else {
                assert((a + b)[i] == b[i - a.len()]);
                lemma_union_covers_each(fs, w, nf.len() + i - a.len());
                assert(fs[nf.len() + i - a.len()] == b[i - a.len()].1);
            }
        }
    }
    assert(tree_entries(r, store) == a + b);
    assert(f =~= entries_union(a + b)) by {
        assert forall|i: int| 0 <= i < w implies f[i] == entries_union(a + b)[i] by {
            lemma_union_word_append(nf, ef, i);
            lemma_nodes_union(nodes, store, i);
            lemma_entry_filters_append(a, b);
            lemma_union_word_append(entry_filters(a), ef, i);
            if fs.len() == 0 {
                assert(union_word(fs, i) == 0);
            }
        }
    }
    assert(r.files_count == tree_entries(r, store).len());
    assert(r.bloom_filter@.len() == BLOOM_FILTER_SIZE);
    assert(f.len() == w);
    assert(covers_entries(f, a + b));
    assert forall|i: int| 0 <= i < r.child_nodes@.len() implies #[trigger] well_formed(
        r.child_nodes@[i],
        store,
    ) by {
        assert(r.child_nodes@[i] == nodes[i]);
    }
    lemma_well_formed_unfold(r, store);
}

/// Number of child nodes per node when the tree is built.
pub const CHILDREN_PER_NODE: usize = 2;

/// Splitting the concatenation of `gs` around its part `i`.
proof fn lemma_flatten_split<A>(gs: Seq<Seq<A>>, i: int)
    requires
        0 <= i < gs.len(),
    ensures
        gs.flatten() == gs.subrange(0, i).flatten() + gs[i] + gs.subrange(
            i + 1,
            gs.len() as int,
        ).flatten(),
        gs.subrange(0, i + 1).flatten() == gs.subrange(0, i).flatten() + gs[i],
{
    let n = gs.len() as int;
    assert(gs =~= gs.subrange(0, i) + gs.subrange(i, n));
    lemma_flatten_concat(gs.subrange(0, i), gs.subrange(i, n));
    let tail = gs.subrange(i, n);
    assert(tail.first() == gs[i]);
    assert(tail.drop_first() =~= gs.subrange(i + 1, n));
    assert(gs.subrange(0, i + 1) =~= gs.subrange(0, i).push(gs[i]));
    gs.subrange(0, i).lemma_flatten_push(gs[i]);
}

/// The views of a concatenation of chunk lists are the concatenation of their
/// views, and so are their entries.
proof fn lemma_store_view_append(a: Seq<Chunk>, b: Seq<Chunk>)
    ensures
        store_view(a + b) == store_view(a) + store_view(b),
        chunk_entries(store_view(a + b)) == chunk_entries(store_view(a)) + chunk_entries(
            store_view(b),
        ),
{
    assert(store_view(a + b) =~= store_view(a) + store_view(b));
    lemma_chunk_entries_append(store_view(a), store_view(b));
}

/// Whether a chunk of `chunks` is named `name`.
fn name_taken(chunks: &Vec<Chunk>, name: &String) -> (r: bool)
    ensures
        r == exists|i: int| 0 <= i < chunks@.len() && (#[trigger] chunks@[i]).file_name@ == name@,
{
    let mut i: usize = 0;
    while i < chunks.len()
        invariant
            i <= chunks@.len(),
            forall|t: int| 0 <= t < i ==> (#[trigger] chunks@[t]).file_name@ != name@,
        decreases chunks@.len() - i,
    {
        if chunks[i].file_name == *name {
            return true;
        }
        i = i + 1;
    }
    false
}

/// The length of the longest name in `cs`.
pub open spec fn longest_name(cs: Seq<Chunk>) -> nat
    decreases cs.len(),
{
    if cs.len() == 0 {
        0
    } else {
        let rest = longest_name(cs.drop_last());
        if cs.last().file_name@.len() > rest {
            cs.last().file_name@.len()
        } else {
            rest
        }
    }
}

proof fn lemma_longest_name(cs: Seq<Chunk>, i: int)
    requires
        0 <= i < cs.len(),
    ensures
        cs[i].file_name@.len() <= longest_name(cs),
    decreases cs.len(),
{
    if i < cs.len() - 1 {
        assert(cs.drop_last()[i] == cs[i]);
        lemma_longest_name(cs.drop_last(), i);
    }
}

/// Relies on `uuid::Uuid::new_v4` and its display form: a random identifier
/// written as 36 characters (hex digits and hyphens).
#[verifier::external_body]
fn new_uuid() -> (r: String)
    ensures
        r@.len() == 36,
{
    uuid::Uuid::new_v4().to_string()
}

/// `name` lies directly under the directory `dir`: it starts with `dir` and a
/// slash.
pub open spec fn under_dir(name: Seq<char>, dir: Seq<char>) -> bool {
    &&& name.len() > dir.len() + 1
    &&& name.subrange(0, dir.len() as int + 1) == dir.push('/')
}

/// A fresh name under `output_path` that no chunk of `chunks` has: the
/// directory, a slash and a random identifier, with hyphens added in the rare
/// case that the name is taken.
fn unique_chunk_name(output_path: &str, chunks: &Vec<Chunk>) -> (r: String)
    ensures
        forall|i: int| 0 <= i < chunks@.len() ==> (#[trigger] chunks@[i]).file_name@ != r@,
        under_dir(r@, output_path@),
{
    let ghost dir = output_path@;
    let mut name = output_path.to_string();
    push_char(&mut name, '/');
    let id = new_uuid();
    for c in it: id.as_str().chars()
        invariant
            it.seq() == id@,
            name@ == dir.push('/') + id@.subrange(0, it.index() as int),
    {
        push_char(&mut name, c);
        assert(id@.subrange(0, it.index() as int + 1) =~= id@.subrange(0, it.index() as int).push(c));
        assert(name@ =~= dir.push('/') + id@.subrange(0, it.index() as int + 1));
    }
    assert(name@.subrange(0, dir.len() as int + 1) =~= dir.push('/'));
    while name_taken(chunks, &name)
        invariant
            under_dir(name@, dir),
            dir == output_path@,
        decreases longest_name(chunks@) + 1 - name@.len(),
    {
        proof {
            let i = choose|i: int| 0 <= i < chunks@.len() && (#[trigger] chunks@[i]).file_name@ == name@;
            lemma_longest_name(chunks@, i);
        }
        let ghost before = name@;
        push_char(&mut name, '-');
        assert(name@.subrange(0, dir.len() as int + 1) =~= before.subrange(0, dir.len() as int + 1));
    }
    name
}

/// In a well-formed tree, a query whose trigrams all occur in the text of one
/// of its files matches that file: no false negatives.
pub proof fn lemma_search_finds_file(
    t: IndexTree,
    store: Seq<ChunkView>,
    k: int,
    file_text: Seq<char>,
    query: Seq<char>,
)
    requires
        well_formed(t, store),
        0 <= k < tree_entries(t, store).len(),
        tree_entries(t, store)[k].1 == text_filter(file_text),
        forall|j: int|
            0 <= j < text_codes(query).len() ==> text_codes(file_text).contains(
                #[trigger] text_codes(query)[j],
            ),
    ensures
        matching_paths(tree_entries(t, store), text_filter(query)).contains(
            tree_entries(t, store)[k].0,
        ),
{
    let es = tree_entries(t, store);
    lemma_bloom_subset_covered(text_codes(file_text), text_codes(query), BLOOM_FILTER_SIZE as nat);
    lemma_matching_paths_member(es, text_filter(query), es[k].0);
    assert(es[k].0 == es[k].0 && covers(es[k].1, text_filter(query)));
}

/// The paths that a search of `t` for the filter `q` finds from its child
/// node `k` on: nothing where the filter of `t` does not cover `q`; else what
/// it finds below each child node in turn, then the matching entries of its
/// leaf chunks.
pub open spec fn walk_from(t: IndexTree, k: int, q: Seq<u64>, store: Seq<ChunkView>) -> Set<
    Seq<char>,
>
    decreases t, t.child_nodes@.len() - k,
{
    if !covers(t.bloom_filter@, q) {
        Set::empty()
    } else if 0 <= k < t.child_nodes@.len() {
        walk_from(t.child_nodes@[k], 0, q, store).union(walk_from(t, k + 1, q, store))
    } else {
        matching_paths(leaf_entries(t.child_indexes@, store), q)
    }
}

/// The paths that a search of `t` for the filter `q` finds.
pub open spec fn walk_matches(t: IndexTree, q: Seq<u64>, store: Seq<ChunkView>) -> Set<Seq<char>> {
    walk_from(t, 0, q, store)
}

/// The filters of `t`, and of the nodes below its child nodes from `k` on,
/// all have the index width.
pub open spec fn widths_from(t: IndexTree, k: int) -> bool
    decreases t, t.child_nodes@.len() - k,
{
    if 0 <= k < t.child_nodes@.len() {
        widths_from(t.child_nodes@[k], 0) && widths_from(t, k + 1)
    } else {
        t.bloom_filter@.len() == BLOOM_FILTER_SIZE
    }
}

/// Every node filter of `t` has the index width.
pub open spec fn tree_width_ok(t: IndexTree) -> bool {
    widths_from(t, 0)
}

/// Every entry filter of every chunk of `store` has the index width.
pub open spec fn store_width_ok(store: Seq<ChunkView>) -> bool {
    forall|c: int| 0 <= c < store.len() ==> entries_width(#[trigger] store[c].1, BLOOM_FILTER_SIZE as nat)
}

proof fn lemma_well_formed_widths(t: IndexTree, k: int, store: Seq<ChunkView>)
    requires
        well_formed(t, store),
        0 <= k <= t.child_nodes@.len(),
    ensures
        widths_from(t, k),
    decreases t, t.child_nodes@.len() - k,
{
    lemma_well_formed_unfold(t, store);
    if k < t.child_nodes@.len() {
        assert(well_formed(t.child_nodes@[k], store));
        lemma_well_formed_widths(t.child_nodes@[k], 0, store);
        lemma_well_formed_widths(t, k + 1, store);
    }
}

/// `x`, capped at the largest `usize`.
pub open spec fn saturated(x: int) -> int {
    if x > usize::MAX {
        usize::MAX as int
    } else {
        x
    }
}

/// The number of filters that a search of `t` for `q` compares from its child
/// node `k` on: one where the filter of `t` does not cover `q`; else those of
/// each child node in turn, then one per entry of its leaf chunks.
pub open spec fn compared_from(t: IndexTree, k: int, q: Seq<u64>, store: Seq<ChunkView>) -> int
    decreases t, t.child_nodes@.len() - k,
{
    if !covers(t.bloom_filter@, q) {
        1
    } else if 0 <= k < t.child_nodes@.len() {
        compared_from(t.child_nodes@[k], 0, q, store) + compared_from(t, k + 1, q, store)
    } else {
        leaf_entries(t.child_indexes@, store).len() as int
    }
}

/// The number of filters that a search of `t` for `q` compares.
pub open spec fn compared_count(t: IndexTree, q: Seq<u64>, store: Seq<ChunkView>) -> int {
    compared_from(t, 0, q, store)
}

proof fn lemma_compared_nonneg(t: IndexTree, k: int, q: Seq<u64>, store: Seq<ChunkView>)
    requires
        0 <= k <= t.child_nodes@.len(),
    ensures
        compared_from(t, k, q, store) >= 0,
    decreases t, t.child_nodes@.len() - k,
{
    if covers(t.bloom_filter@, q) && k < t.child_nodes@.len() {
        lemma_compared_nonneg(t.child_nodes@[k], 0, q, store);
        lemma_compared_nonneg(t, k + 1, q, store);
    }
}

/// The names that the references `leaves` hold.
pub open spec fn leaf_names(leaves: Seq<LazyIndex>) -> Seq<Seq<char>> {
    leaves.map_values(|l: LazyIndex| l.file_name@)
}

/// The names of the leaf chunks that a search of `t` for `q` reads from its
/// child node `k` on.
pub open spec fn reached_from(t: IndexTree, k: int, q: Seq<u64>) -> Seq<Seq<char>>
    decreases t, t.child_nodes@.len() - k,
{
    if !covers(t.bloom_filter@, q) {
        Seq::empty()
    } else if 0 <= k < t.child_nodes@.len() {
        reached_from(t.child_nodes@[k], 0, q) + reached_from(t, k + 1, q)
    } else {
        leaf_names(t.child_indexes@)
    }
}

/// The names of the leaf chunks that a search of `t` for `q` reads.
pub open spec fn reached_names(t: IndexTree, q: Seq<u64>) -> Seq<Seq<char>> {
    reached_from(t, 0, q)
}

/// The entries of the chunks that the names `ns` resolve to in `store`, one
/// name after another.
pub open spec fn names_entries(store: Seq<ChunkView>, ns: Seq<Seq<char>>) -> Seq<EntryView>
    decreases ns.len(),
{
    if ns.len() == 0 {
        Seq::empty()
    } else {
        names_entries(store, ns.drop_last()) + lookup(store, ns.last())
    }
}

/// The number of nodes that a search of `t` for `q` prunes from its child
/// node `k` on.
pub open spec fn pruned_from(t: IndexTree, k: int, q: Seq<u64>) -> int
    decreases t, t.child_nodes@.len() - k,
{
    if !covers(t.bloom_filter@, q) {
        1
    } else if 0 <= k < t.child_nodes@.len() {
        pruned_from(t.child_nodes@[k], 0, q) + pruned_from(t, k + 1, q)
    } else {
        0
    }
}

proof fn lemma_pruned_nonneg(t: IndexTree, k: int, q: Seq<u64>)
    requires
        0 <= k <= t.child_nodes@.len(),
    ensures
        pruned_from(t, k, q) >= 0,
    decreases t, t.child_nodes@.len() - k,
{
    if covers(t.bloom_filter@, q) && k < t.child_nodes@.len() {
        lemma_pruned_nonneg(t.child_nodes@[k], 0, q);
        lemma_pruned_nonneg(t, k + 1, q);
    }
}

proof fn lemma_names_entries_append(store: Seq<ChunkView>, a: Seq<Seq<char>>, b: Seq<Seq<char>>)
    ensures
        names_entries(store, a + b) == names_entries(store, a) + names_entries(store, b),
    decreases b.len(),
{
    if b.len() == 0 {
        assert(a + b =~= a);
        assert(names_entries(store, a) + names_entries(store, b) =~= names_entries(store, a));
    } else {
        assert((a + b).drop_last() =~= a + b.drop_last());
        assert((a + b).last() == b.last());
        lemma_names_entries_append(store, a, b.drop_last());
        assert(names_entries(store, a + b) =~= names_entries(store, a) + names_entries(store, b));
    }
}

proof fn lemma_leaf_names_entries(leaves: Seq<LazyIndex>, store: Seq<ChunkView>)
    ensures
        leaf_entries(leaves, store) == names_entries(store, leaf_names(leaves)),
    decreases leaves.len(),
{
    if leaves.len() > 0 {
        assert(leaf_names(leaves).drop_last() =~= leaf_names(leaves.drop_last()));
        assert(leaf_names(leaves).last() == leaves.last().file_name@);
        lemma_leaf_names_entries(leaves.drop_last(), store);
    } else {
        assert(leaf_names(leaves) =~= Seq::<Seq<char>>::empty());
    }
}

/// A search can read the chunks one at a time: it finds the matches among
/// the entries of the chunks that `chunks_to_scan` names, in turn, and
/// compares one filter per pruned node and one per entry of those chunks.
pub proof fn lemma_search_by_chunks(t: IndexTree, k: int, q: Seq<u64>, store: Seq<ChunkView>)
    requires
        0 <= k <= t.child_nodes@.len(),
    ensures
        walk_from(t, k, q, store) == matching_paths(names_entries(store, reached_from(t, k, q)), q),
        compared_from(t, k, q, store) == pruned_from(t, k, q) + names_entries(
            store,
            reached_from(t, k, q),
        ).len(),
    decreases t, t.child_nodes@.len() - k,
{
    let n = t.child_nodes@.len() as int;
    if !covers(t.bloom_filter@, q) {
        assert(names_entries(store, Seq::<Seq<char>>::empty()) == Seq::<EntryView>::empty());
        assert(matching_paths(Seq::<EntryView>::empty(), q) == Set::<Seq<char>>::empty());
    } else if k < n {
        let c = t.child_nodes@[k];
        lemma_search_by_chunks(c, 0, q, store);
        lemma_search_by_chunks(t, k + 1, q, store);
        lemma_names_entries_append(store, reached_from(c, 0, q), reached_from(t, k + 1, q));
        lemma_matching_paths_append(
            names_entries(store, reached_from(c, 0, q)),
            names_entries(store, reached_from(t, k + 1, q)),
            q,
        );
    } else {
        lemma_leaf_names_entries(t.child_indexes@, store);
    }
}

proof fn lemma_entries_from_prefix(t: IndexTree, k: int, store: Seq<ChunkView>)
    requires
        0 <= k <= t.child_nodes@.len(),
    ensures
        tree_entries(t, store) == nodes_entries(t.child_nodes@.subrange(0, k), store)
            + entries_from(t, k, store),
{
    let n = t.child_nodes@.len() as int;
    lemma_entries_from_split(t, 0, store);
    lemma_entries_from_split(t, k, store);
    assert(t.child_nodes@.subrange(0, n) =~= t.child_nodes@.subrange(0, k) + t.child_nodes@.subrange(
        k,
        n,
    ));
    lemma_nodes_entries_append(t.child_nodes@.subrange(0, k), t.child_nodes@.subrange(k, n), store);
}

/// In a well-formed tree, the search finds exactly the paths of the entries
/// whose filters cover the query's filter: pruning loses nothing.
pub proof fn lemma_walk_exact(t: IndexTree, k: int, q: Seq<u64>, store: Seq<ChunkView>)
    requires
        well_formed(t, store),
        0 <= k <= t.child_nodes@.len(),
        q.len() == BLOOM_FILTER_SIZE,
    ensures
        walk_from(t, k, q, store) == matching_paths(entries_from(t, k, store), q),
    decreases t, t.child_nodes@.len() - k,
{
    lemma_well_formed_unfold(t, store);
    let n = t.child_nodes@.len() as int;
    if !covers(t.bloom_filter@, q) {
        lemma_entries_from_prefix(t, k, store);
        let pre = nodes_entries(t.child_nodes@.subrange(0, k), store);
        let es = entries_from(t, k, store);
        assert forall|i: int| 0 <= i < es.len() implies covers(t.bloom_filter@, (#[trigger] es[i]).1) by {
            assert(tree_entries(t, store)[pre.len() + i] == es[i]);
        }
        lemma_no_match_under_pruned(es, t.bloom_filter@, q);
    } else if k < n {
        let c = t.child_nodes@[k];
        assert(well_formed(c, store));
        lemma_walk_exact(c, 0, q, store);
        lemma_walk_exact(t, k + 1, q, store);
        lemma_matching_paths_append(entries_from(c, 0, store), entries_from(t, k + 1, store), q);
    }
}

/// A search reads only the chunks it names: stores that agree on those names
/// give the same result.
pub proof fn lemma_walk_reads_reached(
    t: IndexTree,
    k: int,
    q: Seq<u64>,
    s1: Seq<ChunkView>,
    s2: Seq<ChunkView>,
)
    requires
        0 <= k <= t.child_nodes@.len(),
        forall|i: int|
            0 <= i < reached_from(t, k, q).len() ==> lookup(s1, #[trigger] reached_from(t, k, q)[i])
                == lookup(s2, reached_from(t, k, q)[i]),
    ensures
        walk_from(t, k, q, s1) == walk_from(t, k, q, s2),
    decreases t, t.child_nodes@.len() - k,
{
    let n = t.child_nodes@.len() as int;
    if covers(t.bloom_filter@, q) {
        if k < n {
            let c = t.child_nodes@[k];
            let a = reached_from(c, 0, q);
            let b = reached_from(t, k + 1, q);
            assert(reached_from(t, k, q) == a + b);
            assert forall|i: int| 0 <= i < a.len() implies lookup(s1, #[trigger] a[i]) == lookup(
                s2,
                a[i],
            ) by {
                assert((a + b)[i] == a[i]);
            }
            assert forall|i: int| 0 <= i < b.len() implies lookup(s1, #[trigger] b[i]) == lookup(
                s2,
                b[i],
            ) by {
                assert((a + b)[a.len() + i] == b[i]);
            }
            lemma_walk_reads_reached(c, 0, q, s1, s2);
            lemma_walk_reads_reached(t, k + 1, q, s1, s2);
        } else {
            assert(reached_from(t, k, q) == leaf_names(t.child_indexes@));
            lemma_leaf_entries_same(t.child_indexes@, s1, s2);
        }
    }
}

proof fn lemma_leaf_entries_same(leaves: Seq<LazyIndex>, s1: Seq<ChunkView>, s2: Seq<ChunkView>)
    requires
        forall|i: int|
            0 <= i < leaf_names(leaves).len() ==> lookup(s1, #[trigger] leaf_names(leaves)[i])
                == lookup(s2, leaf_names(leaves)[i]),
    ensures
        leaf_entries(leaves, s1) == leaf_entries(leaves, s2),
    decreases leaves.len(),
{
    if leaves.len() > 0 {
        let init = leaves.drop_last();
        assert(leaf_names(leaves)[leaves.len() - 1] == leaves.last().file_name@);
        assert forall|i: int| 0 <= i < leaf_names(init).len() implies lookup(
            s1,
            #[trigger] leaf_names(init)[i],
        ) == lookup(s2, leaf_names(init)[i]) by {
            assert(leaf_names(init)[i] == leaf_names(leaves)[i]);
        }
        lemma_leaf_entries_same(init, s1, s2);
    }
}

/// In a well-formed tree, a query cut from the text of one of its files
/// matches that file.
pub proof fn lemma_search_finds_substring(
    t: IndexTree,
    store: Seq<ChunkView>,
    k: int,
    file_text: Seq<char>,
    query: Seq<char>,
    start: int,
)
    requires
        well_formed(t, store),
        0 <= k < tree_entries(t, store).len(),
        tree_entries(t, store)[k].1 == text_filter(file_text),
        0 <= start,
        start + query.len() <= file_text.len(),
        file_text.subrange(start, start + query.len()) == query,
    ensures
        matching_paths(tree_entries(t, store), text_filter(query)).contains(
            tree_entries(t, store)[k].0,
        ),
{
    lemma_substring_codes(file_text, query, start);
    lemma_search_finds_file(t, store, k, file_text, query);
}

/// No two chunks of `cs` share a name.
pub open spec fn distinct_names(cs: Seq<Chunk>) -> bool {
    forall|i: int, j: int| 0 <= i < j < cs.len() ==> cs[i].file_name@ != cs[j].file_name@
}

/// One chunk per batch, in order, each under a fresh name below `output_path`.
fn make_chunks(batches: Vec<Vec<FileEntry>>, output_path: &str) -> (r: Vec<Chunk>)
    ensures
        distinct_names(r@),
        r@.len() == batches@.len(),
        forall|i: int| 0 <= i < r@.len() ==> under_dir((#[trigger] r@[i]).file_name@, output_path@),
        forall|i: int| 0 <= i < r@.len() ==> (#[trigger] r@[i]).index@ == entries_view(batches@[i]@),
        chunk_entries(store_view(r@)) == entries_view(vecs_view(batches@).flatten()),
{
    let ghost bs = vecs_view(batches@);
    let mut chunks: Vec<Chunk> = Vec::new();
    assert(bs.subrange(0, 0).flatten() =~= Seq::<FileEntry>::empty());
    assert(chunk_entries(store_view(chunks@)) =~= entries_view(Seq::<FileEntry>::empty()));
    for batch in it: batches
        invariant
            bs == vecs_view(it.seq()),
            it.seq().len() == bs.len(),
            it.index() <= bs.len(),
            chunks@.len() == it.index(),
            forall|k: int|
                0 <= k < chunks@.len() ==> under_dir((#[trigger] chunks@[k]).file_name@, output_path@),
            forall|k: int|
                0 <= k < chunks@.len() ==> (#[trigger] chunks@[k]).index@ == entries_view(bs[k]),
            distinct_names(chunks@),
            chunk_entries(store_view(chunks@)) == entries_view(
                bs.subrange(0, it.index() as int).flatten(),
            ),
    {
        let ghost i = it.index() as int;
        assert(batch == it.seq()[i]);
        let name = unique_chunk_name(output_path, &chunks);
        let chunk = Chunk { file_name: name, index: Index { files: batch, trigram_counts: None } };
        let ghost prev = chunks@;
        chunks.push(chunk);
        proof {
            assert forall|k: int| 0 <= k < chunks@.len() implies under_dir(
                (#[trigger] chunks@[k]).file_name@,
                output_path@,
            ) && chunks@[k].index@ == entries_view(bs[k]) by {
                if k < prev.len() {
                    assert(chunks@[k] == prev[k]);
                } else {
                    assert(bs[k] == batch@);
                }
            }
            assert(chunks@ == prev + seq![chunk]);
            lemma_store_view_append(prev, seq![chunk]);
            assert(seq![chunk].drop_last() =~= Seq::<Chunk>::empty());
            assert(store_view(seq![chunk]) =~= seq![chunk@]);
            assert(seq![chunk@].drop_last() =~= Seq::<ChunkView>::empty());
            assert(seq![chunk@].last() == chunk@);
            assert(chunk_entries(Seq::<ChunkView>::empty()) == Seq::<EntryView>::empty());
            assert(chunk_entries(store_view(seq![chunk])) =~= chunk@.1);
            lemma_flatten_split(bs, i);
            assert(bs[i] == batch@);
            assert(entries_view(bs.subrange(0, i).flatten() + bs[i]) =~= entries_view(
                bs.subrange(0, i).flatten(),
            ) + entries_view(bs[i]));
            assert forall|a: int, b: int| 0 <= a < b < chunks@.len() implies chunks@[a].file_name@
                != chunks@[b].file_name@ by {
                if b == chunks@.len() - 1 {
                    assert(prev[a] == chunks@[a]);
                } else {
                    assert(prev[a] == chunks@[a]);
                    assert(prev[b] == chunks@[b]);
                }
            }
        }
    }
    assert(bs.subrange(0, bs.len() as int) =~= bs);
    chunks
}

impl Chunk {
    /// A chunk with the same name and entries.
    pub fn duplicate(&self) -> (r: Chunk)
        ensures
            r@ == self@,
    {
        Chunk { file_name: self.file_name.clone(), index: self.index.duplicate() }
    }
}

fn duplicate_chunks(chunks: &Vec<Chunk>) -> (r: Vec<Chunk>)
    ensures
        store_view(r@) == store_view(chunks@),
{
    let mut copies: Vec<Chunk> = Vec::new();
    let mut i: usize = 0;
    while i < chunks.len()
        invariant
            i <= chunks@.len(),
            store_view(copies@) == store_view(chunks@).subrange(0, i as int),
        decreases chunks@.len() - i,
    {
        let c = chunks[i].duplicate();
        let ghost prev = copies@;
        copies.push(c);
        assert(store_view(copies@) =~= store_view(prev).push(c@));
        i = i + 1;
        assert(store_view(copies@) =~= store_view(chunks@).subrange(0, i as int));
    }
    assert(store_view(chunks@).subrange(0, chunks@.len() as int) =~= store_view(chunks@));
    copies
}

/// One node over each group of chunks, in order.
fn leaf_parents(
    groups: Vec<Vec<Chunk>>,
    Ghost(store): Ghost<Seq<ChunkView>>,
    Ghost(total): Ghost<Seq<EntryView>>,
) -> (r: Vec<IndexTree>)
    requires
        forall|p: int|
            0 <= p < vecs_view(groups@).flatten().len() ==> lookup(
                store,
                (#[trigger] vecs_view(groups@).flatten()[p])@.0,
            ) == vecs_view(groups@).flatten()[p]@.1,
        chunk_entries(store_view(vecs_view(groups@).flatten())) == total,
        entries_width(total, BLOOM_FILTER_SIZE as nat),
        total.len() <= usize::MAX,
        forall|i: int| 0 <= i < groups@.len() ==> (#[trigger] groups@[i])@.len() <= CHILDREN_PER_NODE,
    ensures
        forall|i: int| 0 <= i < r@.len() ==> #[trigger] well_formed(r@[i], store),
        nodes_entries(r@, store) == total,
{
    let ghost gs = vecs_view(groups@);
    assert forall|j: int| 0 <= j < gs.len() implies (#[trigger] gs[j]).len() <= CHILDREN_PER_NODE by {
        assert(gs[j] == groups@[j]@);
    }
    let ghost flat = gs.flatten();
    let mut nodes: Vec<IndexTree> = Vec::new();
    assert(gs.subrange(0, 0).flatten() =~= Seq::<Chunk>::empty());
    assert(store_view(Seq::<Chunk>::empty()) =~= Seq::<ChunkView>::empty());
    assert(chunk_entries(Seq::<ChunkView>::empty()) == Seq::<EntryView>::empty());
    for g in it: groups
        invariant
            gs == vecs_view(it.seq()),
            flat == gs.flatten(),
            it.seq().len() == gs.len(),
            it.index() <= gs.len(),
            forall|p: int|
                0 <= p < flat.len() ==> lookup(store, (#[trigger] flat[p])@.0) == flat[p]@.1,
            chunk_entries(store_view(flat)) == total,
            entries_width(total, BLOOM_FILTER_SIZE as nat),
            total.len() <= usize::MAX,
            forall|j: int| 0 <= j < gs.len() ==> (#[trigger] gs[j]).len() <= CHILDREN_PER_NODE,
            forall|i: int| 0 <= i < nodes@.len() ==> #[trigger] well_formed(nodes@[i], store),
            nodes_entries(nodes@, store) == chunk_entries(
                store_view(gs.subrange(0, it.index() as int).flatten()),
            ),
    {
        let ghost i = it.index() as int;
        let ghost pre = gs.subrange(0, i).flatten();
        let ghost post = gs.subrange(i + 1, gs.len() as int).flatten();
        proof {
            assert(g == it.seq()[i]);
            assert(gs[i] == g@);
            lemma_flatten_split(gs, i);
            lemma_store_view_append(pre + g@, post);
            lemma_store_view_append(pre, g@);
            let ce = chunk_entries(store_view(g@));
            let off = chunk_entries(store_view(pre)).len();
            assert forall|t: int| 0 <= t < ce.len() implies (#[trigger] ce[t]).1.len()
                == BLOOM_FILTER_SIZE by {
                assert(total[off + t] == ce[t]);
            }
            assert forall|t: int| 0 <= t < g@.len() implies lookup(
                store,
                (#[trigger] store_view(g@)[t]).0,
            ) == store_view(g@)[t].1 by {
                assert(flat[pre.len() + t] == g@[t]);
            }
            assert(count_sum(Seq::<IndexTree>::empty()) == 0);
            assert(ce.len() <= total.len());
        }
        let no_nodes: Vec<IndexTree> = Vec::new();
        let node = IndexTree::from_nodes(g.as_slice(), no_nodes);
        proof {
            lemma_from_nodes_well_formed(node, Seq::<IndexTree>::empty(), store_view(g@), store);
            assert(nodes_entries(Seq::<IndexTree>::empty(), store) == Seq::<EntryView>::empty());
        }
        let ghost prev = nodes@;
        nodes.push(node);
        proof {
            assert(nodes@.drop_last() =~= prev);
            assert(nodes@.last() == node);
            assert(tree_entries(node, store) =~= chunk_entries(store_view(g@)));
            assert forall|k: int| 0 <= k < nodes@.len() implies #[trigger] well_formed(
                nodes@[k],
                store,
            ) by {
                if k < prev.len() {
                    assert(nodes@[k] == prev[k]);
                }
            }
        }
    }
    assert(gs.subrange(0, gs.len() as int) =~= gs);
    nodes
}

/// One node over each group of nodes, in order.
fn next_level(
    groups: Vec<Vec<IndexTree>>,
    Ghost(store): Ghost<Seq<ChunkView>>,
    Ghost(total): Ghost<Seq<EntryView>>,
) -> (r: Vec<IndexTree>)
    requires
        forall|p: int|
            0 <= p < vecs_view(groups@).flatten().len() ==> #[trigger] well_formed(
                vecs_view(groups@).flatten()[p],
                store,
            ),
        nodes_entries(vecs_view(groups@).flatten(), store) == total,
        total.len() <= usize::MAX,
        forall|i: int| 0 <= i < groups@.len() ==> (#[trigger] groups@[i])@.len() <= CHILDREN_PER_NODE,
    ensures
        r@.len() == groups@.len(),
        forall|i: int| 0 <= i < r@.len() ==> #[trigger] well_formed(r@[i], store),
        nodes_entries(r@, store) == total,
{
    let ghost gs = vecs_view(groups@);
    assert forall|j: int| 0 <= j < gs.len() implies (#[trigger] gs[j]).len() <= CHILDREN_PER_NODE by {
        assert(gs[j] == groups@[j]@);
    }
    let ghost flat = gs.flatten();
    let mut nodes: Vec<IndexTree> = Vec::new();
    assert(gs.subrange(0, 0).flatten() =~= Seq::<IndexTree>::empty());
    assert(nodes_entries(Seq::<IndexTree>::empty(), store) == Seq::<EntryView>::empty());
    for g in it: groups
        invariant
            gs == vecs_view(it.seq()),
            flat == gs.flatten(),
            it.seq().len() == gs.len(),
            it.index() <= gs.len(),
            nodes@.len() == it.index(),
            forall|p: int| 0 <= p < flat.len() ==> #[trigger] well_formed(flat[p], store),
            nodes_entries(flat, store) == total,
            total.len() <= usize::MAX,
            forall|j: int| 0 <= j < gs.len() ==> (#[trigger] gs[j]).len() <= CHILDREN_PER_NODE,
            forall|i: int| 0 <= i < nodes@.len() ==> #[trigger] well_formed(nodes@[i], store),
            nodes_entries(nodes@, store) == nodes_entries(gs.subrange(0, it.index() as int).flatten(), store),
    {
        let ghost i = it.index() as int;
        let ghost pre = gs.subrange(0, i).flatten();
        let ghost post = gs.subrange(i + 1, gs.len() as int).flatten();
        let ghost gv = g@;
        proof {
            assert(g == it.seq()[i]);
            assert(gs[i] == gv);
            lemma_flatten_split(gs, i);
            lemma_nodes_entries_append(pre + gv, post, store);
            lemma_nodes_entries_append(pre, gv, store);
            assert forall|t: int| 0 <= t < gv.len() implies #[trigger] well_formed(gv[t], store) by {
                assert(flat[pre.len() + t] == gv[t]);
            }
            assert forall|t: int| 0 <= t < gv.len() implies (#[trigger] gv[t]).bloom_filter@.len()
                == BLOOM_FILTER_SIZE by {
                assert(well_formed(gv[t], store));
                lemma_well_formed_unfold(gv[t], store);
            }
            lemma_count_sum_entries(gv, store);
            assert(store_view(Seq::<Chunk>::empty()) =~= Seq::<ChunkView>::empty());
            assert(chunk_entries(Seq::<ChunkView>::empty()) == Seq::<EntryView>::empty());
        }
        let no_chunks: Vec<Chunk> = Vec::new();
        assert(store_view(no_chunks@) =~= Seq::<ChunkView>::empty());
        let node = IndexTree::from_nodes(no_chunks.as_slice(), g);
        proof {
            lemma_from_nodes_well_formed(node, gv, Seq::<ChunkView>::empty(), store);
            assert(tree_entries(node, store) =~= nodes_entries(gv, store));
        }
        let ghost prev = nodes@;
        nodes.push(node);
        proof {
            assert(nodes@.drop_last() =~= prev);
            assert(nodes@.last() == node);
            assert forall|k: int| 0 <= k < nodes@.len() implies #[trigger] well_formed(
                nodes@[k],
                store,
            ) by {
                if k < prev.len() {
                    assert(nodes@[k] == prev[k]);
                }
            }
        }
    }
    assert(gs.subrange(0, gs.len() as int) =~= gs);
    nodes
}

/// The position of the first chunk named `name` in `chunks`.
fn find_chunk(chunks: &Vec<Chunk>, name: &String) -> (r: Option<usize>)
    ensures
        r matches Some(i) ==> i < chunks@.len() && lookup(store_view(chunks@), name@)
            == chunks@[i as int].index@,
        r is None ==> lookup(store_view(chunks@), name@) == Seq::<EntryView>::empty(),
{
    let ghost sv = store_view(chunks@);
    assert(sv.subrange(0, sv.len() as int) =~= sv);
    let mut i: usize = 0;
    while i < chunks.len()
        invariant
            i <= chunks@.len(),
            sv == store_view(chunks@),
            lookup(sv, name@) == lookup(sv.subrange(i as int, sv.len() as int), name@),
        decreases chunks@.len() - i,
    {
        let ghost rest = sv.subrange(i as int, sv.len() as int);
        assert(rest[0] == chunks@[i as int]@);
        assert(rest.drop_first() =~= sv.subrange(i as int + 1, sv.len() as int));
        if chunks[i].file_name == *name {
            return Some(i);
        }
        i = i + 1;
    }
    None
}

/// Where the names in `store` are distinct, each name resolves to its own chunk.
pub proof fn lemma_lookup_distinct(store: Seq<ChunkView>, k: int)
    requires
        0 <= k < store.len(),
        forall|i: int, j: int| 0 <= i < j < store.len() ==> store[i].0 != store[j].0,
    ensures
        lookup(store, store[k].0) == store[k].1,
    decreases store.len(),
{
    if k > 0 {
        assert(store[0].0 != store[k].0);
        assert(store.drop_first()[k - 1] == store[k]);
        assert forall|i: int, j: int| 0 <= i < j < store.drop_first().len() implies store.drop_first()[i].0
            != store.drop_first()[j].0 by {
            assert(store.drop_first()[i] == store[i + 1]);
            assert(store.drop_first()[j] == store[j + 1]);
        }
        lemma_lookup_distinct(store.drop_first(), k - 1);
    }
}

impl IndexTree {
    /// A node over the child nodes `nodes` and the leaf chunks
    /// `child_indexes`: it refers to the chunks by name, and its filter is the
    /// union of the nodes' filters and of the filters of the chunks' entries.
    pub fn from_nodes(child_indexes: &[Chunk], nodes: Vec<IndexTree>) -> (r: IndexTree)
        requires
            forall|i: int|
                0 <= i < nodes@.len() ==> (#[trigger] nodes@[i]).bloom_filter@.len()
                    == BLOOM_FILTER_SIZE,
            forall|i: int|
                0 <= i < chunk_entries(store_view(child_indexes@)).len() ==> (
                #[trigger] chunk_entries(store_view(child_indexes@))[i]).1.len()
                    == BLOOM_FILTER_SIZE,
            count_sum(nodes@) + chunk_entries(store_view(child_indexes@)).len() <= usize::MAX,
        ensures
            r.child_nodes@ == nodes@,
            r.child_indexes@.len() == child_indexes@.len(),
            forall|i: int|
                0 <= i < child_indexes@.len() ==> (#[trigger] r.child_indexes@[i]).file_name@
                    == child_indexes@[i].file_name@,
            r.bloom_filter@ == node_filter(nodes@, store_view(child_indexes@)),
            r.files_count == count_sum(nodes@) + chunk_entries(store_view(child_indexes@)).len(),
    {
        let ghost cs = store_view(child_indexes@);
        let mut combined: Vec<BloomFilter> = Vec::new();
        let mut files_count: usize = 0;
        let mut k: usize = 0;
        while k < nodes.len()
            invariant
                k <= nodes@.len(),
                filters_view(combined@) == node_filters(nodes@.subrange(0, k as int)),
                files_count == count_sum(nodes@.subrange(0, k as int)),
                count_sum(nodes@) + chunk_entries(cs).len() <= usize::MAX,
            decreases nodes@.len() - k,
        {
            proof {
                lemma_count_sum_append(nodes@.subrange(0, k as int + 1), nodes@.subrange(k as int + 1, nodes@.len() as int));
                assert(nodes@.subrange(0, k as int + 1) + nodes@.subrange(k as int + 1, nodes@.len() as int) =~= nodes@);
                lemma_count_sum_nonneg(nodes@.subrange(k as int + 1, nodes@.len() as int));
                assert(nodes@.subrange(0, k as int + 1).drop_last() =~= nodes@.subrange(0, k as int));
                lemma_count_sum_nonneg(nodes@.subrange(0, k as int));
            }
            let ghost prev = combined@;
            let d = nodes[k].bloom_filter.duplicate();
            combined.push(d);
            assert(filters_view(combined@) =~= filters_view(prev).push(d@));
            assert(node_filters(nodes@.subrange(0, k as int + 1)) =~= node_filters(
                nodes@.subrange(0, k as int),
            ).push(nodes@[k as int].bloom_filter@));
            files_count = files_count + nodes[k].files_count;
            k = k + 1;
        }
        assert(nodes@.subrange(0, nodes@.len() as int) =~= nodes@);
        let mut lazy_indexes: Vec<LazyIndex> = Vec::new();
        let mut j: usize = 0;
        while j < child_indexes.len()
            invariant
                j <= child_indexes@.len(),
                cs == store_view(child_indexes@),
                filters_view(combined@) == node_filters(nodes@) + entry_filters(
                    chunk_entries(cs.subrange(0, j as int)),
                ),
                files_count == count_sum(nodes@) + chunk_entries(cs.subrange(0, j as int)).len(),
                count_sum(nodes@) + chunk_entries(cs).len() <= usize::MAX,
                lazy_indexes@.len() == j,
                forall|i: int|
                    0 <= i < j ==> (#[trigger] lazy_indexes@[i]).file_name@
                        == child_indexes@[i].file_name@,
            decreases child_indexes@.len() - j,
        {
            let chunk = &child_indexes[j];
            let ghost pre = cs.subrange(0, j as int);
            let ghost post = cs.subrange(0, j as int + 1);
            proof {
                assert(post.drop_last() =~= pre);
                assert(post.last() == chunk@);
                lemma_chunk_entries_append(post, cs.subrange(j as int + 1, cs.len() as int));
                assert(post + cs.subrange(j as int + 1, cs.len() as int) =~= cs);
            }
            let mut m: usize = 0;
            assert(chunk@.1.subrange(0, 0) =~= Seq::<EntryView>::empty());
            assert(chunk_entries(pre) + chunk@.1.subrange(0, 0) =~= chunk_entries(pre));
            while m < chunk.index.files.len()
                invariant
                    m <= chunk@.1.len(),
                    j < cs.len(),
                    chunk@ == cs[j as int],
                    filters_view(combined@) == node_filters(nodes@) + entry_filters(
                        chunk_entries(pre) + chunk@.1.subrange(0, m as int),
                    ),
                decreases chunk@.1.len() - m,
            {
                let ghost prev = combined@;
                assert(chunk@.1[m as int] == chunk.index.files@[m as int]@);
                let d = chunk.index.files[m].bloom_filter.duplicate();
                combined.push(d);
                assert(filters_view(combined@) =~= filters_view(prev).push(d@));
                assert(chunk_entries(pre) + chunk@.1.subrange(0, m as int + 1) =~= (chunk_entries(pre)
                    + chunk@.1.subrange(0, m as int)).push(chunk@.1[m as int]));
                assert(entry_filters((chunk_entries(pre) + chunk@.1.subrange(0, m as int)).push(
                    chunk@.1[m as int],
                )) =~= entry_filters(chunk_entries(pre) + chunk@.1.subrange(0, m as int)).push(
                    chunk@.1[m as int].1,
                ));
                m = m + 1;
                assert(filters_view(combined@) =~= node_filters(nodes@) + entry_filters(
                    chunk_entries(pre) + chunk@.1.subrange(0, m as int),
                ));
            }
            assert(chunk@.1.subrange(0, chunk@.1.len() as int) =~= chunk@.1);
            assert(chunk_entries(post) == chunk_entries(pre) + chunk@.1);
            files_count = files_count + chunk.index.files.len();
            lazy_indexes.push(LazyIndex { file_name: chunk.file_name.clone() });
            j = j + 1;
        }
        assert(cs.subrange(0, cs.len() as int) =~= cs);
        let ghost fs = node_filters(nodes@) + entry_filters(chunk_entries(cs));
        assert(filters_view(combined@) == fs);
        let bloom_filter = if combined.len() == 0 {
            let f = BloomFilter::new(&[], BLOOM_FILTER_SIZE);
            assert(f@ =~= zero_filter(BLOOM_FILTER_SIZE as nat));
            f
        } else {
            assert(all_width(filters_view(combined@), combined@[0]@.len())) by {
                assert forall|t: int| 0 <= t < fs.len() implies (#[trigger] fs[t]).len()
                    == BLOOM_FILTER_SIZE by {
                    if t < nodes@.len() {
                        assert(fs[t] == nodes@[t].bloom_filter@);
                    } else {
                        assert(fs[t] == chunk_entries(cs)[t - nodes@.len()].1);
                    }
                }
                assert(combined@[0]@ == fs[0]);
            }
            assert(combined@[0]@.len() == BLOOM_FILTER_SIZE) by {
                assert(combined@[0]@ == fs[0]);
                if nodes@.len() > 0 {
                    assert(fs[0] == nodes@[0].bloom_filter@);
                } else {
                    assert(fs[0] == chunk_entries(cs)[0].1);
                }
            }
            BloomFilter::from_filters(combined.as_slice())
        };
        IndexTree { child_indexes: lazy_indexes, child_nodes: nodes, bloom_filter, files_count }
    }

    fn search_node_for_files(
        query: &BloomFilter,
        files: &mut Vec<String>,
        node: &IndexTree,
        chunks: &Vec<Chunk>,
    ) -> (r: usize)
        requires
            distinct_paths(old(files)@),
        ensures
            path_set(final(files)@) == path_set(old(files)@).union(
                walk_matches(*node, query@, store_view(chunks@)),
            ),
            distinct_paths(final(files)@),
            r == saturated(compared_count(*node, query@, store_view(chunks@))),
            !covers(node.bloom_filter@, query@) ==> r == 1,
            tree_entries(*node, store_view(chunks@)).len() > 0 ==> r >= 1,
        decreases node,
    {
        let ghost sv = store_view(chunks@);
        let ghost q = query@;
        let ghost below = nodes_entries(node.child_nodes@, sv);
        let ghost leaves = node.child_indexes@;
        let ghost n = node.child_nodes@.len() as int;
        proof {
            lemma_tree_entries_split(*node, sv);
        }
        if !(node.bloom_filter.filter_array.len() == query.filter_array.len()
            && node.bloom_filter.possibly_contains(query)) {
            proof {
                assert(walk_matches(*node, q, sv) == Set::<Seq<char>>::empty());
                assert(path_set(files@).union(Set::<Seq<char>>::empty()) =~= path_set(files@));
            }
            return 1;
        }
        let mut compared: usize = 0;
        let mut k: usize = 0;
        assert(node.child_nodes@.subrange(0, 0) =~= Seq::<IndexTree>::empty());
        proof {
            lemma_compared_nonneg(*node, 0, q, sv);
        }
        while k < node.child_nodes.len()
            invariant
                k <= n,
                n == node.child_nodes@.len(),
                sv == store_view(chunks@),
                q == query@,
                covers(node.bloom_filter@, q),
                distinct_paths(files@),
                path_set(files@).union(walk_from(*node, k as int, q, sv)) == path_set(
                    old(files)@,
                ).union(walk_from(*node, 0, q, sv)),
                nodes_entries(node.child_nodes@.subrange(0, k as int), sv).len() > 0 ==> compared
                    >= 1,
                compared == saturated(compared_from(*node, 0, q, sv) - compared_from(
                    *node,
                    k as int,
                    q,
                    sv,
                )),
                0 <= compared_from(*node, k as int, q, sv) <= compared_from(*node, 0, q, sv),
            decreases n - k,
        {
            let child = &node.child_nodes[k];
            let ghost pre = node.child_nodes@.subrange(0, k as int);
            let ghost post = node.child_nodes@.subrange(0, k as int + 1);
            let ghost before = path_set(files@);
            proof {
                assert(post.drop_last() =~= pre);
                assert(post.last() == *child);
                assert(walk_from(*node, k as int, q, sv) == walk_from(*child, 0, q, sv).union(
                    walk_from(*node, k as int + 1, q, sv),
                ));
                assert(compared_from(*node, k as int, q, sv) == compared_from(*child, 0, q, sv)
                    + compared_from(*node, k as int + 1, q, sv));
                lemma_compared_nonneg(*child, 0, q, sv);
                lemma_compared_nonneg(*node, k as int + 1, q, sv);
            }
            let c = Self::search_node_for_files(query, files, child, chunks);
            compared = compared.saturating_add(c);
            k = k + 1;
            assert(path_set(files@).union(walk_from(*node, k as int, q, sv)) =~= before.union(
                walk_from(*node, k as int - 1, q, sv),
            ));
        }
        assert(node.child_nodes@.subrange(0, n) =~= node.child_nodes@);
        let ghost leaf_walk = matching_paths(leaf_entries(leaves, sv), q);
        let ghost after_nodes = path_set(files@);
        let ghost from_nodes_count = compared_from(*node, 0, q, sv) - compared_from(*node, n, q, sv);
        assert(walk_from(*node, n, q, sv) == leaf_walk);
        assert(compared_from(*node, n, q, sv) == leaf_entries(leaves, sv).len());
        let mut j: usize = 0;
        assert(leaves.subrange(0, 0) =~= Seq::<LazyIndex>::empty());
        assert(below + leaf_entries(leaves.subrange(0, 0), sv) =~= below);
        assert(path_set(files@).union(Set::<Seq<char>>::empty()) =~= path_set(files@));
        while j < node.child_indexes.len()
            invariant
                j <= leaves.len(),
                leaves == node.child_indexes@,
                sv == store_view(chunks@),
                q == query@,
                distinct_paths(files@),
                path_set(files@) == after_nodes.union(
                    matching_paths(leaf_entries(leaves.subrange(0, j as int), sv), q),
                ),
                (below + leaf_entries(leaves.subrange(0, j as int), sv)).len() > 0 ==> compared
                    >= 1,
                from_nodes_count >= 0,
                compared == saturated(
                    from_nodes_count + leaf_entries(leaves.subrange(0, j as int), sv).len(),
                ),
            decreases leaves.len() - j,
        {
            let ghost pre = leaves.subrange(0, j as int);
            let ghost post = leaves.subrange(0, j as int + 1);
            let ghost found = lookup(sv, leaves[j as int].file_name@);
            proof {
                assert(post.drop_last() =~= pre);
                assert(post.last() == leaves[j as int]);
                assert(leaf_entries(post, sv) == leaf_entries(pre, sv) + found);
                lemma_matching_paths_append(leaf_entries(pre, sv), found, q);
                assert(below + leaf_entries(post, sv) =~= below + leaf_entries(pre, sv) + found);
            }
            match find_chunk(chunks, &node.child_indexes[j].file_name) {
                Some(i) => {
                    let c = chunks[i].index.collect_matches(query, files);
                    assert(c == found.len());
                    compared = compared.saturating_add(c);
                },
                None => {
                    assert(matching_paths(found, q) == Set::<Seq<char>>::empty());
                    assert(found.len() == 0);
                },
            }
            j = j + 1;
            assert(path_set(files@) =~= after_nodes.union(
                matching_paths(leaf_entries(post, sv), q),
            ));
        }
        assert(leaves.subrange(0, leaves.len() as int) =~= leaves);
        assert(path_set(files@) =~= path_set(old(files)@).union(walk_matches(*node, q, sv)));
        assert(compared_count(*node, q, sv) == from_nodes_count + leaf_entries(leaves, sv).len());
        compared
    }

    /// Searches the tree for the files that may contain the trigrams of
    /// `query`, reading leaf chunks from `chunks`, and returns the paths found
    /// with the number of filters compared: one for each subtree whose filter
    /// does not cover the query's, which is then skipped, and one for each
    /// entry of each chunk that is read. So only the chunks
    /// that `chunks_to_scan` names are read. In a well-formed tree the paths
    /// are those of the entries whose filters cover the query's filter. A
    /// query with fewer than three letters and digits has the all-zero filter,
    /// which every entry covers.
    pub fn search_files(&self, query: &str, chunks: &Vec<Chunk>) -> (r: (Vec<String>, usize))
        requires
            tree_width_ok(*self),
            store_width_ok(store_view(chunks@)),
        ensures
            path_set(r.0@) == walk_matches(*self, text_filter(query@), store_view(chunks@)),
            r.1 == saturated(compared_count(*self, text_filter(query@), store_view(chunks@))),
            well_formed(*self, store_view(chunks@)) ==> path_set(r.0@) == matching_paths(
                tree_entries(*self, store_view(chunks@)),
                text_filter(query@),
            ),
            distinct_paths(r.0@),
            !covers(self.bloom_filter@, text_filter(query@)) ==> r.1 == 1,
            tree_entries(*self, store_view(chunks@)).len() > 0 ==> r.1 >= 1,
    {
        let query_bloom_filter = text_bloom_filter(query);
        let mut files: Vec<String> = Vec::new();
        proof {
            assert(paths_of(files@) =~= Seq::<Seq<char>>::empty());
            assert(path_set(files@) =~= Set::<Seq<char>>::empty());
        }
        let compared = Self::search_node_for_files(&query_bloom_filter, &mut files, self, chunks);
        proof {
            assert(path_set(files@) =~= walk_matches(
                *self,
                text_filter(query@),
                store_view(chunks@),
            ));
            if well_formed(*self, store_view(chunks@)) {
                lemma_walk_exact(*self, 0, text_filter(query@), store_view(chunks@));
            }
        }
        (files, compared)
    }

    fn count_pruned(node: &IndexTree, query: &BloomFilter) -> (r: usize)
        ensures
            r == saturated(pruned_from(*node, 0, query@)),
        decreases node,
    {
        if !(node.bloom_filter.filter_array.len() == query.filter_array.len()
            && node.bloom_filter.possibly_contains(query)) {
            return 1;
        }
        let ghost q = query@;
        let n = node.child_nodes.len();
        let mut count: usize = 0;
        let mut k: usize = 0;
        proof {
            lemma_pruned_nonneg(*node, 0, q);
        }
        while k < n
            invariant
                k <= n,
                n == node.child_nodes@.len(),
                q == query@,
                covers(node.bloom_filter@, q),
                0 <= pruned_from(*node, k as int, q) <= pruned_from(*node, 0, q),
                count == saturated(pruned_from(*node, 0, q) - pruned_from(*node, k as int, q)),
            decreases n - k,
        {
            let child = &node.child_nodes[k];
            proof {
                assert(pruned_from(*node, k as int, q) == pruned_from(*child, 0, q) + pruned_from(
                    *node,
                    k as int + 1,
                    q,
                ));
                lemma_pruned_nonneg(*child, 0, q);
                lemma_pruned_nonneg(*node, k as int + 1, q);
            }
            let c = Self::count_pruned(child, query);
            count = count.saturating_add(c);
            k = k + 1;
        }
        assert(pruned_from(*node, n as int, q) == 0);
        count
    }

    /// The number of nodes that a search for `query` prunes, each after one
    /// comparison. With the entries of the chunks that `chunks_to_scan` names,
    /// one comparison each, this gives the count that `search_files` returns.
    pub fn pruned_count(&self, query: &str) -> (r: usize)
        ensures
            r == saturated(pruned_from(*self, 0, text_filter(query@))),
    {
        let query_bloom_filter = text_bloom_filter(query);
        Self::count_pruned(self, &query_bloom_filter)
    }

    fn collect_leaf_names(node: &IndexTree, query: &BloomFilter, names: &mut Vec<String>)
        ensures
            paths_of(final(names)@) == paths_of(old(names)@) + reached_names(*node, query@),
        decreases node,
    {
        if !(node.bloom_filter.filter_array.len() == query.filter_array.len()
            && node.bloom_filter.possibly_contains(query)) {
            assert(paths_of(names@) =~= paths_of(names@) + Seq::<Seq<char>>::empty());
            return;
        }
        let ghost q = query@;
        let ghost start = paths_of(names@);
        let n = node.child_nodes.len();
        let mut k: usize = 0;
        while k < n
            invariant
                k <= n,
                n == node.child_nodes@.len(),
                q == query@,
                covers(node.bloom_filter@, q),
                start + reached_from(*node, 0, q) == paths_of(names@) + reached_from(
                    *node,
                    k as int,
                    q,
                ),
            decreases n - k,
        {
            let ghost before = paths_of(names@);
            let child = &node.child_nodes[k];
            Self::collect_leaf_names(child, query, names);
            assert(reached_from(*node, k as int, q) == reached_from(*child, 0, q) + reached_from(
                *node,
                k as int + 1,
                q,
            ));
            k = k + 1;
            assert(before + reached_from(*node, k as int - 1, q) =~= paths_of(names@)
                + reached_from(*node, k as int, q));
        }
        let m = node.child_indexes.len();
        let mut j: usize = 0;
        assert(reached_from(*node, n as int, q) == leaf_names(node.child_indexes@));
        let ghost mid = paths_of(names@);
        while j < m
            invariant
                j <= m,
                m == node.child_indexes@.len(),
                paths_of(names@) == mid + leaf_names(node.child_indexes@).subrange(0, j as int),
            decreases m - j,
        {
            let ghost prev = names@;
            names.push(node.child_indexes[j].file_name.clone());
            assert(paths_of(names@) =~= paths_of(prev).push(node.child_indexes@[j as int].file_name@));
            j = j + 1;
            assert(paths_of(names@) =~= mid + leaf_names(node.child_indexes@).subrange(0, j as int));
        }
        assert(leaf_names(node.child_indexes@).subrange(0, m as int) =~= leaf_names(
            node.child_indexes@,
        ));
    }

    /// The names of the leaf chunks that a search for `query` reads, depth
    /// first: those below the nodes whose filters cover the query's filter.
    pub fn chunks_to_scan(&self, query: &str) -> (r: Vec<String>)
        ensures
            paths_of(r@) == reached_names(*self, text_filter(query@)),
    {
        let query_bloom_filter = text_bloom_filter(query);
        let mut names: Vec<String> = Vec::new();
        assert(paths_of(names@) =~= Seq::<Seq<char>>::empty());
        Self::collect_leaf_names(self, &query_bloom_filter, &mut names);
        assert(paths_of(names@) =~= reached_names(*self, text_filter(query@)));
        names
    }

    /// Builds the tree over the entries of `index`. The entries are cut into
    /// `ceil(n / 2)` contiguous leaf chunks of two entries (the last may hold
    /// one), each under a fresh name below `output_path`; nodes over pairs of
    /// chunks, then over pairs of nodes, are added until at most two remain,
    /// which go under the root. Each node's filter is the union of the filters
    /// of the entries below it. Returns the root and the chunks, to be stored
    /// under their names.
    pub fn from_index(index: &Index, output_path: &str) -> (r: (IndexTree, Vec<Chunk>))
        requires
            entries_width(index@, BLOOM_FILTER_SIZE as nat),
        ensures
            well_formed(r.0, store_view(r.1@)),
            tree_entries(r.0, store_view(r.1@)) == index@,
            r.0.files_count == index@.len(),
            r.0.bloom_filter@ == entries_union(index@),
            tree_width_ok(r.0),
            distinct_names(r.1@),
            chunk_entries(store_view(r.1@)) == index@,
            index@.len() >= 1 ==> r.1@.len() == (index@.len() + 1) / 2,
            index@.len() == 0 ==> r.1@.len() == 1,
            index@.len() >= 1 ==> forall|i: int|
                0 <= i < r.1@.len() ==> (#[trigger] r.1@[i]).index@ == index@.subrange(
                    2 * i,
                    if 2 * i + 2 < index@.len() {
                        2 * i + 2
                    } else {
                        index@.len() as int
                    },
                ),
            forall|i: int| 0 <= i < r.1@.len() ==> under_dir((#[trigger] r.1@[i]).file_name@, output_path@),
    {
        let files = index.duplicate().files;
        let ghost total = index@;
        let n = files.len();
        let ghost fv = files@;
        let half = n / CHILDREN_PER_NODE + n % CHILDREN_PER_NODE;
        assert(half == (n + 1) / 2);
        let batches = batch_items(files, half);
        proof {
            lemma_batched_flatten(fv, half as nat);
            if n >= 1 {
                lemma_halves_count(fv);
            }
            assert(vecs_view(batches@).len() == batches@.len());
        }
        let ghost bv = vecs_view(batches@);
        let chunks = make_chunks(batches, output_path);
        proof {
            if n >= 1 {
                assert(entries_view(fv) == total);
                let per = per_batch(n as nat, half as nat);
                assert(bv == batches_of(fv, per));
                assert forall|i: int| 0 <= i < chunks@.len() implies (#[trigger] chunks@[i]).index@
                    == total.subrange(
                    2 * i,
                    if 2 * i + 2 < total.len() {
                        2 * i + 2
                    } else {
                        total.len() as int
                    },
                ) by {
                    let hi = if 2 * i + 2 < total.len() {
                        2 * i + 2
                    } else {
                        total.len() as int
                    };
                    if n == 1 {
                        assert(per == 1);
                        assert(bv == seq![fv]);
                        assert(i == 0);
                        assert(fv.subrange(0, 1) =~= fv);
                        assert(bv[i] == fv.subrange(0, hi));
                    } else {
                        assert(per == 2);
                        lemma_batches_index(fv, per, i);
                        assert(2 * i == i * 2 && (i + 1) * 2 == 2 * i + 2);
                        assert(bv[i] == fv.subrange(2 * i, hi));
                    }
                    assert(chunks@[i].index@ == entries_view(bv[i]));
                    assert(entries_view(fv.subrange(2 * i, hi)) =~= total.subrange(2 * i, hi));
                }
            }
        }
        let ghost store = store_view(chunks@);
        let copies = duplicate_chunks(&chunks);
        let m = copies.len();
        let ghost cv = copies@;
        proof {
            assert forall|p: int| 0 <= p < cv.len() implies lookup(store, (#[trigger] cv[p])@.0)
                == cv[p]@.1 by {
                assert(store_view(cv)[p] == cv[p]@);
                assert(store[p] == cv[p]@);
                assert forall|a: int, b: int| 0 <= a < b < store.len() implies store[a].0
                    != store[b].0 by {
                    assert(store[a] == chunks@[a]@);
                    assert(store[b] == chunks@[b]@);
                }
                lemma_lookup_distinct(store, p);
            }
        }
        let groups = batch_items(copies, m / CHILDREN_PER_NODE + m % CHILDREN_PER_NODE);
        proof {
            let cm = (m / CHILDREN_PER_NODE + m % CHILDREN_PER_NODE) as nat;
            lemma_batched_flatten(cv, cm);
            assert(cv.len() >= 1);
            assert(cm == (cv.len() + 1) / 2);
            lemma_halves_count(cv);
            let per = per_batch(cv.len(), cm);
            lemma_batches_sizes(cv, per);
            assert forall|i: int| 0 <= i < groups@.len() implies (#[trigger] groups@[i])@.len()
                <= CHILDREN_PER_NODE by {
                assert(vecs_view(groups@)[i] == groups@[i]@);
            }
        }
        let mut nodes = leaf_parents(groups, Ghost(store), Ghost(total));
        while nodes.len() > CHILDREN_PER_NODE
            invariant
                forall|i: int| 0 <= i < nodes@.len() ==> #[trigger] well_formed(nodes@[i], store),
                nodes_entries(nodes@, store) == total,
                total.len() <= usize::MAX,
            decreases nodes@.len(),
        {
            let k = nodes.len();
            let ghost before = nodes@;
            let c = k / CHILDREN_PER_NODE + k % CHILDREN_PER_NODE;
            let groups = batch_items(nodes, c);
            proof {
                lemma_batched_flatten(before, c as nat);
                let per = per_batch(k as nat, c as nat);
                assert(c == (k + 1) / 2);
                assert(per >= 2) by (nonlinear_arith)
                    requires
                        k >= 3,
                        c == (k + 1) / 2,
                        per == ((k + c - 1) / (c as int)) as nat,
                {
                    assert(c >= 1);
                    assert(k + c - 1 >= 2 * c);
                }
                lemma_batches_sizes(before, per);
                lemma_halves_count(before);
                assert forall|i: int| 0 <= i < groups@.len() implies (#[trigger] groups@[i])@.len()
                    <= CHILDREN_PER_NODE by {
                    assert(vecs_view(groups@)[i] == groups@[i]@);
                }
            }
            nodes = next_level(groups, Ghost(store), Ghost(total));
        }
        let ghost last = nodes@;
        let no_chunks: Vec<Chunk> = Vec::new();
        proof {
            assert(store_view(no_chunks@) =~= Seq::<ChunkView>::empty());
            assert(chunk_entries(Seq::<ChunkView>::empty()) == Seq::<EntryView>::empty());
            assert forall|t: int| 0 <= t < last.len() implies (#[trigger] last[t]).bloom_filter@.len()
                == BLOOM_FILTER_SIZE by {
                assert(well_formed(last[t], store));
                lemma_well_formed_unfold(last[t], store);
            }
            lemma_count_sum_entries(last, store);
        }
        let root = IndexTree::from_nodes(no_chunks.as_slice(), nodes);
        proof {
            lemma_from_nodes_well_formed(root, last, Seq::<ChunkView>::empty(), store);
            lemma_well_formed_unfold(root, store);
            lemma_well_formed_widths(root, 0, store);
            assert(tree_entries(root, store) =~= total);
            lemma_well_formed_unfold(root, store);
        }
        (root, chunks)
    }

    /// Whether every node filter of the tree has the index width.
    pub fn has_index_width(&self) -> (r: bool)
        ensures
            r == tree_width_ok(*self),
        decreases self,
    {
        let n = self.child_nodes.len();
        let mut ok = true;
        let mut k: usize = 0;
        while k < n
            invariant
                k <= n,
                n == self.child_nodes@.len(),
                widths_from(*self, 0) == (ok && widths_from(*self, k as int)),
            decreases n - k,
        {
            let child_ok = self.child_nodes[k].has_index_width();
            assert(widths_from(*self, k as int) == (widths_from(self.child_nodes@[k as int], 0)
                && widths_from(*self, k as int + 1)));
            ok = ok && child_ok;
            k = k + 1;
        }
        ok && self.bloom_filter.filter_array.len() == BLOOM_FILTER_SIZE
    }

    /// Number of file entries below this node.
    pub fn files_count(&self) -> (r: usize)
        ensures
            r == self.files_count,
    {
        self.files_count
    }
}

} // verus!
