use rust_indexer::batching::{batch_items, batch_items_by_cpu_count};
use rust_indexer::bloom::BloomFilter;
use rust_indexer::index::{FileEntry, Index, BLOOM_FILTER_SIZE};
use rust_indexer::tree::{Chunk, IndexTree, LazyIndex};
use rust_indexer::trigram::Trigram;

fn corpus(files: &[(&str, &str)]) -> Index {
    let mut index = Index::new();
    for (path, text) in files {
        index.add_file(FileEntry::from_text(path, text));
    }
    index
}

fn sorted(mut v: Vec<String>) -> Vec<String> {
    v.sort();
    v
}

#[test]
fn filters_have_twelve_words() {
    assert_eq!(12, BLOOM_FILTER_SIZE);
    let entry = FileEntry::from_text("a.txt", "hello world");
    assert_eq!(12, entry.bloom_filter.filter_array.len());
    assert_eq!("a.txt", entry.file_path);
}

#[test]
fn tree_search_finds_hello() {
    let index = corpus(&[("f1", "hello world"), ("f2", "goodbye")]);
    let (tree, chunks) = IndexTree::from_index(&index, "out");
    let (files, compared) = tree.search_files("hello", &chunks);
    assert_eq!(vec!["f1".to_string()], sorted(files));
    assert!(compared >= 1);
}

#[test]
fn tree_search_absent_query() {
    let index = corpus(&[("f1", "hello world"), ("f2", "goodbye")]);
    let (tree, chunks) = IndexTree::from_index(&index, "out");
    let (files, compared) = tree.search_files("xyz", &chunks);
    assert!(files.is_empty());
    assert!(compared >= 1);
}

#[test]
fn tree_search_empty_query_matches_all() {
    let index = corpus(&[("f1", "hello world"), ("f2", "goodbye"), ("f3", "")]);
    let (tree, chunks) = IndexTree::from_index(&index, "out");
    let (files, _) = tree.search_files("", &chunks);
    assert_eq!(vec!["f1", "f2", "f3"], sorted(files));
    let (files, _) = tree.search_files("a!", &chunks);
    assert_eq!(3, files.len());
}

fn pseudo_random_text(seed: u64, len: usize) -> String {
    let mut state = seed.wrapping_mul(6364136223846793005).wrapping_add(1442695040888963407);
    let mut s = String::new();
    for _ in 0..len {
        state = state.wrapping_mul(6364136223846793005).wrapping_add(1442695040888963407);
        let c = b'a' + ((state >> 33) % 26) as u8;
        s.push(c as char);
    }
    s
}

#[test]
fn tree_search_large_corpus_never_misses() {
    let texts: Vec<String> = (0..1000).map(|i| pseudo_random_text(i, 200)).collect();
    let paths: Vec<String> = (0..1000).map(|i| format!("f{}", i)).collect();
    let mut index = Index::new();
    for i in 0..1000 {
        index.add_file(FileEntry::from_text(&paths[i], &texts[i]));
    }
    let (tree, chunks) = IndexTree::from_index(&index, "out");
    assert_eq!(1000, tree.files_count());
    for k in [0usize, 17, 499, 998, 999] {
        let query = &texts[k][50..60];
        let (files, _) = tree.search_files(query, &chunks);
        assert!(files.contains(&paths[k]));
    }
}

#[test]
fn tree_over_hundred_files() {
    let texts: Vec<String> = (0..100).map(|i| pseudo_random_text(1000 + i, 40)).collect();
    let mut index = Index::new();
    for i in 0..100 {
        index.add_file(FileEntry::from_text(&format!("p{}", i), &texts[i]));
    }
    let (tree, chunks) = IndexTree::from_index(&index, "out");
    assert_eq!(100, tree.files_count());
    assert_eq!(50, chunks.len());
    let mut seen: Vec<String> = Vec::new();
    for chunk in &chunks {
        for entry in &chunk.index.files {
            seen.push(entry.file_path.clone());
        }
    }
    let expected: Vec<String> = (0..100).map(|i| format!("p{}", i)).collect();
    assert_eq!(expected, seen);
    for i in 0..chunks.len() {
        for j in 0..i {
            assert_ne!(chunks[i].file_name, chunks[j].file_name);
        }
        assert!(chunks[i].file_name.starts_with("out/"));
    }
    let (files, _) = tree.search_files("", &chunks);
    assert_eq!(100, files.len());
}

#[test]
fn pruned_root_compares_once() {
    let index = corpus(&[("a1", "aaaa aaaa"), ("a2", "aaaaaaa"), ("a3", "aaa")]);
    let (tree, chunks) = IndexTree::from_index(&index, "out");
    let (files, compared) = tree.search_files("zzz", &chunks);
    assert!(files.is_empty());
    assert_eq!(1, compared);
}

#[test]
fn tree_of_empty_index() {
    let index = Index::new();
    let (tree, chunks) = IndexTree::from_index(&index, "out");
    assert_eq!(0, tree.files_count());
    let (files, _) = tree.search_files("", &chunks);
    assert!(files.is_empty());
}

#[test]
fn tree_of_one_file() {
    let index = corpus(&[("only", "needle in a haystack")]);
    let (tree, chunks) = IndexTree::from_index(&index, "out");
    assert_eq!(1, tree.files_count());
    let (files, _) = tree.search_files("Needle", &chunks);
    assert_eq!(vec!["only".to_string()], files);
}

#[test]
fn missing_chunk_contributes_nothing() {
    let index = corpus(&[("f1", "hello world"), ("f2", "goodbye")]);
    let (tree, _chunks) = IndexTree::from_index(&index, "out");
    let none: Vec<Chunk> = Vec::new();
    let (files, _) = tree.search_files("hello", &none);
    assert!(files.is_empty());
}

#[test]
fn from_nodes_unions_filters_and_counts() {
    let a = FileEntry::from_text("a", "abcdef");
    let b = FileEntry::from_text("b", "uvwxyz");
    let chunk = Chunk {
        file_name: "c0".to_string(),
        index: corpus(&[("a", "abcdef"), ("b", "uvwxyz")]),
    };
    let node = IndexTree::from_nodes(&[chunk], Vec::new());
    assert_eq!(2, node.files_count());
    assert_eq!("c0", node.child_indexes[0].file_name);
    assert!(node.bloom_filter.possibly_contains(&a.bloom_filter));
    assert!(node.bloom_filter.possibly_contains(&b.bloom_filter));
    let parent = IndexTree::from_nodes(&[], vec![node]);
    assert_eq!(2, parent.files_count());
    assert_eq!(1, parent.child_nodes.len());
    let lazy = LazyIndex::from_file("some/chunk");
    assert_eq!("some/chunk", lazy.file_name);
}

#[test]
fn flat_search_matches_tree_search() {
    let index = corpus(&[("f1", "hello world"), ("f2", "goodbye"), ("f3", "say hello")]);
    assert_eq!(3, index.files_count());
    assert_eq!(vec!["f1", "f3"], sorted(index.search_files("HELLO")));
    assert!(index.search_files("qqq").is_empty());
    let dup = corpus(&[("f1", "hello"), ("f1", "hello again")]);
    assert_eq!(vec!["f1".to_string()], dup.search_files("hello"));
}

#[test]
fn batches_are_contiguous_and_nearly_equal() {
    let items: Vec<u32> = (0..10).collect();
    assert_eq!(
        vec![vec![0, 1, 2, 3], vec![4, 5, 6, 7], vec![8, 9]],
        batch_items(items.clone(), 3)
    );
    assert_eq!(vec![items.clone()], batch_items(items.clone(), 0));
    assert_eq!(vec![vec![0, 1], vec![2, 3], vec![4, 5], vec![6, 7], vec![8, 9]], batch_items(items.clone(), 5));
    let ten: Vec<Vec<u32>> = (0..10).map(|i| vec![i]).collect();
    assert_eq!(ten, batch_items(items.clone(), 20));
    let empty: Vec<u32> = Vec::new();
    assert!(batch_items(empty.clone(), 4).is_empty());
    assert_eq!(vec![empty.clone()], batch_items(empty, 0));
}

#[test]
fn cpu_batches_keep_every_item() {
    let items: Vec<u32> = (0..37).collect();
    let batches = batch_items_by_cpu_count(items.clone());
    let flat: Vec<u32> = batches.iter().flatten().cloned().collect();
    assert_eq!(items, flat);
    assert!(batches.iter().all(|b| !b.is_empty()));
}

#[test]
fn indexing_twice_gives_identical_filters() {
    let text = "fn main() { println!(\"hello\"); }";
    let first = FileEntry::from_text("main.rs", text);
    let second = FileEntry::from_text("main.rs", text);
    assert_eq!(first.bloom_filter.filter_array, second.bloom_filter.filter_array);
    // Filters are set valued: repeating trigrams changes nothing.
    let once = FileEntry::from_text("x", "abcd");
    let twice = FileEntry::from_text("y", "abcd abcd");
    let mut expected = once.bloom_filter.filter_array.clone();
    let extra = FileEntry::from_text("z", "cdab");
    for (w, e) in expected.iter_mut().zip(extra.bloom_filter.filter_array.iter()) {
        *w |= *e;
    }
    assert_eq!(expected, twice.bloom_filter.filter_array);
}

#[test]
fn tree_shape_and_filters() {
    let texts = ["alpha beta", "gamma delta", "epsilon", "zeta eta", "theta iota"];
    let mut index = Index::new();
    for (i, t) in texts.iter().enumerate() {
        index.add_file(FileEntry::from_text(&format!("t{}", i), t));
    }
    let (tree, chunks) = IndexTree::from_index(&index, "dir");
    // Five entries make three chunks of at most two entries.
    assert_eq!(3, chunks.len());
    assert!(chunks.iter().all(|c| c.index.files.len() <= 2 && c.file_name.starts_with("dir/")));
    assert_eq!(36 + 4, chunks[0].file_name.len());
    // The root filter is the union of all entry filters.
    let filters: Vec<BloomFilter> = index.files.iter().map(|f| f.bloom_filter.duplicate()).collect();
    assert_eq!(BloomFilter::from_filters(&filters).filter_array, tree.bloom_filter.filter_array);
    fn check(node: &IndexTree) {
        assert!(node.child_indexes.is_empty() || node.child_nodes.is_empty());
        assert!(node.child_indexes.len() <= 2 && node.child_nodes.len() <= 2);
        for c in &node.child_nodes {
            check(c);
        }
    }
    check(&tree);
    assert!(tree.has_index_width());
    assert!(index.has_index_width());
    // With nothing pruned, every entry is compared once and no node is.
    let (files, compared) = tree.search_files("", &chunks);
    assert_eq!(5, files.len());
    assert_eq!(5, compared);
}

#[test]
fn wrong_width_is_detected() {
    let mut index = Index::new();
    index.add_file(FileEntry { file_path: "x".to_string(), bloom_filter: BloomFilter::new(&[1], 3) });
    assert!(!index.has_index_width());
}

#[test]
fn trigram_stats_most_frequent_first() {
    let t = |a: u8| Trigram { first: a, second: a, third: a };
    let mut index = Index::new();
    assert!(index.trigram_stats().is_none());
    index.trigram_counts = Some(vec![(t(b'a'), 5), (t(b'b'), 1), (t(b'c'), 3), (t(b'd'), 1)]);
    let stats = index.trigram_stats().unwrap();
    assert_eq!(vec![(t(b'a'), 5), (t(b'c'), 3), (t(b'b'), 1), (t(b'd'), 1)], stats);
}

#[test]
fn chunk_by_chunk_search_matches_search_files() {
    let index = corpus(&[("f1", "hello world"), ("f2", "goodbye"), ("f3", "say hello"), ("f4", "zebra")]);
    let (tree, chunks) = IndexTree::from_index(&index, "out");
    for query in ["hello", "xyz", "", "zebra"] {
        let (mut expected, expected_count) = tree.search_files(query, &chunks);
        let filter = rust_indexer::index::text_bloom_filter(query);
        let mut found: Vec<String> = Vec::new();
        let mut compared = tree.pruned_count(query);
        for name in tree.chunks_to_scan(query) {
            let chunk = chunks.iter().find(|c| c.file_name == name).unwrap();
            compared += chunk.index.collect_matches(&filter, &mut found);
        }
        expected.sort();
        found.sort();
        assert_eq!(expected, found);
        assert_eq!(expected_count, compared);
    }
}

#[test]
fn chunks_hold_consecutive_pairs() {
    let index = corpus(&[("a", "x1"), ("b", "x2"), ("c", "x3"), ("d", "x4"), ("e", "x5")]);
    let (_, chunks) = IndexTree::from_index(&index, "out");
    let paths: Vec<Vec<String>> = chunks
        .iter()
        .map(|c| c.index.files.iter().map(|f| f.file_path.clone()).collect())
        .collect();
    assert_eq!(vec![vec!["a", "b"], vec!["c", "d"], vec!["e"]], paths);
}
