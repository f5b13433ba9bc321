use rust_indexer::inverted::IndexBatch;
use rust_indexer::trigram::Trigram;

fn sorted(mut v: Vec<String>) -> Vec<String> {
    v.sort();
    v
}

#[test]
fn exact_index_candidates() {
    let mut first = IndexBatch::new();
    first.index_buffer("a.txt", b"Hello world!");
    first.index_buffer("b.txt", b"goodbye world!");
    let mut second = IndexBatch::new();
    second.index_buffer("c.txt", b"say hello again");
    let index = IndexBatch::merge(vec![first, second]);

    assert_eq!(vec!["a.txt", "b.txt", "c.txt"], sorted(index.files.clone()));
    // The windows of "hello" that are read are "hel" and "ell".
    assert_eq!(vec!["a.txt", "c.txt"], sorted(index.get_candidates("hello")));
    assert_eq!(vec!["a.txt", "b.txt"], sorted(index.get_candidates("WORLD!")));
    // A query shorter than three bytes has no window and keeps every file.
    assert_eq!(3, index.get_candidates("ab").len());
    assert_eq!(3, index.get_candidates("").len());
    // The last window counts: "ld!" is only in a.txt and b.txt.
    assert_eq!(vec!["a.txt", "b.txt"], sorted(index.get_candidates("ld!")));
    // A trigram that no file has is not filtered on.
    assert_eq!(3, index.get_candidates("qqqq").len());
}

#[test]
fn exact_index_replaces_a_file() {
    let mut batch = IndexBatch::new();
    batch.index_buffer("a.txt", b"abcdef");
    batch.index_buffer("a.txt", b"uvwxyz");
    assert_eq!(1, batch.contained_trigrams.len());
    let index = IndexBatch::merge(vec![batch]);
    assert_eq!(vec!["a.txt"], index.get_candidates("uvwxy"));
    // Trigrams of the replaced text have no posting, so they filter nothing.
    assert_eq!(vec!["a.txt"], index.get_candidates("abcde"));
    let mut other = IndexBatch::new();
    other.index_buffer("b.txt", b"abcdef");
    other.index_buffer("a.txt", b"uvwxyz");
    let index = IndexBatch::merge(vec![other]);
    assert_eq!(vec!["b.txt"], index.get_candidates("abcde"));
}

#[test]
fn exact_index_reads_every_window() {
    let mut batch = IndexBatch::new();
    batch.index_buffer("f", b"ABCD");
    assert_eq!(
        vec![
            Trigram { first: b'a', second: b'b', third: b'c' },
            Trigram { first: b'b', second: b'c', third: b'd' }
        ],
        batch.contained_trigrams[0].trigrams
    );
    batch.index_buffer("g", b"ab");
    assert!(batch.contained_trigrams[1].trigrams.is_empty());
}

#[test]
fn trigram_create_folds_latin1() {
    let t = Trigram::create(&[b'A', 0xC9, 0xD7]);
    assert_eq!(Trigram { first: b'a', second: 0xE9, third: 0xD7 }, t);
}
