//! A substring search engine over a directory of text files. The trigrams of
//! each file go into a fixed-width Bloom filter; a tree whose nodes hold the
//! unions of the filters below them prunes whole subtrees during a search.
pub mod batching;
pub mod bloom;
pub mod byte_bloom;
pub mod index;
pub mod inverted;
pub mod scraping;
pub mod tree;
pub mod trigram;
