//! Tokenizers, datasets and loaders.

use sptorch::data::bpe::BpeTokenizer;
use sptorch::data::dataset::{Dataset, TextDataset};
use sptorch::data::loader::DataLoader;
use sptorch::data::tokenizer::{CharTokenizer, Tokenizer};

#[test]
fn test_char_tokenizer() {
    let tok = CharTokenizer::from_text("hello");
    assert_eq!(tok.vocab_size(), 4); // e, h, l, o
    let ids = tok.encode("hello");
    assert_eq!(ids.len(), 5);
    assert_eq!(tok.decode(&ids), "hello");
}
#[test]
fn test_char_tokenizer_roundtrip() {
    let text = "the quick brown fox";
    let tok = CharTokenizer::from_text(text);
    let ids = tok.encode(text);
    assert_eq!(tok.decode(&ids), text);
}
#[test]
fn test_text_dataset() {
    let tokens = vec![0, 1, 2, 3, 4, 5, 6, 7];
    let ds = TextDataset::new(tokens, 4);
    assert_eq!(ds.len(), 4); // 8 - 4 = 4 valid positions
    let (inp, tgt) = ds.get(0);
    assert_eq!(inp, vec![0, 1, 2, 3]);
    assert_eq!(tgt, vec![1, 2, 3, 4]);
}
#[test]
fn test_dataloader_no_shuffle() {
    let tokens = vec![0, 1, 2, 3, 4, 5];
    let ds = TextDataset::new(tokens, 2);
    // len = 6 - 2 = 4 samples
    let mut dl = DataLoader::new(&ds, 2, false);
    let batch1 = dl.next_batch().unwrap();
    assert_eq!(batch1.0.len(), 2);
    let batch2 = dl.next_batch().unwrap();
    assert_eq!(batch2.0.len(), 2);
    assert!(dl.next_batch().is_none());
}
#[test]
fn test_dataloader_reset() {
    let tokens = vec![0, 1, 2, 3, 4];
    let ds = TextDataset::new(tokens, 2);
    let mut dl = DataLoader::new(&ds, 10, false);
    let _ = dl.next_batch();
    assert!(dl.next_batch().is_none());
    dl.reset();
    assert!(dl.next_batch().is_some());
}
#[test]
fn test_dataloader_num_batches() {
    let tokens = vec![0, 1, 2, 3, 4, 5, 6, 7, 8, 9];
    let ds = TextDataset::new(tokens, 3);
    let dl = DataLoader::new(&ds, 3, false);
    assert_eq!(dl.num_batches(), 3);
}

// --- BPE Tokenizer tests ---

#[test]
fn test_bpe_train_basic() {
    let text = "aaabdaaabac";
    let tok = BpeTokenizer::train(text, 10);
    assert!(tok.vocab_size() > 4); // at least a,b,c,d + some merges
    assert!(tok.vocab_size() <= 10);
}
#[test]
fn test_bpe_roundtrip() {
    let text = "the quick brown fox jumps over the lazy dog";
    let tok = BpeTokenizer::train(text, 50);
    let ids = tok.encode(text);
    let decoded = tok.decode(&ids);
    assert_eq!(decoded, text);
}
#[test]
fn test_bpe_compression() {
    let text = "hello hello hello hello hello world world world";
    let tok = BpeTokenizer::train(text, 30);
    let ids = tok.encode(text);
    assert!(ids.len() < text.len());
}
#[test]
fn test_bpe_vocab_contains_merges() {
    let text = "abababab";
    let tok = BpeTokenizer::train(text, 5);
    assert!(tok.vocab().iter().any(|s| s == "ab"));
}

#[test]
fn shuffled_batches_hold_every_sample_once() {
    let tokens: Vec<usize> = (0..41).collect();
    let dataset = TextDataset::new(tokens, 1);
    let mut loader = DataLoader::new(&dataset, 3, true);
    let mut seen = Vec::new();
    while let Some((inputs, targets)) = loader.next_batch() {
        for (input, target) in inputs.iter().zip(&targets) {
            assert_eq!(target[0], input[0] + 1);
            seen.push(input[0]);
        }
    }
    let in_order = seen.clone();
    seen.sort();
    assert_eq!(seen, (0..40).collect::<Vec<usize>>());

    // Three orders of forty samples that are all the same would be a miracle.
    let mut orders = vec![in_order];
    for _ in 0..2 {
        loader.reset();
        let mut order = Vec::new();
        while let Some((inputs, _targets)) = loader.next_batch() {
            order.extend(inputs.iter().map(|input| input[0]));
        }
        orders.push(order);
    }
    let sorted: Vec<usize> = (0..40).collect();
    assert!(orders.iter().any(|order| *order != sorted));
}

#[test]
fn unknown_characters_are_left_out() {
    let tok = CharTokenizer::from_text("hello");
    assert_eq!(tok.encode("hxe").len(), tok.encode("he").len());
    assert_eq!(tok.decode(&tok.encode("hole")), "hole");
}

#[test]
fn short_texts_make_no_samples() {
    let dataset = TextDataset::new(vec![1, 2, 3], 3);
    assert!(dataset.is_empty());
    let dataset = TextDataset::new(vec![1, 2, 3, 4], 3);
    assert_eq!(dataset.len(), 1);
    assert_eq!(dataset.get(0), (vec![1, 2, 3], vec![2, 3, 4]));
}

#[test]
fn the_most_frequent_pair_is_joined_first() {
    let tok = BpeTokenizer::train("abababac", 4);
    assert_eq!(tok.vocab_size(), 4);
    assert_eq!(tok.vocab()[3], "ab");
    assert_eq!(tok.encode("abac"), vec![3, 0, 2]);
    assert_eq!(tok.decode(&[3, 0, 2]), "abac");
}
