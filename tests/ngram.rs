use std::collections::HashMap;

use crypta_rs::utils::bytesreader::BytesReader;
use crypta_rs::utils::ngram::{JsonNgramCounter, NGramSpliter, NgramCounter, NgramError};

fn counts_of(counter: &NgramCounter) -> HashMap<Vec<u8>, usize> {
    let entries = counter.count();
    let map: HashMap<Vec<u8>, usize> = entries.iter().cloned().collect();
    assert_eq!(map.len(), entries.len());
    map
}

fn all_groups(bytes: &[u8], ngram: usize, padding: u8) -> Vec<Vec<u8>> {
    let mut spliter = NGramSpliter::with_padding(BytesReader::new(bytes), ngram, padding).unwrap();
    let mut groups = vec![];
    while let Some(gram) = spliter.next() {
        groups.push(gram);
    }
    groups
}

#[test]
fn test_spliter_1() {
    let text = [1, 1, 2, 2, 3, 3, 4, 4];
    let br = BytesReader::new(&text);
    let mut i = 0;

    let mut spliter = NGramSpliter::new(br, 1).unwrap();

    while let Some(gram) = spliter.next() {
        let tg = vec![text[i].clone()];
        assert_eq!(gram, tg);
        i += 1;
    }
}

#[test]
fn test_spliter_2() {
    let text = [1, 1, 2, 2, 3, 3, 4, 4];
    let br = BytesReader::new(&text);
    let mut i = 0;

    let mut spliter = NGramSpliter::new(br, 2).unwrap();

    while let Some(gram) = spliter.next() {
        let tg = vec![text[i], text[i + 1]];
        assert_eq!(gram, tg);
        i += 2;
    }
}

#[test]
fn test_spliter_3() {
    let text = [1, 1, 2, 2, 3, 3, 4, 4];
    let br = BytesReader::new(&text);
    let mut i = 0;

    let mut spliter = NGramSpliter::new(br, 3).unwrap();

    while let Some(gram) = spliter.next() {
        let tg = if i + 2 < 8 {
            vec![text[i], text[i + 1], text[i + 2]]
        } else {
            vec![text[i], text[i + 1], 0]
        };

        assert_eq!(gram, tg);
        i += 3;
    }
}

#[test]
fn test_spliter_4() {
    let text: [u8; 0] = [];
    let br = BytesReader::new(&text);

    let mut spliter = NGramSpliter::new(br, 2).unwrap();
    assert_eq!(spliter.next(), None);
}

#[test]
fn test_ngramcounter_1() {
    let text = [1, 1, 2, 2, 2, 3];
    let counter = NgramCounter::from_bytes(&text, 1).unwrap();

    let mut count_oracle = HashMap::new();
    count_oracle.insert(vec![1], 2);
    count_oracle.insert(vec![2], 3);
    count_oracle.insert(vec![3], 1);

    assert_eq!(counter.size(), 6);
    assert_eq!(counts_of(&counter), count_oracle);
}

#[test]
fn test_ngramcounter_2() {
    let text = [1, 1, 2, 2, 2, 2];
    let counter = NgramCounter::from_bytes(&text, 2).unwrap();

    let mut count_oracle = HashMap::new();
    count_oracle.insert(vec![1, 1], 1);
    count_oracle.insert(vec![2, 2], 2);

    assert_eq!(counter.size(), 3);
    assert_eq!(counts_of(&counter), count_oracle);
}

#[test]
fn test_ngramcounter_3() {
    let text = [1, 1, 1, 2, 2];
    let counter = NgramCounter::from_bytes(&text, 3).unwrap();

    let mut count_oracle = HashMap::new();
    count_oracle.insert(vec![1, 1, 1], 1);
    count_oracle.insert(vec![2, 2, 0], 1);

    assert_eq!(counter.size(), 2);
    assert_eq!(counts_of(&counter), count_oracle);
}

#[test]
fn test_ngramcounter_4() {
    let text: [u8; 0] = [];
    let counter = NgramCounter::from_bytes(&text, 2).unwrap();

    let count_oracle = HashMap::new();

    assert_eq!(counter.size(), 0);
    assert_eq!(counts_of(&counter), count_oracle);
}

#[test]
fn test_ngramcounter_5() {
    let text = [1, 1, 1, 2, 2];
    let mut counter = NgramCounter::from_bytes(&text, 3).unwrap();
    counter.append_bytes(&text);

    let mut count_oracle = HashMap::new();
    count_oracle.insert(vec![1, 1, 1], 2);
    count_oracle.insert(vec![2, 2, 0], 2);

    assert_eq!(counter.size(), 4);
    assert_eq!(counts_of(&counter), count_oracle);
}

#[test]
fn spliter_group_count_is_ceiling() {
    let text: Vec<u8> = (0..10).collect();
    assert_eq!(all_groups(&text, 1, 0).len(), 10);
    assert_eq!(all_groups(&text, 3, 0).len(), 4);
    assert_eq!(all_groups(&text, 5, 0).len(), 2);
    assert_eq!(all_groups(&text, 10, 0).len(), 1);
    assert_eq!(all_groups(&text, 11, 0).len(), 1);
    assert_eq!(all_groups(&[], 4, 0).len(), 0);
}

#[test]
fn spliter_full_groups_are_input_slices() {
    let text = [10, 20, 30, 40, 50, 60, 70];
    let groups = all_groups(&text, 3, 0);
    assert_eq!(groups.len(), 3);
    assert_eq!(groups[0], text[0..3].to_vec());
    assert_eq!(groups[1], text[3..6].to_vec());
}

#[test]
fn spliter_last_group_uses_padding_byte() {
    let text = [10, 20, 30, 40, 50, 60, 70];
    let groups = all_groups(&text, 4, 0xff);
    assert_eq!(groups, vec![vec![10, 20, 30, 40], vec![50, 60, 70, 0xff]]);
    let groups = all_groups(&[5], 3, 9);
    assert_eq!(groups, vec![vec![5, 9, 9]]);
}

#[test]
fn spliter_exact_multiple_has_no_padded_group() {
    let groups = all_groups(&[1, 2, 3, 4], 2, 7);
    assert_eq!(groups, vec![vec![1, 2], vec![3, 4]]);
}

#[test]
fn spliter_stays_exhausted() {
    let text = [1, 2, 3];
    let mut spliter = NGramSpliter::new(BytesReader::new(&text), 2).unwrap();
    assert_eq!(spliter.next(), Some(vec![1, 2]));
    assert_eq!(spliter.next(), Some(vec![3, 0]));
    assert_eq!(spliter.next(), None);
    assert_eq!(spliter.next(), None);
}

#[test]
fn spliter_rejects_zero_ngram() {
    let text = [1, 2, 3];
    assert!(matches!(
        NGramSpliter::new(BytesReader::new(&text), 0),
        Err(NgramError::InvalidConfiguration)
    ));
    assert!(matches!(
        NGramSpliter::with_padding(BytesReader::new(&text), 0, 1),
        Err(NgramError::InvalidConfiguration)
    ));
    let spliter = NGramSpliter::with_padding(BytesReader::new(&text), 2, 1).unwrap();
    assert_eq!(spliter.ngram(), 2);
}

#[test]
fn counter_rejects_zero_ngram() {
    assert!(matches!(NgramCounter::new(0), Err(NgramError::InvalidConfiguration)));
    assert!(matches!(
        NgramCounter::from_bytes(&[1, 2], 0),
        Err(NgramError::InvalidConfiguration)
    ));
    assert!(matches!(
        NgramCounter::from_read(BytesReader::new(&[1, 2]), 0),
        Err(NgramError::InvalidConfiguration)
    ));
}

#[test]
fn counter_rejects_spliter_of_other_size() {
    let text = [1, 1, 2, 2];
    let mut counter = NgramCounter::from_bytes(&text, 2).unwrap();
    let spliter = NGramSpliter::new(BytesReader::new(&text), 1).unwrap();
    assert_eq!(counter.append(spliter), Err(NgramError::NgramMismatch));
    assert_eq!(counter.size(), 2);
    assert_eq!(counter.ngram(), 2);

    let spliter = NGramSpliter::new(BytesReader::new(&text), 2).unwrap();
    assert_eq!(counter.append(spliter), Ok(()));
    assert_eq!(counter.size(), 4);
    let mut count_oracle = HashMap::new();
    count_oracle.insert(vec![1, 1], 2);
    count_oracle.insert(vec![2, 2], 2);
    assert_eq!(counts_of(&counter), count_oracle);
}

#[test]
fn counter_from_spliter_takes_its_size_and_padding() {
    let text = [1, 2, 3, 1, 2];
    let spliter = NGramSpliter::with_padding(BytesReader::new(&text), 3, 3).unwrap();
    let counter = NgramCounter::from_spliter(spliter);
    assert_eq!(counter.ngram(), 3);
    assert_eq!(counter.size(), 2);
    assert_eq!(counter.count(), &vec![(vec![1, 2, 3], 2)]);
}

#[test]
fn counter_append_read_accumulates() {
    let mut counter = NgramCounter::new(2).unwrap();
    assert_eq!(counter.size(), 0);
    counter.append_read(BytesReader::new(&[5, 6, 7]));
    counter.append_read(BytesReader::new(&[5, 6]));
    assert_eq!(counter.size(), 3);
    assert_eq!(counter.count(), &vec![(vec![5, 6], 2), (vec![7, 0], 1)]);
}

#[test]
fn counter_counts_sum_to_size() {
    let text = [3, 1, 4, 1, 5, 9, 2, 6, 5, 3, 5];
    let mut counter = NgramCounter::from_bytes(&text, 2).unwrap();
    counter.append_bytes(&text[..5]);
    counter.append_bytes(&[]);
    let total: usize = counter.count().iter().map(|e| e.1).sum();
    assert_eq!(total, counter.size());
    assert_eq!(counter.size(), 6 + 3);
}

#[test]
fn frequencies_sum_to_one() {
    let text = [1, 1, 2, 2, 2, 3, 4];
    let counter = NgramCounter::from_bytes(&text, 1).unwrap();
    let size = counter.size() as f64;
    let sum: f64 = counter.count().iter().map(|e| e.1 as f64 / size).sum();
    assert!((sum - 1.0).abs() < 1e-12);
}

#[test]
fn counting_twice_gives_same_counts() {
    let text = [9, 8, 9, 8, 7, 9, 8];
    let a = NgramCounter::from_bytes(&text, 2).unwrap();
    let b = NgramCounter::from_bytes(&text, 2).unwrap();
    assert_eq!(a.size(), b.size());
    assert_eq!(counts_of(&a), counts_of(&b));
}

#[test]
fn counter_entries_keep_first_occurrence_order() {
    let counter = NgramCounter::from_bytes(&[3, 1, 3, 2, 1], 1).unwrap();
    assert_eq!(counter.count_owned(), vec![(vec![3], 2), (vec![1], 2), (vec![2], 1)]);
}

#[test]
fn json_counter_carries_size_entries_and_total() {
    let counter = NgramCounter::from_bytes(&[1, 1, 1, 2, 2], 3).unwrap();
    let json: JsonNgramCounter = counter.to_json();
    assert_eq!(json.ngram, 3);
    assert_eq!(json.size, 2);
    assert_eq!(json.count, vec![(vec![1, 1, 1], 1), (vec![2, 2, 0], 1)]);

    let counter = NgramCounter::from_bytes(&[4, 4], 1).unwrap();
    let json = JsonNgramCounter::new(counter);
    assert_eq!(json.count, vec![(vec![4], 2)]);
}
