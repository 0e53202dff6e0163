use captain_crunch::error::GenError;
use captain_crunch::product::ProductEngine;
use permutator::CartesianProductIterator;

fn owned(items: &[&str]) -> Vec<String> {
    items.iter().map(|s| s.to_string()).collect()
}

fn fields(lists: &[&[&str]]) -> Vec<Vec<String>> {
    lists.iter().map(|l| owned(l)).collect()
}

fn error_of(result: Result<ProductEngine, GenError>) -> Option<GenError> {
    match result {
        Ok(_) => None,
        Err(e) => Some(e),
    }
}

#[test]
fn total_is_the_product_of_the_sizes() {
    let engine = ProductEngine::new(fields(&[&["x", "y"], &["1", "2", "3"]])).unwrap();
    assert_eq!(engine.total(), 6);
    let engine = ProductEngine::new(fields(&[&["a"], &["b"], &["c"]])).unwrap();
    assert_eq!(engine.total(), 1);
    let engine =
        ProductEngine::new(fields(&[&["a", "b", "c"], &["d", "e", "f", "g"], &["h", "i"]]))
            .unwrap();
    assert_eq!(engine.total(), 24);
}

#[test]
fn no_fields_make_one_empty_combination() {
    let engine = ProductEngine::new(Vec::new()).unwrap();
    assert_eq!(engine.total(), 1);
    assert_eq!(engine.decode(0), Vec::<String>::new());
    assert_eq!(engine.word(0), "");
}

#[test]
fn the_last_field_changes_fastest() {
    let engine = ProductEngine::new(fields(&[&["x", "y"], &["1", "2", "3"]])).unwrap();
    assert_eq!(engine.decode(0), owned(&["x", "1"]));
    assert_eq!(engine.decode(1), owned(&["x", "2"]));
    assert_eq!(engine.decode(2), owned(&["x", "3"]));
    assert_eq!(engine.decode(3), owned(&["y", "1"]));
    assert_eq!(engine.decode(4), owned(&["y", "2"]));
    assert_eq!(engine.decode(5), owned(&["y", "3"]));
}

#[test]
fn digits_follow_the_mixed_radix() {
    let engine =
        ProductEngine::new(fields(&[&["a", "b", "c"], &["d", "e", "f", "g"], &["h", "i"]]))
            .unwrap();
    // 17 = 2 * (4 * 2) + 0 * 2 + 1
    assert_eq!(engine.decode(17), owned(&["c", "d", "i"]));
    // 14 = 1 * (4 * 2) + 3 * 2 + 0
    assert_eq!(engine.decode(14), owned(&["b", "g", "h"]));
    assert_eq!(engine.decode(23), owned(&["c", "g", "i"]));
}

#[test]
fn a_word_is_its_combination_joined() {
    let engine = ProductEngine::new(fields(&[&["ab", ""], &["-"], &["1", "23"]])).unwrap();
    assert_eq!(engine.word(0), "ab-1");
    assert_eq!(engine.word(1), "ab-23");
    assert_eq!(engine.word(2), "-1");
    assert_eq!(engine.word(3), "-23");
    for i in 0..engine.total() {
        assert_eq!(engine.word(i), engine.decode(i).concat());
    }
}

#[test]
fn an_index_past_the_total_wraps_around() {
    let engine = ProductEngine::new(fields(&[&["x", "y"], &["1", "2", "3"]])).unwrap();
    assert_eq!(engine.decode(6), engine.decode(0));
    assert_eq!(engine.decode(11), engine.decode(5));
    assert_eq!(engine.word(u128::MAX), engine.word(u128::MAX % 6));
}

#[test]
fn decoding_all_indices_gives_the_nested_loops() {
    let a = owned(&["a", "b", "c"]);
    let b = owned(&["0", "1"]);
    let c = owned(&["x", "y", "z", "w"]);
    let engine = ProductEngine::new(vec![a.clone(), b.clone(), c.clone()]).unwrap();
    let mut expected = Vec::new();
    for x in &a {
        for y in &b {
            for z in &c {
                expected.push(vec![x.clone(), y.clone(), z.clone()]);
            }
        }
    }
    assert_eq!(engine.total(), expected.len() as u128);
    let decoded: Vec<Vec<String>> = (0..engine.total()).map(|i| engine.decode(i)).collect();
    assert_eq!(decoded, expected);
    for i in 0..decoded.len() {
        for j in 0..i {
            assert_ne!(decoded[i], decoded[j]);
        }
    }
}

#[test]
fn decoding_agrees_with_the_cartesian_product_iterator() {
    let lists = fields(&[&["p", "q"], &["1", "2", "3"], &["", "!"], &["k"]]);
    let engine = ProductEngine::new(lists.clone()).unwrap();
    let domains: Vec<&[String]> = lists.iter().map(|l| &l[..]).collect();
    let mut index: u128 = 0;
    for combination in CartesianProductIterator::new(&domains[..]) {
        let expected: Vec<String> = combination.iter().map(|s| (*s).clone()).collect();
        assert_eq!(engine.decode(index), expected);
        index += 1;
    }
    assert_eq!(index, engine.total());
}

#[test]
fn repeated_candidates_repeat_combinations() {
    let engine = ProductEngine::new(fields(&[&["a", "a"]])).unwrap();
    assert_eq!(engine.total(), 2);
    assert_eq!(engine.decode(0), engine.decode(1));
}

#[test]
fn an_empty_field_is_refused() {
    assert_eq!(error_of(ProductEngine::new(vec![Vec::new()])), Some(GenError::EmptyField));
    assert_eq!(
        error_of(ProductEngine::new(fields(&[&["x", "y"], &[], &["1"]]))),
        Some(GenError::EmptyField)
    );
    assert_eq!(
        error_of(ProductEngine::new(fields(&[&["x"], &["1"], &[]]))),
        Some(GenError::EmptyField)
    );
}

#[test]
fn a_total_beyond_128_bits_is_refused() {
    let pair = owned(&["0", "1"]);
    let lists: Vec<Vec<String>> = (0..128).map(|_| pair.clone()).collect();
    assert_eq!(error_of(ProductEngine::new(lists)), Some(GenError::CountOverflow));
    let lists: Vec<Vec<String>> = (0..200).map(|_| pair.clone()).collect();
    assert_eq!(error_of(ProductEngine::new(lists)), Some(GenError::CountOverflow));
}

#[test]
fn the_largest_total_that_fits_is_accepted() {
    let pair = owned(&["0", "1"]);
    let lists: Vec<Vec<String>> = (0..127).map(|_| pair.clone()).collect();
    let engine = ProductEngine::new(lists).unwrap();
    assert_eq!(engine.total(), 1u128 << 127);
    let word = engine.word((1u128 << 127) - 1);
    assert_eq!(word, "1".repeat(127));
    let word = engine.word(1u128 << 126);
    assert_eq!(word, format!("1{}", "0".repeat(126)));
}

#[test]
fn an_empty_field_counts_before_an_overflow() {
    let pair = owned(&["0", "1"]);
    let mut lists: Vec<Vec<String>> = (0..200).map(|_| pair.clone()).collect();
    lists.push(Vec::new());
    assert_eq!(error_of(ProductEngine::new(lists)), Some(GenError::EmptyField));
}
