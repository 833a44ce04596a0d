use gcatbase::tuples::{all_codons, all_nuc_tuples, all_tuples, Nucleotide};

#[test]
fn it_works() {
    assert_eq!(2 + 2, 4);
}

#[test]
fn codons() {
    let codons = all_codons();
    println!("{:?}", codons);
    assert_eq!(codons.len(), 64); // different chars
}

#[test]
fn four_tuples() {
    let tuples4 = all_nuc_tuples(4);
    println!("{:?}", tuples4);
    assert_eq!(tuples4[4], "AACA");
    assert_eq!(tuples4.len(), 256); // different chars
}

#[test]
fn four_tuples2() {
    let v = vec!["A".to_string(), "B".to_string(), "C".to_string()];
    let tuples4 = all_tuples(4, &v);
    println!("{:?}", tuples4);
    assert_eq!(tuples4[4], "AABB");
    assert_eq!(tuples4.len(), 81);
}

#[test]
fn nucs() {
    assert_eq!(Nucleotide::A.symbol(), "A");
    assert_eq!(Nucleotide::T.symbol(), "T");
    assert_eq!(Nucleotide::C.symbol(), "C");
    assert_eq!(Nucleotide::G.symbol(), "G");
}

#[test]
fn count_is_alphabet_size_to_the_n() {
    let v = vec!["x".to_string(), "y".to_string()];
    assert_eq!(all_tuples(5, &v).len(), 32);
    assert_eq!(all_nuc_tuples(1).len(), 4);
    assert_eq!(all_nuc_tuples(2).len(), 16);
}

#[test]
fn length_one_returns_the_alphabet() {
    let v = vec!["A".to_string(), "B".to_string(), "C".to_string()];
    assert_eq!(all_tuples(1, &v), v);
}

#[test]
fn length_zero_returns_the_alphabet() {
    let v = vec!["A".to_string(), "B".to_string(), "C".to_string()];
    assert_eq!(all_tuples(0, &v), v);
}

#[test]
fn multi_character_symbols() {
    let v = vec!["ab".to_string(), "cd".to_string()];
    let tuples2 = all_tuples(2, &v);
    assert_eq!(tuples2, vec!["abab", "abcd", "cdab", "cdcd"]);
    let mut i: usize = 0;
    while i < tuples2.len() {
        // two symbols of two characters each
        assert_eq!(tuples2[i].len(), 4);
        i += 1;
    }
}

#[test]
fn nucleotide_pairs_in_order() {
    let expected = vec![
        "AA", "AC", "AT", "AG", "CA", "CC", "CT", "CG", "TA", "TC", "TT", "TG", "GA", "GC", "GT",
        "GG",
    ];
    assert_eq!(all_nuc_tuples(2), expected);
}

#[test]
fn first_symbol_is_most_significant() {
    let tuples2 = all_nuc_tuples(2);
    let alphabet = vec!["A", "C", "T", "G"];
    let mut i: usize = 0;
    while i < tuples2.len() {
        // 4 tuples one level down: tuple i starts with symbol i / 4
        assert!(tuples2[i].starts_with(alphabet[i / 4]));
        i += 1;
    }
}

#[test]
fn codons_have_no_duplicates() {
    let codons = all_codons();
    assert_eq!(codons.len(), 64);
    let mut i: usize = 0;
    while i < codons.len() {
        let mut j: usize = i + 1;
        while j < codons.len() {
            assert_ne!(codons[i], codons[j]);
            j += 1;
        }
        i += 1;
    }
}

#[test]
fn empty_alphabet_gives_empty_result() {
    let v: Vec<String> = Vec::new();
    assert_eq!(all_tuples(2, &v).len(), 0);
    assert_eq!(all_tuples(1, &v).len(), 0);
}

#[test]
fn duplicate_symbols_are_kept() {
    let v = vec!["A".to_string(), "A".to_string()];
    assert_eq!(all_tuples(1, &v), vec!["A", "A"]);
    assert_eq!(all_tuples(2, &v), vec!["AA", "AA", "AA", "AA"]);
}

#[test]
fn generating_twice_gives_identical_output() {
    let v = vec!["A".to_string(), "B".to_string()];
    assert_eq!(all_tuples(3, &v), all_tuples(3, &v));
    assert_eq!(all_nuc_tuples(3), all_nuc_tuples(3));
}
