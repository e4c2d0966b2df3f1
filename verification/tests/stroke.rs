use steno::stroke::bank::subtract_strokes;
use steno::{add_key, apply_count, count_bank, merge_strokes, parse_stroke, render_stroke, KeySet, Side};

fn canon(s: &str) -> String {
    render_stroke(&parse_stroke(s).expect("stroke parses"))
}

#[test]
fn render_keeps_canonical_strokes() {
    assert_eq!(canon("STKPWHR"), "STKPWHR");
    assert_eq!(canon("-FLT"), "-FLT");
    assert_eq!(canon("#TPH"), "#TPH");
    assert_eq!(canon("AOEU"), "AOEU");
    assert_eq!(canon("PWAOEUFRBLGZ"), "PWAOEUFRBLGZ");
    assert_eq!(canon("STKWR-PBGS"), "STKWR-PBGS");
}

#[test]
fn render_reorders_into_steno_order() {
    assert_eq!(canon("RS"), "SR");
    assert_eq!(canon("EA"), "AE");
    assert_eq!(canon("-TF"), "-FT");
}

#[test]
fn render_drops_hyphen_when_vowels_separate_banks() {
    assert_eq!(canon("SA-FT"), "SAFT");
}

#[test]
fn parse_then_render_is_idempotent() {
    for s in ["RS", "-TF", "#EA", "STKWR-PBGS", "PWAOEUFRBLGZ", "*"] {
        let once = canon(s);
        assert_eq!(canon(&once), once);
    }
}

#[test]
fn parse_rejects_malformed_strokes() {
    assert!(parse_stroke("X").is_err());
    assert!(parse_stroke("A-A").is_err());
    assert!(parse_stroke("-F-T").is_err());
}

#[test]
fn parse_errors_name_the_offending_key() {
    let msg = |s: &str| parse_stroke(s).err().expect("rejected").message().to_string();
    assert_eq!(msg("TAPA"), "bad right key \"A\" in \"TAPA\" (mid key after right keys?)");
    assert_eq!(msg("XA"), "bad left key \"X\" in \"XA\"");
    assert_eq!(msg("-F-T"), "two hyphens in \"-F-T\"");
    assert_eq!(msg("X-T"), "bad left/mid key \"X\" in \"X-T\"");
    assert_eq!(msg("A-A"), "bad right key \"A\" in \"A-A\"");
}

#[test]
fn parse_separates_banks() {
    let k = parse_stroke("#STA-T").expect("stroke parses");
    assert!(k.num);
    assert!(k.left.contains('S'));
    assert!(k.left.contains('T'));
    assert!(k.mid.contains('A'));
    assert!(k.right.contains('T'));
    assert!(!k.right.contains('S'));
}

#[test]
fn keyset_collapses_duplicates() {
    let mut ks = KeySet::empty();
    ks.insert('S');
    ks.insert('T');
    ks.insert('S');
    assert_eq!(ks.keys(), vec!['S', 'T']);
    assert!(ks.contains('T'));
    assert!(!ks.contains('K'));
}

#[test]
fn merge_unions_banks() {
    assert_eq!(merge_strokes("STK", "-FLT").expect("merges"), "STK-FLT");
    assert_eq!(merge_strokes("TP", "AOEU").expect("merges"), "TPAOEU");
    assert_eq!(merge_strokes("#T", "-D").expect("merges"), "#T-D");
}

#[test]
fn merge_is_commutative() {
    for (a, b) in [("STK", "-FLT"), ("TP", "AOEU"), ("#T", "-D"), ("KWR", "E")] {
        assert_eq!(merge_strokes(a, b).expect("merges"), merge_strokes(b, a).expect("merges"));
    }
}

#[test]
fn merge_rejects_shared_key() {
    assert!(merge_strokes("ST", "S").is_err());
    assert!(merge_strokes("-T", "-T").is_err());
    assert!(merge_strokes("ST", "X").is_err());
}

#[test]
fn add_key_places_vowel_and_right_keys() {
    assert_eq!(add_key("STK", 'E').expect("adds"), "STKE");
    assert_eq!(add_key("STK", 'D').expect("adds"), "STK-D");
    assert_eq!(add_key("TPH-FT", 'U').expect("adds"), "TPHUFT");
}

#[test]
fn add_key_errors() {
    assert!(add_key("STKE", 'E').is_err());
    assert!(add_key("ST", 'K').is_err());
    assert!(add_key("X", 'E').is_err());
}

#[test]
fn count_bank_weights_are_powers_of_two() {
    let b = count_bank("AOEU").expect("bank");
    assert_eq!(b.max, 15);
    let weights: Vec<u32> = b.bits.iter().map(|x| x.weight).collect();
    assert_eq!(weights, vec![1, 2, 4, 8]);
    let keys: Vec<char> = b.bits.iter().map(|x| x.key).collect();
    assert_eq!(keys, vec!['A', 'O', 'E', 'U']);
    assert!(b.bits.iter().all(|x| x.side == Side::Mid));
    let r = count_bank("FR").expect("bank");
    assert_eq!(r.max, 3);
    assert!(r.bits.iter().all(|x| x.side == Side::Right));
    assert_eq!(count_bank("").expect("bank").max, 0);
}

#[test]
fn count_bank_rejects_left_keys() {
    assert!(count_bank("AK").is_err());
}

#[test]
fn apply_count_encodes_bits() {
    assert_eq!(apply_count("STK", "AOEU", 5).expect("count"), "STKAE");
    assert_eq!(apply_count("STK", "AOEU", 0).expect("count"), "STK");
    assert_eq!(apply_count("STK", "AOEU", 15).expect("count"), "STKAOEU");
    assert_eq!(apply_count("TP", "FR", 2).expect("count"), "TP-R");
}

#[test]
fn apply_count_errors() {
    assert!(apply_count("STK", "AOEU", 16).is_err());
    assert!(apply_count("STKA", "AOEU", 1).is_err());
    assert!(apply_count("STK", "AK", 1).is_err());
}

#[test]
fn distinct_counts_give_distinct_strokes() {
    let all: Vec<String> = (0..16).map(|c| apply_count("STK", "AOEU", c).expect("count")).collect();
    for i in 0..all.len() {
        for j in (i + 1)..all.len() {
            assert_ne!(all[i], all[j]);
        }
    }
}

#[test]
fn repeated_bank_key_aliases_counts() {
    assert_eq!(apply_count("STK", "AA", 1).expect("count"), "STKA");
    assert_eq!(apply_count("STK", "AA", 2).expect("count"), "STKA");
    assert!(apply_count("STK", "AA", 3).is_err());
}

#[test]
fn subtract_removes_shape_keys() {
    assert_eq!(subtract_strokes("STK-FLT", "-FLT").expect("parses"), Some("STK".to_string()));
    assert_eq!(subtract_strokes("STK", "-FLT").expect("parses"), None);
}

#[test]
fn bank_errors_name_their_cause() {
    assert_eq!(count_bank("AK").err().expect("rejected").message(), "@count key \"K\" is not a vowel or right-bank key");
    let long = "A".repeat(33);
    assert_eq!(
        count_bank(&long).err().expect("rejected").message(),
        format!("@count spec \"{long}\" is too long to encode")
    );
    assert_eq!(merge_strokes("SA", "TA").err().expect("rejected").message(), "merge conflict on \"A\" in \"SA\" + \"TA\"");
    assert_eq!(merge_strokes("SAO", "TOA").err().expect("rejected").message(), "merge conflict on \"O\" in \"SAO\" + \"TOA\"");
    assert_eq!(merge_strokes("SA", "SA").err().expect("rejected").message(), "merge conflict on \"S\" in \"SA\" + \"SA\"");
    assert_eq!(merge_strokes("X", "SA").err().expect("rejected").message(), "bad left key \"X\" in \"X\"");
    assert_eq!(add_key("S", 'K').err().expect("rejected").message(), "cannot add key \"K\" (not a vowel/right-bank key)");
    assert_eq!(add_key("SA", 'A').err().expect("rejected").message(), "key \"A\" already in \"SA\"");
    assert_eq!(apply_count("STK", "AOEU", 16).err().expect("rejected").message(), "count 16 out of range for bank \"AOEU\" (0..15)");
    assert_eq!(apply_count("STKA", "AOEU", 1).err().expect("rejected").message(), "count key \"A\" already present in \"STKA\"");
}

#[test]
fn hyphen_only_between_left_and_right_without_vowels() {
    for s in ["-T", "S-T", "#-D", "ST", "AT", "SAT", "A", "S", "#"] {
        let r = canon(s);
        let k = parse_stroke(s).expect("parses");
        let has_hyphen = k.mid.keys().is_empty() && !k.right.keys().is_empty();
        assert_eq!(r.contains('-'), has_hyphen, "{s}");
    }
}

#[test]
fn apply_count_chooses_keys_whose_bits_are_set() {
    assert_eq!(apply_count("T", "EU", 0).expect("applies"), "T");
    assert_eq!(apply_count("T", "EU", 1).expect("applies"), "TE");
    assert_eq!(apply_count("T", "EU", 2).expect("applies"), "TU");
    assert_eq!(apply_count("T", "EU", 3).expect("applies"), "TEU");
    assert_eq!(apply_count("S", "FR", 2).expect("applies"), "S-R");
}
