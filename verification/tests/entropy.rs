use line_entropy::frequency::{count_characters, FrequencyTable};
use line_entropy::mode::{choose_mode, RunMode};
use line_entropy::output::{test_output, threshold_output, MeasuredLine};
use line_entropy::record::test_entropy;
use line_entropy::value::{exceeds, is_entropy_above_threshold, EntropyValue};

fn pairs(table: &FrequencyTable) -> Vec<(char, usize)> {
    let mut out: Vec<(char, usize)> = Vec::new();
    for i in 0..table.len() {
        out.push((table.symbol(i), table.count(i)));
    }
    out.sort();
    out
}

fn entropy_of(line: &str) -> f64 {
    let table = count_characters(line);
    let length = line.len() as f64;
    let mut entropy = 0.0;
    for i in 0..table.len() {
        let probability = table.count(i) as f64 / length;
        entropy -= probability * probability.log2();
    }
    entropy
}

fn value_of(number: f64) -> EntropyValue {
    EntropyValue::from_bits(number.to_bits()).expect("an entropy")
}

fn above(line: &str, threshold: f64) -> bool {
    is_entropy_above_threshold(value_of(entropy_of(line)), threshold.to_bits())
}

fn record(line: &str) -> String {
    test_entropy(line, value_of(entropy_of(line)))
}

fn measured(lines: &[&str]) -> Vec<MeasuredLine> {
    lines
        .iter()
        .map(|line| MeasuredLine { text: line.to_string(), entropy: value_of(entropy_of(line)) })
        .collect()
}

fn args(words: &[&str]) -> Vec<String> {
    words.iter().map(|w| w.to_string()).collect()
}

#[test]
fn counts_each_distinct_character() {
    let table = count_characters("abca");
    assert_eq!(pairs(&table), vec![('a', 2), ('b', 1), ('c', 1)]);
}

#[test]
fn empty_line_has_no_entries() {
    let table = count_characters("");
    assert_eq!(table.len(), 0);
    assert_eq!(entropy_of(""), 0.0);
}

#[test]
fn repeated_character_has_one_entry() {
    let table = count_characters("aaaa");
    assert_eq!(pairs(&table), vec![('a', 4)]);
    assert_eq!(entropy_of("aaaa"), 0.0);
    assert_eq!(entropy_of("z"), 0.0);
}

#[test]
fn counts_are_per_character_not_per_byte() {
    let table = count_characters("\u{e9}\u{e9}x");
    assert_eq!(pairs(&table), vec![('x', 1), ('\u{e9}', 2)]);
}

#[test]
fn probabilities_are_taken_against_the_byte_length() {
    // Two characters of two bytes each: one entry of probability one half.
    assert!((entropy_of("\u{e9}\u{e9}") - 0.5).abs() < 1e-9);
}

#[test]
fn equal_shares_give_the_logarithm_of_their_number() {
    assert!((entropy_of("abcd") - 2.0).abs() < 1e-9);
    assert!((entropy_of("abab") - 1.0).abs() < 1e-9);
    assert!((entropy_of("abcdefghabcdefgh") - 3.0).abs() < 1e-9);
    assert!((entropy_of("abcabc") - 3.0f64.log2()).abs() < 1e-9);
}

#[test]
fn permuted_lines_have_the_same_table() {
    assert_eq!(pairs(&count_characters("aabbbc")), pairs(&count_characters("bcabab")));
    assert!((entropy_of("aabbbc") - entropy_of("bcabab")).abs() < 1e-9);
    assert_eq!("h\u{e9}llo".len(), "oll\u{e9}h".len());
    assert!((entropy_of("h\u{e9}llo") - entropy_of("oll\u{e9}h")).abs() < 1e-9);
}

#[test]
fn from_bits_takes_finite_entropies_only() {
    assert!(EntropyValue::from_bits(0.0f64.to_bits()).is_some());
    assert!(EntropyValue::from_bits(2.0f64.to_bits()).is_some());
    assert!(EntropyValue::from_bits(64.0f64.to_bits()).is_some());
    assert!(EntropyValue::from_bits(127.9999f64.to_bits()).is_some());
    assert!(EntropyValue::from_bits(f64::MIN_POSITIVE.to_bits()).is_some());
    assert!(EntropyValue::from_bits(5e-324f64.to_bits()).is_some());
    assert!(EntropyValue::from_bits(128.0f64.to_bits()).is_none());
    assert!(EntropyValue::from_bits((-0.0f64).to_bits()).is_none());
    assert!(EntropyValue::from_bits((-1.0f64).to_bits()).is_none());
    assert!(EntropyValue::from_bits(f64::INFINITY.to_bits()).is_none());
    assert!(EntropyValue::from_bits(f64::NAN.to_bits()).is_none());
    assert_eq!(value_of(1.5).to_bits(), 1.5f64.to_bits());
}

#[test]
fn ten_thousandths_of_exact_values() {
    assert_eq!(value_of(0.0).ten_thousandths(), 0);
    assert_eq!(value_of(2.0).ten_thousandths(), 20_000);
    assert_eq!(value_of(0.5).ten_thousandths(), 5_000);
    assert_eq!(value_of(1.5849625007211560).ten_thousandths(), 15_850);
    assert_eq!(value_of(127.99999).ten_thousandths(), 1_280_000);
    assert_eq!(value_of(5e-324).ten_thousandths(), 0);
    assert_eq!(value_of(1e-30).ten_thousandths(), 0);
}

#[test]
fn ten_thousandths_round_a_tie_to_even() {
    // 1/32 is 312.5 ten-thousandths, 3/32 is 937.5.
    assert_eq!(value_of(0.03125).ten_thousandths(), 312);
    assert_eq!(value_of(0.09375).ten_thousandths(), 938);
    assert_eq!(value_of(0.00005).ten_thousandths(), 1);
    assert_eq!(value_of(0.00004999).ten_thousandths(), 0);
}

#[test]
fn record_matches_the_standard_rendering() {
    let samples: [f64; 16] = [
        0.0, 0.5, 1.0, 2.0, 0.03125, 0.09375, 0.00005, 0.99995, 9.99995, 1.5849625007211560,
        3.3219280948873626, 12.000049, 63.99999, 100.0, 5e-324, 0.12345,
    ];
    for sample in samples {
        let expected = format!("Entropy: {:.4} | String: {}", sample, "some | text");
        assert_eq!(test_entropy("some | text", value_of(sample)), expected);
    }
}

#[test]
fn record_matches_the_standard_rendering_on_a_sweep() {
    let mut bits: u64 = 0.0001f64.to_bits();
    let end: u64 = 100.0f64.to_bits();
    while bits < end {
        let sample = f64::from_bits(bits);
        let expected = format!("Entropy: {:.4} | String: ", sample);
        assert_eq!(test_entropy("", value_of(sample)), expected);
        bits += 0x0000_0123_4567_89ab;
    }
}

#[test]
fn record_keeps_the_line_verbatim() {
    assert_eq!(record("a|b\tc"), format!("Entropy: {:.4} | String: a|b\tc", entropy_of("a|b\tc")));
    assert_eq!(record("abcd"), "Entropy: 2.0000 | String: abcd");
}

#[test]
fn exceeds_orders_as_the_numbers_do() {
    let samples: [f64; 15] = [
        f64::NEG_INFINITY, -1e300, -2.0, -1.0, -5e-324, -0.0, 0.0, 5e-324, 1e-9, 1.0, 1.0000000000000002,
        2.0, 1e300, f64::INFINITY, f64::NAN,
    ];
    for left in samples {
        for right in samples {
            assert_eq!(exceeds(left.to_bits(), right.to_bits()), left > right, "{} > {}", left, right);
        }
    }
}

#[test]
fn equal_entropy_is_not_above() {
    assert!(!is_entropy_above_threshold(value_of(2.0), 2.0f64.to_bits()));
    assert!(is_entropy_above_threshold(value_of(2.0), 1.9999999f64.to_bits()));
    assert!(!is_entropy_above_threshold(value_of(0.0), (-0.0f64).to_bits()));
    assert!(is_entropy_above_threshold(value_of(0.0), (-1.0f64).to_bits()));
    assert!(!is_entropy_above_threshold(value_of(3.0), f64::NAN.to_bits()));
}

#[test]
fn lower_threshold_keeps_what_was_above() {
    let lines = ["", "aaaa", "abab", "abcd", "hello world", "Zx9$kQ2!pL7#"];
    let thresholds = [-1.0, 0.0, 0.5, 1.0, 1.5, 2.0, 3.0, 10.0];
    for line in lines {
        for upper in thresholds {
            for lower in thresholds {
                if lower < upper && above(line, upper) {
                    assert!(above(line, lower));
                }
            }
        }
    }
}

#[test]
fn threshold_mode_selects_lines_above_one() {
    let lines = ["aaaa", "abcd", ""];
    let kept: Vec<&str> = lines.iter().copied().filter(|line| above(line, 1.0)).collect();
    assert_eq!(kept, vec!["abcd"]);
}

#[test]
fn test_mode_annotates_every_line() {
    let lines = ["aaaa", "abcd", ""];
    let records: Vec<String> = lines.iter().map(|line| record(line)).collect();
    assert_eq!(
        records,
        vec![
            "Entropy: 0.0000 | String: aaaa".to_string(),
            "Entropy: 2.0000 | String: abcd".to_string(),
            "Entropy: 0.0000 | String: ".to_string(),
        ]
    );
}

#[test]
fn too_few_arguments_ask_for_usage() {
    assert_eq!(choose_mode(&args(&[])), RunMode::Usage);
    assert_eq!(choose_mode(&args(&["prog"])), RunMode::Usage);
    assert_eq!(choose_mode(&args(&["prog", "in"])), RunMode::Usage);
    assert_eq!(choose_mode(&args(&["prog", "--test"])), RunMode::Usage);
}

#[test]
fn paths_alone_name_no_mode() {
    assert_eq!(choose_mode(&args(&["prog", "in", "out"])), RunMode::MissingMode);
    assert_eq!(choose_mode(&args(&["prog", "in", "out", "1.0", "extra"])), RunMode::MissingMode);
}

#[test]
fn test_flag_counts_wherever_it_stands() {
    assert_eq!(choose_mode(&args(&["prog", "in", "out", "--test"])), RunMode::Test);
    assert_eq!(choose_mode(&args(&["prog", "in", "--test"])), RunMode::Test);
    assert_eq!(choose_mode(&args(&["prog", "in", "out", "1.0", "--test"])), RunMode::Test);
}

#[test]
fn fourth_argument_is_the_threshold() {
    assert_eq!(choose_mode(&args(&["prog", "in", "out", "1.0"])), RunMode::Threshold);
    assert_eq!(choose_mode(&args(&["prog", "in", "out", "abc"])), RunMode::Threshold);
    assert_eq!(choose_mode(&args(&["prog", "in", "out", "--tests"])), RunMode::Threshold);
}

#[test]
fn threshold_output_keeps_order_and_text() {
    let lines = measured(&["abcd", "aaaa", "a|b c", "", "abcd", "xyzw1234"]);
    assert_eq!(threshold_output(&lines, 1.0f64.to_bits()), vec!["abcd", "a|b c", "abcd", "xyzw1234"]);
    assert_eq!(threshold_output(&lines, 2.0f64.to_bits()), vec!["a|b c", "xyzw1234"]);
    assert_eq!(threshold_output(&lines, 3.0f64.to_bits()), Vec::<String>::new());
    assert_eq!(threshold_output(&lines, f64::NAN.to_bits()), Vec::<String>::new());
}

#[test]
fn threshold_output_may_keep_every_line() {
    let lines = measured(&["abcd", "ab"]);
    assert_eq!(threshold_output(&lines, 0.5f64.to_bits()), vec!["abcd", "ab"]);
    assert_eq!(threshold_output(&lines, (-1.0f64).to_bits()), vec!["abcd", "ab"]);
    assert_eq!(threshold_output(&measured(&[]), 0.0f64.to_bits()), Vec::<String>::new());
}

#[test]
fn threshold_output_of_the_three_lines() {
    let lines = measured(&["aaaa", "abcd", ""]);
    assert_eq!(threshold_output(&lines, 1.0f64.to_bits()), vec!["abcd"]);
}

#[test]
fn test_output_has_one_record_per_line() {
    let lines = measured(&["aaaa", "abcd", ""]);
    assert_eq!(
        test_output(&lines),
        vec![
            "Entropy: 0.0000 | String: aaaa",
            "Entropy: 2.0000 | String: abcd",
            "Entropy: 0.0000 | String: ",
        ]
    );
    assert_eq!(test_output(&measured(&[])), Vec::<String>::new());
}

#[test]
fn test_output_follows_the_given_entropy() {
    let lines = vec![
        MeasuredLine { text: "x".to_string(), entropy: value_of(1.58496) },
        MeasuredLine { text: "y".to_string(), entropy: value_of(12.5) },
    ];
    assert_eq!(
        test_output(&lines),
        vec!["Entropy: 1.5850 | String: x", "Entropy: 12.5000 | String: y"]
    );
}

#[test]
fn counts_add_up_to_the_character_count() {
    for line in ["", "a", "hello world", "h\u{e9}llo w\u{f6}rld", "\u{1f600}\u{1f600}a"] {
        let table = count_characters(line);
        let total: usize = (0..table.len()).map(|i| table.count(i)).sum();
        assert_eq!(total, line.chars().count());
    }
}

#[test]
fn equal_shares_fill_every_entry_alike() {
    let table = count_characters("abcabcabc");
    assert_eq!(pairs(&table), vec![('a', 3), ('b', 3), ('c', 3)]);
    assert_eq!(table.len() * 3, 9);
}

#[test]
fn long_line_with_many_characters_is_counted() {
    let line: String = (0..300_000u32).map(|i| char::from_u32(0x4e00 + i % 1000).unwrap()).collect();
    let table = count_characters(&line);
    assert_eq!(table.len(), 1000);
    for i in 0..table.len() {
        assert_eq!(table.count(i), 300);
    }
    // Three bytes a character: every probability is a three-thousandth.
    assert!((entropy_of(&line) - (3000.0f64).log2() / 3.0).abs() < 1e-9);
}
