use qsv_sniffer::chain::Chain;
use qsv_sniffer::metadata::Comment;
use qsv_sniffer::metadata::Dialect;
use qsv_sniffer::metadata::Escape;
use qsv_sniffer::metadata::Header;
use qsv_sniffer::metadata::Quote;
use qsv_sniffer::field_type::infer_boolean;
use qsv_sniffer::field_type::TypeGuesses;
use qsv_sniffer::infer_type::infer_types;
use qsv_sniffer::sample::take_sample;
use qsv_sniffer::snip::preamble_skipcount;
use qsv_sniffer::SampleSize;
use qsv_sniffer::Type;

fn bytes(s: &str) -> Vec<u8> {
    s.as_bytes().to_vec()
}

#[test]
fn test_infer_types_unsigned() {
    let t = infer_types("42");
    assert!(t.text && t.unsigned && t.signed && t.float);
    assert!(!t.boolean);
}

#[test]
fn test_infer_types_signed_only() {
    let t = infer_types("-7");
    assert!(t.signed && t.float && t.text);
    assert!(!t.unsigned);
}

#[test]
fn test_infer_types_plus_sign() {
    let t = infer_types("+5");
    assert!(t.unsigned && t.signed && t.float);
}

#[test]
fn test_infer_types_float_forms() {
    assert!(infer_types("3.5").float);
    assert!(!infer_types("3.5").unsigned);
    assert!(infer_types(".5").float);
    assert!(infer_types("5.").float);
    assert!(infer_types("1e9").float);
    assert!(infer_types("1E-9").float);
    assert!(infer_types("1e309").float);
    assert!(infer_types("inf").float);
    assert!(infer_types("-Infinity").float);
    assert!(infer_types("NaN").float);
    assert!(!infer_types(".").float);
    assert!(!infer_types("1e").float);
    assert!(!infer_types("e5").float);
    assert!(!infer_types("1.2.3").float);
    assert!(!infer_types("").float);
}

#[test]
fn test_infer_types_bool_strict() {
    assert!(infer_types("true").boolean);
    assert!(infer_types("false").boolean);
    assert!(!infer_types("True").boolean);
    assert!(!infer_types("1").boolean);
}

#[test]
fn test_infer_types_u64_bounds() {
    assert!(infer_types("18446744073709551615").unsigned);
    assert!(!infer_types("18446744073709551616").unsigned);
    assert!(infer_types("18446744073709551616").float);
    assert!(infer_types("9223372036854775808").unsigned);
    assert!(!infer_types("9223372036854775808").signed);
    assert!(infer_types("-9223372036854775808").signed);
    assert!(!infer_types("-9223372036854775809").signed);
}

#[test]
fn test_infer_boolean_prefixes() {
    assert!(infer_boolean("TRUE"));
    assert!(infer_boolean("Yes"));
    assert!(infer_boolean("n"));
    assert!(infer_boolean("0"));
    assert!(infer_boolean("FALSEY"));
    assert!(!infer_boolean("truex"));
    assert!(!infer_boolean("2"));
    assert!(!infer_boolean(""));
}

#[test]
fn test_guesses_best_order() {
    let mut g = TypeGuesses::all();
    assert_eq!(g.best(), Type::NULL);
    g.null = false;
    assert_eq!(g.best(), Type::Boolean);
    g.boolean = false;
    assert_eq!(g.best(), Type::Unsigned);
    g.unsigned = false;
    assert_eq!(g.best(), Type::Signed);
    g.signed = false;
    assert_eq!(g.best(), Type::Float);
    g.float = false;
    assert_eq!(g.best(), Type::DateTime);
    g.datetime = false;
    assert_eq!(g.best(), Type::Date);
    g.date = false;
    assert_eq!(g.best(), Type::Text);
}

#[test]
fn test_guesses_allows() {
    let narrow = TypeGuesses {
        boolean: false,
        unsigned: true,
        signed: true,
        float: true,
        date: false,
        datetime: false,
        text: true,
        null: false,
    };
    let text_only = TypeGuesses {
        boolean: false,
        unsigned: false,
        signed: false,
        float: false,
        date: false,
        datetime: false,
        text: true,
        null: false,
    };
    // the numeric guess holds bits the text guess lacks
    assert!(narrow.allows(text_only));
    // the text guess holds nothing beyond the numeric one
    assert!(!text_only.allows(narrow));
}

#[test]
fn test_sample_budget_records() {
    // the record that crosses the budget is still emitted
    let data = bytes("a\nb\nc\nd\n");
    let (lines, ok) = take_sample(&data, SampleSize::Records(2));
    assert!(ok);
    assert_eq!(lines, vec![bytes("a"), bytes("b"), bytes("c")]);
}

#[test]
fn test_sample_budget_bytes() {
    // the record whose raw bytes cross the budget is still emitted
    let data = bytes("ab\ncd\nef\n");
    let (lines, _) = take_sample(&data, SampleSize::Bytes(3));
    assert_eq!(lines, vec![bytes("ab"), bytes("cd")]);
}

#[test]
fn test_sample_truncated_tail_dropped() {
    let data = bytes("a\nbc");
    let (lines, ok) = take_sample(&data, SampleSize::All);
    assert!(ok);
    assert_eq!(lines, vec![bytes("a")]);
}

#[test]
fn test_sample_trims_line_breaks() {
    let data = bytes("a\r\n\r\n b \r\n");
    let (lines, _) = take_sample(&data, SampleSize::All);
    assert_eq!(lines, vec![bytes("a"), bytes(""), bytes(" b ")]);
}

#[test]
fn test_sample_keeps_leading_carriage_return() {
    // only trailing line breaks are stripped
    let data = bytes("\ra\n");
    let (lines, _) = take_sample(&data, SampleSize::All);
    assert_eq!(lines, vec![bytes("\ra")]);
}

#[test]
fn test_sample_utf8_flag_covers_tail() {
    let mut data = bytes("a\n");
    data.extend_from_slice(b"x\xffz");
    let (lines, ok) = take_sample(&data, SampleSize::All);
    assert_eq!(lines, vec![bytes("a")]);
    assert!(!ok);
}

#[test]
fn test_preamble_skipcount() {
    let data = bytes("a\nb\nc");
    assert_eq!(preamble_skipcount(&data, 0), 0);
    assert_eq!(preamble_skipcount(&data, 1), 2);
    assert_eq!(preamble_skipcount(&data, 2), 4);
    assert_eq!(preamble_skipcount(&data, 3), 5);
}

#[test]
fn test_viterbi_empty_chain() {
    let c = Chain::new();
    let r = c.viterbi();
    assert_eq!(r.max_delim_freq, 0);
    assert!(r.path.is_empty());
}

#[test]
fn test_viterbi_all_zero_chain() {
    let mut c = Chain::new();
    c.add_observation(0);
    c.add_observation(0);
    let r = c.viterbi();
    assert_eq!(r.max_delim_freq, 0);
    assert_eq!(r.path.len(), 1);
    assert_eq!(r.path[0].0, 2);
    assert_eq!(r.path[0].1.prev, Some(2));
}

#[test]
fn test_viterbi_steady_chain() {
    let mut c = Chain::new();
    for _ in 0..6 {
        c.add_observation(3);
    }
    let r = c.viterbi();
    assert_eq!(r.max_delim_freq, 3);
    assert_eq!(r.path.len(), 7);
    // a perfectly steady chain decodes to the strict state throughout
    assert!(r.path.iter().all(|e| e.0 == 0));
}

#[test]
fn test_viterbi_mixed_chain_is_flexible() {
    let mut c = Chain::new();
    for i in 0..8 {
        c.add_observation(if i % 2 == 0 { 3 } else { 2 });
    }
    let r = c.viterbi();
    assert_eq!(r.max_delim_freq, 3);
    let last = r.path.last().unwrap();
    assert_eq!(last.0, 1);
}

#[test]
fn test_escape_comment_options() {
    assert_eq!(Escape::Enabled(b'\\').to_opt(), Some(b'\\'));
    assert_eq!(Escape::Disabled.to_opt(), None);
    assert_eq!(Comment::Enabled(b'#').to_opt(), Some(b'#'));
    assert_eq!(Comment::Disabled.to_opt(), None);
}

#[test]
fn test_dialect_equality() {
    let d = Dialect {
        delimiter: b',',
        header: Header { has_header_row: true, num_preamble_rows: 0 },
        quote: Quote::Disabled,
        flexible: false,
        is_utf8: true,
    };
    assert_eq!(d.clone(), d);
    let mut other = d.clone();
    other.delimiter = b';';
    assert_ne!(other, d);
}
