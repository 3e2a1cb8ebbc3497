use qsv_sniffer::error::SnifferError;
use qsv_sniffer::metadata::Quote;
use qsv_sniffer::DatePreference;
use qsv_sniffer::SampleSize;
use qsv_sniffer::Sniffer;
use qsv_sniffer::Type;

fn bytes(s: &str) -> Vec<u8> {
    s.as_bytes().to_vec()
}

#[test]
fn test_semicolon_unquoted() {
    let data = bytes(
        "Name;Party;Vote Count;Voting Method;Voting Precinct\n\
         Alice;Blue;1024;Mail;North\n\
         Bob;Red;980;Early;South\n\
         Carol;Blue;512;Mail;East\n",
    );
    let mut s = Sniffer::new();
    let m = s.sniff_bytes(&data).unwrap();
    assert_eq!(m.dialect.delimiter, b';');
    assert_eq!(m.dialect.quote, Quote::Disabled);
    assert!(!m.dialect.flexible);
    assert!(m.dialect.header.has_header_row);
    assert_eq!(m.dialect.header.num_preamble_rows, 0);
    assert!(m.dialect.is_utf8);
    assert_eq!(m.num_fields, 5);
    assert_eq!(
        m.types,
        vec![Type::Text, Type::Text, Type::Unsigned, Type::Text, Type::Text]
    );
    assert_eq!(
        m.fields,
        vec!["Name", "Party", "Vote Count", "Voting Method", "Voting Precinct"]
    );
}

#[test]
fn test_comma_numeric_columns() {
    let data = bytes(
        "Month,Door Count,Web Site Visits,Catalog Visits,Overdrive Visits\n\
         January,14566,2885,1801,806\n\
         February,12667,2724,1708,781\n\
         March,14142,3194,1855,943\n",
    );
    let mut s = Sniffer::new();
    let m = s.sniff_bytes(&data).unwrap();
    assert_eq!(m.dialect.delimiter, b',');
    assert!(m.dialect.header.has_header_row);
    assert_eq!(m.num_fields, 5);
    assert_eq!(
        m.types,
        vec![
            Type::Text,
            Type::Unsigned,
            Type::Unsigned,
            Type::Unsigned,
            Type::Unsigned
        ]
    );
}

#[test]
fn test_boolean_column() {
    let data = bytes(
        "Month,Door Count,Vacation\n\
         January,14566,true\n\
         February,12667,false\n\
         March,14142,true\n",
    );
    let mut s = Sniffer::new();
    let m = s.sniff_bytes(&data).unwrap();
    assert_eq!(m.dialect.delimiter, b',');
    assert_eq!(m.types.last().copied(), Some(Type::Boolean));
}

#[test]
fn test_flexible_rows() {
    let data = bytes(
        "a,b,c\n\
         d,e\n\
         f,g,h\n\
         i,j\n\
         k,l,m\n\
         n,o,p\n",
    );
    let mut s = Sniffer::new();
    let m = s.sniff_bytes(&data).unwrap();
    assert_eq!(m.dialect.delimiter, b',');
    assert!(m.dialect.flexible);
    assert_eq!(m.num_fields, 3);
}

#[test]
fn test_non_utf8_flagged() {
    let mut data = bytes("COL.A;COL.B\n");
    data.extend_from_slice(b"\xff\xfe;2\n");
    data.extend_from_slice(b"x;3\n");
    let mut s = Sniffer::new();
    let m = s.sniff_bytes(&data).unwrap();
    assert_eq!(m.dialect.delimiter, b';');
    assert!(!m.dialect.is_utf8);
}

#[test]
fn test_date_sniffing_dmy() {
    let data = bytes(
        "starttime,letter,number\n\
         25/12/2019,a,1\n\
         26/12/2019,b,2\n\
         27/12/2019,c,3\n",
    );
    let mut s = Sniffer::new().date_preference(DatePreference::DmyFormat);
    let m = s.sniff_bytes(&data).unwrap();
    assert_eq!(m.dialect.delimiter, b',');
    assert!(m.dialect.header.has_header_row);
    assert_eq!(m.types[0], Type::Date);
}

#[test]
fn test_quoted_fields_detected() {
    let data = bytes(
        "'City'; 'Head Count'\n\
         'Springfield, East'; '1024'\n\
         'Shelbyville; Old Town'; '512'\n\
         'Capital City'; '2048'\n",
    );
    let mut s = Sniffer::new();
    let m = s.sniff_bytes(&data).unwrap();
    assert_eq!(m.dialect.quote, Quote::Enabled(b'\''));
    assert_eq!(m.dialect.delimiter, b';');
    assert_eq!(m.num_fields, 2);
}

#[test]
fn test_known_delimiter_quoted_records() {
    let data = bytes(
        "'a;b';c\n\
         'd;e';f\n\
         'g;h';i\n",
    );
    let mut s = Sniffer::new()
        .delimiter(b';')
        .quote(Quote::Enabled(b'\''));
    let m = s.sniff_bytes(&data).unwrap();
    // the quoted reader sees two fields per row despite two raw semicolons
    assert_eq!(m.dialect.delimiter, b';');
    assert_eq!(m.num_fields, 2);
}

#[test]
fn test_single_row_no_header() {
    let data = bytes("alpha;xy;beta\n");
    let mut s = Sniffer::new();
    let m = s.sniff_bytes(&data).unwrap();
    assert!(!m.dialect.header.has_header_row);
    assert!(m.fields.is_empty());
    assert_eq!(m.dialect.delimiter, b';');
    assert_eq!(m.num_fields, 3);
    assert_eq!(m.types, vec![Type::Text, Type::Text, Type::Text]);
}

#[test]
fn test_all_empty_columns_are_null() {
    let data = bytes("a,b\n,\n,\n,\n");
    let mut s = Sniffer::new();
    let m = s.sniff_bytes(&data).unwrap();
    assert_eq!(m.num_fields, 2);
    assert_eq!(m.types, vec![Type::NULL, Type::NULL]);
}

#[test]
fn test_no_valid_delimiter() {
    let data = bytes("\n\n\n");
    let mut s = Sniffer::new();
    match s.sniff_bytes(&data) {
        Err(SnifferError::SniffingFailed(msg)) => {
            assert_eq!(msg, "unable to find valid delimiter");
        }
        other => panic!("expected sniffing failure, got {:?}", other.map(|m| m.num_fields)),
    }
}

#[test]
fn test_empty_after_preamble() {
    let mut s = Sniffer::new();
    s.delimiter_freq = Some(1);
    let data: Vec<u8> = Vec::new();
    match s.infer_types(&data) {
        Err(SnifferError::SniffingFailed(msg)) => {
            assert_eq!(msg, "CSV empty (after preamble)");
        }
        other => panic!("expected empty-CSV failure, got {:?}", other.is_ok()),
    }
}

#[test]
fn test_delimiter_frequency_not_known() {
    let mut s = Sniffer::new();
    let data = bytes("a,b\nc,d\n");
    match s.infer_types(&data) {
        Err(SnifferError::SniffingFailed(msg)) => {
            assert_eq!(msg, "delimiter frequency not known");
        }
        other => panic!("expected failure, got {:?}", other.is_ok()),
    }
}

#[test]
fn test_known_delim_phase_needs_both() {
    let mut s = Sniffer::new();
    let lines: Vec<String> = Vec::new();
    match s.infer_preamble_known_delim(&lines) {
        Err(SnifferError::SniffingFailed(msg)) => {
            assert_eq!(msg, "infer_preamble_known_delim called without delimiter and quote");
        }
        other => panic!("expected failure, got {:?}", other.is_ok()),
    }
}

#[test]
fn test_quoted_empty_fields_counted() {
    let data = bytes(";;;\n;;;\n");
    let mut s = Sniffer::new()
        .delimiter(b';')
        .quote(Quote::Enabled(b'"'));
    let m = s.sniff_bytes(&data).unwrap();
    assert_eq!(m.num_fields, 4);
    assert_eq!(m.types, vec![Type::NULL; 4]);
}

#[test]
fn test_modal_capture_wins_over_minority() {
    // two comma captures against one multi-byte capture: the mode decides
    let data = bytes("'a', 'b'\n'c', 'd'\u{2014}'e'\n'f', 'g'\n");
    let mut s = Sniffer::new();
    let m = s.sniff_bytes(&data).unwrap();
    assert_eq!(m.dialect.quote, Quote::Enabled(b'\''));
    assert_eq!(m.dialect.delimiter, b',');
}

#[test]
fn test_invalid_regex_match() {
    // the only captured delimiter is a multi-byte character
    let data = bytes("'a'\u{2014}'b'\n'c'\u{2014}'d'\n");
    let mut s = Sniffer::new();
    match s.sniff_bytes(&data) {
        Err(SnifferError::SniffingFailed(msg)) => {
            assert_eq!(msg, "invalid regex match: no delimiter found");
        }
        other => panic!("expected modal-capture failure, got {:?}", other.is_ok()),
    }
}

#[test]
fn test_csv_error_beyond_strict_sample() {
    // the sampled rows are strict, a later row is ragged
    let data = bytes("a,b\nc,d\ne,f\ng,h,i\n");
    let mut s = Sniffer::new().sample_size(SampleSize::Bytes(11));
    match s.sniff_bytes(&data) {
        Err(SnifferError::Csv(_)) => {}
        other => panic!("expected a CSV parse error, got {:?}", other.is_ok()),
    }
}

#[test]
fn test_avg_record_len() {
    let data = bytes("aa;bb\ncc;dd\n");
    let mut s = Sniffer::new();
    let m = s.sniff_bytes(&data).unwrap();
    // two records of four data bytes each
    assert_eq!(m.avg_record_len, 4);
}

#[test]
fn test_round_trip_dialect() {
    // a file written with a known dialect sniffs back to the same dialect
    let header = ["city", "population"];
    let rows = [["kaunas", "295269"], ["vilnius", "588412"], ["riga", "605802"]];
    let mut text = String::new();
    text.push_str(&header.join(";"));
    text.push('\n');
    for row in rows.iter() {
        text.push_str(&row.join(";"));
        text.push('\n');
    }
    let data = bytes(&text);
    let mut s = Sniffer::new();
    let m = s.sniff_bytes(&data).unwrap();
    assert_eq!(m.dialect.delimiter, b';');
    assert_eq!(m.dialect.quote, Quote::Disabled);
    assert!(!m.dialect.flexible);
    assert!(m.dialect.header.has_header_row);
    assert_eq!(m.dialect.header.num_preamble_rows, 0);
    assert_eq!(m.num_fields, 2);
    assert_eq!(m.types, vec![Type::Text, Type::Unsigned]);
    assert_eq!(m.fields, vec!["city", "population"]);
}

#[test]
fn test_metadata_shape_invariants() {
    let data = bytes("x,y,z\n1,2,3\n4,5,6\n");
    let mut s = Sniffer::new();
    let m = s.sniff_bytes(&data).unwrap();
    // one type per field
    assert_eq!(m.types.len(), m.num_fields);
    // labels exactly when a header row stands
    if m.dialect.header.has_header_row {
        assert_eq!(m.fields.len(), m.num_fields);
    } else {
        assert!(m.fields.is_empty());
    }
    // the delimiter is 7-bit ASCII and differs from the quote
    assert!(m.dialect.delimiter < 128);
    if let Quote::Enabled(q) = m.dialect.quote {
        assert_ne!(q, m.dialect.delimiter);
    }
}

#[test]
fn test_preamble_detected() {
    let data = bytes(
        "Report generated by hand\n\
         \n\
         Name;Count\n\
         alpha;1\n\
         beta;2\n\
         gamma;3\n\
         delta;4\n\
         epsilon;5\n",
    );
    let mut s = Sniffer::new();
    let m = s.sniff_bytes(&data).unwrap();
    assert_eq!(m.dialect.delimiter, b';');
    assert!(m.dialect.header.num_preamble_rows > 0);
    assert_eq!(m.num_fields, 2);
}

#[test]
fn test_builder_setters() {
    let s = Sniffer::new()
        .delimiter(b'\t')
        .quote(Quote::Disabled)
        .sample_size(SampleSize::Records(10))
        .date_preference(DatePreference::DmyFormat);
    assert_eq!(s.delimiter, Some(b'\t'));
    assert_eq!(s.quote, Some(Quote::Disabled));
    assert_eq!(s.sample_size, Some(SampleSize::Records(10)));
    assert_eq!(s.date_preference, Some(DatePreference::DmyFormat));
}

#[test]
fn test_header_setter() {
    let h = qsv_sniffer::metadata::Header { has_header_row: false, num_preamble_rows: 3 };
    let s = Sniffer::new().header(&h);
    assert_eq!(s.has_header_row, Some(false));
    assert_eq!(s.num_preamble_rows, Some(3));
}

#[test]
fn test_user_delimiter_honored() {
    let data = bytes("a,b;c\nd,e;f\ng,h;i\n");
    let mut s = Sniffer::new().delimiter(b',');
    let m = s.sniff_bytes(&data).unwrap();
    assert_eq!(m.dialect.delimiter, b',');
    assert_eq!(m.num_fields, 2);
}

#[test]
fn test_datetime_column() {
    let data = bytes(
        "when,who\n\
         2020-01-15 10:30:00,a\n\
         2020-02-20 22:05:10,b\n\
         2020-03-25 07:45:59,c\n",
    );
    let mut s = Sniffer::new();
    let m = s.sniff_bytes(&data).unwrap();
    assert_eq!(m.types[0], Type::DateTime);
}

#[test]
fn test_date_preference_changes_outcome() {
    // an unambiguous day-first date only parses under the DMY preference
    let field = "25/12/2019,x\n26/12/2019,y\n27/12/2019,z\n";
    let data = bytes(field);
    let mut dmy = Sniffer::new().date_preference(DatePreference::DmyFormat);
    let m = dmy.sniff_bytes(&data).unwrap();
    assert_eq!(m.types[0], Type::Date);
}
