use fixed_width::{Record, ReaderError};

#[test]
fn test_create_fwf_record() {
    let line = "123456789".to_string();
    let widths = vec![3, 3, 3];
    let sep_len = 0;
    let flexible_widths = false;

    let record = Record::try_new(line.clone(), &widths, sep_len, flexible_widths);

    assert!(record.is_ok());
    let record = record.unwrap();
    assert_eq!(record.line(), line);
    assert_eq!(record.ranges(), &vec![(0, 3), (3, 6), (6, 9)]);
}

#[test]
fn test_create_fwf_record_with_flexible_width() {
    let line = "1234567".to_string();
    let widths = vec![3, 3, 3, 3];
    let sep_len = 0;
    let flexible_widths = true;

    let record = Record::try_new(line.clone(), &widths, sep_len, flexible_widths);

    assert!(record.is_ok());
    let record = record.unwrap();
    assert_eq!(record.line(), line);
    assert_eq!(record.ranges(), &vec![(0, 3), (3, 6), (6, 7), (7, 7)]);
}

#[test]
fn test_create_fwf_record_with_mismatch_width() {
    let line = "12345".to_string();
    let widths = vec![3, 3, 3];
    let sep_len = 0;
    let flexible_widths = false;

    let record = Record::try_new(line, &widths, sep_len, flexible_widths);

    assert!(record.is_err());
    let err = record.unwrap_err();
    assert!(matches!(err, ReaderError::WidthMismatch(3, 3)));
}

#[test]
fn test_create_fwf_record_with_separator() {
    let line = "123-456-789".to_string();
    let widths = vec![3, 3, 3];
    let sep_len = 1;
    let flexible_widths = false;

    let record = Record::try_new(line.clone(), &widths, sep_len, flexible_widths);

    assert!(record.is_ok());
    let record = record.unwrap();
    assert_eq!(record.line(), line);
    assert_eq!(record.ranges(), &vec![(0, 3), (4, 7), (8, 11)]);
}

#[test]
fn test_get_field_by_index() {
    let line = "123456789".to_string();
    let widths = vec![3, 3, 3];
    let sep_len = 0;
    let flexible_widths = false;

    let record = Record::try_new(line.clone(), &widths, sep_len, flexible_widths).unwrap();

    assert_eq!(record.get(0), Some("123"));
    assert_eq!(record.get(1), Some("456"));
    assert_eq!(record.get(2), Some("789"));
    assert_eq!(record.get(3), None);
}

#[test]
fn test_iterate_over_fields() {
    let line = "123456789".to_string();
    let widths = vec![3, 3, 3];
    let sep_len = 0;
    let flexible_widths = false;

    let record = Record::try_new(line.clone(), &widths, sep_len, flexible_widths).unwrap();
    let mut iter = record.iter();
    let mut fields: Vec<&str> = Vec::new();
    while let Some(field) = iter.next() {
        fields.push(field);
    }

    assert_eq!(fields, vec!["123", "456", "789"]);
}

#[test]
fn test_empty_line() {
    let line = "".to_string();
    let widths = vec![3, 3, 3];
    let sep_len = 0;
    let flexible_widths = false;

    let record = Record::try_new(line, &widths, sep_len, flexible_widths);

    assert!(record.is_err());
    let err = record.unwrap_err();
    assert!(matches!(err, ReaderError::EmptyLine));
}

#[test]
fn test_empty_line_flexible_and_no_widths() {
    // An empty line fails before any width is examined, whatever the
    // configuration, even with no widths declared at all.
    let widths: Vec<usize> = vec![];
    let record = Record::try_new("".to_string(), &widths, 7, true);
    assert!(matches!(record.unwrap_err(), ReaderError::EmptyLine));

    let record = Record::try_new("".to_string(), &vec![1], 0, true);
    assert!(matches!(record.unwrap_err(), ReaderError::EmptyLine));
}

#[test]
fn test_multibyte_fields() {
    // Widths count characters, not bytes: nine Greek letters split 3-3-3.
    let line = "αβγδεζηθι".to_string();
    let widths = vec![3, 3, 3];

    let record = Record::try_new(line, &widths, 0, false).unwrap();

    assert_eq!(record.get(0), Some("αβγ"));
    assert_eq!(record.get(1), Some("δεζ"));
    assert_eq!(record.get(2), Some("ηθι"));
    assert_eq!(record.ranges(), &vec![(0, 3), (3, 6), (6, 9)]);
}

#[test]
fn test_flexible_mid_record_shortfall() {
    // Once a field comes up short, it takes the remainder and every later
    // field is empty.
    let record = Record::try_new("1234".to_string(), &vec![3, 3, 3], 0, true).unwrap();
    assert_eq!(record.get(0), Some("123"));
    assert_eq!(record.get(1), Some("4"));
    assert_eq!(record.get(2), Some(""));
    assert_eq!(record.ranges(), &vec![(0, 3), (3, 4), (4, 4)]);
}

#[test]
fn test_separator_running_past_line_end() {
    // A separator that would run past the end of the line stops there: with
    // flexible widths the later fields are empty, and with them disabled the
    // shortage is reported at the end of the line.
    let record = Record::try_new("12345".to_string(), &vec![3, 3], 10, true).unwrap();
    assert_eq!(record.get(0), Some("123"));
    assert_eq!(record.get(1), Some(""));
    assert_eq!(record.ranges(), &vec![(0, 3), (5, 5)]);

    let record = Record::try_new("12345".to_string(), &vec![3, 3], 10, false);
    assert!(matches!(record.unwrap_err(), ReaderError::WidthMismatch(5, 3)));
}

#[test]
fn test_exact_length_with_separator() {
    // A line of exactly sum(widths) + sep_len * (len(widths) - 1) characters
    // parses with every field exactly as wide as declared.
    let record = Record::try_new("12--345--6".to_string(), &vec![2, 3, 1], 2, false).unwrap();
    assert_eq!(record.get(0), Some("12"));
    assert_eq!(record.get(1), Some("345"));
    assert_eq!(record.get(2), Some("6"));
}

#[test]
fn test_clone_keeps_line_and_ranges() {
    let record = Record::try_new("123-456".to_string(), &vec![3, 3], 1, false).unwrap();
    let copy = record.clone();
    assert_eq!(copy.line(), record.line());
    assert_eq!(copy.ranges(), record.ranges());
    assert_eq!(copy.get(1), Some("456"));
}
