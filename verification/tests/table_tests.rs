use weighted_digits::table::{startup_table, LoadError, WeightTable};

fn weights_of(t: &WeightTable) -> Vec<u32> {
    let mut w = Vec::new();
    for d in 0..10usize {
        w.push(t.weight_at(d));
    }
    w
}

const FALLBACK: [u32; 10] = [10, 12, 15, 20, 18, 25, 30, 22, 17, 14];

#[test]
fn duplicate_digit_last_row_wins() {
    let text = "digit,frequency\n3,50\n3,10\n";
    let t = WeightTable::load_statistics(text).unwrap();
    assert_eq!(t.weight_at(3), 10);
}

#[test]
fn duplicate_digit_last_row_wins_from_rows() {
    let rows = vec![
        vec!["3".to_string(), "50".to_string()],
        vec!["3".to_string(), "10".to_string()],
    ];
    let t = WeightTable::from_rows(&rows).unwrap();
    assert_eq!(t.weight_at(3), 10);
    assert_eq!(t.weight_at(0), 0);
    assert_eq!(t.total_weight(), 10);
}

#[test]
fn non_numeric_frequency_installs_fallback() {
    let text = "digit,frequency\n4,abc\n";
    let source = Some(text.to_string());
    let (t, err) = startup_table(&source);
    assert_eq!(err, Some(LoadError::BadRecord));
    assert_eq!(weights_of(&t), FALLBACK.to_vec());
}

#[test]
fn unmentioned_digits_stay_zero_and_are_reported() {
    let text = "digit,frequency\n0,5\n1,6\n2,7\n3,8\n4,9\n";
    let t = WeightTable::load_statistics(text).unwrap();
    assert_eq!(weights_of(&t), vec![5, 6, 7, 8, 9, 0, 0, 0, 0, 0]);
    assert_eq!(t.missing_digits(), vec![5, 6, 7, 8, 9]);
}

#[test]
fn fields_are_trimmed_like_the_row_source() {
    let text = "digit,frequency\n 3 , 10 \n";
    let t = WeightTable::load_statistics(text).unwrap();
    assert_eq!(t.weight_at(3), 10);
}

#[test]
fn out_of_range_digit_is_silently_ignored() {
    let text = "digit,frequency\n10,5\n1,3\n";
    let t = WeightTable::load_statistics(text).unwrap();
    assert_eq!(weights_of(&t), vec![0, 3, 0, 0, 0, 0, 0, 0, 0, 0]);
}

#[test]
fn huge_digit_value_is_ignored() {
    let text = "digit,frequency\n99999999999999999999999999,5\n1,3\n";
    let t = WeightTable::load_statistics(text).unwrap();
    assert_eq!(weights_of(&t), vec![0, 3, 0, 0, 0, 0, 0, 0, 0, 0]);
}

#[test]
fn negative_digit_is_ignored() {
    let rows = vec![
        vec!["-1".to_string(), "5".to_string()],
        vec!["3".to_string(), "7".to_string()],
    ];
    let t = WeightTable::from_rows(&rows).unwrap();
    assert_eq!(weights_of(&t), vec![0, 0, 0, 7, 0, 0, 0, 0, 0, 0]);
}

#[test]
fn negative_digit_is_ignored_in_text() {
    let text = "digit,frequency\n-1,5\n3,7\n";
    let t = WeightTable::load_statistics(text).unwrap();
    assert_eq!(weights_of(&t), vec![0, 0, 0, 7, 0, 0, 0, 0, 0, 0]);
}

#[test]
fn negative_zero_digit_is_slot_zero() {
    let text = "digit,frequency\n-0,8\n";
    let t = WeightTable::load_statistics(text).unwrap();
    assert_eq!(weights_of(&t), vec![8, 0, 0, 0, 0, 0, 0, 0, 0, 0]);
}

#[test]
fn ignored_row_still_needs_a_parsable_frequency() {
    let text = "digit,frequency\n-1,abc\n3,7\n";
    assert_eq!(
        WeightTable::load_statistics(text).unwrap_err(),
        LoadError::BadRecord
    );
}

#[test]
fn frequency_over_u32_fails_the_load() {
    let text = "digit,frequency\n1,4294967296\n";
    assert_eq!(
        WeightTable::load_statistics(text).unwrap_err(),
        LoadError::BadRecord
    );
}

#[test]
fn missing_field_fails_the_load() {
    let rows = vec![vec!["3".to_string()]];
    assert_eq!(WeightTable::from_rows(&rows).unwrap_err(), LoadError::BadRecord);
}

#[test]
fn all_zero_rows_are_degenerate() {
    let rows = vec![vec!["3".to_string(), "0".to_string()]];
    assert_eq!(WeightTable::from_rows(&rows).unwrap_err(), LoadError::Degenerate);
}

#[test]
fn uneven_rows_are_unreadable() {
    let text = "digit,frequency\n1,2\n3,4,5\n";
    assert_eq!(
        WeightTable::load_statistics(text).unwrap_err(),
        LoadError::Unreadable
    );
}

#[test]
fn unreadable_text_installs_fallback() {
    let source = Some("digit,frequency\n1,2\n3,4,5\n".to_string());
    let (t, err) = startup_table(&source);
    assert_eq!(err, Some(LoadError::Unreadable));
    assert_eq!(weights_of(&t), FALLBACK.to_vec());
}

#[test]
fn missing_source_installs_fallback() {
    let (t, err) = startup_table(&None);
    assert_eq!(err, Some(LoadError::Unreadable));
    assert_eq!(weights_of(&t), FALLBACK.to_vec());
}

#[test]
fn good_source_is_loaded_without_error() {
    let source = Some("digit,frequency\n7,4\n2,6\n".to_string());
    let (t, err) = startup_table(&source);
    assert_eq!(err, None);
    assert_eq!(weights_of(&t), vec![0, 0, 6, 0, 0, 0, 0, 4, 0, 0]);
}

#[test]
fn fallback_table_has_the_fixed_weights() {
    let t = WeightTable::fallback();
    assert_eq!(weights_of(&t), FALLBACK.to_vec());
    assert_eq!(t.total_weight(), 183);
    assert_eq!(t.missing_digits(), Vec::<u8>::new());
}

#[test]
fn new_rejects_wrong_length() {
    assert_eq!(
        WeightTable::new(vec![1, 2, 3]).unwrap_err(),
        LoadError::BadLength
    );
}

#[test]
fn new_rejects_all_zero() {
    assert_eq!(
        WeightTable::new(vec![0; 10]).unwrap_err(),
        LoadError::Degenerate
    );
}

#[test]
fn new_keeps_the_given_weights() {
    let t = WeightTable::new(vec![1, 0, 2, 0, 3, 0, 4, 0, 5, 0]).unwrap();
    assert_eq!(weights_of(&t), vec![1, 0, 2, 0, 3, 0, 4, 0, 5, 0]);
    assert_eq!(t.total_weight(), 15);
    assert_eq!(t.missing_digits(), vec![1, 3, 5, 7, 9]);
}

#[test]
fn empty_text_gives_a_degenerate_table() {
    assert_eq!(
        WeightTable::load_statistics("").unwrap_err(),
        LoadError::Degenerate
    );
    let (t, err) = startup_table(&Some(String::new()));
    assert_eq!(err, Some(LoadError::Degenerate));
    assert_eq!(weights_of(&t), FALLBACK.to_vec());
}

#[test]
fn header_only_text_gives_a_degenerate_table() {
    assert_eq!(
        WeightTable::load_statistics("digit,frequency\n").unwrap_err(),
        LoadError::Degenerate
    );
}

#[test]
fn plus_signed_fields_parse() {
    let text = "digit,frequency\n+3,+12\n";
    let t = WeightTable::load_statistics(text).unwrap();
    assert_eq!(t.weight_at(3), 12);
}
