use std::sync::Arc;
use weighted_digits::sample::generate_number;
use weighted_digits::table::WeightTable;

// The table is shared read-only: many callers hold the same handle and
// never mutate it, so each result must satisfy the length and digit-set
// properties independently of the others.
#[test]
fn shared_table_callers_each_get_valid_numbers() {
    let t = Arc::new(WeightTable::fallback());
    let callers: Vec<Arc<WeightTable>> = (0..4).map(|_| Arc::clone(&t)).collect();
    for caller in &callers {
        for _ in 0..1000 {
            let s = generate_number(caller, 3);
            assert_eq!(s.len(), 3);
            assert!(s.chars().all(|c| c.is_ascii_digit()));
        }
    }
}
