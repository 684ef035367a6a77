use rusty_santa::Matrix;

#[test]
fn lib_matrix_init() {
    let keys = vec!["a".into(), "b".into(), "c".into()];
    let matrix = Matrix::new(keys);

    assert!(!matrix.get("a", "a").unwrap());
    assert!(!matrix.get("b", "b").unwrap());
    assert!(!matrix.get("c", "c").unwrap());

    assert!(matrix.get("a", "b").unwrap());
    assert!(matrix.get("a", "c").unwrap());
    assert!(matrix.get("b", "a").unwrap());
    assert!(matrix.get("b", "c").unwrap());
    assert!(matrix.get("c", "a").unwrap());
    assert!(matrix.get("c", "b").unwrap());
}

#[test]
fn lib_matrix_get_row() {
    let keys = vec!["a".into(), "b".into(), "c".into()];
    let matrix = Matrix::new(keys);
    assert_eq!(matrix.get_row("a").unwrap(), vec![false, true, true]);
    assert_eq!(matrix.get_row("b").unwrap(), vec![true, false, true]);
    assert_eq!(matrix.get_row("c").unwrap(), vec![true, true, false]);
}

#[test]
fn lib_matrix_set() {
    let keys = vec!["a".into(), "b".into(), "c".into()];
    let mut matrix = Matrix::new(keys);

    assert!(matrix.get("a", "b").unwrap());
    matrix.set("a", "b", false);
    assert!(!matrix.get("a", "b").unwrap());
    matrix.set("a", "b", true);
    assert!(matrix.get("a", "b").unwrap());
}

#[test]
fn lib_matrix_contains() {
    let keys = vec!["a".into(), "b".into(), "c".into()];
    let matrix = Matrix::new(keys);

    assert!(matrix.contains("a"));
    assert!(matrix.contains("b"));
    assert!(matrix.contains("c"));
    assert!(!matrix.contains("d"));
    assert!(!matrix.contains("aa"));
}

#[test]
fn lib_matrix_size() {
    let keys = vec!["a".into(), "b".into(), "c".into()];
    let matrix = Matrix::new(keys);
    assert_eq!(3, matrix.size());

    let keys = vec!["a".into()];
    let matrix = Matrix::new(keys);
    assert_eq!(1, matrix.size());
}

#[test]
fn main_matrix_init() {
    let keys = vec!["a".into(), "b".into(), "c".into()];
    let matrix = Matrix::new(keys);

    assert!(!matrix.get("a", "a").unwrap());
    assert!(!matrix.get("b", "b").unwrap());
    assert!(!matrix.get("c", "c").unwrap());

    assert!(matrix.get("a", "b").unwrap());
    assert!(matrix.get("a", "c").unwrap());
    assert!(matrix.get("b", "a").unwrap());
    assert!(matrix.get("b", "c").unwrap());
    assert!(matrix.get("c", "a").unwrap());
    assert!(matrix.get("c", "b").unwrap());
}

#[test]
fn main_matrix_get_row() {
    let keys = vec!["a".into(), "b".into(), "c".into()];
    let matrix = Matrix::new(keys);
    assert_eq!(matrix.get_row("a").unwrap(), vec![false, true, true]);
    assert_eq!(matrix.get_row("b").unwrap(), vec![true, false, true]);
    assert_eq!(matrix.get_row("c").unwrap(), vec![true, true, false]);
}

#[test]
fn main_matrix_set() {
    let keys = vec!["a".into(), "b".into(), "c".into()];
    let mut matrix = Matrix::new(keys);

    assert!(matrix.get("a", "b").unwrap());
    matrix.set("a", "b", false);
    assert!(!matrix.get("a", "b").unwrap());
    matrix.set("a", "b", true);
    assert!(matrix.get("a", "b").unwrap());
}

#[test]
fn main_matrix_contains() {
    let keys = vec!["a".into(), "b".into(), "c".into()];
    let matrix = Matrix::new(keys);

    assert!(matrix.contains("a"));
    assert!(matrix.contains("b"));
    assert!(matrix.contains("c"));
    assert!(!matrix.contains("d"));
    assert!(!matrix.contains("aa"));
}

#[test]
fn main_matrix_size() {
    let keys = vec!["a".into(), "b".into(), "c".into()];
    let matrix = Matrix::new(keys);
    assert_eq!(3, matrix.size());

    let keys = vec!["a".into()];
    let matrix = Matrix::new(keys);
    assert_eq!(1, matrix.size());
}

#[test]
fn matrix_get_unknown_name() {
    let keys = vec!["a".into(), "b".into()];
    let matrix = Matrix::new(keys);
    assert!(matrix.get("a", "zz").is_none());
    assert!(matrix.get("zz", "a").is_none());
    assert!(matrix.get_row("zz").is_none());
}

#[test]
fn matrix_set_unknown_name() {
    let keys = vec!["a".into(), "b".into()];
    let mut matrix = Matrix::new(keys);
    assert!(!matrix.set("a", "zz", false));
    assert!(!matrix.set("zz", "a", false));
    assert!(!matrix.set_col("zz", false));
    // The failed writes left everything unchanged.
    assert!(matrix.get("a", "b").unwrap());
    assert!(matrix.get("b", "a").unwrap());
}

#[test]
fn matrix_set_col_clears_column() {
    let keys = vec!["a".into(), "b".into(), "c".into()];
    let mut matrix = Matrix::new(keys);
    assert!(matrix.set_col("b", false));
    assert!(!matrix.get("a", "b").unwrap());
    assert!(!matrix.get("c", "b").unwrap());
    assert!(matrix.get("a", "c").unwrap());
    assert!(matrix.get("c", "a").unwrap());
}

#[test]
fn matrix_key_at() {
    let keys = vec!["a".into(), "b".into(), "c".into()];
    let matrix = Matrix::new(keys);
    assert_eq!(matrix.key_at(0), "a");
    assert_eq!(matrix.key_at(1), "b");
    assert_eq!(matrix.key_at(2), "c");
}
