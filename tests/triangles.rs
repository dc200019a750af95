use euler::triangles::{triangle_weights, vertex_name};

#[test]
fn vertex_names() {
    assert_eq!(vertex_name(0, 0), "0-0");
    assert_eq!(vertex_name(12, 305), "12-305");
}

#[test]
fn reads_a_triangle() {
    let (head, rows) = triangle_weights("3\n7 4\n2 4 6\n8 5 9 3").unwrap();
    assert_eq!(head, 3);
    assert_eq!(rows, vec![vec![7, 4], vec![2, 4, 6], vec![8, 5, 9, 3]]);
}

#[test]
fn reads_line_endings_and_spacing() {
    let (head, rows) = triangle_weights("-5\r\n  +7\t-4 \r\n\n12\n").unwrap();
    assert_eq!(head, -5);
    assert_eq!(rows, vec![vec![7, -4], vec![], vec![12]]);
    let (head, rows) = triangle_weights("").unwrap();
    assert_eq!(head, 0);
    assert!(rows.is_empty());
}

#[test]
fn refuses_bad_numbers() {
    assert!(triangle_weights("x\n1 2").is_none());
    assert!(triangle_weights("3 \n1 2").is_none());
    assert!(triangle_weights("3\n1 2a").is_none());
    assert!(triangle_weights("3\n1 - 2").is_none());
    assert!(triangle_weights("9223372036854775808").is_none());
    assert_eq!(triangle_weights("-9223372036854775808").unwrap().0, i64::MIN);
    assert_eq!(triangle_weights("9223372036854775807").unwrap().0, i64::MAX);
}
