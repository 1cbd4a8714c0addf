use wasm_frame::membership::{isin_i32, isin_string};

#[test]
fn isin_i32_flags_members() {
    assert_eq!(isin_i32(&[1, 2, 3], &[2, 3]), vec![0, 1, 1]);
    assert_eq!(isin_i32(&[], &[2, 3]), Vec::<u8>::new());
    assert_eq!(isin_i32(&[4, 4], &[]), vec![0, 0]);
}

#[test]
fn isin_string_flags_members() {
    let data = vec!["apple".to_string(), "pear".to_string(), "".to_string(), "Äpfel".to_string()];
    let values = vec!["pear".to_string(), "Äpfel".to_string(), "pear".to_string()];
    assert_eq!(isin_string(data, values), vec![0, 1, 0, 1]);
    assert_eq!(isin_string(vec!["".to_string()], vec!["".to_string()]), vec![1]);
}
