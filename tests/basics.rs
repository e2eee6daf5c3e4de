use os_kernel::api::{ApiResponse, AuthMiddleware};
use os_kernel::basics::{add, hello, hidden, len_shared, longest, push_exclusive, sum, validate_id, AppError};

#[test]
fn adds_and_sums() {
    assert_eq!(add(2, 3), 5);
    assert_eq!(add(-7, 4), -3);
    assert_eq!(sum(&[1, 2, 3, 4]), 10);
    assert_eq!(sum(&[]), 0);
}

#[test]
fn greetings() {
    assert_eq!(hello(), "hello from nested");
    assert_eq!(hidden(), "hidden");
}

#[test]
fn validates_ids() {
    assert_eq!(validate_id(0), Err(AppError::InvalidId(0)));
    assert_eq!(validate_id(7), Ok(7));
}

#[test]
fn borrows_and_lifetimes() {
    let s = String::from("hello");
    assert_eq!(len_shared(&s), 5);
    let mut t = String::from("hello");
    push_exclusive(&mut t);
    assert_eq!(t, "hello world");
    assert_eq!(longest("hello", "world!!!"), "world!!!");
    assert_eq!(longest("abc", "xyz"), "abc");
}

#[test]
fn api_envelopes() {
    let ok = ApiResponse::success(5u32);
    assert!(ok.success);
    assert_eq!(ok.data, Some(5));
    assert!(ok.error.is_none() && ok.message.is_none());
    let err: ApiResponse<u32> = ApiResponse::error("bad".to_string());
    assert!(!err.success);
    assert!(err.data.is_none());
    assert_eq!(err.error, Some("bad".to_string()));
    let auth = AuthMiddleware::new("test-key".to_string());
    assert_eq!(auth.api_key, "test-key");
}
