use wdis::request::{make_buf, make_request, put_u32, split_words, to_ascii_lower, RequestError};

#[test]
fn get_request_frame() {
    assert_eq!(
        make_request("get wzr").unwrap(),
        vec![0, 0, 0, 2, 0, 0, 0, 3, 103, 101, 116, 0, 0, 0, 3, 119, 122, 114]
    );
}

#[test]
fn set_request_is_lowered_in_command_only() {
    assert_eq!(
        make_request("SET Key V").unwrap(),
        vec![0, 0, 0, 3, 0, 0, 0, 3, 115, 101, 116, 0, 0, 0, 3, 75, 101, 121, 0, 0, 0, 1, 86]
    );
}

#[test]
fn request_errors() {
    assert_eq!(make_request("foo bar"), Err(RequestError::InvalidCommand));
    assert_eq!(make_request(""), Err(RequestError::InvalidCommand));
    assert_eq!(make_request("del k"), Err(RequestError::InvalidArguments));
    assert_eq!(make_request("get"), Err(RequestError::InvalidArguments));
    assert_eq!(make_request("get  k"), Err(RequestError::InvalidArguments));
    assert_eq!(make_request("set k"), Err(RequestError::InvalidArguments));
    assert_eq!(RequestError::InvalidCommand.message(), "Invalid command");
}

#[test]
fn split_keeps_empty_words() {
    let parts = split_words(b"a  b");
    assert_eq!(parts, vec![b"a".to_vec(), Vec::new(), b"b".to_vec()]);
    assert_eq!(split_words(b""), vec![Vec::<u8>::new()]);
}

#[test]
fn helpers_have_exact_output() {
    let mut v = Vec::new();
    put_u32(&mut v, 0x01020304);
    assert_eq!(v, vec![1, 2, 3, 4]);
    assert_eq!(to_ascii_lower(b"AbZ-9"), b"abz-9".to_vec());
    assert_eq!(make_buf(&vec![b"GET".to_vec(), b"X".to_vec()]), vec![0, 0, 0, 2, 0, 0, 0, 3, 103, 101, 116, 0, 0, 0, 1, 88]);
}

#[test]
fn empty_part_list_is_the_count_alone() {
    assert_eq!(make_buf(&Vec::new()), vec![0, 0, 0, 0]);
}
