use raytrace::obj::{get_vertex_attributes, parse_decimal};

#[test]
fn face_token_with_all_indices() {
    assert_eq!(get_vertex_attributes(b"12/5/7"), Some((12, Some(5), Some(7))));
}

#[test]
fn face_token_with_vertex_only_or_texture_only() {
    assert_eq!(get_vertex_attributes(b"3"), Some((3, None, None)));
    assert_eq!(get_vertex_attributes(b"3/4"), Some((3, Some(4), None)));
    assert_eq!(get_vertex_attributes(b"3//9"), None);
    assert_eq!(get_vertex_attributes(b"3/"), None);
}

#[test]
fn malformed_face_tokens_are_rejected() {
    assert_eq!(get_vertex_attributes(b""), None);
    assert_eq!(get_vertex_attributes(b"/2/3"), None);
    assert_eq!(get_vertex_attributes(b"x/2/3"), None);
    assert_eq!(get_vertex_attributes(b"1/-2/3"), None);
    assert_eq!(get_vertex_attributes(b"99999999999999999999999"), None);
}

#[test]
fn decimal_fields() {
    let t = b"0042/18446744073709551615/18446744073709551616";
    assert_eq!(parse_decimal(t, 0, 4), Some(42));
    assert_eq!(parse_decimal(t, 5, 25), Some(usize::MAX));
    assert_eq!(parse_decimal(t, 26, t.len()), None);
    assert_eq!(parse_decimal(t, 4, 4), None);
}
