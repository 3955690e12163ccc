use tiny_renderer::obj::parse_i32;
use tiny_renderer::obj::parse_obj_line;
use tiny_renderer::obj::split_bytes;
use tiny_renderer::obj::ObjLine;

fn text(fields: &[Vec<u8>]) -> Vec<&str> {
    fields.iter().map(|f| std::str::from_utf8(f).unwrap()).collect()
}

#[test]
fn split_keeps_empty_pieces() {
    let parts = split_bytes(b"a  b/", b' ');
    assert_eq!(parts, vec![b"a".to_vec(), vec![], b"b/".to_vec()]);
    assert_eq!(split_bytes(b"", b'/'), vec![Vec::<u8>::new()]);
    assert_eq!(split_bytes(b"1/2/3", b'/').len(), 3);
}

#[test]
fn integers_like_std() {
    for s in ["0", "7", "-12", "+42", "2147483647", "-2147483648", "007"] {
        assert_eq!(parse_i32(s.as_bytes()), s.parse::<i32>().ok(), "{}", s);
    }
    for s in ["", "-", "+", "2147483648", "-2147483649", "1a", " 1", "99999999999999999999", "+-1"] {
        assert_eq!(parse_i32(s.as_bytes()), None, "{}", s);
    }
}

#[test]
fn vertex_lines() {
    match parse_obj_line(b"v -0.5 0.25 1") {
        Some(ObjLine::Vertex(f)) => assert_eq!(text(&f), vec!["-0.5", "0.25", "1"]),
        _ => panic!("not a vertex"),
    }
    match parse_obj_line(b"vn  0.1 0.2 0.3") {
        Some(ObjLine::Normal(f)) => assert_eq!(text(&f), vec!["0.1", "0.2", "0.3"]),
        _ => panic!("not a normal"),
    }
    match parse_obj_line(b"vt  0.532 0.923 0.000") {
        Some(ObjLine::TexCoord(f)) => assert_eq!(text(&f), vec!["0.532", "0.923"]),
        _ => panic!("not a texture coordinate"),
    }
    assert!(parse_obj_line(b"v 1 2").is_none());
    assert!(parse_obj_line(b"vt 1").is_none());
}

#[test]
fn face_lines() {
    match parse_obj_line(b"f 24/1/24 25/2/25 26/3/26") {
        Some(ObjLine::Face(c)) => assert_eq!(c, vec![(23, 0, 23), (24, 1, 24), (25, 2, 25)]),
        _ => panic!("not a face"),
    }
    match parse_obj_line(b"f 1/2/3/4 5/6/7 8/9/10 11/12/13") {
        Some(ObjLine::Face(c)) => assert_eq!(c, vec![(0, 1, 2), (4, 5, 6), (7, 8, 9)]),
        _ => panic!("not a face"),
    }
    assert!(parse_obj_line(b"f 1/2 3/4/5 6/7/8").is_none());
    assert!(parse_obj_line(b"f 1/2/3 4/5/6").is_none());
    assert!(parse_obj_line(b"f 1/x/3 4/5/6 7/8/9").is_none());
    assert!(parse_obj_line(b"f 1/2/3  4/5/6 7/8/9").is_none());
    assert!(parse_obj_line(b"f -2147483648/1/1 1/1/1 1/1/1").is_none());
}

#[test]
fn other_lines() {
    for l in ["# comment", "", "g head", "s 1", "v", "f", "vx 1 2 3"] {
        assert!(matches!(parse_obj_line(l.as_bytes()), Some(ObjLine::Other)), "{}", l);
    }
}
