use pathtracer::loader::{ObjError, ObjLoader};
use pathtracer::scene::{faces_in_range, Face};

#[test]
fn plain_face_line() {
    assert_eq!(ObjLoader::parse_face(b"f 1 2 3"), Ok(Some(Face { v0: 0, v1: 1, v2: 2 })));
}

#[test]
fn face_with_texture_and_normal_indices() {
    assert_eq!(
        ObjLoader::parse_face(b"f 10/4/1 20//2 +30/1"),
        Ok(Some(Face { v0: 9, v1: 19, v2: 29 }))
    );
}

#[test]
fn fourth_corner_is_ignored() {
    assert_eq!(ObjLoader::parse_face(b"f 1 2 3 4"), Ok(Some(Face { v0: 0, v1: 1, v2: 2 })));
    assert_eq!(ObjLoader::parse_face(b"f 1 2 3 x"), Ok(Some(Face { v0: 0, v1: 1, v2: 2 })));
}

#[test]
fn other_lines_are_not_faces() {
    assert_eq!(ObjLoader::parse_face(b"v 1.0 2.0 3.0"), Ok(None));
    assert_eq!(ObjLoader::parse_face(b""), Ok(None));
    assert_eq!(ObjLoader::parse_face(b"# f 1 2 3"), Ok(None));
    assert_eq!(ObjLoader::parse_face(b"fo 1 2 3"), Ok(None));
    assert_eq!(ObjLoader::parse_face(b" f 1 2 3"), Ok(None));
}

#[test]
fn short_face_line_is_an_error() {
    assert_eq!(ObjLoader::parse_face(b"f 1 2"), Err(ObjError::MissingCorner));
    assert_eq!(ObjLoader::parse_face(b"f"), Err(ObjError::MissingCorner));
    assert_eq!(ObjLoader::parse_face(b"f x 2"), Err(ObjError::MissingCorner));
}

#[test]
fn bad_corner_is_an_error() {
    assert_eq!(ObjLoader::parse_face(b"f 0 1 2"), Err(ObjError::BadIndex));
    assert_eq!(ObjLoader::parse_face(b"f 1  2 3"), Err(ObjError::BadIndex));
    assert_eq!(ObjLoader::parse_face(b"f 1 -2 3"), Err(ObjError::BadIndex));
    assert_eq!(ObjLoader::parse_face(b"f 1 2 3a"), Err(ObjError::BadIndex));
    assert_eq!(ObjLoader::parse_face(b"f 1 2 99999999999999999999999"), Err(ObjError::BadIndex));
    assert_eq!(ObjLoader::parse_face(b"f 1 2 +"), Err(ObjError::BadIndex));
}

#[test]
fn largest_index_fits() {
    let line = format!("f 1 2 {}", usize::MAX);
    assert_eq!(
        ObjLoader::parse_face(line.as_bytes()),
        Ok(Some(Face { v0: 0, v1: 1, v2: usize::MAX - 1 }))
    );
}

#[test]
fn face_range_check() {
    let faces = vec![Face { v0: 0, v1: 1, v2: 2 }, Face { v0: 2, v1: 3, v2: 1 }];
    assert!(faces_in_range(&faces, 4));
    assert!(!faces_in_range(&faces, 3));
    assert!(faces_in_range(&vec![], 0));
}
