use std::path::{Path, PathBuf};
use zbus::FilePath;
use zbus::TypeSig;

#[test]
fn filepath_from() {
    let path = Path::new("/hello/world");
    let path_buf = PathBuf::from(path);

    let p1 = FilePath::from(path);
    let p2 = FilePath::from(path_buf);
    let p3 = FilePath::from("/hello/world");

    assert_eq!(p1, p2);
    assert_eq!(p2, p3)
}

#[test]
fn filepath_signature() {
    assert_eq!(
        TypeSig::Array(Box::new(TypeSig::Byte)).to_string(),
        FilePath::signature()
    );
}

#[test]
fn into_test() {
    let first = PathBuf::from("/hello/world");
    let p = FilePath::from(first.clone());
    let second: PathBuf = p.into();
    assert_eq!(first, second);
}

#[test]
fn filepath_default_is_empty() {
    let p = FilePath::default();
    assert_eq!(p.path.len(), 0);
}

#[test]
fn filepath_as_ref() {
    let p = FilePath::from("/hello/world");
    assert!(p.as_ref() == &p);
}
