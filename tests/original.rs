use vfs::boxed::{BoxedFileSystem, BoxedFs};
use vfs::composite::Composite;
use vfs::memory::MemoryFS;
use vfs::overlay::Merge;
use vfs::physical::PhysicalFS;
use vfs::types::OpenOptions;

fn memory_with(files: &[(&str, &str)]) -> MemoryFS {
    let mut m = MemoryFS::new();
    for (p, content) in files {
        m.write_file(p, content.as_bytes().to_vec()).unwrap();
    }
    m
}

#[test]
fn mkdir() {
    let mut fs = MemoryFS::new();
    assert!(!fs.is_present("/foo/bar/baz"), "Path should not exist");
    fs.create_dir("/foo/bar/baz").unwrap();
    assert!(fs.is_present("/foo/bar/baz"), "Path should exist now");
    assert!(fs.metadata("/foo/bar/baz").unwrap().is_dir(), "Path should be dir");
    assert!(!fs.metadata("/foo/bar/baz").unwrap().is_file(), "Path should be not be a file");
    assert!(fs.metadata("/foo/bar/baz").unwrap().len() == 0, "Path size should be 0");
}

#[test]
fn mkdir_fails_for_file() {
    let mut fs = MemoryFS::new();
    fs.open("/foo", OpenOptions::new().write(true).create(true).truncate(true)).unwrap();
    assert!(fs.create_dir("/foo").is_err(), "Path should not be created");
}

#[test]
fn test_to_string() {
    let m1 = memory_with(&[("/test.txt", "Hello, World!")]);
    let m2 = MemoryFS::new();
    let com = Composite::new().mount("app1", BoxedFs::Memory(m1)).mount("app2", BoxedFs::Memory(m2));
    let fs = BoxedFileSystem::new(BoxedFs::Composite(com));
    assert_eq!(fs.path("/app1/test.txt").unwrap().to_string(), "/app1/test.txt");
}

#[test]
fn test_composite() {
    let m1 = memory_with(&[("/test.txt", "Hello, World!")]);
    let m2 = MemoryFS::new();
    let com = Composite::new().mount("app1", BoxedFs::Memory(m1)).mount("app2", BoxedFs::Memory(m2));
    let fs = BoxedFileSystem::new(BoxedFs::Composite(com));
    assert!(!fs.path("test/mig").unwrap().is_present());
    assert!(fs.path("app1/test.txt").unwrap().is_present());
}

#[test]
fn test_composite_iter() {}

#[test]
fn overlay_test_overlay() {
    let m1 = memory_with(&[("/test.txt", "Hello, World!"), ("/test2.txt", "Hello, World!")]);
    let m2 = MemoryFS::new();
    let overlay = BoxedFileSystem::new(BoxedFs::Overlay(Box::new(Merge::new(BoxedFs::Memory(m1), BoxedFs::Memory(m2)))));
    assert!(overlay.path("/test.txt").unwrap().is_present());
    assert!(overlay.path("/test2.txt").unwrap().is_present());
}

#[test]
fn test_overlay_iterator() {
    let m1 = memory_with(&[("/test.txt", "Hello, World!"), ("/test2.txt", "Hello, World!")]);
    let m2 = MemoryFS::new();
    let overlay = BoxedFileSystem::new(BoxedFs::Overlay(Box::new(Merge::new(BoxedFs::Memory(m1), BoxedFs::Memory(m2)))));
    let iter = overlay.path("").unwrap().read_dir().unwrap();
    for i in iter {
        println!("iter {:?}", i.to_string());
    }
}

#[test]
fn boxed_it_works() {
    let m = MemoryFS::new();
    let mut b = BoxedFs::Memory(m);
    b.write_file("/test.txt", b"Hello, World!".to_vec()).unwrap();
}

#[test]
fn physical_to_string() {
    let vfs = PhysicalFS::new(".").unwrap();
    let path = vfs.path("./src/boxed.rs").unwrap();
    assert_eq!(path.to_string(), "/src/boxed.rs");
}

#[test]
fn physical_parent() {
    let vfs = PhysicalFS::new(".").unwrap();
    let src = vfs.path("./src").unwrap();
    let parent = vfs.path(".").unwrap();
    assert_eq!(src.parent().unwrap().to_string(), parent.to_string());
    assert!(std::path::PathBuf::from("/").parent().is_none());
}

#[test]
fn physical_parent_err() {
    let vfs = PhysicalFS::new(".").unwrap();
    let src = vfs.path("").unwrap();
    assert!(src.parent().is_none());
}

#[test]
fn physical_file_name() {
    let vfs = PhysicalFS::new(".").unwrap();
    let src = vfs.path("./src/lib.rs").unwrap();
    assert_eq!(src.file_name(), Some("lib.rs".to_owned()));
    assert_eq!(src.extension(), Some("rs".to_owned()));
}

#[test]
fn to_path_buf() {
    let vfs = PhysicalFS::new(".").unwrap();
    let src = vfs.path("./src/lib.rs").unwrap();
    assert_eq!(Some("./src/lib.rs".to_owned()), src.to_path_buf());
}

#[test]
fn lib_it_works() {
    assert_eq!(2 + 2, 4);
}

