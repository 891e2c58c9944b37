use vfs::boxed::{BoxedFileSystem, BoxedFs};
use vfs::composite::Composite;
use vfs::copy::copy;
use vfs::error::{CopyError, Error, ErrorKind};
use vfs::glob::Globber;
use vfs::memory::{MemoryFS, MemoryFile, MemoryPath};
use vfs::overlay::Merge;
use vfs::path::{extension_of_name, parse_path, render};
use vfs::resolve::{ResolveStep, ResolveType, Resolver};
use vfs::types::{FileType, Metadata, OpenOptions, SeekFrom};
use vfs::walk::{GlobWalkDirIter, WalkAction, WalkDirIter, WalkEvent, WalkMachine, WalkStep};

fn memory_with(files: &[(&str, &str)]) -> MemoryFS {
    let mut m = MemoryFS::new();
    for (p, content) in files {
        let k = parse_path(p).unwrap();
        for i in 1..k.len() {
            let dir = render(&k[..i].to_vec());
            m.create_dir(&dir).unwrap();
        }
        m.write_file(p, content.as_bytes().to_vec()).unwrap();
    }
    m
}

fn overlay(lower: MemoryFS, upper: MemoryFS) -> BoxedFileSystem {
    BoxedFileSystem::new(BoxedFs::Overlay(Box::new(Merge::new(BoxedFs::Memory(lower), BoxedFs::Memory(upper)))))
}

fn names_of(fs: &BoxedFileSystem, dir: &str) -> Vec<String> {
    fs.path(dir).unwrap().read_dir().unwrap().iter().map(|p| p.file_name().unwrap()).collect()
}

#[test]
fn overlay_existence_is_either_side() {
    let lower = memory_with(&[("/a.txt", "l"), ("/both.txt", "l")]);
    let upper = memory_with(&[("/b.txt", "u"), ("/both.txt", "u")]);
    let fs = overlay(lower, upper);
    for p in ["/a.txt", "/b.txt", "/both.txt"] {
        assert!(fs.path(p).unwrap().is_present());
    }
    assert!(!fs.path("/none.txt").unwrap().is_present());
}

#[test]
fn overlay_upper_shadows_lower() {
    let lower = memory_with(&[("/f.txt", "lower")]);
    let upper = memory_with(&[("/f.txt", "upper!")]);
    let fs = overlay(lower, upper);
    let p = fs.path("/f.txt").unwrap();
    assert_eq!(p.read().unwrap(), b"upper!".to_vec());
    assert_eq!(p.metadata().unwrap(), Metadata { size: 6, kind: FileType::File });
}

#[test]
fn overlay_listing_has_each_name_once() {
    let lower = memory_with(&[("/d/x", "1"), ("/d/y", "2")]);
    let upper = memory_with(&[("/d/y", "3"), ("/d/z", "4")]);
    let fs = overlay(lower, upper);
    assert_eq!(names_of(&fs, "/d"), vec!["y".to_string(), "z".to_string(), "x".to_string()]);
}

#[test]
fn overlay_scenario_readme_and_sources() {
    let lower = memory_with(&[("/README.md", "read me"), ("/src/a.rs", "lower a")]);
    let upper = memory_with(&[("/src/a.rs", "upper a"), ("/src/b.rs", "upper b")]);
    let fs = overlay(lower, upper);
    let entries = fs.path("/src").unwrap().read_dir().unwrap();
    let mut seen: Vec<(String, Vec<u8>)> = entries.iter().map(|p| (p.file_name().unwrap(), p.read().unwrap())).collect();
    seen.sort();
    assert_eq!(seen, vec![("a.rs".to_string(), b"upper a".to_vec()), ("b.rs".to_string(), b"upper b".to_vec())]);
    let mut f = fs.path("/README.md").unwrap().open(OpenOptions::new().read(true)).unwrap();
    assert_eq!(f.read_to_end(), b"read me".to_vec());
}

#[test]
fn overlay_refuses_writes() {
    let fs = overlay(MemoryFS::new(), memory_with(&[("/f", "x")]));
    let e = fs.path("/f").unwrap().open(OpenOptions::new().write(true).create(true)).unwrap_err();
    assert_eq!(e.kind(), ErrorKind::PermissionDenied);
    let mut b = BoxedFs::Overlay(Box::new(Merge::new(BoxedFs::Memory(MemoryFS::new()), BoxedFs::Memory(MemoryFS::new()))));
    assert_eq!(b.create_dir("/d").unwrap_err().kind(), ErrorKind::PermissionDenied);
    assert_eq!(b.write_file("/f", vec![1]).unwrap_err().kind(), ErrorKind::PermissionDenied);
}

fn composite() -> BoxedFileSystem {
    let a = memory_with(&[("/x", "in a")]);
    let b = memory_with(&[("/y", "in b")]);
    BoxedFileSystem::new(BoxedFs::Composite(Composite::new().mount("a", BoxedFs::Memory(a)).mount("b", BoxedFs::Memory(b))))
}

#[test]
fn composite_routes_by_first_segment() {
    let fs = composite();
    assert!(fs.path("/a/x").unwrap().is_present());
    assert!(!fs.path("/a/y").unwrap().is_present());
    assert!(fs.path("/b/y").unwrap().is_present());
    assert!(!fs.path("/missing/x").unwrap().is_present());
    assert_eq!(fs.path("/a/x").unwrap().read().unwrap(), b"in a".to_vec());
    assert_eq!(fs.path("/missing/x").unwrap().metadata().unwrap_err().kind(), ErrorKind::NotFound);
}

#[test]
fn composite_root_lists_mounts_as_directories() {
    let fs = composite();
    let entries = fs.path("/").unwrap().read_dir().unwrap();
    let names: Vec<String> = entries.iter().map(|p| p.to_string()).collect();
    assert_eq!(names, vec!["/a".to_string(), "/b".to_string()]);
    for e in entries {
        assert!(e.metadata().unwrap().is_dir());
    }
}

#[test]
fn composite_mount_replaces_same_name() {
    let first = memory_with(&[("/old", "1")]);
    let second = memory_with(&[("/new", "2")]);
    let c = Composite::new().mount("m", BoxedFs::Memory(first)).mount("m", BoxedFs::Memory(second));
    assert_eq!(c.names(), vec!["m".to_string()]);
    let fs = BoxedFileSystem::new(BoxedFs::Composite(c));
    assert!(fs.path("/m/new").unwrap().is_present());
    assert!(!fs.path("/m/old").unwrap().is_present());
}

#[test]
fn composite_mutation_below_a_mount_and_at_root() {
    let mut c = BoxedFs::Composite(Composite::new().mount("a", BoxedFs::Memory(MemoryFS::new())));
    c.write_file("/a/f.txt", b"hi".to_vec()).unwrap();
    assert!(c.exists_at(&parse_path("/a/f.txt").unwrap()));
    assert_eq!(c.create_dir("/").unwrap_err().kind(), ErrorKind::PermissionDenied);
    assert_eq!(c.write_file("/zz/f", vec![]).unwrap_err().kind(), ErrorKind::NotFound);
    c.create_dir("/a/d/e").unwrap();
    c.remove("/a/d").unwrap();
    assert!(!c.exists_at(&parse_path("/a/d/e").unwrap()));
}

fn deep_tree(depth: usize, fanout: usize) -> (MemoryFS, usize) {
    let mut m = MemoryFS::new();
    let mut dirs = vec![String::new()];
    let mut files = 0;
    for _ in 0..depth {
        let mut next = vec![];
        for d in &dirs {
            for i in 0..fanout {
                let f = format!("{}/f{}.txt", d, i);
                m.write_file(&f, vec![b'x']).unwrap();
                files += 1;
            }
            let sub = format!("{}/d", d);
            m.create_dir(&sub).unwrap();
            next.push(sub);
        }
        dirs = next;
    }
    (m, files)
}

#[test]
fn walk_yields_every_file_once() {
    let (m, files) = deep_tree(6, 5);
    let fs = BoxedFileSystem::new(BoxedFs::Memory(m));
    let mut walk = WalkDirIter::new(&fs.root_path());
    let mut seen: Vec<String> = vec![];
    loop {
        match walk.step() {
            WalkStep::Yield(p) => seen.push(p.to_string()),
            WalkStep::Skip => {}
            WalkStep::Failed(e) => panic!("{}", e.describe()),
            WalkStep::Done => break,
        }
    }
    assert_eq!(seen.len(), files);
    let mut dedup = seen.clone();
    dedup.sort();
    dedup.dedup();
    assert_eq!(dedup.len(), files);
}

#[test]
fn glob_walk_yields_matching_files() {
    let m = memory_with(&[("/a.txt", "1"), ("/b.rs", "2"), ("/s/c.txt", "3"), ("/s/t/d.txt", "4"), ("/s/e.md", "5")]);
    let fs = BoxedFileSystem::new(BoxedFs::Memory(m));
    let mut walk = GlobWalkDirIter::new(&fs.root_path(), "**/*.txt").unwrap();
    let mut seen = vec![];
    loop {
        match walk.step() {
            WalkStep::Yield(p) => seen.push(p.to_string()),
            WalkStep::Skip => {}
            WalkStep::Failed(e) => panic!("{}", e.describe()),
            WalkStep::Done => break,
        }
    }
    seen.sort();
    assert_eq!(seen, vec!["/a.txt".to_string(), "/s/c.txt".to_string(), "/s/t/d.txt".to_string()]);
}

#[test]
fn glob_set_is_any_pattern() {
    let g = Globber::new_set(&vec!["*.rs".to_string(), "*.md".to_string()]).unwrap();
    assert!(g.is_match("/src/lib.rs"));
    assert!(g.is_match("/README.md"));
    assert!(!g.is_match("/a.txt"));
    assert_eq!(Globber::new("a[").err().unwrap().kind(), ErrorKind::InvalidInput);
    let deep = format!("{}a{}", "{".repeat(300), "}".repeat(300));
    assert_eq!(Globber::new(&deep).err().unwrap().kind(), ErrorKind::InvalidInput);
    assert!(GlobWalkDirIter::new_set(&BoxedFileSystem::new(BoxedFs::Empty).root_path(), &vec!["{".to_string()]).is_err());
}

#[test]
fn boxing_is_transparent() {
    let m = memory_with(&[("/d/f.txt", "abc")]);
    let paths = ["/", "/d", "/d/f.txt", "/nope"];
    let expected: Vec<Result<Metadata, ErrorKind>> = paths.iter().map(|p| m.metadata(p).map_err(|e| e.kind())).collect();
    let fs = BoxedFileSystem::new(BoxedFs::Memory(m));
    let got: Vec<Result<Metadata, ErrorKind>> = paths.iter().map(|p| fs.path(p).unwrap().metadata().map_err(|e| e.kind())).collect();
    assert_eq!(got, expected);
}

#[test]
fn box_clone_reads_the_same() {
    let fs = BoxedFileSystem::new(BoxedFs::Memory(memory_with(&[("/d/f.txt", "abc")])));
    let p = fs.path("/d").unwrap();
    let q = p.box_clone();
    assert_eq!(p.to_string(), q.to_string());
    let pn: Vec<String> = p.read_dir().unwrap().iter().map(|e| e.to_string()).collect();
    let qn: Vec<String> = q.read_dir().unwrap().iter().map(|e| e.to_string()).collect();
    assert_eq!(pn, qn);
    assert_eq!(p.metadata().unwrap(), q.metadata().unwrap());
    let sub = q.into_fs();
    assert_eq!(sub.path("f.txt").unwrap().read().unwrap(), b"abc".to_vec());
    assert_eq!(sub.path("f.txt").unwrap().to_string(), "/d/f.txt");
    assert_eq!(sub.root_path().to_string(), "/d");
}

#[test]
fn paths_normalize_and_refuse_escape() {
    let fs = BoxedFileSystem::new(BoxedFs::Empty);
    assert_eq!(fs.path("a/./b//c/../d").unwrap().to_string(), "/a/b/d");
    assert_eq!(fs.path("").unwrap().to_string(), "/");
    assert_eq!(fs.path("..").unwrap_err().kind(), ErrorKind::InvalidInput);
    let p = fs.path("/a/b").unwrap();
    assert_eq!(p.resolve("../c").unwrap().to_string(), "/a/c");
    assert_eq!(p.resolve("../../..").unwrap_err().kind(), ErrorKind::InvalidInput);
    assert_eq!(p.parent().unwrap().to_string(), "/a");
    assert!(fs.path("/").unwrap().parent().is_none());
    assert!(fs.path("/").unwrap().file_name().is_none());
    assert_eq!(fs.path("/x").unwrap().metadata().unwrap_err().kind(), ErrorKind::NotFound);
}

#[test]
fn extension_is_after_last_dot() {
    assert_eq!(extension_of_name("a.tar.gz"), Some("gz".to_string()));
    assert_eq!(extension_of_name("noext"), None);
    assert_eq!(extension_of_name("trailing."), Some(String::new()));
}

#[test]
fn memory_file_seek_and_read() {
    let mut f = MemoryFile::new(b"hello world".to_vec());
    assert_eq!(f.read(5), b"hello".to_vec());
    assert_eq!(f.seek(SeekFrom::End(-5)).unwrap(), 6);
    assert_eq!(f.read_to_end(), b"world".to_vec());
    assert_eq!(f.seek(SeekFrom::Current(-20)).unwrap_err().kind(), ErrorKind::InvalidInput);
    assert_eq!(f.seek(SeekFrom::Start(100)).unwrap(), 100);
    assert_eq!(f.read(3), Vec::<u8>::new());
}

#[test]
fn memory_open_modes() {
    let mut m = MemoryFS::new();
    assert_eq!(m.open("/f", OpenOptions::new().read(true)).unwrap_err().kind(), ErrorKind::NotFound);
    m.open("/f", OpenOptions::new().write(true).create(true)).unwrap();
    m.write_file("/f", b"abc".to_vec()).unwrap();
    let f = m.open("/f", OpenOptions::new().append(true)).unwrap();
    assert_eq!(f.pos, 3);
    let f = m.open("/f", OpenOptions::new().write(true).truncate(true)).unwrap();
    assert_eq!(f.data, Vec::<u8>::new());
    assert_eq!(m.read("/f").unwrap(), Vec::<u8>::new());
    m.append_file("/f", &b"xy".to_vec()).unwrap();
    m.append_file("/f", &b"z".to_vec()).unwrap();
    assert_eq!(m.read("/f").unwrap(), b"xyz".to_vec());
    m.create_dir("/d").unwrap();
    assert_eq!(m.open("/d", OpenOptions::new().read(true)).unwrap_err().kind(), ErrorKind::Other);
    assert_eq!(m.write_file("/nodir/f", vec![]).unwrap_err().kind(), ErrorKind::NotFound);
    assert_eq!(m.open("/", OpenOptions::new()).unwrap_err().kind(), ErrorKind::Other);
}

#[test]
fn memory_remove_and_listing() {
    let mut m = memory_with(&[("/d/a", "1"), ("/d/b", "2"), ("/e", "3")]);
    assert_eq!(m.read_dir("/").unwrap(), vec!["d".to_string(), "e".to_string()]);
    assert_eq!(m.read_dir("/d").unwrap(), vec!["a".to_string(), "b".to_string()]);
    assert!(m.read_dir("/e").is_err());
    assert_eq!(m.remove("/").unwrap_err().kind(), ErrorKind::PermissionDenied);
    assert_eq!(m.remove("/zz").unwrap_err().kind(), ErrorKind::NotFound);
    m.remove("/d").unwrap();
    assert!(!m.is_present("/d/a"));
    assert!(m.is_present("/e"));
    assert_eq!(m.read_dir("/").unwrap(), vec!["e".to_string()]);
}

#[test]
fn memory_path_decomposes() {
    assert_eq!(MemoryPath::new("/foo/bar".to_string()).decompose_path(), (Some("/foo".to_string()), "bar".to_string()));
    assert_eq!(MemoryPath::new("/foo".to_string()).decompose_path(), (Some("/".to_string()), "foo".to_string()));
    assert_eq!(MemoryPath::new("/".to_string()).decompose_path(), (None, "/".to_string()));
}

#[test]
fn errors_describe_themselves() {
    let e = Error::new(ErrorKind::NotFound, "gone");
    assert_eq!(e.describe(), "entity not found: gone");
    assert_eq!(Error::from(ErrorKind::PermissionDenied).describe(), "permission denied");
    assert_eq!(Error::new_const(ErrorKind::Other, "x").message(), Some("x"));
    assert_eq!(ErrorKind::WriteZero.as_str(), "write zero");
}

#[test]
fn seek_targets() {
    assert_eq!(SeekFrom::Start(7).resolve(1, 2), Some(7));
    assert_eq!(SeekFrom::End(-2).resolve(0, 10), Some(8));
    assert_eq!(SeekFrom::Current(3).resolve(4, 0), Some(7));
    assert_eq!(SeekFrom::Current(-5).resolve(4, 0), None);
    assert_eq!(SeekFrom::End(1).resolve(0, u64::MAX), None);
}

#[test]
fn open_options_builder() {
    let o = OpenOptions::new().read(true).append(true);
    assert!(o.read && o.append && !o.write && !o.create && !o.truncate);
    assert!(o.is_read_only() == false);
    assert!(OpenOptions::new().read(true).is_read_only());
    assert!(!o.is_non_mutating());
    assert_eq!(OpenOptions::default(), OpenOptions::new());
}

fn drive(fs: &BoxedFs, mut machine: WalkMachine) -> Vec<String> {
    let mut out = vec![];
    let mut event = WalkEvent::Resume;
    loop {
        match machine.advance(event) {
            WalkAction::OpenDirectory(d) => event = WalkEvent::Listed(fs.list_at(&d).map_err(|e| e.kind())),
            WalkAction::FetchMetadata(c) => event = WalkEvent::Fetched(fs.metadata_at(&c).map_err(|e| e.kind())),
            WalkAction::Fail(k) => panic!("{:?}", k),
            WalkAction::Yield(y) => {
                out.push(render(&y));
                event = WalkEvent::Resume;
            }
            WalkAction::Continue => event = WalkEvent::Resume,
            WalkAction::Finish => return out,
        }
    }
}

#[test]
fn walk_machine_visits_every_file() {
    let (m, files) = deep_tree(5, 5);
    let fs = BoxedFs::Memory(m);
    let machine = WalkMachine::new(&Vec::new(), None);
    let mut seen = drive(&fs, machine);
    assert_eq!(seen.len(), files);
    seen.sort();
    seen.dedup();
    assert_eq!(seen.len(), files);
}

#[test]
fn walk_machine_with_glob() {
    let m = memory_with(&[("/a.txt", "1"), ("/b.rs", "2"), ("/s/c.txt", "3")]);
    let fs = BoxedFs::Memory(m);
    let machine = WalkMachine::new(&Vec::new(), Some(Globber::new("**/*.txt").unwrap()));
    let mut seen = drive(&fs, machine);
    seen.sort();
    assert_eq!(seen, vec!["/a.txt".to_string(), "/s/c.txt".to_string()]);
}

#[test]
fn copy_tree_into_empty_filesystem() {
    let src = BoxedFs::Memory(memory_with(&[("/a.txt", "A"), ("/d/b.txt", "B")]));
    let mut dest = BoxedFs::Memory(MemoryFS::new());
    copy(&src, &Vec::new(), &mut dest, &Vec::new()).unwrap();
    assert_eq!(dest.read_at(&parse_path("/a.txt").unwrap()).unwrap(), b"A".to_vec());
    assert_eq!(dest.read_at(&parse_path("/d/b.txt").unwrap()).unwrap(), b"B".to_vec());
}

#[test]
fn copy_file_into_directory_keeps_its_location() {
    let src = BoxedFs::Memory(memory_with(&[("/d/b.txt", "B")]));
    let mut dest = BoxedFs::Memory(MemoryFS::new());
    dest.create_dir("/backup").unwrap();
    copy(&src, &parse_path("/d/b.txt").unwrap(), &mut dest, &parse_path("/backup").unwrap()).unwrap();
    assert_eq!(dest.read_at(&parse_path("/backup/d/b.txt").unwrap()).unwrap(), b"B".to_vec());
}

#[test]
fn copy_errors() {
    let src = BoxedFs::Memory(memory_with(&[("/d/b.txt", "B"), ("/f", "F")]));
    let mut dest = BoxedFs::Memory(memory_with(&[("/g", "G")]));
    match copy(&src, &parse_path("/d").unwrap(), &mut dest, &parse_path("/g").unwrap()) {
        Err(CopyError::InvalidPath) => {}
        other => panic!("unexpected {:?}", other),
    }
    match copy(&src, &parse_path("/none").unwrap(), &mut dest, &Vec::new()) {
        Err(CopyError::Io(e)) => assert_eq!(e.kind(), ErrorKind::NotFound),
        other => panic!("unexpected {:?}", other),
    }
    copy(&src, &parse_path("/f").unwrap(), &mut dest, &parse_path("/g").unwrap()).unwrap();
    assert_eq!(dest.read_at(&parse_path("/g").unwrap()).unwrap(), b"F".to_vec());
}

fn resolve_all(fs: &BoxedFileSystem, ty: ResolveType, pattern: &str) -> Vec<String> {
    let resolver = Resolver::new(ty, Globber::new(pattern).unwrap());
    let mut iter = resolver.resolve(&fs.root_path()).unwrap();
    let mut out = vec![];
    loop {
        match iter.step() {
            ResolveStep::Found(p) => out.push(p.to_string()),
            ResolveStep::Failed(e) => panic!("{}", e.describe()),
            ResolveStep::Skip => {}
            ResolveStep::Done => return out,
        }
    }
}

#[test]
fn resolver_finds_matches_breadth_first() {
    let m = memory_with(&[("/src/lib.rs", "1"), ("/src/a/b.rs", "2"), ("/top.rs", "3"), ("/x.txt", "4")]);
    let fs = BoxedFileSystem::new(BoxedFs::Memory(m));
    assert_eq!(resolve_all(&fs, ResolveType::File, "**/*.rs"), vec!["/top.rs".to_string(), "/src/lib.rs".to_string(), "/src/a/b.rs".to_string()]);
}

#[test]
fn resolver_project_mode_skips_rest_of_directory() {
    let m = memory_with(&[("/a.rs", "1"), ("/b.rs", "2"), ("/d/c.rs", "3")]);
    let fs = BoxedFileSystem::new(BoxedFs::Memory(m));
    assert_eq!(resolve_all(&fs, ResolveType::Project, "**/*.rs"), vec!["/a.rs".to_string()]);
}

#[test]
fn walk_starts_with_files_in_listing_order_and_reports_errors() {
    let m = memory_with(&[("/a", "1"), ("/d/x", "2"), ("/b", "3")]);
    let fs = BoxedFileSystem::new(BoxedFs::Memory(m));
    let mut walk = WalkDirIter::new(&fs.root_path());
    let mut seen = vec![];
    loop {
        match walk.step() {
            WalkStep::Yield(p) => seen.push(p.to_string()),
            WalkStep::Skip => {}
            WalkStep::Failed(e) => panic!("{}", e.describe()),
            WalkStep::Done => break,
        }
    }
    assert_eq!(seen, vec!["/a".to_string(), "/b".to_string(), "/d/x".to_string()]);
    let mut bad = WalkDirIter::new(&fs.path("/a").unwrap());
    match bad.step() {
        WalkStep::Failed(e) => assert_eq!(e.kind(), ErrorKind::Other),
        _ => panic!("a file cannot be listed"),
    }
}

#[test]
fn walk_machine_reports_listing_failure() {
    let mut machine = WalkMachine::new(&parse_path("/nope").unwrap(), None);
    match machine.advance(WalkEvent::Resume) {
        WalkAction::OpenDirectory(_) => {}
        _ => panic!("expected a directory to open"),
    }
    match machine.advance(WalkEvent::Listed(Err(ErrorKind::NotFound))) {
        WalkAction::Fail(k) => assert_eq!(k, ErrorKind::NotFound),
        _ => panic!("expected the failure"),
    }
}

#[test]
fn composite_mount_entries_are_directories_even_when_empty() {
    let c = Composite::new().mount("e", BoxedFs::Empty);
    let fs = BoxedFileSystem::new(BoxedFs::Composite(c));
    let p = fs.path("/e").unwrap();
    assert!(p.is_present());
    assert_eq!(p.metadata().unwrap(), Metadata { size: 0, kind: FileType::Dir });
    let missing = fs.path("/nope/x").unwrap();
    assert_eq!(missing.open(OpenOptions::new().create(true)).unwrap_err().kind(), ErrorKind::NotFound);
}

#[test]
fn overlay_refuses_mutating_open_even_where_nothing_exists() {
    let fs = overlay(MemoryFS::new(), MemoryFS::new());
    let e = fs.path("/nothing").unwrap().open(OpenOptions::new().create(true)).unwrap_err();
    assert_eq!(e.kind(), ErrorKind::PermissionDenied);
}

#[test]
fn boxed_open_at_creates_truncates_and_appends() {
    let mut b = BoxedFs::Memory(MemoryFS::new());
    let k = parse_path("/f").unwrap();
    assert_eq!(b.open_at(&k, OpenOptions::new().write(true).append(true)).unwrap_err().kind(), ErrorKind::NotFound);
    let f = b.open_at(&k, OpenOptions::new().write(true).create(true)).unwrap();
    assert_eq!(f.data, Vec::<u8>::new());
    b.write_file_at(&k, b"abc".to_vec()).unwrap();
    let f = b.open_at(&k, OpenOptions::new().append(true)).unwrap();
    assert_eq!(f.pos, 3);
    let f = b.open_at(&k, OpenOptions::new().truncate(true)).unwrap();
    assert_eq!(f.data, Vec::<u8>::new());
    assert_eq!(b.read_at(&k).unwrap(), Vec::<u8>::new());
    let fs = BoxedFileSystem::new(b);
    assert_eq!(fs.path("/f").unwrap().open(OpenOptions::new().create(true)).unwrap_err().kind(), ErrorKind::Unsupported);
}

#[test]
fn composite_remove_outcomes() {
    let mut c = BoxedFs::Composite(Composite::new().mount("a", BoxedFs::Memory(memory_with(&[("/x", "1")]))));
    assert_eq!(c.remove("/missing").unwrap_err().kind(), ErrorKind::NotFound);
    assert_eq!(c.remove("/a").unwrap_err().kind(), ErrorKind::PermissionDenied);
    assert_eq!(c.remove("/").unwrap_err().kind(), ErrorKind::PermissionDenied);
    c.remove("/a/x").unwrap();
    assert!(!c.exists_at(&parse_path("/a/x").unwrap()));
}

#[test]
fn overlay_listing_follows_the_upper_file() {
    let lower = memory_with(&[("/d/x", "1")]);
    let upper = memory_with(&[("/d", "file")]);
    let fs = overlay(lower, upper);
    assert!(fs.path("/d").unwrap().metadata().unwrap().is_file());
    assert!(fs.path("/d").unwrap().read_dir().is_err());
}
