use rspack_storage::codec::{decode_pack_contents, decode_pack_keys};
use rspack_storage::error::{PackFsError, PackFsErrorOpt, Severity};
use rspack_storage::disk::{plan_disk_ops, DiskOp};
use rspack_storage::ids::NamedChunkIdsPlugin;
use rspack_storage::index::get_indexed_packs;
use rspack_storage::meta::PackFileMeta;
use rspack_storage::memory_fs::PackMemoryFs;
use rspack_storage::pack::{Pack, PackContentsState, PackKeysState};
use rspack_storage::read_pack::SplitPackStrategy;
use rspack_storage::storage::{PackStorage, PackStorageOptions};
use rspack_storage::stream::{MemoryFileReader, MemoryFileWriter};

fn bytes(s: &str) -> Vec<u8> {
    s.as_bytes().to_vec()
}

fn options(bucket_size: usize, pack_size: usize) -> PackStorageOptions {
    PackStorageOptions {
        root: bytes("/cache/storage"),
        temp_root: bytes("/temp/storage"),
        bucket_size,
        pack_size,
        expire: 7 * 24 * 60 * 60 * 1000,
    }
}

fn mock_pack_file(fs: &mut PackMemoryFs, path: &str, unique_id: &str, item_count: usize) {
    let mut keys = vec![];
    let mut contents = vec![];
    for i in 0..item_count {
        keys.push(format!("key_{}_{}", unique_id, i).into_bytes());
        contents.push(format!("val_{}_{}", unique_id, i).into_bytes());
    }
    let mut file = vec![];
    let key_lens: Vec<String> = keys.iter().map(|k| k.len().to_string()).collect();
    let content_lens: Vec<String> = contents.iter().map(|k| k.len().to_string()).collect();
    file.extend_from_slice(key_lens.join(" ").as_bytes());
    file.push(b'\n');
    file.extend_from_slice(content_lens.join(" ").as_bytes());
    file.push(b'\n');
    for key in keys {
        file.extend_from_slice(&key);
    }
    for content in contents {
        file.extend_from_slice(&content);
    }
    fs.write_file(path.as_bytes(), file);
}

#[test]
fn should_read_pack() {
    let mut fs = PackMemoryFs::new();
    let strategy = SplitPackStrategy::new(bytes("/cache/test_read_pack"), bytes("/temp"));
    mock_pack_file(&mut fs, "/cache/test_read_pack/mock_pack", "mock", 20);

    let keys = strategy
        .read_pack_keys(&fs, "/cache/test_read_pack/mock_pack")
        .unwrap_or_else(|e| panic!("{:?}", e.message()))
        .unwrap_or_default();
    assert!(keys.contains(&bytes("key_mock_0")));
    assert!(keys.contains(&bytes("key_mock_19")));

    let contents = strategy
        .read_pack_contents(&fs, "/cache/test_read_pack/mock_pack")
        .unwrap_or_else(|e| panic!("{:?}", e.message()))
        .unwrap_or_default();
    assert!(contents.contains(&bytes("val_mock_0")));
    assert!(contents.contains(&bytes("val_mock_19")));

    let non_exists_keys = strategy.read_pack_keys(&fs, "/non_exists_path").unwrap_or_else(|e| panic!("{:?}", e.message()));
    assert!(non_exists_keys.is_none());
    let non_exists_contents =
        strategy.read_pack_contents(&fs, "/non_exists_path").unwrap_or_else(|e| panic!("{:?}", e.message()));
    assert!(non_exists_contents.is_none());
}

#[test]
fn corrupt_pack_is_an_error() {
    let mut fs = PackMemoryFs::new();
    fs.write_file(b"/cache/bad", bytes("5\n1\nab"));
    let strategy = SplitPackStrategy::new(bytes("/cache"), bytes("/temp"));
    match strategy.read_pack_keys(&fs, "/cache/bad") {
        Err(e) => {
            assert_eq!(e.opt, PackFsErrorOpt::Read);
            assert_eq!(e.file, "/cache/bad");
            assert_eq!(e.severity(), Severity::Warning);
        },
        Ok(_) => panic!("should error"),
    }
}

#[test]
fn should_pack_memory_fs_work() {
    let mut fs = PackMemoryFs::new();
    let mut file = bytes("hello\n");
    file.extend_from_slice(b" world");
    fs.write_file(b"/parent/from/file.txt", file.clone());
    assert!(fs.file_exists(b"/parent/from/file.txt"));
    let meta = fs.metadata("/parent/from/file.txt").unwrap_or_else(|e| panic!("{}", e.message()));
    assert!(meta.is_file);
    assert_eq!(meta.size, 12);
    assert_eq!(fs.read_file(b"/parent/from/file.txt"), Some(file.clone()));

    fs.move_file(b"/parent/from/file.txt", b"/parent/to/file.txt");
    assert!(!fs.file_exists(b"/parent/from/file.txt"));
    assert!(fs.file_exists(b"/parent/to/file.txt"));
    assert_eq!(fs.read_file(b"/parent/to/file.txt"), Some(file));

    // moving a missing file does nothing
    fs.move_file(b"/parent/from/file.txt", b"/parent/other.txt");
    assert!(!fs.file_exists(b"/parent/other.txt"));

    fs.remove_file(b"/parent/to/file.txt");
    assert!(!fs.file_exists(b"/parent/to/file.txt"));
    // removing a missing file does nothing
    fs.remove_file(b"/parent/to/file.txt");
    match fs.metadata("/parent/from/not_exist.txt") {
        Ok(_) => panic!("should error"),
        Err(e) => assert_eq!(
            e.message(),
            "Rspack Storage FS Error: stat `/parent/from/not_exist.txt` failed with `Rspack FS Error: file not exist`"
        ),
    }
}

#[test]
fn fs_error_message() {
    let e = PackFsError::from_fs_error("/parent/from/not_exist.txt", PackFsErrorOpt::Stat, "Rspack FS Error: file not exist".to_string());
    assert_eq!(
        e.message(),
        "Rspack Storage FS Error: stat `/parent/from/not_exist.txt` failed with `Rspack FS Error: file not exist`"
    );
    assert_eq!(PackFsErrorOpt::Dir.as_str(), "create dir");
    let io = PackFsError::from_io_error("/x", PackFsErrorOpt::Read, std::io::Error::new(std::io::ErrorKind::Other, "boom"));
    assert_eq!(io.inner, "boom");
    assert_eq!(io.opt, PackFsErrorOpt::Read);
}

fn sorted(mut pairs: Vec<(Vec<u8>, Vec<u8>)>) -> Vec<(Vec<u8>, Vec<u8>)> {
    pairs.sort();
    pairs
}

/// Every pack file under the root: its keys and values.
fn pack_files(fs: &PackMemoryFs) -> Vec<(Vec<Vec<u8>>, Vec<Vec<u8>>)> {
    fs.files
        .iter()
        .filter(|(path, _)| path.starts_with(b"/cache/storage/") && !path.ends_with(b"cache_meta"))
        .map(|(_, file)| (decode_pack_keys(file).expect("keys"), decode_pack_contents(file).expect("contents")))
        .collect()
}

#[test]
fn twenty_keys_flush_and_read_back() {
    let mut storage = PackStorage::new(options(4, 1024));
    let mut written = vec![];
    for i in 0..20 {
        let key = format!("k{}", i).into_bytes();
        let value = vec![b'a' + (i as u8); 20];
        storage.set("scope", key.clone(), value.clone());
        written.push((key, value));
    }
    storage.idle(1);
    let all = storage.get_all("scope");
    assert_eq!(all.len(), 20);
    assert_eq!(sorted(all), sorted(written.clone()));

    let total: usize = written.iter().map(|(k, v)| k.len() + v.len()).sum();
    let on_disk: usize = pack_files(&storage.fs)
        .iter()
        .map(|(ks, vs)| ks.iter().chain(vs.iter()).map(|x| x.len()).sum::<usize>())
        .sum();
    assert_eq!(on_disk, total);

    // a later process finds the same pairs in the files
    let fs = storage.fs;
    let mut reopened = PackStorage::with_fs(options(4, 1024), fs);
    assert_eq!(sorted(reopened.get_all("scope")), sorted(written));
}

#[test]
fn remove_before_idle_drops_the_key() {
    let mut storage = PackStorage::new(options(4, 1024));
    storage.set("scope", bytes("k1"), bytes("v1"));
    storage.remove("scope", b"k1");
    storage.idle(1);
    let all = storage.get_all("scope");
    assert!(all.iter().all(|(k, _)| k != &bytes("k1")));
    assert!(all.is_empty());
}

#[test]
fn later_set_wins_and_removal_after_flush() {
    let mut storage = PackStorage::new(options(2, 64));
    storage.set("s", bytes("a"), bytes("1"));
    storage.set("s", bytes("a"), bytes("2"));
    storage.set("s", bytes("b"), bytes("3"));
    storage.idle(1);
    assert_eq!(sorted(storage.get_all("s")), vec![(bytes("a"), bytes("2")), (bytes("b"), bytes("3"))]);
    storage.remove("s", b"a");
    // pending updates are not seen before a flush
    assert_eq!(sorted(storage.get_all("s")), vec![(bytes("a"), bytes("2")), (bytes("b"), bytes("3"))]);
    storage.idle(2);
    assert_eq!(storage.get_all("s"), vec![(bytes("b"), bytes("3"))]);
    let fs = storage.fs;
    let mut reopened = PackStorage::with_fs(options(2, 64), fs);
    assert_eq!(reopened.get_all("s"), vec![(bytes("b"), bytes("3"))]);
}

#[test]
fn empty_flush_changes_no_file() {
    let mut storage = PackStorage::new(options(4, 128));
    storage.set("scope", bytes("x"), bytes("y"));
    storage.idle(1);
    let before = storage.fs.files.clone();
    storage.idle(2);
    assert_eq!(storage.fs.files, before);
}

#[test]
fn packs_respect_the_size_bound() {
    let mut storage = PackStorage::new(options(1, 40));
    for i in 0..12 {
        storage.set("scope", format!("key{:02}", i).into_bytes(), vec![b'v'; 10]);
    }
    storage.set("scope", bytes("big"), vec![b'b'; 100]);
    storage.idle(1);
    let packs = pack_files(&storage.fs);
    assert!(packs.len() > 1);
    for (ks, vs) in &packs {
        let size: usize = ks.iter().chain(vs.iter()).map(|x| x.len()).sum();
        assert!(size <= 40 || ks.len() == 1);
    }
    assert_eq!(storage.get_all("scope").len(), 13);
}

#[test]
fn keys_stand_in_one_pack_only() {
    let mut storage = PackStorage::new(options(3, 32));
    for i in 0..30 {
        storage.set("scope", format!("key{}", i).into_bytes(), vec![b'v'; 6]);
    }
    storage.idle(1);
    for i in 0..10 {
        storage.set("scope", format!("key{}", i).into_bytes(), vec![b'w'; 3]);
    }
    storage.idle(2);
    let mut keys: Vec<Vec<u8>> = pack_files(&storage.fs).into_iter().flat_map(|(ks, _)| ks).collect();
    let n = keys.len();
    keys.sort();
    keys.dedup();
    assert_eq!(keys.len(), n);
    assert_eq!(n, 30);
    // no staged file is left behind
    assert!(storage.fs.files.iter().all(|(p, _)| !p.starts_with(b"/temp/")));
}

#[test]
fn corrupt_meta_reads_as_empty_scope() {
    let mut fs = PackMemoryFs::new();
    fs.write_file(b"/cache/storage/scope/cache_meta", bytes("garbage"));
    let mut storage = PackStorage::with_fs(options(4, 1024), fs);
    assert!(storage.get_all("scope").is_empty());
}

#[test]
fn pack_states() {
    let pack = Pack::new(bytes("/p"));
    assert!(!pack.loaded());
    let loaded = Pack {
        path: bytes("/p"),
        keys: PackKeysState::Value(vec![bytes("ab")]),
        contents: PackContentsState::Value(vec![bytes("cde")]),
    };
    assert!(loaded.loaded());
    assert_eq!(loaded.size(), 5);
    assert_eq!(loaded.keys.expect_value(), &vec![bytes("ab")]);
    assert_eq!(loaded.contents.expect_value(), &vec![bytes("cde")]);
}

#[test]
fn chunk_ids_plugin_defaults_delimiter() {
    let plugin = NamedChunkIdsPlugin::new(None, None);
    assert_eq!(plugin.delimiter, "-");
    let plugin = NamedChunkIdsPlugin::new(Some("~".to_string()), Some("/ctx".to_string()));
    assert_eq!(plugin.delimiter, "~");
    assert_eq!(plugin.context, Some("/ctx".to_string()));
}

#[test]
fn memory_fs_removes_a_directory() {
    let mut fs = PackMemoryFs::new();
    fs.write_file(b"/parent/from/a", bytes("1"));
    fs.write_file(b"/parent/from/b/c", bytes("2"));
    fs.write_file(b"/parent/fromage", bytes("3"));
    fs.write_file(b"/parent/to/a", bytes("4"));
    fs.remove_dir(b"/parent/from");
    assert!(!fs.file_exists(b"/parent/from/a"));
    assert!(!fs.file_exists(b"/parent/from/b/c"));
    assert!(fs.file_exists(b"/parent/fromage"));
    assert!(fs.file_exists(b"/parent/to/a"));
    fs.remove_dir(b"/parent/missing");
    assert_eq!(fs.files.len(), 2);
}

#[test]
fn untouched_buckets_keep_their_files() {
    // with one bucket per byte sum class, "a" (97) and "b" (98) land in different buckets of two
    let mut storage = PackStorage::new(options(2, 1024));
    storage.set("scope", bytes("a"), bytes("1"));
    storage.set("scope", bytes("b"), bytes("2"));
    storage.idle(1);
    let files_before = storage.fs.files.clone();
    storage.set("scope", bytes("b"), bytes("22"));
    storage.idle(2);
    let pack_of_a = files_before
        .iter()
        .find(|(p, f)| !p.ends_with(b"cache_meta") && decode_pack_keys(f) == Some(vec![bytes("a")]))
        .expect("pack of a");
    assert!(storage.fs.files.contains(pack_of_a));
    assert_eq!(sorted(storage.get_all("scope")), vec![(bytes("a"), bytes("1")), (bytes("b"), bytes("22"))]);
    // the old pack of "b" had the same name: it was replaced, not left behind
    assert_eq!(pack_files(&storage.fs).len(), 2);
}

#[test]
fn indexed_packs_follow_the_filter() {
    let pack = |name: &str| Pack::new(format!("/{}", name).into_bytes());
    let meta = |size: usize| PackFileMeta { name: bytes("n"), hash: bytes("h"), size };
    let packs = vec![vec![pack("a"), pack("b")], vec![], vec![pack("c")]];
    let metas = vec![vec![meta(10), meta(200)], vec![], vec![meta(300)]];
    let all = get_indexed_packs(&packs, &metas, None::<fn(&Pack, &PackFileMeta) -> bool>);
    assert_eq!(all, vec![(0, 0), (0, 1), (2, 0)]);
    let large = get_indexed_packs(&packs, &metas, Some(|_: &Pack, m: &PackFileMeta| m.size > 100));
    assert_eq!(large, vec![(0, 1), (2, 0)]);
}

#[test]
fn memory_file_writer_and_reader() {
    let mut fs = PackMemoryFs::new();
    let mut writer = MemoryFileWriter::new(bytes("/parent/from/file.txt"));
    writer.line(b"hello");
    writer.bytes(b" world");
    assert!(!fs.file_exists(b"/parent/from/file.txt"));
    writer.flush(&mut fs);
    let file = fs.read_file(b"/parent/from/file.txt").expect("written");
    assert_eq!(file, bytes("hello\n world"));

    let mut reader = MemoryFileReader::new(file);
    assert_eq!(reader.line(), bytes("hello"));
    assert_eq!(reader.bytes(b" world".len()), Some(bytes(" world")));
    assert_eq!(reader.bytes(1), None);
    assert_eq!(reader.remain(), Vec::<u8>::new());

    let mut reader = MemoryFileReader::new(bytes("ab\ncdef"));
    assert!(reader.skip(3));
    assert!(!reader.skip(10));
    assert_eq!(reader.line(), bytes("cdef"));
    assert_eq!(reader.line(), Vec::<u8>::new());

    writer.write(&mut fs, b"replaced");
    assert_eq!(fs.read_file(b"/parent/from/file.txt"), Some(bytes("replaced")));
}

#[test]
fn memory_fs_lists_a_directory() {
    let mut fs = PackMemoryFs::new();
    fs.write_file(b"/root/a", bytes("1"));
    fs.write_file(b"/root/sub/b", bytes("2"));
    fs.write_file(b"/root/sub/c", bytes("3"));
    fs.write_file(b"/rootless", bytes("4"));
    let mut names = fs.read_dir(b"/root");
    names.sort();
    assert_eq!(names, vec![bytes("a"), bytes("sub")]);
    assert_eq!(fs.read_dir(b"/root/sub").len(), 2);
    assert!(fs.read_dir(b"/none").is_empty());
}

fn apply(files: &mut Vec<(Vec<u8>, Vec<u8>)>, op: &DiskOp) {
    match op {
        DiskOp::Write(p, b) => {
            files.retain(|(q, _)| q != p);
            files.push((p.clone(), b.clone()));
        },
        DiskOp::Remove(p) => files.retain(|(q, _)| q != p),
    }
}

#[test]
fn disk_plan_writes_packs_then_meta_then_removes() {
    let mut storage = PackStorage::new(options(1, 1024));
    storage.set("scope", bytes("a"), bytes("1"));
    storage.idle(1);
    let before = PackMemoryFs { files: storage.fs.files.clone() };
    storage.set("scope", bytes("a"), bytes("2"));
    storage.idle(2);
    let after = PackMemoryFs { files: storage.fs.files.clone() };
    let ops = plan_disk_ops(&before, &after);
    // a new pack file, then the meta file, then the removal of the old pack
    assert_eq!(ops.len(), 3);
    match &ops[0] {
        DiskOp::Write(p, _) => {
            assert!(!p.ends_with(b"cache_meta"));
            assert!(!before.file_exists(p));
        },
        _ => panic!("a new pack first"),
    }
    assert!(matches!(&ops[1], DiskOp::Write(p, _) if p.ends_with(b"cache_meta")));
    assert!(matches!(&ops[2], DiskOp::Remove(_)));
    let mut files = before.files.clone();
    for op in &ops {
        apply(&mut files, op);
    }
    files.sort();
    let mut expected = after.files.clone();
    expected.sort();
    assert_eq!(files, expected);
    // nothing to do when nothing changed
    assert!(plan_disk_ops(&after, &PackMemoryFs { files: after.files.clone() }).is_empty());
}
