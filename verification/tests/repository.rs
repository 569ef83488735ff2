use std::io::Write;

use composefs::digest::{Digest, MediaType};
use composefs::hexfmt::{from_hex, to_hex};
use composefs::pull::BlobInput;
use composefs::repo::{MetaEntry, Repo};
use composefs::sha::sha256;
use composefs::unpack::{unpack_import, Tree, TreeEntry};
use composefs::verify::DigestVerifier;
use composefs::RepoError;

fn digest_of(data: &[u8]) -> Digest {
    Digest::new_sha256(sha256(data))
}

fn tar_entry(name: &str, typeflag: u8, data: &[u8]) -> Vec<u8> {
    let mut block = vec![0u8; 512];
    let name_bytes = name.as_bytes();
    assert!(name_bytes.len() < 100);
    block[..name_bytes.len()].copy_from_slice(name_bytes);
    let mode = b"0000755\0";
    block[100..108].copy_from_slice(mode);
    let size_field = format!("{:011o}\0", data.len());
    block[124..136].copy_from_slice(size_field.as_bytes());
    block[156] = typeflag;
    let mut out = block;
    out.extend_from_slice(data);
    let pad = (512 - (data.len() % 512)) % 512;
    out.extend(std::iter::repeat(0u8).take(pad));
    out
}

fn tar_link(name: &str, typeflag: u8, target: &str) -> Vec<u8> {
    let mut block = tar_entry(name, typeflag, b"");
    let t = target.as_bytes();
    block[157..157 + t.len()].copy_from_slice(t);
    block
}

fn tar_archive(entries: &[Vec<u8>]) -> Vec<u8> {
    let mut out = Vec::new();
    for e in entries {
        out.extend_from_slice(e);
    }
    out.extend(std::iter::repeat(0u8).take(1024));
    out
}

fn path(components: &[&str]) -> Vec<Vec<u8>> {
    components.iter().map(|c| c.as_bytes().to_vec()).collect()
}

#[test]
fn hex_roundtrip() {
    assert_eq!(to_hex(&[0u8, 255, 16]), "00ff10");
    let parsed = from_hex(b"00ff10").unwrap();
    assert_eq!(parsed, vec![0u8, 255, 16]);
    assert!(from_hex(b"0g").is_none());
    assert!(from_hex(b"abc").is_none());
    assert!(from_hex(b"ABCD").is_none());
}

#[test]
fn sha256_known_answer() {
    // SHA-256 of the empty string
    assert_eq!(
        to_hex(&sha256(b"")),
        "e3b0c44298fc1c149afbf4c8996fb92427ae41e4649b934ca495991b7852b855"
    );
}

#[test]
fn verifier_accepts_whole_stream() {
    let d = digest_of(b"hello world");
    let mut v = DigestVerifier::new(&d);
    v.update(b"hello ");
    v.update(b"world");
    let got = v.finish().unwrap();
    assert_eq!(got.bytes, d.bytes);
}

#[test]
fn verifier_rejects_mismatch() {
    let d = digest_of(b"hello world");
    let mut v = DigestVerifier::new(&d);
    v.update(b"hello w0rld");
    assert_eq!(v.finish().unwrap_err(), RepoError::DigestMismatch);
}

#[test]
fn put_then_get_roundtrip() {
    let mut repo = Repo::init(false, false);
    let d = digest_of(b"some bytes");
    let desc = repo.put_object(b"some bytes".to_vec(), &d, MediaType::Other).unwrap();
    assert_eq!(desc.size, 10);
    assert_eq!(desc.digest.bytes, d.bytes);
    let back = repo.get_object(&desc).unwrap();
    assert_eq!(back, b"some bytes".to_vec());
    assert_eq!(sha256(&back), d.bytes);
}

#[test]
fn put_mismatch_leaves_nothing() {
    let mut repo = Repo::init(false, false);
    let wrong = digest_of(b"other content");
    let e = repo.put_object(b"some bytes".to_vec(), &wrong, MediaType::Other).unwrap_err();
    assert_eq!(e, RepoError::DigestMismatch);
    assert!(!repo.has_object(&wrong));
    let desc = composefs::digest::Descriptor { digest: wrong, size: 13, media: MediaType::Other };
    assert_eq!(repo.get_object(&desc).unwrap_err(), RepoError::NotFound);
}

#[test]
fn dedup_same_content_same_descriptor() {
    let mut repo = Repo::init(false, false);
    let d = digest_of(b"dedup me");
    let a = repo.put_object(b"dedup me".to_vec(), &d, MediaType::Other).unwrap();
    let b = repo.put_object(b"dedup me".to_vec(), &d, MediaType::Other).unwrap();
    assert_eq!(a.digest.bytes, b.digest.bytes);
    assert_eq!(a.size, b.size);
}

#[test]
fn seal_required_refuses_unsealable() {
    let mut repo = Repo::init(true, false);
    let d = digest_of(b"payload");
    let e = repo.put_object(b"payload".to_vec(), &d, MediaType::Other).unwrap_err();
    assert_eq!(e, RepoError::SealError);
    assert!(!repo.has_object(&d));
    let mut sealing = Repo::init(true, true);
    assert!(sealing.put_object(b"payload".to_vec(), &d, MediaType::Other).is_ok());
}

#[test]
fn retag_last_writer_wins() {
    let mut repo = Repo::init(false, false);
    let root = |data: &[u8]| composefs::digest::Descriptor {
        digest: digest_of(data),
        size: data.len() as u64,
        media: MediaType::Manifest,
    };
    let a = repo.commit_artifact(root(b"a"), Vec::new());
    let b = repo.commit_artifact(root(b"b"), Vec::new());
    repo.tag("x", a).unwrap();
    repo.tag("x", b).unwrap();
    let tags = repo.list_tags(None);
    assert_eq!(tags, vec!["x".to_string()]);
    assert_eq!(repo.lookup_tag("x"), Some(b));
    assert_eq!(repo.tag("x", 99).unwrap_err(), RepoError::NotFound);
}

#[test]
fn list_tags_prefix_filter() {
    let mut repo = Repo::init(false, false);
    let a = repo.commit_artifact(
        composefs::digest::Descriptor {
            digest: digest_of(b"m"),
            size: 1,
            media: MediaType::Manifest,
        },
        Vec::new(),
    );
    repo.tag("foo", a).unwrap();
    repo.tag("foobar", a).unwrap();
    repo.tag("baz", a).unwrap();
    let mut all = repo.list_tags(None);
    all.sort();
    assert_eq!(all, vec!["baz", "foo", "foobar"]);
    let mut foos = repo.list_tags(Some("foo"));
    foos.sort();
    assert_eq!(foos, vec!["foo", "foobar"]);
}

#[test]
fn read_metadata_by_tag() {
    let mut repo = Repo::init(false, false);
    let meta = vec![MetaEntry { key: "kind".to_string(), value: "image".to_string() }];
    let id = repo.commit_artifact(
        composefs::digest::Descriptor {
            digest: digest_of(b"m"),
            size: 1,
            media: MediaType::Manifest,
        },
        meta,
    );
    repo.tag("img", id).unwrap();
    let back = repo.read_artifact_metadata("img").unwrap();
    assert_eq!(back.len(), 1);
    assert_eq!(back[0].key, "kind");
    assert_eq!(back[0].value, "image");
    assert!(repo.read_artifact_metadata("missing").is_none());
}

#[test]
fn pull_import_verifies_all_blobs() {
    let mut repo = Repo::init(false, false);
    let blob = |data: &[u8], media: MediaType| BlobInput {
        desc: composefs::digest::Descriptor {
            digest: digest_of(data),
            size: data.len() as u64,
            media,
        },
        data: data.to_vec(),
    };
    let manifest = blob(b"{\"layers\":[]}", MediaType::Manifest);
    let config = blob(b"{}", MediaType::Config);
    let layers = vec![blob(b"layer-one", MediaType::LayerTar)];
    let id = repo.pull_import("example:latest", &manifest, &config, &layers).unwrap();
    assert_eq!(id, 0);
    assert!(repo.has_object(&digest_of(b"layer-one")));
    repo.tag("pulled", id).unwrap();
    let meta = repo.read_artifact_metadata("pulled").unwrap();
    assert_eq!(meta[0].key, "reference");
    assert_eq!(meta[0].value, "example:latest");
    assert_eq!(meta[1].key, "manifest-digest");
    assert_eq!(meta[1].value, to_hex(&sha256(b"{\"layers\":[]}")));
}

#[test]
fn pull_import_aborts_on_mismatch() {
    let mut repo = Repo::init(false, false);
    let good = BlobInput {
        desc: composefs::digest::Descriptor {
            digest: digest_of(b"manifest"),
            size: 8,
            media: MediaType::Manifest,
        },
        data: b"manifest".to_vec(),
    };
    let bad = BlobInput {
        desc: composefs::digest::Descriptor {
            digest: digest_of(b"expected"),
            size: 8,
            media: MediaType::Config,
        },
        data: b"actually".to_vec(),
    };
    let e = repo.pull_import("r", &good, &bad, &Vec::new()).unwrap_err();
    assert_eq!(e, RepoError::DigestMismatch);
    assert_eq!(repo.artifact_count(), 0);
}

#[test]
fn layer_override_last_wins() {
    let mut repo = Repo::init(false, false);
    let mut tree = Tree::new();
    let layer1 = tar_archive(&[tar_entry("a", b'0', b"foo")]);
    let layer2 = tar_archive(&[tar_entry("a", b'0', b"bar")]);
    tree.apply_layer(&mut repo, &layer1).unwrap();
    tree.apply_layer(&mut repo, &layer2).unwrap();
    match tree.get_entry(&path(&["a"])).unwrap() {
        TreeEntry::File { digest, size, .. } => {
            assert_eq!(digest, &sha256(b"bar"));
            assert_eq!(*size, 3);
        }
        other => panic!("expected a file, got {:?}", other),
    }
    let desc = composefs::digest::Descriptor {
        digest: digest_of(b"bar"),
        size: 3,
        media: MediaType::Other,
    };
    assert_eq!(repo.get_object(&desc).unwrap(), b"bar".to_vec());
}

#[test]
fn whiteout_removes_binding() {
    let mut repo = Repo::init(false, false);
    let mut tree = Tree::new();
    let layer1 = tar_archive(&[
        tar_entry("dir/", b'5', b""),
        tar_entry("dir/f", b'0', b"contents"),
    ]);
    let layer2 = tar_archive(&[tar_entry("dir/.wh.f", b'0', b"")]);
    tree.apply_layer(&mut repo, &layer1).unwrap();
    assert!(tree.get_entry(&path(&["dir", "f"])).is_some());
    tree.apply_layer(&mut repo, &layer2).unwrap();
    assert!(tree.get_entry(&path(&["dir", "f"])).is_none());
    assert!(tree.get_entry(&path(&["dir"])).is_some());
    // the object itself stays for deduplication
    assert!(repo.has_object(&digest_of(b"contents")));
}

#[test]
fn opaque_clears_earlier_children() {
    let mut repo = Repo::init(false, false);
    let mut tree = Tree::new();
    let layer1 = tar_archive(&[
        tar_entry("dir/", b'5', b""),
        tar_entry("dir/a", b'0', b"aa"),
        tar_entry("dir/b", b'0', b"bb"),
    ]);
    let layer2 = tar_archive(&[
        tar_entry("dir/.wh..wh..opq", b'0', b""),
        tar_entry("dir/c", b'0', b"cc"),
    ]);
    tree.apply_layer(&mut repo, &layer1).unwrap();
    tree.apply_layer(&mut repo, &layer2).unwrap();
    assert!(tree.get_entry(&path(&["dir", "a"])).is_none());
    assert!(tree.get_entry(&path(&["dir", "b"])).is_none());
    assert!(tree.get_entry(&path(&["dir", "c"])).is_some());
    assert!(tree.get_entry(&path(&["dir"])).is_some());
}

#[test]
fn symlink_and_hardlink_entries() {
    let mut repo = Repo::init(false, false);
    let mut tree = Tree::new();
    let layer = tar_archive(&[
        tar_entry("file", b'0', b"x"),
        tar_link("sym", b'2', "file"),
        tar_link("hard", b'1', "file"),
    ]);
    tree.apply_layer(&mut repo, &layer).unwrap();
    match tree.get_entry(&path(&["sym"])).unwrap() {
        TreeEntry::Symlink { target } => assert_eq!(target, b"file"),
        other => panic!("expected a symlink, got {:?}", other),
    }
    match tree.get_entry(&path(&["hard"])).unwrap() {
        TreeEntry::Hardlink { target } => assert_eq!(target, b"file"),
        other => panic!("expected a hardlink, got {:?}", other),
    }
}

#[test]
fn end_to_end_pull_unpack_tag() {
    let mut repo = Repo::init(false, false);
    let layer1 = tar_archive(&[
        tar_entry("etc/", b'5', b""),
        tar_entry("etc/os-release", b'0', b"NAME=demo\n"),
    ]);
    let layer2 = tar_archive(&[
        tar_entry("usr/", b'5', b""),
        tar_entry("usr/bin/", b'5', b""),
        tar_entry("usr/bin/app", b'0', &vec![7u8; 4096]),
    ]);
    let blob = |data: &[u8], media: MediaType| BlobInput {
        desc: composefs::digest::Descriptor {
            digest: digest_of(data),
            size: data.len() as u64,
            media,
        },
        data: data.to_vec(),
    };
    let manifest = blob(b"two-layer-manifest", MediaType::Manifest);
    let config = blob(b"{}", MediaType::Config);
    let layers = vec![
        blob(&layer1, MediaType::LayerTar),
        blob(&layer2, MediaType::LayerTar),
    ];
    let pulled = repo.pull_import("registry.example/demo:1", &manifest, &config, &layers).unwrap();
    repo.tag("demo-pulled", pulled).unwrap();
    let pulled_meta = repo.read_artifact_metadata("demo-pulled").unwrap();

    let descs = vec![
        composefs::digest::Descriptor {
            digest: digest_of(&layer1),
            size: layer1.len() as u64,
            media: MediaType::LayerTar,
        },
        composefs::digest::Descriptor {
            digest: digest_of(&layer2),
            size: layer2.len() as u64,
            media: MediaType::LayerTar,
        },
    ];
    let result = unpack_import(&mut repo, &descs, &pulled_meta).unwrap();
    repo.tag("demo", result.artifact).unwrap();

    let tags = repo.list_tags(None);
    assert!(tags.contains(&"demo".to_string()));
    let meta = repo.read_artifact_metadata("demo").unwrap();
    assert!(!meta.is_empty());

    // exactly the two files plus their ancestor directories
    assert!(matches!(
        tree_entry(&result.tree, &["etc", "os-release"]),
        Some(TreeEntry::File { size: 10, .. })
    ));
    assert!(matches!(
        tree_entry(&result.tree, &["usr", "bin", "app"]),
        Some(TreeEntry::File { size: 4096, .. })
    ));
    assert!(matches!(tree_entry(&result.tree, &["etc"]), Some(TreeEntry::Dir { .. })));
    assert!(matches!(tree_entry(&result.tree, &["usr"]), Some(TreeEntry::Dir { .. })));
    assert!(matches!(tree_entry(&result.tree, &["usr", "bin"]), Some(TreeEntry::Dir { .. })));
    assert_eq!(result.tree.len(), 5);

    // the root descriptor resolves to the serialized tree
    let root = repo.artifact_root(result.artifact).unwrap();
    let stored = repo.get_object(&root).unwrap();
    assert_eq!(stored, result.tree.serialize());
    assert_eq!(root.digest.bytes, sha256(&stored));
}

fn tree_entry<'a>(tree: &'a Tree, components: &[&str]) -> Option<&'a TreeEntry> {
    tree.get_entry(&path(components))
}

#[test]
fn gzip_layer_is_decompressed() {
    let mut repo = Repo::init(false, false);
    let layer = tar_archive(&[tar_entry("hello", b'0', b"zipped")]);
    let mut enc = flate2::write::GzEncoder::new(Vec::new(), flate2::Compression::default());
    enc.write_all(&layer).unwrap();
    let gz = enc.finish().unwrap();
    let desc = composefs::digest::Descriptor {
        digest: digest_of(&gz),
        size: gz.len() as u64,
        media: MediaType::LayerTarGzip,
    };
    repo.put_object(gz.clone(), &desc.digest, MediaType::LayerTarGzip).unwrap();
    let result = unpack_import(&mut repo, &vec![desc], &Vec::new()).unwrap();
    match result.tree.get_entry(&path(&["hello"])).unwrap() {
        TreeEntry::File { digest, .. } => assert_eq!(digest, &sha256(b"zipped")),
        other => panic!("expected a file, got {:?}", other),
    }
}

#[test]
fn truncated_layer_is_a_format_error() {
    let mut repo = Repo::init(false, false);
    let mut tree = Tree::new();
    let mut layer = tar_entry("big", b'0', b"data");
    layer.truncate(600);
    assert_eq!(
        tree.apply_layer(&mut repo, &layer).unwrap_err(),
        RepoError::LayerFormat
    );
}

#[test]
fn dotdot_paths_are_refused() {
    let mut repo = Repo::init(false, false);
    let mut tree = Tree::new();
    let layer = tar_archive(&[tar_entry("../escape", b'0', b"x")]);
    assert_eq!(
        tree.apply_layer(&mut repo, &layer).unwrap_err(),
        RepoError::LayerFormat
    );
}
