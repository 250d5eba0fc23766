use flate2::write::ZlibEncoder;
use flate2::Compression;
use std::io::Write;
use objstore::command::Command;
use objstore::error::ObjectError;
use objstore::object::{hash_to_object_file_path, Object, ObjectType};
use objstore::tree::{is_metadata_dir, Child, TreeItem, TreeObject};

fn blob(body: &[u8]) -> Object {
    Object::new(ObjectType::Blob, body.to_vec())
}

#[test]
fn blob_round_trip() {
    let o = blob(b"hello world");
    let back = Object::from(o.get_contents()).unwrap();
    assert_eq!(back.object_type(), ObjectType::Blob);
    assert_eq!(back.body(), &b"hello world".to_vec());
}

#[test]
fn tree_kind_round_trip_with_nul_in_body() {
    let o = Object::new(ObjectType::Tree, vec![0u8, 1, 2, 0, 255]);
    let back = Object::from(o.get_contents()).unwrap();
    assert_eq!(back.object_type(), ObjectType::Tree);
    assert_eq!(back.body(), &vec![0u8, 1, 2, 0, 255]);
}

#[test]
fn empty_body_round_trip() {
    let o = blob(b"");
    assert_eq!(o.get_contents(), b"blob 0\0".to_vec());
    let back = Object::from(o.get_contents()).unwrap();
    assert!(back.body().is_empty());
}

#[test]
fn serialize_layout() {
    let o = blob(b"what is up, doc?");
    let mut expected = b"blob 16\0".to_vec();
    expected.extend_from_slice(b"what is up, doc?");
    assert_eq!(o.get_contents(), expected);
}

#[test]
fn serialize_multi_digit_size() {
    let body = vec![7u8; 1234];
    let c = blob(&body).get_contents();
    assert_eq!(&c[..10], b"blob 1234\0");
    assert_eq!(c.len(), 10 + 1234);
}

#[test]
fn hash_of_known_blob() {
    let o = blob(b"what is up, doc?");
    assert_eq!(o.get_hash_as_str(), "bd9dbf5aae1a3862dd1526723246b20206e5fc37");
    let h = o.get_hash();
    assert_eq!(h.len(), 20);
    assert_eq!(h[0], 0xbd);
    assert_eq!(h[19], 0x37);
}

#[test]
fn equal_content_equal_hash_and_path() {
    let a = blob(b"same bytes");
    let b = blob(b"same bytes");
    assert_eq!(a.get_hash(), b.get_hash());
    assert_eq!(a.get_object_file_path(".git/objects"), b.get_object_file_path(".git/objects"));
    let c = Object::new(ObjectType::Tree, b"same bytes".to_vec());
    assert_ne!(a.get_hash(), c.get_hash());
}

#[test]
fn object_file_path_splits_hash() {
    let o = blob(b"what is up, doc?");
    assert_eq!(
        o.get_object_file_path(".git/objects"),
        ".git/objects/bd/9dbf5aae1a3862dd1526723246b20206e5fc37"
    );
}

#[test]
fn path_from_hash_string() {
    let p = hash_to_object_file_path(".git/objects", "bd9dbf5aae1a3862dd1526723246b20206e5fc37").unwrap();
    assert_eq!(p, ".git/objects/bd/9dbf5aae1a3862dd1526723246b20206e5fc37");
}

#[test]
fn path_from_bad_hash_string() {
    assert_eq!(hash_to_object_file_path(".git/objects", "bd9d").unwrap_err(), ObjectError::NotFound);
    assert_eq!(
        hash_to_object_file_path(".git/objects", "BD9DBF5AAE1A3862DD1526723246B20206E5FC37").unwrap_err(),
        ObjectError::NotFound
    );
}

#[test]
fn object_type_from_text() {
    assert_eq!(ObjectType::from("blob").unwrap(), ObjectType::Blob);
    assert_eq!(ObjectType::from("tree").unwrap(), ObjectType::Tree);
    assert_eq!(ObjectType::from("commit").unwrap_err(), ObjectError::DecodeError);
    assert_eq!(ObjectType::from("").unwrap_err(), ObjectError::DecodeError);
}

#[test]
fn decode_without_nul_fails() {
    assert_eq!(Object::from(b"blob 3abc".to_vec()).unwrap_err(), ObjectError::DecodeError);
}

#[test]
fn decode_unknown_kind_fails() {
    assert_eq!(Object::from(b"beep 3\0abc".to_vec()).unwrap_err(), ObjectError::DecodeError);
}

#[test]
fn decode_bad_size_fails() {
    assert_eq!(Object::from(b"blob x\0abc".to_vec()).unwrap_err(), ObjectError::DecodeError);
    assert_eq!(Object::from(b"blob \0".to_vec()).unwrap_err(), ObjectError::DecodeError);
    assert_eq!(
        Object::from(b"blob 99999999999999999999999\0abc".to_vec()).unwrap_err(),
        ObjectError::DecodeError
    );
}

#[test]
fn decode_size_mismatch_fails() {
    assert_eq!(Object::from(b"blob 4\0abc".to_vec()).unwrap_err(), ObjectError::DecodeError);
}

#[test]
fn decode_leading_zero_size() {
    let o = Object::from(b"blob 03\0abc".to_vec()).unwrap();
    assert_eq!(o.body(), &b"abc".to_vec());
}

#[test]
fn compressed_round_trip() {
    let o = blob(b"compress me, compress me, compress me");
    let z = o.get_compressed_contents();
    assert_ne!(z, o.get_contents());
    let back = Object::from_compressed(&z).unwrap();
    assert_eq!(back.object_type(), ObjectType::Blob);
    assert_eq!(back.body(), &b"compress me, compress me, compress me".to_vec());
}

#[test]
fn corrupt_stream_fails() {
    let r = Object::from_compressed(b"definitely not zlib");
    assert_eq!(r.unwrap_err(), ObjectError::CompressionError);
}

#[test]
fn inflated_bytes_that_are_no_object_fail_decode() {
    let mut e = ZlibEncoder::new(Vec::new(), Compression::default());
    e.write_all(b"no header here").unwrap();
    let z = e.finish().unwrap();
    assert_eq!(Object::from_compressed(&z).unwrap_err(), ObjectError::DecodeError);
}

fn h(n: u8) -> Vec<u8> {
    vec![n; 20]
}

#[test]
fn tree_entries_ordered_by_name() {
    let mut t = TreeObject::new();
    t.push(TreeItem::new("100644", "b.txt", h(2)));
    t.push(TreeItem::new("100644", "a.txt", h(1)));
    t.push(TreeItem::new("040000", "c", h(3)));
    let names: Vec<Vec<u8>> = t.items().iter().map(|i| i.base_name().clone()).collect();
    assert_eq!(names, vec![b"b.txt".to_vec(), b"a.txt".to_vec(), b"c".to_vec()]);
    let mut expected = b"100644 a.txt\0".to_vec();
    expected.extend(h(1));
    expected.extend_from_slice(b"100644 b.txt\0");
    expected.extend(h(2));
    expected.extend_from_slice(b"040000 c\0");
    expected.extend(h(3));
    assert_eq!(t.get_body(), expected);
}

#[test]
fn tree_hash_ignores_insertion_order() {
    let mut a = TreeObject::new();
    a.push(TreeItem::new("100644", "x", h(1)));
    a.push(TreeItem::new("100644", "y", h(2)));
    let mut b = TreeObject::new();
    b.push(TreeItem::new("100644", "y", h(2)));
    b.push(TreeItem::new("100644", "x", h(1)));
    assert_eq!(a.to_object().get_hash(), b.to_object().get_hash());
}

#[test]
fn name_order_is_bytewise() {
    let mut t = TreeObject::new();
    t.push(TreeItem::new("100644", "ab", h(1)));
    t.push(TreeItem::new("100644", "B", h(2)));
    t.push(TreeItem::new("100644", "a", h(3)));
    let back = TreeObject::from(t.get_body()).unwrap();
    let names: Vec<Vec<u8>> = back.items().iter().map(|i| i.base_name().clone()).collect();
    assert_eq!(names, vec![b"B".to_vec(), b"a".to_vec(), b"ab".to_vec()]);
}

#[test]
fn tree_item_bytes() {
    let i = TreeItem::new("100644", "f", h(9));
    let mut expected = b"100644 f\0".to_vec();
    expected.extend(h(9));
    assert_eq!(i.as_bytes(), expected);
    assert_eq!(i.mode(), &b"100644".to_vec());
    assert_eq!(i.hash(), &h(9));
}

#[test]
fn tree_contents_have_header() {
    let mut t = TreeObject::new();
    t.push(TreeItem::new("100644", "f", h(9)));
    let c = t.get_contents_as_bytes();
    assert_eq!(&c[..8], b"tree 29\0");
    assert_eq!(c.len(), 8 + 29);
    assert_eq!(t.to_object().object_type(), ObjectType::Tree);
}

#[test]
fn empty_tree() {
    let t = TreeObject::new();
    assert!(t.get_body().is_empty());
    assert_eq!(t.get_contents_as_bytes(), b"tree 0\0".to_vec());
    assert_eq!(
        t.to_object().get_hash_as_str(),
        "4b825dc642cb6eb9a060e54bf8d69288fbee4904"
    );
}

#[test]
fn tree_decode_round_trip() {
    let mut t = TreeObject::new();
    t.push(TreeItem::new("040000", "dir", h(4)));
    t.push(TreeItem::new("100644", "file.rs", h(5)));
    let back = TreeObject::from(t.get_body()).unwrap();
    assert_eq!(back.items().len(), 2);
    assert_eq!(back.items()[0].base_name(), &b"dir".to_vec());
    assert_eq!(back.items()[0].mode(), &b"040000".to_vec());
    assert_eq!(back.items()[1].hash(), &h(5));
    assert_eq!(back.get_body(), t.get_body());
}

#[test]
fn tree_decode_empty_body() {
    let t = TreeObject::from(Vec::new()).unwrap();
    assert!(t.items().is_empty());
}

#[test]
fn tree_decode_truncated_hash_fails() {
    let mut t = TreeObject::new();
    t.push(TreeItem::new("100644", "a", h(1)));
    t.push(TreeItem::new("100644", "b", h(2)));
    let mut body = t.get_body();
    body.truncate(body.len() - 1);
    assert_eq!(TreeObject::from(body).unwrap_err(), ObjectError::DecodeError);
    let mut cut = b"100644 a\0".to_vec();
    cut.extend(vec![1u8; 19]);
    assert_eq!(TreeObject::from(cut).unwrap_err(), ObjectError::DecodeError);
}

#[test]
fn tree_decode_missing_space_fails() {
    let mut body = b"100644a\0".to_vec();
    body.extend(h(1));
    assert_eq!(TreeObject::from(body).unwrap_err(), ObjectError::DecodeError);
}

#[test]
fn tree_decode_missing_nul_fails() {
    assert_eq!(TreeObject::from(b"100644 a".to_vec()).unwrap_err(), ObjectError::DecodeError);
}

#[test]
fn tree_decode_non_utf8_name_fails() {
    let mut body = b"100644 \xff\xfe\0".to_vec();
    body.extend(h(1));
    assert_eq!(TreeObject::from(body).unwrap_err(), ObjectError::DecodeError);
}

#[test]
fn child_entries_and_metadata_dir() {
    let d = TreeItem::for_child(true, "src", h(1));
    assert_eq!(d.mode(), &b"040000".to_vec());
    let f = TreeItem::for_child(false, "main.rs", h(2));
    assert_eq!(f.mode(), &b"100644".to_vec());
    assert_eq!(f.base_name(), &b"main.rs".to_vec());
    assert!(is_metadata_dir(".git"));
    assert!(!is_metadata_dir(".github"));
    assert!(!is_metadata_dir("git"));
}

#[test]
fn command_names() {
    assert_eq!(Command::from("init"), Command::Init);
    assert_eq!(Command::from("cat-file"), Command::CatFile);
    assert_eq!(Command::from("hash-object"), Command::HashObject);
    assert_eq!(Command::from("ls-tree"), Command::LsTree);
    assert_eq!(Command::from("write-tree"), Command::WriteTree);
    assert_eq!(Command::from("commit"), Command::Unknown);
    assert_eq!(Command::from("init "), Command::Unknown);
}

#[test]
fn push_appends_at_end() {
    let mut t = TreeObject::new();
    t.push(TreeItem::new("100644", "b", h(1)));
    t.push(TreeItem::new("100644", "a", h(2)));
    assert_eq!(t.items().len(), 2);
    assert_eq!(t.items()[0].base_name(), &b"b".to_vec());
    assert_eq!(t.items()[1].base_name(), &b"a".to_vec());
}

#[test]
fn tree_decode_keeps_body_order() {
    let mut body = b"100644 z\0".to_vec();
    body.extend(h(1));
    body.extend_from_slice(b"100644 a\0");
    body.extend(h(2));
    let t = TreeObject::from(body).unwrap();
    assert_eq!(t.items()[0].base_name(), &b"z".to_vec());
    assert_eq!(t.items()[1].base_name(), &b"a".to_vec());
    let mut sorted = b"100644 a\0".to_vec();
    sorted.extend(h(2));
    sorted.extend_from_slice(b"100644 z\0");
    sorted.extend(h(1));
    assert_eq!(t.get_body(), sorted);
}

#[test]
fn compression_is_deterministic() {
    let a = blob(b"same content").get_compressed_contents();
    let b = blob(b"same content").get_compressed_contents();
    assert_eq!(a, b);
}

#[test]
fn header_with_other_whitespace_is_refused() {
    assert_eq!(Object::from(b"blob\t3\0abc".to_vec()).unwrap_err(), ObjectError::DecodeError);
    assert_eq!(Object::from(b"blob  3\0abc".to_vec()).unwrap_err(), ObjectError::DecodeError);
}

fn child(name: &str, is_dir: bool, n: u8) -> Child {
    Child { name: name.to_string(), is_dir, hash: h(n) }
}

#[test]
fn tree_from_children_skips_metadata_dir_at_root() {
    let cs = vec![child(".git", true, 1), child("src", true, 2), child("a.rs", false, 3)];
    let t = TreeObject::from_children(cs, true);
    assert_eq!(t.items().len(), 2);
    assert_eq!(t.items()[0].base_name(), &b"src".to_vec());
    assert_eq!(t.items()[0].mode(), &b"040000".to_vec());
    assert_eq!(t.items()[1].mode(), &b"100644".to_vec());
    let mut expected = b"100644 a.rs\0".to_vec();
    expected.extend(h(3));
    expected.extend_from_slice(b"040000 src\0");
    expected.extend(h(2));
    assert_eq!(t.get_body(), expected);
}

#[test]
fn tree_from_children_keeps_nested_metadata_name() {
    let cs = vec![child(".git", true, 1), child(".git", false, 2)];
    assert_eq!(TreeObject::from_children(cs, false).items().len(), 2);
    let files = vec![child(".git", false, 2)];
    assert_eq!(TreeObject::from_children(files, true).items().len(), 1);
}

#[test]
fn same_children_same_root_hash() {
    let first = TreeObject::from_children(vec![child("x", false, 1), child("y", true, 2)], true);
    let second = TreeObject::from_children(vec![child("y", true, 2), child("x", false, 1)], true);
    assert_eq!(first.to_object().get_hash(), second.to_object().get_hash());
}

#[test]
fn empty_directory_tree() {
    let t = TreeObject::from_children(Vec::new(), true);
    assert_eq!(t.to_object().get_hash_as_str(), "4b825dc642cb6eb9a060e54bf8d69288fbee4904");
}
