use std::path::Path;
use rustlessons::dupfind::config::{parse_config, Config};
use rustlessons::dupfind::duplicates::{
    find_duplicates, group_by_partial_hash, group_by_size, FullyHashed, Group, PartialHashed,
    SizedFile,
};
use rustlessons::dupfind::hashing::{full_hash, partial_hash, HEAD_BYTES};
use rustlessons::dupfind::paths::{check_extension, classify_entry, path_extension, EntryAction};
use rustlessons::dupfind::report::{duplicated_bytes, format_size, total_duplicated_bytes};

fn args(list: &[&str]) -> Vec<String> {
    list.iter().map(|s| s.to_string()).collect()
}

fn plain_config() -> Config {
    Config { root: ".".to_string(), recursive: true, min_size: None, extensions: None }
}

#[test]
fn config_defaults() {
    let (c, unknown) = parse_config(&args(&["dupfind"]));
    assert_eq!(c.root, ".");
    assert!(c.recursive);
    assert_eq!(c.min_size, None);
    assert!(c.extensions.is_none());
    assert!(unknown.is_empty());
    let (c, _) = parse_config(&[]);
    assert_eq!(c.root, ".");
}

#[test]
fn config_reads_every_option() {
    let (c, unknown) = parse_config(&args(&[
        "dupfind",
        "--no-recursive",
        "--min-size=1024",
        "--ext=jpg,PNG",
        "/home/photos",
        "-v",
        "--verbose",
    ]));
    assert_eq!(c.root, "/home/photos");
    assert!(!c.recursive);
    assert_eq!(c.min_size, Some(1024));
    assert_eq!(c.extensions, Some(vec!["jpg".to_string(), "PNG".to_string()]));
    assert_eq!(unknown, vec!["-v", "--verbose"]);
}

#[test]
fn config_edge_cases() {
    let (c, _) = parse_config(&args(&["p", "--min-size=abc", "--ext=", "a", "b"]));
    assert_eq!(c.min_size, None);
    assert!(c.extensions.is_none());
    assert_eq!(c.root, "b");
    let (c, _) = parse_config(&args(&["p", "--min-size=5", "--min-size=x"]));
    assert_eq!(c.min_size, None);
    let (c, _) = parse_config(&args(&["p", "--ext=a,,b"]));
    assert_eq!(c.extensions, Some(vec!["a".to_string(), "".to_string(), "b".to_string()]));
    let (c, unknown) = parse_config(&args(&["p", "--no-recursive=1"]));
    assert!(c.recursive);
    assert_eq!(unknown, vec!["--no-recursive=1"]);
}

#[test]
fn extensions_as_path_gives_them() {

    for p in [
        "a/b.TXT", "b.tar.gz", ".bashrc", "a/..", "file.", "...", "dir/", "a/b/.", "/", "",
        "noext", "a.b/c", "./x.rs", "..",
    ] {
        let expected = Path::new(p).extension().map(|e| e.to_str().unwrap().to_string());
        assert_eq!(path_extension(p), expected, "{p:?}");
    }
}

#[test]
fn extension_filter() {
    let mut c = plain_config();
    assert!(check_extension(&c, "x/anything"));
    c.extensions = Some(vec!["jpg".to_string(), "png".to_string()]);
    assert!(check_extension(&c, "x/a.JPG"));
    assert!(check_extension(&c, "x/a.png"));
    assert!(!check_extension(&c, "x/a.gif"));
    assert!(!check_extension(&c, "x/jpg"));
    assert!(!check_extension(&c, "x/.jpg"));
}

#[test]
fn entries_are_classified() {
    let mut c = plain_config();
    assert!(matches!(classify_entry(&c, true, false, "d"), EntryAction::Descend));
    assert!(matches!(classify_entry(&c, false, true, "f.txt"), EntryAction::Keep));
    assert!(matches!(classify_entry(&c, false, false, "fifo"), EntryAction::Skip));
    c.recursive = false;
    assert!(matches!(classify_entry(&c, true, false, "d"), EntryAction::Skip));
    c.extensions = Some(vec!["rs".to_string()]);
    assert!(matches!(classify_entry(&c, false, true, "f.txt"), EntryAction::Skip));
}

fn sized(path: &str, size: u64) -> SizedFile {
    SizedFile { path: path.to_string(), size }
}

#[test]
fn size_groups_drop_lone_files() {
    let files = vec![sized("a", 10), sized("b", 20), sized("c", 10), sized("d", 30), sized("e", 20), sized("f", 10)];
    let groups = group_by_size(files, &plain_config());
    assert_eq!(groups.len(), 2);
    assert_eq!(groups[0].size, 10);
    assert_eq!(groups[0].files, vec!["a", "c", "f"]);
    assert_eq!(groups[1].size, 20);
    assert_eq!(groups[1].files, vec!["b", "e"]);
}

#[test]
fn size_groups_respect_min_size() {
    let files = vec![sized("a", 10), sized("b", 20), sized("c", 10), sized("e", 20)];
    let mut c = plain_config();
    c.min_size = Some(15);
    let groups = group_by_size(files, &c);
    assert_eq!(groups.len(), 1);
    assert_eq!(groups[0].size, 20);
    assert!(group_by_size(vec![], &c).is_empty());
}

#[test]
fn sha256_of_known_text() {
    let d = full_hash(b"hello world");
    let hex: String = d.iter().map(|b| format!("{b:02x}")).collect();
    assert_eq!(hex, "b94d27b9934d3e08a52e52d7da7dabfac484efe37a5380ee9088f7ace2efcde9");
    assert_ne!(full_hash(b"hello world"), full_hash(b"hello world!"));
}

#[test]
fn partial_hash_covers_the_head_only() {
    let mut a = vec![7u8; HEAD_BYTES + 10];
    let mut b = a.clone();
    b[HEAD_BYTES + 5] = 8;
    assert_eq!(partial_hash(&a), partial_hash(&b));
    assert_ne!(full_hash(&a), full_hash(&b));
    assert_eq!(partial_hash(&a), full_hash(&a[..HEAD_BYTES]));
    a.truncate(100);
    assert_eq!(partial_hash(&a), full_hash(&a));
}

#[test]
fn duplicates_need_equal_digests() {
    let h1 = full_hash(b"one");
    let h2 = full_hash(b"two");
    let partial = vec![
        PartialHashed { path: "a".into(), size: 3, partial: h1 },
        PartialHashed { path: "b".into(), size: 3, partial: h2 },
        PartialHashed { path: "c".into(), size: 3, partial: h1 },
        PartialHashed { path: "d".into(), size: 4, partial: h1 },
    ];
    let pg = group_by_partial_hash(partial);
    assert_eq!(pg.len(), 1);
    assert_eq!(pg[0].size, 3);
    assert_eq!(pg[0].partial, h1);
    assert_eq!(pg[0].files, vec!["a", "c"]);

    let full = vec![
        FullyHashed { path: "a".into(), size: 3, partial: h1, full: h2 },
        FullyHashed { path: "c".into(), size: 3, partial: h1, full: h2 },
        FullyHashed { path: "x".into(), size: 3, partial: h1, full: h1 },
        FullyHashed { path: "y".into(), size: 5, partial: h1, full: h1 },
    ];
    let groups = find_duplicates(full);
    assert_eq!(groups.len(), 1);
    assert_eq!(groups[0].size, 3);
    assert_eq!(groups[0].files, vec!["a", "c"]);
}

#[test]
fn sizes_in_units() {
    assert_eq!(format_size(0), "0.00 Б");
    assert_eq!(format_size(999), "999.00 Б");
    assert_eq!(format_size(1000), "1.00 кБ");
    assert_eq!(format_size(1536), "1.53 кБ");
    assert_eq!(format_size(1_005_000), "1.00 МБ");
    assert_eq!(format_size(2_500_000_000), "2.50 ГБ");
    assert_eq!(format_size(999_999_999_999_999), "999.99 ТБ");
    assert_eq!(format_size(u64::MAX), "18446.74 ПБ");
}

#[test]
fn reclaimable_space() {
    let g1 = Group { size: 100, files: vec!["a".into(), "b".into(), "c".into()] };
    let g2 = Group { size: 7, files: vec!["d".into(), "e".into()] };
    assert_eq!(duplicated_bytes(&g1), 200);
    assert_eq!(duplicated_bytes(&g2), 7);
    assert_eq!(total_duplicated_bytes(&vec![g1, g2]), 207);
    assert_eq!(total_duplicated_bytes(&vec![]), 0);
}

#[test]
fn each_file_lands_in_at_most_one_group() {
    let files: Vec<SizedFile> = (0..40u64).map(|i| sized(&format!("f{i}"), i % 7)).collect();
    let n = files.len();
    let groups = group_by_size(files, &plain_config());
    let grouped: usize = groups.iter().map(|g| g.files.len()).sum();
    assert!(grouped <= n);
    assert_eq!(grouped, n);
    for g in &groups {
        for f in &g.files {
            let i: u64 = f[1..].parse().unwrap();
            assert_eq!(i % 7, g.size);
        }
    }
}
