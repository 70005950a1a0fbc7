use satt::{read_file, Satf, Satt, SattError};

fn entry(path: &str, bytes: &str) -> (Vec<u8>, Vec<u8>) {
    (path.as_bytes().to_vec(), bytes.as_bytes().to_vec())
}

fn extract(a: &Satt) -> Vec<(Vec<u8>, Vec<u8>)> {
    a.unarchive(true).unwrap()
}

#[test]
fn example_tree_archives_and_extracts() {
    let tree = vec![entry("sub/b.txt", "x"), entry("a.txt", "hi\n")];
    let a = Satt::archive_root(tree);
    let bytes = a.save();
    assert_eq!(bytes, b"a.txt 1\nhi\nsub/b.txt 1 noeol\nx\n".to_vec());
    let back = Satt::load(&bytes).unwrap();
    assert_eq!(back, a);
    let files = extract(&back);
    assert_eq!(files, vec![entry("a.txt", "hi\n"), entry("sub/b.txt", "x")]);
}

#[test]
fn round_trip_keeps_every_file() {
    let tree = vec![
        entry("empty", ""),
        entry("blank_lines", "\n\n\n"),
        entry("d/e/f.txt", "one\ntwo\n"),
        entry("d/g.txt", "one\ntwo"),
        entry("tail", "a\n\nb"),
    ];
    let a = Satt::archive_filelist(&tree);
    let back = Satt::load(&a.save()).unwrap();
    assert_eq!(back, a);
    assert_eq!(extract(&back), tree);
}

#[test]
fn empty_file_round_trips_to_empty_file() {
    let a = Satt::archive_filelist(&[entry("e", "")]);
    assert_eq!(a.files[0].lines.len(), 0);
    assert!(!a.files[0].no_eol);
    assert_eq!(a.save(), b"e 0\n".to_vec());
    let back = Satt::load(&a.save()).unwrap();
    assert_eq!(extract(&back), vec![entry("e", "")]);
}

#[test]
fn missing_final_newline_is_marked_and_kept() {
    let a = Satt::archive_filelist(&[entry("f", "a\nb")]);
    assert!(a.files[0].no_eol);
    assert_eq!(a.save(), b"f 2 noeol\na\nb\n".to_vec());
    let back = Satt::load(&a.save()).unwrap();
    let out = extract(&back);
    assert_eq!(out[0].1, b"a\nb".to_vec());
}

#[test]
fn flag_is_per_file() {
    let a = Satt::archive_filelist(&[entry("a", "x"), entry("b", "y\n")]);
    assert!(a.files[0].no_eol);
    assert!(!a.files[1].no_eol);
    assert_eq!(a.save(), b"a 1 noeol\nx\nb 1\ny\n".to_vec());
}

#[test]
fn walk_order_does_not_change_archive() {
    let one = vec![entry("b", "2"), entry("a/z", "1\n"), entry("a.txt", "3\n")];
    let two = vec![entry("a.txt", "3\n"), entry("b", "2"), entry("a/z", "1\n")];
    let x = Satt::archive_root(one).save();
    let y = Satt::archive_root(two).save();
    assert_eq!(x, y);
    assert_eq!(x, b"a.txt 1\n3\na/z 1\n1\nb 1 noeol\n2\n".to_vec());
}

#[test]
fn load_rejects_absolute_path() {
    assert_eq!(Satt::load(b"/etc/passwd 0\n"), Err(SattError::AbsolutePath));
    assert_eq!(Satt::load(b"a 1\nx\n/b 0\n"), Err(SattError::AbsolutePath));
}

#[test]
fn load_rejects_malformed_header() {
    assert_eq!(Satt::load(b"\n"), Err(SattError::MalformedHeader));
    assert_eq!(Satt::load(b"onlypath\n"), Err(SattError::MalformedHeader));
    assert_eq!(Satt::load(b"p x1\n"), Err(SattError::MalformedHeader));
    assert_eq!(Satt::load(b"p -1\n"), Err(SattError::MalformedHeader));
    assert_eq!(Satt::load(b"p 99999999999999999999999\n"), Err(SattError::MalformedHeader));
}

#[test]
fn load_rejects_truncated_record() {
    assert_eq!(Satt::load(b"p 2\nline\n"), Err(SattError::TruncatedRecord));
    assert_eq!(Satt::load(b"p 1\nline"), Err(SattError::TruncatedRecord));
    assert_eq!(Satt::load(b"p 1"), Err(SattError::TruncatedRecord));
}

#[test]
fn load_reads_any_third_field_as_noeol() {
    let a = Satt::load(b"p 1 whatever\nz\n").unwrap();
    assert!(a.files[0].no_eol);
    assert_eq!(a.files[0].lines, vec![b"z".to_vec()]);
}

#[test]
fn load_accepts_extra_spacing_and_unterminated_last_header() {
    let a = Satt::load(b"  p \t 0 \nq 0").unwrap();
    assert_eq!(a.files.len(), 2);
    assert_eq!(a.files[0].path, b"p".to_vec());
    assert_eq!(a.files[1].path, b"q".to_vec());
}

#[test]
fn load_of_empty_input_is_empty_archive() {
    assert_eq!(Satt::load(b"").unwrap().files.len(), 0);
}

#[test]
fn check_flags_absolute_path() {
    let a = Satt { files: vec![Satf { path: b"/x".to_vec(), lines: vec![], no_eol: false }] };
    assert_eq!(a.check(), Err(SattError::AbsolutePath));
    let b = Satt { files: vec![Satf { path: b"x".to_vec(), lines: vec![], no_eol: false }] };
    assert_eq!(b.check(), Ok(()));
}

#[test]
fn unarchive_refuses_non_empty_destination() {
    let a = Satt::archive_filelist(&[entry("a", "1\n")]);
    assert_eq!(a.unarchive(false), Err(SattError::DestinationNotEmpty));
}

#[test]
fn to_lines_lists_headers_and_lines() {
    let a = Satt::archive_filelist(&[entry("a", "1\n2"), entry("b", "")]);
    let lines = a.to_lines();
    assert_eq!(
        lines,
        vec![b"a 2 noeol".to_vec(), b"1".to_vec(), b"2".to_vec(), b"b 0".to_vec()]
    );
}

#[test]
fn line_count_is_decimal() {
    let text = "x\n".repeat(1234);
    let a = Satt::archive_filelist(&[entry("big", &text)]);
    assert_eq!(a.to_lines()[0], b"big 1234".to_vec());
    let back = Satt::load(&a.save()).unwrap();
    assert_eq!(back.files[0].lines.len(), 1234);
}

#[test]
fn read_file_splits_on_line_feeds() {
    assert_eq!(read_file(b""), (vec![], false));
    assert_eq!(read_file(b"\n"), (vec![vec![]], false));
    assert_eq!(read_file(b"a\r\nb"), (vec![b"a\r".to_vec(), b"b".to_vec()], true));
}
