use postgresql_archive::error::ArchiveError;
use postgresql_archive::extract::plan_archive_extraction;
use std::io::Write;

fn gzip(bytes: &[u8]) -> Vec<u8> {
    let mut encoder = flate2::write::GzEncoder::new(Vec::new(), flate2::Compression::default());
    encoder.write_all(bytes).unwrap();
    encoder.finish().unwrap()
}

fn archive_with_tar_crate() -> Vec<u8> {
    let mut builder = tar::Builder::new(Vec::new());

    let mut dir = tar::Header::new_gnu();
    dir.set_entry_type(tar::EntryType::Directory);
    dir.set_size(0);
    dir.set_mode(0o755);
    dir.set_cksum();
    builder.append_data(&mut dir, "root/empty/", std::io::empty()).unwrap();

    let tool: &[u8] = b"#!/bin/sh\necho ok\n";
    let mut file = tar::Header::new_gnu();
    file.set_size(tool.len() as u64);
    file.set_mode(0o755);
    file.set_cksum();
    builder.append_data(&mut file, "root/bin/tool", tool).unwrap();

    let doc: &[u8] = b"documentation";
    let mut file2 = tar::Header::new_gnu();
    file2.set_size(doc.len() as u64);
    file2.set_mode(0o644);
    file2.set_cksum();
    builder.append_data(&mut file2, "root/share/doc.txt", doc).unwrap();

    builder.into_inner().unwrap()
}

fn path_of(item: &postgresql_archive::extract::PlanItem) -> Vec<String> {
    item.path.iter().map(|c| String::from_utf8(c.clone()).unwrap()).collect()
}

#[test]
fn test_extract_round_trip() {
    let gz = gzip(&archive_with_tar_crate());
    let plan = plan_archive_extraction(&gz).unwrap();
    assert_eq!(3, plan.len());

    assert!(plan[0].is_dir);
    assert_eq!(vec!["empty".to_string()], path_of(&plan[0]));

    assert!(!plan[1].is_dir);
    assert_eq!(vec!["bin".to_string(), "tool".to_string()], path_of(&plan[1]));
    assert_eq!(b"#!/bin/sh\necho ok\n".to_vec(), plan[1].data);
    assert_eq!(0o755, plan[1].mode);

    assert!(!plan[2].is_dir);
    assert_eq!(vec!["share".to_string(), "doc.txt".to_string()], path_of(&plan[2]));
    assert_eq!(b"documentation".to_vec(), plan[2].data);
    assert_eq!(0o644, plan[2].mode);
}

fn write_octal(field: &mut [u8], value: u64) {
    let digits = format!("{:0width$o}", value, width = field.len() - 1);
    field[..digits.len()].copy_from_slice(digits.as_bytes());
    field[digits.len()] = 0;
}

fn raw_entry(name: &str, mode: u64, data: &[u8]) -> Vec<u8> {
    let mut h = vec![0u8; 512];
    h[..name.len()].copy_from_slice(name.as_bytes());
    write_octal(&mut h[100..108], mode);
    write_octal(&mut h[108..116], 0);
    write_octal(&mut h[116..124], 0);
    write_octal(&mut h[124..136], data.len() as u64);
    write_octal(&mut h[136..148], 0);
    h[148..156].copy_from_slice(b"        ");
    h[156] = b'0';
    let sum: u64 = h.iter().map(|b| *b as u64).sum();
    let digits = format!("{:06o}", sum);
    h[148..154].copy_from_slice(digits.as_bytes());
    h[154] = 0;
    h[155] = b' ';
    let mut out = h;
    out.extend_from_slice(data);
    let pad = (512 - data.len() % 512) % 512;
    out.extend(std::iter::repeat(0u8).take(pad));
    out
}

fn finish_raw(mut entries: Vec<u8>) -> Vec<u8> {
    entries.extend(std::iter::repeat(0u8).take(1024));
    entries
}

#[test]
fn test_raw_archive_extracts() {
    let mut bytes = raw_entry("root/a.txt", 0o644, b"alpha");
    bytes.extend(raw_entry("root/b.txt", 0o600, b"beta"));
    let gz = gzip(&finish_raw(bytes));
    let plan = plan_archive_extraction(&gz).unwrap();
    assert_eq!(2, plan.len());
    assert_eq!(vec!["a.txt".to_string()], path_of(&plan[0]));
    assert_eq!(b"alpha".to_vec(), plan[0].data);
    assert_eq!(0o600, plan[1].mode);
}

#[test]
fn test_extract_rejects_escape() {
    let mut bytes = raw_entry("root/ok.txt", 0o644, b"fine");
    bytes.extend(raw_entry("root/../evil.txt", 0o644, b"outside"));
    let gz = gzip(&finish_raw(bytes));
    match plan_archive_extraction(&gz) {
        Err(ArchiveError::ExtractionError(_)) => {},
        other => panic!("unexpected result: {other:?}"),
    }
}

#[test]
fn test_extract_rejects_foreign_root() {
    let mut bytes = raw_entry("root/a.txt", 0o644, b"alpha");
    bytes.extend(raw_entry("other/b.txt", 0o644, b"beta"));
    let gz = gzip(&finish_raw(bytes));
    match plan_archive_extraction(&gz) {
        Err(ArchiveError::ExtractionError(_)) => {},
        other => panic!("unexpected result: {other:?}"),
    }
}

#[test]
fn test_extract_rejects_bad_checksum() {
    let mut bytes = raw_entry("root/a.txt", 0o644, b"alpha");
    bytes[148] = b'7';
    bytes[149] = b'7';
    let gz = gzip(&finish_raw(bytes));
    assert!(plan_archive_extraction(&gz).is_err());
}

#[test]
fn test_extract_rejects_garbage() {
    let garbage: Vec<u8> = vec![1, 2, 3, 4, 5];
    assert!(plan_archive_extraction(&garbage).is_err());
}
