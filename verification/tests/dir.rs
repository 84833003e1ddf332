use m3::vfs::dir::{read_dir, DirEntry, HEADER_LEN};

fn entry(inode: u32, name: &[u8], pad: u32) -> Vec<u8> {
    let mut out = Vec::new();
    out.extend_from_slice(&inode.to_le_bytes());
    out.extend_from_slice(&(name.len() as u32).to_le_bytes());
    out.extend_from_slice(&(HEADER_LEN as u32 + name.len() as u32 + pad).to_le_bytes());
    out.extend_from_slice(name);
    out.extend(std::iter::repeat(0xaau8).take(pad as usize));
    out
}

#[test]
fn entry_keeps_inode_and_name() {
    let e = DirEntry::new(0x1234_5678, String::from("file.txt"));
    assert_eq!(e.inode(), 0x1234_5678);
    assert_eq!(e.file_name(), "file.txt");
}

#[test]
fn entries_come_in_their_order() {
    let mut data = entry(1, b".", 3);
    data.extend(entry(0x0102_0304, b"..", 0));
    data.extend(entry(77, "gr\u{fc}n.txt".as_bytes(), 5));
    data.extend(entry(78, b"", 0));
    let mut dir = read_dir(data);
    let a = dir.next().unwrap();
    assert_eq!((a.inode(), a.file_name()), (1, "."));
    let b = dir.next().unwrap();
    assert_eq!((b.inode(), b.file_name()), (0x0102_0304, ".."));
    let c = dir.next().unwrap();
    assert_eq!((c.inode(), c.file_name()), (77, "gr\u{fc}n.txt"));
    let d = dir.next().unwrap();
    assert_eq!((d.inode(), d.file_name()), (78, ""));
    assert!(dir.next().is_none());
    assert!(dir.next().is_none());
}

#[test]
fn entries_collects_what_next_returns() {
    let mut data = entry(5, b"bin", 1);
    data.extend(entry(6, b"etc", 0));
    data.extend(entry(7, b"home", 9));
    let mut dir = read_dir(data);
    let first = dir.next().unwrap();
    assert_eq!(first.file_name(), "bin");
    let rest = dir.entries();
    assert_eq!(rest.len(), 2);
    assert_eq!((rest[0].inode(), rest[0].file_name()), (6, "etc"));
    assert_eq!((rest[1].inode(), rest[1].file_name()), (7, "home"));
    assert!(dir.entries().is_empty());
    assert!(read_dir(Vec::new()).entries().is_empty());
}

#[test]
fn a_broken_entry_ends_the_directory() {
    let good = entry(1, b"ok", 0);

    let mut short_header = good.clone();
    short_header.extend_from_slice(&[1, 0, 0, 0, 2, 0, 0]);
    let mut dir = read_dir(short_header);
    assert_eq!(dir.entries().len(), 1);

    let mut short_name = good.clone();
    let mut cut = entry(2, b"name", 0);
    cut.truncate(HEADER_LEN + 3);
    short_name.extend(cut);
    assert_eq!(read_dir(short_name).entries().len(), 1);

    let mut next_too_small = good.clone();
    let mut e = entry(2, b"name", 0);
    e[8] = (HEADER_LEN + 3) as u8;
    next_too_small.extend(e);
    next_too_small.extend(entry(3, b"later", 0));
    assert_eq!(read_dir(next_too_small).entries().len(), 1);

    let mut next_leads_out = good.clone();
    let mut e = entry(2, b"name", 0);
    e[8] = (HEADER_LEN + 5) as u8;
    next_leads_out.extend(e);
    assert_eq!(read_dir(next_leads_out).entries().len(), 1);

    let mut no_utf8 = good.clone();
    no_utf8.extend(entry(2, &[0x66, 0xff, 0x67], 0));
    no_utf8.extend(entry(3, b"later", 0));
    let mut dir = read_dir(no_utf8);
    assert_eq!(dir.next().unwrap().file_name(), "ok");
    assert!(dir.next().is_none());
    assert!(dir.next().is_none());
}

#[test]
fn words_are_little_endian() {
    let mut data = vec![0x78, 0x56, 0x34, 0x12, 1, 0, 0, 0, 0x00, 0x01, 0, 0, b'x'];
    data.resize(0x100, 0);
    data.extend(entry(9, b"y", 0));
    let mut dir = read_dir(data);
    let a = dir.next().unwrap();
    assert_eq!((a.inode(), a.file_name()), (0x1234_5678, "x"));
    let b = dir.next().unwrap();
    assert_eq!((b.inode(), b.file_name()), (9, "y"));
}
