use shaiya::client::{data_range, extract, Workspace};
use shaiya::encode::encode_header;
use shaiya::tree::{SFile, SFolder};
use shaiya::ArchiveError;

fn push_u32(out: &mut Vec<u8>, v: u32) {
    out.extend_from_slice(&v.to_le_bytes());
}

fn push_u64(out: &mut Vec<u8>, v: u64) {
    out.extend_from_slice(&v.to_le_bytes());
}

fn push_file(out: &mut Vec<u8>, name: &[u8], offset: u64, length: u32) {
    push_u32(out, name.len() as u32);
    out.extend_from_slice(name);
    push_u64(out, offset);
    push_u32(out, length);
    out.extend_from_slice(&[0; 4]);
}

/// Header with root holding `icon.dds` (offset 100, length 50) and a
/// subfolder `ui` holding `panel.dds` (offset 200, length 10).
fn fixture_header() -> Vec<u8> {
    let mut h = Vec::new();
    h.extend_from_slice(b"SAH");
    h.extend_from_slice(&[0; 4]);
    push_u32(&mut h, 3);
    h.extend_from_slice(&[0; 45]);
    // root body
    push_u32(&mut h, 1);
    push_file(&mut h, b"icon.dds", 100, 50);
    push_u32(&mut h, 1);
    // subfolder record: name, then its body
    push_u32(&mut h, 2);
    h.extend_from_slice(b"ui");
    push_u32(&mut h, 1);
    push_file(&mut h, b"panel.dds", 200, 10);
    push_u32(&mut h, 0);
    h
}

fn fixture_blob() -> Vec<u8> {
    (0..300u32).map(|i| (i % 256) as u8).collect()
}

#[test]
fn scenario_resolve_and_read() {
    let ws = Workspace::from_header(&fixture_header()).unwrap();
    let blob = fixture_blob();

    let panel = ws.file("ui/panel.dds").unwrap();
    assert_eq!(panel.name, b"panel.dds".to_vec());
    assert_eq!(panel.offset, 200);
    assert_eq!(panel.length, 10);
    let data = extract(&blob, panel).unwrap();
    assert_eq!(data, blob[200..210].to_vec());

    let icon = ws.file("ICON.DDS").unwrap();
    assert_eq!(icon.name, b"icon.dds".to_vec());
    assert_eq!(icon.offset, 100);
    assert_eq!(icon.length, 50);
}

#[test]
fn resolve_file_is_case_insensitive_per_segment() {
    let ws = Workspace::from_header(&fixture_header()).unwrap();
    let f = ws.file("UI/Panel.DDS").unwrap();
    assert_eq!(f.offset, 200);
    assert_eq!(f.length, 10);
}

#[test]
fn resolve_missing_path_is_path_not_found() {
    let ws = Workspace::from_header(&fixture_header()).unwrap();
    assert_eq!(ws.file("ui/missing.dds").unwrap_err(), ArchiveError::PathNotFound);
    assert_eq!(ws.folder("nowhere").unwrap_err(), ArchiveError::PathNotFound);
}

#[test]
fn resolve_root_folder_by_slash() {
    let ws = Workspace::from_header(&fixture_header()).unwrap();
    let root = ws.folder("/").unwrap();
    assert_eq!(root.name, b"data".to_vec());
    assert_eq!(root.files.len(), 1);
    assert_eq!(root.folders.len(), 1);
}

#[test]
fn resolve_subfolder_by_name() {
    let ws = Workspace::from_header(&fixture_header()).unwrap();
    let ui = ws.folder("ui").unwrap();
    assert_eq!(ui.name, b"ui".to_vec());
    assert_eq!(ui.files.len(), 1);
    let ui_upper = ws.folder("UI").unwrap();
    assert_eq!(ui_upper.name, b"ui".to_vec());
}

#[test]
fn read_up_to_exact_blob_size_succeeds() {
    let blob = fixture_blob();
    let exact = SFile { name: b"tail.bin".to_vec(), offset: 250, length: 50 };
    let data = extract(&blob, &exact).unwrap();
    assert_eq!(data, blob[250..300].to_vec());
    assert_eq!(data_range(&exact, 300).unwrap(), (250, 50));

    let over = SFile { name: b"tail.bin".to_vec(), offset: 250, length: 51 };
    assert_eq!(
        extract(&blob, &over).unwrap_err(),
        ArchiveError::DataOutOfBounds { offset: 250, length: 51, available: 300 },
    );
    assert_eq!(
        data_range(&over, 300).unwrap_err(),
        ArchiveError::DataOutOfBounds { offset: 250, length: 51, available: 300 },
    );
}

#[test]
fn bad_magic_is_malformed_header() {
    let mut h = fixture_header();
    h[0] = b'X';
    assert_eq!(Workspace::from_header(&h).unwrap_err(), ArchiveError::MalformedHeader);
}

#[test]
fn negative_count_is_malformed_header() {
    let mut h = fixture_header();
    // overwrite the root file count with a negative signed value
    h[56..60].copy_from_slice(&(-1i32).to_le_bytes());
    assert_eq!(Workspace::from_header(&h).unwrap_err(), ArchiveError::MalformedHeader);
}

#[test]
fn truncation_mid_record_is_unexpected_end() {
    let h = fixture_header();
    // keep the root file count and the first file's name-length field, but
    // cut the stream before the name bytes
    let cut = h[..64].to_vec();
    assert_eq!(Workspace::from_header(&cut).unwrap_err(), ArchiveError::UnexpectedEndOfData);
}

#[test]
fn empty_name_is_legal() {
    let mut h = Vec::new();
    h.extend_from_slice(b"SAH");
    h.extend_from_slice(&[0; 4]);
    push_u32(&mut h, 1);
    h.extend_from_slice(&[0; 45]);
    push_u32(&mut h, 1);
    push_file(&mut h, b"", 0, 0);
    push_u32(&mut h, 0);
    let ws = Workspace::from_header(&h).unwrap();
    assert_eq!(ws.root.files[0].name, Vec::<u8>::new());
}

#[test]
fn trailing_nuls_are_stripped_from_names() {
    let mut h = Vec::new();
    h.extend_from_slice(b"SAH");
    h.extend_from_slice(&[0; 4]);
    push_u32(&mut h, 1);
    h.extend_from_slice(&[0; 45]);
    push_u32(&mut h, 1);
    push_file(&mut h, b"icon.dds\0\0", 5, 6);
    push_u32(&mut h, 0);
    let ws = Workspace::from_header(&h).unwrap();
    assert_eq!(ws.root.files[0].name, b"icon.dds".to_vec());
}

fn fixture_tree() -> SFolder {
    SFolder {
        name: b"data".to_vec(),
        files: vec![SFile { name: b"icon.dds".to_vec(), offset: 100, length: 50 }],
        folders: vec![SFolder {
            name: b"ui".to_vec(),
            files: vec![SFile { name: b"panel.dds".to_vec(), offset: 200, length: 10 }],
            folders: vec![],
        }],
    }
}

#[test]
fn encode_then_decode_round_trips() {
    let tree = fixture_tree();
    let bytes = encode_header(&tree);
    let ws = Workspace::from_header(&bytes).unwrap();
    let root = &ws.root;
    assert_eq!(root.name, b"data".to_vec());
    assert_eq!(root.files.len(), 1);
    assert_eq!(root.files[0].name, b"icon.dds".to_vec());
    assert_eq!(root.files[0].offset, 100);
    assert_eq!(root.files[0].length, 50);
    assert_eq!(root.folders.len(), 1);
    assert_eq!(root.folders[0].name, b"ui".to_vec());
    assert_eq!(root.folders[0].files[0].name, b"panel.dds".to_vec());
    assert_eq!(root.folders[0].files[0].offset, 200);
    assert_eq!(root.folders[0].files[0].length, 10);
    assert!(root.folders[0].folders.is_empty());
}

#[test]
fn encoder_writes_the_fixture_byte_for_byte() {
    let tree = fixture_tree();
    assert_eq!(encode_header(&tree), fixture_header());
}
