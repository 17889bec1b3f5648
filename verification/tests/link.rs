use base64::engine::general_purpose::URL_SAFE_NO_PAD;
use base64::Engine;
use mega_dl::link::{link_argument, parse_link, LinkError, MegaLink};

fn key(n: usize) -> (Vec<u8>, String) {
    let bytes: Vec<u8> = (0..n).map(|i| (i * 29 + 200) as u8).collect();
    let text = URL_SAFE_NO_PAD.encode(&bytes);
    (bytes, text)
}

fn file_of(url: &str) -> (String, [u8; 32]) {
    match parse_link(url) {
        Ok(MegaLink::File { id, raw_key }) => (id, raw_key),
        other => panic!("{other:?}"),
    }
}

fn folder_of(url: &str) -> (String, [u8; 16]) {
    match parse_link(url) {
        Ok(MegaLink::Folder { id, folder_key }) => (id, folder_key),
        other => panic!("{other:?}"),
    }
}

fn error_of(url: &str) -> LinkError {
    match parse_link(url) {
        Ok(link) => panic!("{link:?}"),
        Err(e) => e,
    }
}

#[test]
fn file_links_give_id_and_key() {
    let (bytes, text) = key(32);
    let (id, raw) = file_of(&format!("https://mega.nz/file/AbCd123#{text}"));
    assert_eq!(id, "AbCd123");
    assert_eq!(raw.to_vec(), bytes);
    let (id, raw) = file_of(&format!(" \n https://mega.nz/file/AbCd123/#{text}\t"));
    assert_eq!(id, "AbCd123");
    assert_eq!(raw.to_vec(), bytes);
}

#[test]
fn folder_links_give_id_and_key() {
    let (bytes, text) = key(16);
    let (id, k) = folder_of(&format!("https://mega.nz/folder/xyz#{text}"));
    assert_eq!(id, "xyz");
    assert_eq!(k.to_vec(), bytes);
    let (id, _) = folder_of(&format!("mega.nz/folder/xyz///#{text}"));
    assert_eq!(id, "xyz");
}

#[test]
fn the_id_ends_at_the_next_marker() {
    let (_, text) = key(32);
    assert_eq!(file_of(&format!("/file/a/file/b#{text}")).0, "a");
    assert_eq!(file_of(&format!("/file//file/b#{text}")).0, "");
    assert_eq!(file_of(&format!("/folder/x/file/b#{text}")).0, "b");
    assert_eq!(file_of(&format!("/file/a/b#{text}")).0, "a/b");
    assert_eq!(file_of(&format!("/file/#{text}")).0, "");
}

#[test]
fn each_fault_of_a_link_has_its_error() {
    let (_, k32) = key(32);
    let (_, k16) = key(16);
    assert_eq!(error_of("https://mega.nz/file/abc"), LinkError::NoHash);
    assert_eq!(error_of(""), LinkError::NoHash);
    assert_eq!(error_of("/file/abc#!!"), LinkError::FileKeyBase64);
    assert_eq!(error_of(&format!("/file/abc#{k16}")), LinkError::FileKeyLength);
    assert_eq!(error_of("/folder/abc#a=b"), LinkError::FolderKeyBase64);
    assert_eq!(error_of(&format!("/folder/abc#{k32}")), LinkError::FolderKeyLength(32));
    assert_eq!(error_of("/folder/abc#"), LinkError::FolderKeyLength(0));
    assert_eq!(error_of(&format!("https://mega.nz/#!abc!{k32}")), LinkError::Unrecognised);
    assert_eq!(error_of(&format!("/file#{k32}")), LinkError::Unrecognised);
}

#[test]
fn the_first_hash_sign_counts() {
    let (_, k32) = key(32);
    assert_eq!(error_of(&format!("/file/a#b#{k32}")), LinkError::FileKeyBase64);
}

#[test]
fn the_argument_comes_before_the_saved_link() {
    assert_eq!(link_argument(Some("a"), Some("b")), Some("a"));
    assert_eq!(link_argument(Some(" a "), None), Some(" a "));
    assert_eq!(link_argument(None, Some("  b\n")), Some("b"));
    assert_eq!(link_argument(Some(""), Some("b")), None);
    assert_eq!(link_argument(None, Some(" \n")), None);
    assert_eq!(link_argument(None, None), None);
}
