use smb_server::error::SmbError;
use smb_server::path::{
    decode_utf16_strict, is_reserved_dos_name, matches_com_or_lpt, split_stream_selector, SmbPath,
};

fn utf16(s: &str) -> Vec<u16> {
    s.encode_utf16().collect()
}

#[test]
fn root_paths() {
    assert!("".parse::<SmbPath>().unwrap().is_root());
    assert!("\\".parse::<SmbPath>().unwrap().is_root());
    assert!("/".parse::<SmbPath>().unwrap().is_root());
    assert!(SmbPath::from_utf16(&utf16("")).unwrap().is_root());
}

#[test]
fn simple_paths_split() {
    let p = "dir\\sub\\file.txt".parse::<SmbPath>().unwrap();
    assert_eq!(p.components(), &["dir", "sub", "file.txt"]);
    assert_eq!(p.display_backslash(), "dir\\sub\\file.txt");
    assert!(!p.is_root());
    assert_eq!(p.file_name(), Some("file.txt"));
}

#[test]
fn forward_slash_accepted() {
    let p = "a/b/c".parse::<SmbPath>().unwrap();
    assert_eq!(p.components(), &["a", "b", "c"]);
}

#[test]
fn dot_components_skipped() {
    let p = "a\\.\\b".parse::<SmbPath>().unwrap();
    assert_eq!(p.components(), &["a", "b"]);
}

#[test]
fn parent_returns_one_component_less() {
    let p = "a\\b\\c".parse::<SmbPath>().unwrap();
    let parent = p.parent().unwrap();
    assert_eq!(parent.components(), &["a", "b"]);
    let grand = parent.parent().unwrap();
    assert_eq!(grand.components(), &["a"]);
    let root = grand.parent().unwrap();
    assert!(root.is_root());
    assert!(root.parent().is_none());
}

#[test]
fn join_appends_component() {
    let p = "a".parse::<SmbPath>().unwrap();
    let q = p.join("b").unwrap();
    assert_eq!(q.components(), &["a", "b"]);
}

#[test]
fn rejects_double_dot() {
    assert!("a\\..\\b".parse::<SmbPath>().is_err());
    assert!("..".parse::<SmbPath>().is_err());
}

#[test]
fn rejects_double_separator() {
    assert!("a\\\\b".parse::<SmbPath>().is_err());
}

#[test]
fn rejects_forbidden_chars() {
    // `:` is deliberately absent here — it's the stream selector, see
    // the `stream_selector_*` tests below.
    for bad in ["a<b", "a>b", "a\"b", "a|b", "a?b", "a*b"] {
        assert!(bad.parse::<SmbPath>().is_err(), "{bad}");
    }
}

#[test]
fn stream_selector_parses_off_the_final_component() {
    let p = "file.txt:AFP_AfpInfo".parse::<SmbPath>().unwrap();
    assert_eq!(p.components(), &["file.txt"]);
    assert_eq!(p.stream_name(), Some("AFP_AfpInfo"));
}

#[test]
fn stream_selector_works_under_a_directory() {
    let p = "dir\\file.txt:com.apple.ResourceFork"
        .parse::<SmbPath>()
        .unwrap();
    assert_eq!(p.components(), &["dir", "file.txt"]);
    assert_eq!(p.stream_name(), Some("com.apple.ResourceFork"));
}

#[test]
fn stream_selector_accepts_explicit_data_type_suffix() {
    let p = "file.txt:AFP_AfpInfo:$DATA".parse::<SmbPath>().unwrap();
    assert_eq!(p.components(), &["file.txt"]);
    assert_eq!(p.stream_name(), Some("AFP_AfpInfo"));
}

#[test]
fn stream_selector_type_suffix_is_case_insensitive() {
    let p = "file.txt:AFP_AfpInfo:$data".parse::<SmbPath>().unwrap();
    assert_eq!(p.stream_name(), Some("AFP_AfpInfo"));
}

#[test]
fn bare_data_type_suffix_means_no_stream() {
    // `file.txt::$DATA` explicitly names the primary data stream —
    // MS-SMB2 treats this as equivalent to no stream selector at all.
    let p = "file.txt::$DATA".parse::<SmbPath>().unwrap();
    assert_eq!(p.components(), &["file.txt"]);
    assert_eq!(p.stream_name(), None);
}

#[test]
fn trailing_bare_colon_means_no_stream() {
    let p = "file.txt:".parse::<SmbPath>().unwrap();
    assert_eq!(p.components(), &["file.txt"]);
    assert_eq!(p.stream_name(), None);
}

#[test]
fn rejects_unsupported_stream_type() {
    assert!(
        "file.txt:stream:$INDEX_ALLOCATION"
            .parse::<SmbPath>()
            .is_err()
    );
}

#[test]
fn rejects_stream_selector_on_a_non_final_component() {
    assert!("dir:stream\\file.txt".parse::<SmbPath>().is_err());
}

#[test]
fn rejects_bare_stream_with_no_file_name() {
    assert!(":stream".parse::<SmbPath>().is_err());
}

#[test]
fn plain_paths_have_no_stream() {
    assert_eq!("file.txt".parse::<SmbPath>().unwrap().stream_name(), None);
    assert_eq!(SmbPath::root().stream_name(), None);
}

#[test]
fn rejects_control_chars() {
    let s = format!("a{}b", '\u{0001}');
    assert!(s.parse::<SmbPath>().is_err());
    let s = format!("a{}b", '\u{0000}');
    assert!(s.parse::<SmbPath>().is_err());
}

#[test]
fn rejects_reserved_dos_names() {
    for bad in [
        "CON", "con", "PRN", "AUX", "NUL", "COM1", "LPT9", "Con.txt", "NUL.dat",
    ] {
        assert!(bad.parse::<SmbPath>().is_err(), "{bad}");
    }
}

#[test]
fn allows_lookalike_names() {
    // Not reserved.
    assert!("CON1".parse::<SmbPath>().is_ok());
    assert!("LPT".parse::<SmbPath>().is_ok());
    assert!("LPT0".parse::<SmbPath>().is_ok()); // 0 is not in the 1-9 range
    assert!("NUL_FILE.txt".parse::<SmbPath>().is_ok());
}

#[test]
fn rejects_unpaired_surrogate() {
    let units: [u16; 2] = [0xD800, 0x0061]; // unpaired high surrogate
    assert!(SmbPath::from_utf16(&units).is_err());
}

#[test]
fn round_trip_via_utf16() {
    let p = SmbPath::from_utf16(&utf16("a\\b")).unwrap();
    assert_eq!(p.components(), &["a", "b"]);
}

#[test]
fn a_rendered_path_reads_back() {
    for text in ["a", "a\\b\\c", "dir\\file.txt:AFP_AfpInfo", "\u{e9}\\\u{1F600}"] {
        let p = text.parse::<SmbPath>().unwrap();
        let mut rendered = p.display_backslash();
        if let Some(stream) = p.stream_name() {
            rendered = format!("{rendered}:{stream}");
        }
        assert_eq!(rendered, text);
        assert_eq!(rendered.parse::<SmbPath>().unwrap(), p);
    }
}

#[test]
fn parent_and_join_undo_each_other() {
    let p = "a\\b\\c".parse::<SmbPath>().unwrap();
    let parent = p.parent().unwrap();
    assert_eq!(parent.join(p.file_name().unwrap()).unwrap(), p);
    assert_eq!(p.join("d").unwrap().parent(), Some(p.clone()));
    assert_eq!(SmbPath::root().parent(), None);
    assert_eq!(SmbPath::default(), SmbPath::root());
}

#[test]
fn join_takes_the_stream_of_what_it_appends() {
    let p = "a:s".parse::<SmbPath>().unwrap();
    assert_eq!(p.join("b").unwrap().stream_name(), None);
    assert_eq!(p.join("b:t").unwrap().stream_name(), Some("t"));
    assert_eq!(p.join("..").unwrap_err(), SmbError::NameInvalid);
    assert_eq!(p.parent().unwrap().stream_name(), None);
}

#[test]
fn the_root_displays_as_a_separator() {
    assert_eq!(SmbPath::root().display(), "\\");
    assert_eq!(SmbPath::root().display_backslash(), "");
    assert_eq!("a/b".parse::<SmbPath>().unwrap().display(), "a\\b");
}

#[test]
fn dots_and_separators_at_the_ends() {
    assert!(".".parse::<SmbPath>().unwrap().is_root());
    assert_eq!("\\a".parse::<SmbPath>(), "a".parse::<SmbPath>());
    assert_eq!("a\\.".parse::<SmbPath>(), "a".parse::<SmbPath>());
    assert!("a\\".parse::<SmbPath>().is_err());
    assert!("\\\\a".parse::<SmbPath>().is_err());
    assert!(".:s".parse::<SmbPath>().is_err());
    assert!("a:b:$DATA:c".parse::<SmbPath>().is_err());
}

#[test]
fn the_helpers_of_the_parser() {
    assert!(matches_com_or_lpt("COM1") && matches_com_or_lpt("LPT9"));
    assert!(!matches_com_or_lpt("com1") && !matches_com_or_lpt("COM10"));
    assert!(is_reserved_dos_name("aux.tar") && !is_reserved_dos_name("aux.tar.gz"));
    assert_eq!(
        split_stream_selector("f:s:$data").unwrap(),
        ("f".to_string(), Some("s".to_string()))
    );
    assert_eq!(split_stream_selector("f").unwrap(), ("f".to_string(), None));
    assert_eq!(decode_utf16_strict(&[0xD83D, 0xDE00]).unwrap(), "\u{1F600}");
    assert_eq!(
        decode_utf16_strict(&[0xDE00]).unwrap_err(),
        SmbError::NameInvalid
    );
}
