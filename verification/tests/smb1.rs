use smb_server::dispatch::{build_response_bytes, HandlerResponse};
use smb_server::header::{Command, Smb2Header};
use smb_server::smb1::{bootstrap_header, negotiate_dialect};

fn smb1_frame(dialects: &[&str]) -> Vec<u8> {
    let mut blob = Vec::new();
    for d in dialects {
        blob.push(0x02);
        blob.extend_from_slice(d.as_bytes());
        blob.push(0);
    }
    let mut frame = vec![0xFF, b'S', b'M', b'B', 0x72];
    frame.resize(33, 0);
    frame.extend_from_slice(&(blob.len() as u16).to_le_bytes());
    frame.extend_from_slice(&blob);
    frame
}

#[test]
fn smb2_dialects_are_chosen() {
    assert_eq!(
        negotiate_dialect(&smb1_frame(&["NT LM 0.12", "SMB 2.002"])),
        Some(0x0202)
    );
    assert_eq!(
        negotiate_dialect(&smb1_frame(&["SMB 2.002", "SMB 2.???"])),
        Some(0x02FF)
    );
    assert_eq!(negotiate_dialect(&smb1_frame(&["NT LM 0.12"])), None);
    assert_eq!(negotiate_dialect(&smb1_frame(&["SMB 2.00", "SMB 2.0022"])), None);
    assert_eq!(negotiate_dialect(&smb1_frame(&[])), None);
}

#[test]
fn other_frames_are_left_alone() {
    let frame = smb1_frame(&["SMB 2.002"]);
    assert_eq!(negotiate_dialect(&frame[..34]), None);
    let mut smb2 = frame.clone();
    smb2[0] = 0xFE;
    assert_eq!(negotiate_dialect(&smb2), None);
    let mut other_command = frame.clone();
    other_command[4] = 0x73;
    assert_eq!(negotiate_dialect(&other_command), None);
}

#[test]
fn the_list_ends_at_its_byte_count_or_first_fault() {
    let mut short = smb1_frame(&["NT LM 0.12", "SMB 2.002"]);
    short[33] = 12;
    assert_eq!(negotiate_dialect(&short), None);
    let mut long = smb1_frame(&["SMB 2.002"]);
    long[34] = 0xFF;
    assert_eq!(negotiate_dialect(&long), Some(0x0202));
    let mut marker = smb1_frame(&["X", "SMB 2.002"]);
    marker[38] = 0x03;
    assert_eq!(negotiate_dialect(&marker), None);
    let mut open_ended = smb1_frame(&["SMB 2.002"]);
    let last = open_ended.len() - 1;
    open_ended[last] = b'!';
    assert_eq!(negotiate_dialect(&open_ended), None);
}

#[test]
fn the_bootstrap_response_uses_the_reserved_ids() {
    let req = bootstrap_header();
    let built = build_response_bytes(&req, &HandlerResponse::ok(vec![65, 0]), None);
    let hdr = Smb2Header::parse(&built.bytes).unwrap();
    assert_eq!(hdr.command, Command::Negotiate);
    assert_eq!(hdr.message_id, 0);
    assert_eq!(hdr.session_id, 0);
    assert_eq!(hdr.tree_id(), Some(0xFFFF));
    assert_eq!(hdr.flags, 1);
    assert_eq!(built.key, None);
}
