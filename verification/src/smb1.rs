//! The SMB1 multi-protocol bootstrap (MS-SMB2 §3.3.5.3.1).
//!
//! The only SMB1 that is accepted is a NEGOTIATE_REQUEST that lists an SMB2
//! dialect. It is answered with an SMB2 NEGOTIATE response, and the client
//! follows up with a real SMB2 NEGOTIATE.
//!
//! SMB1 frame layout of that request:
//! * `[0..4]`  — magic `0xFF 'S' 'M' 'B'`
//! * `[4]`     — command (0x72 = SMB_COM_NEGOTIATE)
//! * `[5..32]` — rest of SMB1 header (status, flags, pid, tid, mid …)
//! * `[32]`    — `WordCount` (0 for NEGOTIATE)
//! * `[33..35]`— `ByteCount` (u16 LE)
//! * `[35..]`  — dialect strings, each `0x02 <ASCII> 0x00`.

use vstd::prelude::*;

use crate::bytes::{le16_at, read_u16, zeros};
use crate::dispatch::{
    response_header, response_key, response_session, HandlerResponse, SessionSigning,
};
use crate::header::{begins_with_header, command_code, tree_or_zero, Command, HeaderTail, Smb2Header};

verus! {

/// The dialect revision that asks for a second NEGOTIATE.
pub const DIALECT_SMB2_WILDCARD: u16 = 0x02FF;

/// The dialect revision of SMB 2.0.2.
pub const DIALECT_SMB202: u16 = 0x0202;

/// `SMB 2.???`
pub open spec fn wildcard_name() -> Seq<u8> {
    seq![0x53u8, 0x4D, 0x42, 0x20, 0x32, 0x2E, 0x3F, 0x3F, 0x3F]
}

/// `SMB 2.002`
pub open spec fn smb202_name() -> Seq<u8> {
    seq![0x53u8, 0x4D, 0x42, 0x20, 0x32, 0x2E, 0x30, 0x30, 0x32]
}

/// `frame` is an SMB1 NEGOTIATE_REQUEST.
pub open spec fn is_smb1_negotiate(frame: Seq<u8>) -> bool {
    &&& frame.len() >= 35
    &&& frame[0] == 0xFF && frame[1] == 0x53 && frame[2] == 0x4D && frame[3] == 0x42
    &&& frame[4] == 0x72
}

/// The bytes of the dialect strings: as many as ByteCount says, or as there are.
pub open spec fn dialect_blob(frame: Seq<u8>) -> Seq<u8> {
    let end = 35 + le16_at(frame, 33);
    frame.subrange(
        35,
        if end <= frame.len() {
            end
        } else {
            frame.len() as int
        },
    )
}

/// The number of bytes before the first zero byte; the length where there is
/// none.
pub open spec fn before_nul(s: Seq<u8>) -> int
    decreases s.len(),
{
    if s.len() == 0 || s[0] == 0 {
        0
    } else {
        1 + before_nul(s.skip(1))
    }
}

/// The dialect strings at the start of `blob`: the list ends at the first entry
/// that does not begin with 0x02 or has no terminator.
pub open spec fn dialects(blob: Seq<u8>) -> Seq<Seq<u8>>
    decreases blob.len(),
{
    if blob.len() == 0 || blob[0] != 0x02 {
        seq![]
    } else {
        let n = before_nul(blob.skip(1));
        if n < 0 || n >= blob.len() - 1 {
            seq![]
        } else {
            seq![blob.subrange(1, 1 + n)] + dialects(blob.skip(n + 2))
        }
    }
}

/// The dialect revision that an SMB1 NEGOTIATE_REQUEST is answered with.
pub open spec fn chosen_dialect(frame: Seq<u8>) -> Option<u16> {
    if !is_smb1_negotiate(frame) {
        None
    } else if dialects(dialect_blob(frame)).contains(wildcard_name()) {
        Some(DIALECT_SMB2_WILDCARD)
    } else if dialects(dialect_blob(frame)).contains(smb202_name()) {
        Some(DIALECT_SMB202)
    } else {
        None
    }
}

/// Finds the first zero byte from `from` on; `buf.len()` where there is none.
fn find_nul(buf: &[u8], from: usize) -> (r: usize)
    requires
        from <= buf@.len(),
    ensures
        r == from + before_nul(buf@.skip(from as int)),
        from <= r <= buf@.len(),
{
    let mut i: usize = from;
    while i < buf.len() && buf[i] != 0
        invariant
            from <= i <= buf@.len(),
            from + before_nul(buf@.skip(from as int)) == i + before_nul(buf@.skip(i as int)),
        decreases buf@.len() - i,
    {
        assert(buf@.skip(i as int).skip(1) =~= buf@.skip(i + 1));
        i += 1;
    }
    i
}

/// Is the range of `buf` the dialect string `name`?
fn is_name(buf: &[u8], from: usize, to: usize, name: &[u8]) -> (r: bool)
    requires
        from <= to <= buf@.len(),
    ensures
        r == (buf@.subrange(from as int, to as int) == name@),
{
    if to - from != name.len() {
        return false;
    }
    let mut i: usize = 0;
    while i < name.len()
        invariant
            i <= name@.len(),
            to - from == name@.len(),
            from <= to <= buf@.len(),
            forall|k: int| 0 <= k < i ==> buf@[from + k] == name@[k],
        decreases name@.len() - i,
    {
        assert(buf@.subrange(from as int, to as int)[i as int] == buf@[from + i]);
        if buf[from + i] != name[i] {
            return false;
        }
        i += 1;
    }
    assert(buf@.subrange(from as int, to as int) =~= name@);
    true
}

/// The dialect revision that an SMB1 NEGOTIATE_REQUEST is answered with. `None`
/// on any other frame, and where no SMB2 dialect is listed, so that the caller
/// can fall through to the normal SMB2 path.
pub fn negotiate_dialect(frame: &[u8]) -> (r: Option<u16>)
    ensures
        r == chosen_dialect(frame@),
{
    if frame.len() < 35 || frame[0] != 0xFF || frame[1] != 0x53 || frame[2] != 0x4D || frame[3]
        != 0x42 || frame[4] != 0x72 {
        return None;
    }
    let byte_count: usize = read_u16(frame, 33) as usize;
    let end: usize = if byte_count <= frame.len() - 35 {
        35 + byte_count
    } else {
        frame.len()
    };
    let blob = crate::bytes::copy_range(frame, 35, end);
    assert(blob@ == dialect_blob(frame@));
    let wildcard: [u8; 9] = [0x53, 0x4D, 0x42, 0x20, 0x32, 0x2E, 0x3F, 0x3F, 0x3F];
    let smb202: [u8; 9] = [0x53, 0x4D, 0x42, 0x20, 0x32, 0x2E, 0x30, 0x30, 0x32];
    assert(wildcard@ =~= wildcard_name());
    assert(smb202@ =~= smb202_name());

    let mut wants_wildcard = false;
    let mut wants_smb202 = false;
    let mut i: usize = 0;
    let ghost mut seen: Seq<Seq<u8>> = seq![];
    assert(blob@.skip(0) =~= blob@);
    assert(seen + dialects(blob@) =~= dialects(blob@));
    while i < blob.len()
        invariant_except_break
            i <= blob@.len(),
            dialects(blob@) == seen + dialects(blob@.skip(i as int)),
        invariant
            wildcard@ == wildcard_name(),
            smb202@ == smb202_name(),
            wants_wildcard == seen.contains(wildcard_name()),
            wants_smb202 == seen.contains(smb202_name()),
        ensures
            dialects(blob@) == seen,
        decreases blob@.len() - i,
    {
        let ghost rest = blob@.skip(i as int);
        if blob[i] != 0x02 {
            assert(seen + dialects(rest) =~= seen);
            break;
        }
        let nul: usize = find_nul(blob.as_slice(), i + 1);
        assert(rest.skip(1) =~= blob@.skip(i + 1));
        if nul == blob.len() {
            assert(seen + dialects(rest) =~= seen);
            break;
        }
        let is_wildcard = is_name(blob.as_slice(), i + 1, nul, wildcard.as_slice());
        let is_smb202 = is_name(blob.as_slice(), i + 1, nul, smb202.as_slice());
        proof {
            let name = blob@.subrange(i + 1, nul as int);
            let n = before_nul(rest.skip(1));
            assert(rest.subrange(1, 1 + n) =~= name);
            assert(rest.skip(n + 2) =~= blob@.skip(nul + 1));
            assert(seen + (seq![name] + dialects(blob@.skip(nul + 1))) =~= seen.push(name)
                + dialects(blob@.skip(nul + 1)));
            lemma_push_contains(seen, name, wildcard_name());
            lemma_push_contains(seen, name, smb202_name());
            seen = seen.push(name);
        }
        if is_wildcard {
            wants_wildcard = true;
        }
        if is_smb202 {
            wants_smb202 = true;
        }
        i = nul + 1;
        proof {
            if i == blob@.len() {
                assert(seen + dialects(blob@.skip(i as int)) =~= seen);
            }
        }
    }

    if wants_wildcard {
        Some(DIALECT_SMB2_WILDCARD)
    } else if wants_smb202 {
        Some(DIALECT_SMB202)
    } else {
        None
    }
}

proof fn lemma_push_contains(s: Seq<Seq<u8>>, x: Seq<u8>, y: Seq<u8>)
    ensures
        s.push(x).contains(y) <==> s.contains(y) || x == y,
{
    let t = s.push(x);
    if s.contains(y) {
        let k = choose|k: int| 0 <= k < s.len() && s[k] == y;
        assert(t[k] == y);
    }
    if x == y {
        assert(t[s.len() as int] == y);
    }
    if t.contains(y) {
        let k = choose|k: int| 0 <= k < t.len() && t[k] == y;
        if k < s.len() {
            assert(s[k] == y);
        }
    }
}

/// The SMB2 request that an SMB1 NEGOTIATE_REQUEST stands for: a NEGOTIATE with
/// message id 0 and session id 0 on tree 0xFFFF.
pub open spec fn is_bootstrap_header(h: Smb2Header) -> bool {
    &&& h.credit_charge == 0
    &&& h.channel_sequence_status == 0
    &&& h.command == Command::Negotiate
    &&& h.credit_request_response == 0
    &&& h.flags == 0
    &&& h.next_command == 0
    &&& h.message_id == 0
    &&& h.tail == HeaderTail::Sync { reserved: 0, tree_id: 0xFFFF }
    &&& h.session_id == 0
    &&& h.signature@ == zeros(16)
}

/// The SMB2 request header that an SMB1 NEGOTIATE_REQUEST stands for.
pub fn bootstrap_header() -> (h: Smb2Header)
    ensures
        is_bootstrap_header(h),
{
    let signature: [u8; 16] = [0u8; 16];
    assert(signature@ =~= zeros(16));
    Smb2Header {
        credit_charge: 0,
        channel_sequence_status: 0,
        command: Command::Negotiate,
        credit_request_response: 0,
        flags: 0,
        next_command: 0,
        message_id: 0,
        tail: HeaderTail::Sync { reserved: 0, tree_id: 0xFFFF },
        session_id: 0,
        signature,
    }
}

/// The response to an SMB1 NEGOTIATE_REQUEST goes out unsigned, under message id
/// 0, session id 0 and tree 0xFFFF, as the response to a NEGOTIATE.
pub proof fn lemma_bootstrap_response(
    req: Smb2Header,
    resp: HandlerResponse,
    session: Option<SessionSigning>,
    h: Smb2Header,
)
    requires
        is_bootstrap_header(req),
        resp.override_tree_id is None,
        resp.override_session_id is None,
        response_header(h, req, resp, response_key(req, resp, session) is Some),
    ensures
        response_session(req, resp) == 0,
        response_key(req, resp, session) is None,
        h.command == Command::Negotiate,
        h.message_id == 0,
        h.session_id == 0,
        tree_or_zero(h) == 0xFFFF,
        h.flags == 1,
{
    assert((0u32 | 1u32) & !2u32 & !8u32 == 1u32) by (bit_vector);
}

/// A frame that is answered here is no SMB2 frame.
pub proof fn lemma_bootstrap_disjoint(frame: Seq<u8>)
    requires
        chosen_dialect(frame) is Some,
    ensures
        !begins_with_header(frame),
{
}

/// An entry `0x02 <name> 0x00` in front of a list of dialects adds that name to
/// it.
pub proof fn lemma_dialect_entry(name: Seq<u8>, rest: Seq<u8>)
    requires
        !name.contains(0),
    ensures
        dialects(seq![0x02u8] + name + seq![0u8] + rest) == seq![name] + dialects(rest),
{
    let blob = seq![0x02u8] + name + seq![0u8] + rest;
    let tail = name + seq![0u8] + rest;
    assert(blob.skip(1) =~= tail);
    lemma_before_nul(name, rest);
    assert(blob.subrange(1, 1 + name.len() as int) =~= name);
    assert(blob.skip(name.len() as int + 2) =~= rest);
}

proof fn lemma_before_nul(name: Seq<u8>, rest: Seq<u8>)
    requires
        !name.contains(0),
    ensures
        before_nul(name + seq![0u8] + rest) == name.len(),
    decreases name.len(),
{
    let s = name + seq![0u8] + rest;
    if name.len() > 0 {
        assert(name.contains(name[0]));
        assert(s[0] == name[0]);
        assert(s.skip(1) =~= name.skip(1) + seq![0u8] + rest);
        assert forall|b: u8| name.skip(1).contains(b) implies name.contains(b) by {
            let k = choose|k: int| 0 <= k < name.skip(1).len() && name.skip(1)[k] == b;
            assert(name[k + 1] == b);
        }
        lemma_before_nul(name.skip(1), rest);
    } else {
        assert(s[0] == 0);
    }
}

/// A list of dialect names as it stands in a request: `0x02`, the name, `0x00`,
/// for each name.
pub open spec fn listed(names: Seq<Seq<u8>>) -> Seq<u8>
    decreases names.len(),
{
    if names.len() == 0 {
        seq![]
    } else {
        seq![0x02u8] + names[0] + seq![0u8] + listed(names.skip(1))
    }
}

/// Reading a list of dialect names gives the names back.
pub proof fn lemma_listed_names(names: Seq<Seq<u8>>)
    requires
        forall|i: int| 0 <= i < names.len() ==> !(#[trigger] names[i]).contains(0),
    ensures
        dialects(listed(names)) == names,
    decreases names.len(),
{
    if names.len() > 0 {
        assert forall|i: int| 0 <= i < names.skip(1).len() implies !(#[trigger] names.skip(
            1,
        )[i]).contains(0) by {
            assert(names.skip(1)[i] == names[i + 1]);
        }
        lemma_listed_names(names.skip(1));
        assert(!names[0].contains(0));
        lemma_dialect_entry(names[0], listed(names.skip(1)));
        assert(seq![names[0]] + names.skip(1) =~= names);
    } else {
        assert(dialects(listed(names)) =~= names);
    }
}

/// What a request that lists dialect names is answered with. The request is
/// `FF 53 4D 42`, the command `72`, 28 more bytes, the length of the list in bytes
/// 33 and 34, and the list. It is answered with 02FF where the list holds
/// `SMB 2.???`, else with 0202 where it holds `SMB 2.002`, else not at all, and
/// neither is any other frame.
pub proof fn lemma_dialect_chosen(frame: Seq<u8>, names: Seq<Seq<u8>>)
    requires
        forall|i: int| 0 <= i < names.len() ==> !(#[trigger] names[i]).contains(0),
        frame.len() >= 35,
        frame.skip(35) == listed(names),
        frame[33] + 256 * frame[34] == frame.len() - 35,
    ensures
        ({
            let smb1 = frame[0] == 0xFF && frame[1] == 0x53 && frame[2] == 0x4D && frame[3] == 0x42
                && frame[4] == 0x72;
            let wild = seq![0x53u8, 0x4D, 0x42, 0x20, 0x32, 0x2E, 0x3F, 0x3F, 0x3F];
            let smb202 = seq![0x53u8, 0x4D, 0x42, 0x20, 0x32, 0x2E, 0x30, 0x30, 0x32];
            chosen_dialect(frame) == if smb1 && names.contains(wild) {
                Some(0x02FFu16)
            } else if smb1 && names.contains(smb202) {
                Some(0x0202u16)
            } else {
                None
            }
        }),
{
    lemma_listed_names(names);
    assert(dialect_blob(frame) =~= frame.skip(35));
}

/// A list ends where its length says, or at the end of the frame, whichever comes
/// first; an entry that does not begin with `02`, or has no `00`, ends it too. A
/// frame of fewer than 35 bytes holds none.
pub proof fn lemma_dialect_list_ends(frame: Seq<u8>, blob: Seq<u8>)
    ensures
        frame.len() < 35 ==> chosen_dialect(frame) is None,
        frame.len() >= 35 ==> {
            let said = frame[33] + 256 * frame[34];
            &&& said <= frame.len() - 35 ==> dialect_blob(frame) == frame.subrange(35, 35 + said)
            &&& said > frame.len() - 35 ==> dialect_blob(frame) == frame.skip(35)
        },
        blob.len() > 0 && blob[0] != 2 ==> dialects(blob).len() == 0,
        blob.len() > 0 && !blob.skip(1).contains(0) ==> dialects(blob).len() == 0,
{
    if frame.len() >= 35 {
        assert(frame.subrange(35, frame.len() as int) =~= frame.skip(35));
    }
    if blob.len() > 0 && !blob.skip(1).contains(0) {
        lemma_no_nul(blob.skip(1));
    }
}

proof fn lemma_no_nul(s: Seq<u8>)
    requires
        !s.contains(0),
    ensures
        before_nul(s) == s.len(),
    decreases s.len(),
{
    if s.len() > 0 {
        assert(s.contains(s[0]));
        assert forall|b: u8| s.skip(1).contains(b) implies s.contains(b) by {
            let k = choose|k: int| 0 <= k < s.skip(1).len() && s.skip(1)[k] == b;
            assert(s[k + 1] == b);
        }
        lemma_no_nul(s.skip(1));
    }
}

/// The request that a bootstrap stands for, in full: a NEGOTIATE (0) with every
/// number 0 but the tree, which is FFFF.
pub proof fn lemma_bootstrap_request(h: Smb2Header)
    requires
        is_bootstrap_header(h),
    ensures
        command_code(h.command) == 0,
        h.credit_charge == 0 && h.credit_request_response == 0 && h.channel_sequence_status == 0,
        h.flags == 0 && h.next_command == 0 && h.message_id == 0 && h.session_id == 0,
        tree_or_zero(h) == 0xFFFF,
        forall|k: int| 0 <= k < 16 ==> #[trigger] h.signature@[k] == 0,
{
    assert(zeros(16).len() == 16);
}

} // verus!
