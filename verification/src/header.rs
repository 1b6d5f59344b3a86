//! The SMB2 packet header (MS-SMB2 §2.2.1).

use vstd::prelude::*;

use crate::bytes::{
    le16, le16_at, le32, le32_at, le64, le64_at, push_all, push_u16, push_u32, push_u64, read_u16,
    read_u32, read_u64,
};

verus! {

/// Length of the packet header.
pub const SMB2_HEADER_LEN: usize = 64;

/// The packet is a response.
pub const SMB2_FLAGS_SERVER_TO_REDIR: u32 = 0x0000_0001;

/// The header holds an async id in the place of the tree id.
pub const SMB2_FLAGS_ASYNC_COMMAND: u32 = 0x0000_0002;

/// The operation is related to the one before it in the compound.
pub const SMB2_FLAGS_RELATED_OPERATIONS: u32 = 0x0000_0004;

/// The packet is signed.
pub const SMB2_FLAGS_SIGNED: u32 = 0x0000_0008;

/// SMB2 commands.
#[derive(Debug, Clone, Copy, PartialEq, Eq, Structural)]
pub enum Command {
    Negotiate,
    SessionSetup,
    Logoff,
    TreeConnect,
    TreeDisconnect,
    Create,
    Close,
    Flush,
    Read,
    Write,
    Lock,
    Ioctl,
    Cancel,
    Echo,
    QueryDirectory,
    ChangeNotify,
    QueryInfo,
    SetInfo,
    OplockBreak,
}

/// The code of a command.
pub open spec fn command_code(c: Command) -> u16 {
    match c {
        Command::Negotiate => 0x00,
        Command::SessionSetup => 0x01,
        Command::Logoff => 0x02,
        Command::TreeConnect => 0x03,
        Command::TreeDisconnect => 0x04,
        Command::Create => 0x05,
        Command::Close => 0x06,
        Command::Flush => 0x07,
        Command::Read => 0x08,
        Command::Write => 0x09,
        Command::Lock => 0x0A,
        Command::Ioctl => 0x0B,
        Command::Cancel => 0x0C,
        Command::Echo => 0x0D,
        Command::QueryDirectory => 0x0E,
        Command::ChangeNotify => 0x0F,
        Command::QueryInfo => 0x10,
        Command::SetInfo => 0x11,
        Command::OplockBreak => 0x12,
    }
}

impl Command {
    /// The command's code.
    pub fn as_u16(self) -> (code: u16)
        ensures
            code == command_code(self),
    {
        match self {
            Command::Negotiate => 0x00,
            Command::SessionSetup => 0x01,
            Command::Logoff => 0x02,
            Command::TreeConnect => 0x03,
            Command::TreeDisconnect => 0x04,
            Command::Create => 0x05,
            Command::Close => 0x06,
            Command::Flush => 0x07,
            Command::Read => 0x08,
            Command::Write => 0x09,
            Command::Lock => 0x0A,
            Command::Ioctl => 0x0B,
            Command::Cancel => 0x0C,
            Command::Echo => 0x0D,
            Command::QueryDirectory => 0x0E,
            Command::ChangeNotify => 0x0F,
            Command::QueryInfo => 0x10,
            Command::SetInfo => 0x11,
            Command::OplockBreak => 0x12,
        }
    }

    /// The command with that code.
    pub fn from_u16(code: u16) -> (r: Option<Command>)
        ensures
            match r {
                Some(c) => command_code(c) == code,
                None => code > 0x12,
            },
    {
        match code {
            0x00 => Some(Command::Negotiate),
            0x01 => Some(Command::SessionSetup),
            0x02 => Some(Command::Logoff),
            0x03 => Some(Command::TreeConnect),
            0x04 => Some(Command::TreeDisconnect),
            0x05 => Some(Command::Create),
            0x06 => Some(Command::Close),
            0x07 => Some(Command::Flush),
            0x08 => Some(Command::Read),
            0x09 => Some(Command::Write),
            0x0A => Some(Command::Lock),
            0x0B => Some(Command::Ioctl),
            0x0C => Some(Command::Cancel),
            0x0D => Some(Command::Echo),
            0x0E => Some(Command::QueryDirectory),
            0x0F => Some(Command::ChangeNotify),
            0x10 => Some(Command::QueryInfo),
            0x11 => Some(Command::SetInfo),
            0x12 => Some(Command::OplockBreak),
            _ => None,
        }
    }
}

/// The eight header bytes whose meaning depends on the async flag.
#[derive(Debug, Clone, Copy, PartialEq, Eq, Structural)]
pub enum HeaderTail {
    Sync { reserved: u32, tree_id: u32 },
    Async { async_id: u64 },
}

impl HeaderTail {
    /// The tail of a synchronous packet on a tree.
    pub fn sync(tree_id: u32) -> (r: HeaderTail)
        ensures
            r == (HeaderTail::Sync { reserved: 0, tree_id }),
    {
        HeaderTail::Sync { reserved: 0, tree_id }
    }
}

/// An SMB2 packet header.
#[derive(Debug, Clone, Copy, PartialEq, Eq)]
pub struct Smb2Header {
    pub credit_charge: u16,
    pub channel_sequence_status: u32,
    pub command: Command,
    pub credit_request_response: u16,
    pub flags: u32,
    pub next_command: u32,
    pub message_id: u64,
    pub tail: HeaderTail,
    pub session_id: u64,
    pub signature: [u8; 16],
}

/// The tree that a header names; `None` on an asynchronous packet.
pub open spec fn tree_of(h: Smb2Header) -> Option<u32> {
    match h.tail {
        HeaderTail::Sync { tree_id, .. } => Some(tree_id),
        HeaderTail::Async { .. } => None,
    }
}

/// The tree that a header names, or 0.
pub open spec fn tree_or_zero(h: Smb2Header) -> u32 {
    match tree_of(h) {
        Some(t) => t,
        None => 0,
    }
}

/// Is the flag `bit` set in the header?
pub open spec fn has_flag(h: Smb2Header, bit: u32) -> bool {
    h.flags & bit != 0
}

/// The bytes of a header tail.
pub open spec fn tail_bytes(t: HeaderTail) -> Seq<u8> {
    match t {
        HeaderTail::Sync { reserved, tree_id } => le32(reserved) + le32(tree_id),
        HeaderTail::Async { async_id } => le64(async_id),
    }
}

/// The first four bytes of every SMB2 packet.
pub open spec fn protocol_id() -> Seq<u8> {
    seq![0xFEu8, 0x53, 0x4D, 0x42]
}

/// The bytes of a header up to the tail.
pub open spec fn header_front(h: Smb2Header) -> Seq<u8> {
    protocol_id() + le16(64) + le16(h.credit_charge) + le32(h.channel_sequence_status) + le16(
        command_code(h.command),
    ) + le16(h.credit_request_response) + le32(h.flags) + le32(h.next_command) + le64(h.message_id)
}

/// The bytes of a header.
pub open spec fn header_bytes(h: Smb2Header) -> Seq<u8> {
    header_front(h) + tail_bytes(h.tail) + le64(h.session_id) + h.signature@
}

/// `b` begins with the header of an SMB2 packet: the protocol id, the fixed
/// structure size, and a known command.
pub open spec fn begins_with_header(b: Seq<u8>) -> bool {
    &&& b.len() >= 64
    &&& b[0] == 0xFE && b[1] == 0x53 && b[2] == 0x4D && b[3] == 0x42
    &&& le16_at(b, 4) == 64
    &&& le16_at(b, 12) <= 0x12
}

/// `h` is what the first 64 bytes of `b` say, field by field.
pub open spec fn reads_as(b: Seq<u8>, h: Smb2Header) -> bool {
    &&& begins_with_header(b)
    &&& h.credit_charge == le16_at(b, 6)
    &&& h.channel_sequence_status == le32_at(b, 8)
    &&& command_code(h.command) == le16_at(b, 12)
    &&& h.credit_request_response == le16_at(b, 14)
    &&& h.flags == le32_at(b, 16)
    &&& h.next_command == le32_at(b, 20)
    &&& h.message_id == le64_at(b, 24)
    &&& h.tail == if h.flags & SMB2_FLAGS_ASYNC_COMMAND != 0 {
        HeaderTail::Async { async_id: le64_at(b, 32) }
    } else {
        HeaderTail::Sync { reserved: le32_at(b, 32), tree_id: le32_at(b, 36) }
    }
    &&& h.session_id == le64_at(b, 40)
    &&& h.signature@ == b.subrange(48, 64)
}

/// The sixteen bytes of `b` from `at` on.
pub fn read_16(b: &[u8], at: usize) -> (r: [u8; 16])
    requires
        at + 16 <= b@.len(),
    ensures
        r@ == b@.subrange(at as int, at + 16),
{
    let mut r: [u8; 16] = [0u8; 16];
    let len: usize = b.len();
    let mut i: usize = 0;
    while i < 16
        invariant
            i <= 16,
            at + 16 <= len,
            len == b@.len(),
            forall|k: int| 0 <= k < i ==> r@[k] == b@[at + k],
        decreases 16 - i,
    {
        r[i] = b[at + i];
        i += 1;
    }
    assert(r@ =~= b@.subrange(at as int, at + 16));
    r
}

impl Smb2Header {
    /// The tree that the header names; `None` on an asynchronous packet.
    pub fn tree_id(&self) -> (r: Option<u32>)
        ensures
            r == tree_of(*self),
    {
        match self.tail {
            HeaderTail::Sync { tree_id, .. } => Some(tree_id),
            HeaderTail::Async { .. } => None,
        }
    }

    /// Reads the header at the start of `b`; `None` where there is none.
    pub fn parse(b: &[u8]) -> (r: Option<Smb2Header>)
        ensures
            match r {
                Some(h) => reads_as(b@, h),
                None => !begins_with_header(b@),
            },
    {
        if b.len() < SMB2_HEADER_LEN {
            return None;
        }
        if b[0] != 0xFE || b[1] != 0x53 || b[2] != 0x4D || b[3] != 0x42 || read_u16(b, 4) != 64 {
            return None;
        }
        let command = match Command::from_u16(read_u16(b, 12)) {
            Some(c) => c,
            None => return None,
        };
        let flags: u32 = read_u32(b, 16);
        let tail = if flags & SMB2_FLAGS_ASYNC_COMMAND != 0 {
            HeaderTail::Async { async_id: read_u64(b, 32) }
        } else {
            HeaderTail::Sync { reserved: read_u32(b, 32), tree_id: read_u32(b, 36) }
        };
        Some(
            Smb2Header {
                credit_charge: read_u16(b, 6),
                channel_sequence_status: read_u32(b, 8),
                command,
                credit_request_response: read_u16(b, 14),
                flags,
                next_command: read_u32(b, 20),
                message_id: read_u64(b, 24),
                tail,
                session_id: read_u64(b, 40),
                signature: read_16(b, 48),
            },
        )
    }

    /// Appends the bytes of the header.
    #[verifier::rlimit(50)]
    pub fn write(&self, out: &mut Vec<u8>)
        ensures
            final(out)@ == old(out)@ + header_bytes(*self),
    {
        out.push(0xFE);
        out.push(0x53);
        out.push(0x4D);
        out.push(0x42);
        assert(out@ =~= old(out)@ + protocol_id());
        push_u16(out, 64);
        push_u16(out, self.credit_charge);
        push_u32(out, self.channel_sequence_status);
        push_u16(out, self.command.as_u16());
        push_u16(out, self.credit_request_response);
        push_u32(out, self.flags);
        push_u32(out, self.next_command);
        push_u64(out, self.message_id);
        assert(out@ =~= old(out)@ + header_front(*self));
        match self.tail {
            HeaderTail::Sync { reserved, tree_id } => {
                push_u32(out, reserved);
                push_u32(out, tree_id);
            },
            HeaderTail::Async { async_id } => {
                push_u64(out, async_id);
            },
        }
        assert(out@ =~= old(out)@ + (header_front(*self) + tail_bytes(self.tail)));
        push_u64(out, self.session_id);
        push_all(out, self.signature.as_slice());
        assert(out@ =~= old(out)@ + header_bytes(*self));
    }
}

/// The tail of `h` is the one that its async flag calls for.
pub open spec fn tail_fits(h: Smb2Header) -> bool {
    has_flag(h, SMB2_FLAGS_ASYNC_COMMAND) <==> h.tail is Async
}

/// Reading what was written gives the header back, whatever follows it.
#[verifier::rlimit(50)]
pub proof fn lemma_header_round_trip(h: Smb2Header, rest: Seq<u8>)
    requires
        tail_fits(h),
    ensures
        header_bytes(h).len() == 64,
        reads_as(header_bytes(h) + rest, h),
{
    let b = header_bytes(h) + rest;
    assert(b[0] == 0xFE && b[1] == 0x53 && b[2] == 0x4D && b[3] == 0x42);
    assert(b.subrange(4, 6) =~= le16(64));
    crate::bytes::lemma_le16_round_trip(b, 4, 64);
    assert(b.subrange(6, 8) =~= le16(h.credit_charge));
    crate::bytes::lemma_le16_round_trip(b, 6, h.credit_charge);
    assert(b.subrange(8, 12) =~= le32(h.channel_sequence_status));
    crate::bytes::lemma_le32_round_trip(b, 8, h.channel_sequence_status);
    assert(b.subrange(12, 14) =~= le16(command_code(h.command)));
    crate::bytes::lemma_le16_round_trip(b, 12, command_code(h.command));
    assert(b.subrange(14, 16) =~= le16(h.credit_request_response));
    crate::bytes::lemma_le16_round_trip(b, 14, h.credit_request_response);
    assert(b.subrange(16, 20) =~= le32(h.flags));
    crate::bytes::lemma_le32_round_trip(b, 16, h.flags);
    assert(b.subrange(20, 24) =~= le32(h.next_command));
    crate::bytes::lemma_le32_round_trip(b, 20, h.next_command);
    assert(b.subrange(24, 32) =~= le64(h.message_id));
    crate::bytes::lemma_le64_round_trip(b, 24, h.message_id);
    match h.tail {
        HeaderTail::Sync { reserved, tree_id } => {
            assert(b.subrange(32, 36) =~= le32(reserved));
            crate::bytes::lemma_le32_round_trip(b, 32, reserved);
            assert(b.subrange(36, 40) =~= le32(tree_id));
            crate::bytes::lemma_le32_round_trip(b, 36, tree_id);
        },
        HeaderTail::Async { async_id } => {
            assert(b.subrange(32, 40) =~= le64(async_id));
            crate::bytes::lemma_le64_round_trip(b, 32, async_id);
        },
    }
    assert(b.subrange(40, 48) =~= le64(h.session_id));
    crate::bytes::lemma_le64_round_trip(b, 40, h.session_id);
    assert(b.subrange(48, 64) =~= h.signature@);
}

/// A byte sequence reads as one header only.
pub proof fn lemma_header_unique(b: Seq<u8>, g: Smb2Header, h: Smb2Header)
    requires
        reads_as(b, g),
        reads_as(b, h),
    ensures
        g == h,
{
    assert(g.signature@ =~= h.signature@);
    assert(g.signature == h.signature);
}

/// Where everything stands in a packet: the bytes `FE 53 4D 42`, the structure
/// size 64, then each field at its place, the least significant byte first.
/// Nothing else counts as a header.
pub proof fn lemma_header_layout(b: Seq<u8>, h: Smb2Header)
    ensures
        begins_with_header(b) <==> {
            &&& b.len() >= 64
            &&& b[0] == 0xFE
            &&& b[1] == 0x53
            &&& b[2] == 0x4D
            &&& b[3] == 0x42
            &&& b[4] == 64
            &&& b[5] == 0
            &&& b[12] <= 0x12
            &&& b[13] == 0
        },
        reads_as(b, h) ==> {
            &&& h.credit_charge == b[6] + 256 * b[7]
            &&& h.channel_sequence_status == b[8] + 0x100 * b[9] + 0x1_0000 * b[10] + 0x100_0000
                * b[11]
            &&& command_code(h.command) == b[12]
            &&& h.credit_request_response == b[14] + 256 * b[15]
            &&& h.flags == b[16] + 0x100 * b[17] + 0x1_0000 * b[18] + 0x100_0000 * b[19]
            &&& h.next_command == b[20] + 0x100 * b[21] + 0x1_0000 * b[22] + 0x100_0000 * b[23]
            &&& h.message_id == b[24] + 0x100 * b[25] + 0x1_0000 * b[26] + 0x100_0000 * b[27]
                + 0x1_0000_0000 * b[28] + 0x100_0000_0000 * b[29] + 0x1_0000_0000_0000 * b[30]
                + 0x100_0000_0000_0000 * b[31]
            &&& h.session_id == b[40] + 0x100 * b[41] + 0x1_0000 * b[42] + 0x100_0000 * b[43]
                + 0x1_0000_0000 * b[44] + 0x100_0000_0000 * b[45] + 0x1_0000_0000_0000 * b[46]
                + 0x100_0000_0000_0000 * b[47]
            &&& forall|k: int| 0 <= k < 16 ==> #[trigger] h.signature@[k] == b[48 + k]
        },
{
    if reads_as(b, h) {
        assert(h.signature@.len() == 16);
        assert forall|k: int| 0 <= k < 16 implies #[trigger] h.signature@[k] == b[48 + k] by {
            assert(b.subrange(48, 64)[k] == b[48 + k]);
        }
    }
}

/// A packet names a tree, at byte 36, exactly if its second flag bit is clear;
/// otherwise the eight bytes from 32 on are an async id, and it names none.
pub proof fn lemma_header_tail(b: Seq<u8>, h: Smb2Header)
    requires
        reads_as(b, h),
    ensures
        (b[16] as int / 2) % 2 == 0 ==> h.tail is Sync && tree_of(h) == Some(tree_or_zero(h))
            && tree_or_zero(h) == b[36] + 0x100 * b[37] + 0x1_0000 * b[38] + 0x100_0000 * b[39],
        (b[16] as int / 2) % 2 == 1 ==> h.tail is Async && tree_of(h) is None && tree_or_zero(h)
            == 0,
{
    let f = h.flags;
    let low = b[16] as u32;
    assert(f % 0x100 == low);
    assert((f & 2u32 != 0) <==> (f % 0x100 / 2) % 2 == 1) by (bit_vector);
}

/// The codes of the commands: 0 to 18 in the order of the protocol, and each has
/// its own.
pub proof fn lemma_command_codes(a: Command, b: Command)
    ensures
        command_code(a) <= 18,
        command_code(a) == command_code(b) <==> a == b,
        command_code(Command::Negotiate) == 0,
        command_code(Command::SessionSetup) == 1,
        command_code(Command::Logoff) == 2,
        command_code(Command::TreeConnect) == 3,
        command_code(Command::TreeDisconnect) == 4,
        command_code(Command::Create) == 5,
        command_code(Command::Close) == 6,
        command_code(Command::Flush) == 7,
        command_code(Command::Read) == 8,
        command_code(Command::Write) == 9,
        command_code(Command::Lock) == 10,
        command_code(Command::Ioctl) == 11,
        command_code(Command::Cancel) == 12,
        command_code(Command::Echo) == 13,
        command_code(Command::QueryDirectory) == 14,
        command_code(Command::ChangeNotify) == 15,
        command_code(Command::QueryInfo) == 16,
        command_code(Command::SetInfo) == 17,
        command_code(Command::OplockBreak) == 18,
{
}

/// A flag bit is set in a header exactly if its binary digit is 1.
pub proof fn lemma_flag_bits(h: Smb2Header)
    ensures
        has_flag(h, SMB2_FLAGS_SERVER_TO_REDIR) <==> h.flags as int % 2 == 1,
        has_flag(h, SMB2_FLAGS_ASYNC_COMMAND) <==> (h.flags as int / 2) % 2 == 1,
        has_flag(h, SMB2_FLAGS_RELATED_OPERATIONS) <==> (h.flags as int / 4) % 2 == 1,
        has_flag(h, SMB2_FLAGS_SIGNED) <==> (h.flags as int / 8) % 2 == 1,
{
    let f = h.flags;
    assert((f & 1u32 != 0) <==> f % 2 == 1) by (bit_vector);
    assert((f & 2u32 != 0) <==> (f / 2) % 2 == 1) by (bit_vector);
    assert((f & 4u32 != 0) <==> (f / 4) % 2 == 1) by (bit_vector);
    assert((f & 8u32 != 0) <==> (f / 8) % 2 == 1) by (bit_vector);
}

} // verus!
