//! Message parts that the handlers read and write.

use vstd::prelude::*;

use crate::bytes::{
    le16, le32, le64, le64_at, lemma_le64_round_trip, push_all, push_u16, push_u32, push_u64,
    push_zeros, zeros,
};
use crate::header::read_16;

verus! {

/// Identifies an open (MS-SMB2 §2.2.14.1).
#[derive(Debug, Clone, Copy, PartialEq, Eq, Structural)]
pub struct FileId {
    pub persistent: u64,
    pub volatile: u64,
}

/// The bytes of a FileId.
pub open spec fn file_id_bytes(id: FileId) -> Seq<u8> {
    le64(id.persistent) + le64(id.volatile)
}

impl FileId {
    /// The bytes of the FileId.
    pub fn to_bytes(&self) -> (r: [u8; 16])
        ensures
            r@ == file_id_bytes(*self),
    {
        let mut out: Vec<u8> = Vec::new();
        push_u64(&mut out, self.persistent);
        push_u64(&mut out, self.volatile);
        assert(out@ =~= file_id_bytes(*self));
        let r = read_16(out.as_slice(), 0);
        assert(r@ =~= file_id_bytes(*self));
        r
    }
}

/// What a share grants on a tree.
#[derive(Debug, Clone, Copy, PartialEq, Eq, Structural)]
pub enum Access {
    Read,
    ReadWrite,
}

impl Access {
    /// May the holder write?
    pub fn allows_write(self) -> (r: bool)
        ensures
            r == (self == Access::ReadWrite),
    {
        match self {
            Access::Read => false,
            Access::ReadWrite => true,
        }
    }
}

/// What an open does to a name that exists, and to one that does not.
#[derive(Debug, Clone, Copy, PartialEq, Eq, Structural)]
pub enum OpenIntent {
    /// Open an existing name.
    Open,
    /// Create a new name.
    Create,
    /// Open the name, and create it first where it is missing.
    OpenOrCreate,
    /// Empty an existing name.
    Truncate,
    /// Empty the name, and create it where it is missing.
    OverwriteOrCreate,
}

/// How a backend opens a name.
#[derive(Debug, Clone, Copy, PartialEq, Eq, Structural)]
pub struct OpenOptions {
    pub read: bool,
    pub write: bool,
    pub intent: OpenIntent,
    pub directory: bool,
    pub non_directory: bool,
    pub delete_on_close: bool,
}

/// What a backend knows of an open name.
#[derive(Debug)]
pub struct FileInfo {
    pub name: String,
    pub end_of_file: u64,
    pub allocation_size: u64,
    pub creation_time: u64,
    pub last_access_time: u64,
    pub last_write_time: u64,
    pub change_time: u64,
    pub is_directory: bool,
    pub file_index: u64,
    /// File attributes (MS-FSCC §2.6).
    pub attributes: u32,
}

/// One entry of a CREATE context chain.
#[derive(Debug)]
pub struct CreateContext {
    pub name: Vec<u8>,
    pub data: Vec<u8>,
}

/// `AAPL`
pub open spec fn aapl_name() -> Seq<u8> {
    seq![0x41u8, 0x41, 0x50, 0x4C]
}

impl CreateContext {
    /// The name of Apple's create context.
    pub const NAME_AAPL: [u8; 4] = [0x41, 0x41, 0x50, 0x4C];
}

/// The bytes of a chain that holds one context with a four-byte name (MS-SMB2
/// §2.2.13.2): no next context, the name behind the sixteen fixed bytes, the
/// data behind the name at the next multiple of 8.
pub open spec fn context_chain(name: Seq<u8>, data: Seq<u8>) -> Seq<u8> {
    le32(0) + le16(16) + le16(4) + le16(0) + le16(24) + le32(data.len() as u32) + name + zeros(4)
        + data
}

/// Encodes a chain that holds one context with a four-byte name.
pub(crate) fn encode_context(context: &CreateContext) -> (out: Vec<u8>)
    requires
        context.name@.len() == 4,
        context.data@.len() <= u32::MAX,
    ensures
        out@ == context_chain(context.name@, context.data@),
{
    let mut out: Vec<u8> = Vec::new();
    push_u32(&mut out, 0);
    push_u16(&mut out, 16);
    push_u16(&mut out, 4);
    push_u16(&mut out, 0);
    push_u16(&mut out, 24);
    push_u32(&mut out, context.data.len() as u32);
    push_all(&mut out, context.name.as_slice());
    push_zeros(&mut out, 4);
    push_all(&mut out, context.data.as_slice());
    assert(out@ =~= context_chain(context.name@, context.data@));
    out
}

/// The body of a QUERY_INFO or QUERY_DIRECTORY response that carries `buffer`
/// (MS-SMB2 §2.2.34, §2.2.38): the structure size 9, the buffer's place behind
/// the header and these eight bytes, its length, and the buffer.
pub open spec fn output_body(buffer: Seq<u8>) -> Seq<u8> {
    le16(9) + le16(72) + le32(buffer.len() as u32) + buffer
}

/// Encodes the body of a QUERY_INFO or QUERY_DIRECTORY response.
pub fn encode_output(buffer: &[u8]) -> (out: Vec<u8>)
    ensures
        out@ == output_body(buffer@),
{
    let mut out: Vec<u8> = Vec::new();
    push_u16(&mut out, 9);
    push_u16(&mut out, 72);
    push_u32(&mut out, buffer.len() as u32);
    push_all(&mut out, buffer);
    assert(out@ =~= output_body(buffer@));
    out
}

/// A FileId is sixteen bytes: the persistent part, then the volatile one, the
/// least significant byte of each first.
pub proof fn lemma_file_id_layout(id: FileId)
    ensures
        file_id_bytes(id).len() == 16,
        le64_at(file_id_bytes(id), 0) == id.persistent,
        le64_at(file_id_bytes(id), 8) == id.volatile,
{
    let b = file_id_bytes(id);
    assert(b.subrange(0, 8) =~= le64(id.persistent));
    assert(b.subrange(8, 16) =~= le64(id.volatile));
    lemma_le64_round_trip(b, 0, id.persistent);
    lemma_le64_round_trip(b, 8, id.volatile);
}

/// A chain of one context: nothing follows (bytes 0 to 3 are 0), the name lies
/// where bytes 4 and 5 say and is as long as bytes 6 and 7 say, the data lies where
/// bytes 10 and 11 say, behind the name and at a multiple of 8, and is as long as
/// bytes 12 to 15 say.
pub proof fn lemma_context_layout(name: Seq<u8>, data: Seq<u8>)
    requires
        name.len() == 4,
        data.len() <= u32::MAX,
    ensures
        ({
            let c = context_chain(name, data);
            let name_at = c[4] + 256 * c[5];
            let data_at = c[10] + 256 * c[11];
            &&& c[0] == 0 && c[1] == 0 && c[2] == 0 && c[3] == 0
            &&& c[6] + 256 * c[7] == name.len()
            &&& c[8] == 0 && c[9] == 0
            &&& c.subrange(name_at, name_at + name.len()) == name
            &&& data_at % 8 == 0 && data_at >= name_at + name.len()
            &&& c[12] + 0x100 * c[13] + 0x1_0000 * c[14] + 0x100_0000 * c[15] == data.len()
            &&& c.len() == data_at + data.len()
            &&& c.skip(data_at) == data
        }),
{
    let c = context_chain(name, data);
    assert(c.subrange(16, 20) =~= name);
    assert(c.skip(24) =~= data);
    let n = data.len() as u32;
    assert(c[12] == le32(n)[0] && c[13] == le32(n)[1] && c[14] == le32(n)[2] && c[15] == le32(n)[3]);
}

/// The body of a QUERY response: the structure size 9, the place 72 of the buffer
/// behind the 64 bytes of the header and the 8 of the body, its length, and the
/// buffer.
pub proof fn lemma_output_layout(buffer: Seq<u8>)
    requires
        buffer.len() <= u32::MAX,
    ensures
        ({
            let b = output_body(buffer);
            &&& b.len() == 8 + buffer.len()
            &&& b[0] == 9 && b[1] == 0 && b[2] == 72 && b[3] == 0
            &&& b[4] + 0x100 * b[5] + 0x1_0000 * b[6] + 0x100_0000 * b[7] == buffer.len()
            &&& b.skip(8) == buffer
        }),
{
    let b = output_body(buffer);
    let n = buffer.len() as u32;
    assert(b.skip(8) =~= buffer);
    assert(b[4] == le32(n)[0] && b[5] == le32(n)[1] && b[6] == le32(n)[2] && b[7] == le32(n)[3]);
}

} // verus!
