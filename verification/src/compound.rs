//! Compound frames: several operations in one request, several responses in
//! one reply (MS-SMB2 §3.3.5.2.7).

use vstd::prelude::*;

use crate::bytes::{
    align8, align_8, copy_range, le16_at, le32, le32_at, le64, le64_at, lemma_align8,
    lemma_le32_round_trip, lemma_le64_round_trip, overwrite, pad8, push_all, push_u32, push_u64,
    push_zeros, read_u32, read_u64, splice,
};
use crate::header::{
    begins_with_header, command_code, has_flag, lemma_command_codes, lemma_flag_bits,
    lemma_header_layout, read_16, reads_as, tree_or_zero, Command, HeaderTail,
    Smb2Header, SMB2_FLAGS_RELATED_OPERATIONS, SMB2_FLAGS_SIGNED, SMB2_HEADER_LEN,
};
use crate::ntstatus::STATUS_SUCCESS;

verus! {

/// Where the FileId of a request stands in its body, for the commands that
/// carry one.
pub open spec fn file_id_offset(c: Command) -> Option<usize> {
    match c {
        Command::Close | Command::Flush | Command::Lock | Command::Ioctl | Command::QueryDirectory
        | Command::ChangeNotify | Command::OplockBreak => Some(8),
        Command::Read | Command::Write | Command::SetInfo => Some(16),
        Command::QueryInfo => Some(24),
        _ => None,
    }
}

/// Where the FileId of a request stands in its body, for the commands that
/// carry one.
pub fn file_id_body_offset(command: Command) -> (r: Option<usize>)
    ensures
        r == file_id_offset(command),
{
    match command {
        Command::Close | Command::Flush | Command::Lock | Command::Ioctl | Command::QueryDirectory
        | Command::ChangeNotify | Command::OplockBreak => Some(8),
        Command::Read | Command::Write => Some(16),
        Command::QueryInfo => Some(24),
        Command::SetInfo => Some(16),
        _ => None,
    }
}

/// The bytes of an optional FileId.
pub open spec fn id_bytes(id: Option<[u8; 16]>) -> Option<Seq<u8>> {
    match id {
        Some(a) => Some(a@),
        None => None,
    }
}

/// The FileId that a CREATE response carries: the 16 bytes at offset 64 of its
/// body. A refused CREATE, or one too short to hold a FileId, carries none.
pub open spec fn created_file_id(response: Seq<u8>) -> Option<Seq<u8>> {
    if response.len() < 144 || le32_at(response, 8) != STATUS_SUCCESS {
        None
    } else {
        Some(response.subrange(128, 144))
    }
}

/// Takes the FileId out of a CREATE response.
pub fn capture_create_file_id(response: &[u8]) -> (r: Option<[u8; 16]>)
    ensures
        id_bytes(r) == created_file_id(response@),
{
    if response.len() < SMB2_HEADER_LEN + 80 || read_u32(response, 8) != STATUS_SUCCESS {
        return None;
    }
    Some(read_16(response, SMB2_HEADER_LEN + 64))
}

/// `s` with the session id `sid` in the place of the wildcard session id.
pub open spec fn with_session(s: Seq<u8>, sid: u64) -> Seq<u8> {
    if le64_at(s, 0x28) == u64::MAX {
        splice(s, 0x28, le64(sid))
    } else {
        s
    }
}

/// `s` with the tree id `tid` in the place of the wildcard tree id.
pub open spec fn with_tree(s: Seq<u8>, tid: u32) -> Seq<u8> {
    if le32_at(s, 0x24) == u32::MAX {
        splice(s, 0x24, le32(tid))
    } else {
        s
    }
}

/// `s` with the FileId `id` in the place of a wildcard FileId in the body of
/// command `c`.
pub open spec fn with_file_id(s: Seq<u8>, c: Command, id: Option<Seq<u8>>) -> Seq<u8> {
    match (id, file_id_offset(c)) {
        (Some(id), Some(o)) => if 64 + o + 16 <= s.len() && le64_at(s, 64 + o) == u64::MAX
            && le64_at(s, 64 + o + 8) == u64::MAX {
            splice(s, 64 + o, id)
        } else {
            s
        },
        _ => s,
    }
}

/// A related operation's bytes with what it inherits from the one before it.
pub open spec fn related_frame(
    s: Seq<u8>,
    c: Command,
    sid: u64,
    tid: u32,
    id: Option<Seq<u8>>,
) -> Seq<u8> {
    with_file_id(with_tree(with_session(s, sid), tid), c, id)
}

/// A related operation's header with what it inherits from the one before it.
pub open spec fn related_header(s: Seq<u8>, h: Smb2Header, sid: u64, tid: u32) -> Smb2Header {
    Smb2Header {
        session_id: if le64_at(s, 0x28) == u64::MAX {
            sid
        } else {
            h.session_id
        },
        tail: if le32_at(s, 0x24) == u32::MAX {
            match h.tail {
                HeaderTail::Sync { reserved, .. } => HeaderTail::Sync { reserved, tree_id: tid },
                HeaderTail::Async { async_id } => HeaderTail::Async { async_id },
            }
        } else {
            h.tail
        },
        ..h
    }
}

/// Fills the wildcards of a related operation: the session and tree ids of the
/// operation before it, and the FileId of the last CREATE.
pub fn inherit_related_context(
    sub_frame: &mut [u8],
    req_hdr: &mut Smb2Header,
    prev_session_id: u64,
    prev_tree_id: u32,
    prev_create_file_id: Option<[u8; 16]>,
)
    requires
        old(sub_frame)@.len() >= 0x30,
    ensures
        final(sub_frame)@ == related_frame(
            old(sub_frame)@,
            old(req_hdr).command,
            prev_session_id,
            prev_tree_id,
            id_bytes(prev_create_file_id),
        ),
        *final(req_hdr) == related_header(
            old(sub_frame)@,
            *old(req_hdr),
            prev_session_id,
            prev_tree_id,
        ),
{
    let ghost s0 = sub_frame@;
    if read_u64(sub_frame, 0x28) == u64::MAX {
        let mut id: Vec<u8> = Vec::new();
        push_u64(&mut id, prev_session_id);
        assert(id@ =~= le64(prev_session_id));
        overwrite(sub_frame, 0x28, id.as_slice());
        req_hdr.session_id = prev_session_id;
    }
    let ghost s1 = sub_frame@;
    assert(s1 == with_session(s0, prev_session_id));
    assert(le32_at(s1, 0x24) == le32_at(s0, 0x24));
    if read_u32(sub_frame, 0x24) == u32::MAX {
        let mut id: Vec<u8> = Vec::new();
        push_u32(&mut id, prev_tree_id);
        assert(id@ =~= le32(prev_tree_id));
        overwrite(sub_frame, 0x24, id.as_slice());
        if let HeaderTail::Sync { reserved, .. } = req_hdr.tail {
            req_hdr.tail = HeaderTail::Sync { reserved, tree_id: prev_tree_id };
        }
    }
    let ghost s2 = sub_frame@;
    assert(s2 == with_tree(s1, prev_tree_id));

    let file_id = match prev_create_file_id {
        Some(id) => id,
        None => return ,
    };
    let body_offset = match file_id_body_offset(req_hdr.command) {
        Some(o) => o,
        None => return ,
    };
    let offset: usize = SMB2_HEADER_LEN + body_offset;
    if offset + 16 <= sub_frame.len() && read_u64(sub_frame, offset) == u64::MAX && read_u64(
        sub_frame,
        offset + 8,
    ) == u64::MAX {
        overwrite(sub_frame, offset, file_id.as_slice());
    }
}

// ---------------------------------------------------------------------------
// Walking a compound request
// ---------------------------------------------------------------------------

/// The length of the operation at `at` in a compound frame: up to where its
/// NextCommand points, or to the end of the frame where that is 0. `None` where
/// no header stands there, or NextCommand points into the header or past the
/// end.
pub open spec fn operation_len(frame: Seq<u8>, at: int) -> Option<int> {
    let next = le32_at(frame, at + 20) as int;
    if !begins_with_header(frame.skip(at)) {
        None
    } else if next == 0 {
        Some(frame.len() - at)
    } else if next < 64 || next > frame.len() - at {
        None
    } else {
        Some(next)
    }
}

/// Where a walk through a compound frame stands, and what a related operation
/// inherits there.
#[derive(Debug, Clone, Copy)]
pub struct ChainState {
    /// Where the next operation begins.
    pub offset: usize,
    /// The session of the operation before.
    pub prev_session_id: u64,
    /// The tree of the operation before.
    pub prev_tree_id: u32,
    /// The FileId that the last answered CREATE returned, if it succeeded.
    pub prev_create_file_id: Option<[u8; 16]>,
    /// The index of the next operation in the chain.
    pub ordinal: u32,
    /// The last operation has been handed out.
    pub done: bool,
}

/// One operation of a compound frame.
#[derive(Debug)]
pub struct Operation {
    /// The operation's bytes, with what a related operation inherits filled in.
    pub frame: Vec<u8>,
    /// The operation's header, with what a related operation inherits filled in.
    pub header: Smb2Header,
    /// The distance to the next operation; 0 on the last one.
    pub next: usize,
}

/// What a walk through a compound frame does next.
#[derive(Debug)]
pub enum ChainStep {
    /// The frame is malformed from here on: nothing of it is answered.
    Drop,
    /// Every operation has been handed out.
    Finished,
    /// Dispatch this operation.
    Dispatch(Operation),
}

/// The walk is over.
pub open spec fn chain_finished(frame: Seq<u8>, st: ChainState) -> bool {
    st.done || st.offset >= frame.len()
}

/// `op` is the operation that stands where the walk does: its own bytes where
/// it is unrelated, and those with the inherited ids where it is related.
pub open spec fn operation_at(frame: Seq<u8>, st: ChainState, op: Operation) -> bool {
    &&& operation_len(frame, st.offset as int) is Some
    &&& op.next == le32_at(frame, st.offset + 20)
    &&& exists|h: Smb2Header| #[trigger]
        reads_as(frame.skip(st.offset as int), h) && {
            let raw = frame.subrange(
                st.offset as int,
                st.offset + operation_len(frame, st.offset as int)->0,
            );
            if has_flag(h, SMB2_FLAGS_RELATED_OPERATIONS) {
                &&& op.frame@ == related_frame(
                    raw,
                    h.command,
                    st.prev_session_id,
                    st.prev_tree_id,
                    id_bytes(st.prev_create_file_id),
                )
                &&& op.header == related_header(raw, h, st.prev_session_id, st.prev_tree_id)
            } else {
                &&& op.frame@ == raw
                &&& op.header == h
            }
        }
}

/// The walk stands at the start of a frame.
pub open spec fn chain_start(st: ChainState) -> bool {
    &&& st.offset == 0
    &&& st.prev_session_id == 0
    &&& st.prev_tree_id == 0
    &&& st.prev_create_file_id is None
    &&& st.ordinal == 0
    &&& !st.done
}

/// Where the walk stands after `op` got the response `answer`.
pub open spec fn chain_advanced(
    st: ChainState,
    op: Operation,
    answer: Option<Seq<u8>>,
    after: ChainState,
) -> bool {
    &&& after.offset == st.offset + op.next
    &&& after.prev_session_id == op.header.session_id
    &&& after.prev_tree_id == tree_or_zero(op.header)
    &&& id_bytes(after.prev_create_file_id) == match answer {
        Some(response) if op.header.command == Command::Create => created_file_id(response),
        _ => id_bytes(st.prev_create_file_id),
    }
    &&& after.ordinal == if st.ordinal == u32::MAX {
        u32::MAX as int
    } else {
        st.ordinal + 1
    }
    &&& after.done == (op.next == 0)
}

impl ChainState {
    /// The start of a frame.
    pub fn start() -> (st: ChainState)
        ensures
            chain_start(st),
    {
        ChainState {
            offset: 0,
            prev_session_id: 0,
            prev_tree_id: 0,
            prev_create_file_id: None,
            ordinal: 0,
            done: false,
        }
    }

    /// Takes the next operation out of `frame`.
    pub fn next_operation(&self, frame: &[u8]) -> (step: ChainStep)
        ensures
            match step {
                ChainStep::Finished => chain_finished(frame@, *self),
                ChainStep::Drop => !chain_finished(frame@, *self) && operation_len(
                    frame@,
                    self.offset as int,
                ) is None,
                ChainStep::Dispatch(op) => !chain_finished(frame@, *self) && operation_at(
                    frame@,
                    *self,
                    op,
                ),
            },
    {
        if self.done || self.offset >= frame.len() {
            return ChainStep::Finished;
        }
        let available = copy_range(frame, self.offset, frame.len());
        let ghost rest = frame@.skip(self.offset as int);
        assert(available@ =~= rest);
        let mut header = match Smb2Header::parse(available.as_slice()) {
            Some(h) => h,
            None => return ChainStep::Drop,
        };
        let ghost h = header;
        assert(le32_at(rest, 20) == le32_at(frame@, self.offset + 20));
        let next: usize = header.next_command as usize;
        let len: usize = if next == 0 {
            available.len()
        } else if next < SMB2_HEADER_LEN || next > available.len() {
            return ChainStep::Drop;
        } else {
            next
        };
        let mut sub_frame = copy_range(available.as_slice(), 0, len);
        let ghost raw = sub_frame@;
        assert(raw =~= frame@.subrange(self.offset as int, self.offset + len));
        if header.flags & SMB2_FLAGS_RELATED_OPERATIONS != 0 {
            inherit_related_context(
                sub_frame.as_mut_slice(),
                &mut header,
                self.prev_session_id,
                self.prev_tree_id,
                self.prev_create_file_id,
            );
        }
        assert(reads_as(rest, h));
        ChainStep::Dispatch(Operation { frame: sub_frame, header, next })
    }

    /// Moves on from `op`, which got the response `answer`.
    pub fn advance(self, op: &Operation, answer: Option<&[u8]>) -> (after: ChainState)
        requires
            self.offset + op.next <= usize::MAX,
        ensures
            chain_advanced(
                self,
                *op,
                match answer {
                    Some(response) => Some(response@),
                    None => None,
                },
                after,
            ),
    {
        let prev_create_file_id = match answer {
            Some(response) => if op.header.command == Command::Create {
                capture_create_file_id(response)
            } else {
                self.prev_create_file_id
            },
            None => self.prev_create_file_id,
        };
        let prev_tree_id: u32 = match op.header.tree_id() {
            Some(t) => t,
            None => 0,
        };
        ChainState {
            offset: self.offset + op.next,
            prev_session_id: op.header.session_id,
            prev_tree_id,
            prev_create_file_id,
            ordinal: self.ordinal.saturating_add(1),
            done: op.next == 0,
        }
    }
}

/// A walk through `frame` from its start: in each state the operation that
/// stands there was handed out, got its answer, and led to the next state.
pub open spec fn chain_run(
    frame: Seq<u8>,
    states: Seq<ChainState>,
    ops: Seq<Operation>,
    answers: Seq<Option<Seq<u8>>>,
) -> bool {
    &&& states.len() == ops.len() + 1
    &&& answers.len() == ops.len()
    &&& chain_start(states[0])
    &&& forall|i: int|
        0 <= i < ops.len() ==> {
            &&& !chain_finished(frame, states[i])
            &&& operation_at(frame, states[i], #[trigger] ops[i])
            &&& chain_advanced(states[i], ops[i], answers[i], states[i + 1])
        }
}

/// The number of bytes that the first `n` operations take up.
pub open spec fn bytes_before(ops: Seq<Operation>, n: int) -> int
    decreases n,
{
    if n <= 0 {
        0
    } else {
        bytes_before(ops, n - 1) + ops[n - 1].frame@.len()
    }
}

/// The operations of a frame are numbered 0, 1, 2, ... in their order: no two
/// of the first 2^32 share an ordinal.
pub proof fn lemma_chain_ordinals(
    frame: Seq<u8>,
    states: Seq<ChainState>,
    ops: Seq<Operation>,
    answers: Seq<Option<Seq<u8>>>,
    i: int,
)
    requires
        chain_run(frame, states, ops, answers),
        0 <= i <= ops.len(),
    ensures
        states[i].ordinal == if i <= u32::MAX {
            i
        } else {
            u32::MAX as int
        },
    decreases i,
{
    if i > 0 {
        lemma_chain_ordinals(frame, states, ops, answers, i - 1);
        assert(chain_advanced(states[i - 1], ops[i - 1], answers[i - 1], states[i]));
    }
}

/// Filling in inherited ids leaves the length of an operation as it was.
pub proof fn lemma_related_len(s: Seq<u8>, c: Command, sid: u64, tid: u32, id: Option<[u8; 16]>)
    requires
        s.len() >= 0x30,
    ensures
        related_frame(s, c, sid, tid, id_bytes(id)).len() == s.len(),
{
}

/// The operations of a frame lie one behind the other from its start, with
/// nothing between them, and a finished walk has reached its end.
#[verifier::rlimit(50)]
pub proof fn lemma_chain_tiles(
    frame: Seq<u8>,
    states: Seq<ChainState>,
    ops: Seq<Operation>,
    answers: Seq<Option<Seq<u8>>>,
    i: int,
)
    requires
        chain_run(frame, states, ops, answers),
        0 <= i <= ops.len(),
    ensures
        !states[i].done ==> states[i].offset == bytes_before(ops, i) <= frame.len(),
        states[i].done ==> bytes_before(ops, i) == frame.len(),
        chain_finished(frame, states[i]) ==> bytes_before(ops, i) == frame.len(),
    decreases i,
{
    if i > 0 {
        let st = states[i - 1];
        let op = ops[i - 1];
        lemma_chain_tiles(frame, states, ops, answers, i - 1);
        assert(operation_at(frame, st, op));
        assert(chain_advanced(st, op, answers[i - 1], states[i]));
        let len = operation_len(frame, st.offset as int)->0;
        let raw = frame.subrange(st.offset as int, st.offset + len);
        let h = choose|h: Smb2Header| #[trigger]
            reads_as(frame.skip(st.offset as int), h) && {
                if has_flag(h, SMB2_FLAGS_RELATED_OPERATIONS) {
                    &&& op.frame@ == related_frame(
                        raw,
                        h.command,
                        st.prev_session_id,
                        st.prev_tree_id,
                        id_bytes(st.prev_create_file_id),
                    )
                    &&& op.header == related_header(raw, h, st.prev_session_id, st.prev_tree_id)
                } else {
                    &&& op.frame@ == raw
                    &&& op.header == h
                }
            };
        lemma_related_len(
            raw,
            h.command,
            st.prev_session_id,
            st.prev_tree_id,
            st.prev_create_file_id,
        );
        assert(op.frame@.len() == len);
    }
}

/// A related operation on a tree still reads as its header once the inherited
/// ids are filled in, so the bytes and the header that are handed out agree.
#[verifier::rlimit(60)]
pub proof fn lemma_related_reads(
    s: Seq<u8>,
    h: Smb2Header,
    sid: u64,
    tid: u32,
    id: Option<[u8; 16]>,
)
    requires
        reads_as(s, h),
        h.tail is Sync,
    ensures
        reads_as(
            related_frame(s, h.command, sid, tid, id_bytes(id)),
            related_header(s, h, sid, tid),
        ),
{
    let s1 = with_session(s, sid);
    let s2 = with_tree(s1, tid);
    let s3 = with_file_id(s2, h.command, id_bytes(id));
    if le64_at(s, 0x28) == u64::MAX {
        assert(s1.subrange(0x28, 0x30) =~= le64(sid));
        lemma_le64_round_trip(s1, 0x28, sid);
    }
    if le32_at(s1, 0x24) == u32::MAX {
        assert(s2.subrange(0x24, 0x28) =~= le32(tid));
        lemma_le32_round_trip(s2, 0x24, tid);
    }
    assert(s3.subrange(48, 64) =~= s.subrange(48, 64));
}

// ---------------------------------------------------------------------------
// Stitching responses
// ---------------------------------------------------------------------------

/// A response that another one follows: its NextCommand is its own length
/// rounded up to a multiple of 8, and zero bytes fill it up to there.
pub open spec fn link(r: Seq<u8>) -> Seq<u8> {
    pad8(linked(r))
}

/// A response with its NextCommand set.
pub open spec fn linked(r: Seq<u8>) -> Seq<u8> {
    splice(r, 0x14, le32(align8(r.len() as int) as u32))
}

/// Linked responses, one behind the other.
pub open spec fn links(rs: Seq<Seq<u8>>) -> Seq<u8>
    decreases rs.len(),
{
    if rs.len() == 0 {
        seq![]
    } else {
        links(rs.drop_last()) + link(rs.last())
    }
}

/// The reply that carries the responses `rs`: all but the last one linked.
pub open spec fn stitched(rs: Seq<Seq<u8>>) -> Seq<u8> {
    if rs.len() == 0 {
        seq![]
    } else {
        links(rs.drop_last()) + rs.last()
    }
}

/// Where response `i` begins in the reply.
pub open spec fn start_of(rs: Seq<Seq<u8>>, i: int) -> int {
    links(rs.take(i)).len() as int
}

/// The contents of byte vectors.
pub open spec fn contents(vs: Seq<Vec<u8>>) -> Seq<Seq<u8>> {
    Seq::new(vs.len(), |i: int| vs[i]@)
}

/// Every response but the last is long enough to hold a NextCommand.
pub open spec fn linkable(rs: Seq<Seq<u8>>) -> bool {
    forall|i: int| 0 <= i < rs.len() - 1 ==> (#[trigger] rs[i]).len() >= 0x18
}

proof fn lemma_links_step(rs: Seq<Seq<u8>>, i: int)
    requires
        0 <= i < rs.len(),
    ensures
        links(rs.take(i + 1)) == links(rs.take(i)) + link(rs[i]),
{
    assert(rs.take(i + 1).drop_last() =~= rs.take(i));
}

proof fn lemma_links_grow(rs: Seq<Seq<u8>>, i: int)
    requires
        0 <= i < rs.len(),
    ensures
        links(rs.take(i)).len() <= stitched(rs).len(),
        links(rs.take(i)) == stitched(rs).take(links(rs.take(i)).len() as int),
    decreases rs.len() - i,
{
    if i == rs.len() - 1 {
        assert(rs.take(i) =~= rs.drop_last());
        assert(stitched(rs).take(links(rs.take(i)).len() as int) =~= links(rs.take(i)));
    } else {
        lemma_links_grow(rs, i + 1);
        lemma_links_step(rs, i);
        assert(stitched(rs).take(links(rs.take(i)).len() as int) =~= links(rs.take(i)));
    }
}

/// A reply, and where each response lies in it.
#[derive(Debug)]
pub struct Stitched {
    pub bytes: Vec<u8>,
    /// Start and length of each response.
    pub ranges: Vec<(usize, usize)>,
}

/// Puts responses together into one reply; `None` where there are none.
#[verifier::rlimit(50)]
pub fn stitch(responses: &Vec<Vec<u8>>) -> (r: Option<Stitched>)
    requires
        linkable(contents(responses@)),
        stitched(contents(responses@)).len() <= usize::MAX,
    ensures
        r is None <==> responses@.len() == 0,
        r matches Some(s) ==> {
            &&& s.bytes@ == stitched(contents(responses@))
            &&& s.ranges@.len() == responses@.len()
            &&& forall|i: int|
                0 <= i < s.ranges@.len() ==> (#[trigger] s.ranges@[i]).0 == start_of(
                    contents(responses@),
                    i,
                ) && s.ranges@[i].1 == responses@[i]@.len()
        },
{
    let count: usize = responses.len();
    if count == 0 {
        return None;
    }
    let ghost rs = contents(responses@);
    let mut out: Vec<u8> = Vec::new();
    let mut ranges: Vec<(usize, usize)> = Vec::new();
    let mut index: usize = 0;
    assert(rs.take(0) =~= seq![]);
    while index + 1 < count
        invariant
            count == responses@.len(),
            rs == contents(responses@),
            linkable(rs),
            stitched(rs).len() <= usize::MAX,
            index < count,
            out@ == links(rs.take(index as int)),
            ranges@.len() == index,
            forall|i: int|
                0 <= i < index ==> (#[trigger] ranges@[i]).0 == start_of(rs, i) && ranges@[i].1
                    == responses@[i]@.len(),
        decreases count - index,
    {
        let start: usize = out.len();
        let actual_len: usize = responses[index].len();
        let ghost r = rs[index as int];
        let ghost before = out@;
        proof {
            lemma_links_step(rs, index as int);
            lemma_links_grow(rs, index + 1);
            lemma_align8(actual_len as int);
            assert(start + align8(actual_len as int) <= usize::MAX);
            assert(rs[index as int].len() >= 0x18);
        }
        let next: usize = align_8(actual_len);
        push_all(&mut out, responses[index].as_slice());
        let mut next_bytes: Vec<u8> = Vec::new();
        push_u32(&mut next_bytes, next as u32);
        assert(next_bytes@ =~= le32(next as u32));
        overwrite(out.as_mut_slice(), start + 0x14, next_bytes.as_slice());
        assert(out@ =~= before + linked(r));
        push_zeros(&mut out, next - actual_len);
        assert(out@ =~= before + link(r));
        ranges.push((start, actual_len));
        index += 1;
    }
    let start: usize = out.len();
    push_all(&mut out, responses[index].as_slice());
    ranges.push((start, responses[index].len()));
    assert(rs.take(index as int) =~= rs.drop_last());
    Some(Stitched { bytes: out, ranges })
}

/// The session whose key signs the response at `start`; `None` where that
/// response is not signed.
pub open spec fn signer_at(reply: Seq<u8>, start: int) -> Option<u64> {
    if le32_at(reply, start + 0x10) & SMB2_FLAGS_SIGNED != 0 {
        Some(le64_at(reply, start + 0x28))
    } else {
        None
    }
}

/// The session whose key signs the response at `start` of a stitched reply;
/// `None` where that response is not signed. Linking and padding a response
/// changes its bytes, so a signed one is signed again where it lies.
pub fn signed_by(reply: &[u8], start: usize) -> (r: Option<u64>)
    requires
        start + 0x14 <= reply@.len(),
        signer_at(reply@, start as int) is Some ==> start + 0x30 <= reply@.len(),
    ensures
        r == signer_at(reply@, start as int),
{
    assert(start + 0x14 <= reply.len());
    if read_u32(reply, start + 0x10) & SMB2_FLAGS_SIGNED == 0 {
        return None;
    }
    Some(read_u64(reply, start + 0x28))
}

/// Each response lies in the reply as it was, at a multiple of 8, with nothing
/// but its NextCommand changed; the next one begins where it ends, rounded up to
/// a multiple of 8.
pub proof fn lemma_stitched_response(rs: Seq<Seq<u8>>, i: int)
    requires
        linkable(rs),
        0 <= i < rs.len(),
    ensures
        start_of(rs, 0) == 0,
        start_of(rs, i) % 8 == 0,
        start_of(rs, i) + rs[i].len() <= stitched(rs).len(),
        stitched(rs).subrange(start_of(rs, i), start_of(rs, i) + rs[i].len()) == if i + 1
            < rs.len() {
            linked(rs[i])
        } else {
            rs[i]
        },
        i + 1 < rs.len() ==> start_of(rs, i + 1) == start_of(rs, i) + align8(rs[i].len() as int),
        i + 1 == rs.len() ==> stitched(rs).len() == start_of(rs, i) + rs[i].len(),
{
    let front = links(rs.take(i));
    assert(rs.take(0) =~= seq![]);
    lemma_start_aligned(rs, i);
    lemma_align8(rs[i].len() as int);
    if i + 1 < rs.len() {
        lemma_links_step(rs, i);
        lemma_links_grow(rs, i + 1);
        lemma_link_inside(front, rs[i], stitched(rs));
    } else {
        assert(rs.take(i) =~= rs.drop_last());
        let at = front.len() as int;
        assert(stitched(rs).subrange(at, at + rs[i].len()) =~= rs[i]);
    }
}

proof fn lemma_start_aligned(rs: Seq<Seq<u8>>, i: int)
    requires
        linkable(rs),
        0 <= i < rs.len(),
    ensures
        start_of(rs, i) % 8 == 0,
    decreases i,
{
    if i > 0 {
        lemma_start_aligned(rs, i - 1);
        lemma_links_step(rs, i - 1);
        lemma_align8(rs[i - 1].len() as int);
        assert(link(rs[i - 1]).len() == align8(rs[i - 1].len() as int));
    } else {
        assert(rs.take(0) =~= seq![]);
    }
}

proof fn lemma_link_inside(front: Seq<u8>, r: Seq<u8>, s: Seq<u8>)
    requires
        r.len() >= 0x18,
        front.len() + link(r).len() <= s.len(),
        s.take((front + link(r)).len() as int) == front + link(r),
    ensures
        link(r).len() == align8(r.len() as int),
        s.subrange(front.len() as int, (front.len() + r.len()) as int) == linked(r),
{
    let at = front.len() as int;
    let whole = front + link(r);
    lemma_align8(r.len() as int);
    assert(linked(r).len() == r.len());
    assert(s.subrange(at, at + r.len()) =~= whole.subrange(at, at + r.len()));
    assert(whole.subrange(at, at + r.len()) =~= linked(r));
}

/// A reply is itself a compound frame: where each response begins with a header
/// and the last one's NextCommand is 0, walking the NextCommands from the start
/// meets exactly the responses, in their order.
#[verifier::rlimit(50)]
pub proof fn lemma_stitched_walk(rs: Seq<Seq<u8>>, i: int)
    requires
        0 <= i < rs.len(),
        forall|k: int| 0 <= k < rs.len() ==> begins_with_header(#[trigger] rs[k]),
        forall|k: int| 0 <= k < rs.len() ==> align8((#[trigger] rs[k]).len() as int) <= u32::MAX,
        le32_at(rs.last(), 20) == 0,
    ensures
        operation_len(stitched(rs), start_of(rs, i)) == Some(
            if i + 1 < rs.len() {
                start_of(rs, i + 1) - start_of(rs, i)
            } else {
                rs[i].len() as int
            },
        ),
        le32_at(stitched(rs), start_of(rs, i) + 20) == if i + 1 < rs.len() {
            start_of(rs, i + 1) - start_of(rs, i)
        } else {
            0
        },
{
    let s = stitched(rs);
    let at = start_of(rs, i);
    assert(linkable(rs));
    lemma_stitched_response(rs, i);
    lemma_align8(rs[i].len() as int);
    let part = s.subrange(at, at + rs[i].len());
    assert forall|k: int| 0 <= k < rs[i].len() implies s.skip(at)[k] == part[k] && s[at + k]
        == part[k] by {}
    assert(le16_at(s.skip(at), 4) == le16_at(rs[i], 4));
    assert(le16_at(s.skip(at), 12) == le16_at(rs[i], 12));
    assert(begins_with_header(s.skip(at)));
    if i + 1 < rs.len() {
        lemma_stitched_response(rs, i + 1);
        let next = align8(rs[i].len() as int) as u32;
        assert(part.subrange(20, 24) =~= le32(next));
        lemma_le32_round_trip(part, 20, next);
        assert(le32_at(s, at + 20) == le32_at(part, 20));
    } else {
        assert(le32_at(s, at + 20) == le32_at(rs[i], 20));
    }
}

/// Stitching keeps who signs each response.
pub proof fn lemma_stitched_signer(rs: Seq<Seq<u8>>, i: int)
    requires
        linkable(rs),
        0 <= i < rs.len(),
        rs[i].len() >= 64,
    ensures
        signer_at(stitched(rs), start_of(rs, i)) == signer_at(rs[i], 0),
{
    lemma_stitched_response(rs, i);
    let r = rs[i];
    let part = if i + 1 < rs.len() {
        linked(r)
    } else {
        r
    };
    assert forall|k: int| 0 <= k < r.len() && !(0x14 <= k < 0x18) implies part[k] == r[k] by {}
    lemma_signer_here(stitched(rs), start_of(rs, i), r, part);
}

proof fn lemma_signer_here(s: Seq<u8>, at: int, r: Seq<u8>, part: Seq<u8>)
    requires
        0 <= at,
        at + r.len() <= s.len(),
        r.len() >= 64,
        part.len() == r.len(),
        s.subrange(at, at + r.len()) == part,
        forall|k: int| 0 <= k < r.len() && !(0x14 <= k < 0x18) ==> #[trigger] part[k] == r[k],
    ensures
        signer_at(s, at) == signer_at(r, 0),
{
    assert forall|k: int| 0 <= k < r.len() && !(0x14 <= k < 0x18) implies s[at + k] == r[k] by {
        assert(s.subrange(at, at + r.len())[k] == s[at + k]);
        assert(part[k] == r[k]);
    }
    assert(s[at + 0x10] == r[0x10] && s[at + 0x11] == r[0x11] && s[at + 0x12] == r[0x12] && s[at
        + 0x13] == r[0x13]);
    assert(le32_at(s, at + 0x10) == le32_at(r, 0x10));
    assert(le32_at(s, at + 0x28) == le32_at(r, 0x28));
    assert(le32_at(s, at + 0x2C) == le32_at(r, 0x2C));
}

/// An operation that is handed out, byte by byte. An unrelated one is a stretch
/// of the frame. A related one is too, but for the three places that hold ids:
/// bytes 40 to 47 are the session of the operation before where they were all
/// `FF`, bytes 36 to 39 the tree of the operation before where they were, and
/// nothing outside these and the body has changed.
#[verifier::rlimit(50)]
pub proof fn lemma_operation_bytes(frame: Seq<u8>, st: ChainState, op: Operation)
    requires
        !chain_finished(frame, st),
        operation_at(frame, st, op),
    ensures
        ({
            let at = st.offset as int;
            let related = (frame[at + 16] as int / 4) % 2 == 1;
            let wild = |from: int, to: int|
                forall|k: int| from <= k < to ==> #[trigger] frame[at + k] == 0xFF;
            &&& 64 <= op.frame@.len() <= frame.len() - at
            &&& op.next == 0 ==> op.frame@.len() == frame.len() - at
            &&& op.next != 0 ==> op.frame@.len() == op.next
            &&& !related ==> forall|k: int|
                0 <= k < op.frame@.len() ==> #[trigger] op.frame@[k] == frame[at + k]
            &&& forall|k: int|
                0 <= k < 64 && !(36 <= k < 48) ==> #[trigger] op.frame@[k] == frame[at + k]
            &&& related && wild(40, 48) ==> le64_at(op.frame@, 40) == st.prev_session_id
            &&& !wild(40, 48) ==> forall|k: int|
                40 <= k < 48 ==> #[trigger] op.frame@[k] == frame[at + k]
            &&& related && wild(36, 40) ==> le32_at(op.frame@, 36) == st.prev_tree_id
            &&& !wild(36, 40) ==> forall|k: int|
                36 <= k < 40 ==> #[trigger] op.frame@[k] == frame[at + k]
        }),
{
    let at = st.offset as int;
    let len = operation_len(frame, at)->0;
    let raw = frame.subrange(at, at + len);
    let h = lemma_operation_header(frame, st, op);
    lemma_related_flag(frame, at, h);
    assert forall|k: int| 0 <= k < len implies raw[k] == #[trigger] frame[at + k] by {}
    if has_flag(h, SMB2_FLAGS_RELATED_OPERATIONS) {
        let out = op.frame@;
        lemma_related_bytes(
            raw,
            h.command,
            st.prev_session_id,
            st.prev_tree_id,
            st.prev_create_file_id,
        );
        lemma_wild_here(frame, at, raw, 40, 48);
        lemma_wild_here(frame, at, raw, 36, 40);
        assert forall|k: int| 0 <= k < 64 && out[k] == raw[k] implies #[trigger] out[k] == frame[at
            + k] by {
            assert(raw[k] == frame[at + k]);
        }
    } else {
        assert forall|k: int| 0 <= k < op.frame@.len() implies #[trigger] op.frame@[k] == frame[at
            + k] by {
            assert(raw[k] == frame[at + k]);
        }
    }
}

proof fn lemma_wild_here(frame: Seq<u8>, at: int, raw: Seq<u8>, from: int, to: int)
    requires
        0 <= from <= to <= raw.len(),
        forall|k: int| 0 <= k < raw.len() ==> raw[k] == #[trigger] frame[at + k],
    ensures
        (forall|k: int| from <= k < to ==> #[trigger] frame[at + k] == 0xFF) <==> (forall|k: int|
            from <= k < to ==> #[trigger] raw[k] == 0xFF),
{
    if forall|k: int| from <= k < to ==> #[trigger] frame[at + k] == 0xFF {
        assert forall|k: int| from <= k < to implies #[trigger] raw[k] == 0xFF by {
            assert(frame[at + k] == 0xFF);
        }
    }
}

/// What inheriting does to the header bytes of a related operation.
proof fn lemma_related_bytes(raw: Seq<u8>, c: Command, sid: u64, tid: u32, id: Option<[u8; 16]>)
    requires
        raw.len() >= 64,
    ensures
        ({
            let out = related_frame(raw, c, sid, tid, id_bytes(id));
            let wild = |from: int, to: int|
                forall|k: int| from <= k < to ==> #[trigger] raw[k] == 0xFF;
            &&& out.len() == raw.len()
            &&& forall|k: int| 0 <= k < 64 && !(36 <= k < 48) ==> #[trigger] out[k] == raw[k]
            &&& wild(40, 48) ==> le64_at(out, 40) == sid
            &&& !wild(40, 48) ==> forall|k: int| 40 <= k < 48 ==> #[trigger] out[k] == raw[k]
            &&& wild(36, 40) ==> le32_at(out, 36) == tid
            &&& !wild(36, 40) ==> forall|k: int| 36 <= k < 40 ==> #[trigger] out[k] == raw[k]
        }),
{
    let s1 = with_session(raw, sid);
    let s2 = with_tree(s1, tid);
    let out = with_file_id(s2, c, id_bytes(id));
    lemma_with_session(raw, sid);
    lemma_with_tree(s1, tid);
    assert(out.len() == raw.len());
    assert forall|k: int| 0 <= k < 64 implies #[trigger] out[k] == s2[k] by {}
    assert(le64_at(out, 40) == le64_at(s2, 40));
    assert(le64_at(s2, 40) == le64_at(s1, 40));
    assert(le32_at(out, 36) == le32_at(s2, 36));
    assert forall|k: int| 36 <= k < 40 implies #[trigger] s1[k] == raw[k] by {}
}

proof fn lemma_with_session(s: Seq<u8>, sid: u64)
    requires
        s.len() >= 64,
    ensures
        ({
            let out = with_session(s, sid);
            let wild = forall|k: int| 40 <= k < 48 ==> #[trigger] s[k] == 0xFF;
            &&& out.len() == s.len()
            &&& forall|k: int| 0 <= k < s.len() && !(40 <= k < 48) ==> #[trigger] out[k] == s[k]
            &&& wild ==> le64_at(out, 40) == sid
            &&& !wild ==> out == s
        }),
{
    let out = with_session(s, sid);
    lemma_all_ones(s);
    if le64_at(s, 40) == u64::MAX {
        assert(out.subrange(40, 48) =~= le64(sid));
        lemma_le64_round_trip(out, 40, sid);
        assert forall|k: int| 40 <= k < 48 implies #[trigger] s[k] == 0xFF by {}
    } else if forall|k: int| 40 <= k < 48 ==> #[trigger] s[k] == 0xFF {
        assert(s[40] == 0xFF && s[41] == 0xFF && s[42] == 0xFF && s[43] == 0xFF && s[44] == 0xFF
            && s[45] == 0xFF && s[46] == 0xFF && s[47] == 0xFF);
    }
}

proof fn lemma_with_tree(s: Seq<u8>, tid: u32)
    requires
        s.len() >= 64,
    ensures
        ({
            let out = with_tree(s, tid);
            let wild = forall|k: int| 36 <= k < 40 ==> #[trigger] s[k] == 0xFF;
            &&& out.len() == s.len()
            &&& forall|k: int| 0 <= k < s.len() && !(36 <= k < 40) ==> #[trigger] out[k] == s[k]
            &&& wild ==> le32_at(out, 36) == tid
            &&& !wild ==> out == s
        }),
{
    let out = with_tree(s, tid);
    lemma_all_ones(s);
    if le32_at(s, 36) == u32::MAX {
        assert(out.subrange(36, 40) =~= le32(tid));
        lemma_le32_round_trip(out, 36, tid);
        assert forall|k: int| 36 <= k < 40 implies #[trigger] s[k] == 0xFF by {}
    } else if forall|k: int| 36 <= k < 40 ==> #[trigger] s[k] == 0xFF {
        assert(s[36] == 0xFF && s[37] == 0xFF && s[38] == 0xFF && s[39] == 0xFF);
    }
}

/// The header that an operation was read with.
proof fn lemma_operation_header(frame: Seq<u8>, st: ChainState, op: Operation) -> (h: Smb2Header)
    requires
        !chain_finished(frame, st),
        operation_at(frame, st, op),
    ensures
        reads_as(frame.skip(st.offset as int), h),
        64 <= operation_len(frame, st.offset as int)->0 <= frame.len() - st.offset,
        op.next == 0 ==> operation_len(frame, st.offset as int)->0 == frame.len() - st.offset,
        op.next != 0 ==> operation_len(frame, st.offset as int)->0 == op.next,
        ({
            let raw = frame.subrange(
                st.offset as int,
                st.offset + operation_len(frame, st.offset as int)->0,
            );
            if has_flag(h, SMB2_FLAGS_RELATED_OPERATIONS) {
                &&& op.frame@ == related_frame(
                    raw,
                    h.command,
                    st.prev_session_id,
                    st.prev_tree_id,
                    id_bytes(st.prev_create_file_id),
                )
                &&& op.frame@.len() == raw.len()
                &&& op.header == related_header(raw, h, st.prev_session_id, st.prev_tree_id)
            } else {
                &&& op.frame@ == raw
                &&& op.header == h
            }
        }),
{
    let len = operation_len(frame, st.offset as int)->0;
    let raw = frame.subrange(st.offset as int, st.offset + len);
    let h = choose|h: Smb2Header| #[trigger]
        reads_as(frame.skip(st.offset as int), h) && {
            if has_flag(h, SMB2_FLAGS_RELATED_OPERATIONS) {
                &&& op.frame@ == related_frame(
                    raw,
                    h.command,
                    st.prev_session_id,
                    st.prev_tree_id,
                    id_bytes(st.prev_create_file_id),
                )
                &&& op.header == related_header(raw, h, st.prev_session_id, st.prev_tree_id)
            } else {
                &&& op.frame@ == raw
                &&& op.header == h
            }
        };
    lemma_related_len(
        raw,
        h.command,
        st.prev_session_id,
        st.prev_tree_id,
        st.prev_create_file_id,
    );
    h
}

/// What the header says of relatedness and command, in the bytes of the frame.
proof fn lemma_related_flag(frame: Seq<u8>, at: int, h: Smb2Header)
    requires
        0 <= at,
        at + 64 <= frame.len(),
        reads_as(frame.skip(at), h),
    ensures
        has_flag(h, SMB2_FLAGS_RELATED_OPERATIONS) <==> (frame[at + 16] as int / 4) % 2 == 1,
        command_code(h.command) == frame[at + 12],
{
    let b = frame.skip(at);
    lemma_header_layout(b, h);
    lemma_flag_bits(h);
    assert(b[16] == frame[at + 16] && b[12] == frame[at + 12]);
    let f = h.flags as int;
    assert(f % 256 == b[16]);
    assert((f / 4) % 2 == (f % 256 / 4) % 2) by (nonlinear_arith)
        requires
            0 <= f,
    ;
}

/// Eight, or four, bytes make the largest number exactly if all are `FF`.
proof fn lemma_all_ones(s: Seq<u8>)
    ensures
        forall|at: int| #[trigger]
            le64_at(s, at) == u64::MAX <==> (s[at] == 0xFF && s[at + 1] == 0xFF && s[at + 2] == 0xFF
                && s[at + 3] == 0xFF && s[at + 4] == 0xFF && s[at + 5] == 0xFF && s[at + 6] == 0xFF
                && s[at + 7] == 0xFF),
        forall|at: int| #[trigger]
            le32_at(s, at) == u32::MAX <==> (s[at] == 0xFF && s[at + 1] == 0xFF && s[at + 2] == 0xFF
                && s[at + 3] == 0xFF),
{
}

/// Where a request holds a FileId in its body: at byte 8 for CLOSE (6), FLUSH (7),
/// LOCK (10), IOCTL (11), QUERY_DIRECTORY (14), CHANGE_NOTIFY (15) and OPLOCK_BREAK
/// (18), at byte 16 for READ (8), WRITE (9) and SET_INFO (17), at byte 24 for
/// QUERY_INFO (16), and nowhere for any other command.
pub proof fn lemma_file_id_offsets(c: Command)
    ensures
        ({
            let code = command_code(c);
            file_id_offset(c) == if code == 6 || code == 7 || code == 10 || code == 11 || code == 14
                || code == 15 || code == 18 {
                Some(8usize)
            } else if code == 8 || code == 9 || code == 17 {
                Some(16usize)
            } else if code == 16 {
                Some(24usize)
            } else {
                None
            }
        }),
{
}

/// A related operation works on the file that the last answered CREATE opened.
/// Its request holds a FileId at byte 8 of its body for CLOSE (6), FLUSH (7),
/// LOCK (10), IOCTL (11), QUERY_DIRECTORY (14), CHANGE_NOTIFY (15) and
/// OPLOCK_BREAK (18), at byte 16 for READ (8), WRITE (9) and SET_INFO (17), and at
/// byte 24 for QUERY_INFO (16). Where those sixteen bytes are all `FF`, the
/// operation that is handed out holds the FileId of the CREATE there. Every other
/// byte of a body, and every byte of the body of another command, stays.
#[verifier::rlimit(50)]
pub proof fn lemma_operation_file_id(frame: Seq<u8>, st: ChainState, op: Operation)
    requires
        !chain_finished(frame, st),
        operation_at(frame, st, op),
    ensures
        ({
            let at = st.offset as int;
            let code = frame[at + 12];
            let place: int = if code == 6 || code == 7 || code == 10 || code == 11 || code == 14
                || code == 15 || code == 18 {
                72
            } else if code == 8 || code == 9 || code == 17 {
                80
            } else if code == 16 {
                88
            } else {
                -16
            };
            let inherits = (frame[at + 16] as int / 4) % 2 == 1 && st.prev_create_file_id is Some
                && place > 0 && place + 16 <= op.frame@.len() && forall|k: int|
                place <= k < place + 16 ==> #[trigger] frame[at + k] == 0xFF;
            &&& inherits ==> op.frame@.subrange(place, place + 16)
                == st.prev_create_file_id->0@
            &&& forall|k: int|
                64 <= k < op.frame@.len() && !(inherits && place <= k < place + 16)
                    ==> #[trigger] op.frame@[k] == frame[at + k]
        }),
{
    let at = st.offset as int;
    let len = operation_len(frame, at)->0;
    let raw = frame.subrange(at, at + len);
    let h = lemma_operation_header(frame, st, op);
    lemma_related_flag(frame, at, h);
    let code = frame[at + 12];
    let place: int = if code == 6 || code == 7 || code == 10 || code == 11 || code == 14 || code
        == 15 || code == 18 {
        72
    } else if code == 8 || code == 9 || code == 17 {
        80
    } else if code == 16 {
        88
    } else {
        -16
    };
    lemma_file_id_offsets(h.command);
    assert forall|k: int| 0 <= k < len implies #[trigger] raw[k] == frame[at + k] by {}
    if has_flag(h, SMB2_FLAGS_RELATED_OPERATIONS) {
        let s2 = with_tree(with_session(raw, st.prev_session_id), st.prev_tree_id);
        assert(s2.len() == len);
        assert forall|k: int| 48 <= k < len implies #[trigger] s2[k] == raw[k] by {}
        lemma_file_id_filled(s2, h.command, st.prev_create_file_id, place);
        if place > 0 && place + 16 <= len {
            if forall|k: int| place <= k < place + 16 ==> #[trigger] frame[at + k] == 0xFF {
                assert forall|k: int| place <= k < place + 16 implies #[trigger] s2[k] == 0xFF by {
                    assert(frame[at + k] == 0xFF);
                    assert(raw[k] == frame[at + k]);
                }
            } else {
                let k = choose|k: int| place <= k < place + 16 && #[trigger] frame[at + k] != 0xFF;
                assert(raw[k] == frame[at + k]);
                assert(s2[k] != 0xFF);
            }
        }
        assert forall|k: int| 64 <= k < len && op.frame@[k] == s2[k] implies #[trigger] op.frame@[k]
            == frame[at + k] by {
            assert(s2[k] == raw[k]);
            assert(raw[k] == frame[at + k]);
        }
    } else {
        assert forall|k: int| 64 <= k < len implies #[trigger] op.frame@[k] == frame[at + k] by {
            assert(raw[k] == frame[at + k]);
        }
    }
}

proof fn lemma_file_id_filled(s: Seq<u8>, c: Command, id: Option<[u8; 16]>, place: int)
    requires
        s.len() >= 64,
        match file_id_offset(c) {
            Some(o) => place == 64 + o,
            None => place == -16,
        },
    ensures
        ({
            let out = with_file_id(s, c, id_bytes(id));
            let wild = id is Some && place > 0 && place + 16 <= s.len() && forall|k: int|
                place <= k < place + 16 ==> #[trigger] s[k] == 0xFF;
            &&& out.len() == s.len()
            &&& wild ==> out.subrange(place, place + 16) == id->0@
            &&& forall|k: int|
                0 <= k < s.len() && !(wild && place <= k < place + 16) ==> #[trigger] out[k] == s[k]
        }),
{
    let out = with_file_id(s, c, id_bytes(id));
    lemma_all_ones(s);
    if id is Some && place > 0 && place + 16 <= s.len() {
        assert(id->0@.len() == 16);
        if le64_at(s, place) == u64::MAX && le64_at(s, place + 8) == u64::MAX {
            assert forall|k: int| place <= k < place + 16 implies #[trigger] s[k] == 0xFF by {}
            assert(out =~= splice(s, place, id->0@));
            assert(out.subrange(place, place + 16) =~= id->0@);
        } else {
            assert(out == s);
            if forall|k: int| place <= k < place + 16 ==> #[trigger] s[k] == 0xFF {
                assert(s[place] == 0xFF && s[place + 1] == 0xFF && s[place + 2] == 0xFF && s[place
                    + 3] == 0xFF && s[place + 4] == 0xFF && s[place + 5] == 0xFF && s[place + 6]
                    == 0xFF && s[place + 7] == 0xFF);
                assert(s[place + 8] == 0xFF && s[place + 9] == 0xFF && s[place + 10] == 0xFF
                    && s[place + 11] == 0xFF && s[place + 12] == 0xFF && s[place + 13] == 0xFF
                    && s[place + 14] == 0xFF && s[place + 15] == 0xFF);
            }
        }
    }
}

/// The FileId that operations inherit is that of the last answered CREATE: the
/// sixteen bytes from 128 on of a response of at least 144 bytes whose status,
/// bytes 8 to 11, is zero; none where that response is shorter or its status is
/// another. The session and the tree are those of the operation just before.
pub proof fn lemma_inherited_ids(
    frame: Seq<u8>,
    states: Seq<ChainState>,
    ops: Seq<Operation>,
    answers: Seq<Option<Seq<u8>>>,
    i: int,
    j: int,
)
    requires
        chain_run(frame, states, ops, answers),
        0 <= i < j <= ops.len(),
        command_code(ops[i].header.command) == 5,
        answers[i] is Some,
        forall|k: int|
            i < k < j ==> command_code((#[trigger] ops[k]).header.command) != 5 || answers[k] is None,
    ensures
        ({
            let r = answers[i]->0;
            let ok = r.len() >= 144 && r[8] == 0 && r[9] == 0 && r[10] == 0 && r[11] == 0;
            &&& ok ==> states[j].prev_create_file_id is Some
                && states[j].prev_create_file_id->0@ == r.subrange(128, 144)
            &&& !ok ==> states[j].prev_create_file_id is None
        }),
        states[j].prev_session_id == ops[j - 1].header.session_id,
        states[j].prev_tree_id == tree_or_zero(ops[j - 1].header),
    decreases j - i,
{
    lemma_command_codes(ops[j - 1].header.command, Command::Create);
    assert(chain_advanced(states[j - 1], ops[j - 1], answers[j - 1], states[j]));
    if j > i + 1 {
        assert(command_code(ops[j - 1].header.command) != 5 || answers[j - 1] is None);
        lemma_inherited_ids(frame, states, ops, answers, i, j - 1);
        assert(id_bytes(states[j].prev_create_file_id) == id_bytes(
            states[j - 1].prev_create_file_id,
        ));
    }
}

/// Before any CREATE was answered nothing is inherited from one.
pub proof fn lemma_no_create_no_file_id(
    frame: Seq<u8>,
    states: Seq<ChainState>,
    ops: Seq<Operation>,
    answers: Seq<Option<Seq<u8>>>,
    j: int,
)
    requires
        chain_run(frame, states, ops, answers),
        0 <= j <= ops.len(),
        forall|k: int|
            0 <= k < j ==> command_code((#[trigger] ops[k]).header.command) != 5 || answers[k] is None,
    ensures
        states[j].prev_create_file_id is None,
    decreases j,
{
    if j > 0 {
        lemma_command_codes(ops[j - 1].header.command, Command::Create);
        assert(command_code(ops[j - 1].header.command) != 5 || answers[j - 1] is None);
        assert(chain_advanced(states[j - 1], ops[j - 1], answers[j - 1], states[j]));
        lemma_no_create_no_file_id(frame, states, ops, answers, j - 1);
    }
}

/// Which operations a walk accepts: one stands where a header stands whose
/// NextCommand, bytes 20 to 23, is 0, or at least 64 and no more than what is left
/// of the frame. It reaches to the end, or that far.
pub proof fn lemma_operation_accepted(frame: Seq<u8>, at: int)
    requires
        0 <= at,
        at + 64 <= frame.len(),
    ensures
        ({
            let next = frame[at + 20] + 0x100 * frame[at + 21] + 0x1_0000 * frame[at + 22]
                + 0x100_0000 * frame[at + 23];
            let header = begins_with_header(frame.skip(at));
            &&& operation_len(frame, at) is Some <==> header && (next == 0 || (64 <= next && at
                + next <= frame.len()))
            &&& operation_len(frame, at) matches Some(len) ==> len == if next == 0 {
                frame.len() - at
            } else {
                next
            }
        }),
{
}

/// The bytes of a stitched reply: response `i` begins at the sum of the lengths
/// before it, each rounded up to a multiple of 8. Its bytes are its own but for
/// bytes 20 to 23 of one that another follows, and zero bytes lie between it and
/// the next.
#[verifier::rlimit(50)]
pub proof fn lemma_stitched_bytes(rs: Seq<Seq<u8>>, i: int, k: int)
    requires
        linkable(rs),
        0 <= i < rs.len(),
    ensures
        start_of(rs, 0) == 0,
        0 <= k < rs[i].len() && !(i + 1 < rs.len() && 20 <= k < 24) ==> stitched(rs)[start_of(rs, i)
            + k] == rs[i][k],
        i + 1 < rs.len() ==> start_of(rs, i + 1) == start_of(rs, i) + (rs[i].len() + 7) / 8 * 8,
        i + 1 < rs.len() && rs[i].len() <= k && k < (rs[i].len() + 7) / 8 * 8 ==> stitched(
            rs,
        )[start_of(rs, i) + k] == 0,
        i + 1 == rs.len() ==> stitched(rs).len() == start_of(rs, i) + rs[i].len(),
{
    let at = start_of(rs, i);
    let r = rs[i];
    let s = stitched(rs);
    lemma_stitched_response(rs, i);
    lemma_align8(r.len() as int);
    let part = s.subrange(at, at + r.len());
    if 0 <= k < r.len() {
        assert(part[k] == s[at + k]);
    }
    if i + 1 < rs.len() {
        lemma_links_step(rs, i);
        lemma_links_grow(rs, i + 1);
        let whole = links(rs.take(i + 1));
        if r.len() <= k < align8(r.len() as int) {
            assert(whole[at + k] == link(r)[k]);
            assert(s.take(whole.len() as int)[at + k] == s[at + k]);
        }
    }
}

/// Who signs a response in a reply: nobody where the fourth flag bit, in byte 16,
/// is clear, and otherwise the session in bytes 40 to 47.
pub proof fn lemma_signer_bytes(reply: Seq<u8>, start: int)
    requires
        0 <= start,
        start + 48 <= reply.len(),
    ensures
        (reply[start + 16] as int / 8) % 2 == 0 ==> signer_at(reply, start) is None,
        (reply[start + 16] as int / 8) % 2 == 1 ==> signer_at(reply, start) == Some(
            le64_at(reply, start + 40),
        ),
{
    let f = le32_at(reply, start + 16);
    let low = reply[start + 16] as u32;
    assert(f % 0x100 == low);
    assert((f & 8u32 != 0) <==> (f % 0x100 / 8) % 2 == 1) by (bit_vector);
}

/// Across a compound: a related CLOSE, FLUSH, LOCK, IOCTL, QUERY_DIRECTORY,
/// CHANGE_NOTIFY or OPLOCK_BREAK with `FF` in bytes 72 to 87, a related READ, WRITE
/// or SET_INFO with `FF` in bytes 80 to 95, and a related QUERY_INFO with `FF` in
/// bytes 88 to 103 is handed out with the FileId that the last answered CREATE
/// before it returned in that place.
pub proof fn lemma_compound_file_id(
    frame: Seq<u8>,
    states: Seq<ChainState>,
    ops: Seq<Operation>,
    answers: Seq<Option<Seq<u8>>>,
    i: int,
    j: int,
    place: int,
)
    requires
        chain_run(frame, states, ops, answers),
        0 <= i < j < ops.len(),
        command_code(ops[i].header.command) == 5,
        answers[i] matches Some(r) && r.len() >= 144 && r[8] == 0 && r[9] == 0 && r[10] == 0 && r[11]
            == 0,
        forall|k: int|
            i < k < j ==> command_code((#[trigger] ops[k]).header.command) != 5 || answers[k] is None,
        (frame[states[j].offset + 16] as int / 4) % 2 == 1,
        ({
            let code = frame[states[j].offset + 12];
            ||| place == 72 && (code == 6 || code == 7 || code == 10 || code == 11 || code == 14
                || code == 15 || code == 18)
            ||| place == 80 && (code == 8 || code == 9 || code == 17)
            ||| place == 88 && code == 16
        }),
        place + 16 <= ops[j].frame@.len(),
        forall|k: int| place <= k < place + 16 ==> #[trigger] frame[states[j].offset + k] == 0xFF,
    ensures
        ops[j].frame@.subrange(place, place + 16) == answers[i]->0.subrange(128, 144),
{
    lemma_inherited_ids(frame, states, ops, answers, i, j);
    assert(operation_at(frame, states[j], ops[j]));
    lemma_operation_file_id(frame, states[j], ops[j]);
}

/// A walk begins at the start of the frame with nothing to inherit: no session, no
/// tree, no file.
pub proof fn lemma_chain_begins(
    frame: Seq<u8>,
    states: Seq<ChainState>,
    ops: Seq<Operation>,
    answers: Seq<Option<Seq<u8>>>,
)
    requires
        chain_run(frame, states, ops, answers),
    ensures
        states[0].offset == 0,
        states[0].prev_session_id == 0,
        states[0].prev_tree_id == 0,
        states[0].prev_create_file_id is None,
        states[0].ordinal == 0,
        !states[0].done,
{
}

/// The header and the bytes that are handed out agree, for an unrelated operation
/// and for a related one on a tree.
#[verifier::rlimit(50)]
pub proof fn lemma_operation_agrees(frame: Seq<u8>, st: ChainState, op: Operation)
    requires
        !chain_finished(frame, st),
        operation_at(frame, st, op),
    ensures
        (frame[st.offset + 16] as int / 4) % 2 == 0 || (frame[st.offset + 16] as int / 2) % 2 == 0
            ==> reads_as(op.frame@, op.header),
{
    let at = st.offset as int;
    let len = operation_len(frame, at)->0;
    let raw = frame.subrange(at, at + len);
    let rest = frame.skip(at);
    let h = lemma_operation_header(frame, st, op);
    lemma_related_flag(frame, at, h);
    crate::header::lemma_header_tail(rest, h);
    assert(rest[16] == frame[at + 16]);
    assert(reads_as(raw, h)) by {
        assert(raw =~= rest.take(len));
        lemma_header_local(rest, len, h);
    }
    if has_flag(h, SMB2_FLAGS_RELATED_OPERATIONS) && h.tail is Sync {
        lemma_related_reads(
            raw,
            h,
            st.prev_session_id,
            st.prev_tree_id,
            st.prev_create_file_id,
        );
    }
}

proof fn lemma_header_local(b: Seq<u8>, len: int, h: Smb2Header)
    requires
        reads_as(b, h),
        64 <= len <= b.len(),
    ensures
        reads_as(b.take(len), h),
{
    let t = b.take(len);
    assert forall|k: int| 0 <= k < 64 implies #[trigger] t[k] == b[k] by {}
    assert(t.subrange(48, 64) =~= b.subrange(48, 64));
    assert(le64_at(t, 24) == le64_at(b, 24));
    assert(le64_at(t, 32) == le64_at(b, 32));
    assert(le64_at(t, 40) == le64_at(b, 40));
    assert(le32_at(t, 32) == le32_at(b, 32) && le32_at(t, 36) == le32_at(b, 36));
}

/// The header of a related operation: its session is the inherited one exactly if
/// bytes 40 to 47 are all `FF`; its tree, where it names one, exactly if bytes 36 to
/// 39 are. Everything else, an async id too, stays as it was read.
pub proof fn lemma_related_header_fields(s: Seq<u8>, h: Smb2Header, sid: u64, tid: u32)
    ensures
        ({
            let r = related_header(s, h, sid, tid);
            let no_session = s[40] == 0xFF && s[41] == 0xFF && s[42] == 0xFF && s[43] == 0xFF
                && s[44] == 0xFF && s[45] == 0xFF && s[46] == 0xFF && s[47] == 0xFF;
            let no_tree = s[36] == 0xFF && s[37] == 0xFF && s[38] == 0xFF && s[39] == 0xFF;
            &&& r.session_id == if no_session {
                sid
            } else {
                h.session_id
            }
            &&& h.tail is Async ==> r.tail == h.tail
            &&& h.tail matches HeaderTail::Sync { reserved, tree_id } ==> r.tail
                == HeaderTail::Sync {
                reserved,
                tree_id: if no_tree {
                    tid
                } else {
                    tree_id
                },
            }
            &&& r.credit_charge == h.credit_charge
            &&& r.channel_sequence_status == h.channel_sequence_status
            &&& r.command == h.command
            &&& r.credit_request_response == h.credit_request_response
            &&& r.flags == h.flags
            &&& r.next_command == h.next_command
            &&& r.message_id == h.message_id
            &&& r.signature == h.signature
        }),
{
    lemma_all_ones(s);
    assert(le64_at(s, 40) == u64::MAX <==> s[40] == 0xFF && s[41] == 0xFF && s[42] == 0xFF && s[43]
        == 0xFF && s[44] == 0xFF && s[45] == 0xFF && s[46] == 0xFF && s[47] == 0xFF);
    assert(le32_at(s, 36) == u32::MAX <==> s[36] == 0xFF && s[37] == 0xFF && s[38] == 0xFF && s[39]
        == 0xFF);
}

} // verus!
