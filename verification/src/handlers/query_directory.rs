//! QUERY_DIRECTORY.
//!
//! [`plan`] turns a request into how the listing goes on, or into the status
//! that refuses it. [`fill`] makes a cursor out of a fresh listing. [`pack`]
//! chains encoded entries into the output buffer, and [`finish`] turns that into
//! the response.

use vstd::prelude::*;

use crate::bytes::{
    align8, align_8, le32, le32_at, lemma_align8, lemma_le32_round_trip, overwrite, pad8,
    push_all, push_u32, push_zeros, splice,
};
use crate::dispatch::{error_response, plain_response, HandlerResponse};
use crate::messages::{encode_output, output_body, FileInfo};
use crate::ntstatus::{
    STATUS_FILE_CLOSED, STATUS_INVALID_INFO_CLASS, STATUS_INVALID_PARAMETER, STATUS_NO_MORE_FILES,
    STATUS_SUCCESS,
};
use crate::text::{chars_of, same_letter};
use crate::utf16::{utf16, utf16_lossy};
use crate::utils::{
    dos_match, dos_pattern_matches, le_units, lemma_exact_pattern, lemma_utf16le_round_trip,
    units_le, utf16le_to_string,
};

verus! {

// Flags (MS-SMB2 §2.2.33)
pub const FLAG_RESTART_SCANS: u8 = 0x01;

pub const FLAG_RETURN_SINGLE_ENTRY: u8 = 0x02;

pub const FLAG_REOPEN: u8 = 0x10;

/// What the handler reads of a QUERY_DIRECTORY request.
#[derive(Debug)]
pub struct QueryDirectoryRequest {
    /// The information class is one that is known.
    pub class_known: bool,
    pub flags: u8,
    /// The search pattern, as it stands in the request: UTF-16LE.
    pub file_name: Vec<u8>,
}

/// What the handler reads of an open.
#[derive(Debug, Clone, Copy)]
pub struct ListedOpen {
    pub is_directory: bool,
    /// A listing is under way.
    pub has_cursor: bool,
    /// The open still has its handle.
    pub has_handle: bool,
}

/// How a listing goes on.
#[derive(Debug)]
pub struct ListPlan {
    /// Which names are listed; `None` for all of them.
    pub pattern: Option<String>,
    /// The directory is listed anew.
    pub refill: bool,
    /// At most one entry is returned.
    pub single_entry: bool,
}

/// The text of the search pattern in a request.
pub open spec fn pattern_text(file_name: Seq<u8>) -> Seq<char> {
    if file_name.len() % 2 == 0 {
        utf16_lossy(le_units(file_name))
    } else {
        Seq::empty()
    }
}

/// The search pattern of a request; `None` where it is empty or `*`, which list
/// everything.
pub open spec fn pattern_of(file_name: Seq<u8>) -> Option<Seq<char>> {
    let text = pattern_text(file_name);
    if text.len() == 0 || text == seq!['*'] {
        None
    } else {
        Some(text)
    }
}

/// The text of an optional string.
pub open spec fn text_of(s: Option<String>) -> Option<Seq<char>> {
    match s {
        Some(s) => Some(s@),
        None => None,
    }
}

/// The request asks to list the directory anew.
pub open spec fn restarts(flags: u8) -> bool {
    flags & FLAG_RESTART_SCANS != 0 || flags & FLAG_REOPEN != 0
}

/// The directory is listed anew: no listing is under way, or the request asks for
/// it. Nothing else makes the backend list.
pub open spec fn refills(has_cursor: bool, flags: u8) -> bool {
    !has_cursor || restarts(flags)
}

/// The request asks for a single entry.
pub open spec fn wants_single(flags: u8) -> bool {
    flags & FLAG_RETURN_SINGLE_ENTRY != 0
}

/// The status that refuses a request; `None` where it is not refused. Of several
/// reasons the first one counts.
pub open spec fn refusal(
    request: Option<QueryDirectoryRequest>,
    tree: Result<(), u32>,
    open: Option<ListedOpen>,
) -> Option<u32> {
    match (request, tree, open) {
        (None, _, _) => Some(STATUS_INVALID_PARAMETER),
        (Some(req), tree, open) => if !req.class_known {
            Some(STATUS_INVALID_INFO_CLASS)
        } else {
            match (tree, open) {
                (Err(status), _) => Some(status),
                (Ok(_), None) => Some(STATUS_FILE_CLOSED),
                (Ok(_), Some(open)) => if !open.is_directory {
                    Some(STATUS_INVALID_PARAMETER)
                } else if refills(open.has_cursor, req.flags) && !open.has_handle {
                    Some(STATUS_FILE_CLOSED)
                } else {
                    None
                },
            }
        },
    }
}

/// Turns a request into how the listing goes on. `request` is `None` where the
/// body of the request does not parse; `tree` is the status of a session or tree
/// that does not exist; `open` is `None` where the FileId names no open.
pub fn plan(
    request: Option<&QueryDirectoryRequest>,
    tree: Result<(), u32>,
    open: Option<ListedOpen>,
) -> (r: Result<ListPlan, u32>)
    ensures
        match r {
            Ok(plan) => request matches Some(req) && open matches Some(o) && {
                &&& refusal(Some(*req), tree, open) is None
                &&& text_of(plan.pattern) == pattern_of(req.file_name@)
                &&& plan.refill == refills(o.has_cursor, req.flags)
                &&& plan.single_entry == wants_single(req.flags)
            },
            Err(status) => refusal(
                match request {
                    Some(req) => Some(*req),
                    None => None,
                },
                tree,
                open,
            ) == Some(status),
        },
{
    let req = match request {
        Some(r) => r,
        None => return Err(STATUS_INVALID_PARAMETER),
    };
    if !req.class_known {
        return Err(STATUS_INVALID_INFO_CLASS);
    }
    if let Err(status) = tree {
        return Err(status);
    }
    let open = match open {
        Some(o) => o,
        None => return Err(STATUS_FILE_CLOSED),
    };
    let text = utf16le_to_string(req.file_name.as_slice());
    let chars = chars_of(text.as_str());
    let pattern = if chars.len() == 0 || (chars.len() == 1 && chars[0] == '*') {
        assert(chars@.len() == 1 ==> chars@ =~= seq!['*']);
        None
    } else {
        Some(text)
    };
    let restart = req.flags & FLAG_RESTART_SCANS != 0 || req.flags & FLAG_REOPEN != 0;
    let single_entry = req.flags & FLAG_RETURN_SINGLE_ENTRY != 0;
    if !open.is_directory {
        return Err(STATUS_INVALID_PARAMETER);
    }
    let refill = !open.has_cursor || restart;
    if refill && !open.has_handle {
        return Err(STATUS_FILE_CLOSED);
    }
    Ok(ListPlan { pattern, refill, single_entry })
}

// ---------------------------------------------------------------------------
// The cursor
// ---------------------------------------------------------------------------

/// A name in a directory.
#[derive(Debug)]
pub struct DirEntry {
    pub info: FileInfo,
}

/// A listing under way.
#[derive(Debug)]
pub struct DirCursor {
    pub entries: Vec<DirEntry>,
    /// The first entry that has not been returned.
    pub next: usize,
    pub pattern: Option<String>,
}

impl DirCursor {
    /// Moves on past `done` entries.
    pub fn advance(&mut self, done: usize)
        requires
            old(self).next + done <= old(self).entries@.len(),
        ensures
            final(self).next == old(self).next + done,
            final(self).entries@ == old(self).entries@,
            final(self).pattern == old(self).pattern,
    {
        assert(self.next + done <= self.entries.len());
        self.next = self.next + done;
    }
}

/// The entries that `pattern` selects.
pub open spec fn selected_by(pattern: Option<Seq<char>>) -> spec_fn(DirEntry) -> bool {
    |e: DirEntry|
        match pattern {
            Some(p) => dos_match(p, e.info.name@),
            None => true,
        }
}

/// Makes a cursor out of what a backend listed. Backends may ignore the pattern;
/// the final filter is here, so that an exact-name lookup can never succeed with
/// an unrelated sibling entry.
pub fn fill(entries: Vec<DirEntry>, pattern: Option<String>) -> (cursor: DirCursor)
    ensures
        cursor.entries@ == entries@.filter(selected_by(text_of(pattern))),
        cursor.next == 0,
        cursor.pattern == pattern,
{
    let ghost all = entries@;
    let ghost pred = selected_by(text_of(pattern));
    let mut kept: Vec<DirEntry> = Vec::new();
    assert(all.take(0).filter(pred) =~= Seq::empty()) by {
        reveal(Seq::filter);
    }
    for entry in it: entries
        invariant
            it.seq() == all,
            pred == selected_by(text_of(pattern)),
            kept@ == all.take(it.index() as int).filter(pred),
    {
        proof {
            reveal(Seq::filter);
            let next = all.take(it.index() + 1);
            assert(next.drop_last() =~= all.take(it.index() as int));
            assert(next.last() == entry);
        }
        let keep = match &pattern {
            Some(p) => dos_pattern_matches(p.as_str(), entry.info.name.as_str()),
            None => true,
        };
        if keep {
            kept.push(entry);
        }
    }
    assert(all.take(all.len() as int) =~= all);
    DirCursor { entries: kept, next: 0, pattern }
}

/// Every entry of a cursor is one that the backend listed and the pattern
/// selects; every such entry is there.
pub proof fn lemma_cursor_holds_matches(entries: Seq<DirEntry>, pattern: Option<Seq<char>>, e: DirEntry)
    ensures
        entries.filter(selected_by(pattern)).contains(e) <==> entries.contains(e) && selected_by(
            pattern,
        )(e),
{
    let pred = selected_by(pattern);
    let kept = entries.filter(pred);
    if kept.contains(e) {
        let i = choose|i: int| 0 <= i < kept.len() && kept[i] == e;
        entries.lemma_filter_pred(pred, i);
        entries.lemma_filter_contains_rev(pred, e);
    }
    if entries.contains(e) && pred(e) {
        let i = choose|i: int| 0 <= i < entries.len() && entries[i] == e;
        entries.lemma_filter_contains(pred, i);
    }
}

/// An exact-name lookup never holds an unrelated sibling: where the pattern has
/// no wildcard, every entry of the cursor has that name, up to ASCII case.
pub proof fn lemma_exact_lookup(entries: Seq<DirEntry>, p: Seq<char>, e: DirEntry)
    requires
        p.len() > 0,
        forall|t: int| 0 <= t < p.len() ==> p[t] != '*' && p[t] != '?',
        entries.filter(selected_by(Some(p))).contains(e),
    ensures
        e.info.name@.len() == p.len(),
        forall|t: int| 0 <= t < p.len() ==> same_letter(#[trigger] p[t], e.info.name@[t]),
{
    lemma_cursor_holds_matches(entries, Some(p), e);
    lemma_exact_pattern(p, e.info.name@);
}

// ---------------------------------------------------------------------------
// The output buffer
// ---------------------------------------------------------------------------

/// The number of bytes that an entry takes up in the buffer.
pub open spec fn room(e: Seq<u8>) -> int {
    align8(e.len() as int)
}

/// How many of `entries` are done with one response, where `filled` bytes of the
/// buffer are taken. An entry without bytes is passed over. The first entry is
/// always taken, a further one only while the buffer stays within `cap`, and
/// where a single entry was asked for, none follows it.
pub open spec fn done_with(entries: Seq<Seq<u8>>, cap: int, single: bool, filled: int) -> int
    decreases entries.len(),
{
    if entries.len() == 0 {
        0
    } else if entries[0].len() == 0 {
        1 + done_with(entries.skip(1), cap, single, filled)
    } else if filled > 0 && filled + room(entries[0]) > cap {
        0
    } else if single {
        1
    } else {
        1 + done_with(entries.skip(1), cap, single, filled + room(entries[0]))
    }
}

/// The entries that have bytes.
pub open spec fn non_empty(entries: Seq<Seq<u8>>) -> Seq<Seq<u8>>
    decreases entries.len(),
{
    if entries.len() == 0 {
        seq![]
    } else if entries.last().len() == 0 {
        non_empty(entries.drop_last())
    } else {
        non_empty(entries.drop_last()).push(entries.last())
    }
}

/// An entry that another one follows: filled up to a multiple of 8, its
/// NextEntryOffset leading there.
pub open spec fn linked(e: Seq<u8>) -> Seq<u8> {
    splice(pad8(e), 0, le32(room(e) as u32))
}

/// Linked entries, one behind the other.
pub open spec fn links(entries: Seq<Seq<u8>>) -> Seq<u8>
    decreases entries.len(),
{
    if entries.len() == 0 {
        seq![]
    } else {
        links(entries.drop_last()) + linked(entries.last())
    }
}

/// The buffer that holds `entries`: all but the last one linked.
pub open spec fn chain(entries: Seq<Seq<u8>>) -> Seq<u8> {
    if entries.len() == 0 {
        seq![]
    } else {
        links(entries.drop_last()) + pad8(entries.last())
    }
}

/// What one response returns of `entries`.
pub open spec fn returned(entries: Seq<Seq<u8>>, cap: int, single: bool) -> Seq<Seq<u8>> {
    non_empty(entries.take(done_with(entries, cap, single, 0)))
}

/// The contents of byte vectors.
pub open spec fn contents(vs: Seq<Vec<u8>>) -> Seq<Seq<u8>> {
    Seq::new(vs.len(), |i: int| vs[i]@)
}

/// A filled output buffer, and how many entries are done with it.
#[derive(Debug)]
pub struct Packed {
    pub buffer: Vec<u8>,
    pub done: usize,
}

proof fn lemma_done_bounds(entries: Seq<Seq<u8>>, cap: int, single: bool, filled: int)
    ensures
        0 <= done_with(entries, cap, single, filled) <= entries.len(),
    decreases entries.len(),
{
    if entries.len() > 0 {
        lemma_done_bounds(entries.skip(1), cap, single, filled);
        lemma_done_bounds(entries.skip(1), cap, single, filled + room(entries[0]));
    }
}

/// Chains encoded entries into an output buffer of `cap` bytes. `encoded` holds
/// the entries from the cursor on.
#[verifier::rlimit(50)]
pub fn pack(encoded: &Vec<Vec<u8>>, cap: usize, single_entry: bool) -> (r: Packed)
    requires
        forall|i: int| 0 <= i < encoded@.len() ==> (#[trigger] encoded@[i])@.len() + 7 <= usize::MAX,
    ensures
        r.done == done_with(contents(encoded@), cap as int, single_entry, 0),
        r.done <= encoded@.len(),
        r.buffer@ == chain(returned(contents(encoded@), cap as int, single_entry)),
{
    let ghost es = contents(encoded@);
    let ghost total = done_with(es, cap as int, single_entry, 0);
    let mut buffer: Vec<u8> = Vec::new();
    let mut last: usize = 0;
    let mut done: usize = 0;
    assert(es.skip(0) =~= es);
    assert(es.take(0) =~= seq![]);
    while done < encoded.len()
        invariant_except_break
            total == done + done_with(
                es.skip(done as int),
                cap as int,
                single_entry,
                buffer@.len() as int,
            ),
        invariant
            es == contents(encoded@),
            total == done_with(es, cap as int, single_entry, 0),
            forall|i: int|
                0 <= i < encoded@.len() ==> (#[trigger] encoded@[i])@.len() + 7 <= usize::MAX,
            done <= encoded@.len(),
            buffer@ == chain(non_empty(es.take(done as int))),
            buffer@.len() == 0 <==> non_empty(es.take(done as int)).len() == 0,
            buffer@.len() > 0 ==> last == links(
                non_empty(es.take(done as int)).drop_last(),
            ).len(),
            buffer@.len() > 0 ==> last + room(non_empty(es.take(done as int)).last())
                == buffer@.len(),
            buffer@.len() > 0 ==> non_empty(es.take(done as int)).last().len() > 0,
        ensures
            done == total,
        decreases encoded@.len() - done,
    {
        let ghost rest = es.skip(done as int);
        let ghost e = es[done as int];
        let ghost so_far = non_empty(es.take(done as int));
        proof {
            assert(rest[0] == e);
            assert(rest.skip(1) =~= es.skip(done + 1));
            assert(es.take(done + 1).drop_last() =~= es.take(done as int));
            assert(es.take(done + 1).last() == e);
            lemma_align8(e.len() as int);
        }
        let bytes = &encoded[done];
        if bytes.len() == 0 {
            done += 1;
            continue;
        }
        assert(encoded@[done as int]@.len() + 7 <= usize::MAX);
        let aligned: usize = align_8(bytes.len());
        let prev_len: usize = buffer.len();
        if prev_len > 0 && (prev_len > cap || aligned > cap - prev_len) {
            // No room for this entry; stop.
            break;
        }
        // The entry before now has one behind it.

        let ghost before = buffer@;
        if prev_len > 0 {
            let mut next: Vec<u8> = Vec::new();
            push_u32(&mut next, (prev_len - last) as u32);
            assert(next@ =~= le32(room(so_far.last()) as u32));
            proof {
                lemma_align8(so_far.last().len() as int);
            }
            overwrite(buffer.as_mut_slice(), last, next.as_slice());
            assert(buffer@ =~= links(so_far.drop_last()) + linked(so_far.last()));
        }
        assert(buffer@ == links(so_far));
        last = prev_len;
        push_all(&mut buffer, bytes.as_slice());
        push_zeros(&mut buffer, aligned - bytes.len());
        assert(buffer@ =~= links(so_far) + pad8(e));
        assert(so_far.push(e).drop_last() =~= so_far);
        done += 1;
        if single_entry {
            break;
        }
    }
    proof {
        if done == encoded@.len() {
            lemma_done_bounds(es.skip(done as int), cap as int, single_entry, buffer@.len() as int);
        }
    }
    Packed { buffer, done }
}

/// `r` answers with a filled buffer; an empty one means that the listing is over.
pub open spec fn answers_listing(r: HandlerResponse, buffer: Seq<u8>) -> bool {
    if buffer.len() == 0 {
        error_response(r, STATUS_NO_MORE_FILES)
    } else {
        plain_response(r, STATUS_SUCCESS, output_body(buffer))
    }
}

/// Answers a request with a filled buffer; an empty one means that the listing
/// is over.
pub fn finish(buffer: &[u8]) -> (r: HandlerResponse)
    ensures
        answers_listing(r, buffer@),
        if buffer@.len() == 0 {
            error_response(r, STATUS_NO_MORE_FILES)
        } else {
            plain_response(r, STATUS_SUCCESS, output_body(buffer@))
        },
{
    if buffer.len() == 0 {
        return HandlerResponse::err(STATUS_NO_MORE_FILES);
    }
    HandlerResponse::ok(encode_output(buffer))
}

proof fn lemma_non_empty_add(a: Seq<Seq<u8>>, b: Seq<Seq<u8>>)
    ensures
        non_empty(a + b) == non_empty(a) + non_empty(b),
    decreases b.len(),
{
    if b.len() == 0 {
        assert(a + b =~= a);
        assert(non_empty(a) + non_empty(b) =~= non_empty(a));
    } else {
        lemma_non_empty_add(a, b.drop_last());
        assert((a + b).drop_last() =~= a + b.drop_last());
        assert(non_empty(a + b) =~= non_empty(a) + non_empty(b));
    }
}

proof fn lemma_non_empty_first(es: Seq<Seq<u8>>, n: int)
    requires
        0 < n <= es.len(),
    ensures
        non_empty(es.take(n)) == (if es[0].len() == 0 {
            seq![]
        } else {
            seq![es[0]]
        }) + non_empty(es.skip(1).take(n - 1)),
{
    let first = seq![es[0]];
    assert(es.take(n) =~= first + es.skip(1).take(n - 1));
    lemma_non_empty_add(first, es.skip(1).take(n - 1));
    reveal_with_fuel(non_empty, 2);
    assert(first.drop_last() =~= seq![]);
    assert(non_empty(first) =~= if es[0].len() == 0 {
        seq![]
    } else {
        seq![es[0]]
    });
}

/// The number of bytes that entries take up in the buffer.
pub open spec fn rooms(entries: Seq<Seq<u8>>) -> int
    decreases entries.len(),
{
    if entries.len() == 0 {
        0
    } else {
        room(entries[0]) + rooms(entries.skip(1))
    }
}

proof fn lemma_rooms_last(entries: Seq<Seq<u8>>)
    requires
        entries.len() > 0,
    ensures
        rooms(entries) == rooms(entries.drop_last()) + room(entries.last()),
    decreases entries.len(),
{
    reveal_with_fuel(rooms, 2);
    if entries.len() > 1 {
        lemma_rooms_last(entries.skip(1));
        assert(entries.skip(1).drop_last() =~= entries.drop_last().skip(1));
    }
}

proof fn lemma_links_len(entries: Seq<Seq<u8>>)
    requires
        forall|i: int| 0 <= i < entries.len() ==> (#[trigger] entries[i]).len() > 0,
    ensures
        links(entries).len() == rooms(entries),
        chain(entries).len() == rooms(entries),
    decreases entries.len(),
{
    if entries.len() > 0 {
        lemma_links_len(entries.drop_last());
        lemma_rooms_last(entries);
        lemma_align8(entries.last().len() as int);
    }
}

proof fn lemma_non_empty_entries(es: Seq<Seq<u8>>)
    ensures
        forall|i: int| 0 <= i < non_empty(es).len() ==> (#[trigger] non_empty(es)[i]).len() > 0,
    decreases es.len(),
{
    if es.len() > 0 {
        lemma_non_empty_entries(es.drop_last());
        let before = non_empty(es.drop_last());
        assert forall|i: int| 0 <= i < non_empty(es).len() implies (#[trigger] non_empty(
            es,
        )[i]).len() > 0 by {
            if i < before.len() {
                assert(non_empty(es)[i] == before[i]);
            }
        }
    }
}

#[verifier::rlimit(50)]
proof fn lemma_done_fits(es: Seq<Seq<u8>>, cap: int, single: bool, filled: int)
    requires
        0 <= filled,
    ensures
        ({
            let taken = non_empty(es.take(done_with(es, cap, single, filled)));
            &&& taken.len() == 0 || filled + rooms(taken) <= cap || (filled == 0 && taken.len() == 1)
            &&& single ==> taken.len() <= 1
            &&& filled == 0 && taken.len() == 0 ==> non_empty(es).len() == 0
        }),
    decreases es.len(),
{
    let n = done_with(es, cap, single, filled);
    lemma_done_bounds(es, cap, single, filled);
    if es.len() > 0 {
        lemma_done_bounds(es.skip(1), cap, single, filled);
        lemma_done_bounds(es.skip(1), cap, single, filled + room(es[0]));
    }
    if n == 0 {
        assert(es.take(n) =~= seq![]);
    } else {
        let rest = es.skip(1);
        lemma_non_empty_first(es, n);
        lemma_non_empty_first(es, es.len() as int);
        assert(es.take(es.len() as int) =~= es);
        assert(rest.take(rest.len() as int) =~= rest);
        let taken = non_empty(es.take(n));
        let later = non_empty(rest.take(n - 1));
        lemma_align8(es[0].len() as int);
        if es[0].len() == 0 {
            lemma_done_fits(rest, cap, single, filled);
            assert(taken =~= later);
            assert(non_empty(es) =~= non_empty(rest));
        } else {
            assert(taken[0] == es[0]);
            assert(taken.skip(1) =~= later);
            if single {
                assert(rest.take(0) =~= seq![]);
                assert(later.len() == 0);
            } else {
                lemma_done_fits(rest, cap, single, filled + room(es[0]));
            }
            assert(later.len() == 0 ==> rooms(later) == 0);
            assert(rooms(taken) == room(es[0]) + rooms(later));
        }
    }
}

/// What a response returns stays within the buffer that the client offered,
/// unless it is one entry that is too large for it; where a single entry was
/// asked for, no more is returned; and nothing is returned only when nothing is
/// left.
pub proof fn lemma_response_fits(entries: Seq<Seq<u8>>, cap: int, single: bool)
    requires
        0 <= cap,
    ensures
        chain(returned(entries, cap, single)).len() <= cap || returned(entries, cap, single).len()
            == 1,
        single ==> returned(entries, cap, single).len() <= 1,
        returned(entries, cap, single).len() == 0 <==> non_empty(entries).len() == 0,
        returned(entries, cap, single).len() == 0 <==> chain(
            returned(entries, cap, single),
        ).len() == 0,
{
    let taken = returned(entries, cap, single);
    let n = done_with(entries, cap, single, 0);
    lemma_done_fits(entries, cap, single, 0);
    lemma_done_bounds(entries, cap, single, 0);
    lemma_non_empty_entries(entries.take(n));
    lemma_links_len(taken);
    assert(entries =~= entries.take(n) + entries.skip(n));
    lemma_non_empty_add(entries.take(n), entries.skip(n));
    if taken.len() > 0 {
        lemma_align8(taken.last().len() as int);
    }
}

/// A listing that goes on where the last response ended returns every entry that
/// has bytes exactly once, in order: what this response returns, then what is
/// left, is what was there.
pub proof fn lemma_listing_goes_on(entries: Seq<Seq<u8>>, cap: int, single: bool)
    ensures
        0 <= done_with(entries, cap, single, 0) <= entries.len(),
        non_empty(entries) == returned(entries, cap, single) + non_empty(
            entries.skip(done_with(entries, cap, single, 0)),
        ),
{
    let n = done_with(entries, cap, single, 0);
    lemma_done_bounds(entries, cap, single, 0);
    assert(entries =~= entries.take(n) + entries.skip(n));
    lemma_non_empty_add(entries.take(n), entries.skip(n));
}

/// One request of a listing that is answered from the cursor.
pub struct Page {
    pub flags: u8,
    /// The size of the client's buffer.
    pub cap: int,
    /// All entries of the cursor, encoded as the request's class asks for.
    pub encoded: Seq<Seq<u8>>,
}

/// Where the cursor stands before page `k`: at the start for the first one, and
/// past what each page before was done with.
pub open spec fn cursor_before(pages: Seq<Page>, k: int) -> int
    decreases k,
{
    if k <= 0 {
        0
    } else {
        cursor_before(pages, k - 1) + page_done(pages[k - 1], cursor_before(pages, k - 1))
    }
}

/// How many entries a page is done with, where the cursor stands at `next`.
pub open spec fn page_done(page: Page, next: int) -> int {
    done_with(page.encoded.skip(next), page.cap, wants_single(page.flags), 0)
}

/// The encoded entries that page `k` returns.
pub open spec fn page_returned(pages: Seq<Page>, k: int) -> Seq<Seq<u8>> {
    returned(
        pages[k].encoded.skip(cursor_before(pages, k)),
        pages[k].cap,
        wants_single(pages[k].flags),
    )
}

/// The encoded entries that the first `n` pages return, one page behind the
/// other.
pub open spec fn all_returned(pages: Seq<Page>, n: int) -> Seq<Seq<u8>>
    decreases n,
{
    if n <= 0 {
        seq![]
    } else {
        all_returned(pages, n - 1) + page_returned(pages, n - 1)
    }
}

/// The entries of the cursor that page `k` is done with.
pub open spec fn page_entries(entries: Seq<DirEntry>, pages: Seq<Page>, k: int) -> Seq<DirEntry> {
    entries.subrange(cursor_before(pages, k), cursor_before(pages, k + 1))
}

/// The entries of the cursor that the first `n` pages are done with, one page
/// behind the other.
pub open spec fn all_entries(entries: Seq<DirEntry>, pages: Seq<Page>, n: int) -> Seq<DirEntry>
    decreases n,
{
    if n <= 0 {
        seq![]
    } else {
        all_entries(entries, pages, n - 1) + page_entries(entries, pages, n - 1)
    }
}

/// `pages` list the same `len` entries, each into a buffer of some size.
pub open spec fn same_listing(pages: Seq<Page>, len: nat) -> bool {
    forall|k: int|
        0 <= k < pages.len() ==> (#[trigger] pages[k]).encoded.len() == len && 0 <= pages[k].cap
}

proof fn lemma_cursor_in_bounds(pages: Seq<Page>, len: nat, k: int)
    requires
        same_listing(pages, len),
        0 <= k <= pages.len(),
    ensures
        0 <= cursor_before(pages, k) <= len,
        k > 0 ==> cursor_before(pages, k - 1) <= cursor_before(pages, k),
    decreases k,
{
    if k > 0 {
        lemma_cursor_in_bounds(pages, len, k - 1);
        let page = pages[k - 1];
        lemma_done_bounds(
            page.encoded.skip(cursor_before(pages, k - 1)),
            page.cap,
            wants_single(page.flags),
            0,
        );
    }
}

proof fn lemma_returned_so_far(pages: Seq<Page>, encoded: Seq<Seq<u8>>, n: int)
    requires
        same_listing(pages, encoded.len()),
        forall|k: int| 0 <= k < pages.len() ==> (#[trigger] pages[k]).encoded == encoded,
        0 <= n <= pages.len(),
    ensures
        non_empty(encoded) == all_returned(pages, n) + non_empty(
            encoded.skip(cursor_before(pages, n)),
        ),
    decreases n,
{
    if n == 0 {
        assert(encoded.skip(0) =~= encoded);
        assert(all_returned(pages, 0) + non_empty(encoded) =~= non_empty(encoded));
    } else {
        lemma_returned_so_far(pages, encoded, n - 1);
        lemma_cursor_in_bounds(pages, encoded.len(), n - 1);
        lemma_cursor_in_bounds(pages, encoded.len(), n);
        let next = cursor_before(pages, n - 1);
        let page = pages[n - 1];
        let done = page_done(page, next);
        lemma_listing_goes_on(encoded.skip(next), page.cap, wants_single(page.flags));
        assert(encoded.skip(next).skip(done) =~= encoded.skip(next + done));
        let left = non_empty(encoded.skip(next + done));
        assert(all_returned(pages, n - 1) + (page_returned(pages, n - 1) + left) =~= (all_returned(
            pages,
            n - 1,
        ) + page_returned(pages, n - 1)) + left);
    }
}

/// A listing returns everything once: where each page goes on from where the one
/// before ended, and the last one returns nothing, the pages together return
/// exactly the entries that have bytes, in their order.
pub proof fn lemma_listing_returns_all(pages: Seq<Page>, encoded: Seq<Seq<u8>>)
    requires
        pages.len() > 0,
        same_listing(pages, encoded.len()),
        forall|k: int| 0 <= k < pages.len() ==> (#[trigger] pages[k]).encoded == encoded,
        page_returned(pages, pages.len() - 1).len() == 0,
    ensures
        all_returned(pages, pages.len() as int) == non_empty(encoded),
{
    let n = pages.len() as int;
    let next = cursor_before(pages, n - 1);
    lemma_returned_so_far(pages, encoded, n - 1);
    lemma_response_fits(encoded.skip(next), pages[n - 1].cap, wants_single(pages[n - 1].flags));
    assert(all_returned(pages, n) =~= all_returned(pages, n - 1));
    assert(non_empty(encoded) =~= all_returned(pages, n - 1));
}

proof fn lemma_all_non_empty(es: Seq<Seq<u8>>)
    requires
        forall|i: int| 0 <= i < es.len() ==> (#[trigger] es[i]).len() > 0,
    ensures
        non_empty(es) == es,
    decreases es.len(),
{
    if es.len() > 0 {
        lemma_all_non_empty(es.drop_last());
        assert(es.drop_last().push(es.last()) =~= es);
    }
}

proof fn lemma_page_holds_its_entries(pages: Seq<Page>, len: nat, k: int)
    requires
        same_listing(pages, len),
        0 <= k < pages.len(),
        forall|i: int| 0 <= i < len ==> (#[trigger] pages[k].encoded[i]).len() > 0,
    ensures
        page_returned(pages, k) == pages[k].encoded.subrange(
            cursor_before(pages, k),
            cursor_before(pages, k + 1),
        ),
{
    lemma_cursor_in_bounds(pages, len, k);
    lemma_cursor_in_bounds(pages, len, k + 1);
    let next = cursor_before(pages, k);
    let done = page_done(pages[k], next);
    let taken = pages[k].encoded.skip(next).take(done);
    assert(taken =~= pages[k].encoded.subrange(next, next + done));
    assert forall|i: int| 0 <= i < taken.len() implies (#[trigger] taken[i]).len() > 0 by {
        assert(taken[i] == pages[k].encoded[next + i]);
    }
    lemma_all_non_empty(taken);
}

proof fn lemma_entries_so_far(entries: Seq<DirEntry>, pages: Seq<Page>, n: int)
    requires
        same_listing(pages, entries.len()),
        0 <= n <= pages.len(),
    ensures
        all_entries(entries, pages, n) == entries.take(cursor_before(pages, n)),
    decreases n,
{
    lemma_cursor_in_bounds(pages, entries.len(), n);
    if n == 0 {
        assert(entries.take(0) =~= seq![]);
    } else {
        lemma_entries_so_far(entries, pages, n - 1);
        lemma_cursor_in_bounds(pages, entries.len(), n - 1);
        assert(all_entries(entries, pages, n) =~= entries.take(cursor_before(pages, n)));
    }
}

/// A whole listing of a directory that the backend listed as `listed`: a request
/// that lists anew with `pattern`, then requests that do not, up to the one that
/// finds nothing left. Every entry encodes to some bytes, in whatever class each
/// request asks for. The replies together hold exactly the entries that the
/// pattern selects, each once, in the backend's order. Each reply holds its
/// entries in order, no more than one where a single one was asked for, and
/// stays within the client's buffer unless it holds one entry. Only the first
/// request makes the backend list.
#[verifier::rlimit(50)]
pub proof fn lemma_whole_listing(
    listed: Seq<DirEntry>,
    pattern: Option<Seq<char>>,
    pages: Seq<Page>,
    had_cursor: bool,
)
    requires
        pages.len() > 0,
        same_listing(pages, listed.filter(selected_by(pattern)).len()),
        forall|k: int, i: int|
            0 <= k < pages.len() && 0 <= i < pages[k].encoded.len() ==> (
            #[trigger] pages[k].encoded[i]).len() > 0,
        refills(had_cursor, pages[0].flags),
        forall|k: int| 0 < k < pages.len() ==> !restarts((#[trigger] pages[k]).flags),
        page_returned(pages, pages.len() - 1).len() == 0,
    ensures
        all_entries(listed.filter(selected_by(pattern)), pages, pages.len() as int)
            == listed.filter(selected_by(pattern)),
        forall|k: int|
            #![trigger page_returned(pages, k)]
            0 <= k < pages.len() ==> {
                &&& page_returned(pages, k) == pages[k].encoded.subrange(
                    cursor_before(pages, k),
                    cursor_before(pages, k + 1),
                )
                &&& wants_single(pages[k].flags) ==> page_returned(pages, k).len() <= 1
                &&& chain(page_returned(pages, k)).len() <= pages[k].cap || page_returned(
                    pages,
                    k,
                ).len() == 1
            },
        forall|k: int|
            0 < k < pages.len() ==> !refills(true, (#[trigger] pages[k]).flags),
{
    let entries = listed.filter(selected_by(pattern));
    let n = pages.len() as int;
    assert forall|k: int|
        #![trigger page_returned(pages, k)]
        0 <= k < pages.len() implies {
        &&& page_returned(pages, k) == pages[k].encoded.subrange(
            cursor_before(pages, k),
            cursor_before(pages, k + 1),
        )
        &&& wants_single(pages[k].flags) ==> page_returned(pages, k).len() <= 1
        &&& chain(page_returned(pages, k)).len() <= pages[k].cap || page_returned(pages, k).len()
            == 1
    } by {
        lemma_page_holds_its_entries(pages, entries.len(), k);
        lemma_response_fits(
            pages[k].encoded.skip(cursor_before(pages, k)),
            pages[k].cap,
            wants_single(pages[k].flags),
        );
    }
    let next = cursor_before(pages, n - 1);
    let rest = pages[n - 1].encoded.skip(next);
    lemma_cursor_in_bounds(pages, entries.len(), n - 1);
    lemma_cursor_in_bounds(pages, entries.len(), n);
    lemma_response_fits(rest, pages[n - 1].cap, wants_single(pages[n - 1].flags));
    assert forall|i: int| 0 <= i < rest.len() implies (#[trigger] rest[i]).len() > 0 by {
        assert(rest[i] == pages[n - 1].encoded[next + i]);
    }
    lemma_all_non_empty(rest);
    lemma_entries_so_far(entries, pages, n);
    assert(entries.take(entries.len() as int) =~= entries);
}

/// Where entry `i` begins in the buffer.
pub open spec fn entry_at(entries: Seq<Seq<u8>>, i: int) -> int {
    links(entries.take(i)).len() as int
}

proof fn lemma_links_step(entries: Seq<Seq<u8>>, i: int)
    requires
        0 <= i < entries.len(),
    ensures
        links(entries.take(i + 1)) == links(entries.take(i)) + linked(entries[i]),
{
    assert(entries.take(i + 1).drop_last() =~= entries.take(i));
}

proof fn lemma_links_prefix(entries: Seq<Seq<u8>>, i: int)
    requires
        0 <= i < entries.len(),
    ensures
        links(entries.take(i)).len() <= chain(entries).len(),
        links(entries.take(i)) == chain(entries).take(links(entries.take(i)).len() as int),
    decreases entries.len() - i,
{
    if i == entries.len() - 1 {
        assert(entries.take(i) =~= entries.drop_last());
    } else {
        lemma_links_prefix(entries, i + 1);
        lemma_links_step(entries, i);
    }
    assert(chain(entries).take(links(entries.take(i)).len() as int) =~= links(entries.take(i)));
}

/// A client that follows the NextEntryOffsets from the start of the buffer meets
/// exactly the entries, in their order, each at a multiple of 8 and unchanged
/// but for its NextEntryOffset; the last entry is unchanged throughout.
pub proof fn lemma_chain_walk(entries: Seq<Seq<u8>>, i: int)
    requires
        0 <= i < entries.len(),
        forall|k: int| 0 <= k < entries.len() ==> (#[trigger] entries[k]).len() >= 4,
        forall|k: int| 0 <= k < entries.len() ==> room(#[trigger] entries[k]) <= u32::MAX,
    ensures
        entry_at(entries, 0) == 0,
        entry_at(entries, i) % 8 == 0,
        entry_at(entries, i) + room(entries[i]) <= chain(entries).len(),
        chain(entries).subrange(
            entry_at(entries, i) + 4,
            entry_at(entries, i) + entries[i].len(),
        ) == entries[i].skip(4),
        i + 1 < entries.len() ==> {
            &&& entry_at(entries, i + 1) == entry_at(entries, i) + room(entries[i])
            &&& le32_at(chain(entries), entry_at(entries, i)) == room(entries[i])
        },
        i + 1 == entries.len() ==> {
            &&& chain(entries).subrange(
                entry_at(entries, i),
                entry_at(entries, i) + entries[i].len(),
            ) == entries[i]
            &&& chain(entries).len() == entry_at(entries, i) + room(entries[i])
        },
{
    let front = links(entries.take(i));
    let e = entries[i];
    assert(entries.take(0) =~= seq![]);
    lemma_entry_aligned(entries, i);
    if i + 1 < entries.len() {
        lemma_links_step(entries, i);
        lemma_links_prefix(entries, i + 1);
        lemma_linked_inside(front, e, chain(entries));
    } else {
        assert(entries.take(i) =~= entries.drop_last());
        lemma_last_inside(front, e, chain(entries));
    }
}

proof fn lemma_entry_aligned(entries: Seq<Seq<u8>>, i: int)
    requires
        0 <= i <= entries.len(),
        forall|k: int| 0 <= k < entries.len() ==> (#[trigger] entries[k]).len() >= 4,
    ensures
        entry_at(entries, i) % 8 == 0,
    decreases i,
{
    if i > 0 {
        lemma_entry_aligned(entries, i - 1);
        lemma_links_step(entries, i - 1);
        lemma_align8(entries[i - 1].len() as int);
        assert(linked(entries[i - 1]).len() == room(entries[i - 1]));
    } else {
        assert(entries.take(0) =~= seq![]);
    }
}

proof fn lemma_linked_inside(front: Seq<u8>, e: Seq<u8>, c: Seq<u8>)
    requires
        e.len() >= 4,
        room(e) <= u32::MAX,
        front.len() + linked(e).len() <= c.len(),
        c.take((front + linked(e)).len() as int) == front + linked(e),
    ensures
        linked(e).len() == room(e),
        c.subrange(front.len() as int + 4, (front.len() + e.len()) as int) == e.skip(4),
        le32_at(c, front.len() as int) == room(e),
{
    let at = front.len() as int;
    let whole = front + linked(e);
    lemma_align8(e.len() as int);
    assert(linked(e).len() == room(e));
    let part = c.subrange(at, at + room(e));
    assert(part =~= whole.subrange(at, at + room(e)));
    assert(part =~= linked(e));
    assert(c.subrange(at + 4, at + e.len()) =~= part.subrange(4, e.len() as int));
    assert(linked(e).subrange(4, e.len() as int) =~= e.skip(4));
    assert(c.subrange(at, at + 4) =~= part.subrange(0, 4));
    assert(linked(e).subrange(0, 4) =~= le32(room(e) as u32));
    lemma_le32_round_trip(c, at, room(e) as u32);
}

proof fn lemma_last_inside(front: Seq<u8>, e: Seq<u8>, c: Seq<u8>)
    requires
        e.len() >= 4,
        c == front + pad8(e),
    ensures
        c.len() == front.len() + room(e),
        c.subrange(front.len() as int, (front.len() + e.len()) as int) == e,
        c.subrange(front.len() as int + 4, (front.len() + e.len()) as int) == e.skip(4),
{
    let at = front.len() as int;
    lemma_align8(e.len() as int);
    assert(c.subrange(at, at + e.len()) =~= e);
    assert(c.subrange(at + 4, at + e.len()) =~= e.skip(4));
}

// ---------------------------------------------------------------------------
// What a request asks for
// ---------------------------------------------------------------------------

/// The flags of a request: bits 1 and 10 list anew, bit 2 asks for a single entry,
/// and no other bit counts. Without a listing under way the directory is listed in
/// any case.
pub proof fn lemma_listing_flags(flags: u8, has_cursor: bool)
    ensures
        restarts(flags) <==> flags as int % 2 == 1 || (flags as int / 16) % 2 == 1,
        wants_single(flags) <==> (flags as int / 2) % 2 == 1,
        refills(has_cursor, flags) <==> !has_cursor || flags as int % 2 == 1 || (flags as int / 16)
            % 2 == 1,
{
    assert((flags & 1u8 != 0) <==> flags % 2 == 1) by (bit_vector);
    assert((flags & 2u8 != 0) <==> (flags / 2) % 2 == 1) by (bit_vector);
    assert((flags & 0x10u8 != 0) <==> (flags / 16) % 2 == 1) by (bit_vector);
}

/// The pattern of a request is its text, unless that is empty or `*`: a name that
/// encodes the text `s` asks for the pattern `s`, and one with a byte too many for
/// none.
pub proof fn lemma_pattern_of_text(s: Seq<char>, name: Seq<u8>)
    ensures
        pattern_of(units_le(utf16(s))) == if s.len() == 0 || s == seq!['*'] {
            None
        } else {
            Some(s)
        },
        name.len() as int % 2 == 1 ==> pattern_of(name) is None,
        name.len() as int % 2 == 0 ==> match pattern_of(name) {
            Some(text) => text == utf16_lossy(le_units(name)) && text.len() > 0 && text != seq!['*'],
            None => utf16_lossy(le_units(name)).len() == 0 || utf16_lossy(le_units(name))
                == seq!['*'],
        },
{
    lemma_utf16le_round_trip(s);
    assert(units_le(utf16(s)).len() % 2 == 0);
}

/// Which entries a listing holds: all of them without a pattern, and otherwise
/// those whose name the pattern selects.
pub proof fn lemma_selected(pattern: Option<Seq<char>>, e: DirEntry, given: Option<String>)
    ensures
        text_of(given) is Some <==> given is Some,
        given matches Some(s) ==> text_of(given) == Some(s@),
        pattern is None ==> selected_by(pattern)(e),
        pattern matches Some(p) ==> (selected_by(pattern)(e) <==> dos_match(p, e.info.name@)),
{
}

/// Why a listing is refused, in full and first reason first: a request that does
/// not parse is STATUS_INVALID_PARAMETER (C000000D); an unknown class
/// STATUS_INVALID_INFO_CLASS (C0000003); a tree that does not exist gives its own
/// status; no open is STATUS_FILE_CLOSED (C0000128); an open that is no directory
/// STATUS_INVALID_PARAMETER; listing anew on an open without its handle
/// STATUS_FILE_CLOSED. Nothing else is refused.
pub proof fn lemma_listing_refusals(
    req: QueryDirectoryRequest,
    tree: Result<(), u32>,
    open: Option<ListedOpen>,
)
    ensures
        refusal(None, tree, open) == Some(0xC000_000Du32),
        ({
            let r = refusal(Some(req), tree, open);
            &&& !req.class_known ==> r == Some(0xC000_0003u32)
            &&& req.class_known && tree is Err ==> r == Some(tree->Err_0)
            &&& req.class_known && tree is Ok && open is None ==> r == Some(0xC000_0128u32)
            &&& req.class_known && tree is Ok && open is Some ==> {
                let o = open->0;
                let anew = !o.has_cursor || req.flags as int % 2 == 1 || (req.flags as int / 16) % 2
                    == 1;
                &&& !o.is_directory ==> r == Some(0xC000_000Du32)
                &&& o.is_directory && anew && !o.has_handle ==> r == Some(0xC000_0128u32)
                &&& o.is_directory && (!anew || o.has_handle) ==> r is None
            }
        }),
{
    lemma_listing_flags(req.flags, false);
}

proof fn lemma_done_full(es: Seq<Seq<u8>>, cap: int, single: bool, filled: int)
    requires
        0 <= filled,
    ensures
        ({
            let n = done_with(es, cap, single, filled);
            let taken = non_empty(es.take(n));
            &&& !single && n < es.len() ==> es[n].len() > 0 && filled + rooms(taken) + room(es[n])
                > cap && filled + rooms(taken) > 0
            &&& single && filled == 0 && n < es.len() ==> taken.len() == 1
        }),
    decreases es.len(),
{
    let n = done_with(es, cap, single, filled);
    lemma_done_bounds(es, cap, single, filled);
    if es.len() > 0 {
        let rest = es.skip(1);
        lemma_done_bounds(rest, cap, single, filled);
        lemma_done_bounds(rest, cap, single, filled + room(es[0]));
        lemma_align8(es[0].len() as int);
        if n == 0 {
            assert(es.take(0) =~= seq![]);
        } else {
            lemma_non_empty_first(es, n);
            let taken = non_empty(es.take(n));
            let later = non_empty(rest.take(n - 1));
            if n < es.len() {
                assert(rest[n - 1] == es[n]);
            }
            if es[0].len() == 0 {
                lemma_done_full(rest, cap, single, filled);
                assert(taken =~= later);
            } else {
                assert(taken[0] == es[0]);
                assert(taken.skip(1) =~= later);
                assert(rooms(taken) == room(es[0]) + rooms(later));
                if single {
                    assert(rest.take(0) =~= seq![]);
                } else {
                    lemma_done_full(rest, cap, single, filled + room(es[0]));
                }
            }
        }
    }
}

/// A response returns as much as fits: where it does not end the listing, and not
/// a single entry was asked for, the next entry has bytes and, rounded up to a
/// multiple of 8, would not fit in what is left of the client's buffer. Where a
/// single entry was asked for and is there, one is returned.
pub proof fn lemma_response_full(entries: Seq<Seq<u8>>, cap: int, single: bool)
    requires
        0 <= cap,
    ensures
        ({
            let n = done_with(entries, cap, single, 0);
            let buffer = chain(returned(entries, cap, single));
            &&& !single && n < entries.len() ==> entries[n].len() > 0 && buffer.len() + (
            entries[n].len() + 7) / 8 * 8 > cap
            &&& single && n < entries.len() ==> returned(entries, cap, single).len() == 1
        }),
{
    let n = done_with(entries, cap, single, 0);
    lemma_done_full(entries, cap, single, 0);
    lemma_done_bounds(entries, cap, single, 0);
    lemma_non_empty_entries(entries.take(n));
    lemma_links_len(returned(entries, cap, single));
}

/// The entries that have bytes: a list grows by an entry exactly if that has any.
pub proof fn lemma_non_empty_grows(entries: Seq<Seq<u8>>, e: Seq<u8>)
    ensures
        non_empty(Seq::<Seq<u8>>::empty()).len() == 0,
        non_empty(entries.push(e)) == if e.len() == 0 {
            non_empty(entries)
        } else {
            non_empty(entries).push(e)
        },
{
    assert(entries.push(e).drop_last() =~= entries);
    assert(entries.push(e).last() == e);
}

/// What lies between an entry and the next one, or the end of the buffer, is zero.
pub proof fn lemma_entry_padding(entries: Seq<Seq<u8>>, i: int, k: int)
    requires
        0 <= i < entries.len(),
        forall|j: int| 0 <= j < entries.len() ==> (#[trigger] entries[j]).len() >= 4,
        entries[i].len() <= k,
        k < (entries[i].len() + 7) / 8 * 8,
    ensures
        entry_at(entries, i) + k < chain(entries).len(),
        chain(entries)[entry_at(entries, i) + k] == 0,
{
    let e = entries[i];
    let at = entry_at(entries, i);
    lemma_align8(e.len() as int);
    if i + 1 < entries.len() {
        lemma_links_step(entries, i);
        lemma_links_prefix(entries, i + 1);
        let whole = links(entries.take(i + 1));
        assert(linked(e).len() == room(e));
        assert(whole[at + k] == linked(e)[k]);
        assert(chain(entries).take(whole.len() as int)[at + k] == chain(entries)[at + k]);
    } else {
        assert(entries.take(i) =~= entries.drop_last());
        assert(chain(entries)[at + k] == pad8(e)[k]);
    }
}

/// A listing request succeeds exactly if there is something to return, and then
/// carries all of it behind eight bytes; otherwise it is STATUS_NO_MORE_FILES
/// (80000006).
pub proof fn lemma_listing_answer(r: HandlerResponse, buffer: Seq<u8>)
    requires
        answers_listing(r, buffer),
        buffer.len() <= u32::MAX,
    ensures
        buffer.len() > 0 ==> r.status == 0 && r.body@.len() == 8 + buffer.len() && r.body@.skip(8)
            == buffer,
        buffer.len() == 0 ==> r.status == 0x8000_0006 && r.body@.len() == 9,
{
    crate::messages::lemma_output_layout(buffer);
}

} // verus!
