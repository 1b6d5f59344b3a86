//! Small helpers shared across modules.

use vstd::prelude::*;

use std::time::{SystemTime, UNIX_EPOCH};

use crate::bytes::{push_u16, read_u16};
use crate::text::{chars_of, eq_ignore_ascii_case};

verus! {

/// Number of 100-nanosecond intervals between 1601-01-01 (Windows FILETIME
/// epoch) and 1970-01-01 (UNIX epoch). 369 years.
pub const FILETIME_OFFSET: u64 = 116_444_736_000_000_000;

/// A point in time of the system clock.
#[verifier::external_type_specification]
#[verifier::external_body]
pub struct ExSystemTime(SystemTime);

/// The whole seconds and the nanoseconds past them from the UNIX epoch to `t`,
/// or nothing where `t` lies before the UNIX epoch: what
/// `SystemTime::duration_since(UNIX_EPOCH)` gives.
pub uninterp spec fn unix_span(t: SystemTime) -> Option<(u64, u32)>;

/// `SystemTime::duration_since` the UNIX epoch, as seconds and nanoseconds. The
/// nanoseconds are a fraction of a second: fewer than one billion.
#[verifier::external_body]
fn since_unix_epoch(t: SystemTime) -> (span: Option<(u64, u32)>)
    ensures
        span == unix_span(t),
        span matches Some((_, nanos)) ==> nanos < 1_000_000_000,
{
    match t.duration_since(UNIX_EPOCH) {
        Ok(d) => Some((d.as_secs(), d.subsec_nanos())),
        Err(_) => None,
    }
}

/// `SystemTime::now`: the clock of the machine, of which nothing is promised.
#[verifier::external_body]
fn system_now() -> (t: SystemTime) {
    SystemTime::now()
}

/// The FILETIME of a span since the UNIX epoch: 100ns ticks since 1601. A time
/// before 1970 is clamped to the FILETIME epoch.
pub open spec fn filetime_of(span: Option<(u64, u32)>) -> int {
    match span {
        Some((secs, nanos)) => FILETIME_OFFSET + secs * 10_000_000 + nanos as int / 100,
        None => 0,
    }
}

/// Converts a span since the UNIX epoch, in seconds and nanoseconds, to a
/// Windows FILETIME.
pub fn span_to_filetime(span: Option<(u64, u32)>) -> (ticks: u64)
    requires
        filetime_of(span) <= u64::MAX,
    ensures
        ticks == filetime_of(span),
{
    match span {
        Some((secs, nanos)) => FILETIME_OFFSET + secs * 10_000_000 + nanos as u64 / 100,
        None => 0,
    }
}

/// Converts a span since the UNIX epoch to a Windows FILETIME, or gives `None`
/// where it lies past the last FILETIME.
pub fn checked_span_to_filetime(span: Option<(u64, u32)>) -> (ticks: Option<u64>)
    ensures
        match ticks {
            Some(v) => v == filetime_of(span),
            None => filetime_of(span) > u64::MAX,
        },
{
    if let Some((secs, nanos)) = span {
        let fraction: u64 = nanos as u64 / 100;
        if secs > (u64::MAX - FILETIME_OFFSET - fraction) / 10_000_000 {
            return None;
        }
    }
    Some(span_to_filetime(span))
}

/// Converts a `SystemTime` to a Windows FILETIME (100ns ticks since 1601).
pub fn system_time_to_filetime(t: SystemTime) -> (ticks: u64)
    requires
        filetime_of(unix_span(t)) <= u64::MAX,
    ensures
        ticks == filetime_of(unix_span(t)),
        is_span(unix_span(t)),
{
    span_to_filetime(since_unix_epoch(t))
}

/// Converts a `SystemTime` to a Windows FILETIME, or gives `None` where it lies
/// past the last FILETIME.
pub fn checked_system_time_to_filetime(t: SystemTime) -> (ticks: Option<u64>)
    ensures
        match ticks {
            Some(v) => v == filetime_of(unix_span(t)),
            None => filetime_of(unix_span(t)) > u64::MAX,
        },
        is_span(unix_span(t)),
{
    if checked_span_to_filetime(since_unix_epoch(t)).is_none() {
        return None;
    }
    Some(system_time_to_filetime(t))
}

/// The nanoseconds of a span are a fraction of a second, as those of a
/// `SystemTime`'s span are.
pub open spec fn is_span(span: Option<(u64, u32)>) -> bool {
    span matches Some((_, nanos)) ==> nanos < 1_000_000_000
}

/// The nanoseconds from the UNIX epoch that a span takes.
pub open spec fn span_nanos(span: (u64, u32)) -> int {
    span.0 * 1_000_000_000 + span.1
}

/// The span `a` leads to no later time than the span `b`. A time before the UNIX
/// epoch, which has no span, comes before every other one.
pub open spec fn no_later(a: Option<(u64, u32)>, b: Option<(u64, u32)>) -> bool {
    match (a, b) {
        (None, _) => true,
        (Some(_), None) => false,
        (Some(x), Some(y)) => x.0 < y.0 || (x.0 == y.0 && x.1 <= y.1),
    }
}

/// A FILETIME counts whole ticks of 100ns: 0 for a time before the UNIX epoch,
/// and otherwise the ticks up to the UNIX epoch and those since then, rounded
/// down.
pub proof fn lemma_filetime_ticks(span: Option<(u64, u32)>)
    ensures
        span is None ==> filetime_of(span) == 0,
        span matches Some(s) ==> filetime_of(span) == FILETIME_OFFSET + span_nanos(s) / 100,
        span matches Some((secs, nanos)) ==> filetime_of(span) == 116_444_736_000_000_000 + (secs
            * 1_000_000_000 + nanos) / 100,
{
}

/// A later time has no smaller FILETIME.
pub proof fn lemma_filetime_monotone(a: Option<(u64, u32)>, b: Option<(u64, u32)>)
    requires
        is_span(a),
        is_span(b),
        no_later(a, b),
    ensures
        filetime_of(a) <= filetime_of(b),
{
}

/// Converts "now" to FILETIME; `None` where the machine's clock stands past the
/// last FILETIME.
pub fn now_filetime() -> (ticks: Option<u64>)
    ensures
        exists|now: SystemTime|
            match ticks {
                Some(v) => v == filetime_of(#[trigger] unix_span(now)),
                None => filetime_of(unix_span(now)) > u64::MAX,
            },
{
    let now = system_now();
    let ticks = checked_system_time_to_filetime(now);
    assert(match ticks {
        Some(v) => v == filetime_of(unix_span(now)),
        None => filetime_of(unix_span(now)) > u64::MAX,
    });
    ticks
}

/// The bytes of `units`, each unit least significant byte first.
pub open spec fn units_le(units: Seq<u16>) -> Seq<u8> {
    Seq::new(
        2 * units.len(),
        |i: int| crate::bytes::le16(units[i / 2])[i % 2],
    )
}

/// The units that `bytes` holds, each unit least significant byte first.
pub open spec fn le_units(bytes: Seq<u8>) -> Seq<u16> {
    Seq::new(bytes.len() / 2, |i: int| crate::bytes::le16_at(bytes, 2 * i))
}

/// Encodes a `&str` to little-endian UTF-16 bytes.
pub fn utf16le(s: &str) -> (out: Vec<u8>)
    ensures
        out@ == units_le(crate::utf16::utf16(s@)),
{
    let units = crate::utf16::encode(s);
    let mut out: Vec<u8> = Vec::new();
    let mut i: usize = 0;
    while i < units.len()
        invariant
            i <= units@.len(),
            out@ == units_le(units@.take(i as int)),
        decreases units@.len() - i,
    {
        push_u16(&mut out, units[i]);
        assert(out@ =~= units_le(units@.take(i + 1)));
        i += 1;
    }
    assert(units@.take(i as int) =~= units@);
    out
}

/// Decodes a UTF-16LE byte slice. Returns an empty string if the buffer is not
/// 2-byte aligned (caller decides what to do); replacement characters on
/// invalid surrogates.
pub fn utf16le_to_string(bytes: &[u8]) -> (s: String)
    ensures
        s@ == if bytes@.len() % 2 == 0 {
            crate::utf16::utf16_lossy(le_units(bytes@))
        } else {
            Seq::<char>::empty()
        },
{
    match utf16le_to_units(bytes) {
        Some(units) => crate::utf16::decode_lossy(units.as_slice()),
        None => String::new(),
    }
}

/// Decodes a UTF-16LE byte slice into a `Vec<u16>`, returning `None` on a
/// non-aligned buffer.
pub fn utf16le_to_units(bytes: &[u8]) -> (r: Option<Vec<u16>>)
    ensures
        match r {
            Some(units) => bytes@.len() % 2 == 0 && units@ == le_units(bytes@),
            None => bytes@.len() % 2 != 0,
        },
{
    if bytes.len() % 2 != 0 {
        return None;
    }
    let count: usize = bytes.len() / 2;
    let mut units: Vec<u16> = Vec::new();
    let mut i: usize = 0;
    while i < count
        invariant
            i <= count,
            2 * count == bytes@.len(),
            bytes@.len() <= usize::MAX,
            units@ == le_units(bytes@).take(i as int),
        decreases count - i,
    {
        units.push(read_u16(bytes, 2 * i));
        assert(units@ =~= le_units(bytes@).take(i + 1));
        i += 1;
    }
    assert(units@ =~= le_units(bytes@));
    Some(units)
}

/// The units of encoded bytes are the units that were encoded.
pub proof fn lemma_units_round_trip(units: Seq<u16>)
    ensures
        le_units(units_le(units)) == units,
{
    let bytes = units_le(units);
    assert forall|i: int| 0 <= i < units.len() implies le_units(bytes)[i] == units[i] by {
        assert((2 * i) / 2 == i && (2 * i) % 2 == 0);
        assert((2 * i + 1) / 2 == i && (2 * i + 1) % 2 == 1);
        assert(bytes[2 * i] == crate::bytes::le16(units[i])[0]);
        assert(bytes[2 * i + 1] == crate::bytes::le16(units[i])[1]);
    }
    assert(le_units(bytes) =~= units);
}

/// Decoding the UTF-16LE bytes of a text gives the text back: the units are the
/// text's units, and the decoded string is the text.
pub proof fn lemma_utf16le_round_trip(s: Seq<char>)
    ensures
        units_le(crate::utf16::utf16(s)).len() % 2 == 0,
        le_units(units_le(crate::utf16::utf16(s))) == crate::utf16::utf16(s),
        crate::utf16::utf16_lossy(le_units(units_le(crate::utf16::utf16(s)))) == s,
{
    let units = crate::utf16::utf16(s);
    lemma_units_round_trip(units);
    assert(units.skip(0) =~= units);
    crate::utf16::lemma_lossy_from_utf16(units, 0, s);
}

/// One pattern character that is not `*` accepts one name character: `?`
/// accepts every character, any other one accepts itself up to ASCII case.
pub open spec fn wild_char(p: char, c: char) -> bool {
    p == '?' || crate::text::same_letter(p, c)
}

/// The pattern `p`, read from index `i`, matches the name `n`, read from
/// index `j`: `*` stands for any sequence of characters (also the empty one),
/// every other pattern character for exactly one.
pub open spec fn wild_from(p: Seq<char>, n: Seq<char>, i: int, j: int) -> bool
    decreases (p.len() - i) + (n.len() - j),
    when 0 <= i <= p.len() && 0 <= j <= n.len()
{
    if i == p.len() {
        j == n.len()
    } else if p[i] == '*' {
        wild_from(p, n, i + 1, j) || (j < n.len() && wild_from(p, n, i, j + 1))
    } else {
        j < n.len() && wild_char(p[i], n[j]) && wild_from(p, n, i + 1, j + 1)
    }
}

/// The whole pattern matches the whole name.
pub open spec fn wild_match(p: Seq<char>, n: Seq<char>) -> bool {
    wild_from(p, n, 0, 0)
}

/// The patterns that clients use for "everything".
pub open spec fn is_match_all(p: Seq<char>) -> bool {
    p.len() == 0 || p == seq!['*'] || p == seq!['*', '.', '*']
}

/// Which names an SMB directory pattern selects.
pub open spec fn dos_match(p: Seq<char>, n: Seq<char>) -> bool {
    is_match_all(p) || wild_match(p, n)
}

/// A stretch of `k` pattern characters without `*` consumes exactly `k` name
/// characters.
proof fn lemma_wild_segment(p: Seq<char>, n: Seq<char>, i: int, j: int, k: int)
    requires
        0 <= i,
        0 <= k,
        i + k <= p.len(),
        0 <= j <= n.len(),
        forall|t: int| i <= t < i + k ==> p[t] != '*',
        wild_from(p, n, i, j),
    ensures
        j + k <= n.len(),
        wild_from(p, n, i + k, j + k),
    decreases k,
{
    if k > 0 {
        lemma_wild_segment(p, n, i + 1, j + 1, k - 1);
    }
}

/// A `*` that matches from `m` on also matches from any earlier position.
proof fn lemma_star_absorbs(p: Seq<char>, n: Seq<char>, i: int, j: int, m: int)
    requires
        0 <= i < p.len(),
        p[i] == '*',
        0 <= j <= m <= n.len(),
        wild_from(p, n, i, m),
    ensures
        wild_from(p, n, i, j),
    decreases m - j,
{
    if j < m {
        lemma_star_absorbs(p, n, i, j + 1, m);
    }
}

/// A `*` matches exactly if the rest of the pattern matches from some later
/// position.
proof fn lemma_star_stops(p: Seq<char>, n: Seq<char>, i: int, j: int)
    requires
        0 <= i < p.len(),
        p[i] == '*',
        0 <= j <= n.len(),
        wild_from(p, n, i, j),
    ensures
        exists|m: int| j <= m <= n.len() && #[trigger] wild_from(p, n, i + 1, m),
    decreases n.len() - j,
{
    if !wild_from(p, n, i + 1, j) {
        lemma_star_stops(p, n, i, j + 1);
    }
}

/// With the name used up, only trailing `*` can be left in the pattern.
proof fn lemma_wild_end(p: Seq<char>, n: Seq<char>, i: int)
    requires
        0 <= i <= p.len(),
    ensures
        wild_from(p, n, i, n.len() as int) <==> (forall|t: int| i <= t < p.len() ==> p[t] == '*'),
    decreases p.len() - i,
{
    if i < p.len() {
        lemma_wild_end(p, n, i + 1);
    }
}

proof fn lemma_literal_from(p: Seq<char>, n: Seq<char>, i: int, j: int)
    requires
        0 <= i <= p.len(),
        0 <= j <= n.len(),
        forall|t: int| 0 <= t < p.len() ==> p[t] != '*' && p[t] != '?',
    ensures
        wild_from(p, n, i, j) <==> p.len() - i == n.len() - j && forall|t: int|
            i <= t < p.len() ==> crate::text::same_letter(#[trigger] p[t], n[t - i + j]),
    decreases p.len() - i,
{
    if i < p.len() && j < n.len() {
        lemma_literal_from(p, n, i + 1, j + 1);
        if wild_from(p, n, i, j) {
            assert forall|t: int| i <= t < p.len() implies crate::text::same_letter(
                #[trigger] p[t],
                n[t - i + j],
            ) by {
                if t > i {
                    assert(n[t - (i + 1) + (j + 1)] == n[t - i + j]);
                }
            }
        }
        if p.len() - i == n.len() - j && (forall|t: int|
            i <= t < p.len() ==> crate::text::same_letter(#[trigger] p[t], n[t - i + j])) {
            assert(crate::text::same_letter(p[i], n[j]));
            assert forall|t: int| i + 1 <= t < p.len() implies crate::text::same_letter(
                #[trigger] p[t],
                n[t - (i + 1) + (j + 1)],
            ) by {
                assert(n[t - (i + 1) + (j + 1)] == n[t - i + j]);
            }
        }
    }
}

/// A pattern without wildcards selects one name, up to ASCII case: an exact-name
/// lookup never selects an unrelated sibling.
pub proof fn lemma_exact_pattern(p: Seq<char>, n: Seq<char>)
    requires
        p.len() > 0,
        forall|t: int| 0 <= t < p.len() ==> p[t] != '*' && p[t] != '?',
    ensures
        dos_match(p, n) <==> p.len() == n.len() && forall|t: int|
            0 <= t < p.len() ==> crate::text::same_letter(#[trigger] p[t], n[t]),
{
    lemma_literal_from(p, n, 0, 0);
    assert(p[0] != '*');
    if forall|t: int| 0 <= t < p.len() ==> crate::text::same_letter(#[trigger] p[t], n[t]) {
        assert forall|t: int| 0 <= t < p.len() implies crate::text::same_letter(
            #[trigger] p[t],
            n[t - 0 + 0],
        ) by {}
    }
    if wild_match(p, n) {
        assert forall|t: int| 0 <= t < p.len() implies crate::text::same_letter(
            #[trigger] p[t],
            n[t],
        ) by {
            assert(n[t - 0 + 0] == n[t]);
        }
    }
}

/// Matches an SMB directory entry name against the supported subset of DOS
/// wildcard syntax. `?` matches one character, `*` matches any sequence, and
/// comparison is ASCII case-insensitive. Empty, `*`, and `*.*` are the
/// conventional match-all patterns used by SMB clients.
pub fn dos_pattern_matches(pattern: &str, name: &str) -> (matches: bool)
    ensures
        matches == dos_match(pattern@, name@),
{
    // Walk both strings as characters so `?` matches a character rather than
    // a byte.
    let pattern = chars_of(pattern);
    let name = chars_of(name);
    if pattern.len() == 0 || (pattern.len() == 1 && pattern[0] == '*') || (pattern.len() == 3
        && pattern[0] == '*' && pattern[1] == '.' && pattern[2] == '*') {
        assert(pattern@.len() == 1 ==> pattern@ =~= seq!['*']);
        assert(pattern@.len() == 3 ==> pattern@ =~= seq!['*', '.', '*']);
        return true;
    }
    dos_pattern_matches_inner(pattern.as_slice(), name.as_slice())
}

/// The part of a wildcard search that is still open once `*` has been tried at
/// `stop`: the rest of the pattern, from `after`, matches from a later place.
spec fn wild_later(p: Seq<char>, n: Seq<char>, after: int, stop: int) -> bool {
    exists|m: int| stop < m <= n.len() && #[trigger] wild_from(p, n, after, m)
}

/// Greedy wildcard matching with one point of return: the last `*` seen.
pub fn dos_pattern_matches_inner(pattern: &[char], name: &[char]) -> (matches: bool)
    ensures
        matches == wild_match(pattern@, name@),
{
    let ghost p = pattern@;
    let ghost n = name@;
    let mut pattern_index: usize = 0;
    let mut name_index: usize = 0;
    let mut star: Option<(usize, usize)> = None;

    while name_index < name.len()
        invariant
            p == pattern@,
            n == name@,
            0 <= pattern_index <= p.len(),
            0 <= name_index <= n.len(),
            match star {
                None => wild_match(p, n) <==> wild_from(p, n, pattern_index as int, name_index as int),
                Some((after, stop)) => {
                    &&& 0 < after <= pattern_index
                    &&& stop <= name_index
                    &&& pattern_index - after == name_index - stop
                    &&& forall|t: int| after <= t < pattern_index ==> p[t] != '*'
                    &&& (wild_match(p, n) <==> wild_from(p, n, pattern_index as int, name_index as int)
                        || wild_later(p, n, after as int, stop as int))
                },
            },
        decreases
                p.len() - (if star is Some { (star->0).0 as int } else { 0 }),
                n.len() - (if star is Some { (star->0).1 as int } else { 0 }),
                n.len() - name_index,
    {
        let ghost i: int = pattern_index as int;
        let ghost j: int = name_index as int;
        if pattern_index < pattern.len() && pattern[pattern_index] == '*' {
            proof {
                if wild_from(p, n, i, j) {
                    lemma_star_stops(p, n, i, j);
                    let m = choose|m: int| j <= m <= n.len() && #[trigger] wild_from(p, n, i + 1, m);
                    if m > j {
                        assert(wild_later(p, n, i + 1, j));
                    }
                }
                if wild_later(p, n, i + 1, j) {
                    let m = choose|m: int| j < m <= n.len() && #[trigger] wild_from(p, n, i + 1, m);
                    assert(wild_from(p, n, i, m));
                    lemma_star_absorbs(p, n, i, j, m);
                }
                if star is Some {
                    let after = (star->0).0 as int;
                    let stop = (star->0).1 as int;
                    if wild_later(p, n, after, stop) {
                        let m = choose|m: int| stop < m <= n.len() && #[trigger] wild_from(p, n, after, m);
                        lemma_wild_segment(p, n, after, m, i - after);
                        lemma_star_absorbs(p, n, i, j, m + (i - after));
                    }
                }
            }
            star = Some((pattern_index + 1, name_index));
            pattern_index += 1;
        } else if pattern_index < pattern.len() && (pattern[pattern_index] == '?'
            || eq_ignore_ascii_case(pattern[pattern_index], name[name_index])) {
            pattern_index += 1;
            name_index += 1;
        } else if let Some((after_star, star_name_index)) = star {
            proof {
                let after = after_star as int;
                let stop = star_name_index as int;
                assert(!wild_from(p, n, i, j));
                if wild_later(p, n, after, stop) {
                    let m = choose|m: int| stop < m <= n.len() && #[trigger] wild_from(p, n, after, m);
                    if m > stop + 1 {
                        assert(wild_later(p, n, after, stop + 1));
                    }
                }
                if wild_from(p, n, after, stop + 1) {
                    assert(wild_later(p, n, after, stop));
                }
            }
            pattern_index = after_star;
            name_index = star_name_index + 1;
            star = Some((after_star, star_name_index + 1));
        } else {
            return false;
        }
    }
    proof {
        if star is Some {
            let after = (star->0).0 as int;
            let stop = (star->0).1 as int;
            if wild_later(p, n, after, stop) {
                let m = choose|m: int| stop < m <= n.len() && #[trigger] wild_from(p, n, after, m);
                lemma_wild_segment(p, n, after, m, pattern_index - after);
            }
        }
        lemma_wild_end(p, n, pattern_index as int);
    }
    let ghost rest: int = pattern_index as int;
    while pattern_index < pattern.len() && pattern[pattern_index] == '*'
        invariant
            p == pattern@,
            0 <= rest <= pattern_index <= p.len(),
            forall|t: int| rest <= t < pattern_index ==> p[t] == '*',
        decreases p.len() - pattern_index,
    {
        pattern_index += 1;
    }
    pattern_index == pattern.len()
}

/// `getrandom::fill`: fills `out` with random bytes from the operating system
/// and says whether it could. The length stays; an empty buffer is always
/// filled. Nothing is promised of the bytes.
#[verifier::external_body]
fn os_random(out: &mut [u8]) -> (filled: bool)
    ensures
        final(out)@.len() == old(out)@.len(),
        old(out)@.len() == 0 ==> filled,
{
    getrandom::fill(out).is_ok()
}

/// Keeps `out` where it was filled and sets every byte to zero where it was not.
pub fn zero_unless_filled(out: &mut [u8], filled: bool)
    ensures
        final(out)@ == if filled {
            old(out)@
        } else {
            crate::bytes::zeros(old(out)@.len() as int)
        },
{
    if !filled {
        let len: usize = out.len();
        let mut i: usize = 0;
        while i < len
            invariant
                i <= len,
                len == old(out)@.len(),
                out@.len() == len,
                forall|k: int| 0 <= k < i ==> out@[k] == 0,
            decreases len - i,
        {
            out[i] = 0;
            i += 1;
        }
        assert(out@ =~= crate::bytes::zeros(old(out)@.len() as int));
    }
}

/// Fills `out` with cryptographically-strong random bytes via `getrandom`.
/// Falls back to zeros if the OS RNG fails — the caller should treat this as
/// fatal, but this never panics.
pub fn fill_random(out: &mut [u8])
    ensures
        final(out)@.len() == old(out)@.len(),
{
    let filled = os_random(out);
    zero_unless_filled(out, filled);
}

/// The characters of `n` from `a` up to `b` are a piece for the pattern character
/// `c`: any piece for `*`; one character otherwise, any one for `?` and the same
/// one up to ASCII case for any other.
pub open spec fn is_piece(c: char, n: Seq<char>, a: int, b: int) -> bool {
    a <= b && (c == '*' || (b == a + 1 && (c == '?' || crate::text::same_letter(c, n[a]))))
}

/// Piece `i` lies from `cuts[i]` up to `cuts[i + 1]`.
pub open spec fn piece_at(p: Seq<char>, n: Seq<char>, cuts: Seq<int>, i: int) -> bool {
    is_piece(p[i], n, cuts[i], cuts[i + 1])
}

/// `cuts` cuts the name `n` into consecutive pieces, one for each character of
/// the pattern `p` from `i` on, the first of which begins at `j`.
pub open spec fn pieces_from(p: Seq<char>, n: Seq<char>, cuts: Seq<int>, i: int, j: int) -> bool {
    &&& cuts.len() == p.len() + 1
    &&& cuts[i] == j
    &&& cuts[p.len() as int] == n.len()
    &&& forall|k: int| i <= k < p.len() ==> #[trigger] piece_at(p, n, cuts, k)
}

proof fn lemma_match_has_pieces(p: Seq<char>, n: Seq<char>, i: int, j: int) -> (cuts: Seq<int>)
    requires
        0 <= i <= p.len(),
        0 <= j <= n.len(),
        wild_from(p, n, i, j),
    ensures
        pieces_from(p, n, cuts, i, j),
    decreases (p.len() - i) + (n.len() - j),
{
    if i == p.len() {
        Seq::new((p.len() + 1) as nat, |k: int| n.len() as int)
    } else {
        let rest = if p[i] == '*' {
            if wild_from(p, n, i + 1, j) {
                lemma_match_has_pieces(p, n, i + 1, j)
            } else {
                let later = lemma_match_has_pieces(p, n, i, j + 1);
                assert(piece_at(p, n, later, i));
                later
            }
        } else {
            lemma_match_has_pieces(p, n, i + 1, j + 1)
        };
        let cuts = rest.update(i, j);
        assert forall|k: int| i <= k < p.len() implies #[trigger] piece_at(p, n, cuts, k) by {
            assert(cuts[k + 1] == rest[k + 1]);
            if k > i {
                assert(piece_at(p, n, rest, k));
                assert(cuts[k] == rest[k]);
            }
        }
        cuts
    }
}

proof fn lemma_pieces_forward(p: Seq<char>, n: Seq<char>, cuts: Seq<int>, a: int, b: int)
    requires
        0 <= a <= b <= p.len(),
        forall|k: int| a <= k < p.len() ==> #[trigger] piece_at(p, n, cuts, k),
    ensures
        cuts[a] <= cuts[b],
    decreases b - a,
{
    if a < b {
        lemma_pieces_forward(p, n, cuts, a, b - 1);
        assert(piece_at(p, n, cuts, b - 1));
    }
}

proof fn lemma_pieces_match(p: Seq<char>, n: Seq<char>, cuts: Seq<int>, i: int, j: int)
    requires
        0 <= i <= p.len(),
        0 <= j <= n.len(),
        pieces_from(p, n, cuts, i, j),
    ensures
        wild_from(p, n, i, j),
    decreases p.len() - i,
{
    if i < p.len() {
        let m = cuts[i + 1];
        assert(piece_at(p, n, cuts, i));
        lemma_pieces_forward(p, n, cuts, i + 1, p.len() as int);
        lemma_pieces_match(p, n, cuts, i + 1, m);
        if p[i] == '*' {
            assert(wild_from(p, n, i, m));
            lemma_star_absorbs(p, n, i, j, m);
        }
    }
}

/// Which names a pattern selects: the empty pattern, `*` and `*.*` select every
/// name; any other pattern selects exactly the names that can be cut into
/// consecutive pieces, one for each of its characters.
pub proof fn lemma_pattern_pieces(p: Seq<char>, n: Seq<char>)
    ensures
        p.len() == 0 || p == seq!['*'] || p == seq!['*', '.', '*'] ==> dos_match(p, n),
        p.len() != 0 && p != seq!['*'] && p != seq!['*', '.', '*'] ==> (dos_match(p, n)
            <==> exists|cuts: Seq<int>| #[trigger] pieces_from(p, n, cuts, 0, 0)),
{
    if p.len() != 0 && p != seq!['*'] && p != seq!['*', '.', '*'] {
        if dos_match(p, n) {
            let cuts = lemma_match_has_pieces(p, n, 0, 0);
            assert(pieces_from(p, n, cuts, 0, 0));
        }
        if exists|cuts: Seq<int>| #[trigger] pieces_from(p, n, cuts, 0, 0) {
            let cuts = choose|cuts: Seq<int>| #[trigger] pieces_from(p, n, cuts, 0, 0);
            lemma_pieces_match(p, n, cuts, 0, 0);
        }
    }
}

/// The name `n` holds the text `w` at `k`, up to ASCII case.
pub open spec fn holds_at(n: Seq<char>, w: Seq<char>, k: int) -> bool {
    &&& 0 <= k
    &&& k + w.len() <= n.len()
    &&& forall|t: int| 0 <= t < w.len() ==> crate::text::same_letter(#[trigger] w[t], n[k + t])
}

/// `*w*`, for a text `w` without wildcards, selects exactly the names that hold
/// `w` as a contiguous part, up to ASCII case. (`*.*` is the one exception: it
/// selects every name.)
pub proof fn lemma_pattern_part(w: Seq<char>, n: Seq<char>)
    requires
        forall|t: int| 0 <= t < w.len() ==> (#[trigger] w[t]) != '*' && w[t] != '?',
        w != seq!['.'],
    ensures
        dos_match(seq!['*'] + w + seq!['*'], n) <==> exists|k: int| #[trigger] holds_at(n, w, k),
{
    let p = seq!['*'] + w + seq!['*'];
    let m = w.len() as int;
    assert(p.len() == m + 2);
    assert(p != seq!['*']);
    if p == seq!['*', '.', '*'] {
        assert(p[1] == w[0]);
        assert(w =~= seq!['.']);
    }
    lemma_pattern_pieces(p, n);
    if dos_match(p, n) {
        let cuts = choose|cuts: Seq<int>| #[trigger] pieces_from(p, n, cuts, 0, 0);
        let k = cuts[1];
        assert(piece_at(p, n, cuts, 0));
        lemma_literal_cuts(p, n, cuts, w, m);
        lemma_pieces_forward(p, n, cuts, 1 + m, m + 2);
        assert forall|t: int| 0 <= t < m implies crate::text::same_letter(
            #[trigger] w[t],
            n[k + t],
        ) by {
            lemma_literal_cuts(p, n, cuts, w, t);
            assert(piece_at(p, n, cuts, 1 + t));
            assert(p[1 + t] == w[t]);
        }
        assert(holds_at(n, w, k));
    }
    if exists|k: int| #[trigger] holds_at(n, w, k) {
        let k = choose|k: int| #[trigger] holds_at(n, w, k);
        let cuts = Seq::new(
            (m + 3) as nat,
            |i: int|
                if i == 0 {
                    0
                } else if i == m + 2 {
                    n.len() as int
                } else {
                    k + i - 1
                },
        );
        assert forall|i: int| 0 <= i < p.len() implies #[trigger] piece_at(p, n, cuts, i) by {
            if 0 < i < m + 1 {
                assert(p[i] == w[i - 1]);
                assert(crate::text::same_letter(w[i - 1], n[k + (i - 1)]));
            }
        }
        assert(pieces_from(p, n, cuts, 0, 0));
    }
}

proof fn lemma_literal_cuts(p: Seq<char>, n: Seq<char>, cuts: Seq<int>, w: Seq<char>, t: int)
    requires
        p == seq!['*'] + w + seq!['*'],
        pieces_from(p, n, cuts, 0, 0),
        forall|t: int| 0 <= t < w.len() ==> (#[trigger] w[t]) != '*' && w[t] != '?',
        0 <= t <= w.len(),
    ensures
        cuts[1 + t] == cuts[1] + t,
    decreases t,
{
    if t > 0 {
        lemma_literal_cuts(p, n, cuts, w, t - 1);
        assert(piece_at(p, n, cuts, t));
        assert(p[t] == w[t - 1]);
    }
}

/// A unit is the two bytes at twice its index, the less significant one first.
pub proof fn lemma_unit_bytes(bytes: Seq<u8>, units: Seq<u16>, i: int)
    ensures
        le_units(bytes).len() == bytes.len() / 2,
        0 <= i < bytes.len() / 2 ==> le_units(bytes)[i] == bytes[2 * i] + 256 * bytes[2 * i + 1],
        units_le(units).len() == 2 * units.len(),
        0 <= i < units.len() ==> units_le(units)[2 * i] + 256 * units_le(units)[2 * i + 1]
            == units[i],
{
    if 0 <= i < units.len() {
        assert((2 * i) / 2 == i && (2 * i) % 2 == 0);
        assert((2 * i + 1) / 2 == i && (2 * i + 1) % 2 == 1);
    }
}

} // verus!
