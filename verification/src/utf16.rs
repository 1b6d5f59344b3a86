//! UTF-16: what it encodes a text to, and which unit sequences it can be.

use vstd::prelude::*;

verus! {

/// `char::from_u32` gives the character with that code point, and nothing for
/// a number that is a surrogate or lies above the last code point.
pub assume_specification[ char::from_u32 ](code: u32) -> (r: Option<char>)
    ensures
        r is Some <==> code <= 0xD7FF || 0xE000 <= code <= 0x10_FFFF,
        r matches Some(c) ==> c as u32 == code,
;

/// First half of a surrogate pair.
pub open spec fn is_high(u: u16) -> bool {
    0xD800 <= u <= 0xDBFF
}

/// Second half of a surrogate pair.
pub open spec fn is_low(u: u16) -> bool {
    0xDC00 <= u <= 0xDFFF
}

/// The one or two code units of a character.
pub open spec fn utf16_char(c: char) -> Seq<u16> {
    let code = c as u32;
    if code < 0x1_0000 {
        seq![code as u16]
    } else {
        seq![
            (0xD800 + (code - 0x1_0000) / 0x400) as u16,
            (0xDC00 + (code - 0x1_0000) % 0x400) as u16,
        ]
    }
}

/// The code units of a text.
pub open spec fn utf16(s: Seq<char>) -> Seq<u16>
    decreases s.len(),
{
    if s.len() == 0 {
        Seq::empty()
    } else {
        utf16_char(s[0]) + utf16(s.skip(1))
    }
}

/// The character that the unit pair `high`, `low` stands for.
pub open spec fn pair_char(high: u16, low: u16) -> char {
    (0x1_0000 + 0x400 * (high - 0xD800) + (low - 0xDC00)) as char
}

/// The text that `units` stands for from index `i` on, with U+FFFD in the
/// place of each unit that is half a surrogate pair without its other half.
pub open spec fn utf16_lossy_from(units: Seq<u16>, i: int) -> Seq<char>
    decreases units.len() - i,
    when 0 <= i
{
    if i >= units.len() {
        Seq::empty()
    } else if !is_high(units[i]) && !is_low(units[i]) {
        seq![units[i] as char] + utf16_lossy_from(units, i + 1)
    } else if is_high(units[i]) && i + 1 < units.len() && is_low(units[i + 1]) {
        seq![pair_char(units[i], units[i + 1])] + utf16_lossy_from(units, i + 2)
    } else {
        seq!['\u{FFFD}'] + utf16_lossy_from(units, i + 1)
    }
}

/// The text that `units` stands for, with U+FFFD in the place of each unpaired
/// surrogate.
pub open spec fn utf16_lossy(units: Seq<u16>) -> Seq<char> {
    utf16_lossy_from(units, 0)
}

/// What stands at a position of a unit sequence.
pub enum Unit {
    /// A character of one unit.
    Single(char),
    /// A character of two units.
    Pair(char),
    /// Half a surrogate pair without its other half.
    Unpaired,
}

/// Reads the character that starts at `i`.
pub fn unit_at(units: &[u16], i: usize) -> (r: Unit)
    requires
        i < units@.len(),
    ensures
        match r {
            Unit::Single(c) => !is_high(units@[i as int]) && !is_low(units@[i as int])
                && c == units@[i as int] as char && utf16_char(c) == seq![units@[i as int]],
            Unit::Pair(c) => is_high(units@[i as int]) && i + 1 < units@.len()
                && is_low(units@[i + 1]) && c == pair_char(units@[i as int], units@[i + 1])
                && utf16_char(c) == seq![units@[i as int], units@[i + 1]],
            Unit::Unpaired => (is_high(units@[i as int]) || is_low(units@[i as int]))
                && !(is_high(units@[i as int]) && i + 1 < units@.len() && is_low(units@[i + 1])),
        },
{
    let u: u16 = units[i];
    if u < 0xD800 || 0xDFFF < u {
        match char::from_u32(u as u32) {
            Some(c) => {
                proof {
                    lemma_char_range(c);
                }
                assert(utf16_char(c) =~= seq![units@[i as int]]);
                Unit::Single(c)
            },
            None => Unit::Unpaired,
        }
    } else if u <= 0xDBFF && i + 1 < units.len() && 0xDC00 <= units[i + 1] && units[i + 1] <= 0xDFFF {
        let low: u16 = units[i + 1];
        let code: u32 = 0x1_0000 + 0x400 * (u as u32 - 0xD800) + (low as u32 - 0xDC00);
        match char::from_u32(code) {
            Some(c) => {
                proof {
                    lemma_char_range(c);
                }
                assert(utf16_char(c) =~= seq![units@[i as int], units@[i + 1]]);
                Unit::Pair(c)
            },
            None => Unit::Unpaired,
        }
    } else {
        Unit::Unpaired
    }
}

/// A character is a code point outside the surrogates.
proof fn lemma_char_range(c: char)
    ensures
        c as u32 <= 0xD7FF || 0xE000 <= c as u32 <= 0x10_FFFF,
        (c as u32) as char == c,
{
}

/// No character's units are the beginning of another one's.
proof fn lemma_prefix_free(a: char, b: char, x: Seq<u16>, y: Seq<u16>)
    requires
        utf16_char(a) + x == utf16_char(b) + y,
    ensures
        a == b,
        x == y,
{
    let l = utf16_char(a) + x;
    let r = utf16_char(b) + y;
    assert(l[0] == utf16_char(a)[0]);
    assert(r[0] == utf16_char(b)[0]);
    if a as u32 >= 0x1_0000 {
        assert(l[1] == utf16_char(a)[1]);
    }
    if b as u32 >= 0x1_0000 {
        assert(r[1] == utf16_char(b)[1]);
    }
    assert(a == b);
    assert(x =~= l.skip(utf16_char(a).len() as int));
    assert(y =~= r.skip(utf16_char(a).len() as int));
}

/// The units of a text that was put together are put together.
pub proof fn lemma_utf16_concat(a: Seq<char>, b: Seq<char>)
    ensures
        utf16(a + b) == utf16(a) + utf16(b),
    decreases a.len(),
{
    if a.len() == 0 {
        assert(a + b =~= b);
        assert(utf16(a) + utf16(b) =~= utf16(b));
    } else {
        lemma_utf16_concat(a.skip(1), b);
        assert((a + b).skip(1) =~= a.skip(1) + b);
        assert(utf16(a + b) =~= utf16(a) + utf16(b));
    }
}

/// The units of one more character.
pub proof fn lemma_utf16_push(a: Seq<char>, c: char)
    ensures
        utf16(a.push(c)) == utf16(a) + utf16_char(c),
{
    lemma_utf16_concat(a, seq![c]);
    assert(a.push(c) =~= a + seq![c]);
    let one = seq![c];
    assert(one[0] == c);
    assert(one.skip(1) =~= Seq::<char>::empty());
    reveal_with_fuel(utf16, 2);
    assert(utf16(one) =~= utf16_char(c));
}

/// A text whose units begin with the units of `a` begins with `a`.
proof fn lemma_utf16_prefix(a: Seq<char>, rest: Seq<u16>, s: Seq<char>)
    requires
        utf16(a) + rest == utf16(s),
    ensures
        a.len() <= s.len(),
        s.take(a.len() as int) == a,
        utf16(s.skip(a.len() as int)) == rest,
    decreases a.len(),
{
    if a.len() == 0 {
        assert(utf16(a) + rest =~= rest);
        assert(s.skip(0) =~= s);
    } else {
        assert(utf16(a) + rest =~= utf16_char(a[0]) + (utf16(a.skip(1)) + rest));
        assert((utf16(a) + rest).len() > 0);
        lemma_prefix_free(a[0], s[0], utf16(a.skip(1)) + rest, utf16(s.skip(1)));
        lemma_utf16_prefix(a.skip(1), rest, s.skip(1));
        assert(s.skip(1).skip(a.skip(1).len() as int) =~= s.skip(a.len() as int));
        assert(s.take(a.len() as int) =~= seq![s[0]] + s.skip(1).take(a.skip(1).len() as int));
        assert(a =~= seq![a[0]] + a.skip(1));
    }
}

/// Different texts have different code units.
pub proof fn lemma_utf16_injective(a: Seq<char>, b: Seq<char>)
    requires
        utf16(a) == utf16(b),
    ensures
        a == b,
{
    assert(utf16(a) + Seq::<u16>::empty() =~= utf16(a));
    lemma_utf16_prefix(a, Seq::empty(), b);
    let rest = b.skip(a.len() as int);
    if rest.len() > 0 {
        assert(utf16(rest).len() > 0);
    }
    assert(b.take(a.len() as int) =~= b);
}

/// A unit sequence with an unpaired surrogate behind the units of a text is
/// the encoding of no text.
proof fn lemma_unpaired(units: Seq<u16>, out: Seq<char>, i: int)
    requires
        0 <= i < units.len(),
        utf16(out) == units.take(i),
        is_high(units[i]) || is_low(units[i]),
        !(is_high(units[i]) && i + 1 < units.len() && is_low(units[i + 1])),
    ensures
        forall|s: Seq<char>| #[trigger] utf16(s) != units,
{
    assert forall|s: Seq<char>| #[trigger] utf16(s) != units by {
        if utf16(s) == units {
            assert(units =~= utf16(out) + units.skip(i));
            lemma_utf16_prefix(out, units.skip(i), s);
            let rest = s.skip(out.len() as int);
            assert(utf16(rest) == units.skip(i));
            assert(utf16(rest)[0] == units[i]);
            assert(rest.len() > 0);
            lemma_char_range(rest[0]);
            assert(utf16(rest)[0] == utf16_char(rest[0])[0]);
            if rest[0] as u32 >= 0x1_0000 {
                assert(utf16(rest)[1] == utf16_char(rest[0])[1]);
                assert(units.skip(i)[1] == units[i + 1]);
            }
        }
    }
}

/// Lossy decoding undoes encoding.
pub proof fn lemma_lossy_from_utf16(units: Seq<u16>, i: int, s: Seq<char>)
    requires
        0 <= i <= units.len(),
        units.skip(i) == utf16(s),
    ensures
        utf16_lossy_from(units, i) == s,
    decreases s.len(),
{
    if s.len() == 0 {
        assert(units.skip(i).len() == 0);
    } else {
        let k = utf16_char(s[0]).len() as int;
        lemma_char_range(s[0]);
        assert(utf16(s).len() > 0);
        assert(units.skip(i)[0] == units[i]);
        assert(utf16(s)[0] == utf16_char(s[0])[0]);
        if k == 2 {
            assert(units.skip(i)[1] == units[i + 1]);
            assert(utf16(s)[1] == utf16_char(s[0])[1]);
        }
        assert(units.skip(i + k) =~= utf16(s).skip(k));
        assert(utf16(s).skip(k) =~= utf16(s.skip(1)));
        lemma_lossy_from_utf16(units, i + k, s.skip(1));
        assert(s =~= seq![s[0]] + s.skip(1));
    }
}

/// Decodes `units`, or gives `None` where they hold an unpaired surrogate.
pub fn decode(units: &[u16]) -> (r: Option<String>)
    ensures
        match r {
            Some(s) => utf16(s@) == units@,
            None => forall|s: Seq<char>| #[trigger] utf16(s) != units@,
        },
{
    let mut out = String::new();
    let mut i: usize = 0;
    while i < units.len()
        invariant
            i <= units@.len(),
            utf16(out@) == units@.take(i as int),
        decreases units@.len() - i,
    {
        let ghost done = out@;
        match unit_at(units, i) {
            Unit::Single(c) => {
                proof {
                    lemma_utf16_push(done, c);
                    assert(units@.take(i + 1) =~= units@.take(i as int) + seq![units@[i as int]]);
                }
                out.push(c);
                i += 1;
            },
            Unit::Pair(c) => {
                proof {
                    lemma_utf16_push(done, c);
                    assert(units@.take(i + 2) =~= units@.take(i as int) + seq![
                        units@[i as int],
                        units@[i + 1],
                    ]);
                }
                out.push(c);
                i += 2;
            },
            Unit::Unpaired => {
                proof {
                    lemma_unpaired(units@, done, i as int);
                }
                return None;
            },
        }
    }
    assert(units@.take(i as int) =~= units@);
    Some(out)
}

/// Decodes `units`, with U+FFFD in the place of each unpaired surrogate.
pub fn decode_lossy(units: &[u16]) -> (s: String)
    ensures
        s@ == utf16_lossy(units@),
{
    let mut out = String::new();
    let mut i: usize = 0;
    while i < units.len()
        invariant
            i <= units@.len(),
            out@ + utf16_lossy_from(units@, i as int) == utf16_lossy(units@),
        decreases units@.len() - i,
    {
        let ghost done = out@;
        let ghost rest = utf16_lossy_from(units@, i as int);
        match unit_at(units, i) {
            Unit::Single(c) => {
                out.push(c);
                i += 1;
            },
            Unit::Pair(c) => {
                out.push(c);
                i += 2;
            },
            Unit::Unpaired => {
                out.push('\u{FFFD}');
                i += 1;
            },
        }
        assert(out@ + utf16_lossy_from(units@, i as int) =~= done + rest);
    }
    assert(out@ + utf16_lossy_from(units@, i as int) =~= out@);
    out
}

/// Encodes a text.
pub fn encode(s: &str) -> (units: Vec<u16>)
    ensures
        units@ == utf16(s@),
{
    let mut units: Vec<u16> = Vec::new();
    for c in iter: s.chars()
        invariant
            iter.seq() == s@,
            units@ == utf16(s@.take(iter.index())),
    {
        proof {
            lemma_utf16_push(s@.take(iter.index()), c);
            assert(s@.take(iter.index() + 1) =~= s@.take(iter.index()).push(c));
        }
        let code: u32 = c as u32;
        if code < 0x1_0000 {
            units.push(code as u16);
        } else {
            units.push((0xD800 + (code - 0x1_0000) / 0x400) as u16);
            units.push((0xDC00 + (code - 0x1_0000) % 0x400) as u16);
        }
    }
    assert(s@.take(s@.len() as int) =~= s@);
    units
}

/// A character up to U+FFFF is one unit, its code point. Any other is a high and
/// a low surrogate that hold the upper and the lower ten bits of what is left of
/// its code point above U+10000.
pub proof fn lemma_utf16_units(c: char)
    ensures
        c as u32 <= 0xFFFF ==> utf16_char(c).len() == 1 && utf16_char(c)[0] == c as u32,
        c as u32 > 0xFFFF ==> {
            let u = utf16_char(c);
            &&& u.len() == 2
            &&& 0xD800 <= u[0] <= 0xDBFF
            &&& 0xDC00 <= u[1] <= 0xDFFF
            &&& c as u32 == 0x1_0000 + 0x400 * (u[0] - 0xD800) + (u[1] - 0xDC00)
        },
{
    lemma_char_range(c);
}

/// The units of a text are the units of its characters, one behind the other.
pub proof fn lemma_utf16_grows(a: Seq<char>, c: char)
    ensures
        utf16(Seq::<char>::empty()).len() == 0,
        utf16(a.push(c)) == utf16(a) + utf16_char(c),
{
    lemma_utf16_push(a, c);
}

/// Lossy decoding reads one character after the other: a pair of surrogates
/// gives the character that it encodes, a surrogate without its other half gives
/// U+FFFD, and every other unit gives the character with that code point.
pub proof fn lemma_lossy_steps(units: Seq<u16>, i: int)
    requires
        0 <= i < units.len(),
    ensures
        !(0xD800 <= units[i] <= 0xDFFF) ==> {
            let r = utf16_lossy_from(units, i);
            r.len() > 0 && r[0] as u32 == units[i] && r.skip(1) == utf16_lossy_from(units, i + 1)
        },
        0xD800 <= units[i] <= 0xDBFF && i + 1 < units.len() && 0xDC00 <= units[i + 1] <= 0xDFFF
            ==> {
            let r = utf16_lossy_from(units, i);
            &&& r.len() > 0
            &&& r[0] as u32 == 0x1_0000 + 0x400 * (units[i] - 0xD800) + (units[i + 1] - 0xDC00)
            &&& r.skip(1) == utf16_lossy_from(units, i + 2)
        },
        0xDC00 <= units[i] <= 0xDFFF || (0xD800 <= units[i] <= 0xDBFF && !(i + 1 < units.len()
            && 0xDC00 <= units[i + 1] <= 0xDFFF)) ==> {
            let r = utf16_lossy_from(units, i);
            r.len() > 0 && r[0] as u32 == 0xFFFD && r.skip(1) == utf16_lossy_from(units, i + 1)
        },
        utf16_lossy(units) == utf16_lossy_from(units, 0),
        utf16_lossy_from(units, units.len() as int).len() == 0,
{
    let r = utf16_lossy_from(units, i);
    let u = units[i];
    if !(0xD800 <= u <= 0xDFFF) {
        assert((u as char) as u32 == u);
        assert(r.skip(1) =~= utf16_lossy_from(units, i + 1));
    } else if 0xD800 <= u <= 0xDBFF && i + 1 < units.len() && 0xDC00 <= units[i + 1] <= 0xDFFF {
        assert(pair_char(u, units[i + 1]) as u32 == 0x1_0000 + 0x400 * (u - 0xD800) + (units[i + 1]
            - 0xDC00));
        assert(r.skip(1) =~= utf16_lossy_from(units, i + 2));
    } else {
        assert(r.skip(1) =~= utf16_lossy_from(units, i + 1));
    }
}

} // verus!
