//! `SmbPath` — validated, normalized SMB path used between dispatcher and
//! backend.
//!
//! The protocol layer turns wire bytes into `&[u16]`; this module turns
//! `&[u16]` into a path that backends can blindly trust.

use vstd::prelude::*;

use crate::error::{SmbError, SmbResult};
use crate::text::{chars_of, eq_ignore_ascii_case, string_of, texts, upper};

verus! {

/// What a path says: the names from the share root down to the file, and the
/// named stream of that file, if one is selected.
pub struct PathModel {
    pub components: Seq<Seq<char>>,
    pub stream: Option<Seq<char>>,
}

/// The share root.
pub open spec fn root_path() -> PathModel {
    PathModel { components: Seq::empty(), stream: None }
}

/// Path separators.
pub open spec fn is_separator(c: char) -> bool {
    c == '\\' || c == '/'
}

/// Characters that no path may hold.
pub open spec fn is_forbidden(c: char) -> bool {
    (c as u32) < 0x20 || c == '<' || c == '>' || c == '"' || c == '|' || c == '?' || c == '*'
}

/// The name `.`.
pub open spec fn dot() -> Seq<char> {
    seq!['.']
}

/// The name `..`.
pub open spec fn dot_dot() -> Seq<char> {
    seq!['.', '.']
}

/// Two texts are equal up to ASCII case.
pub open spec fn same_text(a: Seq<char>, b: Seq<char>) -> bool {
    a.len() == b.len() && forall|i: int|
        0 <= i < a.len() ==> #[trigger] crate::text::same_letter(a[i], b[i])
}

/// The index of the first `c` in `s` at or behind `i`; the length of `s` where
/// there is none.
pub open spec fn find(s: Seq<char>, c: char, i: int) -> int
    decreases s.len() - i,
{
    if i >= s.len() {
        s.len() as int
    } else if s[i] == c {
        i
    } else {
        find(s, c, i + 1)
    }
}

/// The index of the last `c` in the first `n` characters of `s`, or -1.
pub open spec fn find_last(s: Seq<char>, c: char, n: int) -> int
    decreases n,
{
    if n <= 0 {
        -1
    } else if s[n - 1] == c {
        n - 1
    } else {
        find_last(s, c, n - 1)
    }
}

/// `s` cut at each separator.
pub open spec fn parts(s: Seq<char>) -> Seq<Seq<char>>
    decreases s.len(),
{
    if s.len() == 0 {
        seq![Seq::empty()]
    } else {
        let front = parts(s.drop_last());
        if is_separator(s.last()) {
            front.push(Seq::empty())
        } else {
            front.drop_last().push(front.last().push(s.last()))
        }
    }
}

/// `s` without its leading separator.
pub open spec fn strip_leading(s: Seq<char>) -> Seq<char> {
    if s.len() > 0 && is_separator(s[0]) {
        s.skip(1)
    } else {
        s
    }
}

/// The part of a name before its last `.`; the whole name where it has none.
pub open spec fn stem(s: Seq<char>) -> Seq<char> {
    let k = find_last(s, '.', s.len() as int);
    if k < 0 {
        s
    } else {
        s.take(k)
    }
}

/// `COM1`..=`COM9` and `LPT1`..=`LPT9`, in upper case.
pub open spec fn com_or_lpt(s: Seq<char>) -> bool {
    &&& s.len() == 4
    &&& (s[0] == 'C' && s[1] == 'O' && s[2] == 'M') || (s[0] == 'L' && s[1] == 'P' && s[2] == 'T')
    &&& '1' <= s[3] && s[3] <= '9'
}

/// `s` with `a`..=`z` mapped to `A`..=`Z`.
pub open spec fn upper_text(s: Seq<char>) -> Seq<char> {
    s.map_values(|c: char| crate::text::ascii_upper(c))
}

/// Reserved DOS device names, with or without an extension, in any case.
pub open spec fn is_reserved(s: Seq<char>) -> bool {
    let u = upper_text(stem(s));
    ||| u == seq!['C', 'O', 'N']
    ||| u == seq!['P', 'R', 'N']
    ||| u == seq!['A', 'U', 'X']
    ||| u == seq!['N', 'U', 'L']
    ||| com_or_lpt(u)
}

/// The stream type that can be named: `$DATA`.
pub open spec fn data_type() -> Seq<char> {
    seq!['$', 'D', 'A', 'T', 'A']
}

/// A final path component `name[:stream[:type]]` as its name and stream. A type
/// other than `$DATA` (in any case) is refused; an empty stream name means the
/// primary data stream, which is no stream at all.
pub open spec fn selector(last: Seq<char>) -> Option<(Seq<char>, Option<Seq<char>>)> {
    let k = find(last, ':', 0);
    if k == last.len() {
        Some((last, None))
    } else {
        let rest = last.skip(k + 1);
        let m = find(rest, ':', 0);
        let stream = rest.take(m);
        if m < rest.len() && !same_text(rest.skip(m + 1), data_type()) {
            None
        } else if stream.len() == 0 {
            Some((last.take(k), None))
        } else {
            Some((last.take(k), Some(stream)))
        }
    }
}

/// A component before the last that a path may have.
pub open spec fn dir_allowed(d: Seq<char>) -> bool {
    d.len() > 0 && !d.contains(':') && d != dot_dot() && (d == dot() || !is_reserved(d))
}

/// A name and stream of the last component that a path may have.
pub open spec fn last_allowed(name: Seq<char>, stream: Option<Seq<char>>) -> bool {
    name.len() > 0 && name != dot_dot() && if name == dot() {
        stream is None
    } else {
        !is_reserved(name)
    }
}

/// The path that a text stands for, or `None` where it stands for none: a
/// leading separator is ignored, both separators cut, `.` is skipped, and only
/// the last component may select a stream.
pub open spec fn parse_path(s: Seq<char>) -> Option<PathModel> {
    let t = strip_leading(s);
    let dirs = parts(t).drop_last();
    if t.len() == 0 {
        Some(root_path())
    } else if exists|i: int| 0 <= i < t.len() && is_forbidden(#[trigger] t[i]) {
        None
    } else {
        match selector(parts(t).last()) {
            None => None,
            Some((name, stream)) => if (forall|i: int|
                0 <= i < dirs.len() ==> dir_allowed(#[trigger] dirs[i])) && last_allowed(
                name,
                stream,
            ) {
                Some(
                    PathModel {
                        components: named(dirs) + named(seq![name]),
                        stream,
                    },
                )
            } else {
                None
            },
        }
    }
}

/// The names in `names` other than `.`, in order.
pub open spec fn named(names: Seq<Seq<char>>) -> Seq<Seq<char>> {
    names.filter(|d: Seq<char>| d != dot())
}

/// A component that a backend can trust.
pub open spec fn valid_component(c: Seq<char>) -> bool {
    &&& c.len() > 0
    &&& c != dot()
    &&& c != dot_dot()
    &&& !is_reserved(c)
    &&& forall|i: int|
        0 <= i < c.len() ==> !is_separator(#[trigger] c[i]) && !is_forbidden(c[i]) && c[i] != ':'
}

/// A stream name that a backend can trust.
pub open spec fn valid_stream(s: Seq<char>) -> bool {
    &&& s.len() > 0
    &&& forall|i: int|
        0 <= i < s.len() ==> !is_separator(#[trigger] s[i]) && !is_forbidden(s[i]) && s[i] != ':'
}

/// A path that a backend can trust: no `..`, no `.`, no empty or reserved name,
/// no separator or forbidden character in a name, and a stream only on a file
/// below the root.
pub open spec fn valid_path(p: PathModel) -> bool {
    &&& forall|i: int| 0 <= i < p.components.len() ==> valid_component(#[trigger] p.components[i])
    &&& p.stream matches Some(s) ==> p.components.len() > 0 && valid_stream(s)
}

/// `p` with the path `e` appended; the stream is that of `e`.
pub open spec fn append_path(p: PathModel, e: PathModel) -> PathModel {
    PathModel { components: p.components + e.components, stream: e.stream }
}

/// The path one level up, without a stream; `None` for the root.
pub open spec fn parent_path(p: PathModel) -> Option<PathModel> {
    if p.components.len() == 0 {
        None
    } else {
        Some(PathModel { components: p.components.drop_last(), stream: None })
    }
}

/// `names` with a backslash between each two.
pub open spec fn render(names: Seq<Seq<char>>) -> Seq<char>
    decreases names.len(),
{
    if names.len() == 0 {
        Seq::empty()
    } else if names.len() == 1 {
        names[0]
    } else {
        render(names.drop_last()) + seq!['\\'] + names.last()
    }
}

/// A validated, component-list path, plus an optional named-stream
/// selector on the final component (MS-FSCC §2.1.5 "Alternate Data
/// Streams"). No `..`, no Windows-forbidden chars outside the stream
/// selector. Always relative to the share root — the empty path is the
/// root.
///
/// `components` identifies the underlying file exactly as if the stream
/// selector weren't present — routing, authorization, and directory
/// containment all operate on the file identity, not the stream. Only
/// opening a file needs to look at `stream`.
#[derive(Debug, PartialEq, Eq)]
pub struct SmbPath {
    components: Vec<String>,
    stream: Option<String>,
}

impl View for SmbPath {
    type V = PathModel;

    closed spec fn view(&self) -> PathModel {
        PathModel {
            components: texts(self.components@),
            stream: match self.stream {
                Some(s) => Some(s@),
                None => None,
            },
        }
    }
}

impl Clone for SmbPath {
    fn clone(&self) -> (r: SmbPath)
        ensures
            r@ == self@,
    {
        proof {
            use_type_invariant(self);
        }
        let components = copy_strings(&self.components);
        let stream = match &self.stream {
            Some(s) => Some(s.clone()),
            None => None,
        };
        SmbPath { components, stream }
    }
}

impl Default for SmbPath {
    fn default() -> (r: SmbPath)
        ensures
            r@ == root_path(),
    {
        let components: Vec<String> = Vec::new();
        assert(texts(components@) =~= Seq::<Seq<char>>::empty());
        SmbPath { components, stream: None }
    }
}

/// A copy of a list of strings.
fn copy_strings(v: &Vec<String>) -> (out: Vec<String>)
    ensures
        texts(out@) == texts(v@),
{
    let mut out: Vec<String> = Vec::new();
    let mut i: usize = 0;
    while i < v.len()
        invariant
            i <= v@.len(),
            texts(out@) == texts(v@).take(i as int),
        decreases v@.len() - i,
    {
        let ghost before = texts(out@);
        out.push(v[i].clone());
        assert(texts(out@) =~= before.push(v@[i as int]@));
        assert(texts(v@).take(i + 1) =~= texts(v@).take(i as int).push(v@[i as int]@));
        i += 1;
    }
    assert(texts(v@).take(i as int) =~= texts(v@));
    out
}

impl SmbPath {
    /// Every path is one that a backend can trust.
    #[verifier::type_invariant]
    spec fn well_formed(self) -> bool {
        valid_path(self@)
    }

    /// The share root.
    pub fn root() -> (r: SmbPath)
        ensures
            r@ == root_path(),
            valid_path(r@),
    {
        SmbPath::default()
    }

    /// Construct from a UTF-16 code-unit slice (already decoded from UTF-16LE
    /// wire bytes). Units with an unpaired surrogate are rejected.
    pub fn from_utf16(units: &[u16]) -> (r: SmbResult<SmbPath>)
        ensures
            match r {
                Ok(p) => valid_path(p@) && exists|s: Seq<char>| #[trigger]
                    crate::utf16::utf16(s) == units@ && parse_path(s) == Some(p@),
                Err(e) => e == SmbError::NameInvalid && forall|s: Seq<char>| #[trigger]
                    crate::utf16::utf16(s) == units@ ==> parse_path(s) is None,
            },
    {
        let s = match decode_utf16_strict(units) {
            Ok(s) => s,
            Err(e) => return Err(e),
        };
        let r = SmbPath::parse_components(s.as_str());
        proof {
            assert forall|t: Seq<char>| #[trigger] crate::utf16::utf16(t) == units@ implies t
                == s@ by {
                crate::utf16::lemma_utf16_injective(t, s@);
            }
        }
        r
    }

    /// Named stream on the final component, if any (e.g. `"AFP_AfpInfo"` for
    /// `file.txt:AFP_AfpInfo`, or `file.txt:AFP_AfpInfo:$DATA`). `None` for
    /// the file's own primary data stream — including the explicit
    /// `file.txt::$DATA` form, which MS-SMB2 treats as equivalent to no
    /// stream at all.
    pub fn stream_name(&self) -> (r: Option<&str>)
        ensures
            match r {
                Some(s) => self@.stream == Some(s@),
                None => self@.stream is None,
            },
    {
        match &self.stream {
            Some(s) => Some(s.as_str()),
            None => None,
        }
    }

    /// Reads a path from text.
    pub fn parse_components(s: &str) -> (r: SmbResult<SmbPath>)
        ensures
            match r {
                Ok(p) => parse_path(s@) == Some(p@) && valid_path(p@),
                Err(e) => e == SmbError::NameInvalid && parse_path(s@) is None,
            },
    {
        // Strip a leading separator (clients sometimes prefix `\` or `/`).
        let chars = chars_of(s);
        let start: usize = if chars.len() > 0 && (chars[0] == '\\' || chars[0] == '/') {
            1
        } else {
            0
        };
        let ghost t = strip_leading(s@);
        assert(t =~= chars@.skip(start as int));
        if start == chars.len() {
            return Ok(SmbPath::root());
        }
        // Reject forbidden characters anywhere in the path. `:` is handled
        // separately below (allowed only in the final component, as a stream
        // selector).
        let mut i: usize = start;
        while i < chars.len()
            invariant
                start <= i <= chars@.len(),
                t == chars@.skip(start as int),
                t == strip_leading(s@),
                t.len() > 0,
                forall|k: int| 0 <= k < i - start ==> !is_forbidden(#[trigger] t[k]),
            decreases chars@.len() - i,
        {
            assert(t[i - start] == chars@[i as int]);
            if forbidden(chars[i]) {
                return Err(SmbError::NameInvalid);
            }
            i += 1;
        }

        // Split on `\` or `/`; reject `..` and empty components; skip `.`.
        let raw = split_parts(chars.as_slice(), start);
        let ghost all = parts(t);
        let ghost dirs = all.drop_last();
        let count: usize = raw.len() - 1;
        assert(raw@[count as int]@ == texts(raw@)[count as int]);
        let (last_name, stream) = match split_stream_selector(raw[count].as_str()) {
            Ok(split) => split,
            Err(e) => return Err(e),
        };

        let mut components: Vec<String> = Vec::new();
        let mut j: usize = 0;
        assert(named(dirs.take(0)) =~= Seq::<Seq<char>>::empty()) by {
            reveal(Seq::filter);
        }
        assert(texts(components@) =~= Seq::<Seq<char>>::empty());
        while j < count
            invariant
                j <= count,
                raw@.len() == count + 1,
                t == strip_leading(s@),
                t.len() > 0,
                texts(raw@) == parts(t),
                dirs == parts(t).drop_last(),
                forall|k: int| 0 <= k < j ==> dir_allowed(#[trigger] dirs[k]),
                texts(components@) == named(dirs.take(j as int)),
            decreases count - j,
        {
            let part = &raw[j];
            assert(dirs[j as int] == part@);
            assert(dirs.take(j + 1) =~= dirs.take(j as int).push(dirs[j as int]));
            proof {
                lemma_named_push(dirs.take(j as int), part@);
            }
            // A `:` may only appear in the final path component (the stream
            // selector); an empty part is a doubled separator like `foo\\bar`.
            if has_colon(part.as_str()) || part.as_str().is_empty() || is_dot_dot(part.as_str()) {
                return Err(SmbError::NameInvalid);
            }
            if !is_dot(part.as_str()) {
                if is_reserved_dos_name(part.as_str()) {
                    return Err(SmbError::NameInvalid);
                }
                let ghost before = texts(components@);
                components.push(part.clone());
                assert(texts(components@) =~= before.push(part@));
            }
            j += 1;
        }
        assert(dirs.take(j as int) =~= dirs);
        proof {
            lemma_named_one(last_name@);
            lemma_parse_valid(s@);
        }

        if last_name.as_str().is_empty() || is_dot_dot(last_name.as_str()) {
            // Doubled separator, or a bare `:stream` with no file name — both
            // reject; a stream needs a named host file.
            return Err(SmbError::NameInvalid);
        }
        if is_dot(last_name.as_str()) {
            if stream.is_some() {
                return Err(SmbError::NameInvalid);
            }
            // `.` alone (with no preceding components) is the root.
            assert(texts(components@) =~= named(dirs) + named(seq![last_name@]));
        } else {
            if is_reserved_dos_name(last_name.as_str()) {
                return Err(SmbError::NameInvalid);
            }
            let ghost before = texts(components@);
            components.push(last_name);
            assert(texts(components@) =~= before + named(seq![last_name@]));
        }
        Ok(SmbPath { components, stream })
    }

    /// Path components in order. Empty for the root.
    pub fn components(&self) -> (r: &[String])
        ensures
            texts(r@) == self@.components,
    {
        self.components.as_slice()
    }

    /// Is this the share root?
    pub fn is_root(&self) -> (r: bool)
        ensures
            r == (self@.components.len() == 0),
            r ==> self@ == root_path(),
    {
        proof {
            use_type_invariant(self);
            assert(self@.components.len() == 0 ==> self@.components =~= Seq::empty());
        }
        self.components.len() == 0
    }

    /// Return the parent path, or `None` if this is the root.
    pub fn parent(&self) -> (r: Option<SmbPath>)
        ensures
            match r {
                Some(p) => parent_path(self@) == Some(p@) && valid_path(p@),
                None => parent_path(self@) is None,
            },
    {
        proof {
            use_type_invariant(self);
        }
        if self.is_root() {
            return None;
        }
        let mut parent = copy_strings(&self.components);
        let ghost full = parent@;
        let _ = parent.pop();
        assert(texts(parent@) =~= texts(full).drop_last());
        Some(SmbPath { components: parent, stream: None })
    }

    /// Return the last component, if any.
    pub fn file_name(&self) -> (r: Option<&str>)
        ensures
            match r {
                Some(s) => self@.components.len() > 0 && s@ == self@.components.last(),
                None => self@.components.len() == 0,
            },
    {
        if self.components.len() == 0 {
            None
        } else {
            Some(self.components[self.components.len() - 1].as_str())
        }
    }

    /// Append a single, already-validated last component to this path.
    pub fn join(&self, last: &str) -> (r: SmbResult<SmbPath>)
        ensures
            match r {
                Ok(p) => valid_path(p@) && parse_path(last@) is Some && p@ == append_path(
                    self@,
                    parse_path(last@)->0,
                ),
                Err(e) => e == SmbError::NameInvalid && parse_path(last@) is None,
            },
    {
        // Run `last` through the same validator; its stream selector, if any,
        // becomes this path's.
        let extra = match SmbPath::parse_components(last) {
            Ok(p) => p,
            Err(e) => return Err(e),
        };
        proof {
            use_type_invariant(self);
            use_type_invariant(&extra);
        }
        let mut components = copy_strings(&self.components);
        let mut more = copy_strings(&extra.components);
        let ghost a = components@;
        let ghost b = more@;
        components.append(&mut more);
        assert(texts(components@) =~= texts(a) + texts(b));
        let stream = match &extra.stream {
            Some(s) => Some(s.clone()),
            None => None,
        };
        proof {
            let m = append_path(self@, extra@);
            assert forall|i: int| 0 <= i < m.components.len() implies valid_component(
                #[trigger] m.components[i],
            ) by {
                if i < self@.components.len() {
                    assert(m.components[i] == self@.components[i]);
                } else {
                    assert(m.components[i] == extra@.components[i - self@.components.len()]);
                }
            }
        }
        Ok(SmbPath { components, stream })
    }

    /// Render as a backslash-separated string. Empty for root.
    pub fn display_backslash(&self) -> (s: String)
        ensures
            s@ == render(self@.components),
    {
        let ghost names = texts(self.components@);
        let mut out = String::new();
        let mut i: usize = 0;
        assert(names.take(0) =~= Seq::<Seq<char>>::empty());
        while i < self.components.len()
            invariant
                names == texts(self.components@),
                i <= names.len(),
                out@ == render(names.take(i as int)),
            decreases names.len() - i,
        {
            let ghost before = names.take(i as int);
            let ghost next = names.take(i + 1);
            assert(next.drop_last() =~= before);
            assert(next.last() == self.components@[i as int]@);
            if i > 0 {
                out.push('\\');
                assert(out@ =~= render(before) + seq!['\\']);
            }
            out.append(self.components[i].as_str());
            assert(out@ =~= render(next));
            i += 1;
        }
        assert(names.take(i as int) =~= names);
        out
    }

    /// Render for people: a lone backslash for the root, the
    /// backslash-separated components for every other path.
    pub fn display(&self) -> (s: String)
        ensures
            s@ == if self@.components.len() == 0 {
                seq!['\\']
            } else {
                render(self@.components)
            },
    {
        if self.is_root() {
            let mut s = String::new();
            s.push('\\');
            assert(s@ =~= seq!['\\']);
            s
        } else {
            self.display_backslash()
        }
    }
}

impl std::str::FromStr for SmbPath {
    type Err = SmbError;

    fn from_str(s: &str) -> (r: Result<SmbPath, SmbError>)
        ensures
            match r {
                Ok(p) => parse_path(s@) == Some(p@) && valid_path(p@),
                Err(e) => e == SmbError::NameInvalid && parse_path(s@) is None,
            },
    {
        SmbPath::parse_components(s)
    }
}

/// Decodes UTF-16 code units, rejecting unpaired surrogates.
pub fn decode_utf16_strict(units: &[u16]) -> (r: SmbResult<String>)
    ensures
        match r {
            Ok(s) => crate::utf16::utf16(s@) == units@,
            Err(e) => e == SmbError::NameInvalid && forall|s: Seq<char>| #[trigger]
                crate::utf16::utf16(s) != units@,
        },
{
    match crate::utf16::decode(units) {
        Some(s) => Ok(s),
        None => Err(SmbError::NameInvalid),
    }
}

/// Finds the first `c` at or behind `from`.
fn find_char(v: &[char], c: char, from: usize) -> (k: usize)
    requires
        from <= v@.len(),
    ensures
        k == find(v@, c, from as int),
        from <= k <= v@.len(),
{
    let mut i: usize = from;
    while i < v.len() && v[i] != c
        invariant
            from <= i <= v@.len(),
            find(v@, c, from as int) == find(v@, c, i as int),
        decreases v@.len() - i,
    {
        i += 1;
    }
    i
}

/// `COM1`..=`COM9` and `LPT1`..=`LPT9`; `s` is in upper case.
pub fn matches_com_or_lpt(s: &str) -> (r: bool)
    ensures
        r == com_or_lpt(s@),
{
    let c = chars_of(s);
    c.len() == 4 && ((c[0] == 'C' && c[1] == 'O' && c[2] == 'M') || (c[0] == 'L' && c[1] == 'P'
        && c[2] == 'T')) && '1' <= c[3] && c[3] <= '9'
}

/// Is `s` a reserved DOS device name? The extension is stripped before
/// checking, e.g. "CON.txt" is also reserved.
pub fn is_reserved_dos_name(s: &str) -> (r: bool)
    ensures
        r == is_reserved(s@),
{
    let c = chars_of(s);
    let mut end: usize = c.len();
    while end > 0 && c[end - 1] != '.'
        invariant
            end <= c@.len(),
            find_last(c@, '.', c@.len() as int) == find_last(c@, '.', end as int),
        decreases end,
    {
        end -= 1;
    }
    let stem_len: usize = if end > 0 { end - 1 } else { c.len() };
    assert(stem(s@) =~= c@.take(stem_len as int));
    let mut u: Vec<char> = Vec::new();
    let mut i: usize = 0;
    while i < stem_len
        invariant
            i <= stem_len <= c@.len(),
            u@ == upper_text(c@.take(i as int)),
        decreases stem_len - i,
    {
        u.push(upper(c[i]));
        i += 1;
        assert(u@ =~= upper_text(c@.take(i as int)));
    }
    let name = string_of(u.as_slice(), 0, u.len());
    assert(name@ =~= u@);
    assert(u@.len() == 3 ==> u@ =~= seq![u@[0], u@[1], u@[2]]);
    let device = u.len() == 3 && ((u[0] == 'C' && u[1] == 'O' && u[2] == 'N') || (u[0] == 'P'
        && u[1] == 'R' && u[2] == 'N') || (u[0] == 'A' && u[1] == 'U' && u[2] == 'X') || (u[0]
        == 'N' && u[1] == 'U' && u[2] == 'L'));
    device || matches_com_or_lpt(name.as_str())
}

/// Is the text from `from` on `$DATA`, in any case?
fn is_data_type(v: &[char], from: usize) -> (r: bool)
    requires
        from <= v@.len(),
    ensures
        r == same_text(v@.skip(from as int), data_type()),
{
    let ghost t = v@.skip(from as int);
    if v.len() - from != 5 {
        return false;
    }
    let r = eq_ignore_ascii_case(v[from], '$') && eq_ignore_ascii_case(v[from + 1], 'D')
        && eq_ignore_ascii_case(v[from + 2], 'A') && eq_ignore_ascii_case(v[from + 3], 'T')
        && eq_ignore_ascii_case(v[from + 4], 'A');
    proof {
        let d = data_type();
        assert(t[0] == v@[from as int] && t[1] == v@[from + 1] && t[2] == v@[from + 2] && t[3]
            == v@[from + 3] && t[4] == v@[from + 4]);
        if same_text(t, d) {
            assert(crate::text::same_letter(t[0], d[0]));
            assert(crate::text::same_letter(t[1], d[1]));
            assert(crate::text::same_letter(t[2], d[2]));
            assert(crate::text::same_letter(t[3], d[3]));
            assert(crate::text::same_letter(t[4], d[4]));
        }
    }
    r
}

/// Splits a final path component into its file name and an optional stream
/// selector (MS-FSCC §2.1.5): `name[:stream[:type]]`. `type`, if present,
/// must be `$DATA` (case-insensitive) — other stream types (e.g.
/// `$INDEX_ALLOCATION`) are not supported. An empty stream name paired with an
/// absent or `$DATA` type (`name::$DATA`, or a bare trailing `name:`) means
/// "the primary data stream", i.e. no stream at all.
pub fn split_stream_selector(last: &str) -> (r: SmbResult<(String, Option<String>)>)
    ensures
        match r {
            Ok((name, None)) => selector(last@) == Some((name@, None::<Seq<char>>)),
            Ok((name, Some(stream))) => selector(last@) == Some((name@, Some(stream@))),
            Err(e) => e == SmbError::NameInvalid && selector(last@) is None,
        },
{
    let c = chars_of(last);
    let k = find_char(c.as_slice(), ':', 0);
    let name = string_of(c.as_slice(), 0, k);
    assert(name@ =~= last@.take(k as int));
    if k == c.len() {
        assert(name@ =~= last@);
        return Ok((name, None));
    }
    let end: usize = c.len();
    let rest = string_of(c.as_slice(), k + 1, end);
    assert(rest@ =~= last@.skip(k + 1));
    let r = chars_of(rest.as_str());
    let m = find_char(r.as_slice(), ':', 0);
    if m < r.len() && !is_data_type(r.as_slice(), m + 1) {
        return Err(SmbError::NameInvalid);
    }
    if m == 0 {
        Ok((name, None))
    } else {
        let stream = string_of(r.as_slice(), 0, m);
        assert(stream@ =~= rest@.take(m as int));
        Ok((name, Some(stream)))
    }
}

/// Cuts the text from `from` on at each separator.
fn split_parts(v: &[char], from: usize) -> (out: Vec<String>)
    requires
        from <= v@.len(),
    ensures
        texts(out@) == parts(v@.skip(from as int)),
        out@.len() > 0,
{
    let mut done: Vec<String> = Vec::new();
    let mut current = String::new();
    let mut i: usize = from;
    assert(v@.subrange(from as int, from as int) =~= Seq::<char>::empty());
    assert(texts(done@).push(current@) =~= seq![Seq::<char>::empty()]);
    while i < v.len()
        invariant
            from <= i <= v@.len(),
            texts(done@).push(current@) == parts(v@.subrange(from as int, i as int)),
        decreases v@.len() - i,
    {
        let ghost seen = v@.subrange(from as int, i as int);
        let ghost next = v@.subrange(from as int, i + 1);
        let ghost front = texts(done@).push(current@);
        assert(next.drop_last() =~= seen);
        assert(next.last() == v@[i as int]);
        let c: char = v[i];
        if c == '\\' || c == '/' {
            done.push(current);
            current = String::new();
            assert(texts(done@) =~= front);
        } else {
            current.push(c);
            assert(texts(done@) =~= front.drop_last());
        }
        i += 1;
    }
    assert(v@.subrange(from as int, i as int) =~= v@.skip(from as int));
    let ghost all = texts(done@).push(current@);
    done.push(current);
    assert(texts(done@) =~= all);
    done
}

/// Does `s` hold a `:`?
fn has_colon(s: &str) -> (r: bool)
    ensures
        r == s@.contains(':'),
{
    let c = chars_of(s);
    let mut i: usize = 0;
    while i < c.len()
        invariant
            c@ == s@,
            i <= c@.len(),
            forall|k: int| 0 <= k < i ==> c@[k] != ':',
        decreases c@.len() - i,
    {
        if c[i] == ':' {
            assert(s@[i as int] == ':');
            return true;
        }
        i += 1;
    }
    false
}

/// Is `s` the name `.`?
fn is_dot(s: &str) -> (r: bool)
    ensures
        r == (s@ == dot()),
{
    let c = chars_of(s);
    assert(c@.len() == 1 ==> c@ =~= seq![c@[0]]);
    c.len() == 1 && c[0] == '.'
}

/// Is `s` the name `..`?
fn is_dot_dot(s: &str) -> (r: bool)
    ensures
        r == (s@ == dot_dot()),
{
    let c = chars_of(s);
    assert(c@.len() == 2 ==> c@ =~= seq![c@[0], c@[1]]);
    c.len() == 2 && c[0] == '.' && c[1] == '.'
}

/// Is `c` a character that no path may hold?
fn forbidden(c: char) -> (r: bool)
    ensures
        r == is_forbidden(c),
{
    (c as u32) < 0x20 || c == '<' || c == '>' || c == '"' || c == '|' || c == '?' || c == '*'
}

/// `find` gives the first place of `c` at or behind `i`.
proof fn lemma_find(s: Seq<char>, c: char, i: int)
    requires
        0 <= i <= s.len(),
    ensures
        i <= find(s, c, i) <= s.len(),
        forall|k: int| i <= k < find(s, c, i) ==> s[k] != c,
        find(s, c, i) < s.len() ==> s[find(s, c, i)] == c,
    decreases s.len() - i,
{
    if i < s.len() && s[i] != c {
        lemma_find(s, c, i + 1);
    }
}

/// The first place of `c` is where `c` stands with none before it.
proof fn lemma_find_at(s: Seq<char>, c: char, k: int)
    requires
        0 <= k <= s.len(),
        forall|t: int| 0 <= t < k ==> s[t] != c,
        k < s.len() ==> s[k] == c,
    ensures
        find(s, c, 0) == k,
{
    lemma_find(s, c, 0);
}

/// The parts of a text hold its characters other than the separators.
proof fn lemma_parts_chars(s: Seq<char>)
    ensures
        parts(s).len() > 0,
        forall|i: int, k: int|
            0 <= i < parts(s).len() && 0 <= k < parts(s)[i].len() ==> !is_separator(
                #[trigger] parts(s)[i][k],
            ) && s.contains(parts(s)[i][k]),
    decreases s.len(),
{
    if s.len() > 0 {
        let init = s.drop_last();
        let front = parts(init);
        lemma_parts_chars(init);
        assert forall|i: int, k: int|
            0 <= i < parts(s).len() && 0 <= k < parts(s)[i].len() implies !is_separator(
            #[trigger] parts(s)[i][k],
        ) && s.contains(parts(s)[i][k]) by {
            let c = parts(s)[i][k];
            if !is_separator(s.last()) && i == front.len() - 1 && k == front.last().len() {
                assert(s[s.len() - 1] == c);
            } else {
                assert(i < front.len());
                assert(front[i][k] == c);
                let t = choose|t: int| 0 <= t < init.len() && init[t] == c;
                assert(s[t] == c);
            }
        }
    }
}

/// Which names of a longer list are other than `.`.
proof fn lemma_named_push(names: Seq<Seq<char>>, d: Seq<char>)
    ensures
        named(names.push(d)) == if d == dot() {
            named(names)
        } else {
            named(names).push(d)
        },
{
    reveal(Seq::filter);
    assert(names.push(d).drop_last() =~= names);
}

/// A list of names without `.` stays as it is.
proof fn lemma_named_all(names: Seq<Seq<char>>)
    requires
        forall|i: int| 0 <= i < names.len() ==> #[trigger] names[i] != dot(),
    ensures
        named(names) == names,
    decreases names.len(),
{
    reveal(Seq::filter);
    if names.len() > 0 {
        let init = names.drop_last();
        assert(forall|i: int| 0 <= i < init.len() ==> #[trigger] init[i] == names[i]);
        lemma_named_all(init);
        assert(init.push(names.last()) =~= names);
        lemma_named_push(init, names.last());
    } else {
        assert(named(names) =~= names);
    }
}

/// The one name of a list of one.
proof fn lemma_named_one(d: Seq<char>)
    ensures
        named(seq![d]) == if d == dot() {
            Seq::empty()
        } else {
            seq![d]
        },
{
    reveal(Seq::filter);
    assert(seq![d] =~= Seq::<Seq<char>>::empty().push(d));
    lemma_named_push(Seq::empty(), d);
    assert(named(Seq::empty()) =~= Seq::<Seq<char>>::empty());
}

/// The names other than `.` are names of the list.
proof fn lemma_named_members(names: Seq<Seq<char>>)
    ensures
        forall|i: int|
            0 <= i < named(names).len() ==> (#[trigger] named(names)[i]) != dot()
                && names.contains(named(names)[i]),
    decreases names.len(),
{
    if names.len() > 0 {
        let init = names.drop_last();
        lemma_named_members(init);
        assert(init.push(names.last()) =~= names);
        lemma_named_push(init, names.last());
        assert forall|i: int| 0 <= i < named(names).len() implies (#[trigger] named(names)[i])
            != dot() && names.contains(named(names)[i]) by {
            if i < named(init).len() {
                let d = named(init)[i];
                assert(named(names)[i] == d);
                let t = choose|t: int| 0 <= t < init.len() && init[t] == d;
                assert(names[t] == d);
            } else {
                assert(names[names.len() - 1] == named(names)[i]);
            }
        }
    } else {
        reveal(Seq::filter);
        assert(named(names) =~= Seq::<Seq<char>>::empty());
    }
}

/// Every text that is accepted as a path is a path that backends can trust:
/// no `..`, no empty, reserved or forbidden name, a stream only on a file.
pub proof fn lemma_parse_valid(s: Seq<char>)
    ensures
        parse_path(s) matches Some(p) ==> valid_path(p),
{
    let t = strip_leading(s);
    if parse_path(s) is Some && t.len() > 0 {
        let p = parse_path(s)->0;
        let all = parts(t);
        let dirs = all.drop_last();
        let last = all.last();
        let (name, stream) = selector(last)->0;
        lemma_parts_chars(t);
        lemma_named_members(dirs);
        lemma_named_one(name);
        lemma_find(last, ':', 0);
        let k = find(last, ':', 0);
        let rest = last.skip(k + 1);
        if k < last.len() {
            lemma_find(rest, ':', 0);
        }
        assert(forall|i: int| 0 <= i < t.len() ==> !is_forbidden(#[trigger] t[i]));
        assert forall|i: int, j: int| 0 <= i < all.len() && 0 <= j < all[i].len() implies !is_forbidden(
            #[trigger] all[i][j],
        ) by {
            let x = choose|x: int| 0 <= x < t.len() && t[x] == all[i][j];
            assert(!is_forbidden(t[x]));
        }
        assert forall|i: int| 0 <= i < p.components.len() implies valid_component(
            #[trigger] p.components[i],
        ) by {
            let c = p.components[i];
            if i < named(dirs).len() {
                assert(named(dirs)[i] == c);
                let x = choose|x: int| 0 <= x < dirs.len() && dirs[x] == c;
                assert(dir_allowed(dirs[x]));
                assert(all[x] == c);
                assert forall|y: int| 0 <= y < c.len() implies !is_separator(#[trigger] c[y])
                    && !is_forbidden(c[y]) && c[y] != ':' by {
                    assert(all[x][y] == c[y]);
                    assert(c.contains(c[y]));
                }
            } else {
                assert(c == name);
                assert forall|y: int| 0 <= y < c.len() implies !is_separator(#[trigger] c[y])
                    && !is_forbidden(c[y]) && c[y] != ':' by {
                    assert(all[all.len() - 1][y] == c[y]);
                }
            }
        }
        if stream is Some {
            let st = stream->0;
            assert forall|y: int| 0 <= y < st.len() implies !is_separator(#[trigger] st[y])
                && !is_forbidden(st[y]) && st[y] != ':' by {
                assert(st[y] == rest[y]);
                assert(rest[y] == last[k + 1 + y]);
                assert(all[all.len() - 1][k + 1 + y] == st[y]);
            }
        }
    }
}

/// Text without a separator goes to the last part.
proof fn lemma_parts_plain(s: Seq<char>, x: Seq<char>)
    requires
        forall|i: int| 0 <= i < x.len() ==> !is_separator(#[trigger] x[i]),
    ensures
        parts(s + x) == parts(s).drop_last().push(parts(s).last() + x),
        parts(s).len() > 0,
    decreases x.len(),
{
    lemma_parts_chars(s);
    if x.len() == 0 {
        assert(s + x =~= s);
        assert(parts(s).last() + x =~= parts(s).last());
        assert(parts(s) =~= parts(s).drop_last().push(parts(s).last()));
    } else {
        let y = x.drop_last();
        assert(forall|i: int| 0 <= i < y.len() ==> #[trigger] y[i] == x[i]);
        lemma_parts_plain(s, y);
        assert((s + x).drop_last() =~= s + y);
        let front = parts(s + y);
        assert(front.last() == parts(s).last() + y);
        assert(front.drop_last() =~= parts(s).drop_last());
        assert((parts(s).last() + y).push(x.last()) =~= parts(s).last() + x);
        assert(parts(s + x) =~= parts(s).drop_last().push(parts(s).last() + x));
    }
}

/// A separator starts a new, empty part.
proof fn lemma_parts_separator(s: Seq<char>, c: char)
    requires
        is_separator(c),
    ensures
        parts(s.push(c)) == parts(s).push(Seq::empty()),
{
    assert(s.push(c).drop_last() =~= s);
}

/// The parts of rendered names are the names.
proof fn lemma_parts_render(names: Seq<Seq<char>>)
    requires
        names.len() > 0,
        forall|i: int| 0 <= i < names.len() ==> valid_component(#[trigger] names[i]),
    ensures
        parts(render(names)) == names,
        render(names).len() > 0,
        !is_separator(render(names)[0]),
        forall|i: int|
            0 <= i < render(names).len() ==> !is_forbidden(#[trigger] render(names)[i])
                && render(names)[i] != ':',
    decreases names.len(),
{
    let empty = Seq::<char>::empty();
    if names.len() == 1 {
        lemma_parts_plain(empty, names[0]);
        assert(empty + names[0] =~= names[0]);
        assert(parts(empty) =~= seq![empty]);
        assert(parts(names[0]) =~= names);
    } else {
        let init = names.drop_last();
        let last = names.last();
        assert(forall|i: int| 0 <= i < init.len() ==> #[trigger] init[i] == names[i]);
        lemma_parts_render(init);
        let head = render(init).push('\\');
        lemma_parts_separator(render(init), '\\');
        assert(valid_component(names[names.len() - 1]));
        lemma_parts_plain(head, last);
        assert(render(names) =~= head + last);
        assert(empty + last =~= last);
        assert(parts(head).drop_last() =~= init);
        assert(init.push(last) =~= names);
        assert forall|i: int| 0 <= i < render(names).len() implies !is_forbidden(
            #[trigger] render(names)[i],
        ) && render(names)[i] != ':' by {
            if i < render(init).len() {
                assert(render(names)[i] == render(init)[i]);
            } else if i > render(init).len() {
                assert(render(names)[i] == last[i - render(init).len() - 1]);
            }
        }
    }
}

/// A path as text: its rendered components, then a `:` and its stream, if any.
pub open spec fn path_text(p: PathModel) -> Seq<char> {
    match p.stream {
        Some(st) => render(p.components) + seq![':'] + st,
        None => render(p.components),
    }
}

/// Reading a path's own text gives the path back.
pub proof fn lemma_path_text_round_trip(p: PathModel)
    requires
        valid_path(p),
    ensures
        parse_path(path_text(p)) == Some(p),
{
    let names = p.components;
    if names.len() == 0 {
        assert(names =~= Seq::empty());
        assert(path_text(p) =~= Seq::empty());
    } else {
        let text = path_text(p);
        let r = render(names);
        lemma_parts_render(names);
        let name = names.last();
        let init = names.drop_last();
        assert(valid_component(names[names.len() - 1]));
        let tail = match p.stream {
            Some(st) => seq![':'] + st,
            None => Seq::empty(),
        };
        assert(text =~= r + tail);
        assert(text[0] == r[0]);
        lemma_parts_plain(r, tail);
        let last = name + tail;
        assert(parts(text) == init.push(last));
        assert(parts(text).drop_last() =~= init);
        assert forall|i: int| 0 <= i < text.len() implies !is_forbidden(#[trigger] text[i]) by {
            if i < r.len() {
                assert(text[i] == r[i]);
            } else {
                assert(text[i] == tail[i - r.len()]);
            }
        }
        assert forall|i: int| 0 <= i < name.len() implies last[i] != ':' by {
            assert(last[i] == name[i]);
        }
        if p.stream is Some {
            let st = p.stream->0;
            assert(last[name.len() as int] == ':');
            lemma_find_at(last, ':', name.len() as int);
            assert(last.skip(name.len() as int + 1) =~= st);
            lemma_find_at(st, ':', st.len() as int);
            assert(st.take(st.len() as int) =~= st);
            assert(last.take(name.len() as int) =~= name);
        } else {
            assert(last =~= name);
            lemma_find_at(last, ':', name.len() as int);
        }
        assert forall|i: int| 0 <= i < init.len() implies dir_allowed(#[trigger] init[i]) by {
            assert(valid_component(names[i]));
            assert(!init[i].contains(':'));
        }
        lemma_named_all(init);
        lemma_named_one(name);
        assert(named(init) + named(seq![name]) =~= names);
    }
}

/// Joining a path's parent with the text of its last component gives the path
/// back.
pub proof fn lemma_parent_join(p: PathModel)
    requires
        valid_path(p),
        p.components.len() > 0,
    ensures
        parse_path(
            path_text(PathModel { components: seq![p.components.last()], stream: p.stream }),
        ) matches Some(e) && append_path(parent_path(p)->0, e) == p,
{
    let one = PathModel { components: seq![p.components.last()], stream: p.stream };
    assert(valid_component(p.components[p.components.len() - 1]));
    lemma_path_text_round_trip(one);
    assert(p.components.drop_last() + one.components =~= p.components);
}

/// The parent of a joined component is the path that it was joined to.
pub proof fn lemma_join_parent(p: PathModel, name: Seq<char>)
    requires
        valid_path(p),
        valid_component(name),
    ensures
        parse_path(name) matches Some(e) && parent_path(append_path(p, e)) == Some(
            PathModel { components: p.components, stream: None },
        ),
{
    let one = PathModel { components: seq![name], stream: None };
    lemma_path_text_round_trip(one);
    assert(path_text(one) == name);
    assert((p.components + one.components).drop_last() =~= p.components);
}

/// `s` with backslashes in the place of slashes.
pub open spec fn backslashed(s: Seq<char>) -> Seq<char> {
    s.map_values(|c: char| if c == '/' { '\\' } else { c })
}

/// Both separators cut a text in the same way.
proof fn lemma_parts_backslashed(s: Seq<char>)
    ensures
        parts(backslashed(s)) == parts(s),
    decreases s.len(),
{
    if s.len() > 0 {
        lemma_parts_backslashed(s.drop_last());
        assert(backslashed(s).drop_last() =~= backslashed(s.drop_last()));
    } else {
        assert(backslashed(s) =~= s);
    }
}

/// A path may be written with slashes, with backslashes, or with both: the text
/// with every slash turned into a backslash stands for the same path.
pub proof fn lemma_separators_alike(s: Seq<char>)
    ensures
        parse_path(backslashed(s)) == parse_path(s),
{
    let b = backslashed(s);
    let t = strip_leading(s);
    let u = strip_leading(b);
    assert(u =~= backslashed(t));
    lemma_parts_backslashed(t);
    if exists|i: int| 0 <= i < t.len() && is_forbidden(#[trigger] t[i]) {
        let i = choose|i: int| 0 <= i < t.len() && is_forbidden(#[trigger] t[i]);
        assert(is_forbidden(u[i]));
    }
    if exists|i: int| 0 <= i < u.len() && is_forbidden(#[trigger] u[i]) {
        let i = choose|i: int| 0 <= i < u.len() && is_forbidden(#[trigger] u[i]);
        assert(is_forbidden(t[i]));
    }
}

/// One leading separator makes no difference.
pub proof fn lemma_leading_separator(c: char, s: Seq<char>)
    requires
        is_separator(c),
        s.len() == 0 || !is_separator(s[0]),
    ensures
        parse_path(seq![c] + s) == parse_path(s),
{
    assert((seq![c] + s).skip(1) =~= s);
}

/// Text behind a name without a stream selector only changes the selector: the
/// directories and what is forbidden stay.
proof fn lemma_suffix(s: Seq<char>, x: Seq<char>)
    requires
        strip_leading(s).len() > 0,
        forall|i: int| 0 <= i < x.len() ==> !is_separator(#[trigger] x[i]) && !is_forbidden(x[i]),
    ensures
        strip_leading(s + x) == strip_leading(s) + x,
        parts(strip_leading(s + x)).drop_last() == parts(strip_leading(s)).drop_last(),
        parts(strip_leading(s + x)).last() == parts(strip_leading(s)).last() + x,
        (exists|i: int|
            0 <= i < strip_leading(s + x).len() && is_forbidden(#[trigger] strip_leading(s + x)[i]))
            <==> (exists|i: int|
            0 <= i < strip_leading(s).len() && is_forbidden(#[trigger] strip_leading(s)[i])),
{
    let t = strip_leading(s);
    let u = strip_leading(s + x);
    assert(u =~= t + x);
    lemma_parts_plain(t, x);
    let front = parts(t).drop_last();
    assert(parts(u) == front.push(parts(t).last() + x));
    assert(parts(u).drop_last() =~= front);
    if exists|i: int| 0 <= i < t.len() && is_forbidden(#[trigger] t[i]) {
        let i = choose|i: int| 0 <= i < t.len() && is_forbidden(#[trigger] t[i]);
        assert(is_forbidden(u[i]));
    }
    if exists|i: int| 0 <= i < u.len() && is_forbidden(#[trigger] u[i]) {
        let i = choose|i: int| 0 <= i < u.len() && is_forbidden(#[trigger] u[i]);
        if i >= t.len() {
            assert(u[i] == x[i - t.len()]);
        }
        assert(is_forbidden(t[i]));
    }
}

/// The last part of a text without `:` has none.
proof fn lemma_last_no_colon(s: Seq<char>)
    requires
        !s.contains(':'),
    ensures
        parts(strip_leading(s)).len() > 0,
        forall|i: int|
            0 <= i < parts(strip_leading(s)).last().len() ==> (#[trigger] parts(
                strip_leading(s),
            ).last()[i]) != ':',
{
    let t = strip_leading(s);
    lemma_parts_chars(t);
    let last = parts(t).last();
    assert forall|i: int| 0 <= i < last.len() implies (#[trigger] last[i]) != ':' by {
        if last[i] == ':' {
            assert(parts(t)[parts(t).len() - 1][i] == ':');
            let x = choose|x: int| 0 <= x < t.len() && t[x] == ':';
            if t.len() < s.len() {
                assert(s[x + 1] == ':');
            } else {
                assert(s[x] == ':');
            }
        }
    }
}

/// A bare trailing `:` selects no stream: the text stands for the same path.
pub proof fn lemma_bare_colon(s: Seq<char>)
    requires
        strip_leading(s).len() > 0,
        !s.contains(':'),
    ensures
        parse_path(s + seq![':']) == parse_path(s),
{
    let x = seq![':'];
    lemma_suffix(s, x);
    lemma_last_no_colon(s);
    let last = parts(strip_leading(s)).last();
    lemma_find_at(last, ':', last.len() as int);
    assert((last + x)[last.len() as int] == ':');
    lemma_find_at(last + x, ':', last.len() as int);
    assert((last + x).take(last.len() as int) =~= last);
    assert((last + x).skip(last.len() as int + 1) =~= Seq::<char>::empty());
    assert(selector(last + x) == selector(last));
}

/// The explicit type `$DATA`, in any case, makes no difference: `s:st:$DATA`
/// stands for the same path as `s:st`. With an empty `st` this is
/// `s::$DATA`, the primary data stream.
pub proof fn lemma_explicit_data_type(s: Seq<char>, st: Seq<char>, d: Seq<char>)
    requires
        strip_leading(s).len() > 0,
        !s.contains(':'),
        forall|i: int|
            0 <= i < st.len() ==> !is_separator(#[trigger] st[i]) && !is_forbidden(st[i]) && st[i]
                != ':',
        same_text(d, data_type()),
    ensures
        parse_path(s + (seq![':'] + st + seq![':'] + d)) == parse_path(s + (seq![':'] + st)),
{
    let x = seq![':'] + st;
    let y = seq![':'] + st + seq![':'] + d;
    assert forall|i: int| 0 <= i < d.len() implies !is_separator(#[trigger] d[i]) && !is_forbidden(
        d[i],
    ) && d[i] != ':' by {
        assert(crate::text::same_letter(d[i], data_type()[i]));
    }
    assert forall|i: int| 0 <= i < y.len() implies !is_separator(#[trigger] y[i]) && !is_forbidden(
        y[i],
    ) by {
        if 1 <= i < 1 + st.len() {
            assert(y[i] == st[i - 1]);
        } else if i >= 2 + st.len() {
            assert(y[i] == d[i - 2 - st.len()]);
        }
    }
    assert forall|i: int| 0 <= i < x.len() implies !is_separator(#[trigger] x[i]) && !is_forbidden(
        x[i],
    ) by {
        assert(x[i] == y[i]);
    }
    lemma_suffix(s, x);
    lemma_suffix(s, y);
    lemma_last_no_colon(s);
    let last = parts(strip_leading(s)).last();
    let k = last.len() as int;
    assert((last + x)[k] == ':');
    assert((last + y)[k] == ':');
    lemma_find_at(last + x, ':', k);
    lemma_find_at(last + y, ':', k);
    assert((last + x).take(k) =~= last);
    assert((last + y).take(k) =~= last);
    let rx = (last + x).skip(k + 1);
    let ry = (last + y).skip(k + 1);
    assert(rx =~= st);
    assert(ry =~= st + seq![':'] + d);
    lemma_find_at(rx, ':', st.len() as int);
    assert(ry[st.len() as int] == ':');
    assert(forall|t: int| 0 <= t < st.len() ==> ry[t] == st[t]);
    lemma_find_at(ry, ':', st.len() as int);
    assert(ry.skip(st.len() as int + 1) =~= d);
    assert(ry.take(st.len() as int) =~= st);
    assert(rx.take(st.len() as int) =~= st);
    assert(selector(last + x) == selector(last + y));
}

/// Cutting a text that was put together at a separator cuts both sides.
proof fn lemma_parts_cut(x: Seq<char>, c: char, y: Seq<char>)
    requires
        is_separator(c),
    ensures
        parts(x).len() > 0,
        parts(y).len() > 0,
        parts(x + seq![c] + y) == parts(x) + parts(y),
    decreases y.len(),
{
    lemma_parts_chars(x);
    lemma_parts_chars(y);
    let s = x + seq![c] + y;
    if y.len() == 0 {
        assert(s.drop_last() =~= x);
        assert(parts(s) =~= parts(x) + parts(y));
    } else {
        lemma_parts_cut(x, c, y.drop_last());
        lemma_parts_chars(y.drop_last());
        assert(s.drop_last() =~= x + seq![c] + y.drop_last());
        assert(s.last() == y.last());
        let front = parts(y.drop_last());
        assert((parts(x) + front).drop_last() =~= parts(x) + front.drop_last());
        assert((parts(x) + front).last() == front.last());
        assert(parts(s) =~= parts(x) + parts(y));
    }
}

/// A text without separators is one part.
proof fn lemma_parts_one(x: Seq<char>)
    requires
        forall|i: int| 0 <= i < x.len() ==> !is_separator(#[trigger] x[i]),
    ensures
        parts(x) == seq![x],
    decreases x.len(),
{
    if x.len() > 0 {
        assert forall|i: int| 0 <= i < x.drop_last().len() implies !is_separator(
            #[trigger] x.drop_last()[i],
        ) by {
            assert(x.drop_last()[i] == x[i]);
        }
        lemma_parts_one(x.drop_last());
        assert(!is_separator(x[x.len() - 1]));
        assert(x.drop_last().push(x.last()) =~= x);
        assert(parts(x) =~= seq![x]);
    } else {
        assert(x =~= Seq::<char>::empty());
        assert(parts(x) =~= seq![x]);
    }
}

/// A device name is `CON`, `PRN`, `AUX`, `NUL`, or `COM` or `LPT` and a digit
/// from 1 to 9, in any case. It is reserved with one extension or without: what
/// counts is the text before the last `.`.
#[verifier::rlimit(50)]
pub proof fn lemma_reserved_names(base: Seq<char>, ext: Seq<char>)
    requires
        !ext.contains('.'),
    ensures
        ({
            let b = |i: int, c: char| crate::text::same_letter(base[i], c);
            let device = {
                ||| base.len() == 3 && b(0, 'C') && b(1, 'O') && b(2, 'N')
                ||| base.len() == 3 && b(0, 'P') && b(1, 'R') && b(2, 'N')
                ||| base.len() == 3 && b(0, 'A') && b(1, 'U') && b(2, 'X')
                ||| base.len() == 3 && b(0, 'N') && b(1, 'U') && b(2, 'L')
                ||| base.len() == 4 && b(0, 'C') && b(1, 'O') && b(2, 'M') && 49 <= base[3] as u32
                    <= 57
                ||| base.len() == 4 && b(0, 'L') && b(1, 'P') && b(2, 'T') && 49 <= base[3] as u32
                    <= 57
            };
            &&& is_reserved(base + seq!['.'] + ext) <==> device
            &&& !base.contains('.') ==> (is_reserved(base) <==> device)
        }),
{
    let s = base + seq!['.'] + ext;
    lemma_find_last_in(ext, base + seq!['.'], ext.len() as int);
    assert(s =~= (base + seq!['.']) + ext);
    assert(s[base.len() as int] == '.');
    assert(find_last(s, '.', s.len() as int) == base.len());
    assert(s.take(base.len() as int) =~= base);
    assert(stem(s) == base);
    if !base.contains('.') {
        lemma_find_last_in(base, seq![], base.len() as int);
        assert(seq![] + base =~= base);
        assert(stem(base) == base);
    }
    let u = upper_text(base);
    assert forall|i: int, c: char|
        0 <= i < base.len() && (65 <= c as u32 <= 90) implies (#[trigger] crate::text::same_letter(
        base[i],
        c,
    ) <==> u[i] == c) by {
        crate::text::lemma_ascii_upper(base[i], c);
        crate::text::lemma_ascii_upper(c, c);
    }
    if base.len() == 4 {
        crate::text::lemma_ascii_upper(base[3], base[3]);
        assert(u[3] == crate::text::ascii_upper(base[3]));
    }
    if u.len() == 3 {
        assert(u =~= seq![u[0], u[1], u[2]]);
        let con = seq!['C', 'O', 'N'];
        let prn = seq!['P', 'R', 'N'];
        let aux = seq!['A', 'U', 'X'];
        let nul = seq!['N', 'U', 'L'];
        assert(u == con <==> u[0] == con[0] && u[1] == con[1] && u[2] == con[2]);
        assert(u == prn <==> u[0] == prn[0] && u[1] == prn[1] && u[2] == prn[2]);
        assert(u == aux <==> u[0] == aux[0] && u[1] == aux[1] && u[2] == aux[2]);
        assert(u == nul <==> u[0] == nul[0] && u[1] == nul[1] && u[2] == nul[2]);
    }
}

/// Looking for the last `.` passes over a text that has none.
proof fn lemma_find_last_in(x: Seq<char>, front: Seq<char>, n: int)
    requires
        !x.contains('.'),
        0 <= n <= x.len(),
        front.len() == 0 || front.last() == '.',
    ensures
        find_last(front + x, '.', front.len() + n) == front.len() - 1,
    decreases n,
{
    if n > 0 {
        assert((front + x)[front.len() + n - 1] == x[n - 1]);
        assert(x.contains(x[n - 1]));
        lemma_find_last_in(x, front, n - 1);
    } else if front.len() > 0 {
        assert((front + x)[front.len() - 1] == front.last());
    }
}

/// What one name stands for. A name without `:` and separators is taken as it is
/// unless it is empty, `.`, `..`, a device name, or holds a character below
/// U+0020 or one of `< > " | ? *`; `.` stands for the root, and the others for no
/// path.
pub proof fn lemma_plain_name(s: Seq<char>)
    requires
        forall|i: int|
            0 <= i < s.len() ==> (#[trigger] s[i]) != '\\' && s[i] != '/' && s[i] != ':',
    ensures
        ({
            let clean = forall|i: int|
                0 <= i < s.len() ==> (#[trigger] s[i]) as u32 >= 0x20 && s[i] != '<' && s[i] != '>'
                    && s[i] != '"' && s[i] != '|' && s[i] != '?' && s[i] != '*';
            parse_path(s) == if s.len() == 0 || s == seq!['.'] {
                Some(PathModel { components: seq![], stream: None })
            } else if clean && s != seq!['.', '.'] && !is_reserved(s) {
                Some(PathModel { components: seq![s], stream: None })
            } else {
                None
            }
        }),
{
    if s.len() > 0 {
        assert(!is_separator(s[0]));
        assert(strip_leading(s) == s);
        lemma_parts_one(s);
        assert(parts(s).drop_last() =~= seq![]);
        lemma_find_at(s, ':', s.len() as int);
        lemma_named_one(s);
        reveal(Seq::filter);
        assert(named(seq![]) =~= Seq::<Seq<char>>::empty());
        assert(named(seq![]) + named(seq![s]) =~= named(seq![s]));
        if exists|i: int| 0 <= i < s.len() && is_forbidden(#[trigger] s[i]) {
            let i = choose|i: int| 0 <= i < s.len() && is_forbidden(#[trigger] s[i]);
            assert(!(s[i] as u32 >= 0x20 && s[i] != '<' && s[i] != '>' && s[i] != '"' && s[i] != '|'
                && s[i] != '?' && s[i] != '*'));
            if s == seq!['.'] {
                assert(s[i] == '.');
            }
        } else {
            assert forall|i: int| 0 <= i < s.len() implies (#[trigger] s[i]) as u32 >= 0x20 && s[i]
                != '<' && s[i] != '>' && s[i] != '"' && s[i] != '|' && s[i] != '?' && s[i]
                != '*' by {
                assert(!is_forbidden(s[i]));
            }
        }
    }
}

/// A name and a stream: a clean, not empty stream name without `:` behind a name
/// that stands for a file selects that stream of it; behind anything else there
/// is no path.
#[verifier::rlimit(60)]
pub proof fn lemma_plain_stream(name: Seq<char>, st: Seq<char>)
    requires
        forall|i: int|
            0 <= i < name.len() ==> (#[trigger] name[i]) != '\\' && name[i] != '/' && name[i] != ':',
        forall|i: int|
            0 <= i < st.len() ==> (#[trigger] st[i]) != '\\' && st[i] != '/' && st[i] != ':',
        st.len() > 0,
    ensures
        ({
            let clean = forall|i: int|
                0 <= i < st.len() ==> (#[trigger] st[i]) as u32 >= 0x20 && st[i] != '<' && st[i]
                    != '>' && st[i] != '"' && st[i] != '|' && st[i] != '?' && st[i] != '*';
            parse_path(name + seq![':'] + st) == match parse_path(name) {
                Some(p) => if p.components == seq![name] && clean {
                    Some(PathModel { components: seq![name], stream: Some(st) })
                } else {
                    None
                },
                None => None,
            }
        }),
{
    let s = name + seq![':'] + st;
    let n = name.len() as int;
    lemma_plain_name(name);
    assert(s[n] == ':');
    assert(s[0] == if n > 0 { name[0] } else { ':' });
    assert(strip_leading(s) == s);
    assert forall|i: int| 0 <= i < s.len() implies !is_separator(#[trigger] s[i]) by {
        if i < n {
            assert(s[i] == name[i]);
        } else if i > n {
            assert(s[i] == st[i - n - 1]);
        }
    }
    lemma_parts_one(s);
    assert(parts(s).drop_last() =~= seq![]);
    assert forall|i: int| 0 <= i < n implies s[i] != ':' by {
        assert(s[i] == name[i]);
    }
    lemma_find_at(s, ':', n);
    assert(s.skip(n + 1) =~= st);
    lemma_find_at(st, ':', st.len() as int);
    assert(st.take(st.len() as int) =~= st);
    assert(s.take(n) =~= name);
    lemma_named_one(name);
    reveal(Seq::filter);
    assert(named(seq![]) =~= Seq::<Seq<char>>::empty());
    assert(named(seq![]) + named(seq![name]) =~= named(seq![name]));
    let bad = exists|i: int| 0 <= i < s.len() && is_forbidden(#[trigger] s[i]);
    if bad {
        let i = choose|i: int| 0 <= i < s.len() && is_forbidden(#[trigger] s[i]);
        if i < n {
            assert(is_forbidden(name[i]));
        } else if i > n {
            assert(is_forbidden(st[i - n - 1]));
        }
    } else {
        assert forall|i: int| 0 <= i < st.len() implies !is_forbidden(#[trigger] st[i]) by {
            assert(s[i + n + 1] == st[i]);
        }
        assert forall|i: int| 0 <= i < name.len() implies !is_forbidden(#[trigger] name[i]) by {
            assert(s[i] == name[i]);
        }
    }
    if n > 0 {
        assert(seq![name][0] == name);
        if name == seq!['.'] {
            assert(parse_path(name)->0.components.len() == 0);
        }
    }
}

/// The only stream type is `$DATA`: with any other one behind the stream name, in
/// whatever case, there is no path.
#[verifier::rlimit(50)]
pub proof fn lemma_other_type_refused(name: Seq<char>, st: Seq<char>, ty: Seq<char>)
    requires
        forall|i: int|
            0 <= i < name.len() ==> (#[trigger] name[i]) != '\\' && name[i] != '/' && name[i] != ':',
        forall|i: int|
            0 <= i < st.len() ==> (#[trigger] st[i]) != '\\' && st[i] != '/' && st[i] != ':',
        forall|i: int| 0 <= i < ty.len() ==> (#[trigger] ty[i]) != '\\' && ty[i] != '/',
        !(ty.len() == 5 && ty[0] == '$' && crate::text::same_letter(ty[1], 'D')
            && crate::text::same_letter(ty[2], 'A') && crate::text::same_letter(ty[3], 'T')
            && crate::text::same_letter(ty[4], 'A')),
    ensures
        parse_path(name + seq![':'] + st + seq![':'] + ty) is None,
{
    let s = name + seq![':'] + st + seq![':'] + ty;
    let n = name.len() as int;
    let m = st.len() as int;
    assert(s[n] == ':');
    assert(s[0] == if n > 0 { name[0] } else { ':' });
    assert(strip_leading(s) == s);
    assert forall|i: int| 0 <= i < s.len() implies !is_separator(#[trigger] s[i]) by {
        if i < n {
            assert(s[i] == name[i]);
        } else if n < i < n + 1 + m {
            assert(s[i] == st[i - n - 1]);
        } else if i > n + 1 + m {
            assert(s[i] == ty[i - n - m - 2]);
        }
    }
    lemma_parts_one(s);
    assert forall|i: int| 0 <= i < n implies s[i] != ':' by {
        assert(s[i] == name[i]);
    }
    lemma_find_at(s, ':', n);
    let rest = s.skip(n + 1);
    assert(rest =~= st + seq![':'] + ty);
    assert(rest[m] == ':');
    assert forall|i: int| 0 <= i < m implies rest[i] != ':' by {
        assert(rest[i] == st[i]);
    }
    lemma_find_at(rest, ':', m);
    assert(rest.skip(m + 1) =~= ty);
    let d = data_type();
    if same_text(ty, d) {
        assert(crate::text::same_letter(ty[0], d[0]));
        assert(crate::text::same_letter(ty[1], d[1]));
        assert(crate::text::same_letter(ty[2], d[2]));
        assert(crate::text::same_letter(ty[3], d[3]));
        assert(crate::text::same_letter(ty[4], d[4]));
        crate::text::lemma_same_letter(ty[0], '$');
    }
}

/// A path is read part by part: behind a text that names something, a separator
/// and one more part stand for the two put together, if both stand for a path
/// and the text before selects no stream, and for no path otherwise.
#[verifier::rlimit(50)]
pub proof fn lemma_path_by_parts(s: Seq<char>, c: char, x: Seq<char>)
    requires
        c == '\\' || c == '/',
        s.len() > 0,
        s.len() == 1 ==> s[0] != '\\' && s[0] != '/',
        x.len() > 0,
        forall|i: int| 0 <= i < x.len() ==> (#[trigger] x[i]) != '\\' && x[i] != '/',
    ensures
        parse_path(s + seq![c] + x) == match (parse_path(s), parse_path(x)) {
            (Some(p), Some(q)) => if s.contains(':') {
                None
            } else {
                Some(PathModel { components: p.components + q.components, stream: q.stream })
            },
            _ => None,
        },
{
    let t = strip_leading(s);
    let whole = s + seq![c] + x;
    let u = strip_leading(whole);
    assert(whole[0] == s[0]);
    assert(u =~= t + seq![c] + x);
    assert(t.len() > 0);
    assert(strip_leading(x) == x) by {
        assert(x[0] != '\\' && x[0] != '/');
    }
    assert forall|i: int| 0 <= i < x.len() implies !is_separator(#[trigger] x[i]) by {}
    lemma_parts_one(x);
    lemma_parts_cut(t, c, x);
    let dirs = parts(t);
    assert(parts(u) =~= dirs.push(x));
    assert(parts(u).drop_last() =~= dirs);
    assert(parts(u).last() == x);
    assert(parts(x).drop_last() =~= seq![]);
    assert(parts(x).last() == x);
    reveal(Seq::filter);
    assert(named(seq![]) =~= Seq::<Seq<char>>::empty());
    // Forbidden characters.
    let bad_t = exists|i: int| 0 <= i < t.len() && is_forbidden(#[trigger] t[i]);
    let bad_x = exists|i: int| 0 <= i < x.len() && is_forbidden(#[trigger] x[i]);
    let bad_u = exists|i: int| 0 <= i < u.len() && is_forbidden(#[trigger] u[i]);
    assert(bad_u <==> bad_t || bad_x) by {
        if bad_t {
            let i = choose|i: int| 0 <= i < t.len() && is_forbidden(#[trigger] t[i]);
            assert(is_forbidden(u[i]));
        }
        if bad_x {
            let i = choose|i: int| 0 <= i < x.len() && is_forbidden(#[trigger] x[i]);
            assert(u[t.len() + 1 + i] == x[i]);
        }
        if bad_u {
            let i = choose|i: int| 0 <= i < u.len() && is_forbidden(#[trigger] u[i]);
            if i < t.len() {
                assert(t[i] == u[i]);
            } else if i == t.len() {
                assert(u[i] == c);
            } else {
                assert(x[i - t.len() - 1] == u[i]);
            }
        }
    }
    // Directories.
    let last = dirs.last();
    let init = dirs.drop_last();
    assert(dirs =~= init.push(last));
    let dirs_ok = forall|i: int| 0 <= i < dirs.len() ==> dir_allowed(#[trigger] dirs[i]);
    let init_ok = forall|i: int| 0 <= i < init.len() ==> dir_allowed(#[trigger] init[i]);
    assert(dirs_ok <==> init_ok && dir_allowed(last)) by {
        if dirs_ok {
            assert forall|i: int| 0 <= i < init.len() implies dir_allowed(#[trigger] init[i]) by {
                assert(init[i] == dirs[i]);
            }
            assert(dir_allowed(dirs[dirs.len() - 1]));
        }
        if init_ok && dir_allowed(last) {
            assert forall|i: int| 0 <= i < dirs.len() implies dir_allowed(#[trigger] dirs[i]) by {
                if i < init.len() {
                    assert(init[i] == dirs[i]);
                }
            }
        }
    }
    lemma_named_push(init, last);
    lemma_named_one(last);
    assert(named(dirs) =~= named(init) + named(seq![last]));
    if s.contains(':') {
        let k = choose|k: int| 0 <= k < s.len() && s[k] == ':';
        assert(t.contains(':')) by {
            if t.len() < s.len() {
                assert(t[k - 1] == ':');
            } else {
                assert(t[k] == ':');
            }
        }
        lemma_parts_keep(t, ':');
        let i = choose|i: int| 0 <= i < dirs.len() && (#[trigger] dirs[i]).contains(':');
        assert(!dir_allowed(dirs[i]));
    } else {
        lemma_last_no_colon(s);
        assert(!last.contains(':'));
        lemma_find_at(last, ':', last.len() as int);
        assert(selector(last) == Some((last, None::<Seq<char>>)));
        assert(dir_allowed(last) <==> last_allowed(last, None));
        match selector(x) {
            Some((name, stream)) => {
                assert(named(seq![]) + named(seq![name]) =~= named(seq![name]));
            },
            None => {},
        }
    }
}

/// A character of a text that is no separator is in one of its parts.
proof fn lemma_parts_keep(s: Seq<char>, c: char)
    requires
        s.contains(c),
        !is_separator(c),
    ensures
        exists|i: int| 0 <= i < parts(s).len() && (#[trigger] parts(s)[i]).contains(c),
    decreases s.len(),
{
    let init = s.drop_last();
    let front = parts(init);
    lemma_parts_chars(init);
    let k = choose|k: int| 0 <= k < s.len() && s[k] == c;
    if k == s.len() - 1 {
        let p = front.last().push(c);
        assert(p[front.last().len() as int] == c);
        assert(parts(s)[front.len() - 1] == p);
        assert(parts(s)[front.len() - 1].contains(c));
    } else {
        assert(init[k] == c);
        lemma_parts_keep(init, c);
        let i = choose|i: int| 0 <= i < front.len() && (#[trigger] front[i]).contains(c);
        if is_separator(s.last()) || i < front.len() - 1 {
            assert(parts(s)[i] == front[i]);
        } else {
            let j = choose|j: int| 0 <= j < front[i].len() && front[i][j] == c;
            assert(parts(s)[i][j] == c);
        }
        assert(parts(s)[i].contains(c));
    }
}

/// A text that names something and ends in a separator stands for no path, and
/// neither does one that begins with two of them.
pub proof fn lemma_stray_separator(s: Seq<char>, c: char, d: char)
    requires
        c == '\\' || c == '/',
        d == '\\' || d == '/',
        s.len() > 0,
    ensures
        !(s.len() == 1 && (s[0] == '\\' || s[0] == '/')) ==> parse_path(s + seq![c]) is None,
        parse_path(seq![c, d] + s) is None,
        parse_path(seq![c]) == Some(PathModel { components: seq![], stream: None }),
        parse_path(seq![c, d]) is None,
{
    let e = Seq::<char>::empty();
    lemma_parts_one(e);
    if !(s.len() == 1 && (s[0] == '\\' || s[0] == '/')) {
        let t = strip_leading(s);
        let w = s + seq![c];
        assert(w[0] == s[0]);
        assert(strip_leading(w) =~= t + seq![c] + e);
        lemma_parts_cut(t, c, e);
        assert(parts(strip_leading(w)).last() == e);
        lemma_find_at(e, ':', 0);
    }
    let w = seq![c, d] + s;
    assert(strip_leading(w) =~= e + seq![d] + s);
    lemma_parts_cut(e, d, s);
    assert(parts(strip_leading(w)).drop_last()[0] == e);
    assert(!dir_allowed(e));
    let v = seq![c, d];
    assert(strip_leading(v) =~= e + seq![d] + e);
    lemma_parts_cut(e, d, e);
    assert(parts(strip_leading(v)).drop_last()[0] == e);
    assert(strip_leading(seq![c]).len() == 0);
}

/// Two separators in a row, anywhere, leave no path.
pub proof fn lemma_doubled_separator(a: Seq<char>, c: char, d: char, b: Seq<char>)
    requires
        c == '\\' || c == '/',
        d == '\\' || d == '/',
    ensures
        parse_path(a + seq![c, d] + b) is None,
{
    let e = Seq::<char>::empty();
    let s = a + seq![c, d] + b;
    let t = strip_leading(s);
    lemma_parts_one(e);
    if a.len() == 0 {
        assert(s[0] == c);
        assert(t =~= e + seq![d] + b);
        lemma_parts_cut(e, d, b);
        assert(parts(t).drop_last()[0] == e);
    } else {
        assert(s[0] == a[0]);
        let f = strip_leading(a);
        assert(t =~= f + seq![c] + (e + seq![d] + b));
        lemma_parts_cut(e, d, b);
        lemma_parts_cut(f, c, e + seq![d] + b);
        let k = parts(f).len() as int;
        assert(parts(t)[k] == e);
        assert(parts(t).drop_last()[k] == e);
    }
    assert(!dir_allowed(e));
}

/// A character below U+0020, or one of `< > " | ? *`, anywhere in a text leaves
/// no path.
pub proof fn lemma_refused_character(s: Seq<char>, i: int)
    requires
        0 <= i < s.len(),
        (s[i] as u32) < 0x20 || s[i] == '<' || s[i] == '>' || s[i] == '"' || s[i] == '|' || s[i]
            == '?' || s[i] == '*',
    ensures
        parse_path(s) is None,
{
    let t = strip_leading(s);
    if t.len() < s.len() {
        assert(t[i - 1] == s[i]);
        assert(is_forbidden(t[i - 1]));
    } else {
        assert(is_forbidden(t[i]));
    }
}

/// Rendering puts a backslash between each two names and nothing else.
pub proof fn lemma_render_grows(names: Seq<Seq<char>>, name: Seq<char>)
    ensures
        render(Seq::<Seq<char>>::empty()).len() == 0,
        render(names.push(name)) == if names.len() == 0 {
            name
        } else {
            render(names) + seq!['\\'] + name
        },
{
    assert(names.push(name).drop_last() =~= names);
    assert(names.push(name).last() == name);
    if names.len() == 0 {
        assert(names.push(name)[0] == name);
    }
}

/// Joining and going up are what they are on the lists of names: joining appends
/// the names and takes over the stream, going up drops the last name and any
/// stream, and only the root has nothing above it.
pub proof fn lemma_join_and_parent(p: PathModel, e: PathModel)
    ensures
        append_path(p, e).components.len() == p.components.len() + e.components.len(),
        forall|i: int|
            0 <= i < p.components.len() ==> #[trigger] append_path(p, e).components[i]
                == p.components[i],
        forall|i: int|
            p.components.len() <= i < p.components.len() + e.components.len()
                ==> #[trigger] append_path(p, e).components[i] == e.components[i
                - p.components.len()],
        append_path(p, e).stream == e.stream,
        parent_path(p) is None <==> p.components.len() == 0,
        parent_path(p) matches Some(q) ==> q.stream is None && q.components.push(
            p.components.last(),
        ) == p.components,
{
    if p.components.len() > 0 {
        assert(p.components.drop_last().push(p.components.last()) =~= p.components);
    }
}

/// The one stream type is spelled `$DATA`, in any case.
pub proof fn lemma_data_type(d: Seq<char>)
    ensures
        same_text(d, data_type()) <==> d.len() == 5 && d[0] == '$' && crate::text::same_letter(
            d[1],
            'D',
        ) && crate::text::same_letter(d[2], 'A') && crate::text::same_letter(d[3], 'T')
            && crate::text::same_letter(d[4], 'A'),
{
    let t = data_type();
    if d.len() == 5 {
        crate::text::lemma_same_letter(d[0], '$');
        if same_text(d, t) {
            assert(crate::text::same_letter(d[0], t[0]));
            assert(crate::text::same_letter(d[1], t[1]));
            assert(crate::text::same_letter(d[2], t[2]));
            assert(crate::text::same_letter(d[3], t[3]));
            assert(crate::text::same_letter(d[4], t[4]));
        }
    }
}

} // verus!
