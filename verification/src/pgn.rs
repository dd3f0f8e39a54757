//! The PGN tag pair section: the `[Name "value"]` header lines (the "Seven
//! Tag Roster" and any extra tags) that precede the move text of a game.

use vstd::prelude::*;
use crate::message::quoted;
use crate::text::{
    chars_of, trim, trim_start, trim_end, trim_bounds, find_char, find_in, split_on,
    string_from_range, string_from_chars,
};
use crate::split::split_bounds;
use crate::san::{ParseError, ParseErrorKind, ErrorView, failure_with};

verus! {

#[derive(Debug, Clone, PartialEq, Eq)]
pub struct TagPair {
    pub name: String,
    pub value: String,
}

/// Index of the first `"` in `s` that is not escaped by a backslash.
pub open spec fn find_unescaped_quote(s: Seq<char>) -> Option<int>
    decreases s.len(),
{
    if s.len() == 0 {
        None
    } else if s[0] == '\\' {
        if s.len() < 2 {
            None
        } else {
            match find_unescaped_quote(s.skip(2)) {
                Some(i) => Some(i + 2),
                None => None,
            }
        }
    } else if s[0] == '"' {
        Some(0)
    } else {
        match find_unescaped_quote(s.drop_first()) {
            Some(i) => Some(i + 1),
            None => None,
        }
    }
}

/// `s` with each backslash escape replaced by the character it escapes; a
/// trailing lone backslash stays.
pub open spec fn unescape(s: Seq<char>) -> Seq<char>
    decreases s.len(),
{
    if s.len() == 0 {
        s
    } else if s[0] == '\\' {
        if s.len() < 2 {
            seq!['\\']
        } else {
            seq![s[1]] + unescape(s.skip(2))
        }
    } else {
        seq![s[0]] + unescape(s.drop_first())
    }
}

pub open spec fn is_name_char(c: char) -> bool {
    ('a' <= c && c <= 'z') || ('A' <= c && c <= 'Z') || ('0' <= c && c <= '9') || c == '_'
}

/// What a header line (already trimmed, starting with `[`) reads as: the
/// tag's name and its unescaped value.
pub open spec fn spec_parse_tag_line(line: Seq<char>) -> Result<
    (Seq<char>, Seq<char>),
    ErrorView,
> {
    if !(line.len() >= 2 && line[0] == '[' && line.last() == ']') {
        Err(failure_with(ParseErrorKind::MalformedTagPair, "malformed tag pair '"@ + line + "'"@))
    } else {
        let inner = line.subrange(1, line.len() - 1);
        match find_char(inner, '"') {
            None => Err(
                failure_with(
                    ParseErrorKind::TagMissingQuotedValue,
                    "tag pair missing quoted value: '"@ + line + "'"@,
                ),
            ),
            Some(q) => {
                let name = trim(inner.subrange(0, q));
                let after = inner.subrange(q + 1, inner.len() as int);
                if name.len() == 0 {
                    Err(
                        failure_with(
                            ParseErrorKind::TagMissingName,
                            "tag pair missing name: '"@ + line + "'"@,
                        ),
                    )
                } else if !(forall|i: int| 0 <= i < name.len() ==> is_name_char(#[trigger] name[i])) {
                    Err(
                        failure_with(
                            ParseErrorKind::InvalidTagName,
                            "invalid tag name '"@ + name + "'"@,
                        ),
                    )
                } else {
                    match find_unescaped_quote(after) {
                        None => Err(
                            failure_with(
                                ParseErrorKind::UnterminatedTagValue,
                                "unterminated tag value in '"@ + line + "'"@,
                            ),
                        ),
                        Some(c) => if trim(after.subrange(c + 1, after.len() as int)).len() != 0 {
                            Err(
                                failure_with(
                                    ParseErrorKind::TrailingTagContent,
                                    "trailing content after tag value in '"@ + line + "'"@,
                                ),
                            )
                        } else {
                            Ok((name, unescape(after.subrange(0, c))))
                        },
                    }
                }
            },
        }
    }
}

/// The tags of the leading run of header lines; reading stops at the first
/// blank line or line that does not start with `[`.
pub open spec fn spec_tags(lines: Seq<Seq<char>>) -> Result<
    Seq<(Seq<char>, Seq<char>)>,
    ErrorView,
>
    decreases lines.len(),
{
    if lines.len() == 0 {
        Ok(Seq::empty())
    } else {
        let t = trim(lines[0]);
        if t.len() == 0 || t[0] != '[' {
            Ok(Seq::empty())
        } else {
            match spec_parse_tag_line(t) {
                Err(e) => Err(e),
                Ok(tag) => match spec_tags(lines.drop_first()) {
                    Err(e) => Err(e),
                    Ok(rest) => Ok(seq![tag] + rest),
                },
            }
        }
    }
}

/// What `parse_tag_pairs` makes of `input` (its lines are its pieces
/// between newlines; a carriage return before a newline is whitespace and
/// so trimmed away).
pub open spec fn spec_parse_tag_pairs(input: Seq<char>) -> Result<
    Seq<(Seq<char>, Seq<char>)>,
    ErrorView,
> {
    spec_tags(split_on(input, '\n'))
}

pub open spec fn tag_views(v: Seq<TagPair>) -> Seq<(Seq<char>, Seq<char>)> {
    v.map_values(|t: TagPair| (t.name@, t.value@))
}

fn find_unescaped(v: &Vec<char>, lo: usize, hi: usize) -> (r: Option<usize>)
    requires
        lo <= hi <= v.len(),
    ensures
        match find_unescaped_quote(v@.subrange(lo as int, hi as int)) {
            Some(k) => r == Some(k as usize),
            None => r is None,
        },
{
    let mut i = lo;
    while i < hi
        invariant
            lo <= i <= hi <= v.len(),
            find_unescaped_quote(v@.subrange(lo as int, hi as int)) == match find_unescaped_quote(
                v@.subrange(i as int, hi as int),
            ) {
                Some(k) => Some(k + (i - lo)),
                None => None::<int>,
            },
        decreases hi - i,
    {
        let ghost s = v@.subrange(i as int, hi as int);
        assert(s[0] == v@[i as int]);
        if v[i] == '\\' {
            if i + 1 >= hi {
                return None;
            }
            assert(s.skip(2) =~= v@.subrange(i + 2, hi as int));
            i += 2;
        } else if v[i] == '"' {
            return Some(i - lo);
        } else {
            assert(s.drop_first() =~= v@.subrange(i + 1, hi as int));
            i += 1;
        }
    }
    assert(v@.subrange(i as int, hi as int).len() == 0);
    None
}

fn unescape_range(v: &Vec<char>, lo: usize, hi: usize) -> (out: Vec<char>)
    requires
        lo <= hi <= v.len(),
    ensures
        out@ == unescape(v@.subrange(lo as int, hi as int)),
{
    let mut out: Vec<char> = Vec::new();
    let mut i = lo;
    while i < hi
        invariant
            lo <= i <= hi <= v.len(),
            unescape(v@.subrange(lo as int, hi as int)) == out@ + unescape(
                v@.subrange(i as int, hi as int),
            ),
        decreases hi - i,
    {
        let ghost s = v@.subrange(i as int, hi as int);
        let ghost before = out@;
        assert(s[0] == v@[i as int]);
        if v[i] == '\\' {
            if i + 1 >= hi {
                out.push('\\');
                assert(v@.subrange(hi as int, hi as int).len() == 0);
                assert(unescape(v@.subrange(hi as int, hi as int)) =~= Seq::<char>::empty());
                assert(out@ =~= before + unescape(s));
                i = hi;
            } else {
                out.push(v[i + 1]);
                assert(s[1] == v@[i + 1]);
                assert(s.skip(2) =~= v@.subrange(i + 2, hi as int));
                assert(out@ + unescape(v@.subrange(i + 2, hi as int)) =~= before + unescape(s));
                i += 2;
            }
        } else {
            out.push(v[i]);
            assert(s.drop_first() =~= v@.subrange(i + 1, hi as int));
            assert(out@ + unescape(v@.subrange(i + 1, hi as int)) =~= before + unescape(s));
            i += 1;
        }
    }
    assert(unescape(v@.subrange(i as int, hi as int)) =~= Seq::<char>::empty());
    assert(out@ + Seq::<char>::empty() =~= out@);
    out
}

fn is_name_char_exec(c: char) -> (b: bool)
    ensures
        b == is_name_char(c),
{
    ('a' <= c && c <= 'z') || ('A' <= c && c <= 'Z') || ('0' <= c && c <= '9') || c == '_'
}

/// A header line `v[lo..hi]`, already trimmed and starting with `[`.
#[verifier::loop_isolation(false)]
fn parse_tag_line(v: &Vec<char>, lo: usize, hi: usize) -> (r: Result<TagPair, ParseError>)
    requires
        lo <= hi <= v.len(),
    ensures
        match spec_parse_tag_line(v@.subrange(lo as int, hi as int)) {
            Ok(t) => r matches Ok(tp) && tp.name@ == t.0 && tp.value@ == t.1,
            Err(ev) => r matches Err(e) && e@ == ev,
        },
{
    let ghost line = v@.subrange(lo as int, hi as int);
    if !(hi - lo >= 2 && v[lo] == '[' && v[hi - 1] == ']') {
        proof {
            if hi - lo >= 2 {
                assert(line[0] == v@[lo as int]);
                assert(line.last() == v@[hi - 1]);
            }
        }
        return Err(
            ParseError::with_message(
                ParseErrorKind::MalformedTagPair,
                quoted("malformed tag pair '", v, lo, hi, "'"),
            ),
        );
    }
    assert(line[0] == v@[lo as int]);
    assert(line.last() == v@[hi - 1]);
    let ilo = lo + 1;
    let ihi = hi - 1;
    let ghost inner = v@.subrange(ilo as int, ihi as int);
    assert(line.subrange(1, line.len() - 1) =~= inner);
    let q = match find_in(v, ilo, ihi, '"') {
        Some(q) => q,
        None => {
            return Err(
                ParseError::with_message(
                    ParseErrorKind::TagMissingQuotedValue,
                    quoted("tag pair missing quoted value: '", v, lo, hi, "'"),
                ),
            );
        },
    };
    proof {
        crate::text::lemma_find_char_bound(inner, '"');
    }
    assert(inner.subrange(0, q as int) =~= v@.subrange(ilo as int, ilo + q));
    let (na, nb) = trim_bounds(v, ilo, ilo + q);
    let ghost name = v@.subrange(na as int, nb as int);
    if na == nb {
        return Err(
            ParseError::with_message(
                ParseErrorKind::TagMissingName,
                quoted("tag pair missing name: '", v, lo, hi, "'"),
            ),
        );
    }
    let mut k = na;
    while k < nb
        invariant
            na <= k <= nb <= v.len(),
            name == v@.subrange(na as int, nb as int),
            forall|j: int| 0 <= j < k - na ==> is_name_char(#[trigger] name[j]),
        decreases nb - k,
    {
        assert(name[k - na] == v@[k as int]);
        if !is_name_char_exec(v[k]) {
            return Err(
                ParseError::with_message(
                    ParseErrorKind::InvalidTagName,
                    quoted("invalid tag name '", v, na, nb, "'"),
                ),
            );
        }
        k += 1;
    }
    let alo = ilo + q + 1;
    let ghost after = v@.subrange(alo as int, ihi as int);
    assert(inner.subrange(q + 1, inner.len() as int) =~= after);
    let c = match find_unescaped(v, alo, ihi) {
        Some(c) => c,
        None => {
            return Err(
                ParseError::with_message(
                    ParseErrorKind::UnterminatedTagValue,
                    quoted("unterminated tag value in '", v, lo, hi, "'"),
                ),
            );
        },
    };
    proof {
        lemma_find_unescaped_bound(after);
    }
    assert(after.subrange(c + 1, after.len() as int) =~= v@.subrange(alo + c + 1, ihi as int));
    let (ta, tb) = trim_bounds(v, alo + c + 1, ihi);
    if ta != tb {
        return Err(
            ParseError::with_message(
                ParseErrorKind::TrailingTagContent,
                quoted("trailing content after tag value in '", v, lo, hi, "'"),
            ),
        );
    }
    assert(after.subrange(0, c as int) =~= v@.subrange(alo as int, alo + c));
    let value = unescape_range(v, alo, alo + c);
    Ok(TagPair { name: string_from_range(v, na, nb), value: string_from_chars(&value) })
}

proof fn lemma_find_unescaped_bound(s: Seq<char>)
    ensures
        find_unescaped_quote(s) matches Some(i) ==> 0 <= i < s.len(),
    decreases s.len(),
{
    if s.len() > 0 {
        if s[0] == '\\' {
            if s.len() >= 2 {
                lemma_find_unescaped_bound(s.skip(2));
            }
        } else if s[0] != '"' {
            lemma_find_unescaped_bound(s.drop_first());
        }
    }
}

/// Parse the leading run of `[Name "value"]` header lines of a PGN game
/// record. Reading stops at the first blank line or line that is not a tag
/// pair, which is where the move text begins; move text after the tags is
/// not an error.
pub fn parse_tag_pairs(input: &str) -> (r: Result<Vec<TagPair>, ParseError>)
    ensures
        match spec_parse_tag_pairs(input@) {
            Ok(ts) => r matches Ok(v) && tag_views(v@) == ts,
            Err(ev) => r matches Err(e) && e@ == ev,
        },
{
    let v = chars_of(input);
    assert(v@.subrange(0, v@.len() as int) =~= input@);
    let lines = split_bounds(&v, 0, v.len(), '\n');
    let ghost ls = split_on(input@, '\n');
    let mut tags: Vec<TagPair> = Vec::new();
    let mut i: usize = 0;
    proof {
        assert(ls.skip(0) =~= ls);
        if let Ok(r0) = spec_tags(ls) {
            assert(tag_views(tags@) + r0 =~= r0);
        }
    }
    while i < lines.len()
        invariant
            i <= lines@.len(),
            crate::split::bounds_of(v@, lines@, ls),
            ls == split_on(input@, '\n'),
            spec_tags(ls) == match spec_tags(ls.skip(i as int)) {
                Ok(rest) => Ok(tag_views(tags@) + rest),
                Err(e) => Err(e),
            },
        decreases lines@.len() - i,
    {
        let (a, b) = lines[i];
        let ghost rest = ls.skip(i as int);
        assert(rest[0] == ls[i as int]);
        assert(rest.drop_first() =~= ls.skip(i + 1));
        let (ta, tb) = trim_bounds(&v, a, b);
        if ta == tb || v[ta] != '[' {
            proof {
                if ta != tb {
                    assert(trim(ls[i as int])[0] == v@[ta as int]);
                }
                assert(tag_views(tags@) + Seq::<(Seq<char>, Seq<char>)>::empty() =~= tag_views(
                    tags@,
                ));
            }
            return Ok(tags);
        }
        assert(trim(ls[i as int])[0] == v@[ta as int]);
        let tag = parse_tag_line(&v, ta, tb)?;
        let ghost tv = (tag.name@, tag.value@);
        let ghost before = tags@;
        tags.push(tag);
        proof {
            assert(tag_views(tags@) =~= tag_views(before).push(tv));
            if let Ok(r2) = spec_tags(ls.skip(i + 1)) {
                assert(tag_views(before) + (seq![tv] + r2) =~= tag_views(tags@) + r2);
            }
        }
        i += 1;
    }
    proof {
        assert(ls.skip(i as int) =~= Seq::<Seq<char>>::empty());
        assert(tag_views(tags@) + Seq::<(Seq<char>, Seq<char>)>::empty() =~= tag_views(tags@));
    }
    Ok(tags)
}


/// Whether a line ends the header: blank, or not starting with `[`.
pub open spec fn ends_header(line: Seq<char>) -> bool {
    trim(line).len() == 0 || trim(line)[0] != '['
}

/// Whatever follows a line that ends the header (the move text, say) does
/// not change what the header reads as.
pub proof fn lemma_tags_ignore_text_after_header(
    lines: Seq<Seq<char>>,
    k: int,
    more: Seq<Seq<char>>,
)
    requires
        0 <= k < lines.len(),
        ends_header(lines[k]),
    ensures
        spec_tags(lines + more) == spec_tags(lines),
    decreases k,
{
    assert((lines + more)[0] == lines[0]);
    if k > 0 {
        assert((lines + more).drop_first() =~= lines.drop_first() + more);
        lemma_tags_ignore_text_after_header(lines.drop_first(), k - 1, more);
    }
}
/// `v` written as a quoted tag value's content: each backslash and each
/// double quote preceded by a backslash.
pub open spec fn escape(v: Seq<char>) -> Seq<char>
    decreases v.len(),
{
    if v.len() == 0 {
        v
    } else if v[0] == '\\' || v[0] == '"' {
        seq!['\\', v[0]] + escape(v.drop_first())
    } else {
        seq![v[0]] + escape(v.drop_first())
    }
}

/// The header line `[name "value"]`, with the value escaped.
pub open spec fn tag_line(name: Seq<char>, value: Seq<char>) -> Seq<char> {
    seq!['['] + name + seq![' ', '"'] + escape(value) + seq!['"', ']']
}

proof fn lemma_escape_then_quote(v: Seq<char>, rest: Seq<char>)
    ensures
        find_unescaped_quote(escape(v) + seq!['"'] + rest) == Some(escape(v).len() as int),
    decreases v.len(),
{
    let t = escape(v) + seq!['"'] + rest;
    if v.len() == 0 {
        assert(t[0] == '"');
    } else {
        let tail = escape(v.drop_first()) + seq!['"'] + rest;
        lemma_escape_then_quote(v.drop_first(), rest);
        if v[0] == '\\' || v[0] == '"' {
            assert(t =~= seq!['\\', v[0]] + tail);
            assert(t.skip(2) =~= tail);
            assert(t[0] == '\\');
        } else {
            assert(t =~= seq![v[0]] + tail);
            assert(t.drop_first() =~= tail);
            assert(t[0] == v[0]);
        }
    }
}

proof fn lemma_unescape_escape(v: Seq<char>)
    ensures
        unescape(escape(v)) == v,
    decreases v.len(),
{
    if v.len() > 0 {
        let e = escape(v);
        lemma_unescape_escape(v.drop_first());
        if v[0] == '\\' || v[0] == '"' {
            assert(e.skip(2) =~= escape(v.drop_first()));
            assert(e[0] == '\\' && e[1] == v[0]);
        } else {
            assert(e.drop_first() =~= escape(v.drop_first()));
            assert(e[0] == v[0]);
        }
        assert(seq![v[0]] + v.drop_first() =~= v);
    }
}

/// A tag line `[name "value"]` whose name is made of letters, digits and
/// underscores and whose value is escaped reads back as that name and
/// value.
pub proof fn lemma_tag_line_round_trip(name: Seq<char>, value: Seq<char>)
    requires
        name.len() > 0,
        forall|i: int| 0 <= i < name.len() ==> is_name_char(#[trigger] name[i]),
    ensures
        spec_parse_tag_line(tag_line(name, value)) == Ok::<(Seq<char>, Seq<char>), ErrorView>(
            (name, value),
        ),
{
    let line = tag_line(name, value);
    let head = name + seq![' '];
    let after = escape(value) + seq!['"'];
    let inner = line.subrange(1, line.len() - 1);
    assert(inner =~= head + (seq!['"'] + after));
    assert(!head.contains('"')) by {
        if head.contains('"') {
            let j = choose|j: int| 0 <= j < head.len() && head[j] == '"';
            if j < name.len() {
                assert(is_name_char(name[j]));
            }
        }
    }
    crate::san_text::lemma_find_char_append(head, seq!['"'] + after, '"');
    assert(find_char(seq!['"'] + after, '"') == Some(0int));
    assert(inner.subrange(0, head.len() as int) =~= head);
    assert(inner.subrange(head.len() + 1int, inner.len() as int) =~= after);
    assert(trim(head) == name) by {
        assert(is_name_char(name[0]));
        assert(is_name_char(name.last()));
        assert(trim_start(head) == head);
        assert(head.drop_last() =~= name);
        assert(trim_end(head) == trim_end(name));
        assert(trim_end(name) == name);
    }
    lemma_escape_then_quote(value, Seq::empty());
    assert(after + Seq::<char>::empty() =~= after);
    let c = escape(value).len() as int;
    assert(after.subrange(c + 1, after.len() as int) =~= Seq::<char>::empty());
    assert(trim(Seq::<char>::empty()) == Seq::<char>::empty()) by {
        assert(trim_start(Seq::<char>::empty()) == Seq::<char>::empty());
        assert(trim_end(Seq::<char>::empty()) == Seq::<char>::empty());
    }
    assert(after.subrange(0, c) =~= escape(value));
    lemma_unescape_escape(value);
}
proof fn lemma_tag_line_trimmed(name: Seq<char>, value: Seq<char>)
    ensures
        trim(tag_line(name, value)) == tag_line(name, value),
        tag_line(name, value)[0] == '[',
{
    let t = tag_line(name, value);
    assert(t[0] == '[');
    assert(t.last() == ']');
    assert(trim_start(t) == t);
    assert(trim_end(t) == t);
}

proof fn lemma_tags_of_lines(lines: Seq<Seq<char>>, names: Seq<Seq<char>>, values: Seq<Seq<char>>)
    requires
        names.len() == values.len(),
        forall|i: int| 0 <= i < names.len() ==> (#[trigger] names[i]).len() > 0,
        forall|i: int, j: int|
            0 <= i < names.len() && 0 <= j < names[i].len() ==> is_name_char(#[trigger] names[i][j]),
        lines.len() >= names.len(),
        forall|i: int| 0 <= i < names.len() ==> #[trigger] lines[i] == tag_line(names[i], values[i]),
        lines.len() == names.len() || ends_header(lines[names.len() as int]),
    ensures
        spec_tags(lines) == Ok::<Seq<(Seq<char>, Seq<char>)>, ErrorView>(
            Seq::new(names.len(), |i: int| (names[i], values[i])),
        ),
    decreases names.len(),
{
    let want = Seq::new(names.len(), |i: int| (names[i], values[i]));
    if names.len() == 0 {
        assert(want =~= Seq::<(Seq<char>, Seq<char>)>::empty());
    } else {
        assert(lines[0] == tag_line(names[0], values[0]));
        lemma_tag_line_trimmed(names[0], values[0]);
        assert forall|j: int| 0 <= j < names[0].len() implies is_name_char(#[trigger] names[0][j]) by {
            assert(is_name_char(names[0][j]));
        }
        lemma_tag_line_round_trip(names[0], values[0]);
        let (ls, ns, vs) = (lines.drop_first(), names.drop_first(), values.drop_first());
        assert forall|i: int| 0 <= i < ns.len() implies #[trigger] ls[i] == tag_line(ns[i], vs[i]) by {
            assert(lines[i + 1] == tag_line(names[i + 1], values[i + 1]));
        }
        assert forall|i: int| 0 <= i < ns.len() implies (#[trigger] ns[i]).len() > 0 by {
            assert(names[i + 1].len() > 0);
        }
        assert forall|i: int, j: int| 0 <= i < ns.len() && 0 <= j < ns[i].len() implies is_name_char(
            #[trigger] ns[i][j],
        ) by {
            assert(is_name_char(names[i + 1][j]));
        }
        if lines.len() != names.len() {
            assert(ls[ns.len() as int] == lines[names.len() as int]);
        }
        lemma_tags_of_lines(ls, ns, vs);
        assert(seq![(names[0], values[0])] + Seq::new(ns.len(), |i: int| (ns[i], vs[i])) =~= want);
    }
}

/// `parse_tag_pairs` reads every header line: when the input's lines begin
/// with any number of tag lines `[name "value"]` (names of letters, digits
/// and underscores, values escaped), followed by a line that ends the
/// header or by the end of the input, the result is exactly those names
/// and values, in order.
pub proof fn lemma_header_reads_every_tag(
    input: Seq<char>,
    names: Seq<Seq<char>>,
    values: Seq<Seq<char>>,
)
    requires
        names.len() == values.len(),
        forall|i: int| 0 <= i < names.len() ==> (#[trigger] names[i]).len() > 0,
        forall|i: int, j: int|
            0 <= i < names.len() && 0 <= j < names[i].len() ==> is_name_char(#[trigger] names[i][j]),
        split_on(input, '\n').len() >= names.len(),
        forall|i: int|
            0 <= i < names.len() ==> #[trigger] split_on(input, '\n')[i] == tag_line(
                names[i],
                values[i],
            ),
        split_on(input, '\n').len() == names.len() || ends_header(
            split_on(input, '\n')[names.len() as int],
        ),
    ensures
        spec_parse_tag_pairs(input) == Ok::<Seq<(Seq<char>, Seq<char>)>, ErrorView>(
            Seq::new(names.len(), |i: int| (names[i], values[i])),
        ),
{
    lemma_tags_of_lines(split_on(input, '\n'), names, values);
}
} // verus!
