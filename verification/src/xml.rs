//! Namespace attributes in XML text.
use crate::text;
use vstd::prelude::*;

verus! {

/// The first position at or after `from` that holds no white space, or the length of `s`.
pub open spec fn past_white(s: Seq<char>, from: int) -> int
    decreases s.len() - from,
{
    if from >= s.len() {
        s.len() as int
    } else if text::is_white(s[from]) {
        past_white(s, from + 1)
    } else {
        from
    }
}

/// Where the attribute that begins at `start` ends: behind the quote that closes its value.
/// None where it has no quoted value that is closed.
pub open spec fn attribute_end(s: Seq<char>, start: int) -> Option<int> {
    let eq = text::find_from(s, '=', start);
    let quote = past_white(s, eq + 1);
    if eq >= s.len() || quote >= s.len() {
        None
    } else if s[quote] != '"' && s[quote] != '\'' {
        None
    } else {
        let close = text::find_from(s, s[quote], quote + 1);
        if close >= s.len() {
            None
        } else {
            Some(close + 1)
        }
    }
}

/// How many spaces `s` begins with.
pub open spec fn spaces(s: Seq<char>) -> int
    decreases s.len(),
{
    if s.len() > 0 && s[0] == ' ' {
        1 + spaces(s.skip(1))
    } else {
        0
    }
}

/// Where the name of a namespace attribute stands: a declaration, or a name of the schema
/// instance namespace.
pub open spec fn is_namespace_at(s: Seq<char>, at: int) -> bool {
    text::stands_at(s, "xmlns:"@, at) || text::stands_at(s, "xmlns="@, at) || text::stands_at(
        s,
        "xsi:"@,
        at,
    )
}

/// Where a position lies in XML: in the content, in a tag, or in a tag behind white space, where
/// an attribute may begin.
#[derive(Clone, Copy, Debug, PartialEq, Eq, Structural)]
pub enum Place {
    Content,
    Tag,
    Gap,
}

/// The length of the comment or CDATA section that `s` begins with, zero where it begins with
/// neither. One that is not closed reaches to the end.
pub open spec fn literal_len(s: Seq<char>) -> int {
    let close = if text::stands_at(s, "<!--"@, 0) {
        Some("-->"@)
    } else if text::stands_at(s, "<![CDATA["@, 0) {
        Some("]]>"@)
    } else {
        None
    };
    match close {
        None => 0,
        Some(mark) => match text::find_text(s, mark, 0) {
            Some(i) => i + mark.len(),
            None => s.len() as int,
        },
    }
}

/// The end of the quoted text that `s` begins with.
pub open spec fn quoted_len(s: Seq<char>) -> int {
    let close = text::find_from(s, s[0], 1);
    if close < s.len() {
        close + 1
    } else {
        s.len() as int
    }
}

/// The length of the namespace attribute that `s` begins with in a tag, with the spaces before
/// it; none where it begins with no such attribute.
pub open spec fn namespace_len(s: Seq<char>, place: Place) -> Option<int> {
    let n = spaces(s);
    if (n > 0 || place == Place::Gap) && is_namespace_at(s, n) {
        attribute_end(s, n)
    } else {
        None
    }
}

/// The XML text `s`, which begins at a place, without its namespace attributes and the spaces
/// before them. Content, comments, CDATA sections and the values of other attributes stay.
pub open spec fn stripped(s: Seq<char>, place: Place) -> Seq<char>
    decreases s.len(),
{
    proof {
        lemma_strip_step(s, place);
    }
    if s.len() == 0 {
        s
    } else if place == Place::Content {
        if literal_len(s) > 0 {
            s.take(literal_len(s)) + stripped(s.skip(literal_len(s)), Place::Content)
        } else if s[0] == '<' {
            s.take(1) + stripped(s.skip(1), Place::Tag)
        } else {
            s.take(1) + stripped(s.skip(1), Place::Content)
        }
    } else if s[0] == '>' {
        s.take(1) + stripped(s.skip(1), Place::Content)
    } else if s[0] == '"' || s[0] == '\'' {
        s.take(quoted_len(s)) + stripped(s.skip(quoted_len(s)), Place::Tag)
    } else {
        match namespace_len(s, place) {
            Some(end) => stripped(s.skip(end), Place::Tag),
            None => s.take(1) + stripped(
                s.skip(1),
                if text::is_white(s[0]) {
                    Place::Gap
                } else {
                    Place::Tag
                },
            ),
        }
    }
}

/// `s` without its namespace attributes.
pub open spec fn without_namespaces(s: Seq<char>) -> Seq<char> {
    stripped(s, Place::Content)
}

/// `past_white` is the least position that holds no white space.
pub proof fn lemma_past_white(s: Seq<char>, from: int)
    requires
        0 <= from <= s.len(),
    ensures
        from <= past_white(s, from) <= s.len(),
    decreases s.len() - from,
{
    if from < s.len() && text::is_white(s[from]) {
        lemma_past_white(s, from + 1);
    }
}

/// An attribute ends behind its start.
pub proof fn lemma_attribute_end(s: Seq<char>, start: int)
    requires
        0 <= start <= s.len(),
    ensures
        attribute_end(s, start) matches Some(end) ==> start < end <= s.len(),
{
    text::lemma_find_from(s, '=', start);
    let eq = text::find_from(s, '=', start);
    if eq < s.len() {
        lemma_past_white(s, eq + 1);
        let quote = past_white(s, eq + 1);
        if quote < s.len() {
            text::lemma_find_from(s, s[quote], quote + 1);
        }
    }
}

/// The spaces at the beginning lie within the text.
pub proof fn lemma_spaces(s: Seq<char>)
    ensures
        0 <= spaces(s) <= s.len(),
    decreases s.len(),
{
    if s.len() > 0 && s[0] == ' ' {
        lemma_spaces(s.skip(1));
    }
}

/// Every step of the stripping goes forward within the text.
pub proof fn lemma_strip_step(s: Seq<char>, place: Place)
    ensures
        0 <= literal_len(s) <= s.len(),
        s.len() > 0 ==> 0 < quoted_len(s) <= s.len(),
        namespace_len(s, place) matches Some(end) ==> 0 < end <= s.len(),
{
    reveal_strlit("-->");
    reveal_strlit("]]>");
    text::lemma_find_text(s, "-->"@, 0);
    text::lemma_find_text(s, "]]>"@, 0);
    if s.len() > 0 {
        text::lemma_find_from(s, s[0], 1);
    }
    lemma_spaces(s);
    lemma_attribute_end(s, spaces(s));
}

/// Where the attribute that begins at `attr_start` ends (exclusive).
pub fn find_attribute_end(chars: &Vec<char>, attr_start: usize) -> (r: Option<usize>)
    requires
        attr_start <= chars@.len(),
    ensures
        match r {
            Some(end) => attribute_end(chars@, attr_start as int) == Some(end as int),
            None => attribute_end(chars@, attr_start as int) is None,
        },
{
    let eq = text::find_char(chars, '=', attr_start);
    if eq == chars.len() {
        return None;
    }
    let mut quote: usize = eq + 1;
    while quote < chars.len() && text::is_whitespace(chars[quote])
        invariant
            eq < quote <= chars@.len(),
            past_white(chars@, eq + 1) == past_white(chars@, quote as int),
        decreases chars@.len() - quote,
    {
        quote += 1;
    }
    if quote == chars.len() || (chars[quote] != '"' && chars[quote] != '\'') {
        return None;
    }
    let close = text::find_char(chars, chars[quote], quote + 1);
    if close == chars.len() {
        None
    } else {
        Some(close + 1)
    }
}

/// Whether a text stands at a position.
fn has_at(chars: &Vec<char>, at: usize, p: &str) -> (r: bool)
    requires
        at <= chars@.len(),
    ensures
        r == text::stands_at(chars@.skip(at as int), p@, 0),
{
    proof {
        lemma_at(chars@, 0, at as int, p@);
        assert(chars@.skip(0) =~= chars@);
    }
    text::stands_here(chars, &text::chars_of(p), at)
}

/// Where the first occurrence of a text from a position on ends, or the end of the text.
fn find_end_of(chars: &Vec<char>, from: usize, mark: &str) -> (r: usize)
    requires
        from <= chars@.len(),
    ensures
        r == from + (match text::find_text(chars@.skip(from as int), mark@, 0) {
            Some(i) => i + mark@.len(),
            None => chars@.skip(from as int).len() as int,
        }),
        from <= r <= chars@.len(),
{
    let pattern = text::chars_of(mark);
    let ghost rest = chars@.skip(from as int);
    proof {
        text::lemma_find_text_skip(chars@, mark@, from as int, from as int);
        text::lemma_find_text(rest, mark@, 0);
    }
    match text::find_chars(chars, &pattern, from) {
        Some(i) => {
            assert(i + pattern@.len() <= chars.len());
            i + pattern.len()
        },
        None => chars.len(),
    }
}

/// The end of the comment or CDATA section at a position.
fn find_literal_end(chars: &Vec<char>, from: usize) -> (r: usize)
    requires
        from <= chars@.len(),
    ensures
        r == from + literal_len(chars@.skip(from as int)),
        from <= r <= chars@.len(),
{
    if has_at(chars, from, "<!--") {
        find_end_of(chars, from, "-->")
    } else if has_at(chars, from, "<![CDATA[") {
        find_end_of(chars, from, "]]>")
    } else {
        from
    }
}

/// The end of the namespace attribute at a position, with the spaces before it.
fn find_namespace_end(chars: &Vec<char>, from: usize, place: Place) -> (r: Option<usize>)
    requires
        from <= chars@.len(),
    ensures
        match r {
            Some(end) => from <= end <= chars@.len() && namespace_len(
                chars@.skip(from as int),
                place,
            ) == Some(end - from),
            None => namespace_len(chars@.skip(from as int), place) is None,
        },
{
    let ghost s = chars@.skip(from as int);
    let mut at: usize = from;
    while at < chars.len() && chars[at] == ' '
        invariant
            from <= at <= chars@.len(),
            s == chars@.skip(from as int),
            spaces(s) == at - from + spaces(chars@.skip(at as int)),
        decreases chars@.len() - at,
    {
        assert(chars@.skip(at as int).skip(1) =~= chars@.skip(at + 1));
        at += 1;
    }
    let ghost n = at - from;
    proof {
        lemma_at(chars@, from as int, at as int, "xmlns:"@);
        lemma_at(chars@, from as int, at as int, "xmlns="@);
        lemma_at(chars@, from as int, at as int, "xsi:"@);
        lemma_attribute_end_skip(chars@, from as int, at as int);
        lemma_attribute_end(chars@, at as int);
    }
    if (at > from || place == Place::Gap) && (has_at(chars, at, "xmlns:") || has_at(
        chars,
        at,
        "xmlns=",
    ) || has_at(chars, at, "xsi:")) {
        find_attribute_end(chars, at)
    } else {
        None
    }
}

proof fn lemma_at(s: Seq<char>, from: int, at: int, p: Seq<char>)
    requires
        0 <= from <= at <= s.len(),
    ensures
        text::stands_at(s.skip(from), p, at - from) == text::stands_at(s.skip(at), p, 0),
{
    if at + p.len() <= s.len() {
        assert(s.skip(from).subrange(at - from, at - from + p.len()) =~= s.skip(at).subrange(
            0,
            p.len() as int,
        ));
    }
}

proof fn lemma_past_white_skip(s: Seq<char>, k: int, i: int)
    requires
        0 <= k <= i <= s.len(),
    ensures
        past_white(s, i) == past_white(s.skip(k), i - k) + k,
    decreases s.len() - i,
{
    if i < s.len() {
        lemma_past_white_skip(s, k, i + 1);
    }
}

proof fn lemma_attribute_end_skip(s: Seq<char>, k: int, start: int)
    requires
        0 <= k <= start <= s.len(),
    ensures
        attribute_end(s, start) == (match attribute_end(s.skip(k), start - k) {
            Some(end) => Some(end + k),
            None => None,
        }),
{
    text::lemma_find_from(s, '=', start);
    text::lemma_find_from_skip(s, '=', k, start);
    let eq = text::find_from(s, '=', start);
    if eq < s.len() {
        lemma_past_white_skip(s, k, eq + 1);
        lemma_past_white(s, eq + 1);
        let quote = past_white(s, eq + 1);
        if quote < s.len() {
            assert(s.skip(k)[quote - k] == s[quote]);
            text::lemma_find_from_skip(s, s[quote], k, quote + 1);
        }
    }
}

fn copy_chars(out: &mut Vec<char>, chars: &Vec<char>, from: usize, to: usize)
    requires
        from <= to <= chars@.len(),
    ensures
        final(out)@ == old(out)@ + chars@.subrange(from as int, to as int),
{
    let ghost start = out@;
    for i in from..to
        invariant
            from <= to <= chars@.len(),
            out@ =~= start + chars@.subrange(from as int, i as int),
    {
        out.push(chars[i]);
    }
}

/// Removes `xmlns`, `xmlns:*` and `xsi:*` attributes from XML.
pub fn strip_xml_namespaces(xml: &str) -> (r: String)
    ensures
        r@ == without_namespaces(xml@),
{
    let chars = text::chars_of(xml);
    let mut out: Vec<char> = Vec::new();
    let mut place = Place::Content;
    let mut i: usize = 0;
    proof {
        assert(chars@.skip(0) =~= chars@);
        assert(out@ + stripped(chars@.skip(0), place) =~= stripped(chars@, place));
    }
    while i < chars.len()
        invariant
            i <= chars@.len(),
            chars@ == xml@,
            without_namespaces(xml@) == out@ + stripped(chars@.skip(i as int), place),
        decreases chars@.len() - i,
    {
        let ghost s = chars@.skip(i as int);
        let ghost before = out@;
        let ghost here = place;
        proof {
            lemma_strip_step(s, place);
        }
        let c = chars[i];
        let mut end: usize = i + 1;
        let mut kept = true;
        if place == Place::Content {
            let literal = find_literal_end(&chars, i);
            if literal > i {
                end = literal;
            } else if c == '<' {
                place = Place::Tag;
            }
        } else if c == '>' {
            place = Place::Content;
        } else if c == '"' || c == '\'' {
            let close = text::find_char(&chars, c, i + 1);
            proof {
                text::lemma_find_from_skip(chars@, c, i as int, i + 1);
            }
            end = if close < chars.len() {
                close + 1
            } else {
                close
            };
            place = Place::Tag;
        } else {
            match find_namespace_end(&chars, i, place) {
                Some(stop) => {
                    end = stop;
                    kept = false;
                    place = Place::Tag;
                },
                None => {
                    place = if text::is_whitespace(c) {
                        Place::Gap
                    } else {
                        Place::Tag
                    };
                },
            }
        }
        if kept {
            copy_chars(&mut out, &chars, i, end);
        }
        proof {
            assert(s[0] == c);
            assert(s.skip(end - i) =~= chars@.skip(end as int));
            assert(s.take(end - i) =~= chars@.subrange(i as int, end as int));
            assert(before + stripped(s, here) =~= out@ + stripped(chars@.skip(end as int), place));
        }
        i = end;
    }
    proof {
        assert(chars@.skip(chars@.len() as int) =~= Seq::empty());
        assert(out@ + Seq::<char>::empty() =~= out@);
        assert(out@.subrange(0, out@.len() as int) =~= out@);
    }
    text::string_of(&out, 0, out.len())
}

} // verus!
