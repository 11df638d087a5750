//! Laws of removing namespace attributes.
use crate::text;
use crate::xml;
use crate::xml::Place;
use vstd::prelude::*;

verus! {

/// A namespace attribute in a tag is removed with the spaces before it, and what follows is
/// treated as if it had not been there.
pub proof fn namespace_attribute_is_removed(s: Seq<char>, end: int)
    requires
        s.len() > 0,
        s[0] == ' ',
        xml::is_namespace_at(s, xml::spaces(s)),
        xml::attribute_end(s, xml::spaces(s)) == Some(end),
    ensures
        xml::stripped(s, Place::Tag) == xml::stripped(s.skip(end), Place::Tag),
{
    xml::lemma_spaces(s.skip(1));
}

proof fn lemma_nothing_stripped(s: Seq<char>, place: Place)
    requires
        !text::holds_text(s, "xmlns:"@),
        !text::holds_text(s, "xmlns="@),
        !text::holds_text(s, "xsi:"@),
    ensures
        xml::stripped(s, place) == s,
    decreases s.len(),
{
    xml::lemma_strip_step(s, place);
    if s.len() > 0 {
        let n = if place == Place::Content {
            if xml::literal_len(s) > 0 {
                xml::literal_len(s)
            } else {
                1
            }
        } else if s[0] != '>' && (s[0] == '"' || s[0] == '\'') {
            xml::quoted_len(s)
        } else {
            1
        };
        xml::lemma_spaces(s);
        assert(!xml::is_namespace_at(s, xml::spaces(s)));
        let rest = s.skip(n);
        lemma_rest_holds(s, n, "xmlns:"@);
        lemma_rest_holds(s, n, "xmlns="@);
        lemma_rest_holds(s, n, "xsi:"@);
        lemma_nothing_stripped(rest, Place::Content);
        lemma_nothing_stripped(rest, Place::Tag);
        lemma_nothing_stripped(rest, Place::Gap);
        assert(s.take(n) + rest =~= s);
    }
}

proof fn lemma_rest_holds(s: Seq<char>, n: int, p: Seq<char>)
    requires
        0 <= n <= s.len(),
        !text::holds_text(s, p),
    ensures
        !text::holds_text(s.skip(n), p),
{
    let rest = s.skip(n);
    if text::holds_text(rest, p) {
        let i = choose|i: int| text::stands_at(rest, p, i);
        assert(s.subrange(n + i, n + i + p.len()) =~= rest.subrange(i, i + p.len()));
        assert(text::stands_at(s, p, n + i));
    }
}

/// A text without namespace attributes stays as it is.
pub proof fn text_without_namespaces_stays(s: Seq<char>)
    requires
        !text::holds_text(s, "xmlns:"@),
        !text::holds_text(s, "xmlns="@),
        !text::holds_text(s, "xsi:"@),
    ensures
        xml::without_namespaces(s) == s,
{
    lemma_nothing_stripped(s, Place::Content);
}

/// Character data stays as it is, whatever it holds.
pub proof fn character_data_stays(data: Seq<char>, rest: Seq<char>)
    requires
        !data.contains('<'),
    ensures
        xml::stripped(data + rest, Place::Content) == data + xml::stripped(rest, Place::Content),
    decreases data.len(),
{
    if data.len() == 0 {
        assert(data + rest =~= rest);
        assert(data + xml::stripped(rest, Place::Content) =~= xml::stripped(rest, Place::Content));
    } else {
        let s = data + rest;
        let t = data.skip(1);
        assert(data.contains(data[0]));
        assert(s[0] != '<');
        lemma_no_literal(s);
        if t.contains('<') {
            let i = choose|i: int| 0 <= i < t.len() && t[i] == '<';
            assert(data[i + 1] == '<');
        }
        character_data_stays(t, rest);
        assert(s.skip(1) =~= t + rest);
        assert(s.take(1) + (t + xml::stripped(rest, Place::Content)) =~= data + xml::stripped(
            rest,
            Place::Content,
        ));
    }
}

proof fn lemma_no_literal(s: Seq<char>)
    requires
        s.len() > 0,
        s[0] != '<',
    ensures
        xml::literal_len(s) == 0,
{
    reveal_strlit("<!--");
    reveal_strlit("<![CDATA[");
    if text::stands_at(s, "<!--"@, 0) {
        assert(s.subrange(0, 4)[0] == s[0]);
    }
    if text::stands_at(s, "<![CDATA["@, 0) {
        assert(s.subrange(0, 9)[0] == s[0]);
    }
}

} // verus!
