//! Laws of what stays and what goes where namespace attributes are removed.
use crate::laws::words;
use crate::text;
use crate::xml;
use crate::xml::Place;
use vstd::prelude::*;

verus! {

// ---------------------------------------------------------------------------
// What stays
// ---------------------------------------------------------------------------

/// A tag begins at `<` and ends at `>`, both of which stay.
pub proof fn tags_stand_between_brackets(rest: Seq<char>)
    requires
        rest.len() > 0 ==> rest[0] != '!',
    ensures
        xml::stripped(seq!['<'] + rest, Place::Content) == seq!['<'] + xml::stripped(
            rest,
            Place::Tag,
        ),
        xml::stripped(seq!['>'] + rest, Place::Tag) == seq!['>'] + xml::stripped(
            rest,
            Place::Content,
        ),
        xml::stripped(Seq::empty(), Place::Content) == Seq::<char>::empty(),
        xml::stripped(Seq::empty(), Place::Tag) == Seq::<char>::empty(),
{
    reveal_strlit("<!--");
    reveal_strlit("<![CDATA[");
    let s = seq!['<'] + rest;
    assert(s.skip(1) =~= rest);
    assert(s.take(1) =~= seq!['<']);
    if text::stands_at(s, "<!--"@, 0) {
        assert(s.subrange(0, 4)[1] == s[1]);
        assert("<!--"@[1] == '!');
    }
    if text::stands_at(s, "<![CDATA["@, 0) {
        assert(s.subrange(0, 9)[1] == s[1]);
        assert("<![CDATA["@[1] == '!');
    }
    let t = seq!['>'] + rest;
    assert(t.skip(1) =~= rest);
    assert(t.take(1) =~= seq!['>']);
}

/// Whether a text is a word of a tag: it holds no white space, no quotes and no closing bracket.
pub open spec fn is_tag_word(w: Seq<char>) -> bool {
    forall|i: int|
        0 <= i < w.len() ==> !text::is_white(#[trigger] w[i]) && w[i] != '"' && w[i] != '\'' && w[i]
            != '>'
}

/// The words of a tag stay as they are, unless they name a namespace attribute behind a space.
pub proof fn words_of_tags_stay(w: Seq<char>, rest: Seq<char>)
    requires
        is_tag_word(w),
    ensures
        xml::stripped(w + rest, Place::Tag) == w + xml::stripped(rest, Place::Tag),
    decreases w.len(),
{
    let s = w + rest;
    if w.len() > 0 {
        let t = w.skip(1);
        assert forall|i: int| 0 <= i < t.len() implies !text::is_white(#[trigger] t[i]) && t[i]
            != '"' && t[i] != '\'' && t[i] != '>' by {
            assert(t[i] == w[i + 1]);
        }
        words_of_tags_stay(t, rest);
        assert(s[0] == w[0]);
        assert(w[0] != ' ');
        assert(xml::spaces(s) == 0);
        assert(s.skip(1) =~= t + rest);
        assert(s.take(1) + (t + xml::stripped(rest, Place::Tag)) =~= w + xml::stripped(
            rest,
            Place::Tag,
        ));
    } else {
        assert(s =~= rest);
        assert(w + xml::stripped(rest, Place::Tag) =~= xml::stripped(rest, Place::Tag));
    }
}

/// A quoted text in a tag stays as it is, whatever it holds.
pub proof fn quoted_texts_stay(quote: char, value: Seq<char>, rest: Seq<char>)
    requires
        quote == '"' || quote == '\'',
        !value.contains(quote),
    ensures
        xml::stripped(seq![quote] + value + seq![quote] + rest, Place::Tag) == seq![quote] + value
            + seq![quote] + xml::stripped(rest, Place::Tag),
{
    let s = seq![quote] + value + seq![quote] + rest;
    let n = value.len() as int;
    text::lemma_find_from(s, quote, 1);
    let close = text::find_from(s, quote, 1);
    assert(s[0] == quote);
    assert(s[n + 1] == quote);
    if close < n + 1 {
        assert(s[close] == value[close - 1]);
        assert(value.contains(quote));
    }
    assert(close == n + 1);
    assert(s.take(n + 2) =~= seq![quote] + value + seq![quote]);
    assert(s.skip(n + 2) =~= rest);
}

/// Whether a mark stands for the first time where a text ends that the mark and more follow.
pub open spec fn comes_first(before: Seq<char>, mark: Seq<char>, rest: Seq<char>) -> bool {
    forall|x: Seq<char>, y: Seq<char>|
        #[trigger] (x + mark + y) == before + mark + rest ==> x.len() >= before.len()
}

proof fn lemma_literal(
    s: Seq<char>,
    begin: Seq<char>,
    data: Seq<char>,
    end: Seq<char>,
    rest: Seq<char>,
)
    requires
        s == begin + data + end + rest,
        (begin == "<!--"@ && end == "-->"@) || (begin == "<![CDATA["@ && end == "]]>"@),
        comes_first(begin + data, end, rest),
    ensures
        xml::stripped(s, Place::Content) == begin + data + end + xml::stripped(
            rest,
            Place::Content,
        ),
{
    reveal_strlit("<!--");
    reveal_strlit("<![CDATA[");
    reveal_strlit("-->");
    reveal_strlit("]]>");
    let front = begin + data;
    let n = front.len() as int;
    assert(s == front + end + rest);
    assert(s.subrange(0, begin.len() as int) =~= begin);
    assert(text::stands_at(s, begin, 0));
    if begin == "<![CDATA["@ && text::stands_at(s, "<!--"@, 0) {
        assert(s.subrange(0, 4)[2] == s[2]);
        assert(begin[2] == '[');
    }
    text::lemma_find_text(s, end, 0);
    assert(s.subrange(n, n + 3) =~= end);
    assert(text::stands_at(s, end, n));
    let i = text::find_text(s, end, 0)->0;
    assert(text::stands_at(s, end, i));
    let x = s.take(i);
    let y = s.skip(i + 3);
    assert(x + end + y =~= s);
    assert(x.len() >= n);
    assert(i == n);
    assert(s.take(n + 3) =~= front + end);
    assert(s.skip(n + 3) =~= rest);
}

/// A comment stays as it is, whatever it holds.
pub proof fn comments_stay(data: Seq<char>, rest: Seq<char>)
    requires
        comes_first("<!--"@ + data, "-->"@, rest),
    ensures
        xml::stripped("<!--"@ + data + "-->"@ + rest, Place::Content) == "<!--"@ + data + "-->"@
            + xml::stripped(rest, Place::Content),
{
    lemma_literal("<!--"@ + data + "-->"@ + rest, "<!--"@, data, "-->"@, rest);
}

/// A CDATA section stays as it is, whatever it holds.
pub proof fn sections_stay(data: Seq<char>, rest: Seq<char>)
    requires
        comes_first("<![CDATA["@ + data, "]]>"@, rest),
    ensures
        xml::stripped("<![CDATA["@ + data + "]]>"@ + rest, Place::Content) == "<![CDATA["@ + data
            + "]]>"@ + xml::stripped(rest, Place::Content),
{
    lemma_literal("<![CDATA["@ + data + "]]>"@ + rest, "<![CDATA["@, data, "]]>"@, rest);
}

/// A quoted text, a comment and a CDATA section that are not closed reach to the end, and stay.
pub proof fn unclosed_texts_stay(quote: char, value: Seq<char>, s: Seq<char>)
    requires
        quote == '"' || quote == '\'',
        !value.contains(quote),
    ensures
        xml::stripped(seq![quote] + value, Place::Tag) == seq![quote] + value,
        text::begins(s, "<!--"@) && !text::holds_text(s, "-->"@) ==> xml::stripped(
            s,
            Place::Content,
        ) == s,
        text::begins(s, "<![CDATA["@) && !text::holds_text(s, "]]>"@) ==> xml::stripped(
            s,
            Place::Content,
        ) == s,
{
    let none = Seq::<char>::empty();
    let t = seq![quote] + value;
    let n = t.len() as int;
    text::lemma_find_from(t, quote, 1);
    let close = text::find_from(t, quote, 1);
    assert(t[0] == quote);
    if close < n {
        assert(t[close] == value[close - 1]);
        assert(value.contains(quote));
    }
    assert(t.skip(n) =~= none);
    assert(t.take(n) + none =~= t);
    assert(xml::stripped(none, Place::Tag) == none);
    if text::begins(s, "<!--"@) && !text::holds_text(s, "-->"@) {
        reveal_strlit("<!--");
        assert(s.subrange(0, 4) =~= s.take(4));
        assert(text::stands_at(s, "<!--"@, 0));
        lemma_unclosed(s, "-->"@);
    }
    if text::begins(s, "<![CDATA["@) && !text::holds_text(s, "]]>"@) {
        reveal_strlit("<![CDATA[");
        reveal_strlit("<!--");
        assert(s.subrange(0, 9) =~= s.take(9));
        assert(text::stands_at(s, "<![CDATA["@, 0));
        assert(s.take(9)[2] == s[2]);
        assert("<![CDATA["@[2] == '[');
        if text::stands_at(s, "<!--"@, 0) {
            assert(s.subrange(0, 4)[2] == s[2]);
        }
        lemma_unclosed(s, "]]>"@);
    }
}

proof fn lemma_unclosed(s: Seq<char>, mark: Seq<char>)
    requires
        s.len() > 0,
        !text::holds_text(s, mark),
        (mark == "-->"@ && text::stands_at(s, "<!--"@, 0)) || (mark == "]]>"@ && text::stands_at(
            s,
            "<![CDATA["@,
            0,
        ) && !text::stands_at(s, "<!--"@, 0)),
    ensures
        xml::stripped(s, Place::Content) == s,
{
    let none = Seq::<char>::empty();
    let n = s.len() as int;
    text::lemma_find_text(s, mark, 0);
    if let Some(i) = text::find_text(s, mark, 0) {
        assert(text::stands_at(s, mark, i));
    }
    assert(xml::literal_len(s) == n);
    assert(s.skip(n) =~= none);
    assert(s.take(n) =~= s);
    assert(xml::stripped(none, Place::Content) == none);
    assert(s + none =~= s);
}

// ---------------------------------------------------------------------------
// What goes
// ---------------------------------------------------------------------------

/// Whether a name is one of a namespace attribute: `xmlns` alone, or anything behind `xmlns:` or
/// `xsi:`.
pub open spec fn is_namespace_name(name: Seq<char>) -> bool {
    name == "xmlns"@ || text::begins(name, "xmlns:"@) || text::begins(name, "xsi:"@)
}

proof fn lemma_attribute(
    s: Seq<char>,
    front: Seq<char>,
    name: Seq<char>,
    blank: Seq<char>,
    quote: char,
    value: Seq<char>,
    rest: Seq<char>,
)
    requires
        s == front + name + "="@ + blank + seq![quote] + value + seq![quote] + rest,
        is_namespace_name(name),
        !name.contains('='),
        words::is_blank(blank),
        quote == '"' || quote == '\'',
        !value.contains(quote),
    ensures
        xml::is_namespace_at(s, front.len() as int),
        s[front.len() as int] == 'x',
        xml::attribute_end(s, front.len() as int) == Some(s.len() - rest.len()),
        s.skip(s.len() - rest.len()) == rest,
{
    reveal_strlit("=");
    reveal_strlit("xmlns");
    reveal_strlit("xmlns:");
    reveal_strlit("xmlns=");
    reveal_strlit("xsi:");
    let f = front.len() as int;
    let n = name.len() as int;
    let b = blank.len() as int;
    let m = value.len() as int;
    if text::begins(name, "xmlns:"@) {
        assert(name.take(6)[0] == name[0]);
        assert(s.subrange(f, f + 6) =~= name.take(6));
        assert(text::stands_at(s, "xmlns:"@, f));
    } else if text::begins(name, "xsi:"@) {
        assert(name.take(4)[0] == name[0]);
        assert(s.subrange(f, f + 4) =~= name.take(4));
        assert(text::stands_at(s, "xsi:"@, f));
    } else {
        assert(s.subrange(f, f + 6) =~= "xmlns="@);
        assert(text::stands_at(s, "xmlns="@, f));
    }
    assert(name[0] == 'x');
    assert(s[f] == name[0]);
    text::lemma_find_from(s, '=', f);
    let eq = text::find_from(s, '=', f);
    assert(s[f + n] == '=');
    if eq < f + n {
        assert(s[eq] == name[eq - f]);
        assert(name.contains('='));
    }
    assert(eq == f + n);
    let q = f + n + 1 + b;
    assert(s[q] == quote);
    assert forall|i: int| eq + 1 <= i < q implies text::is_white(#[trigger] s[i]) by {
        assert(s[i] == blank[i - eq - 1]);
    }
    lemma_past_white(s, eq + 1, q);
    text::lemma_find_from(s, quote, q + 1);
    let close = text::find_from(s, quote, q + 1);
    assert(s[q + 1 + m] == quote);
    if close < q + 1 + m {
        assert(s[close] == value[close - q - 1]);
        assert(value.contains(quote));
    }
    assert(close == q + 1 + m);
    assert(s.skip(s.len() - rest.len()) =~= rest);
}

proof fn lemma_past_white(s: Seq<char>, from: int, end: int)
    requires
        0 <= from <= end < s.len(),
        forall|i: int| from <= i < end ==> text::is_white(#[trigger] s[i]),
        !text::is_white(s[end]),
    ensures
        xml::past_white(s, from) == end,
    decreases end - from,
{
    if from < end {
        lemma_past_white(s, from + 1, end);
    }
}

proof fn lemma_spaces(n: nat, rest: Seq<char>)
    requires
        rest.len() > 0,
        rest[0] != ' ',
    ensures
        xml::spaces(Seq::new(n, |i: int| ' ') + rest) == n,
    decreases n,
{
    let s = Seq::new(n, |i: int| ' ') + rest;
    if n > 0 {
        assert(s[0] == ' ');
        assert(s.skip(1) =~= Seq::new((n - 1) as nat, |i: int| ' ') + rest);
        lemma_spaces((n - 1) as nat, rest);
    } else {
        assert(s =~= rest);
    }
}

/// In a tag, a namespace attribute behind spaces goes with the spaces, and what follows is treated
/// as if it had not been there; white space between its name and its value does not matter. Behind
/// other white space it goes alone.
pub proof fn namespace_attributes_go(
    n: nat,
    name: Seq<char>,
    blank: Seq<char>,
    quote: char,
    value: Seq<char>,
    rest: Seq<char>,
)
    requires
        n > 0,
        is_namespace_name(name),
        !name.contains('='),
        words::is_blank(blank),
        quote == '"' || quote == '\'',
        !value.contains(quote),
    ensures
        xml::stripped(
            Seq::new(n, |i: int| ' ') + name + "="@ + blank + seq![quote] + value + seq![quote]
                + rest,
            Place::Tag,
        ) == xml::stripped(rest, Place::Tag),
        xml::stripped(
            name + "="@ + blank + seq![quote] + value + seq![quote] + rest,
            Place::Gap,
        ) == xml::stripped(rest, Place::Tag),
{
    let front = Seq::new(n, |i: int| ' ');
    let s = front + name + "="@ + blank + seq![quote] + value + seq![quote] + rest;
    let t = name + "="@ + blank + seq![quote] + value + seq![quote] + rest;
    let none = Seq::<char>::empty();
    lemma_attribute(s, front, name, blank, quote, value, rest);
    assert(none + name =~= name);
    lemma_attribute(t, none, name, blank, quote, value, rest);
    assert(s =~= front + t);
    lemma_spaces(n, t);
    assert(s[0] == ' ');
    assert(xml::spaces(t) == 0);
    assert(xml::namespace_len(s, Place::Tag) == Some(s.len() - rest.len()));
    assert(xml::namespace_len(t, Place::Gap) == Some(t.len() - rest.len()));
}

/// White space other than a space stays, and an attribute may begin behind it.
pub proof fn other_white_space_stays(c: char, rest: Seq<char>)
    requires
        text::is_white(c),
        c != ' ',
    ensures
        xml::stripped(seq![c] + rest, Place::Tag) == seq![c] + xml::stripped(rest, Place::Gap),
{
    let s = seq![c] + rest;
    assert(s[0] == c);
    assert(xml::spaces(s) == 0);
    assert(s.skip(1) =~= rest);
    assert(s.take(1) =~= seq![c]);
}

} // verus!
