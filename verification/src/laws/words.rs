//! Laws of texts: white space, letters, what a text holds, and numbers in decimal notation.
use crate::text;
use crate::text::Order;
use crate::version;
use vstd::prelude::*;

verus! {

// ---------------------------------------------------------------------------
// White space and letters
// ---------------------------------------------------------------------------

/// Among the ASCII characters, white space is the space and the five control characters from the
/// tabulator to the carriage return.
pub proof fn ascii_white_space(c: char)
    requires
        (c as int) < 0x80,
    ensures
        text::is_white(c) <==> c == ' ' || c == '\t' || c == '\n' || c == '\r' || c as int == 0x0b
            || c as int == 0x0c,
{
}

/// Beyond ASCII, white space is the next line, the no-break spaces, the Ogham space, the spaces of
/// typography, the separators of lines and paragraphs, and the ideographic space.
pub proof fn other_white_space(c: char)
    requires
        c as int >= 0x80,
    ensures
        text::is_white(c) <==> c == '\u{85}' || c == '\u{a0}' || c == '\u{1680}' || '\u{2000}' <= c
            <= '\u{200a}' || c == '\u{2028}' || c == '\u{2029}' || c == '\u{202f}' || c
            == '\u{205f}' || c == '\u{3000}',
{
}

/// Whether a text is white space throughout.
pub open spec fn is_blank(s: Seq<char>) -> bool {
    forall|i: int| 0 <= i < s.len() ==> text::is_white(#[trigger] s[i])
}

proof fn lemma_trim_start(s: Seq<char>) -> (k: int)
    ensures
        0 <= k <= s.len(),
        is_blank(s.take(k)),
        text::trim_start_of(s) == s.skip(k),
        k < s.len() ==> !text::is_white(s[k]),
    decreases s.len(),
{
    if s.len() > 0 && text::is_white(s[0]) {
        let k = lemma_trim_start(s.skip(1));
        assert(s.skip(1).skip(k) =~= s.skip(k + 1));
        assert forall|i: int| 0 <= i < k + 1 implies text::is_white(#[trigger] s.take(k + 1)[i]) by {
            if i > 0 {
                assert(s.skip(1).take(k)[i - 1] == s[i]);
            }
        }
        if k < s.skip(1).len() {
            assert(s.skip(1)[k] == s[k + 1]);
        }
        k + 1
    } else {
        assert(s.skip(0) =~= s);
        0
    }
}

proof fn lemma_trim_end(s: Seq<char>) -> (n: int)
    ensures
        0 <= n <= s.len(),
        is_blank(s.skip(n)),
        text::trim_end_of(s) == s.take(n),
        n > 0 ==> !text::is_white(s[n - 1]),
    decreases s.len(),
{
    if s.len() > 0 && text::is_white(s.last()) {
        let t = s.drop_last();
        let n = lemma_trim_end(t);
        assert(t.take(n) =~= s.take(n));
        assert forall|i: int| 0 <= i < s.len() - n implies text::is_white(
            #[trigger] s.skip(n)[i],
        ) by {
            if i + n < t.len() {
                assert(t.skip(n)[i] == s[n + i]);
            }
        }
        if n > 0 {
            assert(t[n - 1] == s[n - 1]);
        }
        n
    } else {
        assert(s.take(s.len() as int) =~= s);
        if s.len() > 0 {
            assert(s.last() == s[s.len() - 1]);
        }
        s.len() as int
    }
}

/// Trimming takes white space off both ends, all of it and nothing else: what is left stands in
/// the text between blank parts, and neither begins nor ends with white space.
pub proof fn trimming_leaves_the_middle(s: Seq<char>) -> (ends: (int, int))
    ensures
        0 <= ends.0 <= ends.1 <= s.len(),
        text::trim_of(s) == s.subrange(ends.0, ends.1),
        is_blank(s.take(ends.0)),
        is_blank(s.skip(ends.1)),
        ends.0 < ends.1 ==> !text::is_white(s[ends.0]) && !text::is_white(s[ends.1 - 1]),
        text::trim_of(s).len() == 0 <==> is_blank(s),
{
    let k = lemma_trim_start(s);
    let t = s.skip(k);
    let n = lemma_trim_end(t);
    assert(t.take(n) =~= s.subrange(k, k + n));
    assert(t.skip(n) =~= s.skip(k + n));
    if n > 0 {
        assert(t[n - 1] == s[k + n - 1]);
    }
    if is_blank(s) && n > 0 {
        assert(text::is_white(s[k + n - 1]));
    }
    if n == 0 {
        assert forall|i: int| 0 <= i < s.len() implies text::is_white(#[trigger] s[i]) by {
            if i < k {
                assert(s.take(k)[i] == s[i]);
            } else {
                assert(s.skip(k + n)[i - k] == s[i]);
            }
        }
    }
    (k, k + n)
}

/// In lower case a text has each ASCII capital as the small letter, and every other character as
/// it was.
pub proof fn lower_case_changes_capitals(s: Seq<char>, i: int)
    requires
        0 <= i < s.len(),
    ensures
        text::lower_of(s).len() == s.len(),
        'A' <= s[i] <= 'Z' ==> text::lower_of(s)[i] as int == s[i] as int + 32,
        !('A' <= s[i] <= 'Z') ==> text::lower_of(s)[i] == s[i],
{
}

/// Replacing a character changes it everywhere, and nothing else.
pub proof fn characters_are_replaced_everywhere(s: Seq<char>, a: char, b: char, i: int)
    requires
        0 <= i < s.len(),
    ensures
        text::replace_of(s, a, b).len() == s.len(),
        s[i] == a ==> text::replace_of(s, a, b)[i] == b,
        s[i] != a ==> text::replace_of(s, a, b)[i] == s[i],
{
}

// ---------------------------------------------------------------------------
// What a text holds
// ---------------------------------------------------------------------------

/// A text begins with what it is continued from, ends with what continues it, and holds what
/// stands between two parts of it; and every text that begins with, ends with or holds another
/// one is made that way.
pub proof fn parts_are_held(s: Seq<char>, p: Seq<char>, a: Seq<char>, b: Seq<char>)
    ensures
        text::begins(p + b, p),
        text::ends(a + p, p),
        text::holds_text(a + p + b, p),
        text::begins(s, p) ==> s == p + s.skip(p.len() as int),
        text::ends(s, p) ==> s == s.take(s.len() - p.len()) + p,
        text::holds_text(s, p) ==> exists|x: Seq<char>, y: Seq<char>| s == #[trigger] (x + p + y),
{
    assert((p + b).take(p.len() as int) =~= p);
    assert((a + p).skip(a.len() as int) =~= p);
    let t = a + p + b;
    assert(t.subrange(a.len() as int, (a.len() + p.len()) as int) =~= p);
    assert(text::stands_at(t, p, a.len() as int));
    if text::begins(s, p) {
        assert(s =~= s.take(p.len() as int) + s.skip(p.len() as int));
    }
    if text::ends(s, p) {
        assert(s =~= s.take(s.len() - p.len()) + s.skip(s.len() - p.len()));
    }
    if text::holds_text(s, p) {
        let i = choose|i: int| text::stands_at(s, p, i);
        assert(text::stands_at(s, p, i));
        let x = s.take(i);
        let y = s.skip(i + p.len());
        assert(s =~= x + p + y);
    }
}

/// Replacing a text replaces its first occurrence and, behind that, every other one; a text that
/// it does not stand in stays as it is.
pub proof fn texts_are_replaced_everywhere(
    a: Seq<char>,
    p: Seq<char>,
    b: Seq<char>,
    v: Seq<char>,
    s: Seq<char>,
)
    requires
        p.len() > 0,
        forall|x: Seq<char>, y: Seq<char>|
            #[trigger] (x + p + y) == a + p + b ==> x.len() >= a.len(),
        !text::holds_text(s, p),
    ensures
        text::replace_text(a + p + b, p, v) == a + v + text::replace_text(b, p, v),
        text::replace_text(s, p, v) == s,
{
    let t = a + p + b;
    text::lemma_find_text(t, p, 0);
    text::lemma_find_text(s, p, 0);
    assert(t.subrange(a.len() as int, (a.len() + p.len()) as int) =~= p);
    assert(text::stands_at(t, p, a.len() as int));
    let i = text::find_text(t, p, 0)->0;
    assert(text::stands_at(t, p, i));
    assert(t.take(i) + p + t.skip(i + p.len()) =~= t);
    assert(i == a.len());
    assert(t.take(i) =~= a);
    assert(t.skip(i + p.len()) =~= b);
    if let Some(j) = text::find_text(s, p, 0) {
        assert(text::stands_at(s, p, j));
    }
}

proof fn lemma_pieces(s: Seq<char>, c: char)
    ensures
        forall|i: int| 0 <= i < text::split_of(s, c).len() ==> !(#[trigger] text::split_of(
            s,
            c,
        )[i]).contains(c),
        text::split_of(s, c).len() == s.filter(|x: char| x == c).len() + 1,
    decreases s.len(),
{
    text::lemma_find_from(s, c, 0);
    let i = text::find_from(s, c, 0);
    let f = |x: char| x == c;
    if i < s.len() {
        let head = s.take(i);
        let rest = s.skip(i + 1);
        lemma_pieces(rest, c);
        assert forall|k: int| 0 <= k < text::split_of(s, c).len() implies !(
        #[trigger] text::split_of(s, c)[k]).contains(c) by {
            if k > 0 {
                assert(text::split_of(s, c)[k] == text::split_of(rest, c)[k - 1]);
            }
        }
        assert(s =~= head + seq![c] + rest);
        lemma_filter_none(head, c);
        Seq::filter_distributes_over_add(head + seq![c], rest, f);
        Seq::filter_distributes_over_add(head, seq![c], f);
        reveal(Seq::filter);
        assert(seq![c].drop_last() =~= Seq::empty());
        assert(seq![c].filter(f).len() == 1);
    } else {
        lemma_filter_none(s, c);
    }
}

proof fn lemma_filter_none(s: Seq<char>, c: char)
    requires
        !s.contains(c),
    ensures
        s.filter(|x: char| x == c).len() == 0,
    decreases s.len(),
{
    reveal(Seq::filter);
    if s.len() > 0 {
        assert(s.last() == s[s.len() - 1]);
        assert forall|i: int| 0 <= i < s.drop_last().len() implies s.drop_last()[i] != c by {
            assert(s.drop_last()[i] == s[i]);
        }
        lemma_filter_none(s.drop_last(), c);
    }
}

/// The pieces of a text between the occurrences of a separator hold none, and there is one more
/// of them than there are separators.
pub proof fn pieces_hold_no_separator(s: Seq<char>, c: char)
    ensures
        forall|i: int| 0 <= i < text::split_of(s, c).len() ==> !(#[trigger] text::split_of(
            s,
            c,
        )[i]).contains(c),
        text::split_of(s, c).len() == s.filter(|x: char| x == c).len() + 1,
{
    lemma_pieces(s, c);
}

// ---------------------------------------------------------------------------
// Order
// ---------------------------------------------------------------------------

/// Two texts are ordered by the first character in which they differ, and a text comes before
/// every text that continues it.
pub proof fn first_difference_orders_texts(
    front: Seq<char>,
    a: char,
    b: char,
    x: Seq<char>,
    y: Seq<char>,
)
    requires
        a < b,
    ensures
        text::text_order(front + seq![a] + x, front + seq![b] + y) == Order::Less,
        text::text_order(front + seq![b] + y, front + seq![a] + x) == Order::Greater,
        text::text_order(front, front + seq![b] + y) == Order::Less,
        text::text_order(front + seq![b] + y, front) == Order::Greater,
        text::text_order(front, front) == Order::Equal,
    decreases front.len(),
{
    let s = front + seq![a] + x;
    let t = front + seq![b] + y;
    if front.len() > 0 {
        let rest = front.skip(1);
        first_difference_orders_texts(rest, a, b, x, y);
        assert(s.skip(1) =~= rest + seq![a] + x);
        assert(t.skip(1) =~= rest + seq![b] + y);
        assert(s[0] == front[0] && t[0] == front[0]);
    } else {
        assert(s[0] == a && t[0] == b);
    }
}

// ---------------------------------------------------------------------------
// Numbers
// ---------------------------------------------------------------------------

/// A number in decimal notation is made of digits, has the number as its value, and begins with a
/// zero only where it is zero. Filled up with zeros it has at least the width, and the same value.
pub proof fn numbers_are_written_in_decimal(n: nat, width: nat)
    ensures
        version::digits_value(text::decimal_of(n)) == n,
        text::decimal_of(n).len() > 0,
        forall|i: int|
            0 <= i < text::decimal_of(n).len() ==> '0' <= #[trigger] text::decimal_of(n)[i] <= '9',
        n > 0 ==> text::decimal_of(n)[0] != '0',
        n == 0 ==> text::decimal_of(n).len() == 1,
        text::padded_of(n, width).len() >= width,
        text::decimal_of(n).len() >= width ==> text::padded_of(n, width) == text::decimal_of(n),
        text::decimal_of(n).len() < width ==> text::padded_of(n, width).len() == width,
        version::digits_value(text::padded_of(n, width)) == n,
    decreases n,
{
    lemma_decimal(n);
    let d = text::decimal_of(n);
    let z = text::zeros(width - d.len());
    lemma_zeros_before(z, d);
    if d.len() >= width {
        assert(z =~= Seq::empty());
        assert(z + d =~= d);
    }
}

proof fn lemma_decimal(n: nat)
    ensures
        version::digits_value(text::decimal_of(n)) == n,
        text::decimal_of(n).len() > 0,
        forall|i: int|
            0 <= i < text::decimal_of(n).len() ==> '0' <= #[trigger] text::decimal_of(n)[i] <= '9',
        n > 0 ==> text::decimal_of(n)[0] != '0',
        n == 0 ==> text::decimal_of(n).len() == 1,
    decreases n,
{
    let d = text::decimal_of(n);
    let last = text::digit_char(n % 10);
    assert(last as int == 48 + n % 10);
    if n < 10 {
        assert(d =~= seq![last]);
        assert(d.drop_last() =~= Seq::empty());
        assert(version::digits_value(d.drop_last()) == 0);
        assert(d.last() == last);
    } else {
        lemma_decimal(n / 10);
        assert(d.drop_last() =~= text::decimal_of(n / 10));
        assert(d.last() == last);
        assert(d[0] == text::decimal_of(n / 10)[0]);
        assert forall|i: int| 0 <= i < d.len() implies '0' <= #[trigger] d[i] <= '9' by {
            if i < d.len() - 1 {
                assert(d[i] == text::decimal_of(n / 10)[i]);
            }
        }
    }
}

proof fn lemma_zeros_before(z: Seq<char>, d: Seq<char>)
    requires
        forall|i: int| 0 <= i < z.len() ==> z[i] == '0',
    ensures
        version::digits_value(z + d) == version::digits_value(d),
    decreases z.len() + d.len(),
{
    let s = z + d;
    if d.len() > 0 {
        assert(s.drop_last() =~= z + d.drop_last());
        assert(s.last() == d.last());
        lemma_zeros_before(z, d.drop_last());
    } else if z.len() > 0 {
        assert(s =~= z);
        assert(z.drop_last() + d =~= z.drop_last());
        assert(s.last() == '0');
        lemma_zeros_before(z.drop_last(), d);
    } else {
        assert(s =~= d);
    }
}

} // verus!
