//! Laws of how qualifiers and numbers place a version among its neighbours.
use crate::laws::version as version_laws;
use crate::text;
use crate::text::Order;
use crate::version;
use crate::version::ItemModel;
use crate::version::QualifierModel;
use vstd::prelude::*;

verus! {

/// Whether a text is a word of ASCII letters.
pub open spec fn is_word(q: Seq<char>) -> bool {
    q.len() > 0 && forall|i: int|
        0 <= i < q.len() ==> 'a' <= #[trigger] q[i] <= 'z' || 'A' <= q[i] <= 'Z'
}

/// Whether a text is a number.
pub open spec fn is_number(q: Seq<char>) -> bool {
    q.len() > 0 && forall|i: int| 0 <= i < q.len() ==> '0' <= #[trigger] q[i] <= '9'
}

/// The place of the release among the well-known qualifiers.
pub open spec fn release_place() -> int {
    5
}

/// The place of a qualifier: `alpha`, `beta`, `milestone`, `rc` and `snapshot` before the release,
/// in this order, also by their short names, then `sp`, and then every other word.
pub open spec fn place_of(q: Seq<char>) -> int {
    let w = text::lower_of(q);
    if w == "alpha"@ || w == "a"@ {
        0
    } else if w == "beta"@ || w == "b"@ {
        1
    } else if w == "milestone"@ || w == "m"@ {
        2
    } else if w == "rc"@ || w == "cr"@ {
        3
    } else if w == "snapshot"@ {
        4
    } else if w == "sp"@ {
        6
    } else {
        7
    }
}

/// The order of two qualifiers: by their places, and of two other words by their letters.
pub open spec fn word_order(p: Seq<char>, q: Seq<char>) -> Order {
    if place_of(p) == 7 && place_of(q) == 7 {
        text::text_order(text::lower_of(p), text::lower_of(q))
    } else {
        text::int_order(place_of(p), place_of(q))
    }
}

/// Whether a text ends a segment where another one follows behind a separator: it is a dot or a
/// hyphen.
pub open spec fn is_joint(c: char) -> bool {
    c == '.' || c == '-'
}

spec fn leads(l: Seq<ItemModel>) -> bool {
    l.len() > 0 && version::leads_numeric(l[0])
}

/// The items of a level with one more at its very end.
spec fn extended(s: Seq<char>, it: ItemModel) -> Seq<ItemModel>
    decreases s.len(),
{
    proof {
        version::lemma_run_len(s);
    }
    let n = version::run_len(s);
    let head = version::segment_of(s.take(n));
    let tail = s.skip(n);
    if tail.len() == 0 {
        version::joined(head, seq![it])
    } else if tail[0] == '.' {
        version::joined(head, extended(tail.skip(1), it))
    } else if tail[0] == '-' {
        version::joined(head, version::wrapped(extended(tail.skip(1), it)))
    } else {
        version::joined(head, version::wrapped(extended(tail, it)))
    }
}

proof fn lemma_run_all(q: Seq<char>, i: int, digits: bool)
    requires
        0 <= i <= q.len(),
        forall|j: int|
            i <= j < q.len() ==> !version::is_separator(#[trigger] q[j]) && version::is_digit(q[j])
                == digits,
    ensures
        version::run_from(q, i, digits) == q.len(),
    decreases q.len() - i,
{
    if i < q.len() {
        lemma_run_all(q, i + 1, digits);
    }
}

proof fn lemma_rank(q: Seq<char>)
    requires
        is_word(q),
    ensures
        ({
            let it = ItemModel::Str(version::qualifier_of(q));
            &&& !version::is_null(it)
            &&& version::null_order(it) == text::int_order(place_of(q), release_place())
        }),
        match version::qualifier_of(q) {
            QualifierModel::Ranked(r) => r == place_of(q) && place_of(q) < 7,
            QualifierModel::Other(w) => place_of(q) == 7 && w == text::lower_of(q),
        },
{
    assert(text::lower_of(q).len() == q.len());
}

/// The segment at the end of a version, which is a word or a number that is not zero.
spec fn is_segment(q: Seq<char>, it: ItemModel) -> bool {
    &&& (is_word(q) && it == ItemModel::Str(version::qualifier_of(q))) || (is_number(q) && it
        == ItemModel::Int(version::digits_value(q)) && version::digits_value(q) > 0)
}

proof fn lemma_segment_level(q: Seq<char>, it: ItemModel)
    requires
        is_segment(q, it),
    ensures
        version::level_of(q) == seq![it],
        !version::is_null(it),
        !(it is List),
{
    let digits = version::is_digit(q[0]);
    assert forall|j: int| 1 <= j < q.len() implies !version::is_separator(#[trigger] q[j])
        && version::is_digit(q[j]) == digits by {}
    lemma_run_all(q, 1, digits);
    assert(version::run_len(q) == q.len());
    assert(q.take(q.len() as int) =~= q);
    if is_word(q) {
        lemma_rank(q);
    }
    let none = Seq::<ItemModel>::empty();
    assert(version::joined(it, none) == seq![it] + none);
    assert(seq![it] + none =~= seq![it]);
}

proof fn lemma_extended(s: Seq<char>, c: char, q: Seq<char>, it: ItemModel)
    requires
        is_joint(c),
        is_segment(q, it),
    ensures
        version::level_of(s + (seq![c] + q)) == extended(s, it),
    decreases s.len(),
{
    let x = seq![c] + q;
    let t = s + x;
    assert(x[0] == c);
    version::lemma_run_len(s);
    version_laws::lemma_run_len_more(s, x);
    let n = version::run_len(s);
    let tail = s.skip(n);
    assert(t.take(n) =~= s.take(n));
    assert(t.skip(n) =~= tail + x);
    lemma_segment_level(q, it);
    if tail.len() == 0 {
        assert(t.skip(n) =~= x);
        assert(x.skip(1) =~= q);
        assert(version::wrapped(seq![it]) =~= seq![it]);
    } else {
        assert((tail + x)[0] == tail[0]);
        assert((tail + x).skip(1) =~= tail.skip(1) + x);
        if version::is_separator(tail[0]) {
            lemma_extended(tail.skip(1), c, q, it);
        } else {
            lemma_extended(tail, c, q, it);
        }
    }
}

proof fn lemma_one(a: ItemModel, b: ItemModel)
    ensures
        version::items_order(seq![a], seq![b]) == version::item_order(a, b),
{
    assert(version::rest(seq![a]) =~= Seq::empty());
    assert(version::rest(seq![b]) =~= Seq::empty());
    assert(version::items_order(version::rest(seq![a]), version::rest(seq![b])) == Order::Equal);
}

proof fn lemma_same_head(h: ItemModel, a: Seq<ItemModel>, b: Seq<ItemModel>)
    ensures
        version::items_order(seq![h] + a, seq![h] + b) == version::items_order(a, b),
{
    version_laws::item_equals_itself(h);
    assert(version::rest(seq![h] + a) =~= a);
    assert(version::rest(seq![h] + b) =~= b);
}

proof fn lemma_segment_no_list(run: Seq<char>)
    ensures
        !(version::segment_of(run) is List),
{
}

// ---------------------------------------------------------------------------
// Two versions that differ in their last segment
// ---------------------------------------------------------------------------

spec fn alike(a: Seq<ItemModel>, b: Seq<ItemModel>, o: Order) -> bool {
    &&& a.len() == b.len()
    &&& a.len() > 0
    &&& leads(a) == leads(b)
    &&& version::items_order(a, b) == o
}

proof fn lemma_alike_wrapped(a: Seq<ItemModel>, b: Seq<ItemModel>, o: Order)
    requires
        alike(a, b, o),
    ensures
        alike(version::wrapped(a), version::wrapped(b), o),
{
    let x = version::as_item(a);
    let y = version::as_item(b);
    lemma_one(x, y);
    if a.len() == 1 {
        assert(a =~= seq![a[0]]);
        assert(b =~= seq![b[0]]);
        lemma_one(a[0], b[0]);
    }
}

proof fn lemma_alike_joined(h: ItemModel, a: Seq<ItemModel>, b: Seq<ItemModel>, o: Order)
    requires
        alike(a, b, o),
    ensures
        alike(version::joined(h, a), version::joined(h, b), o),
{
    lemma_same_head(h, a, b);
}

proof fn lemma_extended_order(s: Seq<char>, a: ItemModel, b: ItemModel)
    requires
        version::leads_numeric(a) == version::leads_numeric(b),
    ensures
        alike(extended(s, a), extended(s, b), version::item_order(a, b)),
    decreases s.len(),
{
    version::lemma_run_len(s);
    let n = version::run_len(s);
    let head = version::segment_of(s.take(n));
    let tail = s.skip(n);
    let o = version::item_order(a, b);
    if tail.len() == 0 {
        lemma_one(a, b);
        lemma_alike_joined(head, seq![a], seq![b], o);
    } else if tail[0] == '.' {
        lemma_extended_order(tail.skip(1), a, b);
        lemma_alike_joined(head, extended(tail.skip(1), a), extended(tail.skip(1), b), o);
    } else {
        let below = if tail[0] == '-' {
            tail.skip(1)
        } else {
            tail
        };
        lemma_extended_order(below, a, b);
        lemma_alike_wrapped(extended(below, a), extended(below, b), o);
        lemma_alike_joined(
            head,
            version::wrapped(extended(below, a)),
            version::wrapped(extended(below, b)),
            o,
        );
    }
}

// ---------------------------------------------------------------------------
// A version with one more segment
// ---------------------------------------------------------------------------

spec fn beyond(a: Seq<ItemModel>, l: Seq<ItemModel>, o: Order) -> bool {
    &&& a.len() > 0
    &&& a.len() >= l.len()
    &&& l.len() == 1 && l[0] is List ==> a.len() == 1
    &&& l.len() > 0 ==> leads(a) == leads(l)
    &&& version::items_order(a, l) == o
    &&& o != Order::Equal
}

proof fn lemma_beyond_wrapped(a: Seq<ItemModel>, l: Seq<ItemModel>, o: Order)
    requires
        beyond(a, l, o),
    ensures
        beyond(version::wrapped(a), version::wrapped(l), o),
        leads(version::wrapped(a)) == leads(a),
{
    let x = version::as_item(a);
    let none = Seq::<ItemModel>::empty();
    assert(version::wrapped(a) == seq![x]);
    assert(version::rest(seq![x]) =~= none);
    assert(version::rest(none) =~= none);
    assert(version::items_order(none, none) == Order::Equal);
    if l.len() == 0 {
        assert(l =~= none);
        assert(version::wrapped(l) =~= none);
        version_laws::lemma_null_items(a);
        if a.len() == 1 {
            assert(version::rest(a) =~= none);
            assert(version::items_order(a, none) == version::null_order(a[0]));
        } else {
            assert(version::null_order(ItemModel::List(a)) == version::null_order_items(a));
        }
        assert(version::items_order(seq![x], none) == version::null_order(x));
    } else {
        let y = version::as_item(l);
        lemma_one(x, y);
        if a.len() == 1 {
            assert(a =~= seq![a[0]]);
            assert(l =~= seq![l[0]]);
            lemma_one(a[0], l[0]);
        } else if l.len() == 1 {
            assert(l =~= seq![l[0]]);
            assert(version::item_order(ItemModel::List(a), l[0]) == version::items_order(
                a,
                seq![l[0]],
            ));
        }
    }
}

proof fn lemma_beyond_joined(
    h: ItemModel,
    a: Seq<ItemModel>,
    l: Seq<ItemModel>,
    o: Order,
)
    requires
        beyond(a, l, o),
        !(h is List),
        leads(a) == leads(l) || (l.len() == 0 && o == Order::Greater),
    ensures
        beyond(version::joined(h, a), version::joined(h, l), o),
        leads(a) == leads(l) ==> leads(version::joined(h, a)) == leads(version::joined(h, l)),
        leads(version::joined(h, a)) == leads(version::joined(h, l)) || (version::joined(
            h,
            l,
        ).len() == 0 && o == Order::Greater),
{
    lemma_same_head(h, a, l);
    let none = Seq::<ItemModel>::empty();
    if version::is_null(h) && l.len() == 0 && leads(a) {
        assert(l =~= none);
        assert(version::joined(h, l) =~= none);
        let all = seq![h] + a;
        assert(version::rest(all) =~= a);
        assert(version::rest(none) =~= none);
    }
}

proof fn lemma_longer(s: Seq<char>, it: ItemModel)
    requires
        !(it is List),
        !version::is_null(it),
        version::null_order(it) != Order::Equal,
        version::leads_numeric(it) ==> version::null_order(it) == Order::Greater,
    ensures
        beyond(extended(s, it), version::level_of(s), version::null_order(it)),
        leads(extended(s, it)) == leads(version::level_of(s)) || (version::level_of(s).len() == 0
            && version::null_order(it) == Order::Greater),
    decreases s.len(),
{
    version::lemma_run_len(s);
    let n = version::run_len(s);
    let head = version::segment_of(s.take(n));
    lemma_segment_no_list(s.take(n));
    let tail = s.skip(n);
    let o = version::null_order(it);
    let none = Seq::<ItemModel>::empty();
    if tail.len() == 0 {
        assert(version::rest(seq![it]) =~= none);
        assert(version::rest(none) =~= none);
        assert(version::items_order(none, none) == Order::Equal);
        assert(version::items_order(seq![it], none) == o);
        assert(beyond(seq![it], none, o));
        lemma_beyond_joined(head, seq![it], none, o);
    } else if tail[0] == '.' {
        lemma_longer(tail.skip(1), it);
        lemma_beyond_joined(
            head,
            extended(tail.skip(1), it),
            version::level_of(tail.skip(1)),
            o,
        );
    } else {
        let below = if tail[0] == '-' {
            tail.skip(1)
        } else {
            tail
        };
        lemma_longer(below, it);
        let a = extended(below, it);
        let l = version::level_of(below);
        lemma_beyond_wrapped(a, l, o);
        if l.len() == 0 {
            assert(version::wrapped(l).len() == 0);
        }
        lemma_beyond_joined(head, version::wrapped(a), version::wrapped(l), o);
    }
}

// ---------------------------------------------------------------------------
// Texts
// ---------------------------------------------------------------------------

proof fn lemma_items_of(s: Seq<char>, c: char, q: Seq<char>, it: ItemModel)
    requires
        is_joint(c),
        is_segment(q, it),
        s.len() == 0 || !text::is_white(s.last()),
    ensures
        version::items_of(s) == version::level_of(text::trim_start_of(s)),
        version::items_of(s + (seq![c] + q)) == extended(text::trim_start_of(s), it),
{
    let x = seq![c] + q;
    let t = s + x;
    let v = text::trim_start_of(s);
    version_laws::lemma_trim_start_more(s, x);
    version_laws::lemma_trim_start_last(s);
    version_laws::lemma_trim_end_same(v);
    assert(t.last() == q.last());
    assert(!text::is_white(q[q.len() - 1]));
    assert((v + x).last() == q.last());
    version_laws::lemma_trim_end_same(v + x);
    lemma_extended(v, c, q, it);
}

/// A version with a qualifier behind a dot or a hyphen stands to the version without it as the
/// qualifier stands to the release: `alpha`, `beta`, `milestone`, `rc` and `snapshot` come before
/// it, `sp` and every other word after it.
pub proof fn qualifier_places_the_version(s: Seq<char>, c: char, q: Seq<char>)
    requires
        s.len() == 0 || !text::is_white(s.last()),
        is_joint(c),
        is_word(q),
    ensures
        version::version_order(s + (seq![c] + q), s) == text::int_order(
            place_of(q),
            release_place(),
        ),
{
    let it = ItemModel::Str(version::qualifier_of(q));
    lemma_rank(q);
    lemma_items_of(s, c, q, it);
    lemma_longer(text::trim_start_of(s), it);
}

/// Two versions that differ in the qualifier at their end stand as the qualifiers do: by their
/// places, other words behind all well-known ones and among themselves by their letters.
pub proof fn qualifiers_order_versions(s: Seq<char>, c: char, d: char, p: Seq<char>, q: Seq<char>)
    requires
        s.len() == 0 || !text::is_white(s.last()),
        is_joint(c),
        is_joint(d),
        is_word(p),
        is_word(q),
    ensures
        version::version_order(s + (seq![c] + p), s + (seq![d] + q)) == word_order(p, q),
{
    let a = ItemModel::Str(version::qualifier_of(p));
    let b = ItemModel::Str(version::qualifier_of(q));
    lemma_rank(p);
    lemma_rank(q);
    lemma_items_of(s, c, p, a);
    lemma_items_of(s, d, q, b);
    lemma_extended_order(text::trim_start_of(s), a, b);
}

/// Two versions that differ in the number at their end stand as the numbers do, by their values
/// and not by their digits; and a version with a number above zero added comes after the version
/// without it.
pub proof fn numbers_order_versions(s: Seq<char>, c: char, d: char, p: Seq<char>, q: Seq<char>)
    requires
        s.len() == 0 || !text::is_white(s.last()),
        is_joint(c),
        is_joint(d),
        is_number(p),
        is_number(q),
        version::digits_value(p) > 0,
        version::digits_value(q) > 0,
    ensures
        version::version_order(s + (seq![c] + p), s + (seq![d] + q)) == text::int_order(
            version::digits_value(p) as int,
            version::digits_value(q) as int,
        ),
        version::version_order(s + (seq![c] + p), s) == Order::Greater,
{
    let a = ItemModel::Int(version::digits_value(p));
    let b = ItemModel::Int(version::digits_value(q));
    lemma_items_of(s, c, p, a);
    lemma_items_of(s, d, q, b);
    lemma_extended_order(text::trim_start_of(s), a, b);
    lemma_longer(text::trim_start_of(s), a);
}

proof fn lemma_zero_before(s: Seq<char>, it: ItemModel)
    requires
        it is Str,
    ensures
        extended(s + seq!['.', '0'], it) == extended(s, it),
    decreases s.len(),
{
    let x = seq!['.', '0'];
    let t = s + x;
    version::lemma_run_len(s);
    version_laws::lemma_run_len_more(s, x);
    let n = version::run_len(s);
    let tail = s.skip(n);
    assert(t.take(n) =~= s.take(n));
    assert(t.skip(n) =~= tail + x);
    if tail.len() == 0 {
        let z = seq!['0'];
        assert(t.skip(n) =~= x);
        assert(x.skip(1) =~= z);
        assert(version::run_from(z, 1, true) == 1);
        assert(version::run_len(z) == 1);
        assert(z.take(1) =~= z);
        assert(z.drop_last() =~= Seq::empty());
        assert(version::digits_value(z.drop_last()) == 0);
        assert(version::digits_value(z) == 0);
        assert(z.skip(1).len() == 0);
        assert(extended(z, it) == seq![it]);
    } else {
        assert((tail + x)[0] == tail[0]);
        assert((tail + x).skip(1) =~= tail.skip(1) + x);
        if version::is_separator(tail[0]) {
            lemma_zero_before(tail.skip(1), it);
        } else {
            lemma_zero_before(tail, it);
        }
    }
}

/// Zeros before a qualifier do not matter: `1.0-rc` and `1-rc` are the same version.
pub proof fn zeros_before_qualifiers_do_not_matter(s: Seq<char>, c: char, d: char, q: Seq<char>)
    requires
        s.len() > 0,
        !text::is_white(s.last()),
        is_joint(c),
        is_joint(d),
        is_word(q),
    ensures
        version::version_order(s + seq!['.', '0'] + (seq![c] + q), s + (seq![d] + q))
            == Order::Equal,
{
    let it = ItemModel::Str(version::qualifier_of(q));
    let t = s + seq!['.', '0'];
    assert(t.last() == '0');
    lemma_rank(q);
    lemma_items_of(t, c, q, it);
    lemma_items_of(s, d, q, it);
    version_laws::lemma_trim_start_more(s, seq!['.', '0']);
    lemma_zero_before(text::trim_start_of(s), it);
    version_laws::items_equal_themselves(version::items_of(t + (seq![c] + q)));
}

proof fn lemma_level_open(s: Seq<char>, c: char)
    requires
        is_joint(c),
    ensures
        version::level_of(s + seq![c]) == version::level_of(s),
    decreases s.len(),
{
    let x = seq![c];
    let t = s + x;
    version::lemma_run_len(s);
    version_laws::lemma_run_len_more(s, x);
    let n = version::run_len(s);
    let tail = s.skip(n);
    assert(t.take(n) =~= s.take(n));
    assert(t.skip(n) =~= tail + x);
    if tail.len() == 0 {
        let none = Seq::<char>::empty();
        assert(t.skip(n) =~= x);
        assert(x.skip(1) =~= none);
        assert(version::run_len(none) == 0);
        assert(none.take(0) =~= none);
        assert(text::lower_of(none) =~= none);
        reveal_strlit("alpha");
        reveal_strlit("a");
        reveal_strlit("beta");
        reveal_strlit("b");
        reveal_strlit("milestone");
        reveal_strlit("m");
        reveal_strlit("rc");
        reveal_strlit("cr");
        reveal_strlit("snapshot");
        assert(version::level_of(none) =~= Seq::empty());
    } else {
        assert((tail + x)[0] == tail[0]);
        assert((tail + x).skip(1) =~= tail.skip(1) + x);
        if version::is_separator(tail[0]) {
            lemma_level_open(tail.skip(1), c);
        } else {
            lemma_level_open(tail, c);
        }
    }
}

/// A dot or a hyphen at the end does not matter: `1.`, `1-` and `1` are the same version.
pub proof fn separators_at_the_end_do_not_matter(s: Seq<char>, c: char)
    requires
        s.len() > 0,
        !text::is_white(s.last()),
        is_joint(c),
    ensures
        version::version_order(s + seq![c], s) == Order::Equal,
{
    let x = seq![c];
    let v = text::trim_start_of(s);
    version_laws::lemma_trim_start_more(s, x);
    version_laws::lemma_trim_start_last(s);
    version_laws::lemma_trim_end_same(v);
    assert((v + x).last() == c);
    version_laws::lemma_trim_end_same(v + x);
    lemma_level_open(v, c);
    version_laws::items_equal_themselves(version::items_of(s));
}

/// Behind a number, another number above zero comes after every qualifier: `1.1` comes after
/// `1-sp` and after `1.rc`.
pub proof fn numbers_follow_qualifiers(
    p: Seq<char>,
    c: char,
    d: char,
    n: Seq<char>,
    q: Seq<char>,
)
    requires
        is_number(p),
        is_number(n),
        is_word(q),
        is_joint(c),
        is_joint(d),
        version::digits_value(n) > 0,
    ensures
        version::version_order(p + (seq![c] + n), p + (seq![d] + q)) == Order::Greater,
{
    let a = ItemModel::Int(version::digits_value(n));
    let b = ItemModel::Str(version::qualifier_of(q));
    assert(!text::is_white(p[p.len() - 1]));
    assert(!text::is_white(p[0]));
    lemma_rank(q);
    lemma_items_of(p, c, n, a);
    lemma_items_of(p, d, q, b);
    assert(text::trim_start_of(p) == p);
    assert forall|j: int| 1 <= j < p.len() implies !version::is_separator(#[trigger] p[j])
        && version::is_digit(p[j]) == true by {}
    lemma_run_all(p, 1, true);
    assert(version::run_len(p) == p.len());
    assert(p.take(p.len() as int) =~= p);
    let head = ItemModel::Int(version::digits_value(p));
    assert(extended(p, a) == version::joined(head, seq![a]));
    assert(extended(p, b) == version::joined(head, seq![b]));
    lemma_same_head(head, seq![a], seq![b]);
    lemma_one(a, b);
    let long = seq![head] + seq![a];
    assert(extended(p, a) == long);
    assert(long[0] == head);
    if version::digits_value(p) == 0 {
        assert(extended(p, b) == seq![b]);
        assert(version::item_order(head, b) == Order::Greater);
        assert(version::items_order(long, seq![b]) == Order::Greater);
    }
}

/// The value of a number is what its decimal digits say: a digit behind it counts ten times the
/// value before and the digit.
pub proof fn digits_have_their_value(s: Seq<char>, c: char)
    requires
        '0' <= c <= '9',
    ensures
        version::digits_value(Seq::empty()) == 0,
        version::digits_value(s.push(c)) == 10 * version::digits_value(s) + (c as int - '0' as int),
{
    assert(s.push(c).drop_last() =~= s);
    assert(s.push(c).last() == c);
}

proof fn lemma_change_run(s: Seq<char>, t: Seq<char>, i: int, digits: bool)
    requires
        s.len() > 0,
        t.len() > 0,
        0 <= i <= s.len(),
        version::is_separator(t[0]) || version::is_digit(t[0]) != version::is_digit(s.last()),
        i == s.len() ==> version::is_digit(s.last()) == digits,
    ensures
        version::run_from(s + t, i, digits) == version::run_from(s, i, digits),
    decreases s.len() - i,
{
    if i < s.len() {
        assert((s + t)[i] == s[i]);
        if !version::is_separator(s[i]) && version::is_digit(s[i]) == digits {
            if i + 1 == s.len() {
                assert(s.last() == s[i]);
            }
            lemma_change_run(s, t, i + 1, digits);
        }
    } else {
        assert((s + t)[i] == t[0]);
    }
}

proof fn lemma_change(s: Seq<char>, t: Seq<char>)
    requires
        s.len() > 0,
        t.len() > 0,
        !version::is_separator(s.last()),
        !version::is_separator(t[0]),
        version::is_digit(s.last()) != version::is_digit(t[0]),
    ensures
        version::level_of(s + t) == version::level_of(s + (seq!['-'] + t)),
    decreases s.len(),
{
    let x = seq!['-'] + t;
    let a = s + t;
    let b = s + x;
    version::lemma_run_len(s);
    let n = version::run_len(s);
    assert(x[0] == '-');
    assert(a[0] == s[0] && b[0] == s[0]);
    if !version::is_separator(s[0]) {
        let digits = version::is_digit(s[0]);
        if s.len() == 1 {
            assert(s.last() == s[0]);
        }
        lemma_change_run(s, t, 1, digits);
        lemma_change_run(s, x, 1, digits);
    }
    assert(version::run_len(a) == n);
    assert(version::run_len(b) == n);
    let tail = s.skip(n);
    assert(a.take(n) =~= s.take(n));
    assert(b.take(n) =~= s.take(n));
    assert(a.skip(n) =~= tail + t);
    assert(b.skip(n) =~= tail + x);
    if tail.len() == 0 {
        assert(a.skip(n) =~= t);
        assert(b.skip(n) =~= x);
        assert(x.skip(1) =~= t);
    } else {
        assert((tail + t)[0] == tail[0] && (tail + x)[0] == tail[0]);
        assert(tail.last() == s.last());
        if version::is_separator(tail[0]) {
            let rest = tail.skip(1);
            if rest.len() == 0 {
                assert(tail.last() == tail[0]);
            }
            assert(rest.last() == tail.last());
            assert((tail + t).skip(1) =~= rest + t);
            assert((tail + x).skip(1) =~= rest + x);
            lemma_change(rest, t);
        } else {
            assert(n > 0) by {
                if s.len() > 0 && !version::is_separator(s[0]) {
                } else {
                    assert(tail[0] == s[0]);
                }
            }
            lemma_change(tail, t);
        }
    }
}

/// A change between digits and other characters separates like a hyphen: `1.0rc2` and `1.0-rc-2`
/// are the same version.
pub proof fn change_of_kind_separates(s: Seq<char>, t: Seq<char>)
    requires
        s.len() > 0,
        t.len() > 0,
        !text::is_white(s.last()) && !text::is_white(t[0]) && !text::is_white(t.last()),
        !is_joint(s.last()),
        !is_joint(t[0]),
        ('0' <= s.last() <= '9') != ('0' <= t[0] <= '9'),
    ensures
        version::version_order(s + t, s + (seq!['-'] + t)) == Order::Equal,
{
    let x = seq!['-'] + t;
    let v = text::trim_start_of(s);
    version_laws::lemma_trim_start_more(s, t);
    version_laws::lemma_trim_start_more(s, x);
    version_laws::lemma_trim_start_last(s);
    assert((v + t).last() == t.last());
    assert((v + x).last() == t.last());
    version_laws::lemma_trim_end_same(v + t);
    version_laws::lemma_trim_end_same(v + x);
    assert(v.len() > 0) by {
        lemma_trim_start_nonempty(s);
    }
    lemma_change(v, t);
    version_laws::items_equal_themselves(version::items_of(s + t));
}

proof fn lemma_trim_start_nonempty(s: Seq<char>)
    requires
        s.len() > 0,
        !text::is_white(s.last()),
    ensures
        text::trim_start_of(s).len() > 0,
    decreases s.len(),
{
    if text::is_white(s[0]) {
        assert(s.len() > 1) by {
            assert(s.last() == s[s.len() - 1]);
        }
        assert(s.skip(1).last() == s.last());
        lemma_trim_start_nonempty(s.skip(1));
    }
}

} // verus!
