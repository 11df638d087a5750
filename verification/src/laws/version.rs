//! Laws of versions and version ranges.
use crate::text;
use crate::text::Order;
use crate::version;
use crate::version::ConstraintModel;
use crate::version::IntervalModel;
use crate::version::ItemModel;
use crate::version::QualifierModel;
use crate::version::Version;
use vstd::prelude::*;

verus! {

// ---------------------------------------------------------------------------
// Order
// ---------------------------------------------------------------------------

/// An item stands equal to itself.
pub proof fn item_equals_itself(a: ItemModel)
    ensures
        version::item_order(a, a) == Order::Equal,
    decreases version::item_size(a), 0nat,
{
    version::lemma_size_one(a);
    match a {
        ItemModel::Str(QualifierModel::Other(x)) => text::lemma_text_order_equal(x, x),
        ItemModel::List(l) => items_equal_themselves(l),
        _ => {},
    }
}

/// Items stand equal to themselves.
pub proof fn items_equal_themselves(l: Seq<ItemModel>)
    ensures
        version::items_order(l, l) == Order::Equal,
    decreases version::items_size(l), 1nat,
{
    version::lemma_rest_size(l);
    if l.len() > 0 {
        item_equals_itself(l[0]);
        items_equal_themselves(version::rest(l));
    }
}

/// A version equals itself.
pub proof fn version_equals_itself(a: Seq<char>)
    ensures
        version::version_order(a, a) == Order::Equal,
{
    items_equal_themselves(version::items_of(a));
}

/// Swapping two versions flips their order: of two versions, either one comes first or they are
/// equal.
pub proof fn order_flips(a: Seq<char>, b: Seq<char>)
    ensures
        version::version_order(b, a) == version::version_order(a, b).flip(),
{
    version::lemma_items_flip(version::items_of(a), version::items_of(b));
}

/// A version with an item added stands to the version without it as the item stands to a
/// release: a pre-release qualifier comes before, a service pack or a number above zero after.
pub proof fn added_item_decides(l: Seq<ItemModel>, x: ItemModel)
    ensures
        version::items_order(l.push(x), l) == version::null_order(x),
    decreases l.len(),
{
    if l.len() == 0 {
        let one = l.push(x);
        assert(version::rest(one) =~= Seq::empty());
        assert(version::rest(l) =~= Seq::empty());
        assert(version::items_order(version::rest(one), version::rest(l)) == Order::Equal);
    } else {
        item_equals_itself(l[0]);
        added_item_decides(version::rest(l), x);
        assert(version::rest(l.push(x)) =~= version::rest(l).push(x));
    }
}

// ---------------------------------------------------------------------------
// Equality
// ---------------------------------------------------------------------------

/// A list as reading a version leaves it: it does not end in null, and so do the lists in it,
/// which hold more than one item.
pub open spec fn settled(l: Seq<ItemModel>) -> bool
    decreases version::items_size(l), 1nat,
{
    &&& l.len() > 0 ==> version::null_order(l.last()) != Order::Equal
    &&& all_settled(l)
}

/// Whether every list among the items is as reading a version leaves it.
pub open spec fn all_settled(l: Seq<ItemModel>) -> bool
    decreases version::items_size(l), 0nat,
{
    proof {
        version::lemma_rest_size(l);
        if l.len() > 0 {
            if let ItemModel::List(inner) = l[0] {
                assert(version::items_size(inner) < version::item_size(l[0]));
            }
        }
    }
    if l.len() == 0 {
        true
    } else {
        &&& l[0] matches ItemModel::List(inner) ==> inner.len() > 1 && settled(inner)
        &&& all_settled(version::rest(l))
    }
}

proof fn lemma_settled_rest(l: Seq<ItemModel>)
    requires
        settled(l),
        l.len() > 0,
    ensures
        settled(version::rest(l)),
{
    let r = version::rest(l);
    if r.len() > 0 {
        assert(r.last() == l.last());
    }
}

/// A list that does not end in null is not null.
proof fn lemma_settled_not_null(l: Seq<ItemModel>)
    requires
        settled(l),
        l.len() > 0,
    ensures
        version::items_order(l, Seq::empty()) != Order::Equal,
        version::items_order(Seq::empty(), l) != Order::Equal,
    decreases l.len(),
{
    let e = Seq::<ItemModel>::empty();
    assert(version::rest(e) =~= e);
    lemma_settled_rest(l);
    let r = version::rest(l);
    if r.len() > 0 {
        lemma_settled_not_null(r);
    } else {
        assert(l[0] == l.last());
    }
}

proof fn lemma_equal_items_same(a: ItemModel, b: ItemModel)
    requires
        a matches ItemModel::List(l) ==> l.len() > 1 && settled(l),
        b matches ItemModel::List(l) ==> l.len() > 1 && settled(l),
        version::item_order(a, b) == Order::Equal,
    ensures
        a == b,
    decreases version::item_size(a) + version::item_size(b), 0nat,
{
    version::lemma_size_one(a);
    version::lemma_size_one(b);
    match (a, b) {
        (ItemModel::Str(QualifierModel::Other(x)), ItemModel::Str(QualifierModel::Other(y))) => {
            text::lemma_text_order_equal(x, y);
        },
        (ItemModel::List(la), ItemModel::List(lb)) => {
            lemma_equal_lists_same(la, lb);
        },
        (ItemModel::List(la), _) => {
            lemma_settled_rest(la);
            lemma_settled_not_null(version::rest(la));
            assert(version::rest(seq![b]) =~= Seq::empty());
            assert(false);
        },
        (_, ItemModel::List(lb)) => {
            lemma_settled_rest(lb);
            lemma_settled_not_null(version::rest(lb));
            assert(version::rest(seq![a]) =~= Seq::empty());
            assert(false);
        },
        _ => {},
    }
}

proof fn lemma_equal_lists_same(a: Seq<ItemModel>, b: Seq<ItemModel>)
    requires
        settled(a),
        settled(b),
        version::items_order(a, b) == Order::Equal,
    ensures
        a == b,
    decreases version::items_size(a) + version::items_size(b), 1nat,
{
    version::lemma_rest_size(a);
    version::lemma_rest_size(b);
    if a.len() == 0 {
        assert(a =~= Seq::empty());
        if b.len() > 0 {
            lemma_settled_not_null(b);
        }
        assert(a =~= b);
    } else if b.len() == 0 {
        assert(b =~= Seq::empty());
        lemma_settled_not_null(a);
    } else {
        lemma_settled_rest(a);
        lemma_settled_rest(b);
        lemma_equal_items_same(a[0], b[0]);
        lemma_equal_lists_same(version::rest(a), version::rest(b));
        assert(a =~= seq![a[0]] + version::rest(a));
        assert(b =~= seq![b[0]] + version::rest(b));
    }
}

/// A list stands to what absent segments mean as it stands to an empty list.
pub proof fn lemma_null_items(l: Seq<ItemModel>)
    ensures
        version::null_order_items(l) == version::items_order(l, Seq::empty()),
    decreases l.len(),
{
    let e = Seq::<ItemModel>::empty();
    assert(version::rest(e) =~= e);
    if l.len() > 0 {
        lemma_null_items(version::rest(l));
    }
}

proof fn lemma_joined_settled(head: ItemModel, rest: Seq<ItemModel>)
    requires
        !(head is List),
        settled(rest),
    ensures
        settled(version::joined(head, rest)),
{
    let l = seq![head] + rest;
    assert(version::rest(l) =~= rest);
    if version::joined(head, rest) == l {
        if rest.len() > 0 {
            assert(l.last() == rest.last());
        } else {
            assert(l.last() == head);
        }
    }
}

proof fn lemma_wrapped_settled(l: Seq<ItemModel>)
    requires
        settled(l),
    ensures
        settled(version::wrapped(l)),
{
    if l.len() > 0 {
        let one = seq![version::as_item(l)];
        assert(version::rest(one) =~= Seq::empty());
        assert(all_settled(version::rest(one)));
        if l.len() > 1 {
            lemma_settled_not_null(l);
            lemma_null_items(l);
            assert(version::null_order(ItemModel::List(l)) == version::null_order_items(l));
        } else {
            assert(l.last() == l[0]);
        }
        assert(one.last() == version::as_item(l));
    }
}

proof fn lemma_level_settled(s: Seq<char>)
    ensures
        settled(version::level_of(s)),
    decreases s.len(),
{
    version::lemma_run_len(s);
    let n = version::run_len(s);
    let head = version::segment_of(s.take(n));
    let tail = s.skip(n);
    if tail.len() == 0 {
        lemma_joined_settled(head, Seq::empty());
    } else if tail[0] == '.' {
        lemma_level_settled(tail.skip(1));
        lemma_joined_settled(head, version::level_of(tail.skip(1)));
    } else {
        let below = if tail[0] == '-' {
            tail.skip(1)
        } else {
            tail
        };
        lemma_level_settled(below);
        lemma_wrapped_settled(version::level_of(below));
        lemma_joined_settled(head, version::wrapped(version::level_of(below)));
    }
}

/// Reading a version leaves its items settled.
pub proof fn items_are_settled(s: Seq<char>)
    ensures
        settled(version::items_of(s)),
{
    lemma_level_settled(text::trim_of(s));
}

/// Versions that compare equal have the same items, which is what their hash is made from.
pub proof fn equal_versions_have_equal_items(a: Seq<char>, b: Seq<char>)
    ensures
        version::version_order(a, b) == Order::Equal <==> version::items_of(a)
            == version::items_of(b),
{
    if version::version_order(a, b) == Order::Equal {
        items_are_settled(a);
        items_are_settled(b);
        lemma_equal_lists_same(version::items_of(a), version::items_of(b));
    } else if version::items_of(a) == version::items_of(b) {
        items_equal_themselves(version::items_of(a));
    }
}

/// A number has one spelling without zeros in front, which is what the hash of a number is made
/// from.
pub proof fn numbers_have_one_spelling(a: Seq<char>, b: Seq<char>)
    requires
        version::all_digits(a),
        version::all_digits(b),
        a.len() > 0 ==> a[0] != '0',
        b.len() > 0 ==> b[0] != '0',
        version::digits_value(a) == version::digits_value(b),
    ensures
        a == b,
{
    if a.len() < b.len() {
        version::lemma_fewer_digits(a, b);
    } else if b.len() < a.len() {
        version::lemma_fewer_digits(b, a);
    } else {
        lemma_same_digits(a, b);
    }
}

proof fn lemma_same_digits(a: Seq<char>, b: Seq<char>)
    requires
        version::all_digits(a),
        version::all_digits(b),
        a.len() == b.len(),
        version::digits_value(a) == version::digits_value(b),
    ensures
        a == b,
    decreases a.len(),
{
    if a.len() == 0 {
        assert(a =~= b);
    } else {
        version::lemma_digits_step(a);
        version::lemma_digits_step(b);
        lemma_same_digits(a.drop_last(), b.drop_last());
        assert(a =~= a.drop_last().push(a.last()));
        assert(b =~= b.drop_last().push(b.last()));
    }
}

/// Versions that compare equal stand alike to every other version.
pub proof fn equal_versions_compare_alike(a: Seq<char>, b: Seq<char>, c: Seq<char>)
    requires
        version::version_order(a, b) == Order::Equal,
    ensures
        version::version_order(a, c) == version::version_order(b, c),
        version::version_order(c, a) == version::version_order(c, b),
{
    equal_versions_have_equal_items(a, b);
}

// ---------------------------------------------------------------------------
// Spelling
// ---------------------------------------------------------------------------

/// A zero added after a dot.
pub open spec fn dot_zero() -> Seq<char> {
    seq!['.', '0']
}

/// A run ends before a separator that follows the text.
pub proof fn lemma_run_from_more(s: Seq<char>, more: Seq<char>, i: int, digits: bool)
    requires
        0 <= i <= s.len(),
        more.len() > 0,
        version::is_separator(more[0]),
    ensures
        version::run_from(s + more, i, digits) == version::run_from(s, i, digits),
    decreases s.len() - i,
{
    let t = s + more;
    if i < s.len() {
        assert(t[i] == s[i]);
        lemma_run_from_more(s, more, i + 1, digits);
    } else {
        assert(t[i] == more[0]);
    }
}

/// A run ends before a separator that follows the text.
pub proof fn lemma_run_len_more(s: Seq<char>, more: Seq<char>)
    requires
        more.len() > 0,
        version::is_separator(more[0]),
    ensures
        version::run_len(s + more) == version::run_len(s),
{
    if s.len() == 0 {
        assert((s + more)[0] == more[0]);
    } else {
        assert((s + more)[0] == s[0]);
        lemma_run_from_more(s, more, 1, version::is_digit(s[0]));
    }
}

proof fn lemma_zero_level()
    ensures
        version::level_of(seq!['0']) == Seq::<ItemModel>::empty(),
{
    let z = seq!['0'];
    reveal_with_fuel(version::run_from, 2);
    assert(version::run_len(z) == 1);
    assert(z.take(1) =~= z);
    assert(z.skip(1).len() == 0);
    assert(z.drop_last() =~= Seq::empty());
    assert(version::digits_value(z.drop_last()) == 0);
    assert(version::digits_value(z) == 0);
}

proof fn lemma_level_dot_zero(s: Seq<char>)
    ensures
        version::level_of(s + dot_zero()) == version::level_of(s),
    decreases s.len(),
{
    let t = s + dot_zero();
    version::lemma_run_len(s);
    lemma_run_len_more(s, dot_zero());
    let n = version::run_len(s);
    let tail = s.skip(n);
    assert(t.take(n) =~= s.take(n));
    assert(t.skip(n) =~= tail + dot_zero());
    if tail.len() == 0 {
        assert(t.skip(n) =~= dot_zero());
        assert(t.skip(n).skip(1) =~= seq!['0']);
        lemma_zero_level();
    } else {
        assert((tail + dot_zero())[0] == tail[0]);
        let rest = tail.skip(1);
        assert((tail + dot_zero()).skip(1) =~= rest + dot_zero());
        if version::is_separator(tail[0]) {
            lemma_level_dot_zero(rest);
        } else {
            lemma_level_dot_zero(tail);
        }
    }
}

/// What follows the white space at the front is kept.
pub proof fn lemma_trim_start_more(s: Seq<char>, more: Seq<char>)
    requires
        more.len() > 0,
        !text::is_white(more[0]),
    ensures
        text::trim_start_of(s + more) == text::trim_start_of(s) + more,
    decreases s.len(),
{
    if s.len() == 0 {
        assert(s + more =~= more);
        assert(text::trim_start_of(s) + more =~= more);
    } else {
        assert((s + more)[0] == s[0]);
        if text::is_white(s[0]) {
            lemma_trim_start_more(s.skip(1), more);
            assert((s + more).skip(1) =~= s.skip(1) + more);
        }
    }
}

/// A text that does not end in white space keeps its end.
pub proof fn lemma_trim_end_same(s: Seq<char>)
    requires
        s.len() == 0 || !text::is_white(s.last()),
    ensures
        text::trim_end_of(s) == s,
{
}

/// Trimming the front keeps the last character.
pub proof fn lemma_trim_start_last(s: Seq<char>)
    ensures
        text::trim_start_of(s).len() > 0 ==> text::trim_start_of(s).last() == s.last(),
    decreases s.len(),
{
    if s.len() > 0 && text::is_white(s[0]) {
        lemma_trim_start_last(s.skip(1));
    }
}

/// A zero at the end of a version does not matter: `1` and `1.0` are the same version. (A text
/// that ends in white space has no such end.)
pub proof fn trailing_zero_does_not_matter(s: Seq<char>)
    requires
        s.len() == 0 || !text::is_white(s.last()),
    ensures
        version::items_of(s + dot_zero()) == version::items_of(s),
        version::version_order(s + dot_zero(), s) == Order::Equal,
{
    let t = s + dot_zero();
    lemma_trim_start_more(s, dot_zero());
    let v = text::trim_start_of(s);
    lemma_trim_start_last(s);
    lemma_trim_end_same(v);
    assert(t.last() == '0');
    lemma_trim_end_same(v + dot_zero());
    assert(text::trim_of(s) == v);
    assert(text::trim_of(t) == v + dot_zero());
    lemma_level_dot_zero(v);
    items_equal_themselves(version::items_of(s));
}

proof fn lemma_lower_char(c: char)
    ensures
        version::is_digit(text::lower_char(c)) == version::is_digit(c),
        version::is_separator(text::lower_char(c)) == version::is_separator(c),
        text::is_white(text::lower_char(c)) == text::is_white(c),
        version::is_digit(c) ==> text::lower_char(c) == c,
        version::is_separator(c) ==> text::lower_char(c) == c,
        text::lower_char(c) == '.' <==> c == '.',
        text::lower_char(c) == '-' <==> c == '-',
        text::lower_char(text::lower_char(c)) == text::lower_char(c),
{
}

proof fn lemma_lower_run(s: Seq<char>, i: int, digits: bool)
    requires
        0 <= i <= s.len(),
    ensures
        version::run_from(text::lower_of(s), i, digits) == version::run_from(s, i, digits),
    decreases s.len() - i,
{
    if i < s.len() {
        lemma_lower_char(s[i]);
        lemma_lower_run(s, i + 1, digits);
    }
}

proof fn lemma_lower_digits(s: Seq<char>)
    requires
        forall|i: int| 0 <= i < s.len() ==> version::is_digit(#[trigger] s[i]),
    ensures
        text::lower_of(s) == s,
{
    assert forall|i: int| 0 <= i < s.len() implies text::lower_of(s)[i] == s[i] by {
        lemma_lower_char(s[i]);
    }
    assert(text::lower_of(s) =~= s);
}

proof fn lemma_lower_segment(s: Seq<char>)
    ensures
        ({
            let run = s.take(version::run_len(s));
            version::segment_of(text::lower_of(run)) == version::segment_of(run)
        }),
{
    version::lemma_run_len(s);
    let n = version::run_len(s);
    let run = s.take(n);
    if run.len() > 0 {
        lemma_lower_char(run[0]);
        if version::is_digit(run[0]) {
            version::lemma_run_digits(s);
            assert forall|i: int| 0 <= i < run.len() implies version::is_digit(
                #[trigger] run[i],
            ) by {
                assert(run[i] == s[i]);
            }
            lemma_lower_digits(run);
        }
    }
    assert(text::lower_of(text::lower_of(run)) =~= text::lower_of(run));
}

proof fn lemma_lower_level(s: Seq<char>)
    ensures
        version::level_of(text::lower_of(s)) == version::level_of(s),
    decreases s.len(),
{
    let t = text::lower_of(s);
    version::lemma_run_len(s);
    let n = version::run_len(s);
    if s.len() > 0 {
        lemma_lower_char(s[0]);
        if !version::is_separator(s[0]) {
            lemma_lower_run(s, 1, version::is_digit(s[0]));
        }
    }
    assert(version::run_len(t) == n);
    lemma_lower_segment(s);
    assert(t.take(n) =~= text::lower_of(s.take(n)));
    let tail = s.skip(n);
    assert(t.skip(n) =~= text::lower_of(tail));
    if tail.len() > 0 {
        lemma_lower_char(tail[0]);
        assert(text::lower_of(tail).skip(1) =~= text::lower_of(tail.skip(1)));
        if version::is_separator(tail[0]) {
            lemma_lower_level(tail.skip(1));
        } else {
            lemma_lower_level(tail);
        }
    }
}

proof fn lemma_lower_trim(s: Seq<char>)
    ensures
        text::trim_of(text::lower_of(s)) == text::lower_of(text::trim_of(s)),
{
    lemma_lower_trim_start(s);
    lemma_lower_trim_end(text::trim_start_of(s));
}

proof fn lemma_lower_trim_start(s: Seq<char>)
    ensures
        text::trim_start_of(text::lower_of(s)) == text::lower_of(text::trim_start_of(s)),
    decreases s.len(),
{
    if s.len() > 0 {
        lemma_lower_char(s[0]);
        if text::is_white(s[0]) {
            lemma_lower_trim_start(s.skip(1));
            assert(text::lower_of(s).skip(1) =~= text::lower_of(s.skip(1)));
        }
    }
}

proof fn lemma_lower_trim_end(s: Seq<char>)
    ensures
        text::trim_end_of(text::lower_of(s)) == text::lower_of(text::trim_end_of(s)),
    decreases s.len(),
{
    if s.len() > 0 {
        lemma_lower_char(s.last());
        if text::is_white(s.last()) {
            lemma_lower_trim_end(s.drop_last());
            assert(text::lower_of(s).drop_last() =~= text::lower_of(s.drop_last()));
        }
    }
}

/// Capitals do not matter in a version.
pub proof fn versions_ignore_case(s: Seq<char>)
    ensures
        version::items_of(text::lower_of(s)) == version::items_of(s),
        version::version_order(text::lower_of(s), s) == Order::Equal,
{
    lemma_lower_trim(s);
    lemma_lower_level(text::trim_of(s));
    items_equal_themselves(version::items_of(s));
}

// ---------------------------------------------------------------------------
// Transitivity
// ---------------------------------------------------------------------------

/// What an absent segment counts as.
spec fn nil() -> ItemModel {
    ItemModel::List(Seq::empty())
}

/// The first item of a list, or what an absent one counts as.
spec fn first(l: Seq<ItemModel>) -> ItemModel {
    if l.len() == 0 {
        nil()
    } else {
        l[0]
    }
}

/// An item as a list.
spec fn as_list(it: ItemModel) -> Seq<ItemModel> {
    match it {
        ItemModel::List(l) => l,
        _ => seq![it],
    }
}

proof fn lemma_null_is_nil(it: ItemModel)
    ensures
        version::null_order(it) == version::item_order(it, nil()),
{
    let e = Seq::<ItemModel>::empty();
    assert(version::rest(e) =~= e);
    match it {
        ItemModel::List(l) => lemma_null_items(l),
        _ => {
            let one = seq![it];
            assert(version::rest(one) =~= e);
            assert(version::items_order(version::rest(one), version::rest(e)) == Order::Equal);
            assert(version::item_order(it, nil()) == version::items_order(one, e));
        },
    }
}

/// Lists go by their first items, and then by the rest.
proof fn lemma_order_step(a: Seq<ItemModel>, b: Seq<ItemModel>)
    ensures
        version::items_order(a, b) == (if version::item_order(first(a), first(b)) != Order::Equal {
            version::item_order(first(a), first(b))
        } else {
            version::items_order(version::rest(a), version::rest(b))
        }),
{
    let e = Seq::<ItemModel>::empty();
    assert(version::rest(e) =~= e);
    if a.len() == 0 && b.len() == 0 {
        assert(a =~= e && b =~= e);
        assert(version::item_order(nil(), nil()) == version::items_order(e, e));
    } else if b.len() == 0 {
        lemma_null_is_nil(a[0]);
    } else if a.len() == 0 {
        lemma_null_is_nil(b[0]);
        version::lemma_item_flip(b[0], nil());
    }
}

/// Items go as the lists that they stand for.
proof fn lemma_as_lists(a: ItemModel, b: ItemModel)
    ensures
        version::item_order(a, b) == version::items_order(as_list(a), as_list(b)),
{
    if !(a is List) && !(b is List) {
        let x = seq![a];
        let y = seq![b];
        lemma_order_step(x, y);
        assert(version::rest(x) =~= Seq::empty());
        assert(version::rest(y) =~= Seq::empty());
        assert(version::items_order(version::rest(x), version::rest(y)) == Order::Equal);
    }
}

/// How much an item holds; what is absent holds nothing.
spec fn item_weight(it: ItemModel) -> nat
    decreases it,
{
    match it {
        ItemModel::List(l) => if l.len() == 0 {
            0
        } else {
            1 + items_weight(l)
        },
        _ => 1,
    }
}

spec fn items_weight(l: Seq<ItemModel>) -> nat
    decreases l,
{
    if l.len() == 0 {
        0
    } else {
        item_weight(l[0]) + items_weight(l.subrange(1, l.len() as int))
    }
}

proof fn lemma_weight_one(it: ItemModel)
    ensures
        items_weight(seq![it]) == item_weight(it),
{
    let l = seq![it];
    assert(l.subrange(1, l.len() as int).len() == 0);
    assert(items_weight(l.subrange(1, l.len() as int)) == 0);
    assert(l[0] == it);
}

/// A segment, or what an absent one counts as.
spec fn is_simple(it: ItemModel) -> bool {
    it matches ItemModel::List(l) ==> l.len() == 0
}

/// The place of a segment in the order: qualifiers and absent segments by rank, then the other
/// qualifiers by their text, then the numbers.
spec fn place_of(it: ItemModel) -> (int, int, Seq<char>) {
    match it {
        ItemModel::Int(n) => (2, n as int, Seq::empty()),
        ItemModel::Str(QualifierModel::Ranked(r)) => (0, r as int, Seq::empty()),
        ItemModel::Str(QualifierModel::Other(t)) => (1, 0, t),
        ItemModel::List(_) => (0, version::RELEASE_RANK as int, Seq::empty()),
    }
}

spec fn place_order(a: (int, int, Seq<char>), b: (int, int, Seq<char>)) -> Order {
    if a.0 != b.0 {
        text::int_order(a.0, b.0)
    } else if a.1 != b.1 {
        text::int_order(a.1, b.1)
    } else {
        text::text_order(a.2, b.2)
    }
}

proof fn lemma_place(a: ItemModel, b: ItemModel)
    requires
        is_simple(a),
        is_simple(b),
    ensures
        version::item_order(a, b) == place_order(place_of(a), place_of(b)),
{
    let e = Seq::<ItemModel>::empty();
    if a is List {
        assert(a->List_0 =~= e);
    }
    if b is List {
        assert(b->List_0 =~= e);
    }
    if b is List {
        lemma_null_is_nil(a);
        if a is List {
            assert(version::null_order_items(e) == Order::Equal);
        }
    } else if a is List {
        lemma_null_is_nil(b);
        version::lemma_item_flip(b, a);
    }
    text::lemma_text_order_equal(Seq::empty(), Seq::empty());
}

/// The order of items is transitive, and strict where one of its steps is.
proof fn lemma_items_transitive(a: ItemModel, b: ItemModel, c: ItemModel)
    requires
        version::item_order(a, b) != Order::Greater,
        version::item_order(b, c) != Order::Greater,
    ensures
        version::item_order(a, c) != Order::Greater,
        version::item_order(a, c) == Order::Equal ==> version::item_order(a, b) == Order::Equal
            && version::item_order(b, c) == Order::Equal,
    decreases item_weight(a) + item_weight(b) + item_weight(c), 0nat, 0nat,
{
    if is_simple(a) && is_simple(b) && is_simple(c) {
        lemma_place(a, b);
        lemma_place(b, c);
        lemma_place(a, c);
        let (x, y, z) = (place_of(a), place_of(b), place_of(c));
        if x.0 == y.0 && y.0 == z.0 && x.1 == y.1 && y.1 == z.1 {
            text::lemma_text_order_transitive(x.2, y.2, z.2);
        }
    } else {
        lemma_as_lists(a, b);
        lemma_as_lists(b, c);
        lemma_as_lists(a, c);
        lemma_weight_one(a);
        lemma_weight_one(b);
        lemma_weight_one(c);
        lemma_lists_transitive(as_list(a), as_list(b), as_list(c));
    }
}

proof fn lemma_lists_transitive(a: Seq<ItemModel>, b: Seq<ItemModel>, c: Seq<ItemModel>)
    requires
        version::items_order(a, b) != Order::Greater,
        version::items_order(b, c) != Order::Greater,
    ensures
        version::items_order(a, c) != Order::Greater,
        version::items_order(a, c) == Order::Equal ==> version::items_order(a, b) == Order::Equal
            && version::items_order(b, c) == Order::Equal,
    decreases
            items_weight(a) + items_weight(b) + items_weight(c),
            1nat,
            a.len() + b.len() + c.len(),
{
    lemma_order_step(a, b);
    lemma_order_step(b, c);
    lemma_order_step(a, c);
    if a.len() + b.len() + c.len() > 0 {
        lemma_items_transitive(first(a), first(b), first(c));
        if version::item_order(first(a), first(c)) == Order::Equal {
            lemma_lists_transitive(version::rest(a), version::rest(b), version::rest(c));
        }
    }
}

/// The order of versions is transitive, and strict where one of its steps is.
pub proof fn order_is_transitive(a: Seq<char>, b: Seq<char>, c: Seq<char>)
    requires
        version::version_order(a, b) != Order::Greater,
        version::version_order(b, c) != Order::Greater,
    ensures
        version::version_order(a, c) != Order::Greater,
        version::version_order(a, c) == Order::Equal ==> version::version_order(a, b)
            == Order::Equal && version::version_order(b, c) == Order::Equal,
{
    lemma_lists_transitive(version::items_of(a), version::items_of(b), version::items_of(c));
}

// ---------------------------------------------------------------------------
// Ranges
// ---------------------------------------------------------------------------

/// A range such as `[1.0]` holds just the versions that are equal to its version.
pub proof fn exact_range_holds_equal_versions(inner: Seq<char>, w: Seq<char>)
    requires
        !inner.contains(','),
    ensures
        version::interval_holds(version::interval_between(true, inner, true), w) <==>
            version::version_order(w, text::trim_of(inner)) == Order::Equal,
{
    text::lemma_find_from(inner, ',', 0);
    let comma = text::find_from(inner, ',', 0);
    if comma < inner.len() {
        assert(inner[comma] == ',');
    }
}

/// A version lies in a union of ranges where it lies in one of them.
pub proof fn union_holds_either(a: Seq<IntervalModel>, b: Seq<IntervalModel>, v: Seq<char>)
    ensures
        version::range_holds(a + b, v) <==> version::range_holds(a, v) || version::range_holds(
            b,
            v,
        ),
{
    let u = a + b;
    if version::range_holds(a, v) {
        let i = choose|i: int| 0 <= i < a.len() && version::interval_holds(#[trigger] a[i], v);
        assert(u[i] == a[i]);
    }
    if version::range_holds(b, v) {
        let i = choose|i: int| 0 <= i < b.len() && version::interval_holds(#[trigger] b[i], v);
        assert(u[a.len() + i] == b[i]);
    }
    if version::range_holds(u, v) {
        let i = choose|i: int| 0 <= i < u.len() && version::interval_holds(#[trigger] u[i], v);
        if i < a.len() {
            assert(u[i] == a[i]);
        } else {
            assert(u[i] == b[i - a.len()]);
        }
    }
}

/// A recommended version is a soft requirement, which every version satisfies.
pub proof fn recommended_version_admits_all(r: Seq<char>, v: Seq<char>)
    ensures
        version::constraint_holds(ConstraintModel::Recommended(r), v),
{
}

/// Whether a text has no white space at either end.
pub open spec fn trimmed(s: Seq<char>) -> bool {
    s.len() > 0 ==> !text::is_white(s[0]) && !text::is_white(s.last())
}

proof fn lemma_trimmed_same(s: Seq<char>)
    requires
        trimmed(s),
    ensures
        text::trim_of(s) == s,
{
}

proof fn lemma_trim_end_facts(s: Seq<char>)
    ensures
        text::trim_end_of(s).len() > 0 ==> !text::is_white(text::trim_end_of(s).last()),
        text::trim_end_of(s).len() <= s.len(),
        text::trim_end_of(s) == s.take(text::trim_end_of(s).len() as int),
    decreases s.len(),
{
    if s.len() > 0 && text::is_white(s.last()) {
        lemma_trim_end_facts(s.drop_last());
        let t = text::trim_end_of(s);
        assert(s.drop_last().take(t.len() as int) =~= s.take(t.len() as int));
    } else {
        assert(s.take(s.len() as int) =~= s);
    }
}

proof fn lemma_trim_start_facts(s: Seq<char>)
    ensures
        text::trim_start_of(s).len() > 0 ==> !text::is_white(text::trim_start_of(s)[0]),
        text::trim_start_of(s).len() <= s.len(),
        text::trim_start_of(s) == s.skip(s.len() - text::trim_start_of(s).len()),
    decreases s.len(),
{
    if s.len() > 0 && text::is_white(s[0]) {
        lemma_trim_start_facts(s.skip(1));
        let t = text::trim_start_of(s);
        assert(s.skip(1).skip(s.skip(1).len() - t.len()) =~= s.skip(s.len() - t.len()));
    } else {
        assert(s.skip(0) =~= s);
    }
}

proof fn lemma_trim_facts(s: Seq<char>)
    ensures
        trimmed(text::trim_of(s)),
        forall|c: char| #[trigger] text::trim_of(s).contains(c) ==> s.contains(c),
{
    lemma_trim_start_facts(s);
    let a = text::trim_start_of(s);
    lemma_trim_end_facts(a);
    let t = text::trim_of(s);
    if t.len() > 0 {
        assert(t[0] == a[0]);
    }
    assert forall|c: char| #[trigger] t.contains(c) implies s.contains(c) by {
        let i = choose|i: int| 0 <= i < t.len() && t[i] == c;
        assert(t[i] == a[i]);
        assert(a[i] == s[s.len() - a.len() + i]);
    }
}

/// Whether a text can stand in an interval: no white space at either end and no closing bracket.
pub open spec fn plain_bound(s: Seq<char>) -> bool {
    trimmed(s) && !s.contains(']') && !s.contains(')')
}

/// An interval as reading leaves it.
pub open spec fn readable(iv: IntervalModel) -> bool {
    &&& iv.lower.version matches Some(lo) ==> plain_bound(lo) && !lo.contains(',')
    &&& iv.upper.version matches Some(hi) ==> plain_bound(hi)
    &&& !version::is_exact(iv) ==> (iv.lower.version matches Some(lo) ==> lo.len() > 0) && (
    iv.upper.version matches Some(hi) ==> hi.len() > 0)
}

/// An interval with its upper bound spelled like its lower one where it holds one version only.
pub open spec fn respelled(iv: IntervalModel) -> IntervalModel {
    if version::is_exact(iv) {
        IntervalModel { lower: iv.lower, upper: iv.lower }
    } else {
        iv
    }
}

proof fn lemma_take_contains(s: Seq<char>, a: int, b: int)
    requires
        0 <= a <= b <= s.len(),
    ensures
        forall|c: char| #[trigger] s.subrange(a, b).contains(c) ==> s.contains(c),
{
    let t = s.subrange(a, b);
    assert forall|c: char| #[trigger] t.contains(c) implies s.contains(c) by {
        let i = choose|i: int| 0 <= i < t.len() && t[i] == c;
        assert(s[a + i] == c);
    }
}

proof fn lemma_first_readable(s: Seq<char>)
    requires
        version::first_interval(s) is Ok,
    ensures
        readable(version::first_interval(s)->Ok_0.0),
{
    let close = version::close_from(s, 0);
    version::lemma_close_from(s, 0);
    let inner = s.subrange(1, close);
    assert(!inner.contains(']') && !inner.contains(')')) by {
        if inner.contains(']') {
            let i = choose|i: int| 0 <= i < inner.len() && inner[i] == ']';
            assert(s[i + 1] == ']');
        }
        if inner.contains(')') {
            let i = choose|i: int| 0 <= i < inner.len() && inner[i] == ')';
            assert(s[i + 1] == ')');
        }
    }
    let comma = text::find_from(inner, ',', 0);
    text::lemma_find_from(inner, ',', 0);
    let iv = version::first_interval(s)->Ok_0.0;
    if comma < inner.len() {
        let lo = inner.take(comma);
        let hi = inner.skip(comma + 1);
        lemma_trim_facts(lo);
        lemma_trim_facts(hi);
        lemma_take_contains(inner, 0, comma);
        lemma_take_contains(inner, comma + 1, inner.len() as int);
        assert(inner.subrange(0, comma) =~= lo);
        assert(inner.subrange(comma + 1, inner.len() as int) =~= hi);
        if text::trim_of(lo).contains(',') {
            assert(lo.contains(','));
            let i = choose|i: int| 0 <= i < lo.len() && lo[i] == ',';
            assert(inner[i] == ',');
        }
    } else {
        lemma_trim_facts(inner);
        let t = text::trim_of(inner);
        if t.contains(',') {
            assert(inner.contains(','));
            let i = choose|i: int| 0 <= i < inner.len() && inner[i] == ',';
            assert(false);
        }
        version_equals_itself(t);
        assert(version::is_exact(iv));
    }
}

proof fn lemma_intervals_readable(s: Seq<char>)
    requires
        version::intervals_of(s) is Ok,
    ensures
        forall|i: int|
            0 <= i < version::intervals_of(s)->Ok_0.len() ==> readable(
                #[trigger] version::intervals_of(s)->Ok_0[i],
            ),
    decreases s.len(),
{
    version::lemma_skip_commas(s);
    let t = text::trim_of(version::skip_commas(s));
    text::lemma_trim_len(version::skip_commas(s));
    if t.len() > 0 {
        version::lemma_close_from(t, 0);
        lemma_first_readable(t);
        let (iv, remaining) = version::first_interval(t)->Ok_0;
        text::lemma_trim_len(remaining);
        lemma_intervals_readable(text::trim_of(remaining));
        let rest = version::intervals_of(text::trim_of(remaining))->Ok_0;
        let all = version::intervals_of(s)->Ok_0;
        assert forall|i: int| 0 <= i < all.len() implies readable(#[trigger] all[i]) by {
            if i > 0 {
                assert(all[i] == rest[i - 1]);
            }
        }
    }
}

proof fn lemma_read_interval_text(iv: IntervalModel, rest: Seq<char>)
    requires
        readable(iv),
    ensures
        version::first_interval(version::interval_text(iv) + rest) == Ok::<
            (IntervalModel, Seq<char>),
            Seq<char>,
        >((respelled(iv), rest)),
{
    let inner = version::inner_text(iv);
    let s = version::interval_text(iv) + rest;
    let n = inner.len() as int;
    let lo = version::bound_text(iv.lower);
    let hi = version::bound_text(iv.upper);
    assert(s[0] == version::open_bracket(iv));
    assert(s[n + 1] == version::close_bracket(iv));
    assert(s.subrange(1, n + 1) =~= inner);
    assert(s.skip(n + 2) =~= rest);
    assert forall|i: int| 0 <= i < n implies inner[i] != ']' && inner[i] != ')' by {
        if version::is_exact(iv) || i < lo.len() {
            assert(inner[i] == lo[i]);
            assert(lo.contains(inner[i]));
        } else if i > lo.len() {
            assert(inner[i] == hi[i - lo.len() - 1]);
            assert(hi.contains(inner[i]));
        }
    }
    version::lemma_close_from(s, 0);
    let close = version::close_from(s, 0);
    if close < n + 1 {
        if close > 0 {
            assert(s[close] == inner[close - 1]);
        }
        assert(false);
    }
    assert(close == n + 1);
    text::lemma_find_from(inner, ',', 0);
    let comma = text::find_from(inner, ',', 0);
    if version::is_exact(iv) {
        if comma < inner.len() {
            assert(lo.contains(inner[comma]));
        }
        lemma_trimmed_same(inner);
    } else {
        assert(inner[lo.len() as int] == ',');
        if comma < lo.len() {
            assert(inner[comma] == lo[comma]);
            assert(lo.contains(','));
        }
        assert(comma == lo.len());
        assert(inner.take(comma) =~= lo);
        assert(inner.skip(comma + 1) =~= hi);
        lemma_trimmed_same(lo);
        lemma_trimmed_same(hi);
    }
}

proof fn lemma_range_text_ends(range: Seq<IntervalModel>)
    requires
        range.len() > 0,
    ensures
        version::range_text(range).len() >= 2,
        version::range_text(range)[0] == version::open_bracket(range[0]),
        version::range_text(range).last() == ']' || version::range_text(range).last() == ')',
    decreases range.len(),
{
    let first = version::interval_text(range[0]);
    assert(first.last() == version::close_bracket(range[0]));
    if range.len() > 1 {
        lemma_range_text_ends(range.skip(1));
        let more = version::range_text(range.skip(1));
        assert((first + seq![','] + more).last() == more.last());
    }
}

proof fn lemma_read_range_text(range: Seq<IntervalModel>)
    requires
        forall|i: int| 0 <= i < range.len() ==> readable(#[trigger] range[i]),
        range.len() > 0,
    ensures
        version::intervals_of(version::range_text(range)) == Ok::<Seq<IntervalModel>, Seq<char>>(
            range.map_values(|iv: IntervalModel| respelled(iv)),
        ),
        version::intervals_of(seq![','] + version::range_text(range)) == Ok::<
            Seq<IntervalModel>,
            Seq<char>,
        >(range.map_values(|iv: IntervalModel| respelled(iv))),
        text::trim_of(seq![','] + version::range_text(range)) == seq![','] + version::range_text(
            range,
        ),
        text::trim_of(version::range_text(range)) == version::range_text(range),
    decreases range.len(),
{
    let s = version::range_text(range);
    let expected = range.map_values(|iv: IntervalModel| respelled(iv));
    lemma_range_text_ends(range);
    assert(!text::is_white('[') && !text::is_white('(') && !text::is_white(']')
        && !text::is_white(')') && !text::is_white(','));
    lemma_trimmed_same(s);
    let commaed = seq![','] + s;
    assert(commaed.last() == s.last());
    lemma_trimmed_same(commaed);
    assert(version::skip_commas(s) == s);
    assert(commaed.skip(1) =~= s);
    assert(version::skip_commas(commaed) == s);
    let rest = if range.len() == 1 {
        Seq::<char>::empty()
    } else {
        seq![','] + version::range_text(range.skip(1))
    };
    assert(s =~= version::interval_text(range[0]) + rest);
    lemma_read_interval_text(range[0], rest);
    if range.len() == 1 {
        assert(text::trim_of(rest) =~= Seq::empty());
        assert(version::intervals_of(Seq::<char>::empty()) == Ok::<
            Seq<IntervalModel>,
            Seq<char>,
        >(Seq::empty())) by {
            lemma_trimmed_same(Seq::<char>::empty());
        }
        assert(seq![respelled(range[0])] + Seq::<IntervalModel>::empty() =~= expected);
    } else {
        assert forall|i: int| 0 <= i < range.skip(1).len() implies readable(
            #[trigger] range.skip(1)[i],
        ) by {
            assert(range.skip(1)[i] == range[i + 1]);
        }
        lemma_read_range_text(range.skip(1));
        assert(seq![respelled(range[0])] + range.skip(1).map_values(
            |iv: IntervalModel| respelled(iv),
        ) =~= expected);
    }
}

proof fn lemma_respelled_holds(iv: IntervalModel, v: Seq<char>)
    ensures
        version::interval_holds(respelled(iv), v) == version::interval_holds(iv, v),
{
    if version::is_exact(iv) {
        let lo = iv.lower.version->0;
        let hi = iv.upper.version->0;
        equal_versions_compare_alike(lo, hi, v);
    }
}

/// The text of a range that was read stands for a range with the same versions.
pub proof fn ranges_are_read_back(s: Seq<char>)
    requires
        version::range_of(s) is Ok,
    ensures
        version::range_of(version::range_text(version::range_of(s)->Ok_0)) is Ok,
        forall|v: Seq<char>|
            version::range_holds(
                version::range_of(version::range_text(version::range_of(s)->Ok_0))->Ok_0,
                v,
            ) == version::range_holds(version::range_of(s)->Ok_0, v),
{
    let range = version::range_of(s)->Ok_0;
    lemma_intervals_readable(text::trim_of(s));
    lemma_read_range_text(range);
    lemma_range_text_ends(range);
    let again = version::range_of(version::range_text(range))->Ok_0;
    assert(again == range.map_values(|iv: IntervalModel| respelled(iv)));
    assert forall|v: Seq<char>|
        version::range_holds(again, v) == version::range_holds(range, v) by {
        if version::range_holds(range, v) {
            let i = choose|i: int|
                0 <= i < range.len() && version::interval_holds(#[trigger] range[i], v);
            lemma_respelled_holds(range[i], v);
            assert(version::interval_holds(again[i], v));
        }
        if version::range_holds(again, v) {
            let i = choose|i: int|
                0 <= i < again.len() && version::interval_holds(#[trigger] again[i], v);
            lemma_respelled_holds(range[i], v);
            assert(version::interval_holds(range[i], v));
        }
    }
}

/// Two versions are equal, less or greater as values just where their texts are in the order of
/// versions.
pub proof fn values_are_ordered_like_texts(a: Version, b: Version)
    ensures
        ({
            let order = version::version_order(a@, b@);
            let shown = vstd::std_specs::cmp::PartialOrdSpec::partial_cmp_spec(&a, &b);
            &&& vstd::std_specs::cmp::PartialEqSpec::eq_spec(&a, &b) <==> order == Order::Equal
            &&& shown == Some(std::cmp::Ordering::Less) <==> order == Order::Less
            &&& shown == Some(std::cmp::Ordering::Equal) <==> order == Order::Equal
            &&& shown == Some(std::cmp::Ordering::Greater) <==> order == Order::Greater
        }),
{
}

} // verus!
