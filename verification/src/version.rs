//! Maven versions: how a version text is read into items, how versions are ordered, and the
//! ranges and constraints that select among them.
use crate::text;
use crate::text::Order;
use vstd::prelude::*;

verus! {

/// A qualifier as it takes part in the order: a well-known one by its rank, any other by its
/// lower-case text.
#[derive(Debug, Hash)]
enum Qualifier {
    Ranked(u32),
    Other(String),
}

/// A number of any size: its digits, without zeros in front.
#[derive(Debug, Hash)]
struct Number {
    digits: Vec<char>,
}

impl Number {
    #[verifier::type_invariant]
    spec fn inv(self) -> bool {
        &&& forall|i: int| 0 <= i < self.digits@.len() ==> is_digit(#[trigger] self.digits@[i])
        &&& self.digits@.len() > 0 ==> self.digits@[0] != '0'
    }
}

/// One segment of a parsed version.
#[derive(Debug, Hash)]
enum Item {
    Int(Number),
    Str(Qualifier),
    List(Vec<Item>),
}

/// What a qualifier is in the order.
#[verifier::ext_equal]
pub enum QualifierModel {
    Ranked(u32),
    Other(Seq<char>),
}

/// What a segment of a version is in the order: a number, a qualifier, or a list of segments
/// that a hyphen (or a change between digits and letters) opened.
#[verifier::ext_equal]
pub enum ItemModel {
    Int(nat),
    Str(QualifierModel),
    List(Seq<ItemModel>),
}

spec fn qualifier_view(q: Qualifier) -> QualifierModel {
    match q {
        Qualifier::Ranked(r) => QualifierModel::Ranked(r),
        Qualifier::Other(s) => QualifierModel::Other(s@),
    }
}

spec fn item_view(it: Item) -> ItemModel
    decreases it,
{
    match it {
        Item::Int(n) => ItemModel::Int(digits_value(n.digits@)),
        Item::Str(q) => ItemModel::Str(qualifier_view(q)),
        Item::List(l) => ItemModel::List(items_view(l@)),
    }
}

spec fn items_view(l: Seq<Item>) -> Seq<ItemModel>
    decreases l,
{
    if l.len() == 0 {
        Seq::empty()
    } else {
        items_view(l.drop_last()).push(item_view(l.last()))
    }
}

proof fn lemma_items_view(l: Seq<Item>)
    ensures
        items_view(l).len() == l.len(),
        forall|i: int| 0 <= i < l.len() ==> items_view(l)[i] == item_view(#[trigger] l[i]),
    decreases l.len(),
{
    if l.len() > 0 {
        lemma_items_view(l.drop_last());
        assert forall|i: int| 0 <= i < l.len() implies items_view(l)[i] == item_view(
            #[trigger] l[i],
        ) by {
            if i < l.len() - 1 {
                assert(l.drop_last()[i] == l[i]);
            }
        }
    }
}

// ---------------------------------------------------------------------------
// Order
// ---------------------------------------------------------------------------

/// The rank of the release among the qualifiers.
pub const RELEASE_RANK: u32 = 5;

/// The rank of a well-known qualifier: alpha, beta, milestone, release candidate, snapshot,
/// the release itself, service pack.
pub open spec fn rank_of(s: Seq<char>) -> Option<u32> {
    if s == "alpha"@ || s == "a"@ {
        Some(0)
    } else if s == "beta"@ || s == "b"@ {
        Some(1)
    } else if s == "milestone"@ || s == "m"@ {
        Some(2)
    } else if s == "rc"@ || s == "cr"@ {
        Some(3)
    } else if s == "snapshot"@ {
        Some(4)
    } else if s.len() == 0 {
        Some(RELEASE_RANK)
    } else if s == "sp"@ {
        Some(6)
    } else {
        None
    }
}

/// The qualifier that a text stands for.
pub open spec fn qualifier_of(s: Seq<char>) -> QualifierModel {
    match rank_of(text::lower_of(s)) {
        Some(r) => QualifierModel::Ranked(r),
        None => QualifierModel::Other(text::lower_of(s)),
    }
}

/// Well-known qualifiers by rank, before all others, which go by their text.
pub open spec fn qualifier_order(a: QualifierModel, b: QualifierModel) -> Order {
    match (a, b) {
        (QualifierModel::Ranked(x), QualifierModel::Ranked(y)) => text::int_order(
            x as int,
            y as int,
        ),
        (QualifierModel::Ranked(_), QualifierModel::Other(_)) => Order::Less,
        (QualifierModel::Other(_), QualifierModel::Ranked(_)) => Order::Greater,
        (QualifierModel::Other(x), QualifierModel::Other(y)) => text::text_order(x, y),
    }
}

/// How many segments an item holds, itself included.
pub open spec fn item_size(it: ItemModel) -> nat
    decreases it,
{
    match it {
        ItemModel::List(l) => 1 + items_size(l),
        _ => 1,
    }
}

/// How many segments the items of a list hold.
pub open spec fn items_size(l: Seq<ItemModel>) -> nat
    decreases l,
{
    if l.len() == 0 {
        0
    } else {
        item_size(l[0]) + items_size(l.subrange(1, l.len() as int))
    }
}

/// A list without its first item.
pub open spec fn rest(l: Seq<ItemModel>) -> Seq<ItemModel> {
    if l.len() == 0 {
        l
    } else {
        l.subrange(1, l.len() as int)
    }
}

/// How an item stands to what an absent segment means: a qualifier as it stands to the release,
/// a number after it. (Reading keeps a zero only before another number.)
pub open spec fn null_order(it: ItemModel) -> Order
    decreases item_size(it), 0nat,
{
    match it {
        ItemModel::Int(_) => Order::Greater,
        ItemModel::Str(QualifierModel::Ranked(r)) => text::int_order(r as int, RELEASE_RANK as int),
        ItemModel::Str(QualifierModel::Other(_)) => Order::Greater,
        ItemModel::List(l) => null_order_items(l),
    }
}

/// How a list stands to what absent segments mean: as its first item that is not null does.
pub open spec fn null_order_items(l: Seq<ItemModel>) -> Order
    decreases items_size(l), 1nat,
{
    if l.len() == 0 {
        Order::Equal
    } else if null_order(l[0]) != Order::Equal {
        null_order(l[0])
    } else {
        null_order_items(rest(l))
    }
}

/// The order of two segments: numbers by value, a number after a qualifier, lists item by item,
/// and an item beside a list as a list of one.
pub open spec fn item_order(a: ItemModel, b: ItemModel) -> Order
    decreases item_size(a) + item_size(b), 0nat,
{
    proof {
        lemma_size_one(a);
        lemma_size_one(b);
    }
    match (a, b) {
        (ItemModel::Int(x), ItemModel::Int(y)) => text::int_order(x as int, y as int),
        (ItemModel::Int(_), ItemModel::Str(_)) => Order::Greater,
        (ItemModel::Str(_), ItemModel::Int(_)) => Order::Less,
        (ItemModel::Str(x), ItemModel::Str(y)) => qualifier_order(x, y),
        (ItemModel::List(la), ItemModel::List(lb)) => items_order(la, lb),
        (ItemModel::List(la), _) => items_order(la, seq![b]),
        (_, ItemModel::List(lb)) => items_order(seq![a], lb),
    }
}

/// The order of two lists: by the first position at which they differ, the shorter one filled
/// up with null.
pub open spec fn items_order(a: Seq<ItemModel>, b: Seq<ItemModel>) -> Order
    decreases items_size(a) + items_size(b), 1nat,
{
    proof {
        lemma_rest_size(a);
        lemma_rest_size(b);
    }
    if a.len() == 0 && b.len() == 0 {
        Order::Equal
    } else {
        let head = if b.len() == 0 {
            null_order(a[0])
        } else if a.len() == 0 {
            null_order(b[0]).flip()
        } else {
            item_order(a[0], b[0])
        };
        if head != Order::Equal {
            head
        } else {
            items_order(rest(a), rest(b))
        }
    }
}

/// What follows the first item is smaller than the list.
pub proof fn lemma_rest_size(l: Seq<ItemModel>)
    ensures
        l.len() == 0 ==> items_size(rest(l)) == items_size(l),
        l.len() > 0 ==> items_size(rest(l)) < items_size(l),
        l.len() > 0 ==> item_size(l[0]) <= items_size(l),
{
    if l.len() > 0 {
        assert(item_size(l[0]) >= 1);
    }
}

/// A list of one item is as large as the item.
pub proof fn lemma_size_one(it: ItemModel)
    ensures
        items_size(seq![it]) == item_size(it),
{
    let l = seq![it];
    assert(l.subrange(1, l.len() as int).len() == 0);
    assert(items_size(l.subrange(1, l.len() as int)) == 0);
    assert(l[0] == it);
}

fn qualifier_rank(s: &str) -> (r: Option<u32>)
    ensures
        r == rank_of(s@),
{
    if text::str_eq(s, "alpha") || text::str_eq(s, "a") {
        Some(0)
    } else if text::str_eq(s, "beta") || text::str_eq(s, "b") {
        Some(1)
    } else if text::str_eq(s, "milestone") || text::str_eq(s, "m") {
        Some(2)
    } else if text::str_eq(s, "rc") || text::str_eq(s, "cr") {
        Some(3)
    } else if text::str_eq(s, "snapshot") {
        Some(4)
    } else if s.is_empty() {
        Some(RELEASE_RANK)
    } else if text::str_eq(s, "sp") {
        Some(6)
    } else {
        None
    }
}

impl Qualifier {
    fn new(s: &str) -> (r: Qualifier)
        ensures
            qualifier_view(r) == qualifier_of(s@),
    {
        let value = text::to_lower(s);
        match qualifier_rank(value.as_str()) {
            Some(rank) => Qualifier::Ranked(rank),
            None => Qualifier::Other(value),
        }
    }

    fn compare(&self, other: &Qualifier) -> (r: Order)
        ensures
            r == qualifier_order(qualifier_view(*self), qualifier_view(*other)),
    {
        match (self, other) {
            (Qualifier::Ranked(x), Qualifier::Ranked(y)) => compare_u32(*x, *y),
            (Qualifier::Ranked(_), Qualifier::Other(_)) => Order::Less,
            (Qualifier::Other(_), Qualifier::Ranked(_)) => Order::Greater,
            (Qualifier::Other(x), Qualifier::Other(y)) => text::compare_text(
                x.as_str(),
                y.as_str(),
            ),
        }
    }
}

fn compare_u32(a: u32, b: u32) -> (r: Order)
    ensures
        r == text::int_order(a as int, b as int),
{
    if a < b {
        Order::Less
    } else if a == b {
        Order::Equal
    } else {
        Order::Greater
    }
}

/// Whether a text holds digits only.
pub open spec fn all_digits(s: Seq<char>) -> bool {
    forall|i: int| 0 <= i < s.len() ==> is_digit(#[trigger] s[i])
}

/// A number is its last digit and ten times the number before it.
pub proof fn lemma_digits_step(s: Seq<char>)
    requires
        all_digits(s),
        s.len() > 0,
    ensures
        all_digits(s.drop_last()),
        digits_value(s) == digits_value(s.drop_last()) * 10 + (s.last() as int - '0' as int),
        0 <= s.last() as int - '0' as int <= 9,
{
    assert(is_digit(s[s.len() - 1]));
    assert forall|i: int| 0 <= i < s.drop_last().len() implies is_digit(
        #[trigger] s.drop_last()[i],
    ) by {
        assert(is_digit(s[i]));
    }
}

/// A number that does not begin with zero is not zero.
proof fn lemma_digits_positive(s: Seq<char>)
    requires
        all_digits(s),
        s.len() > 0,
        s[0] != '0',
    ensures
        digits_value(s) > 0,
    decreases s.len(),
{
    lemma_digits_step(s);
    if s.len() > 1 {
        lemma_digits_positive(s.drop_last());
    }
}

/// Of two numbers the one with fewer digits is less, where the other does not begin with zero.
pub proof fn lemma_fewer_digits(a: Seq<char>, b: Seq<char>)
    requires
        all_digits(a),
        all_digits(b),
        a.len() < b.len(),
        b[0] != '0',
    ensures
        digits_value(a) < digits_value(b),
    decreases a.len(),
{
    if a.len() == 0 {
        lemma_digits_positive(b);
    } else {
        lemma_digits_step(a);
        lemma_digits_step(b);
        lemma_fewer_digits(a.drop_last(), b.drop_last());
    }
}

/// Of two numbers with the same number of digits the one with the lesser beginning is less.
proof fn lemma_lesser_beginning(a: Seq<char>, b: Seq<char>, k: int)
    requires
        all_digits(a),
        all_digits(b),
        a.len() == b.len(),
        0 <= k <= a.len(),
        digits_value(a.take(k)) < digits_value(b.take(k)),
    ensures
        digits_value(a) < digits_value(b),
    decreases a.len(),
{
    if k == a.len() {
        assert(a.take(k) =~= a);
        assert(b.take(k) =~= b);
    } else {
        lemma_digits_step(a);
        lemma_digits_step(b);
        assert(a.drop_last().take(k) =~= a.take(k));
        assert(b.drop_last().take(k) =~= b.take(k));
        lemma_lesser_beginning(a.drop_last(), b.drop_last(), k);
    }
}

impl Number {
    /// Compares two numbers by value: first by the count of their digits, then digit by digit.
    fn compare(&self, other: &Number) -> (r: Order)
        ensures
            r == text::int_order(
                digits_value(self.digits@) as int,
                digits_value(other.digits@) as int,
            ),
    {
        proof {
            use_type_invariant(self);
            use_type_invariant(other);
        }
        let a = &self.digits;
        let b = &other.digits;
        if a.len() < b.len() {
            proof {
                lemma_fewer_digits(a@, b@);
            }
            return Order::Less;
        }
        if b.len() < a.len() {
            proof {
                lemma_fewer_digits(b@, a@);
            }
            return Order::Greater;
        }
        for i in 0..a.len()
            invariant
                all_digits(a@),
                all_digits(b@),
                a@.len() == b@.len(),
                a == &self.digits,
                b == &other.digits,
                digits_value(a@.take(i as int)) == digits_value(b@.take(i as int)),
        {
            proof {
                let x = a@.take(i + 1);
                let y = b@.take(i + 1);
                assert(x.drop_last() =~= a@.take(i as int));
                assert(y.drop_last() =~= b@.take(i as int));
                assert(all_digits(x)) by {
                    assert forall|j: int| 0 <= j < x.len() implies is_digit(#[trigger] x[j]) by {
                        assert(is_digit(a@[j]));
                    }
                }
                assert(all_digits(y)) by {
                    assert forall|j: int| 0 <= j < y.len() implies is_digit(#[trigger] y[j]) by {
                        assert(is_digit(b@[j]));
                    }
                }
                lemma_digits_step(x);
                lemma_digits_step(y);
            }
            if a[i] < b[i] {
                proof {
                    lemma_lesser_beginning(a@, b@, i + 1);
                }
                return Order::Less;
            }
            if b[i] < a[i] {
                proof {
                    lemma_lesser_beginning(b@, a@, i + 1);
                }
                return Order::Greater;
            }
        }
        proof {
            assert(a@.take(a@.len() as int) =~= a@);
            assert(b@.take(b@.len() as int) =~= b@);
        }
        Order::Equal
    }
}

/// The items of `l` from position `i` on; none where `i` is past the end.
spec fn from(l: Seq<ItemModel>, i: int) -> Seq<ItemModel> {
    if i >= l.len() {
        Seq::empty()
    } else {
        l.subrange(i, l.len() as int)
    }
}

proof fn lemma_from_step(l: Seq<ItemModel>, i: int)
    requires
        0 <= i,
    ensures
        rest(from(l, i)) == from(l, i + 1),
        i < l.len() ==> from(l, i).len() > 0 && from(l, i)[0] == l[i],
        i >= l.len() ==> from(l, i).len() == 0,
        from(l, 0) == l,
{
    assert(from(l, 0) =~= l);
    assert(rest(from(l, i)) =~= from(l, i + 1));
}

proof fn lemma_item_size_at(l: Seq<ItemModel>, i: int)
    requires
        0 <= i < l.len(),
    ensures
        item_size(l[i]) <= items_size(l),
    decreases i,
{
    if i > 0 {
        lemma_item_size_at(rest(l), i - 1);
    }
}

/// Compares an item with what an absent segment means.
fn compare_against_null(item: &Item) -> (r: Order)
    ensures
        r == null_order(item_view(*item)),
    decreases item_size(item_view(*item)),
{
    match item {
        Item::Int(_) => Order::Greater,
        Item::Str(q) => match q {
            Qualifier::Ranked(rank) => compare_u32(*rank, RELEASE_RANK),
            Qualifier::Other(_) => Order::Greater,
        },
        Item::List(items) => {
            let ghost m = items_view(items@);
            proof {
                lemma_items_view(items@);
                lemma_from_step(m, 0);
            }
            for i in 0..items.len()
                invariant
                    m == items_view(items@),
                    item_view(*item) == ItemModel::List(m),
                    items_size(m) < item_size(item_view(*item)),
                    null_order_items(m) == null_order_items(from(m, i as int)),
            {
                proof {
                    lemma_items_view(items@);
                    lemma_from_step(m, i as int);
                    lemma_item_size_at(m, i as int);
                }
                let c = compare_against_null(&items[i]);
                if c != Order::Equal {
                    return c;
                }
            }
            Order::Equal
        },
    }
}

/// Compares a list with a list of one item.
fn compare_list_with_one(list: &Vec<Item>, one: &Item) -> (r: Order)
    ensures
        r == items_order(items_view(list@), seq![item_view(*one)]),
    decreases items_size(items_view(list@)) + item_size(item_view(*one)), 1nat,
{
    let ghost m = items_view(list@);
    let ghost o = seq![item_view(*one)];
    proof {
        lemma_items_view(list@);
        lemma_from_step(m, 0);
        lemma_size_one(item_view(*one));
        assert(rest(o) =~= Seq::empty());
    }
    if list.len() == 0 {
        let c = compare_against_null(one).reverse();
        proof {
            assert(rest(m) =~= Seq::empty());
            assert(items_order(rest(m), rest(o)) == Order::Equal);
        }
        return c;
    }
    proof {
        lemma_item_size_at(m, 0);
    }
    let c = compare_item(&list[0], one);
    if c != Order::Equal {
        return c;
    }
    proof {
        lemma_from_step(m, 0);
    }
    for i in 1..list.len()
        invariant
            m == items_view(list@),
            o == seq![item_view(*one)],
            items_order(m, o) == items_order(from(m, i as int), Seq::empty()),
    {
        proof {
            lemma_items_view(list@);
            lemma_from_step(m, i as int);
            assert(rest(Seq::<ItemModel>::empty()) =~= Seq::empty());
        }
        let c = compare_against_null(&list[i]);
        if c != Order::Equal {
            return c;
        }
    }
    Order::Equal
}

/// Compares two segments.
fn compare_item(a: &Item, b: &Item) -> (r: Order)
    ensures
        r == item_order(item_view(*a), item_view(*b)),
    decreases item_size(item_view(*a)) + item_size(item_view(*b)), 0nat,
{
    match (a, b) {
        (Item::Int(x), Item::Int(y)) => x.compare(y),
        (Item::Int(_), Item::Str(_)) => Order::Greater,
        (Item::Str(_), Item::Int(_)) => Order::Less,
        (Item::Str(x), Item::Str(y)) => x.compare(y),
        (Item::List(la), Item::List(lb)) => compare_item_lists(la, lb),
        (Item::List(la), _) => compare_list_with_one(la, b),
        (_, Item::List(lb)) => {
            proof {
                lemma_items_flip(items_view(lb@), seq![item_view(*a)]);
            }
            compare_list_with_one(lb, a).reverse()
        },
    }
}

/// Compares two lists of segments.
fn compare_item_lists(a: &Vec<Item>, b: &Vec<Item>) -> (r: Order)
    ensures
        r == items_order(items_view(a@), items_view(b@)),
    decreases items_size(items_view(a@)) + items_size(items_view(b@)), 1nat,
{
    let ghost ma = items_view(a@);
    let ghost mb = items_view(b@);
    let len: usize = if a.len() > b.len() {
        a.len()
    } else {
        b.len()
    };
    proof {
        lemma_from_step(ma, 0);
        lemma_from_step(mb, 0);
    }
    for i in 0..len
        invariant
            ma == items_view(a@),
            mb == items_view(b@),
            len == if a.len() > b.len() { a.len() } else { b.len() },
            items_order(ma, mb) == items_order(from(ma, i as int), from(mb, i as int)),
    {
        proof {
            lemma_items_view(a@);
            lemma_items_view(b@);
            lemma_from_step(ma, i as int);
            lemma_from_step(mb, i as int);
            if i < a@.len() {
                lemma_item_size_at(ma, i as int);
            }
            if i < b@.len() {
                lemma_item_size_at(mb, i as int);
            }
        }
        let c = if i >= b.len() {
            compare_against_null(&a[i])
        } else if i >= a.len() {
            compare_against_null(&b[i]).reverse()
        } else {
            compare_item(&a[i], &b[i])
        };
        if c != Order::Equal {
            return c;
        }
    }
    proof {
        lemma_items_view(a@);
        lemma_items_view(b@);
        lemma_from_step(ma, len as int);
        lemma_from_step(mb, len as int);
    }
    Order::Equal
}

/// Swapping two segments flips their order.
pub proof fn lemma_item_flip(a: ItemModel, b: ItemModel)
    ensures
        item_order(b, a) == item_order(a, b).flip(),
    decreases item_size(a) + item_size(b), 0nat,
{
    lemma_size_one(a);
    lemma_size_one(b);
    match (a, b) {
        (ItemModel::Str(QualifierModel::Other(x)), ItemModel::Str(QualifierModel::Other(y))) => {
            text::lemma_text_order_flip(x, y);
        },
        (ItemModel::List(la), ItemModel::List(lb)) => lemma_items_flip(la, lb),
        (ItemModel::List(la), _) => lemma_items_flip(la, seq![b]),
        (_, ItemModel::List(lb)) => lemma_items_flip(seq![a], lb),
        _ => {},
    }
}

/// Swapping two lists flips their order.
pub proof fn lemma_items_flip(a: Seq<ItemModel>, b: Seq<ItemModel>)
    ensures
        items_order(b, a) == items_order(a, b).flip(),
    decreases items_size(a) + items_size(b), 1nat,
{
    lemma_rest_size(a);
    lemma_rest_size(b);
    if a.len() > 0 || b.len() > 0 {
        if a.len() > 0 && b.len() > 0 {
            lemma_item_flip(a[0], b[0]);
        }
        lemma_items_flip(rest(a), rest(b));
    }
}

// ---------------------------------------------------------------------------
// Reading
// ---------------------------------------------------------------------------

/// An ASCII digit.
pub open spec fn is_digit(c: char) -> bool {
    '0' <= c <= '9'
}

/// A character that ends a segment.
pub open spec fn is_separator(c: char) -> bool {
    c == '.' || c == '-'
}

/// Where the run of digits (or of other characters) that reaches position `i` ends.
pub open spec fn run_from(s: Seq<char>, i: int, digits: bool) -> int
    decreases s.len() - i,
{
    if i >= s.len() {
        s.len() as int
    } else if is_separator(s[i]) || is_digit(s[i]) != digits {
        i
    } else {
        run_from(s, i + 1, digits)
    }
}

/// The length of the run that `s` begins with; none where `s` begins with a separator.
pub open spec fn run_len(s: Seq<char>) -> int {
    if s.len() == 0 || is_separator(s[0]) {
        0
    } else {
        run_from(s, 1, is_digit(s[0]))
    }
}

/// The value of a run of digits.
pub open spec fn digits_value(s: Seq<char>) -> nat
    decreases s.len(),
{
    if s.len() == 0 {
        0
    } else {
        (digits_value(s.drop_last()) * 10 + (s.last() as int - '0' as int)) as nat
    }
}

/// The segment that a run stands for.
pub open spec fn segment_of(run: Seq<char>) -> ItemModel {
    if run.len() > 0 && is_digit(run[0]) {
        ItemModel::Int(digits_value(run))
    } else {
        ItemModel::Str(qualifier_of(run))
    }
}

/// Whether a segment is null: zero, or the release.
pub open spec fn is_null(it: ItemModel) -> bool {
    match it {
        ItemModel::Int(n) => n == 0,
        ItemModel::Str(q) => q == QualifierModel::Ranked(RELEASE_RANK),
        ItemModel::List(_) => false,
    }
}

/// Whether an item begins with a number.
pub open spec fn leads_numeric(it: ItemModel) -> bool
    decreases it,
{
    match it {
        ItemModel::Int(_) => true,
        ItemModel::Str(_) => false,
        ItemModel::List(l) => l.len() > 0 && leads_numeric(l[0]),
    }
}

/// A segment before the items that follow it. A null segment counts only before a number: it is
/// left out at the end of a level and before a qualifier.
pub open spec fn joined(head: ItemModel, rest: Seq<ItemModel>) -> Seq<ItemModel> {
    if is_null(head) && !(rest.len() > 0 && leads_numeric(rest[0])) {
        rest
    } else {
        seq![head] + rest
    }
}

/// A list as one item: a list of one item is that item.
pub open spec fn as_item(l: Seq<ItemModel>) -> ItemModel {
    if l.len() == 1 {
        l[0]
    } else {
        ItemModel::List(l)
    }
}

/// A level as the last item of the level around it; an empty one is none.
pub open spec fn wrapped(l: Seq<ItemModel>) -> Seq<ItemModel> {
    if l.len() == 0 {
        l
    } else {
        seq![as_item(l)]
    }
}

/// The items of one level. Dots separate the items of a level. A hyphen, and a change between
/// digits and other characters, open a list that holds the rest.
pub open spec fn level_of(s: Seq<char>) -> Seq<ItemModel>
    decreases s.len(),
{
    proof {
        lemma_run_len(s);
    }
    let n = run_len(s);
    let head = segment_of(s.take(n));
    let tail = s.skip(n);
    if tail.len() == 0 {
        joined(head, Seq::empty())
    } else if tail[0] == '.' {
        joined(head, level_of(tail.skip(1)))
    } else if tail[0] == '-' {
        joined(head, wrapped(level_of(tail.skip(1))))
    } else {
        joined(head, wrapped(level_of(tail)))
    }
}

/// The items of a version text.
pub open spec fn items_of(s: Seq<char>) -> Seq<ItemModel> {
    level_of(text::trim_of(s))
}

/// The order of two version texts.
pub open spec fn version_order(a: Seq<char>, b: Seq<char>) -> Order {
    items_order(items_of(a), items_of(b))
}

/// A run lies within the text, and is empty only before a separator or at the end.
pub proof fn lemma_run_len(s: Seq<char>)
    ensures
        0 <= run_len(s) <= s.len(),
        s.len() > 0 && !is_separator(s[0]) ==> run_len(s) >= 1,
{
    if s.len() > 0 && !is_separator(s[0]) {
        lemma_run_from(s, 1, is_digit(s[0]));
    }
}

/// A run that begins with a digit holds only digits.
pub proof fn lemma_run_digits(s: Seq<char>)
    ensures
        s.len() > 0 && is_digit(s[0]) ==> forall|j: int|
            0 <= j < run_len(s) ==> is_digit(#[trigger] s[j]),
{
    if s.len() > 0 && is_digit(s[0]) {
        lemma_run_from(s, 1, true);
    }
}

proof fn lemma_run_from(s: Seq<char>, i: int, digits: bool)
    requires
        0 <= i <= s.len(),
    ensures
        i <= run_from(s, i, digits) <= s.len(),
        forall|j: int|
            i <= j < run_from(s, i, digits) ==> !is_separator(s[j]) && is_digit(s[j]) == digits,
    decreases s.len() - i,
{
    if i < s.len() && !is_separator(s[i]) && is_digit(s[i]) == digits {
        lemma_run_from(s, i + 1, digits);
    }
}

proof fn lemma_run_from_skip(s: Seq<char>, k: int, i: int, digits: bool)
    requires
        0 <= k <= i <= s.len(),
    ensures
        run_from(s, i, digits) == run_from(s.skip(k), i - k, digits) + k,
    decreases s.len() - i,
{
    if i < s.len() {
        lemma_run_from_skip(s, k, i + 1, digits);
    }
}

/// A zero in front of a number does not matter.
proof fn lemma_leading_zero(s: Seq<char>)
    requires
        s.len() > 0,
        s[0] == '0',
        all_digits(s),
    ensures
        digits_value(s) == digits_value(s.skip(1)),
    decreases s.len(),
{
    lemma_digits_step(s);
    if s.len() > 1 {
        lemma_leading_zero(s.drop_last());
        assert(s.skip(1).drop_last() =~= s.drop_last().skip(1));
        assert(s.skip(1).last() == s.last());
    } else {
        assert(s.drop_last() =~= Seq::empty());
        assert(s.skip(1) =~= Seq::empty());
    }
}

fn is_digit_char(c: char) -> (r: bool)
    ensures
        r == is_digit(c),
{
    '0' <= c && c <= '9'
}

/// The segment in `chars[from..to]`, a run.
fn read_segment(chars: &Vec<char>, from: usize, to: usize) -> (r: Item)
    requires
        from <= to <= chars@.len(),
        to > from && is_digit(chars@[from as int]) ==> forall|j: int|
            from <= j < to ==> is_digit(#[trigger] chars@[j]),
    ensures
        item_view(r) == segment_of(chars@.subrange(from as int, to as int)),
{
    if from < to && is_digit_char(chars[from]) {
        let ghost run = chars@.subrange(from as int, to as int);
        let mut i: usize = from;
        while i < to && chars[i] == '0'
            invariant
                from <= i <= to <= chars@.len(),
                run == chars@.subrange(from as int, to as int),
                forall|j: int| from <= j < to ==> is_digit(#[trigger] chars@[j]),
                digits_value(chars@.subrange(i as int, to as int)) == digits_value(run),
            decreases to - i,
        {
            proof {
                let rest = chars@.subrange(i as int, to as int);
                assert forall|j: int| 0 <= j < rest.len() implies is_digit(#[trigger] rest[j]) by {
                    assert(is_digit(chars@[i + j]));
                }
                lemma_leading_zero(rest);
                assert(rest.skip(1) =~= chars@.subrange(i + 1, to as int));
            }
            i += 1;
        }
        let ghost rest = chars@.subrange(i as int, to as int);
        let mut digits: Vec<char> = Vec::new();
        for j in i..to
            invariant
                from <= i <= to <= chars@.len(),
                digits@.len() == j - i,
                forall|k: int| 0 <= k < digits@.len() ==> #[trigger] digits@[k] == chars@[i + k],
        {
            digits.push(chars[j]);
        }
        proof {
            assert(digits@ =~= rest);
            assert forall|k: int| 0 <= k < digits@.len() implies is_digit(#[trigger] digits@[k]) by {
                assert(is_digit(chars@[i + k]));
            }
        }
        Item::Int(Number { digits })
    } else {
        let piece = text::string_of(chars, from, to);
        Item::Str(Qualifier::new(piece.as_str()))
    }
}

fn is_null_item(item: &Item) -> (r: bool)
    ensures
        r == is_null(item_view(*item)),
{
    match item {
        Item::Int(n) => {
            proof {
                use_type_invariant(n);
                if n.digits@.len() > 0 {
                    lemma_digits_positive(n.digits@);
                }
            }
            n.digits.len() == 0
        },
        Item::Str(Qualifier::Ranked(rank)) => *rank == RELEASE_RANK,
        Item::Str(Qualifier::Other(_)) => false,
        Item::List(_) => false,
    }
}

fn begins_with_number(item: &Item) -> (r: bool)
    ensures
        r == leads_numeric(item_view(*item)),
    decreases item_size(item_view(*item)),
{
    match item {
        Item::Int(_) => true,
        Item::Str(_) => false,
        Item::List(l) => {
            proof {
                lemma_items_view(l@);
                if l@.len() > 0 {
                    lemma_item_size_at(items_view(l@), 0);
                }
            }
            l.len() > 0 && begins_with_number(&l[0])
        },
    }
}

/// Puts a segment before the items that follow it.
fn join(head: Item, rest: Vec<Item>) -> (r: Vec<Item>)
    ensures
        items_view(r@) == joined(item_view(head), items_view(rest@)),
{
    let mut rest = rest;
    proof {
        lemma_items_view(rest@);
    }
    if is_null_item(&head) && !(rest.len() > 0 && begins_with_number(&rest[0])) {
        return rest;
    }
    let ghost before = rest@;
    let ghost h = item_view(head);
    rest.insert(0, head);
    proof {
        let l = seq![h] + items_view(before);
        lemma_items_view(rest@);
        assert forall|i: int| 0 <= i < l.len() implies items_view(rest@)[i] == #[trigger] l[i] by {
            assert(rest@[i] == if i == 0 {
                head
            } else {
                before[i - 1]
            });
        }
        assert(items_view(rest@) =~= l);
    }
    rest
}

/// A level as the last item of the level around it.
fn wrap(items: Vec<Item>) -> (r: Vec<Item>)
    ensures
        items_view(r@) == wrapped(items_view(items@)),
{
    proof {
        lemma_items_view(items@);
    }
    if items.len() <= 1 {
        assert(items_view(items@).len() == 1 ==> items_view(items@) =~= seq![items_view(items@)[0]]);
        return items;
    }
    let ghost l = items_view(items@);
    let mut r: Vec<Item> = Vec::new();
    r.push(Item::List(items));
    proof {
        lemma_items_view(r@);
        assert(items_view(r@) =~= seq![ItemModel::List(l)]);
    }
    r
}

/// Where the run that begins at `from` ends.
fn find_run_end(chars: &Vec<char>, from: usize) -> (r: usize)
    requires
        from <= chars@.len(),
    ensures
        r == from + run_len(chars@.skip(from as int)),
        from <= r <= chars@.len(),
        r > from && is_digit(chars@[from as int]) ==> forall|j: int|
            from <= j < r ==> is_digit(#[trigger] chars@[j]),
{
    let ghost s = chars@.skip(from as int);
    if from == chars.len() || chars[from] == '.' || chars[from] == '-' {
        return from;
    }
    let digits = is_digit_char(chars[from]);
    let mut i: usize = from + 1;
    while i < chars.len() && chars[i] != '.' && chars[i] != '-' && is_digit_char(chars[i]) == digits
        invariant
            from < i <= chars@.len(),
            digits == is_digit(chars@[from as int]),
            run_from(chars@, from + 1, digits) == run_from(chars@, i as int, digits),
            forall|j: int| from <= j < i ==> is_digit(#[trigger] chars@[j]) == digits,
        decreases chars@.len() - i,
    {
        i += 1;
    }
    proof {
        lemma_run_from_skip(chars@, from as int, from + 1, digits);
        assert(s[0] == chars@[from as int]);
    }
    i
}

/// Segments before the items that follow them, one after the other from the last to the first.
spec fn all_joined(heads: Seq<ItemModel>, rest: Seq<ItemModel>) -> Seq<ItemModel>
    decreases heads.len(),
{
    if heads.len() == 0 {
        rest
    } else {
        all_joined(heads.drop_last(), joined(heads.last(), rest))
    }
}

fn join_all(heads: Vec<Item>, rest: Vec<Item>) -> (r: Vec<Item>)
    ensures
        items_view(r@) == all_joined(items_view(heads@), items_view(rest@)),
{
    let ghost whole = all_joined(items_view(heads@), items_view(rest@));
    let mut heads = heads;
    let mut rest = rest;
    while heads.len() > 0
        invariant
            whole == all_joined(items_view(heads@), items_view(rest@)),
        decreases heads@.len(),
    {
        let ghost before = heads@;
        proof {
            lemma_items_view(before);
        }
        if let Some(head) = heads.pop() {
            proof {
                assert(heads@ =~= before.drop_last());
                lemma_items_view(heads@);
                assert(items_view(before).drop_last() =~= items_view(heads@));
                assert(items_view(before).last() == item_view(head));
            }
            rest = join(head, rest);
        }
    }
    proof {
        lemma_items_view(heads@);
    }
    rest
}

/// The items of the level that begins at `from`.
fn parse_level(chars: &Vec<char>, from: usize) -> (r: Vec<Item>)
    requires
        from <= chars@.len(),
    ensures
        items_view(r@) == level_of(chars@.skip(from as int)),
    decreases chars@.len() - from,
{
    let mut heads: Vec<Item> = Vec::new();
    let mut start: usize = from;
    let ghost whole = level_of(chars@.skip(from as int));
    loop
        invariant
            from <= start <= chars@.len(),
            whole == level_of(chars@.skip(from as int)),
            all_joined(items_view(heads@), level_of(chars@.skip(start as int))) == whole,
        decreases chars@.len() - start,
    {
        let end = find_run_end(chars, start);
        let head = read_segment(chars, start, end);
        let ghost s = chars@.skip(start as int);
        let ghost n = end - start;
        let ghost before = heads@;
        proof {
            lemma_run_len(s);
            assert(s.take(n) =~= chars@.subrange(start as int, end as int));
            assert(s.skip(n) =~= chars@.skip(end as int));
            lemma_items_view(before);
        }
        heads.push(head);
        proof {
            assert(heads@.drop_last() =~= before);
            assert(items_view(heads@).drop_last() =~= items_view(before));
            assert(items_view(heads@).last() == segment_of(s.take(n)));
        }
        if end == chars.len() {
            return join_all(heads, Vec::new());
        }
        if chars[end] == '.' {
            proof {
                assert(s.skip(n).skip(1) =~= chars@.skip(end + 1));
            }
            start = end + 1;
        } else {
            let next: usize = if chars[end] == '-' {
                end + 1
            } else {
                end
            };
            proof {
                assert(s.skip(n).skip(1) =~= chars@.skip(end + 1));
                assert(s[n] == chars@[end as int]);
            }
            let sub = parse_level(chars, next);
            return join_all(heads, wrap(sub));
        }
    }
}

/// The items of a version text.
fn parse_items(version: &str) -> (r: Vec<Item>)
    ensures
        items_view(r@) == items_of(version@),
{
    let v = text::trim(version);
    let chars = text::chars_of(v.as_str());
    assert(chars@.skip(0) =~= chars@);
    parse_level(&chars, 0)
}

// ---------------------------------------------------------------------------
// Version
// ---------------------------------------------------------------------------

/// The text a version was made from. It takes no part in a version's hash: versions that
/// compare equal have the same items and hash alike, however they are spelled.
#[derive(Debug)]
struct Spelling {
    text: String,
}

impl std::hash::Hash for Spelling {
    fn hash<H: std::hash::Hasher>(&self, state: &mut H) {
    }
}

/// A Maven version, parsed and comparable according to Maven's rules. Its view is its text.
#[derive(Debug, Hash)]
pub struct Version {
    original: Spelling,
    items: Vec<Item>,
}

impl View for Version {
    type V = Seq<char>;

    closed spec fn view(&self) -> Seq<char> {
        self.original.text@
    }
}

impl Version {
    /// The items are those of the text.
    #[verifier::type_invariant]
    spec fn inv(self) -> bool {
        items_view(self.items@) == items_of(self.original.text@)
    }

    /// The version that a text stands for.
    pub fn new(s: &str) -> (r: Version)
        ensures
            r@ == s@,
    {
        let items = parse_items(s);
        Version { original: Spelling { text: s.to_owned() }, items }
    }

    /// The text the version was made from.
    pub fn as_str(&self) -> (r: &str)
        ensures
            r@ == self@,
    {
        self.original.text.as_str()
    }

    /// The text the version was made from.
    pub fn to_string(&self) -> (r: String)
        ensures
            r@ == self@,
    {
        self.original.text.clone()
    }

    /// How two versions stand to each other in Maven's order.
    pub fn compare(&self, other: &Version) -> (r: Order)
        ensures
            r == version_order(self@, other@),
    {
        proof {
            use_type_invariant(self);
            use_type_invariant(other);
        }
        compare_item_lists(&self.items, &other.items)
    }
}

impl Clone for Version {
    fn clone(&self) -> (r: Self)
        ensures
            r@ == self@,
    {
        Version::new(self.original.text.as_str())
    }
}

impl std::str::FromStr for Version {
    type Err = String;

    fn from_str(s: &str) -> (r: Result<Self, String>)
        ensures
            r matches Ok(v) && v@ == s@,
    {
        Ok(Version::new(s))
    }
}

impl PartialEq for Version {
    fn eq(&self, other: &Self) -> (r: bool) {
        match self.compare(other) {
            Order::Equal => true,
            _ => false,
        }
    }
}

impl vstd::std_specs::cmp::PartialEqSpecImpl for Version {
    open spec fn obeys_eq_spec() -> bool {
        true
    }

    open spec fn eq_spec(&self, other: &Self) -> bool {
        version_order(self@, other@) == Order::Equal
    }
}

impl Eq for Version {

}

impl PartialOrd for Version {
    fn partial_cmp(&self, other: &Self) -> (r: Option<std::cmp::Ordering>) {
        match self.compare(other) {
            Order::Less => Some(std::cmp::Ordering::Less),
            Order::Equal => Some(std::cmp::Ordering::Equal),
            Order::Greater => Some(std::cmp::Ordering::Greater),
        }
    }
}

impl vstd::std_specs::cmp::PartialOrdSpecImpl for Version {
    open spec fn obeys_partial_cmp_spec() -> bool {
        true
    }

    open spec fn partial_cmp_spec(&self, other: &Self) -> Option<std::cmp::Ordering> {
        match version_order(self@, other@) {
            Order::Less => Some(std::cmp::Ordering::Less),
            Order::Equal => Some(std::cmp::Ordering::Equal),
            Order::Greater => Some(std::cmp::Ordering::Greater),
        }
    }
}

// ---------------------------------------------------------------------------
// Ranges
// ---------------------------------------------------------------------------

/// One end of an interval.
#[derive(Debug)]
struct Bound {
    version: Option<Version>,
    inclusive: bool,
}

/// A contiguous range of versions such as `[1.0,2.0)`.
#[derive(Debug)]
struct Interval {
    lower: Bound,
    upper: Bound,
}

/// A Maven version range expression, possibly a union of intervals.
///
/// Examples: `[1.0,2.0)`, `(,1.0],[1.2,)`, `[1.0]`
#[derive(Debug)]
pub struct VersionRange {
    intervals: Vec<Interval>,
}

/// One end of an interval: the version it stops at, if any, and whether that belongs to it.
#[verifier::ext_equal]
pub struct BoundModel {
    pub version: Option<Seq<char>>,
    pub inclusive: bool,
}

/// A contiguous range of versions.
#[verifier::ext_equal]
pub struct IntervalModel {
    pub lower: BoundModel,
    pub upper: BoundModel,
}

impl View for Bound {
    type V = BoundModel;

    closed spec fn view(&self) -> BoundModel {
        BoundModel { version: text::opt_view(self.version), inclusive: self.inclusive }
    }
}

impl View for Interval {
    type V = IntervalModel;

    closed spec fn view(&self) -> IntervalModel {
        IntervalModel { lower: self.lower@, upper: self.upper@ }
    }
}

impl View for VersionRange {
    type V = Seq<IntervalModel>;

    closed spec fn view(&self) -> Seq<IntervalModel> {
        text::views(self.intervals@)
    }
}

/// Whether a version lies in an interval.
pub open spec fn interval_holds(iv: IntervalModel, v: Seq<char>) -> bool {
    &&& match iv.lower.version {
        Some(lo) => version_order(v, lo) == Order::Greater || (iv.lower.inclusive && version_order(
            v,
            lo,
        ) == Order::Equal),
        None => true,
    }
    &&& match iv.upper.version {
        Some(hi) => version_order(v, hi) == Order::Less || (iv.upper.inclusive && version_order(
            v,
            hi,
        ) == Order::Equal),
        None => true,
    }
}

/// Whether a version lies in one of the intervals.
pub open spec fn range_holds(range: Seq<IntervalModel>, v: Seq<char>) -> bool {
    exists|i: int| 0 <= i < range.len() && interval_holds(#[trigger] range[i], v)
}

/// The position of the first closing bracket at or after `from`, or the length of `s`.
pub open spec fn close_from(s: Seq<char>, from: int) -> int
    decreases s.len() - from,
{
    if from >= s.len() {
        s.len() as int
    } else if s[from] == ']' || s[from] == ')' {
        from
    } else {
        close_from(s, from + 1)
    }
}

/// The version in a bound; an empty text is no bound.
pub open spec fn bound_version(s: Seq<char>) -> Option<Seq<char>> {
    let t = text::trim_of(s);
    if t.len() == 0 {
        None
    } else {
        Some(t)
    }
}

/// The interval between an opening and a closing bracket.
pub open spec fn interval_between(
    lower_inclusive: bool,
    inner: Seq<char>,
    upper_inclusive: bool,
) -> IntervalModel {
    let comma = text::find_from(inner, ',', 0);
    if comma < inner.len() {
        IntervalModel {
            lower: BoundModel {
                version: bound_version(inner.take(comma)),
                inclusive: lower_inclusive,
            },
            upper: BoundModel {
                version: bound_version(inner.skip(comma + 1)),
                inclusive: upper_inclusive,
            },
        }
    } else {
        let exact = BoundModel { version: Some(text::trim_of(inner)), inclusive: true };
        IntervalModel { lower: exact, upper: exact }
    }
}

/// The interval that `s` begins with and the text that follows it, or what is wrong with `s`.
pub open spec fn first_interval(s: Seq<char>) -> Result<(IntervalModel, Seq<char>), Seq<char>> {
    let close = close_from(s, 0);
    if s.len() == 0 || (s[0] != '[' && s[0] != '(') {
        Err("expected '[' or '(' at start of interval, got: "@ + s)
    } else if close >= s.len() {
        Err("missing closing bracket in '"@ + s + "'"@)
    } else {
        Ok(
            (
                interval_between(s[0] == '[', s.subrange(1, close), s[close] == ']'),
                s.skip(close + 1),
            ),
        )
    }
}

/// `s` without the commas it begins with.
pub open spec fn skip_commas(s: Seq<char>) -> Seq<char>
    decreases s.len(),
{
    if s.len() > 0 && s[0] == ',' {
        skip_commas(s.skip(1))
    } else {
        s
    }
}

/// The intervals of a list that commas separate, or what is wrong with the first bad one.
pub open spec fn intervals_of(s: Seq<char>) -> Result<Seq<IntervalModel>, Seq<char>>
    decreases s.len(),
{
    proof {
        lemma_skip_commas(s);
        text::lemma_trim_len(skip_commas(s));
        lemma_close_from(text::trim_of(skip_commas(s)), 0);
        text::lemma_trim_len(
            text::trim_of(skip_commas(s)).skip(
                close_from(text::trim_of(skip_commas(s)), 0) + 1,
            ),
        );
    }
    let t = text::trim_of(skip_commas(s));
    if t.len() == 0 {
        Ok(Seq::empty())
    } else {
        match first_interval(t) {
            Err(e) => Err(e),
            Ok((iv, remaining)) => match intervals_of(text::trim_of(remaining)) {
                Err(e) => Err(e),
                Ok(ivs) => Ok(seq![iv] + ivs),
            },
        }
    }
}

/// The range that a text stands for, or what is wrong with it.
pub open spec fn range_of(s: Seq<char>) -> Result<Seq<IntervalModel>, Seq<char>> {
    let t = text::trim_of(s);
    if t.len() == 0 {
        Err("empty range expression"@)
    } else {
        match intervals_of(t) {
            Err(e) => Err(e),
            Ok(ivs) => if ivs.len() == 0 {
                Err("no intervals found in '"@ + t + "'"@)
            } else {
                Ok(ivs)
            },
        }
    }
}

/// `close_from` is the least position that holds a closing bracket.
pub proof fn lemma_close_from(s: Seq<char>, from: int)
    requires
        0 <= from <= s.len(),
    ensures
        from <= close_from(s, from) <= s.len(),
        forall|i: int| from <= i < close_from(s, from) ==> s[i] != ']' && s[i] != ')',
        close_from(s, from) < s.len() ==> s[close_from(s, from)] == ']' || s[close_from(s, from)]
            == ')',
    decreases s.len() - from,
{
    if from < s.len() && s[from] != ']' && s[from] != ')' {
        lemma_close_from(s, from + 1);
    }
}

/// Skipping commas does not lengthen a text.
pub proof fn lemma_skip_commas(s: Seq<char>)
    ensures
        skip_commas(s).len() <= s.len(),
    decreases s.len(),
{
    if s.len() > 0 && s[0] == ',' {
        lemma_skip_commas(s.skip(1));
    }
}

impl Interval {
    fn contains(&self, v: &Version) -> (r: bool)
        ensures
            r == interval_holds(self@, v@),
    {
        if let Some(lo) = &self.lower.version {
            match v.compare(lo) {
                Order::Less => {
                    return false;
                },
                Order::Equal => {
                    if !self.lower.inclusive {
                        return false;
                    }
                },
                Order::Greater => {},
            }
        }
        if let Some(hi) = &self.upper.version {
            match v.compare(hi) {
                Order::Less => {},
                Order::Equal => {
                    if !self.upper.inclusive {
                        return false;
                    }
                },
                Order::Greater => {
                    return false;
                },
            }
        }
        true
    }
}

fn parse_bound(s: &str) -> (r: Option<Version>)
    ensures
        text::opt_view(r) == bound_version(s@),
{
    let t = text::trim(s);
    if t.as_str().is_empty() {
        None
    } else {
        Some(Version::new(t.as_str()))
    }
}

/// Reads the interval that a text begins with. White space around the text does not count.
fn parse_single_interval(s: &str) -> (r: Result<(Interval, String), String>)
    ensures
        match r {
            Ok((iv, remaining)) => first_interval(text::trim_of(s@)) == Ok::<
                (IntervalModel, Seq<char>),
                Seq<char>,
            >((iv@, remaining@)),
            Err(e) => first_interval(text::trim_of(s@)) == Err::<
                (IntervalModel, Seq<char>),
                Seq<char>,
            >(e@),
        },
{
    let trimmed = text::trim(s);
    let s = trimmed.as_str();
    let chars = text::chars_of(s);
    if chars.len() == 0 || (chars[0] != '[' && chars[0] != '(') {
        let mut e = "expected '[' or '(' at start of interval, got: ".to_owned();
        e.append(s);
        return Err(e);
    }
    let lower_inclusive = chars[0] == '[';
    let mut close: usize = 0;
    while close < chars.len() && chars[close] != ']' && chars[close] != ')'
        invariant
            close <= chars@.len(),
            close_from(chars@, 0) == close_from(chars@, close as int),
        decreases chars@.len() - close,
    {
        close += 1;
    }
    if close == chars.len() {
        let mut e = "missing closing bracket in '".to_owned();
        e.append(s);
        e.append("'");
        return Err(e);
    }
    let upper_inclusive = chars[close] == ']';
    let inner = text::string_of(&chars, 1, close);
    let remaining = text::string_of(&chars, close + 1, chars.len());
    let inner_chars = text::chars_of(inner.as_str());
    let comma = text::find_char(&inner_chars, ',', 0);
    assert(remaining@ =~= chars@.skip(close + 1));
    if comma < inner_chars.len() {
        let lo = text::string_of(&inner_chars, 0, comma);
        let hi = text::string_of(&inner_chars, comma + 1, inner_chars.len());
        assert(lo@ =~= inner@.take(comma as int));
        assert(hi@ =~= inner@.skip(comma + 1));
        let lower = Bound { version: parse_bound(lo.as_str()), inclusive: lower_inclusive };
        let upper = Bound { version: parse_bound(hi.as_str()), inclusive: upper_inclusive };
        Ok((Interval { lower, upper }, remaining))
    } else {
        let exact = text::trim(inner.as_str());
        let v = Version::new(exact.as_str());
        let w = v.clone();
        Ok(
            (
                Interval {
                    lower: Bound { version: Some(v), inclusive: true },
                    upper: Bound { version: Some(w), inclusive: true },
                },
                remaining,
            ),
        )
    }
}

fn strip_commas(s: &str) -> (r: String)
    ensures
        r@ == skip_commas(s@),
{
    let chars = text::chars_of(s);
    let mut i: usize = 0;
    assert(chars@.skip(0) =~= chars@);
    while i < chars.len() && chars[i] == ','
        invariant
            i <= chars@.len(),
            skip_commas(chars@) == skip_commas(chars@.skip(i as int)),
        decreases chars@.len() - i,
    {
        assert(chars@.skip(i as int).skip(1) =~= chars@.skip(i + 1));
        i += 1;
    }
    assert(chars@.subrange(i as int, chars@.len() as int) =~= chars@.skip(i as int));
    text::string_of(&chars, i, chars.len())
}

impl VersionRange {
    /// Reads a range expression, the part that uses brackets.
    pub fn parse_range(s: &str) -> (r: Result<VersionRange, String>)
        ensures
            match r {
                Ok(range) => range_of(s@) == Ok::<Seq<IntervalModel>, Seq<char>>(range@),
                Err(e) => range_of(s@) == Err::<Seq<IntervalModel>, Seq<char>>(e@),
            },
    {
        let t = text::trim(s);
        if t.as_str().is_empty() {
            return Err("empty range expression".to_owned());
        }
        let mut intervals: Vec<Interval> = Vec::new();
        let mut rest = t.clone();
        loop
            invariant
                t@ == text::trim_of(s@),
                t@.len() > 0,
                intervals_of(t@) == (match intervals_of(rest@) {
                    Ok(ivs) => Ok::<Seq<IntervalModel>, Seq<char>>(text::views(intervals@) + ivs),
                    Err(e) => Err(e),
                }),
            ensures
                t@ == text::trim_of(s@),
                t@.len() > 0,
                intervals_of(t@) == Ok::<Seq<IntervalModel>, Seq<char>>(text::views(intervals@)),
            decreases rest@.len(),
        {
            let bare = strip_commas(rest.as_str());
            let next = text::trim(bare.as_str());
            if next.as_str().is_empty() {
                assert(text::views(intervals@) + Seq::<IntervalModel>::empty() =~= text::views(
                    intervals@,
                ));
                break;
            }
            proof {
                text::lemma_trim_twice(bare@);
            }
            match parse_single_interval(next.as_str()) {
                Ok((interval, remaining)) => {
                    let ghost before = intervals@;
                    proof {
                        lemma_skip_commas(rest@);
                        text::lemma_trim_len(bare@);
                        lemma_close_from(next@, 0);
                        text::lemma_trim_len(remaining@);
                    }
                    intervals.push(interval);
                    rest = text::trim(remaining.as_str());
                    proof {
                        assert(text::views(intervals@) =~= text::views(before) + seq![interval@]);
                        if let Ok(ivs) = intervals_of(rest@) {
                            assert(text::views(before) + (seq![interval@] + ivs) =~= text::views(
                                intervals@,
                            ) + ivs);
                        }
                    }
                },
                Err(e) => {
                    return Err(e);
                },
            }
        }
        if intervals.len() == 0 {
            let mut e = "no intervals found in '".to_owned();
            e.append(t.as_str());
            e.append("'");
            return Err(e);
        }
        Ok(VersionRange { intervals })
    }

    /// Whether a version lies in the range.
    pub fn contains(&self, v: &Version) -> (r: bool)
        ensures
            r == range_holds(self@, v@),
    {
        for i in 0..self.intervals.len()
            invariant
                forall|j: int| 0 <= j < i ==> !interval_holds(#[trigger] self.intervals@[j]@, v@),
        {
            if self.intervals[i].contains(v) {
                assert(interval_holds(self@[i as int], v@));
                return true;
            }
        }
        assert forall|j: int| 0 <= j < self@.len() implies !interval_holds(
            #[trigger] self@[j],
            v@,
        ) by {
            assert(!interval_holds(self.intervals@[j]@, v@));
        }
        false
    }
}

// ---------------------------------------------------------------------------
// Writing ranges
// ---------------------------------------------------------------------------

/// Whether an interval holds a single version.
pub open spec fn is_exact(iv: IntervalModel) -> bool {
    match (iv.lower.version, iv.upper.version) {
        (Some(lo), Some(hi)) => iv.lower.inclusive && iv.upper.inclusive && version_order(lo, hi)
            == Order::Equal,
        _ => false,
    }
}

/// The text of a bound's version.
pub open spec fn bound_text(b: BoundModel) -> Seq<char> {
    match b.version {
        Some(v) => v,
        None => Seq::empty(),
    }
}

/// The text between the brackets of an interval.
pub open spec fn inner_text(iv: IntervalModel) -> Seq<char> {
    if is_exact(iv) {
        bound_text(iv.lower)
    } else {
        bound_text(iv.lower) + seq![','] + bound_text(iv.upper)
    }
}

/// The opening bracket of an interval.
pub open spec fn open_bracket(iv: IntervalModel) -> char {
    if iv.lower.inclusive {
        '['
    } else {
        '('
    }
}

/// The closing bracket of an interval.
pub open spec fn close_bracket(iv: IntervalModel) -> char {
    if iv.upper.inclusive {
        ']'
    } else {
        ')'
    }
}

/// The text of an interval.
pub open spec fn interval_text(iv: IntervalModel) -> Seq<char> {
    seq![open_bracket(iv)] + inner_text(iv) + seq![close_bracket(iv)]
}

/// The text of a range: its intervals with commas between them.
pub open spec fn range_text(range: Seq<IntervalModel>) -> Seq<char>
    decreases range.len(),
{
    if range.len() == 0 {
        Seq::empty()
    } else if range.len() == 1 {
        interval_text(range[0])
    } else {
        interval_text(range[0]) + seq![','] + range_text(range.skip(1))
    }
}

impl Interval {
    fn is_exact(&self) -> (r: bool)
        ensures
            r == is_exact(self@),
    {
        match (&self.lower.version, &self.upper.version) {
            (Some(lo), Some(hi)) => self.lower.inclusive && self.upper.inclusive && lo.compare(hi)
                == Order::Equal,
            _ => false,
        }
    }

    fn write_to(&self, out: &mut String)
        ensures
            final(out)@ == old(out)@ + interval_text(self@),
    {
        let ghost start = out@;
        if self.lower.inclusive {
            out.push('[');
        } else {
            out.push('(');
        }
        assert(out@ =~= start + seq![open_bracket(self@)]);
        if let Some(lo) = &self.lower.version {
            out.append(lo.as_str());
        }
        assert(out@ =~= start + seq![open_bracket(self@)] + bound_text(self@.lower));
        if !self.is_exact() {
            out.push(',');
            if let Some(hi) = &self.upper.version {
                out.append(hi.as_str());
            }
        }
        assert(out@ =~= start + seq![open_bracket(self@)] + inner_text(self@));
        if self.upper.inclusive {
            out.push(']');
        } else {
            out.push(')');
        }
        assert(out@ =~= start + interval_text(self@));
    }
}

impl VersionRange {
    /// The range as a range expression.
    pub fn to_string(&self) -> (r: String)
        ensures
            r@ == range_text(self@),
    {
        let mut out = String::new();
        let n: usize = self.intervals.len();
        if n == 0 {
            return out;
        }
        let ghost range = self@;
        self.intervals[0].write_to(&mut out);
        assert(out@ =~= interval_text(range[0]));
        for i in 1..n
            invariant
                n == self.intervals@.len(),
                range == self@,
                n > 0,
                range_text(range) == out@ + (if i < n {
                    seq![','] + range_text(range.skip(i as int))
                } else {
                    Seq::empty()
                }),
        {
            let ghost before = out@;
            out.push(',');
            self.intervals[i].write_to(&mut out);
            proof {
                assert(range.skip(i as int).skip(1) =~= range.skip(i + 1));
                assert(range.skip(i as int)[0] == range[i as int]);
                assert(range_text(range) =~= out@ + (if i + 1 < n {
                    seq![','] + range_text(range.skip(i + 1))
                } else {
                    Seq::empty()
                }));
            }
        }
        assert(range_text(range) =~= out@);
        out
    }
}

impl std::str::FromStr for VersionRange {
    type Err = String;

    fn from_str(s: &str) -> (r: Result<Self, String>)
        ensures
            match r {
                Ok(range) => range_of(s@) == Ok::<Seq<IntervalModel>, Seq<char>>(range@),
                Err(e) => range_of(s@) == Err::<Seq<IntervalModel>, Seq<char>>(e@),
            },
    {
        VersionRange::parse_range(s)
    }
}

impl Clone for Bound {
    fn clone(&self) -> (r: Self)
        ensures
            r@ == self@,
    {
        let version = match &self.version {
            Some(v) => Some(v.clone()),
            None => None,
        };
        Bound { version, inclusive: self.inclusive }
    }
}

impl Clone for Interval {
    fn clone(&self) -> (r: Self)
        ensures
            r@ == self@,
    {
        Interval { lower: self.lower.clone(), upper: self.upper.clone() }
    }
}

impl Clone for VersionRange {
    fn clone(&self) -> (r: Self)
        ensures
            r@ == self@,
    {
        let mut intervals: Vec<Interval> = Vec::new();
        for i in 0..self.intervals.len()
            invariant
                intervals@.len() == i,
                forall|j: int| 0 <= j < i ==> intervals@[j]@ == self.intervals@[j]@,
        {
            intervals.push(self.intervals[i].clone());
        }
        let r = VersionRange { intervals };
        assert(r@ =~= self@);
        r
    }
}

// ---------------------------------------------------------------------------
// Constraints
// ---------------------------------------------------------------------------

/// A version constraint: either a soft recommended version or a hard range.
#[derive(Debug)]
pub enum VersionConstraint {
    /// A soft, recommended version (such as `1.0`): every version satisfies it.
    Recommended(Version),
    /// A hard range constraint (such as `[1.0,2.0)`).
    Range(VersionRange),
}

/// A version constraint over texts.
#[verifier::ext_equal]
pub enum ConstraintModel {
    Recommended(Seq<char>),
    Range(Seq<IntervalModel>),
}

impl View for VersionConstraint {
    type V = ConstraintModel;

    open spec fn view(&self) -> ConstraintModel {
        match self {
            VersionConstraint::Recommended(v) => ConstraintModel::Recommended(v@),
            VersionConstraint::Range(r) => ConstraintModel::Range(r@),
        }
    }
}

/// The constraint that a text stands for: a range where it begins with a bracket, a recommended
/// version otherwise.
pub open spec fn constraint_of(s: Seq<char>) -> Result<ConstraintModel, Seq<char>> {
    let t = text::trim_of(s);
    if t.len() == 0 {
        Err("empty version constraint"@)
    } else if t[0] == '[' || t[0] == '(' {
        match range_of(t) {
            Ok(range) => Ok(ConstraintModel::Range(range)),
            Err(e) => Err(e),
        }
    } else {
        Ok(ConstraintModel::Recommended(t))
    }
}

/// Whether a version satisfies a constraint.
pub open spec fn constraint_holds(c: ConstraintModel, v: Seq<char>) -> bool {
    match c {
        ConstraintModel::Recommended(_) => true,
        ConstraintModel::Range(range) => range_holds(range, v),
    }
}

/// The text of a constraint.
pub open spec fn constraint_text(c: ConstraintModel) -> Seq<char> {
    match c {
        ConstraintModel::Recommended(v) => v,
        ConstraintModel::Range(range) => range_text(range),
    }
}

impl VersionConstraint {
    /// Reads a version constraint.
    ///
    /// If the text starts with `[` or `(`, it is read as a range.
    /// Otherwise, it is a recommended version.
    pub fn parse(s: &str) -> (r: Result<VersionConstraint, String>)
        ensures
            match r {
                Ok(c) => constraint_of(s@) == Ok::<ConstraintModel, Seq<char>>(c@),
                Err(e) => constraint_of(s@) == Err::<ConstraintModel, Seq<char>>(e@),
            },
    {
        let t = text::trim(s);
        let chars = text::chars_of(t.as_str());
        if chars.len() == 0 {
            return Err("empty version constraint".to_owned());
        }
        if chars[0] == '[' || chars[0] == '(' {
            match VersionRange::parse_range(t.as_str()) {
                Ok(range) => Ok(VersionConstraint::Range(range)),
                Err(e) => Err(e),
            }
        } else {
            Ok(VersionConstraint::Recommended(Version::new(t.as_str())))
        }
    }

    /// Whether a version satisfies this constraint.
    ///
    /// A recommended version is a soft requirement, which every version satisfies.
    pub fn contains(&self, v: &Version) -> (r: bool)
        ensures
            r == constraint_holds(self@, v@),
    {
        match self {
            VersionConstraint::Recommended(_) => true,
            VersionConstraint::Range(range) => range.contains(v),
        }
    }

    /// The constraint as text.
    pub fn to_string(&self) -> (r: String)
        ensures
            r@ == constraint_text(self@),
    {
        match self {
            VersionConstraint::Recommended(v) => v.to_string(),
            VersionConstraint::Range(range) => range.to_string(),
        }
    }
}

impl Clone for VersionConstraint {
    fn clone(&self) -> (r: Self)
        ensures
            r@ == self@,
    {
        match self {
            VersionConstraint::Recommended(v) => VersionConstraint::Recommended(v.clone()),
            VersionConstraint::Range(range) => VersionConstraint::Range(range.clone()),
        }
    }
}

impl std::str::FromStr for VersionConstraint {
    type Err = String;

    fn from_str(s: &str) -> (r: Result<Self, String>)
        ensures
            match r {
                Ok(c) => constraint_of(s@) == Ok::<ConstraintModel, Seq<char>>(c@),
                Err(e) => constraint_of(s@) == Err::<ConstraintModel, Seq<char>>(e@),
            },
    {
        VersionConstraint::parse(s)
    }
}

} // verus!
