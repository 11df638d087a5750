//! Laws of how ranges are read, what they hold and which version they select.
use crate::collect;
use crate::collect::KnownMetadata;
use crate::known;
use crate::known::Fetched;
use crate::laws::version as version_laws;
use crate::laws::words;
use crate::metadata;
use crate::text;
use crate::text::Order;
use crate::version;
use crate::version::ConstraintModel;
use crate::version::IntervalModel;
use vstd::prelude::*;

verus! {

// ---------------------------------------------------------------------------
// Reading
// ---------------------------------------------------------------------------

/// Whether a text can be a bound: it holds neither commas nor brackets that close an interval, and
/// no white space at its ends. It may be empty.
pub open spec fn is_bound(s: Seq<char>) -> bool {
    &&& !s.contains(',') && !s.contains(']') && !s.contains(')')
    &&& s.len() > 0 ==> !text::is_white(s[0]) && !text::is_white(s.last())
}

/// Whether a bracket begins an interval.
pub open spec fn begins_interval(c: char) -> bool {
    c == '[' || c == '('
}

/// Whether a bracket ends an interval.
pub open spec fn ends_interval(c: char) -> bool {
    c == ']' || c == ')'
}

/// An interval as it is written, with two bounds.
pub open spec fn written(open: char, lo: Seq<char>, hi: Seq<char>, close: char) -> Seq<char> {
    seq![open] + lo + seq![','] + hi + seq![close]
}

/// Whether a version lies above a lower bound, or on one that belongs to the interval; no bound
/// lets all pass.
pub open spec fn is_above(v: Seq<char>, open: char, lo: Seq<char>) -> bool {
    lo.len() == 0 || version::version_order(v, lo) == Order::Greater || (open == '['
        && version::version_order(v, lo) == Order::Equal)
}

/// Whether a version lies below an upper bound, or on one that belongs to the interval; no bound
/// lets all pass.
pub open spec fn is_below(v: Seq<char>, hi: Seq<char>, close: char) -> bool {
    hi.len() == 0 || version::version_order(v, hi) == Order::Less || (close == ']'
        && version::version_order(v, hi) == Order::Equal)
}

proof fn lemma_first(s: Seq<char>, inner: Seq<char>, close: char, rest: Seq<char>, open: char)
    requires
        begins_interval(open),
        ends_interval(close),
        !inner.contains(']') && !inner.contains(')'),
        s == seq![open] + inner + seq![close] + rest,
    ensures
        version::first_interval(s) == Ok::<(IntervalModel, Seq<char>), Seq<char>>(
            (version::interval_between(open == '[', inner, close == ']'), rest),
        ),
        s[0] == open,
{
    let n = inner.len() as int;
    version::lemma_close_from(s, 0);
    let k = version::close_from(s, 0);
    assert(s[0] == open);
    assert(s[n + 1] == close);
    if k < n + 1 {
        if k > 0 {
            assert(s[k] == inner[k - 1]);
            assert(inner.contains(inner[k - 1]));
        }
    }
    assert(k == n + 1);
    assert(s.subrange(1, k) =~= inner);
    assert(s.skip(k + 1) =~= rest);
}

proof fn lemma_between(open: char, lo: Seq<char>, hi: Seq<char>, close: char, v: Seq<char>)
    requires
        is_bound(lo),
        is_bound(hi),
        begins_interval(open),
        ends_interval(close),
    ensures
        version::interval_holds(
            version::interval_between(open == '[', lo + seq![','] + hi, close == ']'),
            v,
        ) <==> is_above(v, open, lo) && is_below(v, hi, close),
        !(lo + seq![','] + hi).contains(']') && !(lo + seq![','] + hi).contains(')'),
{
    let inner = lo + seq![','] + hi;
    let n = lo.len() as int;
    text::lemma_find_from(inner, ',', 0);
    let comma = text::find_from(inner, ',', 0);
    assert(inner[n] == ',');
    if comma < n {
        assert(inner[comma] == lo[comma]);
        assert(lo.contains(','));
    }
    assert(comma == n);
    assert(inner.take(n) =~= lo);
    assert(inner.skip(n + 1) =~= hi);
    assert(text::trim_of(lo) == lo);
    assert(text::trim_of(hi) == hi);
    assert forall|c: char| c != ',' && #[trigger] inner.contains(c) implies lo.contains(c)
        || hi.contains(c) by {
        let i = choose|i: int| 0 <= i < inner.len() && inner[i] == c;
        if i < n {
            assert(lo[i] == c);
        } else {
            assert(hi[i - n - 1] == c);
        }
    }
}

proof fn lemma_no_intervals()
    ensures
        version::intervals_of(Seq::empty()) == Ok::<Seq<IntervalModel>, Seq<char>>(Seq::empty()),
{
    let none = Seq::<char>::empty();
    assert(version::skip_commas(none) == none);
    assert(text::trim_of(none) == none);
}

proof fn lemma_single(s: Seq<char>, open: char, inner: Seq<char>, close: char)
    requires
        begins_interval(open),
        ends_interval(close),
        !inner.contains(']') && !inner.contains(')'),
        s == seq![open] + inner + seq![close],
    ensures
        version::range_of(s) == Ok::<Seq<IntervalModel>, Seq<char>>(
            seq![version::interval_between(open == '[', inner, close == ']')],
        ),
{
    let none = Seq::<char>::empty();
    assert(s + none =~= s);
    lemma_first(s, inner, close, none, open);
    lemma_no_intervals();
    assert(text::trim_of(none) == none);
    assert(s.last() == close);
    assert(text::trim_of(s) == s);
    assert(version::skip_commas(s) == s);
    let iv = version::interval_between(open == '[', inner, close == ']');
    assert(seq![iv] + Seq::<IntervalModel>::empty() =~= seq![iv]);
    assert(version::intervals_of(s) == Ok::<Seq<IntervalModel>, Seq<char>>(seq![iv]));
}

/// An interval holds just the versions between its bounds. A square bracket takes its bound in, a
/// round one leaves it out, and a bound that is not there leaves that side open.
pub proof fn intervals_hold_what_lies_between(
    open: char,
    lo: Seq<char>,
    hi: Seq<char>,
    close: char,
    v: Seq<char>,
)
    requires
        is_bound(lo),
        is_bound(hi),
        begins_interval(open),
        ends_interval(close),
    ensures
        version::range_of(written(open, lo, hi, close)) matches Ok(range) && (version::range_holds(
            range,
            v,
        ) <==> is_above(v, open, lo) && is_below(v, hi, close)),
{
    let s = written(open, lo, hi, close);
    let inner = lo + seq![','] + hi;
    lemma_between(open, lo, hi, close, v);
    assert(s =~= seq![open] + inner + seq![close]);
    lemma_single(s, open, inner, close);
    let range = version::range_of(s)->Ok_0;
    assert(range[0] == version::interval_between(open == '[', inner, close == ']'));
    if version::interval_holds(range[0], v) {
        assert(version::range_holds(range, v));
    }
}

/// An interval with a single version holds just the versions that are equal to it, whatever its
/// brackets are.
pub proof fn single_versions_hold_their_equals(
    open: char,
    x: Seq<char>,
    close: char,
    v: Seq<char>,
)
    requires
        is_bound(x),
        begins_interval(open),
        ends_interval(close),
    ensures
        version::range_of(seq![open] + x + seq![close]) matches Ok(range) && (version::range_holds(
            range,
            v,
        ) <==> version::version_order(v, x) == Order::Equal),
{
    let s = seq![open] + x + seq![close];
    lemma_single(s, open, x, close);
    version_laws::exact_range_holds_equal_versions(x, v);
    assert(text::trim_of(x) == x);
    let range = version::range_of(s)->Ok_0;
    text::lemma_find_from(x, ',', 0);
    let comma = text::find_from(x, ',', 0);
    if comma < x.len() {
        assert(x.contains(x[comma]));
    }
    assert(version::interval_between(open == '[', x, close == ']') == version::interval_between(
        true,
        x,
        true,
    ));
    assert(range[0] == version::interval_between(true, x, true));
    if version::interval_holds(range[0], v) {
        assert(version::range_holds(range, v));
    }
}

/// A range of several intervals, with commas between them, holds what the first one holds and
/// what the others hold.
pub proof fn unions_hold_what_their_parts_hold(
    open: char,
    lo: Seq<char>,
    hi: Seq<char>,
    close: char,
    rest: Seq<char>,
    v: Seq<char>,
)
    requires
        is_bound(lo),
        is_bound(hi),
        begins_interval(open),
        ends_interval(close),
        rest.len() > 0,
        begins_interval(rest[0]),
        !text::is_white(rest.last()),
    ensures
        ({
            let all = version::range_of(written(open, lo, hi, close) + ","@ + rest);
            let others = version::range_of(rest);
            &&& all is Ok <==> others is Ok
            &&& others is Ok ==> (version::range_holds(all->Ok_0, v) <==> (is_above(v, open, lo)
                && is_below(v, hi, close)) || version::range_holds(others->Ok_0, v))
        }),
{
    reveal_strlit(",");
    let inner = lo + seq![','] + hi;
    let s = written(open, lo, hi, close) + ","@ + rest;
    let more = seq![','] + rest;
    lemma_between(open, lo, hi, close, v);
    assert(s =~= seq![open] + inner + seq![close] + more);
    lemma_first(s, inner, close, more, open);
    assert(s.last() == rest.last());
    assert(text::trim_of(s) == s);
    assert(version::skip_commas(s) == s);
    assert(more[0] == ',');
    assert(more.last() == rest.last());
    assert(text::trim_of(more) == more);
    assert(more.skip(1) =~= rest);
    assert(version::skip_commas(rest) == rest);
    assert(version::skip_commas(more) == rest);
    assert(text::trim_of(rest) == rest);
    assert(version::intervals_of(more) == version::intervals_of(rest));
    let iv = version::interval_between(open == '[', inner, close == ']');
    if let Ok(ivs) = version::intervals_of(rest) {
        assert(version::intervals_of(s) == Ok::<Seq<IntervalModel>, Seq<char>>(seq![iv] + ivs));
        version_laws::union_holds_either(seq![iv], ivs, v);
        if version::interval_holds(iv, v) {
            assert(seq![iv][0] == iv);
            assert(version::range_holds(seq![iv], v));
        }
        lemma_range_not_empty(rest);
    }
}

proof fn lemma_range_not_empty(s: Seq<char>)
    requires
        s.len() > 0,
        begins_interval(s[0]),
        !text::is_white(s.last()),
    ensures
        version::intervals_of(s) matches Ok(ivs) ==> ivs.len() > 0,
{
    assert(version::skip_commas(s) == s);
    assert(text::trim_of(s) == s);
}

/// A text is refused as a range where it is blank, where it begins with something else than an
/// opening bracket, and where the bracket is not closed.
pub proof fn broken_ranges_are_refused(s: Seq<char>)
    requires
        s.len() > 0 ==> !text::is_white(s[0]) && !text::is_white(s.last()) && s[0] != ',',
        s.len() == 0 || !begins_interval(s[0]) || !(s.contains(']') || s.contains(')')),
    ensures
        version::range_of(s) is Err,
{
    assert(text::trim_of(s) == s);
    assert(version::skip_commas(s) == s);
    if s.len() > 0 && begins_interval(s[0]) {
        version::lemma_close_from(s, 0);
        let k = version::close_from(s, 0);
        if k < s.len() {
            assert(s.contains(s[k]));
        }
    }
}

/// A constraint that begins with a bracket is a range, and is broken where the range is; any other
/// one recommends the version that it names, without white space at its ends, and a blank one is
/// refused.
pub proof fn brackets_make_constraints_ranges(s: Seq<char>)
    ensures
        ({
            let t = text::trim_of(s);
            let c = version::constraint_of(s);
            &&& words::is_blank(s) ==> c is Err
            &&& t.len() > 0 && !begins_interval(t[0]) ==> c == Ok::<ConstraintModel, Seq<char>>(
                ConstraintModel::Recommended(t),
            )
            &&& t.len() > 0 && begins_interval(t[0]) ==> (match version::range_of(t) {
                Ok(range) => c == Ok::<ConstraintModel, Seq<char>>(ConstraintModel::Range(range)),
                Err(e) => c == Err::<ConstraintModel, Seq<char>>(e),
            })
        }),
{
    let ends = words::trimming_leaves_the_middle(s);
}

/// A range admits what it holds; a recommendation admits everything.
pub proof fn ranges_admit_what_they_hold(range: Seq<IntervalModel>, r: Seq<char>, v: Seq<char>)
    ensures
        version::constraint_holds(ConstraintModel::Range(range), v) <==> version::range_holds(
            range,
            v,
        ),
        version::constraint_holds(ConstraintModel::Recommended(r), v),
{
}

// ---------------------------------------------------------------------------
// Selecting
// ---------------------------------------------------------------------------

proof fn lemma_first_highest(
    versions: Seq<Seq<char>>,
    i: int,
    best: Option<Seq<char>>,
    c: ConstraintModel,
) -> (k: int)
    requires
        0 <= i <= versions.len(),
        collect::highest_from(versions, i, best, c) is Some,
    ensures
        ({
            let v = collect::highest_from(versions, i, best, c)->0;
            ||| k == -1 && best == Some(v)
            ||| i <= k < versions.len() && versions[k] == v && collect::eligible(v, c) && (best
                is Some ==> version::version_order(best->0, v) == Order::Less) && (forall|j: int|
                i <= j < k && collect::eligible(#[trigger] versions[j], c) ==>
                    version::version_order(versions[j], v) == Order::Less)
        }),
    decreases versions.len() - i,
{
    let v = collect::highest_from(versions, i, best, c)->0;
    if i >= versions.len() {
        -1
    } else {
        let x = versions[i];
        if collect::eligible(x, c) && (best matches Some(b) ==> version::version_order(x, b)
            == Order::Greater) {
            let k = lemma_first_highest(versions, i + 1, Some(x), c);
            if let Some(b) = best {
                version_laws::order_flips(x, b);
                if k != -1 {
                    version_laws::order_is_transitive(b, x, v);
                }
            }
            if k == -1 {
                i
            } else {
                k
            }
        } else {
            let k = lemma_first_highest(versions, i + 1, best, c);
            if k != -1 && collect::eligible(x, c) {
                version_laws::order_is_transitive(x, best->0, v);
            }
            k
        }
    }
}

/// A version may be selected just where the constraint admits it and its name does not hold
/// `SNAPSHOT`. The one that is selected is the first of the highest: those before it that may be
/// selected are lower, and none behind it is higher.
pub proof fn first_of_the_highest_is_selected(
    versions: Seq<Seq<char>>,
    c: ConstraintModel,
    w: Seq<char>,
)
    ensures
        collect::eligible(w, c) <==> version::constraint_holds(c, w) && !text::holds_text(
            w,
            "SNAPSHOT"@,
        ),
        collect::highest_from(versions, 0, None, c) matches Some(v) ==> exists|k: int|
            0 <= k < versions.len() && #[trigger] versions[k] == v && collect::eligible(v, c) && (
            forall|j: int|
                0 <= j < k && collect::eligible(#[trigger] versions[j], c) ==>
                    version::version_order(versions[j], v) == Order::Less),
        versions.contains(w) && collect::eligible(w, c) ==> collect::highest_from(
            versions,
            0,
            None,
            c,
        ) is Some && version::version_order(
            w,
            collect::highest_from(versions, 0, None, c)->0,
        ) != Order::Greater,
{
    if collect::highest_from(versions, 0, None, c) is Some {
        let k = lemma_first_highest(versions, 0, None, c);
        assert(versions[k] == collect::highest_from(versions, 0, None, c)->0);
    }
    if versions.contains(w) && collect::eligible(w, c) {
        crate::laws::collect::selected_version_is_highest(versions, c, w);
    }
}

/// The version of a range is selected among those that the metadata of its artifact lists. It is
/// open until the metadata was asked for, and there is none where the range is broken or the
/// metadata cannot be had.
pub proof fn ranges_select_among_listed_versions(
    range: Seq<char>,
    g: Seq<char>,
    a: Seq<char>,
    answers: KnownMetadata,
)
    ensures
        ({
            let chosen = collect::range_version(range, g, a, answers);
            match version::constraint_of(range) {
                Err(_) => chosen == Some(None::<Seq<char>>),
                Ok(c) => match known::outcome(answers, g + ":"@ + a) {
                    None => chosen is None,
                    Some(Fetched::Failed) => chosen == Some(None::<Seq<char>>),
                    Some(Fetched::Found(m)) => chosen == Some(
                        collect::highest_from(metadata::versions_of(m), 0, None, c),
                    ),
                },
            }
        }),
{
}

// ---------------------------------------------------------------------------
// Writing
// ---------------------------------------------------------------------------

/// An interval is written with a square bracket for a bound that belongs to it and a round one for
/// any other, with a comma between the bounds and nothing for one that is not there. One with both
/// bounds in it, which are equal, is written by the first of them alone. Intervals have a comma
/// between them, and a recommended version is written as it is.
pub proof fn ranges_are_written_like_they_are_read(
    iv: IntervalModel,
    range: Seq<IntervalModel>,
    v: Seq<char>,
)
    ensures
        ({
            let open = if iv.lower.inclusive {
                '['
            } else {
                '('
            };
            let close = if iv.upper.inclusive {
                ']'
            } else {
                ')'
            };
            let lo = if iv.lower.version is Some {
                iv.lower.version->0
            } else {
                Seq::empty()
            };
            let hi = if iv.upper.version is Some {
                iv.upper.version->0
            } else {
                Seq::empty()
            };
            let exact = iv.lower.version is Some && iv.upper.version is Some && iv.lower.inclusive
                && iv.upper.inclusive && version::version_order(lo, hi) == Order::Equal;
            &&& exact ==> version::range_text(seq![iv]) == "["@ + lo + "]"@
            &&& !exact ==> version::range_text(seq![iv]) == written(open, lo, hi, close)
        }),
        range.len() > 0 ==> version::range_text(seq![iv] + range) == version::range_text(seq![iv])
            + ","@ + version::range_text(range),
        version::constraint_text(ConstraintModel::Recommended(v)) == v,
        version::constraint_text(ConstraintModel::Range(range)) == version::range_text(range),
{
    reveal_strlit("[");
    reveal_strlit("]");
    reveal_strlit(",");
    assert("["@ =~= seq!['[']);
    assert("]"@ =~= seq![']']);
    assert(","@ =~= seq![',']);
    let lo = version::bound_text(iv.lower);
    let hi = version::bound_text(iv.upper);
    let all = seq![iv] + range;
    assert(version::range_text(seq![iv]) == version::interval_text(iv));
    if !version::is_exact(iv) {
        assert(version::interval_text(iv) =~= written(
            version::open_bracket(iv),
            lo,
            hi,
            version::close_bracket(iv),
        ));
    }
    if range.len() > 0 {
        assert(all[0] == iv);
        assert(all.skip(1) =~= range);
    }
}

/// What is wrong with a range is told: that it is empty, that it does not begin with a bracket, or
/// that the bracket is not closed, with the text in question.
pub proof fn broken_ranges_are_quoted(s: Seq<char>)
    requires
        s.len() > 0 ==> !text::is_white(s[0]) && !text::is_white(s.last()) && s[0] != ',',
    ensures
        s.len() == 0 ==> version::range_of(s) == Err::<Seq<IntervalModel>, Seq<char>>(
            "empty range expression"@,
        ),
        s.len() > 0 && !begins_interval(s[0]) ==> version::range_of(s) == Err::<
            Seq<IntervalModel>,
            Seq<char>,
        >("expected '[' or '(' at start of interval, got: "@ + s),
        s.len() > 0 && begins_interval(s[0]) && !s.contains(']') && !s.contains(')')
            ==> version::range_of(s) == Err::<Seq<IntervalModel>, Seq<char>>(
            "missing closing bracket in '"@ + s + "'"@,
        ),
        version::constraint_of(Seq::empty()) == Err::<ConstraintModel, Seq<char>>(
            "empty version constraint"@,
        ),
{
    assert(text::trim_of(s) == s);
    assert(version::skip_commas(s) == s);
    if s.len() > 0 && begins_interval(s[0]) {
        version::lemma_close_from(s, 0);
        let k = version::close_from(s, 0);
        if k < s.len() {
            assert(s.contains(s[k]));
        }
    }
    let none = Seq::<char>::empty();
    assert(text::trim_of(none) == none);
}

} // verus!
