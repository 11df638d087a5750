//! Laws of coordinates, scopes and exclusions.
use crate::coord;
use crate::coord::CoordModel;
use crate::coord::DependencyScope;
use crate::coord::ExclusionModel;
use crate::text;
use vstd::prelude::*;

verus! {

/// Pieces put together with a separator between them.
pub open spec fn joined(parts: Seq<Seq<char>>, c: char) -> Seq<char>
    decreases parts.len(),
{
    if parts.len() == 0 {
        Seq::empty()
    } else if parts.len() == 1 {
        parts[0]
    } else {
        parts[0] + seq![c] + joined(parts.skip(1), c)
    }
}

/// Splitting a text and putting the pieces together again gives the text.
pub proof fn split_then_join(s: Seq<char>, c: char)
    ensures
        joined(text::split_of(s, c), c) == s,
        text::split_of(s, c).len() >= 1,
    decreases s.len(),
{
    text::lemma_find_from(s, c, 0);
    let i = text::find_from(s, c, 0);
    if i < s.len() {
        let rest = s.skip(i + 1);
        split_then_join(rest, c);
        let parts = text::split_of(s, c);
        assert(parts.skip(1) =~= text::split_of(rest, c));
        assert(s.take(i) + seq![c] + rest =~= s);
    }
}

/// Splitting behind a piece that holds no separator takes the piece off.
pub proof fn split_first(a: Seq<char>, c: char, rest: Seq<char>)
    requires
        !a.contains(c),
    ensures
        text::split_of(a + seq![c] + rest, c) == seq![a] + text::split_of(rest, c),
        text::split_of(a, c) == seq![a],
{
    let s = a + seq![c] + rest;
    text::lemma_find_from(s, c, 0);
    text::lemma_find_from(a, c, 0);
    let i = text::find_from(s, c, 0);
    assert(s[a.len() as int] == c);
    if i < a.len() {
        assert(s[i] == a[i]);
    }
    assert(i == a.len());
    assert(s.take(i) =~= a);
    assert(s.skip(i + 1) =~= rest);
    let j = text::find_from(a, c, 0);
    if j < a.len() {
        assert(a[j] == c);
    }
}

/// Whether no field of coordinates holds a colon.
pub open spec fn colon_free(c: CoordModel) -> bool {
    &&& !c.group_id.contains(':')
    &&& !c.artifact_id.contains(':')
    &&& !c.version.contains(':')
    &&& !c.extension.contains(':')
    &&& c.classifier matches Some(k) ==> !k.contains(':')
}

/// Coordinates whose fields hold no colon are read back from their text.
pub proof fn coordinates_are_read_back(c: CoordModel)
    requires
        colon_free(c),
    ensures
        coord::coord_of(coord::coord_text(c)) == Ok::<CoordModel, Seq<char>>(c),
{
    reveal_strlit(":");
    assert(":"@ =~= seq![':']);
    let s = coord::coord_text(c);
    let g = c.group_id;
    let a = c.artifact_id;
    let v = c.version;
    let e = c.extension;
    split_first(v, ':', Seq::empty());
    match c.classifier {
        Some(k) => {
            let t4 = k + seq![':'] + v;
            let t3 = e + seq![':'] + t4;
            let t2 = a + seq![':'] + t3;
            assert(s =~= g + seq![':'] + t2);
            split_first(k, ':', v);
            split_first(e, ':', t4);
            split_first(a, ':', t3);
            split_first(g, ':', t2);
            assert(text::split_of(s, ':') =~= seq![g, a, e, k, v]);
        },
        None => {
            if e == "jar"@ {
                let t2 = a + seq![':'] + v;
                assert(s =~= g + seq![':'] + t2);
                split_first(a, ':', v);
                split_first(g, ':', t2);
                assert(text::split_of(s, ':') =~= seq![g, a, v]);
            } else {
                let t3 = e + seq![':'] + v;
                let t2 = a + seq![':'] + t3;
                assert(s =~= g + seq![':'] + t2);
                split_first(e, ':', v);
                split_first(a, ':', t3);
                split_first(g, ':', t2);
                assert(text::split_of(s, ':') =~= seq![g, a, e, v]);
            }
        },
    }
}

/// A text that is read as coordinates is their text, unless it spells the extension `jar` out
/// where it goes without saying.
pub proof fn coordinates_are_written_back(s: Seq<char>)
    requires
        coord::coord_of(s) is Ok,
        !(text::split_of(s, ':').len() == 4 && text::split_of(s, ':')[2] == "jar"@),
    ensures
        coord::coord_text(coord::coord_of(s)->Ok_0) == s,
{
    reveal_strlit(":");
    reveal_with_fuel(joined, 5);
    assert(":"@ =~= seq![':']);
    split_then_join(s, ':');
    let p = text::split_of(s, ':');
    assert(p.skip(1).skip(1) =~= p.skip(2));
    assert(p.skip(2).skip(1) =~= p.skip(3));
    let c = coord::coord_of(s)->Ok_0;
    if p.len() == 3 {
        assert(s =~= p[0] + seq![':'] + (p[1] + seq![':'] + p[2]));
    } else if p.len() == 4 {
        assert(s =~= p[0] + seq![':'] + (p[1] + seq![':'] + (p[2] + seq![':'] + p[3])));
    } else {
        assert(p.skip(3).skip(1) =~= p.skip(4));
        assert(s =~= p[0] + seq![':'] + (p[1] + seq![':'] + (p[2] + seq![':'] + (p[3] + seq![':']
            + p[4]))));
    }
    assert(coord::coord_text(c) =~= s);
}

/// A scope is read back from its name.
pub proof fn scopes_are_read_back(s: DependencyScope)
    ensures
        coord::scope_named(coord::scope_name(s)) == Some(s),
{
    reveal_strlit("compile");
    reveal_strlit("runtime");
    reveal_strlit("test");
    reveal_strlit("provided");
    reveal_strlit("system");
    reveal_strlit("import");
    let n = coord::scope_name(s);
    assert(text::lower_of(n) =~= n);
    assert("compile"@[0] != "runtime"@[0]);
    assert("provided"@[0] != "runtime"@[0] && "provided"@[0] != "compile"@[0]);
    assert("test"@.len() == 4);
    assert("system"@[0] != "import"@[0]);
    assert("system"@.len() == 6 && "import"@.len() == 6 && "provided"@.len() == 8);
}

/// Capitals do not matter in the name of a scope.
pub proof fn scopes_ignore_case(s: Seq<char>)
    ensures
        coord::scope_named(text::lower_of(s)) == coord::scope_named(s),
{
    lower_twice(s);
}

/// Lower case stays lower case.
pub proof fn lower_twice(s: Seq<char>)
    ensures
        text::lower_of(text::lower_of(s)) == text::lower_of(s),
{
    assert(text::lower_of(text::lower_of(s)) =~= text::lower_of(s));
}

/// A pattern of two wildcards excludes everything, and a pattern without wildcards excludes just
/// the artifact that it names.
pub proof fn exclusions_match_by_name(e: ExclusionModel, g: Seq<char>, a: Seq<char>)
    ensures
        e.group_id == "*"@ && e.artifact_id == "*"@ ==> coord::excludes(e, g, a),
        e.group_id != "*"@ && e.artifact_id != "*"@ ==> (coord::excludes(e, g, a) <==> (e.group_id
            == g && e.artifact_id == a)),
        e.group_id == "*"@ && e.artifact_id != "*"@ ==> (coord::excludes(e, g, a) <==>
            e.artifact_id == a),
        e.group_id != "*"@ && e.artifact_id == "*"@ ==> (coord::excludes(e, g, a) <==> e.group_id
            == g),
{
}

} // verus!
