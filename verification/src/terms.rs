//! Additive terms and multiplicative factors of an equation, and the
//! replacement of a group of variables by a single new one.

use vstd::prelude::*;
use crate::text::{append_all, append_range, chars_eq, chars_of, string_of};

verus! {

/// `+` or `-`.
pub open spec fn is_sign(c: char) -> bool {
    c == '+' || c == '-'
}

/// The first position at or after `j` that holds a sign, or the length.
pub open spec fn next_cut(s: Seq<char>, j: int) -> int
    decreases s.len() - j,
{
    if j < 0 || j >= s.len() {
        s.len() as int
    } else if is_sign(s[j]) {
        j
    } else {
        next_cut(s, j + 1)
    }
}

pub proof fn lemma_next_cut(s: Seq<char>, j: int)
    requires
        0 <= j,
    ensures
        j <= s.len() ==> j <= next_cut(s, j) <= s.len(),
        forall|k: int| j <= k < next_cut(s, j) ==> !is_sign(s[k]),
        next_cut(s, j) < s.len() ==> is_sign(s[next_cut(s, j)]),
    decreases s.len() - j,
{
    if j < s.len() && !is_sign(s[j]) {
        lemma_next_cut(s, j + 1);
    }
}

/// The terms of `s` from position `i` on: each runs from its start to just
/// before the next sign that is not its own first char.
pub open spec fn terms_from(s: Seq<char>, i: int) -> Seq<Seq<char>>
    decreases s.len() - i,
{
    if i < 0 || i >= s.len() {
        seq![]
    } else {
        let c = next_cut(s, i + 1);
        proof {
            lemma_next_cut(s, i + 1);
        }
        seq![s.subrange(i, c)] + terms_from(s, c)
    }
}

/// The additive terms of `s`: it is cut before every `+` and `-` that is not
/// its first char.
pub open spec fn spec_split_terms(s: Seq<char>) -> Seq<Seq<char>> {
    terms_from(s, 0)
}

/// The views of a list of strings.
pub open spec fn string_views(v: Seq<String>) -> Seq<Seq<char>> {
    v.map_values(|x: String| x@)
}

/// The views of a list of char lists.
pub open spec fn char_views(v: Seq<Vec<char>>) -> Seq<Seq<char>> {
    v.map_values(|x: Vec<char>| x@)
}

fn split_term_chars(s: &Vec<char>) -> (r: Vec<Vec<char>>)
    ensures
        char_views(r@) == spec_split_terms(s@),
{
    let mut terms: Vec<Vec<char>> = Vec::new();
    let mut current: Vec<char> = Vec::new();
    let mut cstart: usize = 0;
    let mut i: usize = 0;
    while i < s.len()
        invariant
            cstart <= i <= s.len(),
            i == 0 ==> cstart == 0,
            i > 0 ==> cstart < i && next_cut(s@, cstart + 1) == next_cut(s@, i as int),
            current@ == s@.subrange(cstart as int, i as int),
            spec_split_terms(s@) == char_views(terms@) + terms_from(s@, cstart as int),
        decreases s.len() - i,
    {
        let ch = s[i];
        if (ch == '+' || ch == '-') && i != 0 {
            proof {
                lemma_next_cut(s@, cstart + 1);
                assert(terms_from(s@, cstart as int) == seq![current@] + terms_from(s@, i as int));
                assert(char_views(terms@.push(current)) == char_views(terms@).push(current@));
            }
            terms.push(current);
            current = Vec::new();
            cstart = i;
        }
        current.push(ch);
        assert(s@.subrange(cstart as int, i + 1) == s@.subrange(cstart as int, i as int).push(ch));
        i = i + 1;
    }
    if current.len() > 0 {
        proof {
            lemma_next_cut(s@, cstart + 1);
            assert(terms_from(s@, cstart as int) == seq![current@] + terms_from(s@, s.len() as int));
            assert(char_views(terms@.push(current)) == char_views(terms@).push(current@));
        }
        terms.push(current);
    }
    assert(char_views(terms@) + Seq::<Seq<char>>::empty() == char_views(terms@));
    terms
}

/// Strings with the given chars.
pub(crate) fn strings_of(v: &Vec<Vec<char>>) -> (r: Vec<String>)
    ensures
        string_views(r@) == char_views(v@),
{
    let mut r: Vec<String> = Vec::new();
    let mut i: usize = 0;
    while i < v.len()
        invariant
            i <= v.len(),
            string_views(r@) == char_views(v@).take(i as int),
        decreases v.len() - i,
    {
        let s = string_of(v[i].as_slice());
        let ghost prev = r@;
        r.push(s);
        assert(r@ == prev.push(s));
        assert(string_views(r@) =~= string_views(prev).push(s@));
        assert(char_views(v@).take(i + 1) =~= char_views(v@).take(i as int).push(v@[i as int]@));
        assert(string_views(r@) =~= char_views(v@).take(i + 1));
        i = i + 1;
    }
    assert(char_views(v@).take(v.len() as int) =~= char_views(v@));
    r
}

/// Char lists with the chars of the given strings.
pub(crate) fn chars_of_all(v: &[String]) -> (r: Vec<Vec<char>>)
    ensures
        char_views(r@) == string_views(v@),
{
    let mut r: Vec<Vec<char>> = Vec::new();
    let mut i: usize = 0;
    while i < v.len()
        invariant
            i <= v.len(),
            char_views(r@) == string_views(v@).take(i as int),
        decreases v.len() - i,
    {
        let c = chars_of(v[i].as_str());
        let ghost prev = r@;
        r.push(c);
        assert(r@ == prev.push(c));
        assert(char_views(r@) =~= char_views(prev).push(c@));
        assert(string_views(v@).take(i + 1) =~= string_views(v@).take(i as int).push(v@[i as int]@));
        assert(char_views(r@) =~= string_views(v@).take(i + 1));
        i = i + 1;
    }
    assert(string_views(v@).take(v.len() as int) =~= string_views(v@));
    r
}

/// Split an expression into additive terms, preserving `+` and `-` signs.
pub fn split_terms(expression: &str) -> (r: Vec<String>)
    ensures
        string_views(r@) == spec_split_terms(expression@),
{
    let s = chars_of(expression);
    let t = split_term_chars(&s);
    strings_of(&t)
}


/// The first position at or after `j` that holds a `*`, or the length.
pub open spec fn next_star(s: Seq<char>, j: int) -> int
    decreases s.len() - j,
{
    if j < 0 || j >= s.len() {
        s.len() as int
    } else if s[j] == '*' {
        j
    } else {
        next_star(s, j + 1)
    }
}

pub proof fn lemma_next_star(s: Seq<char>, j: int)
    requires
        0 <= j,
    ensures
        j <= s.len() ==> j <= next_star(s, j) <= s.len(),
        forall|k: int| j <= k < next_star(s, j) ==> s[k] != '*',
        next_star(s, j) < s.len() ==> s[next_star(s, j)] == '*',
    decreases s.len() - j,
{
    if j < s.len() && s[j] != '*' {
        lemma_next_star(s, j + 1);
    }
}

/// The pieces of `s` from position `i` on, between the `*`s.
pub open spec fn pieces_from(s: Seq<char>, i: int) -> Seq<Seq<char>>
    decreases s.len() + 1 - i,
{
    if i < 0 || i > s.len() {
        seq![]
    } else {
        let c = next_star(s, i);
        proof {
            lemma_next_star(s, i);
        }
        if c >= s.len() {
            seq![s.subrange(i, s.len() as int)]
        } else {
            seq![s.subrange(i, c)] + pieces_from(s, c + 1)
        }
    }
}

/// The factors of a product: the pieces between its `*`s, empty ones
/// included (`"" -> [""]`, `"a*" -> ["a", ""]`).
pub open spec fn spec_split_factors(s: Seq<char>) -> Seq<Seq<char>> {
    pieces_from(s, 0)
}

/// The pieces joined with `sep` between each two.
pub open spec fn join_with(ps: Seq<Seq<char>>, sep: char) -> Seq<char>
    decreases ps.len(),
{
    if ps.len() == 0 {
        seq![]
    } else if ps.len() == 1 {
        ps[0]
    } else {
        join_with(ps.drop_last(), sep) + seq![sep] + ps.last()
    }
}

/// The factors that are not in the group, in their order.
pub open spec fn ungrouped(fs: Seq<Seq<char>>, group: Seq<Seq<char>>) -> Seq<Seq<char>>
    decreases fs.len(),
{
    if fs.len() == 0 {
        seq![]
    } else if group.contains(fs.last()) {
        ungrouped(fs.drop_last(), group)
    } else {
        ungrouped(fs.drop_last(), group).push(fs.last())
    }
}

/// Every member of the group is among the factors, and no member is listed
/// twice.
pub open spec fn group_present(fs: Seq<Seq<char>>, group: Seq<Seq<char>>) -> bool {
    &&& group.no_duplicates()
    &&& forall|i: int| 0 <= i < group.len() ==> fs.contains(group[i])
}

/// The length of a term's sign: one if it starts with `+` or `-`, else zero.
pub open spec fn sign_len(t: Seq<char>) -> int {
    if t.len() > 0 && is_sign(t[0]) { 1 } else { 0 }
}

/// One term with the group replaced: where all of the group's variables are
/// factors of the term, they leave and `replacement` comes first; the other
/// factors keep their order. Other terms stay as they are.
pub open spec fn spec_replace_group_in_term(t: Seq<char>, group: Seq<Seq<char>>, replacement: Seq<char>) -> Seq<char> {
    let fs = spec_split_factors(t.subrange(sign_len(t), t.len() as int));
    if group_present(fs, group) {
        t.subrange(0, sign_len(t)) + join_with(seq![replacement] + ungrouped(fs, group), '*')
    } else {
        t
    }
}

/// The equation with the group replaced in every term.
pub open spec fn spec_replace_group(equation: Seq<char>, group: Seq<Seq<char>>, replacement: Seq<char>) -> Seq<char> {
    spec_split_terms(equation).map_values(|t: Seq<char>| spec_replace_group_in_term(t, group, replacement)).flatten()
}

fn split_factor_chars(s: &Vec<char>) -> (r: Vec<Vec<char>>)
    ensures
        char_views(r@) == spec_split_factors(s@),
{
    let mut pieces: Vec<Vec<char>> = Vec::new();
    let mut current: Vec<char> = Vec::new();
    let mut cstart: usize = 0;
    let mut i: usize = 0;
    while i < s.len()
        invariant
            cstart <= i <= s.len(),
            next_star(s@, cstart as int) == next_star(s@, i as int),
            current@ == s@.subrange(cstart as int, i as int),
            spec_split_factors(s@) == char_views(pieces@) + pieces_from(s@, cstart as int),
        decreases s.len() - i,
    {
        let ch = s[i];
        if ch == '*' {
            proof {
                lemma_next_star(s@, cstart as int);
                assert(pieces_from(s@, cstart as int) == seq![current@] + pieces_from(s@, i + 1));
                assert(char_views(pieces@.push(current)) == char_views(pieces@).push(current@));
            }
            pieces.push(current);
            current = Vec::new();
            cstart = i + 1;
            i = i + 1;
        } else {
            current.push(ch);
            assert(s@.subrange(cstart as int, i + 1) == s@.subrange(cstart as int, i as int).push(ch));
            i = i + 1;
        }
    }
    proof {
        lemma_next_star(s@, cstart as int);
        assert(pieces_from(s@, cstart as int) == seq![current@]);
        assert(char_views(pieces@.push(current)) == char_views(pieces@).push(current@));
    }
    pieces.push(current);
    pieces
}

pub(crate) fn join_chars(ps: &Vec<Vec<char>>, sep: char) -> (r: Vec<char>)
    ensures
        r@ == join_with(char_views(ps@), sep),
{
    let mut out: Vec<char> = Vec::new();
    if ps.len() == 0 {
        return out;
    }
    append_all(&mut out, &ps[0]);
    let mut i: usize = 1;
    while i < ps.len()
        invariant
            1 <= i <= ps.len(),
            out@ == join_with(char_views(ps@).take(i as int), sep),
        decreases ps.len() - i,
    {
        out.push(sep);
        append_all(&mut out, &ps[i]);
        assert(char_views(ps@).take(i + 1).drop_last() == char_views(ps@).take(i as int));
        i = i + 1;
    }
    assert(char_views(ps@).take(ps.len() as int) == char_views(ps@));
    out
}

pub(crate) fn contains_chars(list: &Vec<Vec<char>>, x: &Vec<char>) -> (r: bool)
    ensures
        r == char_views(list@).contains(x@),
{
    let mut i: usize = 0;
    while i < list.len()
        invariant
            i <= list.len(),
            forall|j: int| 0 <= j < i ==> char_views(list@)[j] != x@,
        decreases list.len() - i,
    {
        if chars_eq(&list[i], x) {
            assert(char_views(list@)[i as int] == x@);
            return true;
        }
        i = i + 1;
    }
    false
}

fn no_duplicate_chars(list: &Vec<Vec<char>>) -> (r: bool)
    ensures
        r == char_views(list@).no_duplicates(),
{
    let ghost vs = char_views(list@);
    let mut i: usize = 0;
    while i < list.len()
        invariant
            i <= list.len(),
            vs == char_views(list@),
            forall|a: int, b: int| 0 <= a < b < list.len() && a < i ==> vs[a] != vs[b],
        decreases list.len() - i,
    {
        let mut j: usize = i + 1;
        while j < list.len()
            invariant
                i < j <= list.len(),
                vs == char_views(list@),
                forall|a: int, b: int| 0 <= a < b < list.len() && a < i ==> vs[a] != vs[b],
                forall|b: int| i < b < j ==> vs[i as int] != vs[b],
            decreases list.len() - j,
        {
            if chars_eq(&list[i], &list[j]) {
                assert(vs[i as int] == vs[j as int]);
                return false;
            }
            j = j + 1;
        }
        i = i + 1;
    }
    true
}

fn group_present_chars(fs: &Vec<Vec<char>>, group: &Vec<Vec<char>>) -> (r: bool)
    ensures
        r == group_present(char_views(fs@), char_views(group@)),
{
    if !no_duplicate_chars(group) {
        return false;
    }
    let mut i: usize = 0;
    while i < group.len()
        invariant
            i <= group.len(),
            forall|j: int| 0 <= j < i ==> char_views(fs@).contains(char_views(group@)[j]),
        decreases group.len() - i,
    {
        if !contains_chars(fs, &group[i]) {
            assert(!char_views(fs@).contains(char_views(group@)[i as int]));
            return false;
        }
        i = i + 1;
    }
    true
}

fn replace_group_in_term(t: &Vec<char>, group: &Vec<Vec<char>>, replacement: &Vec<char>) -> (r: Vec<char>)
    ensures
        r@ == spec_replace_group_in_term(t@, char_views(group@), replacement@),
{
    let sl: usize = if t.len() > 0 && (t[0] == '+' || t[0] == '-') { 1 } else { 0 };
    let mut body: Vec<char> = Vec::new();
    append_range(&mut body, t, sl, t.len());
    let fs = split_factor_chars(&body);
    if !group_present_chars(&fs, group) {
        return copy_chars(t);
    }
    let mut kept: Vec<Vec<char>> = Vec::new();
    kept.push(copy_chars(replacement));
    let ghost fsv = char_views(fs@);
    let ghost gv = char_views(group@);
    let mut i: usize = 0;
    assert(char_views(kept@) =~= seq![replacement@] + ungrouped(fsv.take(0), gv));
    while i < fs.len()
        invariant
            i <= fs.len(),
            fsv == char_views(fs@),
            gv == char_views(group@),
            char_views(kept@) == seq![replacement@] + ungrouped(fsv.take(i as int), gv),
        decreases fs.len() - i,
    {
        assert(fsv.take(i + 1).drop_last() == fsv.take(i as int));
        assert(fsv.take(i + 1).last() == fs@[i as int]@);
        if !contains_chars(group, &fs[i]) {
            let f = copy_chars(&fs[i]);
            let ghost prev = kept@;
            kept.push(f);
            assert(char_views(kept@) =~= char_views(prev).push(f@));
        }
        i = i + 1;
    }
    assert(fsv.take(fs.len() as int) == fsv);
    let joined = join_chars(&kept, '*');
    let mut out: Vec<char> = Vec::new();
    append_range(&mut out, t, 0, sl);
    append_all(&mut out, &joined);
    out
}

pub(crate) fn copy_chars(v: &Vec<char>) -> (r: Vec<char>)
    ensures
        r@ == v@,
{
    let mut r: Vec<char> = Vec::new();
    append_all(&mut r, v);
    r
}

/// Replaces a selected group of variables inside every monomial by `replacement`.
///
/// Example: with group `{x1, x3}` and replacement `z`, `x1*x2*x3` becomes
/// `z*x2`. The order of ungrouped factors is preserved.
pub fn replace_group_in_equation(equation: &str, group: &[String], replacement: &str) -> (r: String)
    ensures
        r@ == spec_replace_group(equation@, string_views(group@), replacement@),
{
    let s = chars_of(equation);
    let g = chars_of_all(group);
    let repl = chars_of(replacement);
    let terms = split_term_chars(&s);
    let ghost mapped = char_views(terms@).map_values(
        |t: Seq<char>| spec_replace_group_in_term(t, char_views(g@), repl@),
    );
    let mut out: Vec<char> = Vec::new();
    let mut i: usize = 0;
    while i < terms.len()
        invariant
            i <= terms.len(),
            mapped == char_views(terms@).map_values(
                |t: Seq<char>| spec_replace_group_in_term(t, char_views(g@), repl@),
            ),
            out@ == mapped.take(i as int).flatten(),
        decreases terms.len() - i,
    {
        let m = replace_group_in_term(&terms[i], &g, &repl);
        append_all(&mut out, &m);
        proof {
            assert(mapped.take(i + 1) == mapped.take(i as int).push(mapped[i as int]));
            mapped.take(i as int).lemma_flatten_push(mapped[i as int]);
        }
        i = i + 1;
    }
    assert(mapped.take(terms.len() as int) == mapped);
    string_of(out.as_slice())
}


proof fn lemma_terms_from(s: Seq<char>, i: int)
    requires
        0 <= i <= s.len(),
    ensures
        terms_from(s, i).flatten() == s.subrange(i, s.len() as int),
        forall|k: int| 0 <= k < terms_from(s, i).len() ==> (#[trigger] terms_from(s, i)[k]).len() > 0,
        forall|k: int| 0 < k < terms_from(s, i).len() ==> is_sign(#[trigger] terms_from(s, i)[k][0]),
        forall|k: int, j: int|
            0 <= k < terms_from(s, i).len() && 0 < j < terms_from(s, i)[k].len() ==> !is_sign(
                #[trigger] terms_from(s, i)[k][j],
            ),
    decreases s.len() - i,
{
    if i < s.len() {
        let c = next_cut(s, i + 1);
        lemma_next_cut(s, i + 1);
        lemma_terms_from(s, c);
        let t0 = s.subrange(i, c);
        let rest = terms_from(s, c);
        let ts = terms_from(s, i);
        assert(ts == seq![t0] + rest);
        assert(ts.first() == t0);
        assert(ts.drop_first() == rest);
        assert(t0 + s.subrange(c, s.len() as int) =~= s.subrange(i, s.len() as int));
        assert forall|k: int| 0 < k < ts.len() implies is_sign(#[trigger] ts[k][0]) by {
            assert(ts[k] == rest[k - 1]);
            if k == 1 {
                assert(c < s.len());
                lemma_next_cut(s, c + 1);
                assert(rest[0] == s.subrange(c, next_cut(s, c + 1)));
                assert(rest[0][0] == s[c]);
            }
        }
        assert forall|k: int, j: int| 0 <= k < ts.len() && 0 < j < ts[k].len() implies !is_sign(
            #[trigger] ts[k][j],
        ) by {
            if k > 0 {
                assert(ts[k] == rest[k - 1]);
            } else {
                assert(ts[0][j] == s[i + j]);
            }
        }
        assert forall|k: int| 0 <= k < ts.len() implies (#[trigger] ts[k]).len() > 0 by {
            if k > 0 {
                assert(ts[k] == rest[k - 1]);
            }
        }
    } else {
        assert(s.subrange(i, s.len() as int) =~= Seq::<char>::empty());
    }
}

/// The terms of an expression put together give the expression back; none
/// is empty; every term but the first starts with `+` or `-`; and no term
/// holds a `+` or `-` after its first char.
pub proof fn lemma_split_terms(s: Seq<char>)
    ensures
        spec_split_terms(s).flatten() == s,
        forall|k: int| 0 <= k < spec_split_terms(s).len() ==> (#[trigger] spec_split_terms(s)[k]).len() > 0,
        forall|k: int| 0 < k < spec_split_terms(s).len() ==> is_sign(#[trigger] spec_split_terms(s)[k][0]),
        forall|k: int, j: int|
            0 <= k < spec_split_terms(s).len() && 0 < j < spec_split_terms(s)[k].len() ==> !is_sign(
                #[trigger] spec_split_terms(s)[k][j],
            ),
{
    lemma_terms_from(s, 0);
    assert(s.subrange(0, s.len() as int) =~= s);
}

/// A group is present in a term exactly when, as the set of the term's
/// factors that belong to the group is counted, the count equals the
/// group's length (which fails where the group lists a variable twice).
pub proof fn lemma_group_present_count(fs: Seq<Seq<char>>, g: Seq<Seq<char>>)
    ensures
        group_present(fs, g) <==> fs.to_set().intersect(g.to_set()).len() == g.len(),
{
    let f = fs.to_set();
    let gs = g.to_set();
    fs.lemma_cardinality_of_set();
    g.lemma_cardinality_of_set();
    assert(f.finite() && gs.finite()) by {
        vstd::seq_lib::seq_to_set_is_finite(fs);
        vstd::seq_lib::seq_to_set_is_finite(g);
    }
    assert(f.intersect(gs).subset_of(gs));
    vstd::set_lib::lemma_len_subset(f.intersect(gs), gs);
    if group_present(fs, g) {
        g.unique_seq_to_set();
        assert(f.intersect(gs) =~= gs) by {
            assert forall|x: Seq<char>| gs.contains(x) implies f.contains(x) by {
                let i = choose|i: int| 0 <= i < g.len() && g[i] == x;
                assert(fs.contains(g[i]));
            }
        }
    }
    if f.intersect(gs).len() == g.len() {
        assert(gs.len() == g.len());
        g.lemma_no_dup_set_cardinality();
        vstd::set_lib::lemma_subset_equality(f.intersect(gs), gs);
        assert forall|i: int| 0 <= i < g.len() implies fs.contains(g[i]) by {
            assert(gs.contains(g[i]));
            assert(f.intersect(gs).contains(g[i]));
        }
    }
}

/// Where no term holds the whole group, replacing the group leaves the
/// equation as it is.
pub proof fn lemma_replace_absent_group(equation: Seq<char>, group: Seq<Seq<char>>, replacement: Seq<char>)
    requires
        forall|k: int| 0 <= k < spec_split_terms(equation).len() ==> !group_present(
            spec_split_factors(
                #[trigger] spec_split_terms(equation)[k].subrange(
                    sign_len(spec_split_terms(equation)[k]),
                    spec_split_terms(equation)[k].len() as int,
                ),
            ),
            group,
        ),
    ensures
        spec_replace_group(equation, group, replacement) == equation,
{
    let ts = spec_split_terms(equation);
    lemma_split_terms(equation);
    let mapped = ts.map_values(|t: Seq<char>| spec_replace_group_in_term(t, group, replacement));
    assert(mapped =~= ts);
}


/// A list of terms as `split_terms` makes them: none empty, every one but
/// the first starting with a sign, and no sign after any term's first char.
pub open spec fn well_split(ts: Seq<Seq<char>>) -> bool {
    &&& forall|k: int| 0 <= k < ts.len() ==> (#[trigger] ts[k]).len() > 0
    &&& forall|k: int| 0 < k < ts.len() ==> is_sign(#[trigger] ts[k][0])
    &&& forall|k: int, j: int| 0 <= k < ts.len() && 0 < j < ts[k].len() ==> !is_sign(#[trigger] ts[k][j])
}

proof fn lemma_next_cut_at(s: Seq<char>, j: int, m: int)
    requires
        0 <= j <= m <= s.len(),
        forall|k: int| j <= k < m ==> !is_sign(s[k]),
        m == s.len() || is_sign(s[m]),
    ensures
        next_cut(s, j) == m,
    decreases m - j,
{
    if j < m {
        lemma_next_cut_at(s, j + 1, m);
    }
}

proof fn lemma_terms_from_concat(p: Seq<char>, ts: Seq<Seq<char>>)
    requires
        well_split(ts),
    ensures
        terms_from(p + ts.flatten(), p.len() as int) == ts,
    decreases ts.len(),
{
    if ts.len() == 0 {
        assert(p + ts.flatten() =~= p);
        assert(terms_from(p, p.len() as int) =~= ts);
    } else {
        let t0 = ts[0];
        let rest = ts.drop_first();
        let rf = rest.flatten();
        let s = p + ts.flatten();
        let i = p.len() as int;
        let m = i + t0.len();
        assert(ts.flatten() == t0 + rf);
        assert(s =~= (p + t0) + rf);
        assert forall|k: int| i + 1 <= k < m implies !is_sign(s[k]) by {
            assert(s[k] == t0[k - i]);
        }
        if rest.len() > 0 {
            assert(rest[0] == ts[1]);
            assert(rf == rest[0] + rest.drop_first().flatten());
            assert(s[m] == rf[0]);
            assert(is_sign(ts[1][0]));
        } else {
            assert(rf =~= Seq::<char>::empty());
        }
        lemma_next_cut_at(s, i + 1, m);
        assert(s.subrange(i, m) =~= t0);
        assert forall|k: int| 0 < k < rest.len() implies is_sign(#[trigger] rest[k][0]) by {
            assert(rest[k] == ts[k + 1]);
        }
        assert forall|k: int, j: int| 0 <= k < rest.len() && 0 < j < rest[k].len() implies !is_sign(
            #[trigger] rest[k][j],
        ) by {
            assert(rest[k] == ts[k + 1]);
        }
        assert forall|k: int| 0 <= k < rest.len() implies (#[trigger] rest[k]).len() > 0 by {
            assert(rest[k] == ts[k + 1]);
        }
        lemma_terms_from_concat(p + t0, rest);
        assert(terms_from(s, i) == seq![t0] + terms_from(s, m));
        assert(seq![t0] + rest =~= ts);
    }
}

/// Terms as `split_terms` makes them, put together and split again, come
/// back as they were.
pub proof fn lemma_split_flatten(ts: Seq<Seq<char>>)
    requires
        well_split(ts),
    ensures
        spec_split_terms(ts.flatten()) == ts,
{
    lemma_terms_from_concat(Seq::<char>::empty(), ts);
    assert(Seq::<char>::empty() + ts.flatten() =~= ts.flatten());
}

proof fn lemma_join_front(a: Seq<char>, rest: Seq<Seq<char>>, sep: char)
    requires
        rest.len() > 0,
    ensures
        join_with(seq![a] + rest, sep) == a + seq![sep] + join_with(rest, sep),
    decreases rest.len(),
{
    let ps = seq![a] + rest;
    if rest.len() == 1 {
        assert(ps.drop_last() =~= seq![a]);
        assert(ps.last() == rest[0]);
        assert(join_with(seq![a], sep) == a);
        assert(join_with(rest, sep) == rest[0]);
        assert(join_with(ps, sep) == join_with(ps.drop_last(), sep) + seq![sep] + ps.last());
    } else {
        assert(ps.drop_last() =~= seq![a] + rest.drop_last());
        assert(ps.last() == rest.last());
        lemma_join_front(a, rest.drop_last(), sep);
        assert(join_with(ps, sep) == join_with(ps.drop_last(), sep) + seq![sep] + ps.last());
        assert(join_with(rest, sep) == join_with(rest.drop_last(), sep) + seq![sep] + rest.last());
        assert(join_with(ps, sep) =~= a + seq![sep] + join_with(rest, sep));
    }
}

proof fn lemma_next_star_at(s: Seq<char>, j: int, m: int)
    requires
        0 <= j <= m <= s.len(),
        forall|k: int| j <= k < m ==> s[k] != '*',
        m == s.len() || s[m] == '*',
    ensures
        next_star(s, j) == m,
    decreases m - j,
{
    if j < m {
        lemma_next_star_at(s, j + 1, m);
    }
}

proof fn lemma_pieces_concat(p: Seq<char>, ps: Seq<Seq<char>>)
    requires
        ps.len() > 0,
        forall|k: int, j: int| 0 <= k < ps.len() && 0 <= j < ps[k].len() ==> #[trigger] ps[k][j] != '*',
    ensures
        pieces_from(p + join_with(ps, '*'), p.len() as int) == ps,
    decreases ps.len(),
{
    let a = ps[0];
    let rest = ps.drop_first();
    let i = p.len() as int;
    assert(ps =~= seq![a] + rest);
    if rest.len() == 0 {
        let s = p + a;
        assert(join_with(ps, '*') == a);
        assert forall|k: int| i <= k < s.len() implies s[k] != '*' by {
            assert(s[k] == ps[0][k - i]);
        }
        lemma_next_star_at(s, i, s.len() as int);
        assert(s.subrange(i, s.len() as int) =~= a);
        assert(pieces_from(s, i) =~= ps);
    } else {
        lemma_join_front(a, rest, '*');
        let s = p + join_with(ps, '*');
        let m = i + a.len();
        assert(s =~= (p + a + seq!['*']) + join_with(rest, '*'));
        assert forall|k: int| i <= k < m implies s[k] != '*' by {
            assert(s[k] == ps[0][k - i]);
        }
        assert(s[m] == '*');
        lemma_next_star_at(s, i, m);
        assert forall|k: int, j: int| 0 <= k < rest.len() && 0 <= j < rest[k].len() implies #[trigger] rest[k][j]
            != '*' by {
            assert(rest[k] == ps[k + 1]);
        }
        lemma_pieces_concat(p + a + seq!['*'], rest);
        assert(s.subrange(i, m) =~= a);
        assert(pieces_from(s, i) == seq![a] + pieces_from(s, m + 1));
    }
}

proof fn lemma_pieces_chars(s: Seq<char>, i: int)
    requires
        0 <= i,
        forall|j: int| 0 <= j < s.len() ==> !is_sign(#[trigger] s[j]),
    ensures
        forall|k: int, j: int|
            0 <= k < pieces_from(s, i).len() && 0 <= j < pieces_from(s, i)[k].len() ==> !is_sign(
                #[trigger] pieces_from(s, i)[k][j],
            ) && pieces_from(s, i)[k][j] != '*',
    decreases s.len() + 1 - i,
{
    if i <= s.len() {
        let c = next_star(s, i);
        lemma_next_star(s, i);
        let ps = pieces_from(s, i);
        if c < s.len() {
            lemma_pieces_chars(s, c + 1);
        }
        assert forall|k: int, j: int| 0 <= k < ps.len() && 0 <= j < ps[k].len() implies !is_sign(
            #[trigger] ps[k][j],
        ) && ps[k][j] != '*' by {
            if k == 0 {
                assert(ps[0] == s.subrange(i, c));
                assert(ps[0][j] == s[i + j]);
            } else {
                assert(ps[k] == pieces_from(s, c + 1)[k - 1]);
            }
        }
    }
}

proof fn lemma_ungrouped_members(fs: Seq<Seq<char>>, g: Seq<Seq<char>>)
    ensures
        forall|k: int| 0 <= k < ungrouped(fs, g).len() ==> fs.contains(#[trigger] ungrouped(fs, g)[k])
            && !g.contains(ungrouped(fs, g)[k]),
    decreases fs.len(),
{
    if fs.len() > 0 {
        lemma_ungrouped_members(fs.drop_last(), g);
        let u = ungrouped(fs, g);
        let prev = ungrouped(fs.drop_last(), g);
        assert forall|k: int| 0 <= k < u.len() implies fs.contains(#[trigger] u[k]) && !g.contains(u[k]) by {
            if k < prev.len() {
                assert(u[k] == prev[k]);
                let x = choose|x: int| 0 <= x < fs.drop_last().len() && fs.drop_last()[x] == prev[k];
                assert(fs[x] == prev[k]);
            } else {
                assert(u[k] == fs.last());
                assert(fs[fs.len() - 1] == fs.last());
            }
        }
    }
}

proof fn lemma_join_no_sign(ps: Seq<Seq<char>>, sep: char)
    requires
        !is_sign(sep),
        forall|k: int, j: int| 0 <= k < ps.len() && 0 <= j < ps[k].len() ==> !is_sign(#[trigger] ps[k][j]),
    ensures
        forall|j: int| 0 <= j < join_with(ps, sep).len() ==> !is_sign(#[trigger] join_with(ps, sep)[j]),
    decreases ps.len(),
{
    if ps.len() == 1 {
        assert forall|j: int| 0 <= j < join_with(ps, sep).len() implies !is_sign(#[trigger] join_with(ps, sep)[j]) by {
            assert(ps[0][j] == join_with(ps, sep)[j]);
        }
    } else if ps.len() > 1 {
        let front = ps.drop_last();
        assert forall|k: int, j: int| 0 <= k < front.len() && 0 <= j < front[k].len() implies !is_sign(
            #[trigger] front[k][j],
        ) by {
            assert(front[k] == ps[k]);
        }
        lemma_join_no_sign(front, sep);
        let jf = join_with(front, sep);
        let whole = join_with(ps, sep);
        assert(whole == jf + seq![sep] + ps.last());
        assert forall|j: int| 0 <= j < whole.len() implies !is_sign(#[trigger] whole[j]) by {
            if j < jf.len() {
                assert(whole[j] == jf[j]);
            } else if j == jf.len() {
                assert(whole[j] == sep);
            } else {
                assert(whole[j] == ps[ps.len() - 1][j - jf.len() - 1]);
            }
        }
    }
}

proof fn lemma_replace_term_idempotent(t: Seq<char>, g: Seq<Seq<char>>, r: Seq<char>)
    requires
        t.len() > 0,
        forall|j: int| 0 < j < t.len() ==> !is_sign(#[trigger] t[j]),
        g.len() > 0,
        r.len() > 0,
        forall|j: int| 0 <= j < r.len() ==> !is_sign(#[trigger] r[j]) && r[j] != '*',
        !g.contains(r),
    ensures
        ({
            let m = spec_replace_group_in_term(t, g, r);
            &&& spec_replace_group_in_term(m, g, r) == m
            &&& m.len() > 0
            &&& is_sign(t[0]) ==> m[0] == t[0]
            &&& !is_sign(t[0]) ==> !is_sign(m[0])
            &&& forall|j: int| 0 < j < m.len() ==> !is_sign(#[trigger] m[j])
        }),
{
    let sl = sign_len(t);
    let body = t.subrange(sl, t.len() as int);
    assert forall|j: int| 0 <= j < body.len() implies !is_sign(#[trigger] body[j]) by {
        assert(body[j] == t[sl + j]);
    }
    let fs = spec_split_factors(body);
    lemma_pieces_chars(body, 0);
    let m = spec_replace_group_in_term(t, g, r);
    if group_present(fs, g) {
        let u = ungrouped(fs, g);
        let ps = seq![r] + u;
        lemma_ungrouped_members(fs, g);
        assert forall|k: int, j: int| 0 <= k < ps.len() && 0 <= j < ps[k].len() implies !is_sign(
            #[trigger] ps[k][j],
        ) && ps[k][j] != '*' by {
            if k == 0 {
                assert(ps[0] == r);
            } else {
                assert(ps[k] == u[k - 1]);
                assert(fs.contains(u[k - 1]));
                let x = choose|x: int| 0 <= x < fs.len() && fs[x] == u[k - 1];
                assert(fs[x][j] == ps[k][j]);
            }
        }
        assert forall|k: int, j: int| 0 <= k < ps.len() && 0 <= j < ps[k].len() implies #[trigger] ps[k][j]
            != '*' by {
            assert(!is_sign(ps[k][j]) && ps[k][j] != '*');
        }
        assert forall|k: int, j: int| 0 <= k < ps.len() && 0 <= j < ps[k].len() implies !is_sign(
            #[trigger] ps[k][j],
        ) by {
            assert(!is_sign(ps[k][j]) && ps[k][j] != '*');
        }
        let jn = join_with(ps, '*');
        lemma_join_no_sign(ps, '*');
        if u.len() > 0 {
            lemma_join_front(r, u, '*');
            assert(jn[0] == r[0]);
        } else {
            assert(ps =~= seq![r]);
            assert(jn == r);
        }
        assert(m == t.subrange(0, sl) + jn);
        assert(sign_len(m) == sl);
        assert(m.subrange(sl, m.len() as int) =~= jn);
        lemma_pieces_concat(Seq::<char>::empty(), ps);
        assert(Seq::<char>::empty() + jn =~= jn);
        assert(spec_split_factors(jn) == ps);
        assert(!ps.contains(g[0])) by {
            if ps.contains(g[0]) {
                let k = choose|k: int| 0 <= k < ps.len() && ps[k] == g[0];
                if k == 0 {
                    assert(g.contains(r));
                } else {
                    assert(ps[k] == u[k - 1]);
                    assert(g.contains(u[k - 1]));
                }
            }
        }
        assert(!group_present(ps, g));
        assert forall|j: int| 0 < j < m.len() implies !is_sign(#[trigger] m[j]) by {
            if sl == 1 {
                assert(m[j] == jn[j - 1]);
            } else {
                assert(m[j] == jn[j]);
            }
        }
    }
}

/// Replacing a group a second time changes nothing, for a non-empty group
/// and a non-empty replacement that holds no `+`, `-` or `*` and is not a
/// member of the group.
pub proof fn lemma_replace_group_idempotent(equation: Seq<char>, group: Seq<Seq<char>>, replacement: Seq<char>)
    requires
        group.len() > 0,
        replacement.len() > 0,
        forall|j: int| 0 <= j < replacement.len() ==> !is_sign(#[trigger] replacement[j]) && replacement[j] != '*',
        !group.contains(replacement),
    ensures
        spec_replace_group(spec_replace_group(equation, group, replacement), group, replacement)
            == spec_replace_group(equation, group, replacement),
{
    let ts = spec_split_terms(equation);
    lemma_split_terms(equation);
    let ms = ts.map_values(|t: Seq<char>| spec_replace_group_in_term(t, group, replacement));
    assert forall|k: int| #![trigger ts[k]] 0 <= k < ts.len() implies ({
        let m = spec_replace_group_in_term(ts[k], group, replacement);
        &&& spec_replace_group_in_term(m, group, replacement) == m
        &&& m.len() > 0
        &&& is_sign(ts[k][0]) ==> m[0] == ts[k][0]
        &&& forall|j: int| 0 < j < m.len() ==> !is_sign(#[trigger] m[j])
    }) by {
        assert forall|j: int| 0 < j < ts[k].len() implies !is_sign(#[trigger] ts[k][j]) by {}
        lemma_replace_term_idempotent(ts[k], group, replacement);
    }
    assert(well_split(ms)) by {
        assert forall|k: int| 0 < k < ms.len() implies is_sign(#[trigger] ms[k][0]) by {
            assert(is_sign(ts[k][0]));
        }
    }
    lemma_split_flatten(ms);
    let again = ms.map_values(|t: Seq<char>| spec_replace_group_in_term(t, group, replacement));
    assert(again =~= ms);
}


proof fn lemma_ungrouped_is_filter(fs: Seq<Seq<char>>, g: Seq<Seq<char>>)
    ensures
        ungrouped(fs, g) == fs.filter(|f: Seq<char>| !g.contains(f)),
    decreases fs.len(),
{
    reveal(Seq::filter);
    if fs.len() > 0 {
        lemma_ungrouped_is_filter(fs.drop_last(), g);
    }
}

proof fn lemma_filter_partition_len(fs: Seq<Seq<char>>, g: Seq<Seq<char>>)
    ensures
        fs.filter(|f: Seq<char>| g.contains(f)).len() + fs.filter(|f: Seq<char>| !g.contains(f)).len() == fs.len(),
    decreases fs.len(),
{
    reveal(Seq::filter);
    if fs.len() > 0 {
        lemma_filter_partition_len(fs.drop_last(), g);
    }
}

proof fn lemma_pieces_no_star(s: Seq<char>, i: int)
    requires
        0 <= i,
    ensures
        forall|k: int, j: int|
            0 <= k < pieces_from(s, i).len() && 0 <= j < pieces_from(s, i)[k].len() ==> #[trigger] pieces_from(
                s,
                i,
            )[k][j] != '*',
    decreases s.len() + 1 - i,
{
    if i <= s.len() {
        let c = next_star(s, i);
        lemma_next_star(s, i);
        let ps = pieces_from(s, i);
        if c < s.len() {
            lemma_pieces_no_star(s, c + 1);
        }
        assert forall|k: int, j: int| 0 <= k < ps.len() && 0 <= j < ps[k].len() implies #[trigger] ps[k][j]
            != '*' by {
            if k == 0 {
                assert(ps[0] == s.subrange(i, c));
                assert(ps[0][j] == s[i + j]);
            } else {
                assert(ps[k] == pieces_from(s, c + 1)[k - 1]);
            }
        }
    }
}

/// What replacing a group does to one term. Where every member of the group
/// is a factor of the term (and no member is listed twice), the term keeps
/// its sign, and its factors become the replacement followed by every factor
/// of the term that is not in the group, each as often as it occurs there
/// and in the same order: one factor more than the term had, less the
/// grouped ones. Any other term stays as it is.
pub proof fn lemma_replace_group_in_term_factors(t: Seq<char>, group: Seq<Seq<char>>, replacement: Seq<char>)
    requires
        forall|j: int| 0 <= j < replacement.len() ==> #[trigger] replacement[j] != '*',
    ensures
        ({
            let sl = sign_len(t);
            let fs = spec_split_factors(t.subrange(sl, t.len() as int));
            let m = spec_replace_group_in_term(t, group, replacement);
            &&& group_present(fs, group) ==> {
                &&& sl <= m.len()
                &&& m.subrange(0, sl) == t.subrange(0, sl)
                &&& spec_split_factors(m.subrange(sl, m.len() as int)) == seq![replacement] + fs.filter(
                    |f: Seq<char>| !group.contains(f),
                )
                &&& spec_split_factors(m.subrange(sl, m.len() as int)).len() == fs.len() - fs.filter(
                    |f: Seq<char>| group.contains(f),
                ).len() + 1
            }
            &&& !group_present(fs, group) ==> m == t
        }),
{
    let sl = sign_len(t);
    let body = t.subrange(sl, t.len() as int);
    let fs = spec_split_factors(body);
    let m = spec_replace_group_in_term(t, group, replacement);
    if group_present(fs, group) {
        let u = ungrouped(fs, group);
        let ps = seq![replacement] + u;
        lemma_ungrouped_members(fs, group);
        lemma_pieces_no_star(body, 0);
        assert forall|k: int, j: int| 0 <= k < ps.len() && 0 <= j < ps[k].len() implies #[trigger] ps[k][j]
            != '*' by {
            if k == 0 {
                assert(ps[0] == replacement);
            } else {
                assert(ps[k] == u[k - 1]);
                assert(fs.contains(u[k - 1]));
                let x = choose|x: int| 0 <= x < fs.len() && fs[x] == u[k - 1];
                assert(fs[x][j] == ps[k][j]);
            }
        }
        let jn = join_with(ps, '*');
        assert(m == t.subrange(0, sl) + jn);
        assert(m.subrange(0, sl) =~= t.subrange(0, sl));
        assert(m.subrange(sl, m.len() as int) =~= jn);
        lemma_pieces_concat(Seq::<char>::empty(), ps);
        assert(Seq::<char>::empty() + jn =~= jn);
        lemma_ungrouped_is_filter(fs, group);
        lemma_filter_partition_len(fs, group);
    }
}

} // verus!
