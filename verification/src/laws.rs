//! Properties of the library as a whole: of the query language and of running
//! queries.

use vstd::prelude::*;

use crate::chars::{
    all_digits, decimal, digit_value, digits_value, lemma_decimal, lemma_next_index_of,
    lemma_parse_decimal, next_index_of, spec_parse_usize, trim, trim_end, trim_start,
};
use vstd::arithmetic::power::pow;
use crate::lexer::{
    flush, lemma_prepend_prepend, lex_from, prepend, spec_classify, spec_compile, spec_compiler_step,
    spec_generic_index, spec_slicers, IndexSpec,
    LexErrorSpec, OpSpec, SlicerSpec,
};
use crate::query::{eval, eval_elements, eval_members, join, lemma_join_assoc, slicer_selects, Outcome};
use crate::value::Json;

verus! {

/// Running no steps at all gives the input itself as the only result.
pub proof fn law_empty_query_returns_input(d: Json)
    ensures
        eval(d, seq![]) == Outcome::Found(seq![d]),
{
}

proof fn lemma_wildcard_elements(a: Seq<Json>, k: int)
    requires
        0 <= k <= a.len(),
    ensures
        eval_elements(a, IndexSpec::Wildcard, seq![], k) == Outcome::Found(a.skip(k)),
    decreases a.len() - k,
{
    if k < a.len() {
        lemma_wildcard_elements(a, k + 1);
        assert(eval(a[k], seq![]) == Outcome::Found(seq![a[k]]));
        assert(seq![a[k]] + a.skip(k + 1) =~= a.skip(k));
    } else {
        assert(a.skip(k) =~= Seq::<Json>::empty());
    }
}

/// `[]` as the last step selects every element of an array, in order.
pub proof fn law_wildcard_selects_every_element(a: Seq<Json>)
    ensures
        eval(Json::Array(a), seq![OpSpec::Generic(IndexSpec::Wildcard)]) == Outcome::Found(a),
{
    lemma_wildcard_elements(a, 0);
    assert(a.skip(0) =~= a);
    assert(seq![OpSpec::Generic(IndexSpec::Wildcard)].drop_first() =~= Seq::<OpSpec>::empty());
}

/// The values of the members of `m`, in order.
pub open spec fn member_values(m: Seq<(Seq<char>, Json)>) -> Seq<Json> {
    m.map_values(|e: (Seq<char>, Json)| e.1)
}

proof fn lemma_wildcard_members(m: Seq<(Seq<char>, Json)>, k: int)
    requires
        0 <= k <= m.len(),
    ensures
        eval_members(m, IndexSpec::Wildcard, seq![], k) == Outcome::Found(member_values(m).skip(k)),
    decreases m.len() - k,
{
    if k < m.len() {
        lemma_wildcard_members(m, k + 1);
        assert(eval(m[k].1, seq![]) == Outcome::Found(seq![m[k].1]));
        assert(seq![m[k].1] + member_values(m).skip(k + 1) =~= member_values(m).skip(k));
    } else {
        assert(member_values(m).skip(k) =~= Seq::<Json>::empty());
    }
}

/// `[]` as the last step selects the value of every member of an object, in
/// order.
pub proof fn law_wildcard_selects_every_member(m: Seq<(Seq<char>, Json)>)
    ensures
        eval(Json::Object(m), seq![OpSpec::Generic(IndexSpec::Wildcard)]) == Outcome::Found(member_values(m)),
{
    lemma_wildcard_members(m, 0);
    assert(member_values(m).skip(0) =~= member_values(m));
    assert(seq![OpSpec::Generic(IndexSpec::Wildcard)].drop_first() =~= Seq::<OpSpec>::empty());
}

/// Whether an item of a generic index selects the array position `k`, read
/// as numbers.
pub open spec fn position_selected(k: usize, s: SlicerSpec) -> bool {
    match s {
        SlicerSpec::Index(i) => k == i,
        SlicerSpec::Slice(f, t) => f <= k && k <= t,
        SlicerSpec::SliceFrom(f) => f <= k,
        SlicerSpec::SliceTo(t) => k <= t,
        SlicerSpec::Ident(id) => spec_parse_usize(id) == Some(k),
    }
}

/// An array element is selected by its position as a number: `[k]` selects
/// position `k`, `[a-b]` the positions `a` to `b`, both included, `[a-]` those
/// from `a`, `[-b]` those up to `b`, and a name the position it reads as.
pub proof fn law_array_position_selection(k: usize, s: SlicerSpec)
    ensures
        slicer_selects(decimal(k as nat), s) == position_selected(k, s),
{
    lemma_parse_decimal(k);
}

/// Searching from a position inside `t` finds the same place in `x + t`,
/// shifted by the length of `x`.
proof fn lemma_next_index_shift(x: Seq<char>, t: Seq<char>, p: int, c: char)
    requires
        0 <= p <= t.len(),
    ensures
        next_index_of(x + t, x.len() + p, c) == x.len() + next_index_of(t, p, c),
    decreases t.len() - p,
{
    if p < t.len() {
        assert((x + t)[x.len() + p] == t[p]);
        if t[p] != c {
            lemma_next_index_shift(x, t, p + 1, c);
        }
    }
}

/// Reading a query from a position inside `t` does not depend on what stands
/// before `t`.
proof fn lemma_lex_shift(x: Seq<char>, t: Seq<char>, i: int, c: Seq<char>)
    requires
        0 <= i <= t.len(),
    ensures
        lex_from(x + t, x.len() + i, c) == lex_from(t, i, c),
    decreases t.len() - i,
{
    let s = x + t;
    if i < t.len() {
        assert(s[x.len() + i] == t[i]);
        if t[i] == '.' {
            lemma_lex_shift(x, t, i + 1, seq![]);
        } else if t[i] == '[' {
            lemma_next_index_shift(x, t, i + 1, ']');
            lemma_next_index_of(t, i + 1, ']');
            let j = next_index_of(t, i + 1, ']');
            if j < t.len() {
                assert(s.subrange(x.len() + i + 1, x.len() + j) =~= t.subrange(i + 1, j));
                lemma_lex_shift(x, t, j + 1, seq![]);
            }
        } else {
            lemma_lex_shift(x, t, i + 1, c.push(t[i]));
        }
    }
}

/// Appending a character other than `c` moves a search for `c` that fails
/// to the new end, and leaves one that succeeds where it was.
proof fn lemma_next_index_push(s: Seq<char>, x: char, p: int, c: char)
    requires
        0 <= p <= s.len(),
        x != c,
    ensures
        next_index_of(s.push(x), p, c) == if next_index_of(s, p, c) < s.len() {
            next_index_of(s, p, c)
        } else {
            s.len() + 1int
        },
    decreases s.len() - p,
{
    if p < s.len() {
        assert(s.push(x)[p] == s[p]);
        if s[p] != c {
            lemma_next_index_push(s, x, p + 1, c);
        }
    } else {
        assert(s.push(x)[p] == x);
        assert(next_index_of(s.push(x), p + 1, c) == s.len() + 1);
    }
}

proof fn lemma_trailing_dot(s: Seq<char>, i: int, c: Seq<char>)
    requires
        0 <= i <= s.len(),
    ensures
        lex_from(s.push('.'), i, c) == lex_from(s, i, c),
    decreases s.len() - i,
{
    let s2 = s.push('.');
    if i == s.len() {
        assert(lex_from(s2, i + 1, seq![]) == Ok::<Seq<OpSpec>, LexErrorSpec>(seq![]));
        assert(flush(c) + Seq::<OpSpec>::empty() =~= flush(c));
    } else {
        assert(s2[i] == s[i]);
        if s[i] == '.' {
            lemma_trailing_dot(s, i + 1, seq![]);
        } else if s[i] == '[' {
            lemma_next_index_push(s, '.', i + 1, ']');
            lemma_next_index_of(s, i + 1, ']');
            let j = next_index_of(s, i + 1, ']');
            if j < s.len() {
                assert(s2.subrange(i + 1, j) =~= s.subrange(i + 1, j));
                lemma_trailing_dot(s, j + 1, seq![]);
            }
        } else {
            lemma_trailing_dot(s, i + 1, c.push(s[i]));
        }
    }
}

/// A `.` at the end of a query changes nothing.
pub proof fn law_trailing_dot_changes_nothing(s: Seq<char>)
    ensures
        spec_compile(s.push('.')) == spec_compile(s),
{
    lemma_trailing_dot(s, 0, seq![]);
}

/// The characters of a name are collected one by one.
proof fn lemma_collect_name(s: Seq<char>, from: int, w: Seq<char>, k: int)
    requires
        0 <= from,
        0 <= k <= w.len(),
        from + w.len() <= s.len(),
        s.subrange(from, from + w.len()) == w,
        forall|i: int| 0 <= i < w.len() ==> w[i] != '.' && w[i] != '[',
    ensures
        lex_from(s, from + k, w.take(k)) == lex_from(s, from + w.len(), w),
    decreases w.len() - k,
{
    if k < w.len() {
        assert(s[from + k] == w[k]);
        assert(w.take(k).push(w[k]) =~= w.take(k + 1));
        lemma_collect_name(s, from, w, k + 1);
    } else {
        assert(w.take(k) =~= w);
    }
}

/// `.name` followed by a query that starts a new step (or by nothing)
/// compiles to the step `name` followed by the steps of that query.
pub proof fn law_name_then_rest(w: Seq<char>, t: Seq<char>)
    requires
        w.len() > 0,
        forall|i: int| 0 <= i < w.len() ==> w[i] != '.' && w[i] != '[',
        starts_step(t),
    ensures
        spec_compile(seq!['.'] + w + t) == prepend(seq![OpSpec::Identifier(w)], spec_compile(t)),
{
    let x = seq!['.'] + w;
    let s = x + t;
    assert(s[0] == '.');
    assert(s.subrange(1, 1 + w.len() as int) =~= w);
    lemma_collect_name(s, 1, w, 0);
    assert(w.take(0) =~= Seq::<char>::empty());
    lemma_lex_shift(x, t, 0, w);
    let rest = lex_from(s, 1, seq![]);
    assert(Seq::<OpSpec>::empty() + Seq::<OpSpec>::empty() =~= Seq::<OpSpec>::empty());
    assert(lex_from(s, 0, seq![]) == prepend(Seq::<OpSpec>::empty(), rest));
    if let Ok(v) = rest {
        assert(Seq::<OpSpec>::empty() + v =~= v);
    }
    assert(flush(w) == seq![OpSpec::Identifier(w)]);
    lemma_name_before_step(t, w);
}

/// Running `ops` on each of `ds` in turn; the first failure wins.
pub open spec fn eval_all(ds: Seq<Json>, ops: Seq<OpSpec>) -> Outcome
    decreases ds.len(),
{
    if ds.len() == 0 {
        Outcome::Found(seq![])
    } else {
        join(eval(ds[0], ops), eval_all(ds.drop_first(), ops))
    }
}

/// Running steps on a concatenation is running them on each part in turn.
proof fn lemma_eval_all_concat(xs: Seq<Json>, ys: Seq<Json>, ops: Seq<OpSpec>)
    ensures
        eval_all(xs + ys, ops) == join(eval_all(xs, ops), eval_all(ys, ops)),
    decreases xs.len(),
{
    if xs.len() == 0 {
        assert(xs + ys =~= ys);
        match eval_all(ys, ops) {
            Outcome::Found(t) => {
                assert(Seq::<Json>::empty() + t =~= t);
            },
            Outcome::NoSuchKey(t, _) => {
                assert(Seq::<Json>::empty() + t =~= t);
            },
            Outcome::Unsupported(t) => {
                assert(Seq::<Json>::empty() + t =~= t);
            },
        }
    } else {
        assert((xs + ys).drop_first() =~= xs.drop_first() + ys);
        assert((xs + ys)[0] == xs[0]);
        lemma_eval_all_concat(xs.drop_first(), ys, ops);
        lemma_join_assoc(eval(xs[0], ops), eval_all(xs.drop_first(), ops), eval_all(ys, ops));
    }
}

/// Running steps on a single value.
proof fn lemma_eval_all_single(d: Json, ops: Seq<OpSpec>)
    ensures
        eval_all(seq![d], ops) == eval(d, ops),
{
    assert(seq![d].drop_first() =~= Seq::<Json>::empty());
    assert(eval_all(Seq::<Json>::empty(), ops) == Outcome::Found(Seq::<Json>::empty()));
    assert(seq![d][0] == d);
    if let Outcome::Found(t) = eval(d, ops) {
        assert(t + Seq::<Json>::empty() =~= t);
    }
}

proof fn lemma_compose_elements(a: Seq<Json>, g: IndexSpec, r1: Seq<OpSpec>, ops2: Seq<OpSpec>, k: int)
    requires
        0 <= k,
        eval_elements(a, g, r1, k) is Found,
    ensures
        eval_elements(a, g, r1 + ops2, k) == eval_all(eval_elements(a, g, r1, k)->Found_0, ops2),
    decreases r1.len() + 1, 0int, a.len() - k,
{
    if k < a.len() {
        let sel = crate::query::index_selects(decimal(k as nat), g);
        let here = if sel { eval(a[k], r1) } else { Outcome::Found(seq![]) };
        let tail = eval_elements(a, g, r1, k + 1);
        assert(here is Found && tail is Found);
        lemma_compose_elements(a, g, r1, ops2, k + 1);
        if sel {
            law_steps_compose(a[k], r1, ops2);
        }
        lemma_eval_all_concat(here->Found_0, tail->Found_0, ops2);
    }
}

proof fn lemma_compose_members(m: Seq<(Seq<char>, Json)>, g: IndexSpec, r1: Seq<OpSpec>, ops2: Seq<OpSpec>, k: int)
    requires
        0 <= k,
        eval_members(m, g, r1, k) is Found,
    ensures
        eval_members(m, g, r1 + ops2, k) == eval_all(eval_members(m, g, r1, k)->Found_0, ops2),
    decreases r1.len() + 1, 0int, m.len() - k,
{
    if k < m.len() {
        let sel = crate::query::index_selects(m[k].0, g);
        let here = if sel { eval(m[k].1, r1) } else { Outcome::Found(seq![]) };
        let tail = eval_members(m, g, r1, k + 1);
        assert(here is Found && tail is Found);
        lemma_compose_members(m, g, r1, ops2, k + 1);
        if sel {
            law_steps_compose(m[k].1, r1, ops2);
        }
        lemma_eval_all_concat(here->Found_0, tail->Found_0, ops2);
    }
}

/// A query is its steps applied one after another: when the steps `ops1`
/// run on `d` without failing, running `ops1` then `ops2` gives what running
/// `ops2` on each value that `ops1` selects gives, in order.
pub proof fn law_steps_compose(d: Json, ops1: Seq<OpSpec>, ops2: Seq<OpSpec>)
    requires
        eval(d, ops1) is Found,
    ensures
        eval(d, ops1 + ops2) == eval_all(eval(d, ops1)->Found_0, ops2),
    decreases ops1.len(), 1int, 0int,
{
    if ops1.len() == 0 {
        assert(ops1 + ops2 =~= ops2);
        lemma_eval_all_single(d, ops2);
    } else {
        let ops = ops1 + ops2;
        let r1 = ops1.drop_first();
        assert(ops[0] == ops1[0]);
        assert(ops.drop_first() =~= r1 + ops2);
        match d {
            Json::Array(a) => match ops1[0] {
                OpSpec::Identifier(id) => {
                    let i = spec_parse_usize(id)->0;
                    law_steps_compose(a[i as int], r1, ops2);
                },
                OpSpec::Generic(g) => {
                    lemma_compose_elements(a, g, r1, ops2, 0);
                },
                OpSpec::Pipe(_) => {},
            },
            Json::Object(m) => match ops1[0] {
                OpSpec::Identifier(id) => {
                    let k = crate::query::first_key(m, id, 0);
                    law_steps_compose(m[k].1, r1, ops2);
                },
                OpSpec::Generic(g) => {
                    lemma_compose_members(m, g, r1, ops2, 0);
                },
                OpSpec::Pipe(_) => {},
            },
            _ => {},
        }
    }
}

/// `t` is empty or begins a new step.
pub open spec fn starts_step(t: Seq<char>) -> bool {
    t.len() == 0 || t[0] == '.' || t[0] == '['
}

/// A name collected before a query that begins a new step becomes a step of
/// its own, ahead of the steps of that query.
proof fn lemma_name_before_step(t: Seq<char>, c: Seq<char>)
    requires
        starts_step(t),
    ensures
        lex_from(t, 0, c) == prepend(flush(c), lex_from(t, 0, seq![])),
{
    assert(flush(Seq::<char>::empty()) =~= Seq::<OpSpec>::empty());
    if t.len() == 0 {
        assert(flush(c) + Seq::<OpSpec>::empty() =~= flush(c));
    } else if t[0] == '.' {
        let r = lex_from(t, 1, seq![]);
        lemma_prepend_prepend(flush(c), Seq::<OpSpec>::empty(), r);
        assert(flush(c) + Seq::<OpSpec>::empty() =~= flush(c));
    } else {
        lemma_next_index_of(t, 1, ']');
        let j = next_index_of(t, 1, ']');
        if j < t.len() {
            if let Ok(g) = spec_generic_index(t.subrange(1, j)) {
                let r = lex_from(t, j + 1, seq![]);
                lemma_prepend_prepend(flush(c), seq![OpSpec::Generic(g)], r);
                assert(flush(c).push(OpSpec::Generic(g)) =~= flush(c) + seq![OpSpec::Generic(g)]);
                assert(flush(Seq::<char>::empty()).push(OpSpec::Generic(g)) =~= seq![OpSpec::Generic(g)]);
            }
        }
    }
}

/// A search that succeeds inside `q1` finds the same place in `q1 + q2`.
proof fn lemma_next_index_prefix(q1: Seq<char>, q2: Seq<char>, p: int, c: char)
    requires
        0 <= p <= q1.len(),
        next_index_of(q1, p, c) < q1.len(),
    ensures
        next_index_of(q1 + q2, p, c) == next_index_of(q1, p, c),
    decreases q1.len() - p,
{
    assert((q1 + q2)[p] == q1[p]);
    if q1[p] != c {
        lemma_next_index_prefix(q1, q2, p + 1, c);
    }
}

proof fn lemma_concat(q1: Seq<char>, q2: Seq<char>, i: int, c: Seq<char>)
    requires
        0 <= i <= q1.len(),
        lex_from(q1, i, c) is Ok,
        starts_step(q2),
    ensures
        lex_from(q1 + q2, i, c) == prepend(lex_from(q1, i, c)->Ok_0, spec_compile(q2)),
    decreases q1.len() - i,
{
    let s = q1 + q2;
    if i == q1.len() {
        lemma_lex_shift(q1, q2, 0, c);
        lemma_name_before_step(q2, c);
    } else {
        assert(s[i] == q1[i]);
        if q1[i] == '.' {
            lemma_concat(q1, q2, i + 1, seq![]);
            lemma_prepend_prepend(flush(c), lex_from(q1, i + 1, seq![])->Ok_0, spec_compile(q2));
        } else if q1[i] == '[' {
            lemma_next_index_of(q1, i + 1, ']');
            let j = next_index_of(q1, i + 1, ']');
            lemma_next_index_prefix(q1, q2, i + 1, ']');
            assert(s.subrange(i + 1, j) =~= q1.subrange(i + 1, j));
            let g = spec_generic_index(q1.subrange(i + 1, j))->Ok_0;
            lemma_concat(q1, q2, j + 1, seq![]);
            lemma_prepend_prepend(flush(c).push(OpSpec::Generic(g)), lex_from(q1, j + 1, seq![])->Ok_0, spec_compile(q2));
        } else {
            lemma_concat(q1, q2, i + 1, c.push(q1[i]));
        }
    }
}

/// Two queries written one after the other, the second one beginning a new
/// step, compile to the steps of the first followed by those of the second.
pub proof fn law_compile_concat(q1: Seq<char>, q2: Seq<char>)
    requires
        spec_compile(q1) is Ok,
        starts_step(q2),
    ensures
        spec_compile(q1 + q2) == prepend(spec_compile(q1)->Ok_0, spec_compile(q2)),
{
    lemma_concat(q1, q2, 0, seq![]);
}

/// No step of `ops` is a `Pipe`.
pub open spec fn no_pipe(ops: Seq<OpSpec>) -> bool {
    forall|i: int| 0 <= i < ops.len() ==> !(#[trigger] ops[i] is Pipe)
}

proof fn lemma_lex_no_pipe(s: Seq<char>, i: int, c: Seq<char>)
    requires
        lex_from(s, i, c) is Ok,
    ensures
        no_pipe(lex_from(s, i, c)->Ok_0),
    decreases s.len() - i,
{
    if i < 0 || i >= s.len() {
    } else if s[i] == '.' {
        lemma_lex_no_pipe(s, i + 1, seq![]);
        let t = lex_from(s, i + 1, seq![])->Ok_0;
        assert forall|k: int| 0 <= k < (flush(c) + t).len() implies !(#[trigger] (flush(c) + t)[k] is Pipe) by {
            if k >= flush(c).len() {
                assert((flush(c) + t)[k] == t[k - flush(c).len()]);
            }
        }
    } else if s[i] == '[' {
        lemma_next_index_of(s, i + 1, ']');
        let j = next_index_of(s, i + 1, ']');
        let g = spec_generic_index(s.subrange(i + 1, j))->Ok_0;
        lemma_lex_no_pipe(s, j + 1, seq![]);
        let pre = flush(c).push(OpSpec::Generic(g));
        let t = lex_from(s, j + 1, seq![])->Ok_0;
        assert forall|k: int| 0 <= k < (pre + t).len() implies !(#[trigger] (pre + t)[k] is Pipe) by {
            if k >= pre.len() {
                assert((pre + t)[k] == t[k - pre.len()]);
            }
        }
    } else {
        lemma_lex_no_pipe(s, i + 1, c.push(s[i]));
    }
}

/// Compiling a query string never gives a `Pipe` step.
pub proof fn law_compile_makes_no_pipe(s: Seq<char>)
    requires
        spec_compile(s) is Ok,
    ensures
        no_pipe(spec_compile(s)->Ok_0),
{
    lemma_lex_no_pipe(s, 0, seq![]);
}

/// The elements of `a` from position `k` on that `g` selects, in order.
pub open spec fn selected_elements(a: Seq<Json>, g: IndexSpec, k: int) -> Seq<Json>
    decreases a.len() - k,
{
    if k < 0 || k >= a.len() {
        seq![]
    } else {
        (if crate::query::index_selects(decimal(k as nat), g) {
            seq![a[k]]
        } else {
            seq![]
        }) + selected_elements(a, g, k + 1)
    }
}

/// The values of the members of `m` from position `k` on whose keys `g`
/// selects, in order.
pub open spec fn selected_members(m: Seq<(Seq<char>, Json)>, g: IndexSpec, k: int) -> Seq<Json>
    decreases m.len() - k,
{
    if k < 0 || k >= m.len() {
        seq![]
    } else {
        (if crate::query::index_selects(m[k].0, g) {
            seq![m[k].1]
        } else {
            seq![]
        }) + selected_members(m, g, k + 1)
    }
}

proof fn lemma_elements_each(a: Seq<Json>, g: IndexSpec, rest: Seq<OpSpec>, k: int)
    requires
        0 <= k,
    ensures
        eval_elements(a, g, rest, k) == eval_all(selected_elements(a, g, k), rest),
    decreases a.len() - k,
{
    if k < a.len() {
        lemma_elements_each(a, g, rest, k + 1);
        let here = if crate::query::index_selects(decimal(k as nat), g) { seq![a[k]] } else { seq![] };
        lemma_eval_all_concat(here, selected_elements(a, g, k + 1), rest);
        if crate::query::index_selects(decimal(k as nat), g) {
            lemma_eval_all_single(a[k], rest);
        }
    }
}

proof fn lemma_members_each(m: Seq<(Seq<char>, Json)>, g: IndexSpec, rest: Seq<OpSpec>, k: int)
    requires
        0 <= k,
    ensures
        eval_members(m, g, rest, k) == eval_all(selected_members(m, g, k), rest),
    decreases m.len() - k,
{
    if k < m.len() {
        lemma_members_each(m, g, rest, k + 1);
        let here = if crate::query::index_selects(m[k].0, g) { seq![m[k].1] } else { seq![] };
        lemma_eval_all_concat(here, selected_members(m, g, k + 1), rest);
        if crate::query::index_selects(m[k].0, g) {
            lemma_eval_all_single(m[k].1, rest);
        }
    }
}

/// A generic step on an array runs the remaining steps, the same ones, on
/// each element it selects, in order, and joins what they give (the first
/// failure ending the run).
pub proof fn law_generic_step_on_array(a: Seq<Json>, g: IndexSpec, rest: Seq<OpSpec>)
    ensures
        eval(Json::Array(a), seq![OpSpec::Generic(g)] + rest) == eval_all(selected_elements(a, g, 0), rest),
{
    let ops = seq![OpSpec::Generic(g)] + rest;
    assert(ops[0] == OpSpec::Generic(g));
    assert(ops.drop_first() =~= rest);
    lemma_elements_each(a, g, rest, 0);
}

/// A generic step on an object runs the remaining steps, the same ones, on
/// the value of each member whose key it selects, in order, and joins what
/// they give (the first failure ending the run).
pub proof fn law_generic_step_on_object(m: Seq<(Seq<char>, Json)>, g: IndexSpec, rest: Seq<OpSpec>)
    ensures
        eval(Json::Object(m), seq![OpSpec::Generic(g)] + rest) == eval_all(selected_members(m, g, 0), rest),
{
    let ops = seq![OpSpec::Generic(g)] + rest;
    assert(ops[0] == OpSpec::Generic(g));
    assert(ops.drop_first() =~= rest);
    lemma_members_each(m, g, rest, 0);
}

/// A name item selects a key that does not read as a number exactly when
/// the key is that name, and a key that reads as a number exactly when the
/// key is that name or the name reads as the same number.
pub proof fn law_name_item_selects_its_key(key: Seq<char>, id: Seq<char>)
    ensures
        spec_parse_usize(key) is None ==> (slicer_selects(key, SlicerSpec::Ident(id)) <==> key == id),
        spec_parse_usize(key) is Some ==> (slicer_selects(key, SlicerSpec::Ident(id)) <==> (key == id
            || spec_parse_usize(id) == spec_parse_usize(key))),
{
}

/// A numeric item selects only keys that read as numbers: an `Index(i)`
/// the key that reads as `i`, and a range the keys that read as a number in
/// it.
pub proof fn law_number_items_select_numbers(key: Seq<char>, s: SlicerSpec)
    ensures
        !(s is Ident) && slicer_selects(key, s) ==> spec_parse_usize(key) is Some,
        s matches SlicerSpec::Index(i) ==> (slicer_selects(key, s) <==> spec_parse_usize(key) == Some(i)),
        s matches SlicerSpec::Slice(f, t) ==> (slicer_selects(key, s) <==> exists|n: usize|
            spec_parse_usize(key) == Some(n) && f <= n <= t),
{
    if let SlicerSpec::Slice(f, t) = s {
        if slicer_selects(key, s) {
            let n = spec_parse_usize(key)->0;
            assert(spec_parse_usize(key) == Some(n) && f <= n <= t);
        }
    }
}

/// On an object, a name selects the value of the first member whose key is
/// that name, and the run stops with that name when no member has it.
pub proof fn law_name_selects_member_with_that_key(m: Seq<(Seq<char>, Json)>, id: Seq<char>, rest: Seq<OpSpec>)
    ensures
        (forall|j: int| 0 <= j < m.len() ==> m[j].0 != id) ==> eval(Json::Object(m), seq![OpSpec::Identifier(id)] + rest)
            == Outcome::NoSuchKey(seq![], id),
        (exists|j: int| 0 <= j < m.len() && m[j].0 == id) ==> exists|k: int|
            0 <= k < m.len() && m[k].0 == id && (forall|j: int| 0 <= j < k ==> m[j].0 != id) && eval(
                Json::Object(m),
                seq![OpSpec::Identifier(id)] + rest,
            ) == eval(m[k].1, rest),
{
    let ops = seq![OpSpec::Identifier(id)] + rest;
    assert(ops[0] == OpSpec::Identifier(id));
    assert(ops.drop_first() =~= rest);
    lemma_first_key(m, id, 0);
    let k = crate::query::first_key(m, id, 0);
    if k < m.len() {
        assert(0 <= k < m.len() && m[k].0 == id && (forall|j: int| 0 <= j < k ==> m[j].0 != id));
    }
}

/// `first_key` finds the first member from `p` on whose key is `key`.
proof fn lemma_first_key(m: Seq<(Seq<char>, Json)>, key: Seq<char>, p: int)
    requires
        0 <= p <= m.len(),
    ensures
        p <= crate::query::first_key(m, key, p) <= m.len(),
        crate::query::first_key(m, key, p) < m.len() ==> m[crate::query::first_key(m, key, p)].0 == key,
        forall|j: int| p <= j < crate::query::first_key(m, key, p) ==> m[j].0 != key,
    decreases m.len() - p,
{
    if p < m.len() && m[p].0 != key {
        lemma_first_key(m, key, p + 1);
    }
}

/// On an array, a name that reads as a position inside it selects the
/// element at that position; a name that does not read as a number stops
/// the run with that name.
pub proof fn law_number_name_selects_element(a: Seq<Json>, id: Seq<char>, rest: Seq<OpSpec>)
    ensures
        spec_parse_usize(id) matches Some(i) && i < a.len() ==> eval(
            Json::Array(a),
            seq![OpSpec::Identifier(id)] + rest,
        ) == eval(a[spec_parse_usize(id)->0 as int], rest),
        spec_parse_usize(id) is None ==> eval(Json::Array(a), seq![OpSpec::Identifier(id)] + rest)
            == Outcome::NoSuchKey(seq![], id),
        spec_parse_usize(id) matches Some(i) && i >= a.len() ==> eval(
            Json::Array(a),
            seq![OpSpec::Identifier(id)] + rest,
        ) == Outcome::Unsupported(seq![]),
{
    let ops = seq![OpSpec::Identifier(id)] + rest;
    assert(ops[0] == OpSpec::Identifier(id));
    assert(ops.drop_first() =~= rest);
}

/// The leading digit of a digit string weighs the most: it counts ten to the
/// power of the number of digits after it.
pub proof fn law_leading_digit_weighs_most(d: char, s: Seq<char>)
    ensures
        digits_value(seq![d] + s) == digit_value(d) * pow(10, s.len()) + digits_value(s),
    decreases s.len(),
{
    reveal(pow);
    let t = seq![d] + s;
    if s.len() == 0 {
        assert(t =~= seq![d]);
        assert(t.drop_last() =~= Seq::<char>::empty());
        assert(pow(10, 0) == 1);
        assert(digits_value(s) == 0);
        assert(t.last() == d);
        assert(digits_value(t.drop_last()) == 0);
        assert(digits_value(t) == digit_value(d));
        assert(digit_value(d) * pow(10, s.len()) == digit_value(d)) by (nonlinear_arith)
            requires
                pow(10, s.len()) == 1,
        ;
    } else {
        assert(t.drop_last() =~= seq![d] + s.drop_last());
        assert(t.last() == s.last());
        law_leading_digit_weighs_most(d, s.drop_last());
        let dv = digit_value(d) as int;
        let p = pow(10, (s.len() - 1) as nat);
        let v = digits_value(s.drop_last()) as int;
        assert(pow(10, s.len()) == 10 * p);
        assert((dv * p + v) * 10 == dv * (10 * p) + v * 10) by (nonlinear_arith);
        assert(digits_value(t) == digits_value(t.drop_last()) * 10 + digit_value(s.last()));
        assert(digits_value(s) == v * 10 + digit_value(s.last()));
    }
}

/// An item made only of digits selects the position that they write, most
/// significant digit first.
pub proof fn law_digit_item_is_index(item: Seq<char>)
    requires
        item.len() > 0,
        all_digits(item),
        digits_value(item) <= usize::MAX,
    ensures
        spec_classify(item) == Ok::<SlicerSpec, LexErrorSpec>(SlicerSpec::Index(digits_value(item) as usize)),
{
}

/// The item `n` written in decimal selects position `n`.
pub proof fn law_written_number_item(n: usize)
    ensures
        spec_classify(decimal(n as nat)) == Ok::<SlicerSpec, LexErrorSpec>(SlicerSpec::Index(n)),
{
    lemma_decimal(n as nat);
}

/// A digit string has no spaces to trim.
proof fn lemma_trim_digits(s: Seq<char>)
    requires
        all_digits(s),
    ensures
        trim(s) == s,
{
    if s.len() > 0 {
        assert(crate::chars::is_digit(s[0]));
        assert(crate::chars::is_digit(s[s.len() - 1]));
    }
}

/// The first `-` of `l + '-' + r`, `l` made of digits, is the one after `l`.
proof fn lemma_dash_after_digits(l: Seq<char>, r: Seq<char>)
    requires
        all_digits(l),
    ensures
        next_index_of(l + seq!['-'] + r, 0, '-') == l.len(),
{
    let item = l + seq!['-'] + r;
    lemma_next_index_of(item, 0, '-');
    let k = next_index_of(item, 0, '-');
    assert(item[l.len() as int] == '-');
    if k < l.len() {
        assert(item[k] == l[k]);
        assert(crate::chars::is_digit(l[k]));
    }
}

/// `a-b`, `a-` and `-b`, `a` and `b` made of digits, select the positions
/// from `a` to `b`, from `a` on, and up to `b`, both ends included.
pub proof fn law_range_items(l: Seq<char>, r: Seq<char>)
    requires
        l.len() > 0,
        r.len() > 0,
        all_digits(l),
        all_digits(r),
        digits_value(l) <= usize::MAX,
        digits_value(r) <= usize::MAX,
    ensures
        spec_classify(l + seq!['-'] + r) == Ok::<SlicerSpec, LexErrorSpec>(
            SlicerSpec::Slice(digits_value(l) as usize, digits_value(r) as usize),
        ),
        spec_classify(l + seq!['-']) == Ok::<SlicerSpec, LexErrorSpec>(SlicerSpec::SliceFrom(digits_value(l) as usize)),
        spec_classify(seq!['-'] + r) == Ok::<SlicerSpec, LexErrorSpec>(SlicerSpec::SliceTo(digits_value(r) as usize)),
{
    let e = Seq::<char>::empty();
    lemma_trim_digits(l);
    lemma_trim_digits(r);
    lemma_trim_digits(e);
    let a = l + seq!['-'] + r;
    lemma_dash_after_digits(l, r);
    assert(a.take(l.len() as int) =~= l);
    assert(a.skip(l.len() as int + 1) =~= r);
    assert(!crate::chars::is_digit(a[l.len() as int]));
    let b = l + seq!['-'];
    lemma_dash_after_digits(l, e);
    assert(l + seq!['-'] + e =~= b);
    assert(b.take(l.len() as int) =~= l);
    assert(b.skip(l.len() as int + 1) =~= e);
    assert(!crate::chars::is_digit(b[l.len() as int]));
    let c = seq!['-'] + r;
    lemma_dash_after_digits(e, r);
    assert(e + seq!['-'] + r =~= c);
    assert(c.take(0) =~= e);
    assert(c.skip(1) =~= r);
    assert(!crate::chars::is_digit(c[0]));
}

/// One step on a stack whose top is `[` reads the generic index whose text
/// runs from the top down to the first `]` under it, and fails when there is
/// no `]`; a top `.` ends the pending name, even an empty one; any other top
/// gives no step.
pub proof fn law_step_reads_index_to_first_close(v: Seq<char>, c: Seq<char>)
    requires
        v.len() > 0,
    ensures
        v.last() == '.' ==> spec_compiler_step(v, c) == Ok::<Seq<OpSpec>, LexErrorSpec>(seq![OpSpec::Identifier(c)]),
        v.last() != '.' && v.last() != '[' ==> spec_compiler_step(v, c) == Ok::<Seq<OpSpec>, LexErrorSpec>(seq![]),
        v.last() == '[' && (forall|j: int| 0 <= j < v.len() - 1 ==> #[trigger] v.drop_last().reverse()[j] != ']')
            ==> spec_compiler_step(v, c) == Err::<Seq<OpSpec>, LexErrorSpec>(LexErrorSpec::EndOfQuery(seq![']'])),
        forall|k: int|
            v.last() == '[' && 0 <= k < v.len() - 1 && #[trigger] v.drop_last().reverse()[k] == ']' && (forall|j: int|
                0 <= j < k ==> v.drop_last().reverse()[j] != ']') ==> spec_compiler_step(v, c) == match spec_generic_index(
                v.drop_last().reverse().take(k),
            ) {
                Ok(g) => Ok(seq![OpSpec::Generic(g)]),
                Err(e) => Err(e),
            },
{
    let below = v.drop_last().reverse();
    assert(below.len() == v.len() - 1);
    lemma_next_index_of(below, 0, ']');
}

/// A generic index `[t]` opening a query is read up to its first `]`, and
/// the rest of the query is read after it: `[t]u` compiles to the index of
/// `t` followed by the steps of `u`.
pub proof fn law_compile_generic_then_rest(t: Seq<char>, u: Seq<char>)
    requires
        forall|j: int| 0 <= j < t.len() ==> t[j] != ']',
    ensures
        spec_compile(seq!['['] + t + seq![']'] + u) == match spec_generic_index(t) {
            Ok(g) => prepend(seq![OpSpec::Generic(g)], spec_compile(u)),
            Err(e) => Err(e),
        },
{
    let x = seq!['['] + t + seq![']'];
    let s = x + u;
    assert(s[0] == '[');
    lemma_next_index_of(s, 1, ']');
    let j = next_index_of(s, 1, ']');
    assert(s[1 + t.len() as int] == ']');
    if j < 1 + t.len() {
        assert(s[j] == t[j - 1]);
    }
    assert(j == 1 + t.len());
    assert(s.subrange(1, j) =~= t);
    lemma_lex_shift(x, u, 0, seq![]);
    assert(x.len() == j + 1);
    if let Ok(g) = spec_generic_index(t) {
        assert(flush(Seq::<char>::empty()).push(OpSpec::Generic(g)) =~= seq![OpSpec::Generic(g)]);
    }
}

/// A key reads as the number `n` exactly when it is a non-empty run of
/// digits writing `n`, with at most a `+` in front.
pub proof fn law_key_reads_as_number(key: Seq<char>, n: usize)
    ensures
        spec_parse_usize(key) == Some(n) <==> ({
            let body = if key.len() > 0 && key[0] == '+' { key.drop_first() } else { key };
            body.len() > 0 && all_digits(body) && digits_value(body) == n
        }),
{
}

/// A wildcard selects every key.
pub proof fn law_wildcard_selects_every_key(key: Seq<char>)
    ensures
        crate::query::index_selects(key, IndexSpec::Wildcard),
{
}

/// Spaces around the one item of a generic index are ignored.
pub proof fn law_spaces_around_item_ignored(t: Seq<char>)
    requires
        t.len() > 0,
        t[0] != ' ',
        t.last() != ' ',
        forall|j: int| 0 <= j < t.len() ==> t[j] != ',',
    ensures
        spec_generic_index(seq![' '] + t + seq![' ']) == spec_generic_index(t),
{
    let s = seq![' '] + t + seq![' '];
    lemma_next_index_of(s, 0, ',');
    lemma_next_index_of(t, 0, ',');
    let k = next_index_of(s, 0, ',');
    if k < s.len() {
        if k == 0 || k == s.len() - 1 {
        } else {
            assert(s[k] == t[k - 1]);
        }
    }
    assert(k == s.len());
    assert(next_index_of(t, 0, ',') == t.len());
    assert(s.subrange(0, s.len() as int) =~= s);
    assert(t.subrange(0, t.len() as int) =~= t);
    assert(s.drop_first() =~= t + seq![' ']);
    assert(trim_start(t + seq![' ']) == t + seq![' ']) by {
        assert((t + seq![' '])[0] == t[0]);
    }
    assert((t + seq![' ']).drop_last() =~= t);
    assert(trim_end(t) == t);
    assert(trim_start(t) == t);
    assert(trim(s) == t);
    assert(trim(t) == t);
    assert(spec_slicers(s, s.len() as int + 1) == Ok::<Seq<SlicerSpec>, LexErrorSpec>(seq![]));
    assert(spec_slicers(t, t.len() as int + 1) == Ok::<Seq<SlicerSpec>, LexErrorSpec>(seq![]));
}

} // verus!
