//! Running a compiled query over a JSON value.
//!
//! Each step of a query maps every value reached so far to the values it
//! selects: `.name` selects a member of an object, or, when `name` reads as a
//! number, an element of an array; a generic index `[...]` selects, in order,
//! every element or member whose key it matches (an element's key is its
//! position written in decimal). Steps on a string, number, boolean or null
//! select nothing. When no step is left, the value reached is a result.

use vstd::prelude::*;

use crate::chars::{decimal, parse_usize, spec_parse_usize, usize_to_decimal};
use crate::com_type::ComType;
use crate::error::{QueryError, QueryResult};
use crate::lexer::{
    compile, lex_result_view, ops_view, spec_compile, GenericObjectIndex, IndexSpec,
    LexOperator, LexicalOperations, OpSpec, Slicer, SlicerSpec,
};
use crate::value::{
    copy_value, entries_view, lemma_array_view, lemma_object_view, values_view, Json, JsonValue,
};

verus! {

/// Whether one item of a generic index selects `key`: numeric items compare
/// with the number that `key` reads as, and a name selects the key equal to
/// it or, when the name reads as a number, the key that reads as that number.
pub open spec fn slicer_selects(key: Seq<char>, s: SlicerSpec) -> bool {
    let k = spec_parse_usize(key);
    match s {
        SlicerSpec::Index(i) => k == Some(i),
        SlicerSpec::Slice(f, t) => k is Some && f <= k->0 && k->0 <= t,
        SlicerSpec::SliceFrom(f) => k is Some && f <= k->0,
        SlicerSpec::SliceTo(t) => k is Some && k->0 <= t,
        SlicerSpec::Ident(id) => key == id || (spec_parse_usize(id) is Some && k == spec_parse_usize(id)),
    }
}

/// Whether a generic index selects `key`.
pub open spec fn index_selects(key: Seq<char>, g: IndexSpec) -> bool {
    match g {
        IndexSpec::Wildcard => true,
        IndexSpec::Slice(v) => exists|i: int| 0 <= i < v.len() && #[trigger] slicer_selects(key, v[i]),
    }
}

/// The position of the first member of `m`, at or after `p`, whose key is
/// `key`, or `m.len()` when there is none.
pub open spec fn first_key(m: Seq<(Seq<char>, Json)>, key: Seq<char>, p: int) -> int
    decreases m.len() - p,
{
    if p < 0 || p >= m.len() {
        m.len() as int
    } else if m[p].0 == key {
        p
    } else {
        first_key(m, key, p + 1)
    }
}

/// What running a query gives.
pub enum Outcome {
    /// The values selected, in order.
    Found(Seq<Json>),
    /// The run stops at a name that selects nothing (the second field),
    /// having found the values of the first field before it.
    NoSuchKey(Seq<Json>, Seq<char>),
    /// The run reaches a step that is not supported (indexing an array
    /// beyond its end, or a `Pipe`), having found the values of the field
    /// before it.
    Unsupported(Seq<Json>),
}

/// The results of `a` followed by those of `b`; the first failure wins, and
/// the values found before it are kept.
pub open spec fn join(a: Outcome, b: Outcome) -> Outcome {
    match a {
        Outcome::Found(s) => match b {
            Outcome::Found(t) => Outcome::Found(s + t),
            Outcome::NoSuchKey(p, k) => Outcome::NoSuchKey(s + p, k),
            Outcome::Unsupported(p) => Outcome::Unsupported(s + p),
        },
        _ => a,
    }
}

/// Running the steps `ops` on `d`.
pub open spec fn eval(d: Json, ops: Seq<OpSpec>) -> Outcome
    decreases ops.len(), 1int, 0int,
{
    if ops.len() == 0 {
        Outcome::Found(seq![d])
    } else {
        let rest = ops.drop_first();
        match d {
            Json::Array(a) => match ops[0] {
                OpSpec::Identifier(id) => match spec_parse_usize(id) {
                    Some(i) => if i < a.len() {
                        eval(a[i as int], rest)
                    } else {
                        Outcome::Unsupported(seq![])
                    },
                    None => Outcome::NoSuchKey(seq![], id),
                },
                OpSpec::Pipe(_) => Outcome::Unsupported(seq![]),
                OpSpec::Generic(g) => eval_elements(a, g, rest, 0),
            },
            Json::Object(m) => match ops[0] {
                OpSpec::Identifier(id) => {
                    let k = first_key(m, id, 0);
                    if k < m.len() {
                        eval(m[k].1, rest)
                    } else {
                        Outcome::NoSuchKey(seq![], id)
                    }
                },
                OpSpec::Pipe(_) => Outcome::Unsupported(seq![]),
                OpSpec::Generic(g) => eval_members(m, g, rest, 0),
            },
            _ => Outcome::Found(seq![]),
        }
    }
}

/// Running `rest` on each element of `a` from position `k` on that `g`
/// selects, in order.
pub open spec fn eval_elements(a: Seq<Json>, g: IndexSpec, rest: Seq<OpSpec>, k: int) -> Outcome
    decreases rest.len() + 1, 0int, a.len() - k,
{
    if k < 0 || k >= a.len() {
        Outcome::Found(seq![])
    } else {
        let here = if index_selects(decimal(k as nat), g) {
            eval(a[k], rest)
        } else {
            Outcome::Found(seq![])
        };
        join(here, eval_elements(a, g, rest, k + 1))
    }
}

/// Running `rest` on the value of each member of `m` from position `k` on
/// whose key `g` selects, in order.
pub open spec fn eval_members(m: Seq<(Seq<char>, Json)>, g: IndexSpec, rest: Seq<OpSpec>, k: int) -> Outcome
    decreases rest.len() + 1, 0int, m.len() - k,
{
    if k < 0 || k >= m.len() {
        Outcome::Found(seq![])
    } else {
        let here = if index_selects(m[k].0, g) {
            eval(m[k].1, rest)
        } else {
            Outcome::Found(seq![])
        };
        join(here, eval_members(m, g, rest, k + 1))
    }
}

/// Joining is associative.
pub proof fn lemma_join_assoc(a: Outcome, b: Outcome, c: Outcome)
    ensures
        join(a, join(b, c)) == join(join(a, b), c),
{
    if let Outcome::Found(x) = a {
        if let Outcome::Found(s) = b {
            match c {
                Outcome::Found(t) => {
                    assert(x + (s + t) =~= (x + s) + t);
                },
                Outcome::NoSuchKey(t, _) => {
                    assert(x + (s + t) =~= (x + s) + t);
                },
                Outcome::Unsupported(t) => {
                    assert(x + (s + t) =~= (x + s) + t);
                },
            }
        }
    }
}

/// How a run of a query ended, where it did not end with results.
#[derive(Debug, PartialEq)]
pub enum QueryFault {
    /// The query failed with this error.
    Failed(QueryError),
    /// The query reached a step that is not supported.
    Unsupported,
}

/// `r` is what a run of a query that gives `o` returns, having appended the
/// values it found (up to the failing step, when it fails) to `before`,
/// giving `after`.
pub open spec fn ran_as(r: Result<(), QueryFault>, o: Outcome, before: Seq<Json>, after: Seq<Json>) -> bool {
    match o {
        Outcome::Found(s) => r is Ok && after == before + s,
        Outcome::NoSuchKey(p, k) => after == before + p && match r {
            Err(QueryFault::Failed(QueryError::CannotUseIdentifierAsArrayKeyIndex(x))) => x@ == k,
            _ => false,
        },
        Outcome::Unsupported(p) => after == before + p && match r {
            Err(QueryFault::Unsupported) => true,
            _ => false,
        },
    }
}

/// A generic index selects `key` when one of its items does.
proof fn lemma_selected_by_item(key: Seq<char>, v: Seq<SlicerSpec>, i: int)
    requires
        0 <= i < v.len(),
        slicer_selects(key, v[i]),
    ensures
        index_selects(key, IndexSpec::Slice(v)),
{
    let g = IndexSpec::Slice(v);
    assert(g->Slice_0 == v);
    assert(exists|j: int| 0 <= j < g->Slice_0.len() && #[trigger] slicer_selects(key, g->Slice_0[j]));
}

/// The item a generic index selects `key` by, when it selects it.
proof fn lemma_selecting_item(key: Seq<char>, v: Seq<SlicerSpec>) -> (i: int)
    requires
        index_selects(key, IndexSpec::Slice(v)),
    ensures
        0 <= i < v.len(),
        slicer_selects(key, v[i]),
{
    let g = IndexSpec::Slice(v);
    assert(g->Slice_0 == v);
    choose|i: int| 0 <= i < g->Slice_0.len() && #[trigger] slicer_selects(key, g->Slice_0[i])
}

/// The items of a generic index select keys independently of one another:
/// no item selects nothing, and a list of items selects a key when one of
/// its parts does (so their order and repetitions do not matter).
pub proof fn law_index_items_concat(key: Seq<char>, a: Seq<SlicerSpec>, b: Seq<SlicerSpec>)
    ensures
        !index_selects(key, IndexSpec::Slice(seq![])),
        index_selects(key, IndexSpec::Slice(a + b)) == (index_selects(key, IndexSpec::Slice(a))
            || index_selects(key, IndexSpec::Slice(b))),
{
    if index_selects(key, IndexSpec::Slice(seq![])) {
        let i = lemma_selecting_item(key, seq![]);
    }
    if index_selects(key, IndexSpec::Slice(a + b)) {
        let i = lemma_selecting_item(key, a + b);
        if i < a.len() {
            assert((a + b)[i] == a[i]);
            lemma_selected_by_item(key, a, i);
        } else {
            assert((a + b)[i] == b[i - a.len()]);
            lemma_selected_by_item(key, b, i - a.len());
        }
    }
    if index_selects(key, IndexSpec::Slice(a)) {
        let i = lemma_selecting_item(key, a);
        assert((a + b)[i] == a[i]);
        lemma_selected_by_item(key, a + b, i);
    }
    if index_selects(key, IndexSpec::Slice(b)) {
        let i = lemma_selecting_item(key, b);
        assert((a + b)[a.len() + i] == b[i]);
        lemma_selected_by_item(key, a + b, a.len() + i);
    }
}

/// Whether the item `s` of a generic index selects `key`, `key_comp` being
/// `key` as a number.
fn slicer_matches(key: &str, key_comp: &ComType, s: &Slicer) -> (r: bool)
    requires
        key_comp.usize == spec_parse_usize(key@),
    ensures
        r == slicer_selects(key@, s@),
{
    match s {
        Slicer::Index(i) => *key_comp == ComType::from(i),
        Slicer::Slice(f, t) => ComType::from(f) <= *key_comp && *key_comp <= ComType::from(t),
        Slicer::SliceFrom(f) => ComType::from(f) <= *key_comp,
        Slicer::SliceTo(t) => *key_comp <= ComType::from(t),
        Slicer::Ident(ident) => {
            let owned = key.to_owned();
            if owned == *ident {
                true
            } else {
                match parse_usize(ident.as_str()) {
                    Some(n) => *key_comp == ComType::from(n),
                    None => false,
                }
            }
        },
    }
}

/// Whether the generic index `query` selects `key`.
pub fn match_slice_to_key(key: &str, query: &GenericObjectIndex) -> (r: bool)
    ensures
        r == index_selects(key@, query@),
{
    let key_comp: ComType = ComType::from(key);
    match query {
        GenericObjectIndex::Wildcard => true,
        GenericObjectIndex::Slice(slice) => {
            let ghost v = query@->Slice_0;
            let mut i: usize = 0;
            while i < slice.len()
                invariant
                    i <= slice.len(),
                    v == crate::lexer::slicers_view(slice@),
                    query@ == IndexSpec::Slice(v),
                    v.len() == slice@.len(),
                    key_comp.usize == spec_parse_usize(key@),
                    forall|j: int| 0 <= j < i ==> !#[trigger] slicer_selects(key@, v[j]),
                decreases slice.len() - i,
            {
                if slicer_matches(key, &key_comp, &slice[i]) {
                    proof {
                        lemma_selected_by_item(key@, v, i as int);
                    }
                    return true;
                }
                i = i + 1;
            }
            false
        },
    }
}

/// Whether the step `query` selects the member `key` of an object.
pub fn key_match_map(key: &String, query: &LexOperator) -> (r: bool)
    requires
        !(query@ is Pipe),
    ensures
        r == match query@ {
            OpSpec::Identifier(id) => key@ == id,
            OpSpec::Generic(g) => index_selects(key@, g),
            OpSpec::Pipe(_) => false,
        },
{
    match query {
        LexOperator::Identifier(ident) => *key == *ident,
        LexOperator::Pipe(_) => false,
        LexOperator::Generic(g) => match_slice_to_key(key.as_str(), g),
    }
}

/// The position of the first member of `m` whose key is `key`, or `m.len()`.
fn find_member(m: &Vec<(String, JsonValue)>, key: &String) -> (r: usize)
    ensures
        r == first_key(entries_view(m@), key@, 0),
{
    let ghost e = entries_view(m@);
    let mut i: usize = 0;
    while i < m.len()
        invariant
            i <= m.len(),
            e == entries_view(m@),
            first_key(e, key@, 0) == first_key(e, key@, i as int),
        decreases m.len() - i,
    {
        if m[i].0 == *key {
            return i;
        }
        i = i + 1;
    }
    i
}

/// Runs the steps `query[pos..]` on `data`, appending what it selects to
/// `results`.
pub fn query_processor(data: &JsonValue, query: &Vec<LexOperator>, pos: usize, results: &mut Vec<JsonValue>) -> (r: Result<(), QueryFault>)
    requires
        pos <= query.len(),
    ensures
        ran_as(r, eval(data@, ops_view(query@).skip(pos as int)), values_view(old(results)@), values_view(final(results)@)),
    decreases query.len() - pos, 1int,
{
    let ghost ops = ops_view(query@).skip(pos as int);
    let ghost before = values_view(results@);
    if pos == query.len() {
        assert(ops.len() == 0);
        let c = copy_value(data);
        results.push(c);
        assert(values_view(results@) =~= before + seq![data@]);
        return Ok(());
    }
    assert(ops[0] == query@[pos as int]@);
    assert(ops.drop_first() =~= ops_view(query@).skip(pos + 1));
    match data {
        JsonValue::Array(v) => {
            proof {
                lemma_array_view(*v);
            }
            match &query[pos] {
                LexOperator::Identifier(ident) => match parse_usize(ident.as_str()) {
                    Some(i) => if i < v.len() {
                        query_processor(&v[i], query, pos + 1, results)
                    } else {
                        Err(QueryFault::Unsupported)
                    },
                    None => Err(QueryFault::Failed(QueryError::CannotUseIdentifierAsArrayKeyIndex(ident.clone()))),
                },
                LexOperator::Pipe(_) => Err(QueryFault::Unsupported),
                LexOperator::Generic(g) => query_slice_w_generic_object_index(v, g, query, pos + 1, results),
            }
        },
        JsonValue::Object(m) => {
            proof {
                lemma_object_view(*m);
            }
            match &query[pos] {
                LexOperator::Identifier(ident) => {
                    let k = find_member(m, ident);
                    if k < m.len() {
                        query_processor(&m[k].1, query, pos + 1, results)
                    } else {
                        Err(QueryFault::Failed(QueryError::CannotUseIdentifierAsArrayKeyIndex(ident.clone())))
                    }
                },
                LexOperator::Pipe(_) => Err(QueryFault::Unsupported),
                LexOperator::Generic(g) => query_map_w_generic_object_index(m, g, query, pos + 1, results),
            }
        },
        _ => {
            assert(values_view(results@) =~= before + Seq::<Json>::empty());
            Ok(())
        },
    }
}

/// Runs the steps `query[pos..]` on each element of `data` that
/// `index_match` selects, in order.
pub fn query_slice_w_generic_object_index(
    data: &Vec<JsonValue>,
    index_match: &GenericObjectIndex,
    query: &Vec<LexOperator>,
    pos: usize,
    results: &mut Vec<JsonValue>,
) -> (r: Result<(), QueryFault>)
    requires
        pos <= query.len(),
    ensures
        ran_as(
            r,
            eval_elements(values_view(data@), index_match@, ops_view(query@).skip(pos as int), 0),
            values_view(old(results)@),
            values_view(final(results)@),
        ),
    decreases query.len() + 1 - pos, 0int,
{
    let ghost a = values_view(data@);
    let ghost g = index_match@;
    let ghost rest = ops_view(query@).skip(pos as int);
    let ghost before = values_view(results@);
    let ghost mut got: Seq<Json> = seq![];
    let mut k: usize = 0;
    assert(before + got =~= before);
    assert(got + Seq::<Json>::empty() =~= got);
    while k < data.len()
        invariant
            k <= data.len(),
            pos <= query.len(),
            a == values_view(data@),
            g == index_match@,
            rest == ops_view(query@).skip(pos as int),
            before == values_view(old(results)@),
            values_view(results@) == before + got,
            eval_elements(a, g, rest, 0) == join(Outcome::Found(got), eval_elements(a, g, rest, k as int)),
        decreases data.len() - k,
    {
        let key = usize_to_decimal(k);
        let ghost here = if index_selects(decimal(k as nat), g) {
            eval(a[k as int], rest)
        } else {
            Outcome::Found(seq![])
        };
        let ghost tail = eval_elements(a, g, rest, k + 1);
        proof {
            lemma_join_assoc(Outcome::Found(got), here, tail);
        }
        if match_slice_to_key(key.as_str(), index_match) {
            let ghost mid = values_view(results@);
            match query_processor(&data[k], query, pos, results) {
                Ok(()) => {
                    let ghost s = here->Found_0;
                    proof {
                        got = got + s;
                    }
                    assert(values_view(results@) =~= before + got);
                },
                Err(e) => {
                    proof {
                        match here {
                            Outcome::NoSuchKey(p, _) => {
                                assert(before + (got + p) =~= (before + got) + p);
                            },
                            Outcome::Unsupported(p) => {
                                assert(before + (got + p) =~= (before + got) + p);
                            },
                            _ => {},
                        }
                    }
                    return Err(e);
                },
            }
        } else {
            assert(got + Seq::<Json>::empty() =~= got);
        }
        k = k + 1;
    }
    Ok(())
}

/// Runs the steps `query[pos..]` on the value of each member of `data`
/// whose key `index_match` selects, in order.
pub fn query_map_w_generic_object_index(
    data: &Vec<(String, JsonValue)>,
    index_match: &GenericObjectIndex,
    query: &Vec<LexOperator>,
    pos: usize,
    results: &mut Vec<JsonValue>,
) -> (r: Result<(), QueryFault>)
    requires
        pos <= query.len(),
    ensures
        ran_as(
            r,
            eval_members(entries_view(data@), index_match@, ops_view(query@).skip(pos as int), 0),
            values_view(old(results)@),
            values_view(final(results)@),
        ),
    decreases query.len() + 1 - pos, 0int,
{
    let ghost m = entries_view(data@);
    let ghost g = index_match@;
    let ghost rest = ops_view(query@).skip(pos as int);
    let ghost before = values_view(results@);
    let ghost mut got: Seq<Json> = seq![];
    let mut k: usize = 0;
    assert(before + got =~= before);
    assert(got + Seq::<Json>::empty() =~= got);
    while k < data.len()
        invariant
            k <= data.len(),
            pos <= query.len(),
            m == entries_view(data@),
            g == index_match@,
            rest == ops_view(query@).skip(pos as int),
            before == values_view(old(results)@),
            values_view(results@) == before + got,
            eval_members(m, g, rest, 0) == join(Outcome::Found(got), eval_members(m, g, rest, k as int)),
        decreases data.len() - k,
    {
        let ghost here = if index_selects(m[k as int].0, g) {
            eval(m[k as int].1, rest)
        } else {
            Outcome::Found(seq![])
        };
        let ghost tail = eval_members(m, g, rest, k + 1);
        proof {
            lemma_join_assoc(Outcome::Found(got), here, tail);
        }
        if match_slice_to_key(data[k].0.as_str(), index_match) {
            match query_processor(&data[k].1, query, pos, results) {
                Ok(()) => {
                    let ghost s = here->Found_0;
                    proof {
                        got = got + s;
                    }
                    assert(values_view(results@) =~= before + got);
                },
                Err(e) => {
                    proof {
                        match here {
                            Outcome::NoSuchKey(p, _) => {
                                assert(before + (got + p) =~= (before + got) + p);
                            },
                            Outcome::Unsupported(p) => {
                                assert(before + (got + p) =~= (before + got) + p);
                            },
                            _ => {},
                        }
                    }
                    return Err(e);
                },
            }
        } else {
            assert(got + Seq::<Json>::empty() =~= got);
        }
        k = k + 1;
    }
    Ok(())
}

/// Runs the compiled query `lexes` on `s`. The answer is the array of the
/// values selected, in order.
pub fn query(s: JsonValue, lexes: LexicalOperations) -> (r: QueryResult<JsonValue>)
    requires
        !(eval(s@, ops_view(lexes@)) is Unsupported),
    ensures
        match eval(s@, ops_view(lexes@)) {
            Outcome::Found(v) => r matches Ok(x) && x@ == Json::Array(v),
            Outcome::NoSuchKey(_, k) => r matches Err(QueryError::CannotUseIdentifierAsArrayKeyIndex(x)) && x@ == k,
            Outcome::Unsupported(_) => false,
        },
{
    let mut results: Vec<JsonValue> = Vec::new();
    assert(ops_view(lexes@).skip(0) =~= ops_view(lexes@));
    let ghost start = values_view(results@);
    assert(start =~= Seq::<Json>::empty());
    match query_processor(&s, &lexes, 0, &mut results) {
        Ok(()) => {
            proof {
                lemma_array_view(results);
                assert(values_view(results@) =~= Seq::<Json>::empty() + values_view(results@));
            }
            Ok(JsonValue::Array(results))
        },
        Err(QueryFault::Failed(e)) => Err(e),
        Err(QueryFault::Unsupported) => {
            proof {
                assert(false);
            }
            Err(QueryError::QueryIsEmpty)
        },
    }
}

/// Whether running `lexes` on `s` reaches a step that is not supported
/// (indexing an array beyond its end, or a `Pipe`), on which [`query`] must
/// not be called.
pub fn query_unsupported(s: &JsonValue, lexes: &LexicalOperations) -> (b: bool)
    ensures
        b == (eval(s@, ops_view(lexes@)) is Unsupported),
{
    let mut results: Vec<JsonValue> = Vec::new();
    assert(ops_view(lexes@).skip(0) =~= ops_view(lexes@));
    match query_processor(s, lexes, 0, &mut results) {
        Err(QueryFault::Unsupported) => true,
        _ => false,
    }
}

} // verus!

verus! {

/// Compiles the query string `lexes` and runs it on `s`; a query string that
/// does not compile is answered with `UncontrolledError("Gulp")`.
pub fn query_str(s: JsonValue, lexes: &str) -> (r: QueryResult<JsonValue>)
    requires
        spec_compile(lexes@) is Ok ==> !(eval(s@, spec_compile(lexes@)->Ok_0) is Unsupported),
    ensures
        match spec_compile(lexes@) {
            Err(_) => r matches Err(QueryError::UncontrolledError(m)) && m@ == seq!['G', 'u', 'l', 'p'],
            Ok(ops) => match eval(s@, ops) {
                Outcome::Found(v) => r matches Ok(x) && x@ == Json::Array(v),
                Outcome::NoSuchKey(_, k) => r matches Err(QueryError::CannotUseIdentifierAsArrayKeyIndex(x)) && x@ == k,
                Outcome::Unsupported(_) => false,
            },
        },
{
    let compiled = compile(lexes);
    match compiled {
        Ok(ops) => query(s, ops),
        Err(_) => {
            let e = QueryError::from("Gulp");
            proof {
                reveal_strlit("Gulp");
            }
            Err(e)
        },
    }
}

} // verus!
