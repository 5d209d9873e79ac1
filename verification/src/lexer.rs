//! The query language: its operators, the grammar that reads a query string
//! into them, and the lexer that implements the grammar.
//!
//! A query is a run of segments:
//! - `.name` selects the field `name` (a name runs up to the next `.` or `[`;
//!   empty names are skipped, so a trailing `.` adds nothing);
//! - `[...]` is a generic index: a comma-separated list of items, each one
//!   trimmed of spaces, where `n` selects key `n`, `a-b` the keys `a..=b`,
//!   `a-` the keys from `a`, `-b` the keys up to `b`, and any other text the
//!   key of that name. An empty list (`[]`) selects every key.

use vstd::prelude::*;

use std::num::ParseIntError;

use crate::chars::{
    all_digits, all_digits_in, chars_to_string, find_char, lemma_next_index_of, next_index_of,
    push_char, spec_parse_digits, std_parse_usize, str_to_chars, sub_chars, trim, trim_bounds,
};

verus! {

/// Why a query string could not be compiled.
#[derive(Debug, PartialEq)]
pub enum LexerError {
    /// The query ended while `expected` was still awaited (an unclosed `[`).
    EndOfQuery { expected: String },
    /// A run of digits in a generic index is too large for a `usize`; it holds
    /// the error that reading it as a `usize` gave.
    FailedToParseInt(ParseIntError),
}

/// The result of compiling a query.
pub type LexResult<T> = Result<T, LexerError>;

/// One item of a generic index.
#[derive(Debug, PartialEq)]
pub enum Slicer {
    /// The key `n`.
    Index(usize),
    /// The keys `from..=to`.
    Slice(usize, usize),
    /// The keys from `n` on.
    SliceFrom(usize),
    /// The keys up to `n`, `n` included.
    SliceTo(usize),
    /// The key of this name.
    Ident(String),
}

/// A generic index `[...]`.
#[derive(Debug, PartialEq)]
pub enum GenericObjectIndex {
    /// `[]`: every key.
    Wildcard,
    /// The keys that at least one of the items selects.
    Slice(Vec<Slicer>),
}

/// One step of a query.
#[derive(Debug, PartialEq)]
pub enum LexOperator {
    /// `.name`: the field `name`, or, on an array, the element at that index.
    Identifier(String),
    /// A nested query; no query string produces it, and running it is not
    /// supported.
    Pipe(Vec<LexOperator>),
    /// `[...]`: the keys or indices that the generic index selects.
    Generic(GenericObjectIndex),
}

/// A compiled query.
pub type LexicalOperations = Vec<LexOperator>;

/// The mathematical value of a [`LexerError`].
pub enum LexErrorSpec {
    EndOfQuery(Seq<char>),
    FailedToParseInt,
}

/// The mathematical value of a [`Slicer`].
pub enum SlicerSpec {
    Index(usize),
    Slice(usize, usize),
    SliceFrom(usize),
    SliceTo(usize),
    Ident(Seq<char>),
}

/// The mathematical value of a [`GenericObjectIndex`].
pub enum IndexSpec {
    Wildcard,
    Slice(Seq<SlicerSpec>),
}

/// The mathematical value of a [`LexOperator`].
pub enum OpSpec {
    Identifier(Seq<char>),
    Pipe(Seq<OpSpec>),
    Generic(IndexSpec),
}

impl View for LexerError {
    type V = LexErrorSpec;

    open spec fn view(&self) -> LexErrorSpec {
        match self {
            LexerError::EndOfQuery { expected } => LexErrorSpec::EndOfQuery(expected@),
            LexerError::FailedToParseInt(_) => LexErrorSpec::FailedToParseInt,
        }
    }
}

impl View for Slicer {
    type V = SlicerSpec;

    open spec fn view(&self) -> SlicerSpec {
        match self {
            Slicer::Index(n) => SlicerSpec::Index(*n),
            Slicer::Slice(f, t) => SlicerSpec::Slice(*f, *t),
            Slicer::SliceFrom(n) => SlicerSpec::SliceFrom(*n),
            Slicer::SliceTo(n) => SlicerSpec::SliceTo(*n),
            Slicer::Ident(s) => SlicerSpec::Ident(s@),
        }
    }
}

/// The values of a sequence of slicers.
pub open spec fn slicers_view(v: Seq<Slicer>) -> Seq<SlicerSpec> {
    v.map_values(|s: Slicer| s@)
}

impl View for GenericObjectIndex {
    type V = IndexSpec;

    open spec fn view(&self) -> IndexSpec {
        match self {
            GenericObjectIndex::Wildcard => IndexSpec::Wildcard,
            GenericObjectIndex::Slice(v) => IndexSpec::Slice(slicers_view(v@)),
        }
    }
}

/// The value of an operator, nested pipes included.
pub open spec fn op_view(op: LexOperator) -> OpSpec
    decreases op,
{
    match op {
        LexOperator::Identifier(s) => OpSpec::Identifier(s@),
        LexOperator::Pipe(v) => OpSpec::Pipe(
            Seq::new(
                v@.len(),
                |i: int|
                    if 0 <= i < v@.len() {
                        op_view(v@[i])
                    } else {
                        OpSpec::Pipe(Seq::empty())
                    },
            ),
        ),
        LexOperator::Generic(g) => OpSpec::Generic(g@),
    }
}

impl View for LexOperator {
    type V = OpSpec;

    open spec fn view(&self) -> OpSpec {
        op_view(*self)
    }
}

/// The values of a sequence of operators.
pub open spec fn ops_view(v: Seq<LexOperator>) -> Seq<OpSpec> {
    v.map_values(|o: LexOperator| o@)
}

/// The value of the result of compiling.
pub open spec fn lex_result_view(r: LexResult<Vec<LexOperator>>) -> Result<Seq<OpSpec>, LexErrorSpec> {
    match r {
        Ok(v) => Ok(ops_view(v@)),
        Err(e) => Err(e@),
    }
}

/// The value of the result of reading a generic index.
pub open spec fn index_result_view(r: LexResult<GenericObjectIndex>) -> Result<IndexSpec, LexErrorSpec> {
    match r {
        Ok(g) => Ok(g@),
        Err(e) => Err(e@),
    }
}

/// The value of the result of reading one item of a generic index.
pub open spec fn slicer_result_view(r: LexResult<Slicer>) -> Result<SlicerSpec, LexErrorSpec> {
    match r {
        Ok(s) => Ok(s@),
        Err(e) => Err(e@),
    }
}

/// `pre` followed by what `r` holds, or the error of `r`.
pub open spec fn prepend<A, E>(pre: Seq<A>, r: Result<Seq<A>, E>) -> Result<Seq<A>, E> {
    match r {
        Ok(t) => Ok(pre + t),
        Err(e) => Err(e),
    }
}

/// Prepending twice is prepending the concatenation.
pub proof fn lemma_prepend_prepend<A, E>(a: Seq<A>, b: Seq<A>, r: Result<Seq<A>, E>)
    ensures
        prepend(a, prepend(b, r)) == prepend(a + b, r),
{
    if let Ok(t) = r {
        assert((a + b) + t =~= a + (b + t));
    }
}

/// The identifier that the collected characters make, if any.
pub open spec fn flush(collect: Seq<char>) -> Seq<OpSpec> {
    if collect.len() == 0 {
        seq![]
    } else {
        seq![OpSpec::Identifier(collect)]
    }
}

/// Reads one item of a generic index (the items read are trimmed and not
/// empty).
pub open spec fn spec_classify(item: Seq<char>) -> Result<SlicerSpec, LexErrorSpec> {
    if all_digits(item) {
        match spec_parse_digits(item) {
            Some(n) => Ok(SlicerSpec::Index(n)),
            None => Err(LexErrorSpec::FailedToParseInt),
        }
    } else {
        let k = next_index_of(item, 0, '-');
        if k >= item.len() {
            Ok(SlicerSpec::Ident(item))
        } else {
            let l = trim(item.take(k));
            let r = trim(item.skip(k + 1));
            let l_num = l.len() > 0 && all_digits(l);
            let r_num = r.len() > 0 && all_digits(r);
            if l_num && r_num {
                match spec_parse_digits(l) {
                    None => Err(LexErrorSpec::FailedToParseInt),
                    Some(f) => match spec_parse_digits(r) {
                        None => Err(LexErrorSpec::FailedToParseInt),
                        Some(t) => Ok(SlicerSpec::Slice(f, t)),
                    },
                }
            } else if l_num && r.len() == 0 {
                match spec_parse_digits(l) {
                    None => Err(LexErrorSpec::FailedToParseInt),
                    Some(f) => Ok(SlicerSpec::SliceFrom(f)),
                }
            } else if l.len() == 0 && r_num {
                match spec_parse_digits(r) {
                    None => Err(LexErrorSpec::FailedToParseInt),
                    Some(t) => Ok(SlicerSpec::SliceTo(t)),
                }
            } else {
                Ok(SlicerSpec::Ident(item))
            }
        }
    }
}

/// Reads the items of the comma-separated list `s` from position `p` on;
/// items that are empty once trimmed are skipped.
pub open spec fn spec_slicers(s: Seq<char>, p: int) -> Result<Seq<SlicerSpec>, LexErrorSpec>
    decreases s.len() + 1 - p,
{
    if p < 0 || p > s.len() {
        Ok(seq![])
    } else {
        let k = next_index_of(s, p, ',');
        proof {
            lemma_next_index_of(s, p, ',');
        }
        let piece = trim(s.subrange(p, k));
        let rest = spec_slicers(s, k + 1);
        if piece.len() == 0 {
            rest
        } else {
            match spec_classify(piece) {
                Err(e) => Err(e),
                Ok(x) => prepend(seq![x], rest),
            }
        }
    }
}

/// Reads the text between `[` and `]`.
pub open spec fn spec_generic_index(s: Seq<char>) -> Result<IndexSpec, LexErrorSpec> {
    match spec_slicers(s, 0) {
        Err(e) => Err(e),
        Ok(v) => if v.len() == 0 {
            Ok(IndexSpec::Wildcard)
        } else {
            Ok(IndexSpec::Slice(v))
        },
    }
}

/// Reads the query `s` from position `i` on, `collect` being the characters
/// of the name read so far.
pub open spec fn lex_from(s: Seq<char>, i: int, collect: Seq<char>) -> Result<Seq<OpSpec>, LexErrorSpec>
    decreases s.len() - i,
{
    if i < 0 || i >= s.len() {
        Ok(flush(collect))
    } else if s[i] == '.' {
        prepend(flush(collect), lex_from(s, i + 1, seq![]))
    } else if s[i] == '[' {
        let j = next_index_of(s, i + 1, ']');
        proof {
            lemma_next_index_of(s, i + 1, ']');
        }
        if j >= s.len() {
            Err(LexErrorSpec::EndOfQuery(seq![']']))
        } else {
            match spec_generic_index(s.subrange(i + 1, j)) {
                Err(e) => Err(e),
                Ok(g) => prepend(flush(collect).push(OpSpec::Generic(g)), lex_from(s, j + 1, seq![])),
            }
        }
    } else {
        lex_from(s, i + 1, collect.push(s[i]))
    }
}

/// What compiling the query `s` gives.
pub open spec fn spec_compile(s: Seq<char>) -> Result<Seq<OpSpec>, LexErrorSpec> {
    lex_from(s, 0, seq![])
}

/// Reads the digits `v[a..b]`, whose value must fit in a `usize`.
fn read_number(v: &Vec<char>, a: usize, b: usize) -> (r: LexResult<usize>)
    requires
        a <= b <= v.len(),
        all_digits(v@.subrange(a as int, b as int)),
    ensures
        match r {
            Ok(n) => spec_parse_digits(v@.subrange(a as int, b as int)) == Some(n),
            Err(e) => spec_parse_digits(v@.subrange(a as int, b as int)) is None
                && e@ == LexErrorSpec::FailedToParseInt,
        },
{
    let text = chars_to_string(v, a, b);
    assert(text@.len() > 0 ==> crate::chars::is_digit(text@[0]));
    match std_parse_usize(text.as_str()) {
        Ok(n) => Ok(n),
        Err(e) => Err(LexerError::FailedToParseInt(e)),
    }
}

/// Reads one item of a generic index.
pub fn classify_item(item: &Vec<char>) -> (r: LexResult<Slicer>)
    ensures
        slicer_result_view(r) == spec_classify(item@),
{
    let n = item.len();
    assert(item@.subrange(0, n as int) =~= item@);
    if all_digits_in(item, 0, n) {
        return match read_number(item, 0, n) {
            Ok(x) => Ok(Slicer::Index(x)),
            Err(e) => Err(e),
        };
    }
    let k = find_char(item, 0, '-');
    if k == n {
        return Ok(Slicer::Ident(chars_to_string(item, 0, n)));
    }
    let (la, lb) = trim_bounds(item, 0, k);
    let (ra, rb) = trim_bounds(item, k + 1, n);
    assert(item@.subrange(0, k as int) =~= item@.take(k as int));
    assert(item@.subrange(k + 1, n as int) =~= item@.skip(k + 1));
    let l_num = la < lb && all_digits_in(item, la, lb);
    let r_num = ra < rb && all_digits_in(item, ra, rb);
    if l_num && r_num {
        let f = match read_number(item, la, lb) {
            Ok(f) => f,
            Err(e) => return Err(e),
        };
        let t = match read_number(item, ra, rb) {
            Ok(t) => t,
            Err(e) => return Err(e),
        };
        Ok(Slicer::Slice(f, t))
    } else if l_num && ra == rb {
        match read_number(item, la, lb) {
            Ok(f) => Ok(Slicer::SliceFrom(f)),
            Err(e) => Err(e),
        }
    } else if la == lb && r_num {
        match read_number(item, ra, rb) {
            Ok(t) => Ok(Slicer::SliceTo(t)),
            Err(e) => Err(e),
        }
    } else {
        Ok(Slicer::Ident(chars_to_string(item, 0, n)))
    }
}

/// Reads the generic index written in `lexer_vec[start..end]`, the text
/// between `[` and `]`.
pub fn generic_object_index(lexer_vec: &Vec<char>, start: usize, end: usize) -> (r: LexResult<GenericObjectIndex>)
    requires
        start <= end <= lexer_vec.len(),
    ensures
        index_result_view(r) == spec_generic_index(lexer_vec@.subrange(start as int, end as int)),
{
    let content = sub_chars(lexer_vec, start, end);
    let ghost c = content@;
    let n = content.len();
    let mut slicer: Vec<Slicer> = Vec::new();
    let mut p: usize = 0;
    assert(c =~= lexer_vec@.subrange(start as int, end as int));
    loop
        invariant_except_break
            spec_slicers(c, 0) == prepend(slicers_view(slicer@), spec_slicers(c, p as int)),
        invariant
            p <= n,
            n == content.len(),
            c == content@,
            c == lexer_vec@.subrange(start as int, end as int),
        ensures
            spec_slicers(c, 0) == Ok::<Seq<SlicerSpec>, LexErrorSpec>(slicers_view(slicer@)),
        decreases n - p,
    {
        let k = find_char(&content, p, ',');
        let (a, b) = trim_bounds(&content, p, k);
        let ghost old_view = slicers_view(slicer@);
        let ghost rest = spec_slicers(c, k + 1);
        assert(spec_slicers(c, p as int) == if c.subrange(a as int, b as int).len() == 0 {
            rest
        } else {
            match spec_classify(c.subrange(a as int, b as int)) {
                Err(e) => Err(e),
                Ok(x) => prepend(seq![x], rest),
            }
        });
        if a < b {
            let item = sub_chars(&content, a, b);
            assert(item@ =~= c.subrange(a as int, b as int));
            match classify_item(&item) {
                Err(e) => {
                    return Err(e);
                },
                Ok(x) => {
                    slicer.push(x);
                    assert(slicers_view(slicer@) =~= old_view + seq![x@]);
                    proof {
                        lemma_prepend_prepend(old_view, seq![x@], rest);
                    }
                },
            }
        }
        if k == n {
            assert(rest == Ok::<Seq<SlicerSpec>, LexErrorSpec>(seq![]));
            assert(slicers_view(slicer@) + Seq::<SlicerSpec>::empty() =~= slicers_view(slicer@));
            break ;
        }
        p = k + 1;
    }
    if slicer.len() == 0 {
        Ok(GenericObjectIndex::Wildcard)
    } else {
        Ok(GenericObjectIndex::Slice(slicer))
    }
}

/// Appends the identifier that `collect` makes, if it is not empty.
fn flush_into(out: &mut Vec<LexOperator>, collect: String)
    ensures
        ops_view(final(out)@) == ops_view(old(out)@) + flush(collect@),
{
    if collect.as_str().unicode_len() > 0 {
        let ghost s = collect@;
        out.push(LexOperator::Identifier(collect));
        assert(ops_view(final(out)@) =~= ops_view(old(out)@) + flush(s));
    } else {
        assert(ops_view(final(out)@) =~= ops_view(old(out)@) + flush(collect@));
    }
}

/// The error for a `[` that is never closed.
fn unclosed_generic() -> (e: LexerError)
    ensures
        e@ == LexErrorSpec::EndOfQuery(seq![']']),
{
    let mut expected = String::new();
    push_char(&mut expected, ']');
    assert(expected@ =~= seq![']']);
    LexerError::EndOfQuery { expected }
}

/// Compiles the characters of a query, read from the front, `collect` being
/// the characters of a name already read before them.
pub fn compile_chars(lexer_vec: &Vec<char>, collect: String) -> (r: LexResult<Vec<LexOperator>>)
    ensures
        lex_result_view(r) == lex_from(lexer_vec@, 0, collect@),
{
    let ghost s = lexer_vec@;
    let ghost c0 = collect@;
    let n = lexer_vec.len();
    let mut out: Vec<LexOperator> = Vec::new();
    let mut pending = collect;
    let mut i: usize = 0;
    assert(ops_view(out@) =~= Seq::<OpSpec>::empty());
    assert(Seq::<OpSpec>::empty() + Seq::<OpSpec>::empty() =~= Seq::<OpSpec>::empty());
    while i < n
        invariant
            i <= n,
            n == lexer_vec.len(),
            s == lexer_vec@,
            c0 == collect@,
            lex_from(s, 0, c0) == prepend(ops_view(out@), lex_from(s, i as int, pending@)),
        decreases n - i,
    {
        let c = lexer_vec[i];
        let ghost before = ops_view(out@);
        if c == '.' {
            let ghost col = pending@;
            flush_into(&mut out, pending);
            pending = String::new();
            proof {
                lemma_prepend_prepend(before, flush(col), lex_from(s, i + 1, seq![]));
            }
            assert(pending@ =~= Seq::<char>::empty());
            i = i + 1;
        } else if c == '[' {
            let j = find_char(lexer_vec, i + 1, ']');
            if j == n {
                let e = unclosed_generic();
                assert(lex_from(s, i as int, pending@) == Err::<Seq<OpSpec>, LexErrorSpec>(e@));
                return Err(e);
            }
            let g = match generic_object_index(lexer_vec, i + 1, j) {
                Ok(g) => g,
                Err(e) => {
                    return Err(e);
                },
            };
            let ghost col = pending@;
            flush_into(&mut out, pending);
            let ghost gv = g@;
            let op = LexOperator::Generic(g);
            assert(op@ == OpSpec::Generic(gv));
            let ghost mid = out@;
            out.push(op);
            assert(ops_view(out@) =~= ops_view(mid).push(OpSpec::Generic(gv)));
            assert(ops_view(out@) =~= before + flush(col).push(OpSpec::Generic(gv)));
            pending = String::new();
            proof {
                lemma_prepend_prepend(before, flush(col).push(OpSpec::Generic(gv)), lex_from(s, j + 1, seq![]));
            }
            assert(pending@ =~= Seq::<char>::empty());
            i = j + 1;
        } else {
            push_char(&mut pending, c);
            i = i + 1;
        }
    }
    flush_into(&mut out, pending);
    Ok(out)
}

/// Compiles the query `s`.
pub fn compile(s: &str) -> (r: LexResult<Vec<LexOperator>>)
    ensures
        lex_result_view(r) == spec_compile(s@),
{
    let lexer_vec = str_to_chars(s);
    let collect = String::new();
    compile_chars(&lexer_vec, collect)
}

/// One step of the compiler that keeps the characters of a query as a stack:
/// the last character of `v` is read first, `collect` being the name read so
/// far. A `.` ends the name `collect` (even an empty one); a `[` starts a
/// generic index, whose text is read from the characters under it, from the
/// top down to the first `]`; any other character gives no step.
pub open spec fn spec_compiler_step(v: Seq<char>, collect: Seq<char>) -> Result<Seq<OpSpec>, LexErrorSpec> {
    if v.len() == 0 {
        Ok(seq![])
    } else if v.last() == '.' {
        Ok(seq![OpSpec::Identifier(collect)])
    } else if v.last() == '[' {
        let below = v.drop_last().reverse();
        let k = next_index_of(below, 0, ']');
        if k >= below.len() {
            Err(LexErrorSpec::EndOfQuery(seq![']']))
        } else {
            match spec_generic_index(below.take(k)) {
                Err(e) => Err(e),
                Ok(g) => Ok(seq![OpSpec::Generic(g)]),
            }
        }
    } else {
        Ok(seq![])
    }
}

/// Compiles one step from the stack of characters `lexer_vec`, whose last
/// character is read first, `collect` being the name read so far.
pub fn generic_compiler(lexer_vec: &Vec<char>, collect: String) -> (r: LexResult<Vec<LexOperator>>)
    ensures
        lex_result_view(r) == spec_compiler_step(lexer_vec@, collect@),
{
    let n = lexer_vec.len();
    let mut lex_complied: Vec<LexOperator> = Vec::new();
    if n == 0 {
        assert(ops_view(lex_complied@) =~= Seq::<OpSpec>::empty());
        return Ok(lex_complied);
    }
    let c = lexer_vec[n - 1];
    if c == '.' {
        let ghost name = collect@;
        lex_complied.push(LexOperator::Identifier(collect));
        assert(ops_view(lex_complied@) =~= seq![OpSpec::Identifier(name)]);
    } else if c == '[' {
        let ghost below = lexer_vec@.drop_last().reverse();
        let mut rest: Vec<char> = Vec::new();
        let mut i: usize = n - 1;
        while i > 0
            invariant
                i <= n - 1,
                n == lexer_vec.len(),
                rest@.len() == n - 1 - i,
                forall|j: int| 0 <= j < rest@.len() ==> #[trigger] rest@[j] == lexer_vec@[n - 2 - j],
            decreases i,
        {
            i = i - 1;
            rest.push(lexer_vec[i]);
        }
        assert(rest@ =~= below);
        let k = find_char(&rest, 0, ']');
        if k == rest.len() {
            return Err(unclosed_generic());
        }
        assert(rest@.subrange(0, k as int) =~= below.take(k as int));
        let g = match generic_object_index(&rest, 0, k) {
            Ok(g) => g,
            Err(e) => {
                return Err(e);
            },
        };
        let ghost gv = g@;
        let op = LexOperator::Generic(g);
        assert(op@ == OpSpec::Generic(gv));
        lex_complied.push(op);
        assert(ops_view(lex_complied@) =~= seq![OpSpec::Generic(gv)]);
    } else {
        assert(ops_view(lex_complied@) =~= Seq::<OpSpec>::empty());
    }
    Ok(lex_complied)
}

impl From<ParseIntError> for LexerError {
    fn from(e: ParseIntError) -> Self {
        LexerError::FailedToParseInt(e)
    }
}

impl vstd::std_specs::convert::FromSpecImpl<ParseIntError> for LexerError {
    open spec fn obeys_from_spec() -> bool {
        true
    }

    open spec fn from_spec(e: ParseIntError) -> Self {
        LexerError::FailedToParseInt(e)
    }
}

} // verus!
