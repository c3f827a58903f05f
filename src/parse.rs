use vstd::prelude::*;
use vstd::string::StringExecFns;

use crate::error::{ErrorKind, EvalError};
use crate::host::Host;
use crate::text::{chars_of, join2, string_of_chars};
use crate::value::{bool_value, lemma_models, models, true_value, Expression, Value};

verus! {

pub open spec fn is_ws(c: char) -> bool {
    c == ' ' || c == '\t' || c == '\n' || c == '\r'
}

pub open spec fn is_digit(c: char) -> bool {
    '0' <= c && c <= '9'
}

pub open spec fn is_alpha(c: char) -> bool {
    ('a' <= c && c <= 'z') || ('A' <= c && c <= 'Z')
}

pub open spec fn is_sym_punct(c: char) -> bool {
    c == '_' || c == '+' || c == '-' || c == '/' || c == '%' || c == '*' || c == '=' || c == '>'
        || c == '<'
}

/// A symbol starts with a letter or one of `_ + - / % * = > <` ...
pub open spec fn is_sym_start(c: char) -> bool {
    is_alpha(c) || is_sym_punct(c)
}

/// ... and goes on with those or digits.
pub open spec fn is_sym_char(c: char) -> bool {
    is_sym_start(c) || is_digit(c)
}

pub open spec fn digit_value(c: char) -> int {
    (c as u32) as int - ('0' as u32) as int
}

/// The number that a run of decimal digits writes.
pub open spec fn digits_value(s: Seq<char>) -> int
    decreases s.len(),
{
    if s.len() == 0 {
        0
    } else {
        digits_value(s.drop_last()) * 10 + digit_value(s.last())
    }
}

pub open spec fn all_digits(s: Seq<char>) -> bool {
    forall|j: int| 0 <= j < s.len() ==> is_digit(#[trigger] s[j])
}

/// The first position at or after `i` that is not whitespace.
pub open spec fn ws_end(cs: Seq<char>, i: int) -> int
    decreases cs.len() - i,
{
    if 0 <= i < cs.len() && is_ws(cs[i]) {
        ws_end(cs, i + 1)
    } else {
        i
    }
}

/// The end of the run of digits that starts at `i`.
pub open spec fn digit_end(cs: Seq<char>, i: int) -> int
    decreases cs.len() - i,
{
    if 0 <= i < cs.len() && is_digit(cs[i]) {
        digit_end(cs, i + 1)
    } else {
        i
    }
}

/// The end of the run of symbol characters that starts at `i`.
pub open spec fn sym_end(cs: Seq<char>, i: int) -> int
    decreases cs.len() - i,
{
    if 0 <= i < cs.len() && is_sym_char(cs[i]) {
        sym_end(cs, i + 1)
    } else {
        i
    }
}

/// The first `"` at or after `i` (the length where there is none).
pub open spec fn quote_end(cs: Seq<char>, i: int) -> int
    decreases cs.len() - i,
{
    if 0 <= i < cs.len() && cs[i] != '"' {
        quote_end(cs, i + 1)
    } else {
        i
    }
}

/// Where the digits of a number at `j` start: after a leading `-`.
pub open spec fn sign_skip(cs: Seq<char>, j: int) -> int {
    if 0 <= j < cs.len() && cs[j] == '-' {
        j + 1
    } else {
        j
    }
}

/// A float starts at `j`: `-?[0-9]+\.`.
pub open spec fn float_at(cs: Seq<char>, j: int) -> bool {
    let st = sign_skip(cs, j);
    &&& 0 <= st < cs.len()
    &&& is_digit(cs[st])
    &&& digit_end(cs, st) < cs.len()
    &&& cs[digit_end(cs, st)] == '.'
}

/// An integer at `j`: `-?[0-9]+` not followed by `.`, whose value fits in
/// an `i64`; its value and end.
pub open spec fn int_at(cs: Seq<char>, j: int) -> Option<(i64, int)> {
    let st = sign_skip(cs, j);
    if 0 <= st < cs.len() && is_digit(cs[st]) {
        let e = digit_end(cs, st);
        if e < cs.len() && cs[e] == '.' {
            None
        } else {
            let v = digits_value(cs.subrange(st, e));
            if v <= i64::MAX {
                Some(((if st > j { -v } else { v }) as i64, e))
            } else {
                None
            }
        }
    } else {
        None
    }
}

/// What reading an expression gives: its model and the position after
/// it; a failure; or `Open` where a float literal is involved, whose bits
/// the host computes.
pub enum Parsed {
    Done(Value, int),
    Failed,
    Open,
}

/// What reading a sequence of expressions gives.
pub enum ParsedAll {
    Done(Seq<Value>, int),
    Failed,
    Open,
}

/// `prefix` put in front of what `o` read.
pub open spec fn after(prefix: Seq<Value>, o: ParsedAll) -> ParsedAll {
    match o {
        ParsedAll::Done(es, e) => ParsedAll::Done(prefix + es, e),
        other => other,
    }
}

/// The grammar: one expression at `i`, after any whitespace.
pub open spec fn pexpr(cs: Seq<char>, i: int) -> Parsed
    decreases cs.len() - i, 1int,
{
    let j = ws_end(cs, i);
    if !(0 <= i <= cs.len()) || j < i || j >= cs.len() {
        Parsed::Failed
    } else if float_at(cs, j) {
        Parsed::Done(Value::Float(0), digit_end(cs, digit_end(cs, sign_skip(cs, j)) + 1))
    } else if int_at(cs, j) is Some {
        let (v, e) = int_at(cs, j)->0;
        Parsed::Done(Value::Integer(v), e)
    } else if cs[j] == '#' && j + 1 < cs.len() && (cs[j + 1] == 't' || cs[j + 1] == 'f') && (j
        + 2 == cs.len() || !is_sym_char(cs[j + 2])) {
        Parsed::Done(bool_value(cs[j + 1] == 't'), j + 2)
    } else if is_sym_start(cs[j]) {
        let e = sym_end(cs, j + 1);
        let t = cs.subrange(j, e);
        if t == "true"@ {
            Parsed::Done(true_value(), e)
        } else if t == "false"@ || t == "nil"@ || t == "void"@ {
            Parsed::Done(Value::Nil, e)
        } else {
            Parsed::Done(Value::Symbol(t), e)
        }
    } else if cs[j] == '"' {
        let q = quote_end(cs, j + 1);
        if q < cs.len() {
            Parsed::Done(Value::Str(cs.subrange(j + 1, q)), q + 1)
        } else {
            Parsed::Failed
        }
    } else if cs[j] == '(' {
        match pitems(cs, j + 1, ')') {
            ParsedAll::Done(es, e) => Parsed::Done(Value::List(es), e),
            ParsedAll::Failed => Parsed::Failed,
            ParsedAll::Open => Parsed::Open,
        }
    } else if cs[j] == '\'' && j + 1 < cs.len() && cs[j + 1] == '(' {
        match pitems(cs, j + 2, ')') {
            ParsedAll::Done(es, e) => Parsed::Done(quoted_model(Value::List(es)), e),
            ParsedAll::Failed => Parsed::Failed,
            ParsedAll::Open => Parsed::Open,
        }
    } else if cs[j] == '[' {
        match pitems(cs, j + 1, ']') {
            ParsedAll::Done(es, e) => Parsed::Done(quoted_model(Value::List(es)), e),
            ParsedAll::Failed => Parsed::Failed,
            ParsedAll::Open => Parsed::Open,
        }
    } else {
        Parsed::Failed
    }
}

/// The elements of a list from `i` up to `close`, and the position after
/// `close`.
pub open spec fn pitems(cs: Seq<char>, i: int, close: char) -> ParsedAll
    decreases cs.len() - i, 2int,
{
    let k = ws_end(cs, i);
    if !(0 <= i <= cs.len()) || k < i || k >= cs.len() {
        ParsedAll::Failed
    } else if cs[k] == close {
        ParsedAll::Done(seq![], k + 1)
    } else {
        match pexpr(cs, k) {
            Parsed::Done(e, nx) => if k < nx <= cs.len() {
                after(seq![e], pitems(cs, nx, close))
            } else {
                ParsedAll::Failed
            },
            Parsed::Failed => ParsedAll::Failed,
            Parsed::Open => ParsedAll::Open,
        }
    }
}

/// The top-level expressions from `i` to the end of the text.
pub open spec fn pprogram(cs: Seq<char>, i: int) -> ParsedAll
    decreases cs.len() - i,
{
    let k = ws_end(cs, i);
    if !(0 <= i <= cs.len()) || k < i {
        ParsedAll::Failed
    } else if k >= cs.len() {
        ParsedAll::Done(seq![], k)
    } else {
        match pexpr(cs, k) {
            Parsed::Done(e, nx) => if k < nx <= cs.len() {
                after(seq![e], pprogram(cs, nx))
            } else {
                ParsedAll::Failed
            },
            Parsed::Failed => ParsedAll::Failed,
            Parsed::Open => ParsedAll::Open,
        }
    }
}

/// A value with the bits of every float in it set to zero: the grammar
/// fixes where a float literal stands, and the host gives its bits.
pub open spec fn erase(v: Value) -> Value
    decreases v,
{
    match v {
        Value::Float(_) => Value::Float(0),
        Value::List(items) => Value::List(
            Seq::new(
                items.len(),
                |i: int|
                    if 0 <= i < items.len() {
                        erase(items[i])
                    } else {
                        Value::Nil
                    },
            ),
        ),
        _ => v,
    }
}

/// `erase` on each element.
pub open spec fn erases(s: Seq<Value>) -> Seq<Value> {
    Seq::new(s.len(), |i: int| erase(s[i]))
}

pub proof fn lemma_erase_list(items: Seq<Value>)
    ensures
        erase(Value::List(items)) == Value::List(erases(items)),
{
    let l = erase(Value::List(items));
    assert(l->List_0.len() == items.len());
    assert forall|i: int| 0 <= i < items.len() implies #[trigger] l->List_0[i] == erases(items)[i] by {}
    assert(l->List_0 =~= erases(items));
    assert(erases(items) =~= Seq::new(
        items.len(),
        |i: int|
            if 0 <= i < items.len() {
                erase(items[i])
            } else {
                Value::Nil
            },
    ));
}

pub proof fn lemma_erase_quoted(x: Value)
    ensures
        erase(quoted_model(x)) == quoted_model(erase(x)),
{
    lemma_erase_list(seq![Value::Symbol("quote"@), x]);
    assert(erases(seq![Value::Symbol("quote"@), x]) =~= seq![Value::Symbol("quote"@), erase(x)]);
}

pub proof fn lemma_erases_push(s: Seq<Value>, v: Value)
    ensures
        erases(s.push(v)) == erases(s) + seq![erase(v)],
{
    assert(erases(s.push(v)) =~= erases(s) + seq![erase(v)]);
}

/// The exec result `r` is what the grammar says of one expression.
pub open spec fn parsed_agrees(o: Parsed, r: Result<(Expression, usize), EvalError>) -> bool {
    match o {
        Parsed::Done(v, e) => r is Ok && erase(r->Ok_0.0.model()) == v && r->Ok_0.1 == e,
        Parsed::Failed => r is Err,
        Parsed::Open => true,
    }
}

/// The exec result `r` is what the grammar says of several expressions.
pub open spec fn all_agree(o: ParsedAll, r: Result<(Vec<Expression>, usize), EvalError>) -> bool {
    match o {
        ParsedAll::Done(es, e) => r is Ok && erases(models(r->Ok_0.0@)) == es && r->Ok_0.1 == e,
        ParsedAll::Failed => r is Err,
        ParsedAll::Open => true,
    }
}

/// The exec result `r` is what the grammar says of a whole text.
pub open spec fn program_agrees(o: ParsedAll, r: Result<Vec<Expression>, EvalError>) -> bool {
    match o {
        ParsedAll::Done(es, e) => r is Ok && erases(models(r->Ok_0@)) == es,
        ParsedAll::Failed => r is Err,
        ParsedAll::Open => true,
    }
}

/// A list read from its elements.
pub open spec fn list_of(o: ParsedAll) -> Parsed {
    match o {
        ParsedAll::Done(es, e) => Parsed::Done(Value::List(es), e),
        ParsedAll::Failed => Parsed::Failed,
        ParsedAll::Open => Parsed::Open,
    }
}

/// A quoted list read from its elements.
pub open spec fn quoted_of(o: ParsedAll) -> Parsed {
    match o {
        ParsedAll::Done(es, e) => Parsed::Done(quoted_model(Value::List(es)), e),
        ParsedAll::Failed => Parsed::Failed,
        ParsedAll::Open => Parsed::Open,
    }
}

pub proof fn lemma_after_after(a: Seq<Value>, b: Seq<Value>, o: ParsedAll)
    ensures
        after(a, after(b, o)) == after(a + b, o),
{
    match o {
        ParsedAll::Done(es, e) => {
            assert(a + (b + es) =~= (a + b) + es);
        },
        _ => {},
    }
}

fn ws_exec(c: char) -> (r: bool)
    ensures
        r == is_ws(c),
{
    c == ' ' || c == '\t' || c == '\n' || c == '\r'
}

fn digit_exec(c: char) -> (r: bool)
    ensures
        r == is_digit(c),
{
    '0' <= c && c <= '9'
}

fn sym_start_exec(c: char) -> (r: bool)
    ensures
        r == is_sym_start(c),
{
    ('a' <= c && c <= 'z') || ('A' <= c && c <= 'Z') || c == '_' || c == '+' || c == '-' || c
        == '/' || c == '%' || c == '*' || c == '=' || c == '>' || c == '<'
}

fn sym_char_exec(c: char) -> (r: bool)
    ensures
        r == is_sym_char(c),
{
    sym_start_exec(c) || digit_exec(c)
}

fn parse_error(message: &str) -> (r: EvalError)
    ensures
        r.kind == ErrorKind::Parse,
{
    EvalError::new(ErrorKind::Parse, message)
}

/// The first position at or after `i` that is not whitespace.
pub fn skip_ws(cs: &Vec<char>, i: usize) -> (r: usize)
    requires
        i <= cs@.len(),
    ensures
        i <= r <= cs@.len(),
        forall|j: int| i <= j < r ==> is_ws(#[trigger] cs@[j]),
        r == cs@.len() || !is_ws(cs@[r as int]),
        r == ws_end(cs@, i as int),
{
    let mut j = i;
    while j < cs.len() && ws_exec(cs[j])
        invariant
            i <= j <= cs@.len(),
            ws_end(cs@, i as int) == ws_end(cs@, j as int),
            forall|t: int| i <= t < j ==> is_ws(#[trigger] cs@[t]),
        decreases cs@.len() - j,
    {
        j = j + 1;
    }
    j
}

/// The end of the run of digits that starts at `i`.
fn digits_end(cs: &Vec<char>, i: usize) -> (r: usize)
    requires
        i <= cs@.len(),
    ensures
        i <= r <= cs@.len(),
        all_digits(cs@.subrange(i as int, r as int)),
        r == cs@.len() || !is_digit(cs@[r as int]),
        r == digit_end(cs@, i as int),
{
    let mut j = i;
    while j < cs.len() && digit_exec(cs[j])
        invariant
            i <= j <= cs@.len(),
            digit_end(cs@, i as int) == digit_end(cs@, j as int),
            forall|t: int| i <= t < j ==> is_digit(#[trigger] cs@[t]),
        decreases cs@.len() - j,
    {
        j = j + 1;
    }
    assert forall|t: int| 0 <= t < j - i implies is_digit(#[trigger] cs@.subrange(i as int, j as int)[t]) by {
        assert(is_digit(cs@[i + t]));
    }
    j
}

/// The value of the digits `cs[i..e]`, where it fits in an `i64`.
fn digits_to_i64(cs: &Vec<char>, i: usize, e: usize) -> (r: Option<i64>)
    requires
        i <= e <= cs@.len(),
        all_digits(cs@.subrange(i as int, e as int)),
    ensures
        r is Some <==> digits_value(cs@.subrange(i as int, e as int)) <= i64::MAX,
        r is Some ==> r->0 == digits_value(cs@.subrange(i as int, e as int)),
        r is Some ==> r->0 >= 0,
{
    let mut v: i64 = 0;
    let mut j = i;
    while j < e
        invariant
            i <= j <= e,
            e <= cs@.len(),
            all_digits(cs@.subrange(i as int, e as int)),
            v == digits_value(cs@.subrange(i as int, j as int)),
            0 <= v,
        decreases e - j,
    {
        assert(cs@.subrange(i as int, j + 1).drop_last() =~= cs@.subrange(i as int, j as int));
        assert(cs@.subrange(i as int, e as int)[j - i] == cs@[j as int]);
        let c = cs[j];
        let d = (c as u32 - '0' as u32) as i64;
        if v > (i64::MAX - d) / 10 {
            proof {
                lemma_digits_grow(cs@.subrange(i as int, e as int), j + 1 - i);
                assert(cs@.subrange(i as int, e as int).subrange(0, j + 1 - i) =~= cs@.subrange(i as int, j + 1));
                assert(cs@.subrange(i as int, e as int).subrange(0, e - i) =~= cs@.subrange(i as int, e as int));
            }
            return None;
        }
        v = v * 10 + d;
        j = j + 1;
    }
    Some(v)
}

/// A run of digits never writes less than its first `k` digits do.
pub proof fn lemma_digits_grow(s: Seq<char>, k: int)
    requires
        0 <= k <= s.len(),
        all_digits(s),
    ensures
        digits_value(s.subrange(0, k)) <= digits_value(s.subrange(0, s.len() as int)),
        0 <= digits_value(s.subrange(0, k)),
    decreases s.len() - k,
{
    lemma_digits_nonneg(s.subrange(0, k));
    if k < s.len() {
        assert(s.subrange(0, k + 1).drop_last() =~= s.subrange(0, k));
        assert(is_digit(s[k]));
        lemma_digits_grow(s, k + 1);
    }
}

pub proof fn lemma_digits_nonneg(s: Seq<char>)
    requires
        all_digits(s),
    ensures
        0 <= digits_value(s),
    decreases s.len(),
{
    if s.len() > 0 {
        assert(is_digit(s.last()));
        assert forall|j: int| 0 <= j < s.drop_last().len() implies is_digit(#[trigger] s.drop_last()[j]) by {
            assert(is_digit(s[j]));
        }
        lemma_digits_nonneg(s.drop_last());
    }
}

/// An integer at `i`: digits, or `-` and digits, not followed by a `.`.
/// `None` where there is none, or where it does not fit in an `i64`.
pub fn parse_integer(cs: &Vec<char>, i: usize) -> (r: Option<(Expression, usize)>)
    requires
        i <= cs@.len(),
    ensures
        r is Some <==> int_at(cs@, i as int) is Some,
        r is Some ==> {
            let (e, end) = r->0;
            let (v, stop) = int_at(cs@, i as int)->0;
            e.model() == Value::Integer(v) && end == stop
        },
        r is Some ==> {
            let (e, end) = r->0;
            let neg = cs@[i as int] == '-';
            let start = if neg {
                i + 1
            } else {
                i as int
            };
            &&& start < end <= cs@.len()
            &&& all_digits(cs@.subrange(start, end as int))
            &&& end == cs@.len() || !is_digit(cs@[end as int])
            &&& e.model() == Value::Integer(
                (if neg {
                    -digits_value(cs@.subrange(start, end as int))
                } else {
                    digits_value(cs@.subrange(start, end as int))
                }) as i64,
            )
        },
{
    if i >= cs.len() {
        return None;
    }
    let neg = cs[i] == '-';
    let start = if neg {
        i + 1
    } else {
        i
    };
    if start >= cs.len() || !digit_exec(cs[start]) {
        return None;
    }
    let end = digits_end(cs, start);
    if end < cs.len() && cs[end] == '.' {
        return None;
    }
    match digits_to_i64(cs, start, end) {
        Some(v) => {
            let x = if neg {
                -v
            } else {
                v
            };
            Some((Expression::Integer(x), end))
        },
        None => None,
    }
}

/// A float at `i`: an optional `-`, digits, `.`, and optional digits. Its
/// value is what the host reads from that text (`0` standing in for
/// missing digits after the point).
pub fn parse_float<H: Host>(cs: &Vec<char>, i: usize, host: &H) -> (r: Option<(Expression, usize)>)
    requires
        i <= cs@.len(),
    ensures
        r is Some ==> cs@[i as int] == '-' || is_digit(cs@[i as int]),
        r is Some <==> float_at(cs@, i as int),
        r is Some ==> {
            let (e, end) = r->0;
            end == digit_end(cs@, digit_end(cs@, sign_skip(cs@, i as int)) + 1)
        },
        r is Some ==> {
            let (e, end) = r->0;
            &&& i < end <= cs@.len()
            &&& e is Float
            &&& cs@.subrange(i as int, end as int).contains('.')
        },
{
    if i >= cs.len() {
        return None;
    }
    let neg = cs[i] == '-';
    let start = if neg {
        i + 1
    } else {
        i
    };
    if start >= cs.len() || !digit_exec(cs[start]) {
        return None;
    }
    let dot = digits_end(cs, start);
    if dot >= cs.len() || cs[dot] != '.' {
        return None;
    }
    let end = digits_end(cs, dot + 1);
    let mut text = string_of_chars(vstd::slice::slice_subrange(cs.as_slice(), i, dot + 1));
    if end == dot + 1 {
        text = join2(text, "0");
    } else {
        text = join2(text, string_of_chars(vstd::slice::slice_subrange(cs.as_slice(), dot + 1, end)).as_str());
    }
    assert(cs@.subrange(i as int, end as int)[dot - i] == '.');
    Some((Expression::Float(host.float_parse(text.as_str())), end))
}

/// The form `(quote x)`, which the two quoting shorthands stand for.
pub open spec fn quoted_model(x: Value) -> Value {
    Value::List(seq![Value::Symbol("quote"@), x])
}

/// Whether `cs[i..e]` spells `lit`.
fn token_is(cs: &Vec<char>, i: usize, e: usize, lit: &str) -> (r: bool)
    requires
        i <= e <= cs@.len(),
    ensures
        r == (cs@.subrange(i as int, e as int) == lit@),
{
    let n = lit.unicode_len();
    if e - i != n {
        return false;
    }
    let mut j: usize = 0;
    while j < n
        invariant
            j <= n,
            n == lit@.len(),
            e - i == n,
            i <= e <= cs@.len(),
            forall|t: int| 0 <= t < j ==> cs@[i + t] == lit@[t],
        decreases n - j,
    {
        if cs[i + j] != lit.get_char(j) {
            assert(cs@.subrange(i as int, e as int)[j as int] != lit@[j as int]);
            return false;
        }
        j = j + 1;
    }
    assert(cs@.subrange(i as int, e as int) =~= lit@);
    true
}

/// The end of the symbol that starts at `i`, if one does.
fn symbol_end(cs: &Vec<char>, i: usize) -> (r: Option<usize>)
    requires
        i <= cs@.len(),
    ensures
        r is Some ==> {
            &&& i < r->0 <= cs@.len()
            &&& is_sym_start(cs@[i as int])
            &&& forall|j: int| i <= j < r->0 ==> is_sym_char(#[trigger] cs@[j])
            &&& r->0 == cs@.len() || !is_sym_char(cs@[r->0 as int])
            &&& r->0 == sym_end(cs@, i + 1)
        },
        r is None ==> i == cs@.len() || !is_sym_start(cs@[i as int]),
{
    if i >= cs.len() || !sym_start_exec(cs[i]) {
        return None;
    }
    let mut j = i + 1;
    while j < cs.len() && sym_char_exec(cs[j])
        invariant
            i < j <= cs@.len(),
            is_sym_start(cs@[i as int]),
            sym_end(cs@, i + 1) == sym_end(cs@, j as int),
            forall|t: int| i <= t < j ==> is_sym_char(#[trigger] cs@[t]),
        decreases cs@.len() - j,
    {
        j = j + 1;
    }
    Some(j)
}

/// A string at `i`: the characters between a `"` and the next `"`, taken
/// as they stand.
pub fn parse_string(cs: &Vec<char>, i: usize) -> (r: Option<(Expression, usize)>)
    requires
        i <= cs@.len(),
    ensures
        r is Some ==> {
            let (e, end) = r->0;
            &&& i + 2 <= end <= cs@.len()
            &&& cs@[i as int] == '"'
            &&& cs@[end - 1] == '"'
            &&& e.model() == Value::Str(cs@.subrange(i + 1, end - 1))
            &&& !cs@.subrange(i + 1, end - 1).contains('"')
        },
        i < cs@.len() && cs@[i as int] == '"' && cs@.subrange(i + 1, cs@.len() as int).contains('"')
            ==> r is Some,
        r is Some <==> (i < cs@.len() && cs@[i as int] == '"' && quote_end(cs@, i + 1) < cs@.len()),
        r is Some ==> {
            let (e, end) = r->0;
            end == quote_end(cs@, i + 1) + 1
        },
{
    if i >= cs.len() || cs[i] != '"' {
        return None;
    }
    let mut j = i + 1;
    while j < cs.len() && cs[j] != '"'
        invariant
            i < j <= cs@.len(),
            forall|t: int| i < t < j ==> cs@[t] != '"',
            cs@[i as int] == '"',
            quote_end(cs@, i + 1) == quote_end(cs@, j as int),
        decreases cs@.len() - j,
    {
        j = j + 1;
    }
    if j >= cs.len() {
        proof {
            if cs@.subrange(i + 1, cs@.len() as int).contains('"') {
                let t = choose|t: int| 0 <= t < cs@.len() - i - 1 && #[trigger] cs@.subrange(i + 1, cs@.len() as int)[t] == '"';
                assert(cs@[i + 1 + t] == '"');
            }
        }
        return None;
    }
    let s = string_of_chars(vstd::slice::slice_subrange(cs.as_slice(), i + 1, j));
    assert(!cs@.subrange(i + 1, j as int).contains('"')) by {
        if cs@.subrange(i + 1, j as int).contains('"') {
            let t = choose|t: int| 0 <= t < j - i - 1 && #[trigger] cs@.subrange(i + 1, j as int)[t] == '"';
            assert(cs@[i + 1 + t] == '"');
        }
    }
    Some((Expression::String(s), j + 1))
}

/// The elements of a list that has been opened before `i`, up to `close`;
/// returns them with the position after `close`.
fn parse_items<H: Host>(cs: &Vec<char>, i: usize, close: char, host: &H) -> (r: Result<
    (Vec<Expression>, usize),
    EvalError,
>)
    requires
        i <= cs@.len(),
    ensures
        r is Ok ==> i < r->Ok_0.1 <= cs@.len() && cs@[r->Ok_0.1 - 1] == close,
        r is Err ==> r->Err_0.kind == ErrorKind::Parse,
        all_agree(pitems(cs@, i as int, close), r),
    decreases cs@.len() - i, 2int,
{
    let mut items: Vec<Expression> = Vec::new();
    let mut j = i;
    assert(after(erases(models(items@)), pitems(cs@, i as int, close)) == pitems(cs@, i as int, close)) by {
        assert(erases(models(items@)) =~= Seq::<Value>::empty());
        match pitems(cs@, i as int, close) {
            ParsedAll::Done(es, e) => {
                assert(Seq::<Value>::empty() + es =~= es);
            },
            _ => {},
        }
    }
    loop
        invariant
            i <= j <= cs@.len(),
            pitems(cs@, i as int, close) == after(erases(models(items@)), pitems(cs@, j as int, close))
                || pitems(cs@, i as int, close) is Open,
        decreases cs@.len() - j,
    {
        let k = skip_ws(cs, j);
        if k >= cs.len() {
            return Err(parse_error("a list is not closed"));
        }
        if cs[k] == close {
            proof {
                lemma_models(items@);
                assert(erases(models(items@)) + seq![] =~= erases(models(items@)));
            }
            return Ok((items, k + 1));
        }
        let (e, next) = parse_expression(cs, k, host)?;
        let ghost before = items@;
        items.push(e);
        proof {
            lemma_models(before);
            lemma_models(items@);
            assert(models(items@) =~= models(before).push(e.model()));
            lemma_erases_push(models(before), e.model());
            lemma_after_after(erases(models(before)), seq![erase(e.model())], pitems(cs@, next as int, close));
        }
        j = next;
    }
}

/// A list at `i`: `(`, expressions separated by whitespace, `)`.
pub fn parse_list<H: Host>(cs: &Vec<char>, i: usize, host: &H) -> (r: Result<
    (Expression, usize),
    EvalError,
>)
    requires
        i < cs@.len(),
        cs@[i as int] == '(',
    ensures
        r is Ok ==> i < r->Ok_0.1 <= cs@.len() && r->Ok_0.0 is List,
        r is Err ==> r->Err_0.kind == ErrorKind::Parse,
        parsed_agrees(list_of(pitems(cs@, i + 1, ')')), r),
    decreases cs@.len() - i, 0int,
{
    let n = cs.len();
    assert(i < n);
    let (items, end) = parse_items(cs, i + 1, ')', host)?;
    proof {
        lemma_erase_list(models(items@));
    }
    Ok((Expression::List(items), end))
}

/// `'(...)`: the list, quoted.
pub fn parse_list_quoted<H: Host>(cs: &Vec<char>, i: usize, host: &H) -> (r: Result<
    (Expression, usize),
    EvalError,
>)
    requires
        i + 1 < cs@.len(),
        cs@[i as int] == '\'',
        cs@[i + 1] == '(',
    ensures
        r is Ok ==> i < r->Ok_0.1 <= cs@.len() && exists|x: Value|
            x is List && r->Ok_0.0.model() == quoted_model(x),
        r is Err ==> r->Err_0.kind == ErrorKind::Parse,
        parsed_agrees(quoted_of(pitems(cs@, i + 2, ')')), r),
    decreases cs@.len() - i, 0int,
{
    let n = cs.len();
    assert(i < n);
    let (list, end) = parse_list(cs, i + 1, host)?;
    proof {
        lemma_erase_quoted(list.model());
    }
    Ok((quote_of(list), end))
}

/// `[...]`: the elements, as a quoted list.
pub fn parse_list_square<H: Host>(cs: &Vec<char>, i: usize, host: &H) -> (r: Result<
    (Expression, usize),
    EvalError,
>)
    requires
        i < cs@.len(),
        cs@[i as int] == '[',
    ensures
        r is Ok ==> i < r->Ok_0.1 <= cs@.len() && exists|x: Value|
            x is List && r->Ok_0.0.model() == quoted_model(x),
        r is Err ==> r->Err_0.kind == ErrorKind::Parse,
        parsed_agrees(quoted_of(pitems(cs@, i + 1, ']')), r),
    decreases cs@.len() - i, 0int,
{
    let n = cs.len();
    assert(i < n);
    let (items, end) = parse_items(cs, i + 1, ']', host)?;
    proof {
        lemma_erase_list(models(items@));
        lemma_erase_quoted(Expression::List(items).model());
    }
    Ok((quote_of(Expression::List(items)), end))
}

fn quote_of(x: Expression) -> (r: Expression)
    ensures
        r.model() == quoted_model(x.model()),
{
    let ghost xm = x.model();
    let mut v: Vec<Expression> = Vec::new();
    v.push(Expression::Symbol(String::from_str("quote")));
    v.push(x);
    proof {
        lemma_models(v@);
    }
    assert(models(v@) =~= seq![Value::Symbol("quote"@), xm]);
    Expression::List(v)
}

/// One expression at `i`, after any whitespace; returns it with the
/// position after it. The alternatives are tried in this order: float,
/// integer, `#t` / `#f`, a symbol (where `true` is the symbol `t`, and
/// `false`, `nil` and `void` are nil), string, list, `'(...)`, `[...]`.
pub fn parse_expression<H: Host>(cs: &Vec<char>, i: usize, host: &H) -> (r: Result<
    (Expression, usize),
    EvalError,
>)
    requires
        i <= cs@.len(),
    ensures
        r is Ok ==> i < r->Ok_0.1 <= cs@.len(),
        r is Err ==> r->Err_0.kind == ErrorKind::Parse,
        i < cs@.len() && is_alpha(cs@[i as int]) ==> r is Ok,
        i < cs@.len() && cs@[i as int] == '"' && cs@.subrange(i + 1, cs@.len() as int).contains('"')
            ==> r is Ok,
        parsed_agrees(pexpr(cs@, i as int), r),
        r is Err ==> !(pexpr(cs@, i as int) is Done),
        float_at(cs@, ws_end(cs@, i as int)) ==> r is Ok && r->Ok_0.0 is Float,
    decreases cs@.len() - i, 1int,
{
    let j = skip_ws(cs, i);
    if j >= cs.len() {
        return Err(parse_error("an expression was expected"));
    }
    if let Some(found) = parse_float(cs, j, host) {
        return Ok(found);
    }
    if let Some(found) = parse_integer(cs, j) {
        return Ok(found);
    }
    if cs[j] == '#' && j + 1 < cs.len() && (cs[j + 1] == 't' || cs[j + 1] == 'f') {
        if j + 2 == cs.len() || !sym_char_exec(cs[j + 2]) {
            let v = if cs[j + 1] == 't' {
                Expression::truth()
            } else {
                Expression::Nil
            };
            return Ok((v, j + 2));
        }
    }
    if let Some(end) = symbol_end(cs, j) {
        if token_is(cs, j, end, "true") {
            return Ok((Expression::truth(), end));
        }
        if token_is(cs, j, end, "false") || token_is(cs, j, end, "nil") || token_is(
            cs,
            j,
            end,
            "void",
        ) {
            return Ok((Expression::Nil, end));
        }
        let name = string_of_chars(vstd::slice::slice_subrange(cs.as_slice(), j, end));
        return Ok((Expression::Symbol(name), end));
    }
    if let Some(found) = parse_string(cs, j) {
        return Ok(found);
    }
    if cs[j] == '(' {
        return parse_list(cs, j, host);
    }
    if cs[j] == '\'' && j + 1 < cs.len() && cs[j + 1] == '(' {
        return parse_list_quoted(cs, j, host);
    }
    if cs[j] == '[' {
        return parse_list_square(cs, j, host);
    }
    Err(parse_error("no expression starts here"))
}

/// Every top-level expression of `text`, in order.
pub fn parse_program<H: Host>(text: &str, host: &H) -> (r: Result<Vec<Expression>, EvalError>)
    ensures
        r is Err ==> r->Err_0.kind == ErrorKind::Parse,
        (forall|j: int| 0 <= j < text@.len() ==> is_ws(#[trigger] text@[j])) ==> r is Ok
            && r->Ok_0@.len() == 0,
        program_agrees(pprogram(text@, 0), r),
{
    let cs = chars_of(text);
    let mut forms: Vec<Expression> = Vec::new();
    let mut j: usize = 0;
    assert(after(erases(models(forms@)), pprogram(cs@, 0)) == pprogram(cs@, 0)) by {
        assert(erases(models(forms@)) =~= Seq::<Value>::empty());
        match pprogram(cs@, 0) {
            ParsedAll::Done(es, e) => {
                assert(Seq::<Value>::empty() + es =~= es);
            },
            _ => {},
        }
    }
    loop
        invariant
            j <= cs@.len(),
            cs@ == text@,
            pprogram(cs@, 0) == after(erases(models(forms@)), pprogram(cs@, j as int)) || pprogram(cs@, 0) is Open,
            (forall|t: int| 0 <= t < text@.len() ==> is_ws(#[trigger] text@[t])) ==> forms@.len()
                == 0,
        decreases cs@.len() - j,
    {
        let k = skip_ws(&cs, j);
        if k < cs.len() {
            assert(!is_ws(text@[k as int]));
        }
        if k >= cs.len() {
            proof {
                lemma_models(forms@);
                assert(erases(models(forms@)) + seq![] =~= erases(models(forms@)));
            }
            return Ok(forms);
        }
        let (e, next) = parse_expression(&cs, k, host)?;
        let ghost before = forms@;
        forms.push(e);
        proof {
            lemma_models(before);
            lemma_models(forms@);
            assert(models(forms@) =~= models(before).push(e.model()));
            lemma_erases_push(models(before), e.model());
            lemma_after_after(erases(models(before)), seq![erase(e.model())], pprogram(cs@, next as int));
        }
        j = next;
    }
}

} // verus!
