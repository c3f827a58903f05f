use vstd::prelude::*;
use vstd::string::StringExecFns;

use crate::bindings::bindings_of;
use crate::host::Host;
use crate::value::{lemma_models, models, Expression, Value};

verus! {

/// The decimal digits of `n`, most significant first.
pub open spec fn digits(n: nat) -> Seq<char>
    decreases n,
{
    let d = ((n % 10) as u8 + '0' as u8) as char;
    if n < 10 {
        seq![d]
    } else {
        digits(n / 10).push(d)
    }
}

/// An integer in decimal, with a leading `-` where it is negative.
pub open spec fn decimal(i: int) -> Seq<char> {
    if i < 0 {
        seq!['-'] + digits((-i) as nat)
    } else {
        digits(i as nat)
    }
}

/// The decimal digits of `n`.
fn digits_of(n: u64) -> (r: Vec<char>)
    ensures
        r@ == digits(n as nat),
    decreases n,
{
    let d = ((n % 10) as u8 + '0' as u8) as char;
    if n < 10 {
        let mut v: Vec<char> = Vec::new();
        v.push(d);
        assert(v@ =~= seq![d]);
        v
    } else {
        let mut v = digits_of(n / 10);
        v.push(d);
        v
    }
}

/// An integer in decimal, `-` first where it is negative.
pub(crate) fn int_text(i: i64) -> (r: String)
    ensures
        r@ == decimal(i as int),
{
    if i < 0 {
        let m = (-(i as i128)) as u64;
        let ds = digits_of(m);
        let t = string_of_chars(ds.as_slice());
        proof {
            reveal_strlit("-");
            assert("-"@ =~= seq!['-']);
        }
        join2(String::from_str("-"), t.as_str())
    } else {
        let ds = digits_of(i as u64);
        string_of_chars(ds.as_slice())
    }
}

/// Relies on collecting a slice of `char`s into a `String`: the same
/// characters, in order.
#[verifier::external_body]
pub(crate) fn string_of_chars(cs: &[char]) -> (r: String)
    ensures
        r@ == cs@,
{
    cs.iter().collect()
}

/// Relies on `str::chars`, collected: the characters of `s`, in order.
#[verifier::external_body]
pub(crate) fn chars_of(s: &str) -> (r: Vec<char>)
    ensures
        r@ == s@,
{
    s.chars().collect()
}

/// What `str::split` gives for a text and a separator.
pub uninterp spec fn split_of(s: Seq<char>, by: Seq<char>) -> Seq<Seq<char>>;

/// Relies on `str::split`: the pieces of `s` between the occurrences of
/// `by`, which depend on the two texts alone.
#[verifier::external_body]
pub(crate) fn split_text(s: &str, by: &str) -> (r: Vec<String>)
    ensures
        r@.len() == split_of(s@, by@).len(),
        forall|i: int| 0 <= i < r@.len() ==> #[trigger] r@[i]@ == split_of(s@, by@)[i],
{
    s.split(by).map(|p| p.to_string()).collect()
}

/// Appends `b` to `a`.
pub fn join2(a: String, b: &str) -> (r: String)
    ensures
        r@ == a@ + b@,
{
    a.concat(b)
}

/// How many levels of nested tables are written out.
pub const TABLE_DEPTH: u64 = 4;

/// The part of the written form that does not depend on a float's digits
/// or on the order of a table's entries.
pub open spec fn shown_atom(v: Value, s: Seq<char>) -> bool {
    match v {
        Value::Integer(i) => s == decimal(i as int),
        Value::Str(t) => s == seq!['"'] + t + seq!['"'],
        Value::Symbol(t) => s == t,
        Value::Nil => s == "nil"@,
        Value::Builtin(p) => s == p.spec_name(),
        Value::List(_) => s.len() >= 2 && s[0] == '(' && s[s.len() - 1] == ')',
        _ => true,
    }
}

/// The written form of a value made of integers, strings, symbols, nil,
/// builtins and lists of these; `None` where a float (whose digits the host
/// writes), a table (whose order the map leaves open) or a function occurs.
pub open spec fn shown(v: Value) -> Option<Seq<char>>
    decreases v,
{
    match v {
        Value::Integer(i) => Some(decimal(i as int)),
        Value::Str(t) => Some(seq!['"'] + t + seq!['"']),
        Value::Symbol(t) => Some(t),
        Value::Nil => Some("nil"@),
        Value::Builtin(p) => Some(p.spec_name()),
        Value::List(items) => match shown_items(items, items.len() as int) {
            Some(t) => Some(seq!['('] + t + seq![')']),
            None => None,
        },
        _ => None,
    }
}

/// The written forms of `items[0..n]`, separated by single spaces.
pub open spec fn shown_items(items: Seq<Value>, n: int) -> Option<Seq<char>>
    decreases items, n,
{
    if n <= 0 || n > items.len() {
        Some(seq![])
    } else {
        match (shown_items(items, n - 1), shown(items[n - 1])) {
            (Some(a), Some(b)) => Some(
                if n == 1 {
                    b
                } else {
                    a + seq![' '] + b
                },
            ),
            _ => None,
        }
    }
}

pub proof fn lemma_shown_prefix(items: Seq<Value>, i: int, n: int)
    requires
        0 <= i <= n <= items.len(),
        shown_items(items, n) is Some,
    ensures
        shown_items(items, i) is Some,
    decreases n - i,
{
    if i < n {
        lemma_shown_prefix(items, i, n - 1);
    }
}

impl Expression {
    /// The written form used in diagnostics: a function shows as its body.
    pub fn as_debug_string<H: Host>(&self, host: &H) -> (r: String)
        ensures
            self is Function || shown_atom(self.model(), r@),
            shown(self.model()) is Some ==> r@ == shown(self.model())->0,
            self is Function && shown(self->body.model()) is Some ==> r@ == shown(self->body.model())->0,
            self is Table && bindings_of(self->Table_0).dom().len() == 0 ==> r@ == "{}"@,
        decreases self,
    {
        self.written(host, false, TABLE_DEPTH)
    }

    /// The written form that `print` and `to-string` produce.
    pub fn as_display_string<H: Host>(&self, host: &H) -> (r: String)
        ensures
            shown_atom(self.model(), r@),
            shown(self.model()) is Some ==> r@ == shown(self.model())->0,
            self is Table && bindings_of(self->Table_0).dom().len() == 0 ==> r@ == "{}"@,
        decreases self,
    {
        self.written(host, true, TABLE_DEPTH)
    }

    /// Tables nest at most `depth` levels; one deeper shows as `{...}`.
    fn written<H: Host>(&self, host: &H, full: bool, depth: u64) -> (r: String)
        ensures
            (self is Function && !full) || shown_atom(self.model(), r@),
            shown(self.model()) is Some ==> r@ == shown(self.model())->0,
            !full && self is Function && shown(self->body.model()) is Some ==> r@ == shown(self->body.model())->0,
            depth > 0 && self is Table && bindings_of(self->Table_0).dom().len() == 0 ==> r@ == "{}"@,
        decreases depth, self,
    {
        match self {
            Expression::Builtin(p) => String::from_str(p.name()),
            Expression::Function { arguments, body } => {
                if full {
                    let s = join2(String::from_str("function : "), list_text(arguments, host, full, depth).as_str());
                    let s = join2(s, " => ");
                    join2(s, body.written(host, full, depth).as_str())
                } else {
                    body.written(host, full, depth)
                }
            },
            Expression::List(list) => list_text(list, host, full, depth),
            Expression::Integer(i) => int_text(*i),
            Expression::Float(f) => host.float_text(*f),
            Expression::String(s) => {
                proof {
                    reveal_strlit("\"");
                    assert("\""@ =~= seq!['"']);
                }
                let t = join2(String::from_str("\""), s.as_str());
                join2(t, "\"")
            },
            Expression::Symbol(s) => s.clone(),
            Expression::Nil => String::from_str("nil"),
            Expression::Table(t) => {
                let entries = t.entries();
                if depth == 0 {
                    "{...}".to_string()
                } else if entries.len() == 0 {
                    String::from_str("{}")
                } else {
                    let mut s = "{ ".to_string();
                    let mut i: usize = 0;
                    while i < entries.len()
                        invariant
                            i <= entries@.len(),
                            depth > 0,
                        decreases entries@.len() - i,
                    {
                        if i > 0 {
                            s = join2(s, ", ");
                        }
                        s = join2(s, entries[i].0.as_str());
                        s = join2(s, ": ");
                        s = join2(s, entries[i].1.written(host, full, depth - 1).as_str());
                        i = i + 1;
                    }
                    join2(s, " }")
                }
            },
        }
    }
}

/// The elements of `list`, written out between parentheses and separated
/// by single spaces.
fn list_text<H: Host>(list: &Vec<Expression>, host: &H, full: bool, depth: u64) -> (r: String)
    ensures
        r@.len() >= 2,
        r@[0] == '(',
        r@[r@.len() - 1] == ')',
        shown_items(models(list@), list@.len() as int) is Some ==> r@ == seq!['('] + shown_items(
            models(list@),
            list@.len() as int,
        )->0 + seq![')'],
    decreases depth, list,
{
    let ghost ms = models(list@);
    proof {
        lemma_models(list@);
        reveal_strlit("(");
        reveal_strlit(" ");
    }
    let mut s = String::from_str("(");
    assert(s@ =~= seq!['('] + Seq::<char>::empty());
    let mut i: usize = 0;
    while i < list.len()
        invariant
            i <= list@.len(),
            s@.len() >= 1,
            s@[0] == '(',
            ms == models(list@),
            forall|j: int| 0 <= j < list@.len() ==> #[trigger] ms[j] == list@[j].model(),
            shown_items(ms, list@.len() as int) is Some ==> shown_items(ms, i as int) is Some && s@
                == seq!['('] + shown_items(ms, i as int)->0,
        decreases list@.len() - i,
    {
        proof {
            assert(decreases_to!(list => list@[i as int]));
            if shown_items(ms, list@.len() as int) is Some {
                lemma_shown_prefix(ms, i + 1, list@.len() as int);
            }
        }
        let ghost before = s@;
        if i > 0 {
            s = join2(s, " ");
        }
        let w = list[i].written(host, full, depth);
        s = join2(s, w.as_str());
        proof {
            if shown_items(ms, list@.len() as int) is Some {
                let a = shown_items(ms, i as int)->0;
                assert(shown(ms[i as int]) is Some);
                if i == 0 {
                    assert(s@ =~= seq!['('] + shown_items(ms, i + 1)->0);
                } else {
                    reveal_strlit(" ");
                    assert(" "@ =~= seq![' ']);
                    assert(s@ =~= seq!['('] + shown_items(ms, i + 1)->0);
                }
            }
        }
        i = i + 1;
    }
    proof {
        reveal_strlit(")");
        assert(")"@ =~= seq![')']);
    }
    join2(s, ")")
}

} // verus!
