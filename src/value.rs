use vstd::prelude::*;

use crate::bindings::{bindings_of, Bindings};
use crate::error::{ErrorKind, EvalError};

verus! {

/// The builtin forms, one for each name of the registry.
#[derive(Debug, Clone, Copy, PartialEq, Eq, Structural)]
pub enum Prim {
    Plus,
    Minus,
    Multiply,
    Divide,
    Mod,
    Equal,
    Greater,
    GreaterEqual,
    Less,
    LessEqual,
    And,
    Or,
    Function,
    If,
    Define,
    Let,
    LetMany,
    Eval,
    EvalLog,
    Lazy,
    Time,
    Concat,
    Range,
    For,
    ForI,
    MapList,
    Fold,
    Filter,
    Print,
    Round,
    WebServer,
    ToStr,
    ToSymbol,
    AndThen,
    Exists,
    ConcatSymbol,
    Append,
    Prepend,
    Index,
    Slice,
    Reverse,
    Length,
    Tangle,
    TypeOf,
    Split,
    Read,
    Write,
    Zip,
    ZipWith,
    Import,
    Export,
    Module,
    Quote,
    EnvValues,
    Apply,
}

impl Prim {
    /// The name under which the registry binds the form.
    pub open spec fn spec_name(self) -> Seq<char> {
        match self {
            Prim::Plus => "+"@,
            Prim::Minus => "-"@,
            Prim::Multiply => "*"@,
            Prim::Divide => "/"@,
            Prim::Mod => "%"@,
            Prim::Equal => "="@,
            Prim::Greater => ">"@,
            Prim::GreaterEqual => ">="@,
            Prim::Less => "<"@,
            Prim::LessEqual => "<="@,
            Prim::And => "and"@,
            Prim::Or => "or"@,
            Prim::Function => "function"@,
            Prim::If => "if"@,
            Prim::Define => "define"@,
            Prim::Let => "let"@,
            Prim::LetMany => "let*"@,
            Prim::Eval => "eval"@,
            Prim::EvalLog => "eval-log"@,
            Prim::Lazy => "lazy"@,
            Prim::Time => "time"@,
            Prim::Concat => "concat"@,
            Prim::Range => "range"@,
            Prim::For => "for"@,
            Prim::ForI => "for-i"@,
            Prim::MapList => "map"@,
            Prim::Fold => "fold"@,
            Prim::Filter => "filter"@,
            Prim::Print => "print"@,
            Prim::Round => "round"@,
            Prim::WebServer => "web-server"@,
            Prim::ToStr => "to-string"@,
            Prim::ToSymbol => "to-symbol"@,
            Prim::AndThen => "and-then"@,
            Prim::Exists => "exists"@,
            Prim::ConcatSymbol => "concat-symbol"@,
            Prim::Append => "append"@,
            Prim::Prepend => "prepend"@,
            Prim::Index => "index"@,
            Prim::Slice => "slice"@,
            Prim::Reverse => "reverse"@,
            Prim::Length => "length"@,
            Prim::Tangle => "tangle"@,
            Prim::TypeOf => "type"@,
            Prim::Split => "split"@,
            Prim::Read => "read"@,
            Prim::Write => "write"@,
            Prim::Zip => "zip"@,
            Prim::ZipWith => "zip-with"@,
            Prim::Import => "import"@,
            Prim::Export => "export"@,
            Prim::Module => "module"@,
            Prim::Quote => "quote"@,
            Prim::EnvValues => "env"@,
            Prim::Apply => "apply"@,
        }
    }

    pub fn name(&self) -> (r: &'static str)
        ensures
            r@ == self.spec_name(),
    {
        match self {
            Prim::Plus => "+",
            Prim::Minus => "-",
            Prim::Multiply => "*",
            Prim::Divide => "/",
            Prim::Mod => "%",
            Prim::Equal => "=",
            Prim::Greater => ">",
            Prim::GreaterEqual => ">=",
            Prim::Less => "<",
            Prim::LessEqual => "<=",
            Prim::And => "and",
            Prim::Or => "or",
            Prim::Function => "function",
            Prim::If => "if",
            Prim::Define => "define",
            Prim::Let => "let",
            Prim::LetMany => "let*",
            Prim::Eval => "eval",
            Prim::EvalLog => "eval-log",
            Prim::Lazy => "lazy",
            Prim::Time => "time",
            Prim::Concat => "concat",
            Prim::Range => "range",
            Prim::For => "for",
            Prim::ForI => "for-i",
            Prim::MapList => "map",
            Prim::Fold => "fold",
            Prim::Filter => "filter",
            Prim::Print => "print",
            Prim::Round => "round",
            Prim::WebServer => "web-server",
            Prim::ToStr => "to-string",
            Prim::ToSymbol => "to-symbol",
            Prim::AndThen => "and-then",
            Prim::Exists => "exists",
            Prim::ConcatSymbol => "concat-symbol",
            Prim::Append => "append",
            Prim::Prepend => "prepend",
            Prim::Index => "index",
            Prim::Slice => "slice",
            Prim::Reverse => "reverse",
            Prim::Length => "length",
            Prim::Tangle => "tangle",
            Prim::TypeOf => "type",
            Prim::Split => "split",
            Prim::Read => "read",
            Prim::Write => "write",
            Prim::Zip => "zip",
            Prim::ZipWith => "zip-with",
            Prim::Import => "import",
            Prim::Export => "export",
            Prim::Module => "module",
            Prim::Quote => "quote",
            Prim::EnvValues => "env",
            Prim::Apply => "apply",
        }
    }

    /// Every form, in the order the registry lists them.
    pub fn all() -> (r: Vec<Prim>)
        ensures
            r@ == all_prims(),
    {
        let r: Vec<Prim> = vec![Prim::Plus, Prim::Minus, Prim::Multiply, Prim::Divide, Prim::Mod, Prim::Equal, Prim::Greater, Prim::GreaterEqual, Prim::Less, Prim::LessEqual, Prim::And, Prim::Or, Prim::Function, Prim::If, Prim::Define, Prim::Let, Prim::LetMany, Prim::Eval, Prim::EvalLog, Prim::Lazy, Prim::Time, Prim::Concat, Prim::Range, Prim::For, Prim::ForI, Prim::MapList, Prim::Fold, Prim::Filter, Prim::Print, Prim::Round, Prim::WebServer, Prim::ToStr, Prim::ToSymbol, Prim::AndThen, Prim::Exists, Prim::ConcatSymbol, Prim::Append, Prim::Prepend, Prim::Index, Prim::Slice, Prim::Reverse, Prim::Length, Prim::Tangle, Prim::TypeOf, Prim::Split, Prim::Read, Prim::Write, Prim::Zip, Prim::ZipWith, Prim::Import, Prim::Export, Prim::Module, Prim::Quote, Prim::EnvValues, Prim::Apply];
        assert(r@ =~= all_prims());
        r
    }

    /// No form's name starts with `_`, as the reserved table names do.
    pub proof fn lemma_not_reserved(self)
        ensures
            self.spec_name().len() > 0,
            self.spec_name()[0] != '_',
    {
        match self {
            Prim::Plus => {
                reveal_strlit("+");
            },
            Prim::Minus => {
                reveal_strlit("-");
            },
            Prim::Multiply => {
                reveal_strlit("*");
            },
            Prim::Divide => {
                reveal_strlit("/");
            },
            Prim::Mod => {
                reveal_strlit("%");
            },
            Prim::Equal => {
                reveal_strlit("=");
            },
            Prim::Greater => {
                reveal_strlit(">");
            },
            Prim::GreaterEqual => {
                reveal_strlit(">=");
            },
            Prim::Less => {
                reveal_strlit("<");
            },
            Prim::LessEqual => {
                reveal_strlit("<=");
            },
            Prim::And => {
                reveal_strlit("and");
            },
            Prim::Or => {
                reveal_strlit("or");
            },
            Prim::Function => {
                reveal_strlit("function");
            },
            Prim::If => {
                reveal_strlit("if");
            },
            Prim::Define => {
                reveal_strlit("define");
            },
            Prim::Let => {
                reveal_strlit("let");
            },
            Prim::LetMany => {
                reveal_strlit("let*");
            },
            Prim::Eval => {
                reveal_strlit("eval");
            },
            Prim::EvalLog => {
                reveal_strlit("eval-log");
            },
            Prim::Lazy => {
                reveal_strlit("lazy");
            },
            Prim::Time => {
                reveal_strlit("time");
            },
            Prim::Concat => {
                reveal_strlit("concat");
            },
            Prim::Range => {
                reveal_strlit("range");
            },
            Prim::For => {
                reveal_strlit("for");
            },
            Prim::ForI => {
                reveal_strlit("for-i");
            },
            Prim::MapList => {
                reveal_strlit("map");
            },
            Prim::Fold => {
                reveal_strlit("fold");
            },
            Prim::Filter => {
                reveal_strlit("filter");
            },
            Prim::Print => {
                reveal_strlit("print");
            },
            Prim::Round => {
                reveal_strlit("round");
            },
            Prim::WebServer => {
                reveal_strlit("web-server");
            },
            Prim::ToStr => {
                reveal_strlit("to-string");
            },
            Prim::ToSymbol => {
                reveal_strlit("to-symbol");
            },
            Prim::AndThen => {
                reveal_strlit("and-then");
            },
            Prim::Exists => {
                reveal_strlit("exists");
            },
            Prim::ConcatSymbol => {
                reveal_strlit("concat-symbol");
            },
            Prim::Append => {
                reveal_strlit("append");
            },
            Prim::Prepend => {
                reveal_strlit("prepend");
            },
            Prim::Index => {
                reveal_strlit("index");
            },
            Prim::Slice => {
                reveal_strlit("slice");
            },
            Prim::Reverse => {
                reveal_strlit("reverse");
            },
            Prim::Length => {
                reveal_strlit("length");
            },
            Prim::Tangle => {
                reveal_strlit("tangle");
            },
            Prim::TypeOf => {
                reveal_strlit("type");
            },
            Prim::Split => {
                reveal_strlit("split");
            },
            Prim::Read => {
                reveal_strlit("read");
            },
            Prim::Write => {
                reveal_strlit("write");
            },
            Prim::Zip => {
                reveal_strlit("zip");
            },
            Prim::ZipWith => {
                reveal_strlit("zip-with");
            },
            Prim::Import => {
                reveal_strlit("import");
            },
            Prim::Export => {
                reveal_strlit("export");
            },
            Prim::Module => {
                reveal_strlit("module");
            },
            Prim::Quote => {
                reveal_strlit("quote");
            },
            Prim::EnvValues => {
                reveal_strlit("env");
            },
            Prim::Apply => {
                reveal_strlit("apply");
            },
        }
    }

    /// No form is named `t`, the name of the true value.
    pub proof fn lemma_not_t(self)
        ensures
            self.spec_name() != "t"@,
    {
        reveal_strlit("t");
        match self {
            Prim::Plus => {
                reveal_strlit("+");
                assert("+"@[0] != "t"@[0] || "+"@.len() != 1);
            },
            Prim::Minus => {
                reveal_strlit("-");
                assert("-"@[0] != "t"@[0] || "-"@.len() != 1);
            },
            Prim::Multiply => {
                reveal_strlit("*");
                assert("*"@[0] != "t"@[0] || "*"@.len() != 1);
            },
            Prim::Divide => {
                reveal_strlit("/");
                assert("/"@[0] != "t"@[0] || "/"@.len() != 1);
            },
            Prim::Mod => {
                reveal_strlit("%");
                assert("%"@[0] != "t"@[0] || "%"@.len() != 1);
            },
            Prim::Equal => {
                reveal_strlit("=");
                assert("="@[0] != "t"@[0] || "="@.len() != 1);
            },
            Prim::Greater => {
                reveal_strlit(">");
                assert(">"@[0] != "t"@[0] || ">"@.len() != 1);
            },
            Prim::GreaterEqual => {
                reveal_strlit(">=");
                assert(">="@[0] != "t"@[0] || ">="@.len() != 1);
            },
            Prim::Less => {
                reveal_strlit("<");
                assert("<"@[0] != "t"@[0] || "<"@.len() != 1);
            },
            Prim::LessEqual => {
                reveal_strlit("<=");
                assert("<="@[0] != "t"@[0] || "<="@.len() != 1);
            },
            Prim::And => {
                reveal_strlit("and");
                assert("and"@[0] != "t"@[0] || "and"@.len() != 1);
            },
            Prim::Or => {
                reveal_strlit("or");
                assert("or"@[0] != "t"@[0] || "or"@.len() != 1);
            },
            Prim::Function => {
                reveal_strlit("function");
                assert("function"@[0] != "t"@[0] || "function"@.len() != 1);
            },
            Prim::If => {
                reveal_strlit("if");
                assert("if"@[0] != "t"@[0] || "if"@.len() != 1);
            },
            Prim::Define => {
                reveal_strlit("define");
                assert("define"@[0] != "t"@[0] || "define"@.len() != 1);
            },
            Prim::Let => {
                reveal_strlit("let");
                assert("let"@[0] != "t"@[0] || "let"@.len() != 1);
            },
            Prim::LetMany => {
                reveal_strlit("let*");
                assert("let*"@[0] != "t"@[0] || "let*"@.len() != 1);
            },
            Prim::Eval => {
                reveal_strlit("eval");
                assert("eval"@[0] != "t"@[0] || "eval"@.len() != 1);
            },
            Prim::EvalLog => {
                reveal_strlit("eval-log");
                assert("eval-log"@[0] != "t"@[0] || "eval-log"@.len() != 1);
            },
            Prim::Lazy => {
                reveal_strlit("lazy");
                assert("lazy"@[0] != "t"@[0] || "lazy"@.len() != 1);
            },
            Prim::Time => {
                reveal_strlit("time");
                assert("time"@[0] != "t"@[0] || "time"@.len() != 1);
            },
            Prim::Concat => {
                reveal_strlit("concat");
                assert("concat"@[0] != "t"@[0] || "concat"@.len() != 1);
            },
            Prim::Range => {
                reveal_strlit("range");
                assert("range"@[0] != "t"@[0] || "range"@.len() != 1);
            },
            Prim::For => {
                reveal_strlit("for");
                assert("for"@[0] != "t"@[0] || "for"@.len() != 1);
            },
            Prim::ForI => {
                reveal_strlit("for-i");
                assert("for-i"@[0] != "t"@[0] || "for-i"@.len() != 1);
            },
            Prim::MapList => {
                reveal_strlit("map");
                assert("map"@[0] != "t"@[0] || "map"@.len() != 1);
            },
            Prim::Fold => {
                reveal_strlit("fold");
                assert("fold"@[0] != "t"@[0] || "fold"@.len() != 1);
            },
            Prim::Filter => {
                reveal_strlit("filter");
                assert("filter"@[0] != "t"@[0] || "filter"@.len() != 1);
            },
            Prim::Print => {
                reveal_strlit("print");
                assert("print"@[0] != "t"@[0] || "print"@.len() != 1);
            },
            Prim::Round => {
                reveal_strlit("round");
                assert("round"@[0] != "t"@[0] || "round"@.len() != 1);
            },
            Prim::WebServer => {
                reveal_strlit("web-server");
                assert("web-server"@[0] != "t"@[0] || "web-server"@.len() != 1);
            },
            Prim::ToStr => {
                reveal_strlit("to-string");
                assert("to-string"@[0] != "t"@[0] || "to-string"@.len() != 1);
            },
            Prim::ToSymbol => {
                reveal_strlit("to-symbol");
                assert("to-symbol"@[0] != "t"@[0] || "to-symbol"@.len() != 1);
            },
            Prim::AndThen => {
                reveal_strlit("and-then");
                assert("and-then"@[0] != "t"@[0] || "and-then"@.len() != 1);
            },
            Prim::Exists => {
                reveal_strlit("exists");
                assert("exists"@[0] != "t"@[0] || "exists"@.len() != 1);
            },
            Prim::ConcatSymbol => {
                reveal_strlit("concat-symbol");
                assert("concat-symbol"@[0] != "t"@[0] || "concat-symbol"@.len() != 1);
            },
            Prim::Append => {
                reveal_strlit("append");
                assert("append"@[0] != "t"@[0] || "append"@.len() != 1);
            },
            Prim::Prepend => {
                reveal_strlit("prepend");
                assert("prepend"@[0] != "t"@[0] || "prepend"@.len() != 1);
            },
            Prim::Index => {
                reveal_strlit("index");
                assert("index"@[0] != "t"@[0] || "index"@.len() != 1);
            },
            Prim::Slice => {
                reveal_strlit("slice");
                assert("slice"@[0] != "t"@[0] || "slice"@.len() != 1);
            },
            Prim::Reverse => {
                reveal_strlit("reverse");
                assert("reverse"@[0] != "t"@[0] || "reverse"@.len() != 1);
            },
            Prim::Length => {
                reveal_strlit("length");
                assert("length"@[0] != "t"@[0] || "length"@.len() != 1);
            },
            Prim::Tangle => {
                reveal_strlit("tangle");
                assert("tangle"@[0] != "t"@[0] || "tangle"@.len() != 1);
            },
            Prim::TypeOf => {
                reveal_strlit("type");
                assert("type"@[0] != "t"@[0] || "type"@.len() != 1);
            },
            Prim::Split => {
                reveal_strlit("split");
                assert("split"@[0] != "t"@[0] || "split"@.len() != 1);
            },
            Prim::Read => {
                reveal_strlit("read");
                assert("read"@[0] != "t"@[0] || "read"@.len() != 1);
            },
            Prim::Write => {
                reveal_strlit("write");
                assert("write"@[0] != "t"@[0] || "write"@.len() != 1);
            },
            Prim::Zip => {
                reveal_strlit("zip");
                assert("zip"@[0] != "t"@[0] || "zip"@.len() != 1);
            },
            Prim::ZipWith => {
                reveal_strlit("zip-with");
                assert("zip-with"@[0] != "t"@[0] || "zip-with"@.len() != 1);
            },
            Prim::Import => {
                reveal_strlit("import");
                assert("import"@[0] != "t"@[0] || "import"@.len() != 1);
            },
            Prim::Export => {
                reveal_strlit("export");
                assert("export"@[0] != "t"@[0] || "export"@.len() != 1);
            },
            Prim::Module => {
                reveal_strlit("module");
                assert("module"@[0] != "t"@[0] || "module"@.len() != 1);
            },
            Prim::Quote => {
                reveal_strlit("quote");
                assert("quote"@[0] != "t"@[0] || "quote"@.len() != 1);
            },
            Prim::EnvValues => {
                reveal_strlit("env");
                assert("env"@[0] != "t"@[0] || "env"@.len() != 1);
            },
            Prim::Apply => {
                reveal_strlit("apply");
                assert("apply"@[0] != "t"@[0] || "apply"@.len() != 1);
            },
        }
    }
}

/// Every builtin form, in registry order.
pub open spec fn all_prims() -> Seq<Prim> {
    seq![Prim::Plus, Prim::Minus, Prim::Multiply, Prim::Divide, Prim::Mod, Prim::Equal, Prim::Greater, Prim::GreaterEqual, Prim::Less, Prim::LessEqual, Prim::And, Prim::Or, Prim::Function, Prim::If, Prim::Define, Prim::Let, Prim::LetMany, Prim::Eval, Prim::EvalLog, Prim::Lazy, Prim::Time, Prim::Concat, Prim::Range, Prim::For, Prim::ForI, Prim::MapList, Prim::Fold, Prim::Filter, Prim::Print, Prim::Round, Prim::WebServer, Prim::ToStr, Prim::ToSymbol, Prim::AndThen, Prim::Exists, Prim::ConcatSymbol, Prim::Append, Prim::Prepend, Prim::Index, Prim::Slice, Prim::Reverse, Prim::Length, Prim::Tangle, Prim::TypeOf, Prim::Split, Prim::Read, Prim::Write, Prim::Zip, Prim::ZipWith, Prim::Import, Prim::Export, Prim::Module, Prim::Quote, Prim::EnvValues, Prim::Apply]
}

/// The mathematical model of a value.
pub enum Value {
    Integer(i64),
    Float(u64),
    Str(Seq<char>),
    Symbol(Seq<char>),
    List(Seq<Value>),
    Table(Map<Seq<char>, Value>),
    Function { params: Seq<Value>, body: Box<Value> },
    Builtin(Prim),
    Nil,
}

/// A runtime value, which is also an expression of the language.
#[derive(Debug, PartialEq)]
pub enum Expression {
    Integer(i64),
    /// A 64-bit float, held as its IEEE-754 bit pattern.
    Float(u64),
    String(String),
    Symbol(String),
    List(Vec<Expression>),
    Table(Bindings),
    Function { arguments: Vec<Expression>, body: Box<Expression> },
    Builtin(Prim),
    Nil,
}

pub open spec fn models(s: Seq<Expression>) -> Seq<Value>
    decreases s,
{
    Seq::new(s.len(), |i: int| if 0 <= i < s.len() { s[i].model() } else { Value::Nil })
}

/// The model of a list is the list of its elements' models.
pub proof fn lemma_models(s: Seq<Expression>)
    ensures
        models(s).len() == s.len(),
        forall|j: int| 0 <= j < s.len() ==> #[trigger] models(s)[j] == s[j].model(),
{
}

impl Expression {
    pub open spec fn model(&self) -> Value
        decreases self,
    {
        match self {
            Expression::Integer(i) => Value::Integer(*i),
            Expression::Float(f) => Value::Float(*f),
            Expression::String(s) => Value::Str(s@),
            Expression::Symbol(s) => Value::Symbol(s@),
            Expression::List(v) => Value::List(models(v@)),
            Expression::Table(t) => Value::Table(bindings_of(*t)),
            Expression::Function { arguments, body } => Value::Function {
                params: models(arguments@),
                body: Box::new(body.model()),
            },
            Expression::Builtin(p) => Value::Builtin(*p),
            Expression::Nil => Value::Nil,
        }
    }
}

/// The name of a value's variant, as `type` reports it.
pub open spec fn kind_name(v: Value) -> Seq<char> {
    match v {
        Value::Builtin(_) => "builtin"@,
        Value::Function { .. } => "function"@,
        Value::List(_) => "list"@,
        Value::Integer(_) => "integer"@,
        Value::Str(_) => "string"@,
        Value::Symbol(_) => "symbol"@,
        Value::Nil => "nil"@,
        Value::Float(_) => "float"@,
        Value::Table(_) => "table"@,
    }
}

/// Nil is the one false value.
pub open spec fn truthy(v: Value) -> bool {
    !(v is Nil)
}

/// The value that stands for true: the symbol `t`.
pub open spec fn true_value() -> Value {
    Value::Symbol("t"@)
}

/// A boolean as a value: `t` or nil.
pub open spec fn bool_value(b: bool) -> Value {
    if b {
        true_value()
    } else {
        Value::Nil
    }
}

pub fn type_error(message: &str) -> (r: EvalError)
    ensures
        r.kind == ErrorKind::Type,
{
    EvalError::new(ErrorKind::Type, message)
}

/// Copies each element of `v`, in order.
pub fn copy_list(v: &Vec<Expression>) -> (r: Vec<Expression>)
    ensures
        models(r@) == models(v@),
    decreases v,
{
    let mut r: Vec<Expression> = Vec::new();
    let mut i: usize = 0;
    while i < v.len()
        invariant
            i <= v.len(),
            r@.len() == i,
            forall|j: int| 0 <= j < i ==> #[trigger] r@[j].model() == v@[j].model(),
        decreases v.len() - i,
    {
        proof {
            assert(decreases_to!(v => v@[i as int]));
        }
        r.push(v[i].clone());
        i = i + 1;
    }
    assert forall|j: int| 0 <= j < r@.len() implies models(r@)[j] == models(v@)[j] by {
        assert(r@[j].model() == v@[j].model());
    }
    assert(models(r@) =~= models(v@));
    r
}

impl Expression {
    pub fn as_i64(&self) -> (r: Result<i64, EvalError>)
        ensures
            r is Ok <==> self is Integer,
            r is Ok ==> self.model() == Value::Integer(r->Ok_0),
            r is Err ==> r->Err_0.kind == ErrorKind::Type,
    {
        match self {
            Expression::Integer(i) => Ok(*i),
            _ => Err(type_error("not an integer")),
        }
    }

    /// The bit pattern of a float.
    pub fn as_f64(&self) -> (r: Result<u64, EvalError>)
        ensures
            r is Ok <==> self is Float,
            r is Ok ==> self.model() == Value::Float(r->Ok_0),
            r is Err ==> r->Err_0.kind == ErrorKind::Type,
    {
        match self {
            Expression::Float(f) => Ok(*f),
            _ => Err(type_error("not a float")),
        }
    }

    pub fn as_string(&self) -> (r: Result<String, EvalError>)
        ensures
            r is Ok <==> self is String,
            r is Ok ==> self.model() == Value::Str(r->Ok_0@),
            r is Err ==> r->Err_0.kind == ErrorKind::Type,
    {
        match self {
            Expression::String(s) => Ok(s.clone()),
            _ => Err(type_error("not a string")),
        }
    }

    pub fn as_symbol_string(&self) -> (r: Result<String, EvalError>)
        ensures
            r is Ok <==> self is Symbol,
            r is Ok ==> self.model() == Value::Symbol(r->Ok_0@),
            r is Err ==> r->Err_0.kind == ErrorKind::Type,
    {
        match self {
            Expression::Symbol(s) => Ok(s.clone()),
            _ => Err(type_error("not a symbol")),
        }
    }

    /// Every value but nil is true.
    pub fn as_boolean(&self) -> (r: Result<bool, EvalError>)
        ensures
            r is Ok,
            r->Ok_0 == truthy(self.model()),
    {
        Ok(!matches!(self, Expression::Nil))
    }

    pub fn as_list(&self) -> (r: Result<Vec<Expression>, EvalError>)
        ensures
            r is Ok <==> self is List,
            r is Ok ==> self.model() == Value::List(models(r->Ok_0@)),
            r is Err ==> r->Err_0.kind == ErrorKind::Type,
    {
        match self {
            Expression::List(l) => Ok(copy_list(l)),
            _ => Err(type_error("not a list")),
        }
    }

    pub fn as_table(&self) -> (r: Result<Bindings, EvalError>)
        ensures
            r is Ok <==> self is Table,
            r is Ok ==> self.model() == Value::Table(bindings_of(r->Ok_0)),
            r is Err ==> r->Err_0.kind == ErrorKind::Type,
    {
        match self {
            Expression::Table(t) => Ok(t.clone()),
            _ => Err(type_error("not a table")),
        }
    }

    pub fn as_type_string(&self) -> (r: String)
        ensures
            r@ == kind_name(self.model()),
    {
        let s = match self {
            Expression::Builtin(_) => "builtin",
            Expression::Function { .. } => "function",
            Expression::List(_) => "list",
            Expression::Integer(_) => "integer",
            Expression::String(_) => "string",
            Expression::Symbol(_) => "symbol",
            Expression::Nil => "nil",
            Expression::Float(_) => "float",
            Expression::Table(_) => "table",
        };
        s.to_string()
    }

    /// The symbol `t`.
    pub fn truth() -> (r: Expression)
        ensures
            r.model() == true_value(),
    {
        Expression::Symbol("t".to_string())
    }

    /// `t` for true, nil for false.
    pub fn from_bool(b: bool) -> (r: Expression)
        ensures
            r.model() == bool_value(b),
    {
        if b {
            Expression::truth()
        } else {
            Expression::Nil
        }
    }
}

/// Whether two values have the same model.
pub fn values_equal(a: &Expression, b: &Expression) -> (r: bool)
    ensures
        r == (a.model() == b.model()),
    decreases a,
{
    match (a, b) {
        (Expression::Integer(x), Expression::Integer(y)) => *x == *y,
        (Expression::Float(x), Expression::Float(y)) => *x == *y,
        (Expression::String(x), Expression::String(y)) => strings_equal(x, y),
        (Expression::Symbol(x), Expression::Symbol(y)) => strings_equal(x, y),
        (Expression::List(x), Expression::List(y)) => lists_equal(x, y),
        (Expression::Table(x), Expression::Table(y)) => x.same_as(y),
        (
            Expression::Function { arguments: xa, body: xb },
            Expression::Function { arguments: ya, body: yb },
        ) => lists_equal(xa, ya) && values_equal(xb, yb),
        (Expression::Builtin(x), Expression::Builtin(y)) => *x == *y,
        (Expression::Nil, Expression::Nil) => true,
        _ => {
            assert(a.model() != b.model());
            false
        },
    }
}

pub fn strings_equal(a: &String, b: &String) -> (r: bool)
    ensures
        r == (a@ == b@),
{
    let x = a.as_str();
    let y = b.as_str();
    let n = x.unicode_len();
    if n != y.unicode_len() {
        return false;
    }
    let mut i: usize = 0;
    while i < n
        invariant
            i <= n,
            n == x@.len(),
            n == y@.len(),
            x@ == a@,
            y@ == b@,
            forall|j: int| 0 <= j < i ==> x@[j] == y@[j],
        decreases n - i,
    {
        if x.get_char(i) != y.get_char(i) {
            return false;
        }
        i = i + 1;
    }
    assert(x@ =~= y@);
    true
}

/// Whether two lists have the same models, element by element.
pub fn lists_equal(a: &Vec<Expression>, b: &Vec<Expression>) -> (r: bool)
    ensures
        r == (models(a@) == models(b@)),
    decreases a,
{
    if a.len() != b.len() {
        assert(models(a@).len() != models(b@).len());
        return false;
    }
    let mut i: usize = 0;
    while i < a.len()
        invariant
            i <= a.len(),
            a.len() == b.len(),
            forall|j: int| 0 <= j < i ==> #[trigger] a@[j].model() == b@[j].model(),
        decreases a.len() - i,
    {
        proof {
            assert(decreases_to!(a => a@[i as int]));
        }
        if !values_equal(&a[i], &b[i]) {
            assert(models(a@)[i as int] != models(b@)[i as int]);
            return false;
        }
        i = i + 1;
    }
    assert forall|j: int| 0 <= j < a@.len() implies models(a@)[j] == models(b@)[j] by {
        assert(a@[j].model() == b@[j].model());
    }
    assert(models(a@) =~= models(b@));
    true
}

impl Clone for Expression {
    fn clone(&self) -> (r: Expression)
        ensures
            r.model() == self.model(),
        decreases self,
    {
        match self {
            Expression::Integer(i) => Expression::Integer(*i),
            Expression::Float(f) => Expression::Float(*f),
            Expression::String(s) => Expression::String(s.clone()),
            Expression::Symbol(s) => Expression::Symbol(s.clone()),
            Expression::List(v) => Expression::List(copy_list(v)),
            Expression::Table(t) => Expression::Table(t.clone()),
            Expression::Function { arguments, body } => Expression::Function {
                arguments: copy_list(arguments),
                body: Box::new((**body).clone()),
            },
            Expression::Builtin(p) => Expression::Builtin(*p),
            Expression::Nil => Expression::Nil,
        }
    }
}

} // verus!
