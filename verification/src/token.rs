use vstd::prelude::*;

verus! {

/// A single-precision quantity, held as the expression that defines it.
///
/// The front end never looks inside such a quantity: it only builds new ones
/// out of old ones. Evaluation in machine arithmetic is left to the caller,
/// who reads the expression from the leaves up.
#[derive(Debug, PartialEq)]
pub enum FloatExpr {
    /// A literal as it stood in the source text.
    Literal(String),
    /// The operand times ten to the given power.
    Scaled(Box<FloatExpr>, i32),
    Product(Box<FloatExpr>, Box<FloatExpr>),
    Quotient(Box<FloatExpr>, Box<FloatExpr>),
    Sum(Box<FloatExpr>, Box<FloatExpr>),
    Difference(Box<FloatExpr>, Box<FloatExpr>),
}

/// The mathematical model of a [`FloatExpr`].
pub enum FloatModel {
    Literal(Seq<char>),
    Scaled(Box<FloatModel>, int),
    Product(Box<FloatModel>, Box<FloatModel>),
    Quotient(Box<FloatModel>, Box<FloatModel>),
    Sum(Box<FloatModel>, Box<FloatModel>),
    Difference(Box<FloatModel>, Box<FloatModel>),
}

impl FloatExpr {
    pub open spec fn model(self) -> FloatModel
        decreases self,
    {
        match self {
            FloatExpr::Literal(s) => FloatModel::Literal(s@),
            FloatExpr::Scaled(x, n) => FloatModel::Scaled(Box::new(x.model()), n as int),
            FloatExpr::Product(x, y) => FloatModel::Product(
                Box::new(x.model()),
                Box::new(y.model()),
            ),
            FloatExpr::Quotient(x, y) => FloatModel::Quotient(
                Box::new(x.model()),
                Box::new(y.model()),
            ),
            FloatExpr::Sum(x, y) => FloatModel::Sum(Box::new(x.model()), Box::new(y.model())),
            FloatExpr::Difference(x, y) => FloatModel::Difference(
                Box::new(x.model()),
                Box::new(y.model()),
            ),
        }
    }
}

impl View for FloatExpr {
    type V = FloatModel;

    open spec fn view(&self) -> FloatModel {
        self.model()
    }
}

impl Clone for FloatExpr {
    fn clone(&self) -> (r: FloatExpr)
        ensures
            r@ == self@,
        decreases self,
    {
        match self {
            FloatExpr::Literal(s) => FloatExpr::Literal(s.clone()),
            FloatExpr::Scaled(x, n) => FloatExpr::Scaled(Box::new((**x).clone()), *n),
            FloatExpr::Product(x, y) => FloatExpr::Product(
                Box::new((**x).clone()),
                Box::new((**y).clone()),
            ),
            FloatExpr::Quotient(x, y) => FloatExpr::Quotient(
                Box::new((**x).clone()),
                Box::new((**y).clone()),
            ),
            FloatExpr::Sum(x, y) => FloatExpr::Sum(
                Box::new((**x).clone()),
                Box::new((**y).clone()),
            ),
            FloatExpr::Difference(x, y) => FloatExpr::Difference(
                Box::new((**x).clone()),
                Box::new((**y).clone()),
            ),
        }
    }
}

/// One lexical unit of a program.
#[derive(Debug, PartialEq)]
#[allow(inconsistent_fields)]
pub enum Token {
    Identifier(String),
    Variable { id: String },
    Function { id: String, args: Vec<String>, definition: bool },
    Int(i32),
    Float(FloatExpr),
    UnknownToken(String),
    Newline,
    OpenParen { id: Option<i64>, function: bool },
    CloseParen { id: Option<i64>, function: bool },
    Print,
    Format,
    GoTo,
    SenseLight,
    If,
    Label(i32),
    Power,
    Multiply,
    Divide,
    Add,
    Subtract,
    Equals,
    Space,
    Stop,
    Do,
    Comma,
    Dimension,
    E,
}

/// The mathematical model of a [`Token`]: text is a sequence of characters.
#[allow(inconsistent_fields)]
pub enum TokenModel {
    Identifier(Seq<char>),
    Variable { id: Seq<char> },
    Function { id: Seq<char>, args: Seq<Seq<char>>, definition: bool },
    Int(i32),
    Float(FloatModel),
    UnknownToken(Seq<char>),
    Newline,
    OpenParen { id: Option<i64>, function: bool },
    CloseParen { id: Option<i64>, function: bool },
    Print,
    Format,
    GoTo,
    SenseLight,
    If,
    Label(i32),
    Power,
    Multiply,
    Divide,
    Add,
    Subtract,
    Equals,
    Space,
    Stop,
    Do,
    Comma,
    Dimension,
    E,
}

/// The texts of a list of names.
pub open spec fn names_model(names: Seq<String>) -> Seq<Seq<char>> {
    Seq::new(names.len(), |i: int| names[i]@)
}

impl View for Token {
    type V = TokenModel;

    open spec fn view(&self) -> TokenModel {
        match *self {
            Token::Identifier(s) => TokenModel::Identifier(s@),
            Token::Variable { id } => TokenModel::Variable { id: id@ },
            Token::Function { id, args, definition } => TokenModel::Function {
                id: id@,
                args: names_model(args@),
                definition,
            },
            Token::Int(v) => TokenModel::Int(v),
            Token::Float(x) => TokenModel::Float(x@),
            Token::UnknownToken(s) => TokenModel::UnknownToken(s@),
            Token::Newline => TokenModel::Newline,
            Token::OpenParen { id, function } => TokenModel::OpenParen { id, function },
            Token::CloseParen { id, function } => TokenModel::CloseParen { id, function },
            Token::Print => TokenModel::Print,
            Token::Format => TokenModel::Format,
            Token::GoTo => TokenModel::GoTo,
            Token::SenseLight => TokenModel::SenseLight,
            Token::If => TokenModel::If,
            Token::Label(n) => TokenModel::Label(n),
            Token::Power => TokenModel::Power,
            Token::Multiply => TokenModel::Multiply,
            Token::Divide => TokenModel::Divide,
            Token::Add => TokenModel::Add,
            Token::Subtract => TokenModel::Subtract,
            Token::Equals => TokenModel::Equals,
            Token::Space => TokenModel::Space,
            Token::Stop => TokenModel::Stop,
            Token::Do => TokenModel::Do,
            Token::Comma => TokenModel::Comma,
            Token::Dimension => TokenModel::Dimension,
            Token::E => TokenModel::E,
        }
    }
}

impl DeepView for Token {
    type V = TokenModel;

    open spec fn deep_view(&self) -> TokenModel {
        self@
    }
}

fn clone_names(names: &Vec<String>) -> (r: Vec<String>)
    ensures
        names_model(r@) == names_model(names@),
{
    let mut out: Vec<String> = Vec::new();
    let mut i: usize = 0;
    while i < names.len()
        invariant
            i <= names.len(),
            out.len() == i,
            forall|k: int| 0 <= k < i ==> out[k]@ == names[k]@,
        decreases names.len() - i,
    {
        out.push(names[i].clone());
        i += 1;
    }
    assert(names_model(out@) =~= names_model(names@));
    out
}

impl Clone for Token {
    fn clone(&self) -> (r: Token)
        ensures
            r@ == self@,
    {
        match self {
            Token::Identifier(s) => Token::Identifier(s.clone()),
            Token::Variable { id } => Token::Variable { id: id.clone() },
            Token::Function { id, args, definition } => Token::Function {
                id: id.clone(),
                args: clone_names(args),
                definition: *definition,
            },
            Token::Int(v) => Token::Int(*v),
            Token::Float(x) => Token::Float(x.clone()),
            Token::UnknownToken(s) => Token::UnknownToken(s.clone()),
            Token::Newline => Token::Newline,
            Token::OpenParen { id, function } => Token::OpenParen { id: *id, function: *function },
            Token::CloseParen { id, function } => Token::CloseParen {
                id: *id,
                function: *function,
            },
            Token::Print => Token::Print,
            Token::Format => Token::Format,
            Token::GoTo => Token::GoTo,
            Token::SenseLight => Token::SenseLight,
            Token::If => Token::If,
            Token::Label(n) => Token::Label(*n),
            Token::Power => Token::Power,
            Token::Multiply => Token::Multiply,
            Token::Divide => Token::Divide,
            Token::Add => Token::Add,
            Token::Subtract => Token::Subtract,
            Token::Equals => Token::Equals,
            Token::Space => Token::Space,
            Token::Stop => Token::Stop,
            Token::Do => Token::Do,
            Token::Comma => Token::Comma,
            Token::Dimension => Token::Dimension,
            Token::E => Token::E,
        }
    }
}

/// A copy of a token list with the same model.
pub fn clone_tokens(tokens: &Vec<Token>) -> (r: Vec<Token>)
    ensures
        r.deep_view() == tokens.deep_view(),
{
    let mut out: Vec<Token> = Vec::new();
    let mut i: usize = 0;
    while i < tokens.len()
        invariant
            i <= tokens.len(),
            out.len() == i,
            forall|k: int| 0 <= k < i ==> out[k]@ == tokens[k]@,
        decreases tokens.len() - i,
    {
        out.push(tokens[i].clone());
        i += 1;
    }
    assert(out.deep_view() =~= tokens.deep_view());
    out
}

/// Appends a copy of each of the given tokens.
pub fn extend_tokens(out: &mut Vec<Token>, extra: &Vec<Token>)
    ensures
        final(out).deep_view() == old(out).deep_view() + extra.deep_view(),
{
    let mut i: usize = 0;
    while i < extra.len()
        invariant
            i <= extra.len(),
            out.deep_view() == old(out).deep_view() + extra.deep_view().take(i as int),
        decreases extra.len() - i,
    {
        let ghost before = out.deep_view();
        out.push(extra[i].clone());
        assert(out.deep_view() =~= before.push(extra[i as int]@));
        assert(extra.deep_view().take(i + 1) =~= extra.deep_view().take(i as int).push(
            extra[i as int]@,
        ));
        i += 1;
    }
    assert(extra.deep_view().take(i as int) =~= extra.deep_view());
}

impl FloatExpr {
    /// Whether two quantities are defined by the same expression.
    pub fn same_as(&self, other: &FloatExpr) -> (r: bool)
        ensures
            r == (self@ == other@),
        decreases self,
    {
        match (self, other) {
            (FloatExpr::Literal(a), FloatExpr::Literal(b)) => *a == *b,
            (FloatExpr::Scaled(x, m), FloatExpr::Scaled(y, n)) => *m == *n && x.same_as(y),
            (FloatExpr::Product(a, b), FloatExpr::Product(c, d)) => a.same_as(c) && b.same_as(d),
            (FloatExpr::Quotient(a, b), FloatExpr::Quotient(c, d)) => a.same_as(c) && b.same_as(d),
            (FloatExpr::Sum(a, b), FloatExpr::Sum(c, d)) => a.same_as(c) && b.same_as(d),
            (FloatExpr::Difference(a, b), FloatExpr::Difference(c, d)) => a.same_as(c)
                && b.same_as(d),
            _ => false,
        }
    }
}

fn same_names(a: &Vec<String>, b: &Vec<String>) -> (r: bool)
    ensures
        r == (names_model(a@) == names_model(b@)),
{
    if a.len() != b.len() {
        assert(names_model(a@).len() != names_model(b@).len());
        return false;
    }
    let mut i: usize = 0;
    while i < a.len()
        invariant
            i <= a.len(),
            a.len() == b.len(),
            forall|k: int| 0 <= k < i ==> a[k]@ == b[k]@,
        decreases a.len() - i,
    {
        if a[i] != b[i] {
            assert(names_model(a@)[i as int] != names_model(b@)[i as int]);
            return false;
        }
        i += 1;
    }
    assert(names_model(a@) =~= names_model(b@));
    true
}

fn same_id(a: &Option<i64>, b: &Option<i64>) -> (r: bool)
    ensures
        r == (*a == *b),
{
    match (a, b) {
        (Some(x), Some(y)) => *x == *y,
        (None, None) => true,
        _ => false,
    }
}

impl Token {
    /// Whether two tokens are the same: of the same kind, with the same contents.
    pub fn same_as(&self, other: &Token) -> (r: bool)
        ensures
            r == (self@ == other@),
    {
        match (self, other) {
            (Token::Identifier(a), Token::Identifier(b)) => *a == *b,
            (Token::Variable { id: a }, Token::Variable { id: b }) => *a == *b,
            (
                Token::Function { id: a, args: x, definition: d },
                Token::Function { id: b, args: y, definition: e },
            ) => *a == *b && *d == *e && same_names(x, y),
            (Token::Int(a), Token::Int(b)) => *a == *b,
            (Token::Float(a), Token::Float(b)) => a.same_as(b),
            (Token::UnknownToken(a), Token::UnknownToken(b)) => *a == *b,
            (Token::Newline, Token::Newline) => true,
            (
                Token::OpenParen { id: a, function: f },
                Token::OpenParen { id: b, function: g },
            ) => same_id(a, b) && *f == *g,
            (
                Token::CloseParen { id: a, function: f },
                Token::CloseParen { id: b, function: g },
            ) => same_id(a, b) && *f == *g,
            (Token::Print, Token::Print) => true,
            (Token::Format, Token::Format) => true,
            (Token::GoTo, Token::GoTo) => true,
            (Token::SenseLight, Token::SenseLight) => true,
            (Token::If, Token::If) => true,
            (Token::Label(a), Token::Label(b)) => *a == *b,
            (Token::Power, Token::Power) => true,
            (Token::Multiply, Token::Multiply) => true,
            (Token::Divide, Token::Divide) => true,
            (Token::Add, Token::Add) => true,
            (Token::Subtract, Token::Subtract) => true,
            (Token::Equals, Token::Equals) => true,
            (Token::Space, Token::Space) => true,
            (Token::Stop, Token::Stop) => true,
            (Token::Do, Token::Do) => true,
            (Token::Comma, Token::Comma) => true,
            (Token::Dimension, Token::Dimension) => true,
            (Token::E, Token::E) => true,
            _ => false,
        }
    }
}

/// The tokens of a sequence that differ from the given one, in their order.
pub open spec fn without(s: Seq<TokenModel>, unwanted: TokenModel) -> Seq<TokenModel>
    decreases s.len(),
{
    if s.len() == 0 {
        s
    } else if s.last() == unwanted {
        without(s.drop_last(), unwanted)
    } else {
        without(s.drop_last(), unwanted).push(s.last())
    }
}

/// A copy of the tokens from `from` up to `to`, without those that are the
/// same as the given one.
pub fn copy_without(tokens: &Vec<Token>, from: usize, to: usize, unwanted: &Token) -> (r: Vec<
    Token,
>)
    requires
        from <= to <= tokens.len(),
    ensures
        r.deep_view() == without(tokens.deep_view().subrange(from as int, to as int), unwanted@),
{
    let ghost part = tokens.deep_view().subrange(from as int, to as int);
    let mut out: Vec<Token> = Vec::new();
    let mut i: usize = from;
    assert(out.deep_view() =~= without(part.take(0), unwanted@));
    while i < to
        invariant
            from <= i <= to <= tokens.len(),
            part == tokens.deep_view().subrange(from as int, to as int),
            out.deep_view() == without(part.take(i - from), unwanted@),
        decreases to - i,
    {
        let ghost before = out.deep_view();
        proof {
            assert(part.take(i - from + 1).drop_last() =~= part.take(i - from));
            assert(part.take(i - from + 1).last() == tokens[i as int]@);
        }
        if !tokens[i].same_as(unwanted) {
            out.push(tokens[i].clone());
            assert(out.deep_view() =~= before.push(tokens[i as int]@));
        }
        i += 1;
    }
    assert(part.take(i - from) =~= part);
    out
}

/// A copy of the tokens from `from` up to `to`.
pub fn copy_range(tokens: &Vec<Token>, from: usize, to: usize) -> (r: Vec<Token>)
    requires
        from <= to <= tokens.len(),
    ensures
        r.deep_view() == tokens.deep_view().subrange(from as int, to as int),
{
    let mut out: Vec<Token> = Vec::new();
    let mut i: usize = from;
    while i < to
        invariant
            from <= i <= to <= tokens.len(),
            out.len() == i - from,
            forall|k: int| 0 <= k < out.len() ==> out[k]@ == tokens[from + k]@,
        decreases to - i,
    {
        out.push(tokens[i].clone());
        i += 1;
    }
    assert(out.deep_view() =~= tokens.deep_view().subrange(from as int, to as int));
    out
}

} // verus!
