//! Tokens of the teeny language and the operators they stand for.
use vstd::prelude::*;

verus! {

/// A token produced by the lexer.
#[derive(Debug, PartialEq, Clone)]
pub enum Token {
    EOF,
    NEWLINE,
    NUMBER(String),
    IDENT(String),
    STRING(String),
    OPENPAREN,
    CLOSEPAREN,
    // Keywords
    LABEL,
    GOTO,
    PRINT,
    INPUT,
    LET,
    IF,
    THEN,
    ENDIF,
    WHILE,
    REPEAT,
    ENDWHILE,
    ELSE,
    ELSEIF,
    // Operators
    EQ,
    PLUS,
    MINUS,
    ASTERISK,
    SLASH,
    EQEQ,
    NOTEQ,
    LT,
    LTEQ,
    GT,
    GTEQ,
    OR,
    AND,
    NOT,
}

/// The mathematical value of a token: the same variants, with the text of a
/// number, identifier or string literal as a sequence of characters.
pub enum SpecToken {
    EOF,
    NEWLINE,
    NUMBER(Seq<char>),
    IDENT(Seq<char>),
    STRING(Seq<char>),
    OPENPAREN,
    CLOSEPAREN,
    LABEL,
    GOTO,
    PRINT,
    INPUT,
    LET,
    IF,
    THEN,
    ENDIF,
    WHILE,
    REPEAT,
    ENDWHILE,
    ELSE,
    ELSEIF,
    EQ,
    PLUS,
    MINUS,
    ASTERISK,
    SLASH,
    EQEQ,
    NOTEQ,
    LT,
    LTEQ,
    GT,
    GTEQ,
    OR,
    AND,
    NOT,
}

impl View for Token {
    type V = SpecToken;

    open spec fn view(&self) -> SpecToken {
        match self {
            Token::EOF => SpecToken::EOF,
            Token::NEWLINE => SpecToken::NEWLINE,
            Token::NUMBER(s) => SpecToken::NUMBER(s@),
            Token::IDENT(s) => SpecToken::IDENT(s@),
            Token::STRING(s) => SpecToken::STRING(s@),
            Token::OPENPAREN => SpecToken::OPENPAREN,
            Token::CLOSEPAREN => SpecToken::CLOSEPAREN,
            Token::LABEL => SpecToken::LABEL,
            Token::GOTO => SpecToken::GOTO,
            Token::PRINT => SpecToken::PRINT,
            Token::INPUT => SpecToken::INPUT,
            Token::LET => SpecToken::LET,
            Token::IF => SpecToken::IF,
            Token::THEN => SpecToken::THEN,
            Token::ENDIF => SpecToken::ENDIF,
            Token::WHILE => SpecToken::WHILE,
            Token::REPEAT => SpecToken::REPEAT,
            Token::ENDWHILE => SpecToken::ENDWHILE,
            Token::ELSE => SpecToken::ELSE,
            Token::ELSEIF => SpecToken::ELSEIF,
            Token::EQ => SpecToken::EQ,
            Token::PLUS => SpecToken::PLUS,
            Token::MINUS => SpecToken::MINUS,
            Token::ASTERISK => SpecToken::ASTERISK,
            Token::SLASH => SpecToken::SLASH,
            Token::EQEQ => SpecToken::EQEQ,
            Token::NOTEQ => SpecToken::NOTEQ,
            Token::LT => SpecToken::LT,
            Token::LTEQ => SpecToken::LTEQ,
            Token::GT => SpecToken::GT,
            Token::GTEQ => SpecToken::GTEQ,
            Token::OR => SpecToken::OR,
            Token::AND => SpecToken::AND,
            Token::NOT => SpecToken::NOT,
        }
    }
}

/// A binary operator of an expression.
#[derive(Debug, PartialEq, Eq, Structural, Copy, Clone)]
pub enum BinaryOp {
    Plus,
    Minus,
    Slash,
    Asterisk,
    And,
    Or,
    Gt,
    Lt,
    GtEq,
    LtEq,
    EqEq,
    NotEq,
}

/// A unary operator of an expression.
#[derive(Debug, PartialEq, Eq, Structural, Copy, Clone)]
pub enum UnaryOp {
    Plus,
    Minus,
    Not,
}

/// The C spelling of a unary operator.
pub open spec fn unary_op_text(op: UnaryOp) -> Seq<char> {
    match op {
        UnaryOp::Plus => "+"@,
        UnaryOp::Minus => "-"@,
        UnaryOp::Not => "!"@,
    }
}

/// The C spelling of a binary operator.
pub open spec fn binary_op_text(op: BinaryOp) -> Seq<char> {
    match op {
        BinaryOp::Plus => "+"@,
        BinaryOp::Minus => "-"@,
        BinaryOp::Slash => "/"@,
        BinaryOp::Asterisk => "*"@,
        BinaryOp::And => "&&"@,
        BinaryOp::Or => "||"@,
        BinaryOp::Gt => ">"@,
        BinaryOp::Lt => "<"@,
        BinaryOp::GtEq => ">="@,
        BinaryOp::LtEq => "<="@,
        BinaryOp::EqEq => "=="@,
        BinaryOp::NotEq => "!="@,
    }
}

impl UnaryOp {
    /// The C spelling of this operator.
    pub fn text(&self) -> (r: &str)
        ensures
            r@ == unary_op_text(*self),
    {
        match self {
            UnaryOp::Plus => "+",
            UnaryOp::Minus => "-",
            UnaryOp::Not => "!",
        }
    }
}

impl BinaryOp {
    /// The C spelling of this operator.
    pub fn text(&self) -> (r: &str)
        ensures
            r@ == binary_op_text(*self),
    {
        match self {
            BinaryOp::Plus => "+",
            BinaryOp::Minus => "-",
            BinaryOp::Slash => "/",
            BinaryOp::Asterisk => "*",
            BinaryOp::And => "&&",
            BinaryOp::Or => "||",
            BinaryOp::Gt => ">",
            BinaryOp::Lt => "<",
            BinaryOp::GtEq => ">=",
            BinaryOp::LtEq => "<=",
            BinaryOp::EqEq => "==",
            BinaryOp::NotEq => "!=",
        }
    }
}

/// Whether a token has a text: literals, identifiers and operators do;
/// the end of input, newlines, parentheses and keywords do not.
pub open spec fn token_has_text(t: SpecToken) -> bool {
    !(t is EOF || t is NEWLINE || t is OPENPAREN || t is CLOSEPAREN || t is LABEL || t is GOTO
        || t is PRINT || t is INPUT || t is LET || t is IF || t is THEN || t is ENDIF
        || t is WHILE || t is REPEAT || t is ENDWHILE || t is ELSE || t is ELSEIF)
}

/// The text of a token that has one.
pub open spec fn token_text(t: SpecToken) -> Seq<char> {
    match t {
        SpecToken::NUMBER(s) => s,
        SpecToken::IDENT(s) => s,
        SpecToken::STRING(s) => s,
        SpecToken::EQ => "="@,
        SpecToken::PLUS => "+"@,
        SpecToken::MINUS => "-"@,
        SpecToken::ASTERISK => "*"@,
        SpecToken::SLASH => "/"@,
        SpecToken::EQEQ => "=="@,
        SpecToken::NOTEQ => "!="@,
        SpecToken::LT => "<"@,
        SpecToken::LTEQ => "<="@,
        SpecToken::GT => ">"@,
        SpecToken::GTEQ => ">="@,
        SpecToken::NOT => "!"@,
        SpecToken::AND => "&&"@,
        SpecToken::OR => "||"@,
        _ => Seq::empty(),
    }
}

/// The binary operator a token stands for, if any.
pub open spec fn token_binary_op(t: SpecToken) -> Option<BinaryOp> {
    match t {
        SpecToken::PLUS => Some(BinaryOp::Plus),
        SpecToken::MINUS => Some(BinaryOp::Minus),
        SpecToken::SLASH => Some(BinaryOp::Slash),
        SpecToken::ASTERISK => Some(BinaryOp::Asterisk),
        SpecToken::EQEQ => Some(BinaryOp::EqEq),
        SpecToken::NOTEQ => Some(BinaryOp::NotEq),
        SpecToken::LT => Some(BinaryOp::Lt),
        SpecToken::GT => Some(BinaryOp::Gt),
        SpecToken::LTEQ => Some(BinaryOp::LtEq),
        SpecToken::GTEQ => Some(BinaryOp::GtEq),
        SpecToken::OR => Some(BinaryOp::Or),
        SpecToken::AND => Some(BinaryOp::And),
        _ => None,
    }
}

/// The unary operator a token stands for, if any.
pub open spec fn token_unary_op(t: SpecToken) -> Option<UnaryOp> {
    match t {
        SpecToken::PLUS => Some(UnaryOp::Plus),
        SpecToken::MINUS => Some(UnaryOp::Minus),
        SpecToken::NOT => Some(UnaryOp::Not),
        _ => None,
    }
}

/// Whether a token is one of the six comparison operators.
pub open spec fn token_is_comparator(t: SpecToken) -> bool {
    t is EQEQ || t is NOTEQ || t is LT || t is LTEQ || t is GT || t is GTEQ
}

/// The keyword that a word spells, if it spells one.
pub open spec fn keyword_of(s: Seq<char>) -> Option<SpecToken> {
    if s == "LABEL"@ {
        Some(SpecToken::LABEL)
    } else if s == "GOTO"@ {
        Some(SpecToken::GOTO)
    } else if s == "PRINT"@ {
        Some(SpecToken::PRINT)
    } else if s == "INPUT"@ {
        Some(SpecToken::INPUT)
    } else if s == "LET"@ {
        Some(SpecToken::LET)
    } else if s == "IF"@ {
        Some(SpecToken::IF)
    } else if s == "THEN"@ {
        Some(SpecToken::THEN)
    } else if s == "ENDIF"@ {
        Some(SpecToken::ENDIF)
    } else if s == "WHILE"@ {
        Some(SpecToken::WHILE)
    } else if s == "REPEAT"@ {
        Some(SpecToken::REPEAT)
    } else if s == "ENDWHILE"@ {
        Some(SpecToken::ENDWHILE)
    } else if s == "ELSE"@ {
        Some(SpecToken::ELSE)
    } else if s == "ELSEIF"@ {
        Some(SpecToken::ELSEIF)
    } else {
        None
    }
}

/// The token for a word: its keyword, or else an identifier.
pub open spec fn keyword_or_ident(s: Seq<char>) -> SpecToken {
    match keyword_of(s) {
        Some(t) => t,
        None => SpecToken::IDENT(s),
    }
}

/// Every comparison operator stands for a binary operator.
pub proof fn lemma_comparator_is_binary(t: SpecToken)
    ensures
        token_is_comparator(t) ==> token_binary_op(t) is Some,
{
}

/// An operator token is written as the C operator it stands for.
pub proof fn lemma_operator_text(t: SpecToken)
    ensures
        token_binary_op(t) matches Some(op) ==> token_has_text(t) && token_text(t)
            == binary_op_text(op),
        token_unary_op(t) matches Some(op) ==> token_has_text(t) && token_text(t)
            == unary_op_text(op),
{
}

/// A word is read as a keyword exactly when it spells one, and otherwise as
/// an identifier with itself as its text.
pub proof fn lemma_keyword_or_ident(s: Seq<char>)
    ensures
        keyword_or_ident(s) is IDENT <==> keyword_of(s) is None,
        keyword_or_ident(s) matches SpecToken::IDENT(x) ==> x == s,
        keyword_of(s) matches Some(k) ==> keyword_or_ident(s) == k,
{
}

/// Whether two strings hold the same characters.
pub(crate) fn str_eq(a: &str, b: &str) -> (r: bool)
    ensures
        r == (a@ == b@),
{
    let n = a.unicode_len();
    if n != b.unicode_len() {
        return false;
    }
    let mut i: usize = 0;
    while i < n
        invariant
            n == a@.len(),
            n == b@.len(),
            i <= n,
            forall|j: int| 0 <= j < i ==> a@[j] == b@[j],
        decreases n - i,
    {
        if a.get_char(i) != b.get_char(i) {
            return false;
        }
        i = i + 1;
    }
    assert(a@ =~= b@);
    true
}

impl Token {
    /// The text of a literal, identifier or operator token.
    pub fn text(&self) -> (r: &str)
        requires
            token_has_text(self@),
        ensures
            r@ == token_text(self@),
    {
        match self {
            Token::NUMBER(s) => s.as_str(),
            Token::IDENT(s) => s.as_str(),
            Token::STRING(s) => s.as_str(),
            Token::EQ => "=",
            Token::PLUS => "+",
            Token::MINUS => "-",
            Token::ASTERISK => "*",
            Token::SLASH => "/",
            Token::EQEQ => "==",
            Token::NOTEQ => "!=",
            Token::LT => "<",
            Token::LTEQ => "<=",
            Token::GT => ">",
            Token::GTEQ => ">=",
            Token::NOT => "!",
            Token::AND => "&&",
            Token::OR => "||",
            _ => "",
        }
    }

    /// The binary operator this token stands for, if any.
    pub fn binary_op(&self) -> (r: Option<BinaryOp>)
        ensures
            r == token_binary_op(self@),
    {
        match self {
            Token::PLUS => Some(BinaryOp::Plus),
            Token::MINUS => Some(BinaryOp::Minus),
            Token::SLASH => Some(BinaryOp::Slash),
            Token::ASTERISK => Some(BinaryOp::Asterisk),
            Token::EQEQ => Some(BinaryOp::EqEq),
            Token::NOTEQ => Some(BinaryOp::NotEq),
            Token::LT => Some(BinaryOp::Lt),
            Token::GT => Some(BinaryOp::Gt),
            Token::LTEQ => Some(BinaryOp::LtEq),
            Token::GTEQ => Some(BinaryOp::GtEq),
            Token::OR => Some(BinaryOp::Or),
            Token::AND => Some(BinaryOp::And),
            _ => None,
        }
    }

    /// The unary operator this token stands for, if any.
    pub fn unary_op(&self) -> (r: Option<UnaryOp>)
        ensures
            r == token_unary_op(self@),
    {
        match self {
            Token::PLUS => Some(UnaryOp::Plus),
            Token::MINUS => Some(UnaryOp::Minus),
            Token::NOT => Some(UnaryOp::Not),
            _ => None,
        }
    }

    /// Whether this token is one of the six comparison operators.
    pub fn is_comparator(&self) -> (r: bool)
        ensures
            r == token_is_comparator(self@),
    {
        matches!(
            self,
            Token::EQEQ | Token::NOTEQ | Token::LT | Token::LTEQ | Token::GT | Token::GTEQ
        )
    }

    /// Whether this token is the end of input.
    pub fn is_eof(&self) -> (r: bool)
        ensures
            r == (self@ is EOF),
    {
        matches!(self, Token::EOF)
    }

    /// The keyword that `s` spells, if it spells one.
    pub fn try_keyword(s: &str) -> (r: Option<Token>)
        ensures
            match r {
                Some(t) => keyword_of(s@) == Some(t@),
                None => keyword_of(s@) is None,
            },
    {
        if str_eq(s, "LABEL") {
            Some(Token::LABEL)
        } else if str_eq(s, "GOTO") {
            Some(Token::GOTO)
        } else if str_eq(s, "PRINT") {
            Some(Token::PRINT)
        } else if str_eq(s, "INPUT") {
            Some(Token::INPUT)
        } else if str_eq(s, "LET") {
            Some(Token::LET)
        } else if str_eq(s, "IF") {
            Some(Token::IF)
        } else if str_eq(s, "THEN") {
            Some(Token::THEN)
        } else if str_eq(s, "ENDIF") {
            Some(Token::ENDIF)
        } else if str_eq(s, "WHILE") {
            Some(Token::WHILE)
        } else if str_eq(s, "REPEAT") {
            Some(Token::REPEAT)
        } else if str_eq(s, "ENDWHILE") {
            Some(Token::ENDWHILE)
        } else if str_eq(s, "ELSE") {
            Some(Token::ELSE)
        } else if str_eq(s, "ELSEIF") {
            Some(Token::ELSEIF)
        } else {
            None
        }
    }

    /// The keyword that `s` spells, or else the identifier `s`.
    pub fn try_keyword_or_ident(s: String) -> (r: Token)
        ensures
            r@ == keyword_or_ident(s@),
    {
        match Token::try_keyword(s.as_str()) {
            Some(t) => t,
            None => Token::IDENT(s),
        }
    }
}

} // verus!
