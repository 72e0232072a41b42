use vstd::prelude::*;
use vstd::string::*;

verus! {

/// The indentation that follows a line break.
#[derive(Debug)]
pub struct NewLineInfo {
    pub indent: usize,
}

/// A lexical token.
#[derive(Debug)]
pub enum Token {
    NewLine(NewLineInfo),
    Word(String),
    StringLiteral(String),
    ParenOpen,
    ParenClose,
    Period,
    Comma,
    Colon,
    Equals,
    Plus,
    Minus,
    Star,
    Slash,
}

/// The mathematical value of a token.
pub enum SToken {
    NewLine(usize),
    Word(Seq<char>),
    StringLiteral(Seq<char>),
    ParenOpen,
    ParenClose,
    Period,
    Comma,
    Colon,
    Equals,
    Plus,
    Minus,
    Star,
    Slash,
}

impl View for Token {
    type V = SToken;

    open spec fn view(&self) -> SToken {
        match self {
            Token::NewLine(n) => SToken::NewLine(n.indent),
            Token::Word(w) => SToken::Word(w@),
            Token::StringLiteral(s) => SToken::StringLiteral(s@),
            Token::ParenOpen => SToken::ParenOpen,
            Token::ParenClose => SToken::ParenClose,
            Token::Period => SToken::Period,
            Token::Comma => SToken::Comma,
            Token::Colon => SToken::Colon,
            Token::Equals => SToken::Equals,
            Token::Plus => SToken::Plus,
            Token::Minus => SToken::Minus,
            Token::Star => SToken::Star,
            Token::Slash => SToken::Slash,
        }
    }
}

/// How a token is shown in error messages.
pub open spec fn token_text(t: SToken) -> Seq<char> {
    match t {
        SToken::NewLine(_) => "new line"@,
        SToken::Word(w) => w,
        SToken::StringLiteral(s) => "\""@ + s + "\""@,
        SToken::ParenOpen => "("@,
        SToken::ParenClose => ")"@,
        SToken::Period => "."@,
        SToken::Comma => ","@,
        SToken::Colon => ":"@,
        SToken::Equals => "="@,
        SToken::Plus => "+"@,
        SToken::Minus => "-"@,
        SToken::Star => "*"@,
        SToken::Slash => "/"@,
    }
}

impl Token {
    /// The text of this token as shown in error messages.
    pub fn simple_string(&self) -> (r: String)
        ensures
            r@ == token_text(self@),
    {
        match self {
            Token::NewLine(_) => String::from_str("new line"),
            Token::Word(w) => w.clone(),
            Token::StringLiteral(s) => {
                let mut r = String::from_str("\"");
                r.append(s.as_str());
                r.append("\"");
                r
            },
            Token::ParenOpen => String::from_str("("),
            Token::ParenClose => String::from_str(")"),
            Token::Period => String::from_str("."),
            Token::Comma => String::from_str(","),
            Token::Colon => String::from_str(":"),
            Token::Equals => String::from_str("="),
            Token::Plus => String::from_str("+"),
            Token::Minus => String::from_str("-"),
            Token::Star => String::from_str("*"),
            Token::Slash => String::from_str("/"),
        }
    }

    /// Whether this token is a line break.
    pub fn is_new_line(&self) -> (r: bool)
        ensures
            r == (self@ is NewLine),
    {
        match self {
            Token::NewLine(_) => true,
            _ => false,
        }
    }
}

/// A token with the range of characters of the source that it was read from.
#[derive(Debug)]
pub struct DebugToken {
    pub token: Token,
    pub char_range: core::ops::Range<usize>,
}

/// The mathematical value of a `DebugToken`.
pub struct SDebugToken {
    pub token: SToken,
    pub start: usize,
    pub end: usize,
}

impl View for DebugToken {
    type V = SDebugToken;

    open spec fn view(&self) -> SDebugToken {
        SDebugToken { token: self.token@, start: self.char_range.start, end: self.char_range.end }
    }
}

/// The source text (when known) and a name for it, used to place error messages.
#[derive(Debug)]
pub struct DebugInfo {
    pub source: Option<String>,
    pub source_name: String,
}

/// The mathematical value of a `DebugInfo`.
pub struct SDebugInfo {
    pub source: Option<Seq<char>>,
    pub source_name: Seq<char>,
}

impl View for DebugInfo {
    type V = SDebugInfo;

    open spec fn view(&self) -> SDebugInfo {
        SDebugInfo {
            source: match self.source {
                Some(s) => Some(s@),
                None => None,
            },
            source_name: self.source_name@,
        }
    }
}

impl DebugInfo {
    pub fn new(source: Option<String>, source_name: String) -> (r: DebugInfo)
        ensures
            r.source == source,
            r.source_name == source_name,
    {
        DebugInfo { source, source_name }
    }
}

} // verus!
