//! The kinds of nodes and tokens that a template syntax tree is made of.
use vstd::prelude::*;

verus! {

/// The kind of a node or token of the syntax tree.
///
/// The kinds that the checks look at have a name of their own. Every other kind of the grammar
/// is carried along as `OTHER` with its raw number.
#[allow(non_camel_case_types)]
#[derive(Clone, Copy, Debug, PartialEq, Eq, Structural)]
pub enum SyntaxKind {
    ROOT,
    BODY,
    ERROR,
    HTML_TAG,
    HTML_STARTING_TAG,
    HTML_ENDING_TAG,
    HTML_ATTRIBUTE_LIST,
    HTML_ATTRIBUTE,
    HTML_STRING,
    HTML_STRING_INNER,
    HTML_TEXT,
    TWIG_COMMENT,
    TWIG_VAR,
    TWIG_EXPRESSION,
    TWIG_PARENTHESES_EXPRESSION,
    TWIG_UNARY_EXPRESSION,
    TWIG_BINARY_EXPRESSION,
    TWIG_FUNCTION_CALL,
    TWIG_OPERAND,
    TWIG_ARGUMENTS,
    TWIG_LITERAL_NAME,
    TWIG_LITERAL_STRING,
    TWIG_LITERAL_STRING_INNER,
    TWIG_LITERAL_BOOLEAN,
    TWIG_IF,
    TWIG_IF_BLOCK,
    TWIG_ELSE_IF_BLOCK,
    TWIG_ELSE_BLOCK,
    TWIG_ENDIF_BLOCK,
    TWIG_BLOCK,
    TWIG_SET,
    TWIG_FOR,
    TWIG_APPLY,
    TWIG_AUTOESCAPE,
    TWIG_EMBED,
    TWIG_SANDBOX,
    TWIG_VERBATIM,
    TWIG_MACRO,
    TWIG_WITH,
    TWIG_CACHE,
    TWIG_COMPONENT,
    TWIG_TRANS,
    SHOPWARE_SILENT_FEATURE_CALL,
    LUDTWIG_DIRECTIVE_IGNORE,
    LUDTWIG_DIRECTIVE_RULE_LIST,
    TK_WHITESPACE,
    TK_LINE_BREAK,
    TK_WORD,
    TK_TWIG_COMPONENT_NAME,
    TK_LESS_THAN,
    TK_LESS_THAN_SLASH,
    TK_NOT,
    TK_AND,
    TK_OR,
    OTHER(u16),
}

/// How many kinds have a name: the raw numbers below this one.
pub const NAMED_KINDS: u16 = 54;

/// The kind that a raw number stands for.
pub open spec fn kind_of_raw(raw: u16) -> SyntaxKind {
    match raw {
        0 => SyntaxKind::ROOT,
        1 => SyntaxKind::BODY,
        2 => SyntaxKind::ERROR,
        3 => SyntaxKind::HTML_TAG,
        4 => SyntaxKind::HTML_STARTING_TAG,
        5 => SyntaxKind::HTML_ENDING_TAG,
        6 => SyntaxKind::HTML_ATTRIBUTE_LIST,
        7 => SyntaxKind::HTML_ATTRIBUTE,
        8 => SyntaxKind::HTML_STRING,
        9 => SyntaxKind::HTML_STRING_INNER,
        10 => SyntaxKind::HTML_TEXT,
        11 => SyntaxKind::TWIG_COMMENT,
        12 => SyntaxKind::TWIG_VAR,
        13 => SyntaxKind::TWIG_EXPRESSION,
        14 => SyntaxKind::TWIG_PARENTHESES_EXPRESSION,
        15 => SyntaxKind::TWIG_UNARY_EXPRESSION,
        16 => SyntaxKind::TWIG_BINARY_EXPRESSION,
        17 => SyntaxKind::TWIG_FUNCTION_CALL,
        18 => SyntaxKind::TWIG_OPERAND,
        19 => SyntaxKind::TWIG_ARGUMENTS,
        20 => SyntaxKind::TWIG_LITERAL_NAME,
        21 => SyntaxKind::TWIG_LITERAL_STRING,
        22 => SyntaxKind::TWIG_LITERAL_STRING_INNER,
        23 => SyntaxKind::TWIG_LITERAL_BOOLEAN,
        24 => SyntaxKind::TWIG_IF,
        25 => SyntaxKind::TWIG_IF_BLOCK,
        26 => SyntaxKind::TWIG_ELSE_IF_BLOCK,
        27 => SyntaxKind::TWIG_ELSE_BLOCK,
        28 => SyntaxKind::TWIG_ENDIF_BLOCK,
        29 => SyntaxKind::TWIG_BLOCK,
        30 => SyntaxKind::TWIG_SET,
        31 => SyntaxKind::TWIG_FOR,
        32 => SyntaxKind::TWIG_APPLY,
        33 => SyntaxKind::TWIG_AUTOESCAPE,
        34 => SyntaxKind::TWIG_EMBED,
        35 => SyntaxKind::TWIG_SANDBOX,
        36 => SyntaxKind::TWIG_VERBATIM,
        37 => SyntaxKind::TWIG_MACRO,
        38 => SyntaxKind::TWIG_WITH,
        39 => SyntaxKind::TWIG_CACHE,
        40 => SyntaxKind::TWIG_COMPONENT,
        41 => SyntaxKind::TWIG_TRANS,
        42 => SyntaxKind::SHOPWARE_SILENT_FEATURE_CALL,
        43 => SyntaxKind::LUDTWIG_DIRECTIVE_IGNORE,
        44 => SyntaxKind::LUDTWIG_DIRECTIVE_RULE_LIST,
        45 => SyntaxKind::TK_WHITESPACE,
        46 => SyntaxKind::TK_LINE_BREAK,
        47 => SyntaxKind::TK_WORD,
        48 => SyntaxKind::TK_TWIG_COMPONENT_NAME,
        49 => SyntaxKind::TK_LESS_THAN,
        50 => SyntaxKind::TK_LESS_THAN_SLASH,
        51 => SyntaxKind::TK_NOT,
        52 => SyntaxKind::TK_AND,
        53 => SyntaxKind::TK_OR,
        _ => SyntaxKind::OTHER(raw),
    }
}

/// The raw number of a kind.
pub open spec fn raw_of_kind(kind: SyntaxKind) -> u16 {
    match kind {
        SyntaxKind::ROOT => 0,
        SyntaxKind::BODY => 1,
        SyntaxKind::ERROR => 2,
        SyntaxKind::HTML_TAG => 3,
        SyntaxKind::HTML_STARTING_TAG => 4,
        SyntaxKind::HTML_ENDING_TAG => 5,
        SyntaxKind::HTML_ATTRIBUTE_LIST => 6,
        SyntaxKind::HTML_ATTRIBUTE => 7,
        SyntaxKind::HTML_STRING => 8,
        SyntaxKind::HTML_STRING_INNER => 9,
        SyntaxKind::HTML_TEXT => 10,
        SyntaxKind::TWIG_COMMENT => 11,
        SyntaxKind::TWIG_VAR => 12,
        SyntaxKind::TWIG_EXPRESSION => 13,
        SyntaxKind::TWIG_PARENTHESES_EXPRESSION => 14,
        SyntaxKind::TWIG_UNARY_EXPRESSION => 15,
        SyntaxKind::TWIG_BINARY_EXPRESSION => 16,
        SyntaxKind::TWIG_FUNCTION_CALL => 17,
        SyntaxKind::TWIG_OPERAND => 18,
        SyntaxKind::TWIG_ARGUMENTS => 19,
        SyntaxKind::TWIG_LITERAL_NAME => 20,
        SyntaxKind::TWIG_LITERAL_STRING => 21,
        SyntaxKind::TWIG_LITERAL_STRING_INNER => 22,
        SyntaxKind::TWIG_LITERAL_BOOLEAN => 23,
        SyntaxKind::TWIG_IF => 24,
        SyntaxKind::TWIG_IF_BLOCK => 25,
        SyntaxKind::TWIG_ELSE_IF_BLOCK => 26,
        SyntaxKind::TWIG_ELSE_BLOCK => 27,
        SyntaxKind::TWIG_ENDIF_BLOCK => 28,
        SyntaxKind::TWIG_BLOCK => 29,
        SyntaxKind::TWIG_SET => 30,
        SyntaxKind::TWIG_FOR => 31,
        SyntaxKind::TWIG_APPLY => 32,
        SyntaxKind::TWIG_AUTOESCAPE => 33,
        SyntaxKind::TWIG_EMBED => 34,
        SyntaxKind::TWIG_SANDBOX => 35,
        SyntaxKind::TWIG_VERBATIM => 36,
        SyntaxKind::TWIG_MACRO => 37,
        SyntaxKind::TWIG_WITH => 38,
        SyntaxKind::TWIG_CACHE => 39,
        SyntaxKind::TWIG_COMPONENT => 40,
        SyntaxKind::TWIG_TRANS => 41,
        SyntaxKind::SHOPWARE_SILENT_FEATURE_CALL => 42,
        SyntaxKind::LUDTWIG_DIRECTIVE_IGNORE => 43,
        SyntaxKind::LUDTWIG_DIRECTIVE_RULE_LIST => 44,
        SyntaxKind::TK_WHITESPACE => 45,
        SyntaxKind::TK_LINE_BREAK => 46,
        SyntaxKind::TK_WORD => 47,
        SyntaxKind::TK_TWIG_COMPONENT_NAME => 48,
        SyntaxKind::TK_LESS_THAN => 49,
        SyntaxKind::TK_LESS_THAN_SLASH => 50,
        SyntaxKind::TK_NOT => 51,
        SyntaxKind::TK_AND => 52,
        SyntaxKind::TK_OR => 53,
        SyntaxKind::OTHER(raw) => raw,
    }
}

/// Whether tokens of this kind only separate other tokens.
pub open spec fn is_trivia_kind(kind: SyntaxKind) -> bool {
    kind == SyntaxKind::TK_WHITESPACE || kind == SyntaxKind::TK_LINE_BREAK
}

impl SyntaxKind {
    /// The kind that the raw number `raw` stands for.
    pub fn from_raw(raw: u16) -> (kind: SyntaxKind)
        ensures
            kind == kind_of_raw(raw),
    {
        match raw {
            0 => SyntaxKind::ROOT,
            1 => SyntaxKind::BODY,
            2 => SyntaxKind::ERROR,
            3 => SyntaxKind::HTML_TAG,
            4 => SyntaxKind::HTML_STARTING_TAG,
            5 => SyntaxKind::HTML_ENDING_TAG,
            6 => SyntaxKind::HTML_ATTRIBUTE_LIST,
            7 => SyntaxKind::HTML_ATTRIBUTE,
            8 => SyntaxKind::HTML_STRING,
            9 => SyntaxKind::HTML_STRING_INNER,
            10 => SyntaxKind::HTML_TEXT,
            11 => SyntaxKind::TWIG_COMMENT,
            12 => SyntaxKind::TWIG_VAR,
            13 => SyntaxKind::TWIG_EXPRESSION,
            14 => SyntaxKind::TWIG_PARENTHESES_EXPRESSION,
            15 => SyntaxKind::TWIG_UNARY_EXPRESSION,
            16 => SyntaxKind::TWIG_BINARY_EXPRESSION,
            17 => SyntaxKind::TWIG_FUNCTION_CALL,
            18 => SyntaxKind::TWIG_OPERAND,
            19 => SyntaxKind::TWIG_ARGUMENTS,
            20 => SyntaxKind::TWIG_LITERAL_NAME,
            21 => SyntaxKind::TWIG_LITERAL_STRING,
            22 => SyntaxKind::TWIG_LITERAL_STRING_INNER,
            23 => SyntaxKind::TWIG_LITERAL_BOOLEAN,
            24 => SyntaxKind::TWIG_IF,
            25 => SyntaxKind::TWIG_IF_BLOCK,
            26 => SyntaxKind::TWIG_ELSE_IF_BLOCK,
            27 => SyntaxKind::TWIG_ELSE_BLOCK,
            28 => SyntaxKind::TWIG_ENDIF_BLOCK,
            29 => SyntaxKind::TWIG_BLOCK,
            30 => SyntaxKind::TWIG_SET,
            31 => SyntaxKind::TWIG_FOR,
            32 => SyntaxKind::TWIG_APPLY,
            33 => SyntaxKind::TWIG_AUTOESCAPE,
            34 => SyntaxKind::TWIG_EMBED,
            35 => SyntaxKind::TWIG_SANDBOX,
            36 => SyntaxKind::TWIG_VERBATIM,
            37 => SyntaxKind::TWIG_MACRO,
            38 => SyntaxKind::TWIG_WITH,
            39 => SyntaxKind::TWIG_CACHE,
            40 => SyntaxKind::TWIG_COMPONENT,
            41 => SyntaxKind::TWIG_TRANS,
            42 => SyntaxKind::SHOPWARE_SILENT_FEATURE_CALL,
            43 => SyntaxKind::LUDTWIG_DIRECTIVE_IGNORE,
            44 => SyntaxKind::LUDTWIG_DIRECTIVE_RULE_LIST,
            45 => SyntaxKind::TK_WHITESPACE,
            46 => SyntaxKind::TK_LINE_BREAK,
            47 => SyntaxKind::TK_WORD,
            48 => SyntaxKind::TK_TWIG_COMPONENT_NAME,
            49 => SyntaxKind::TK_LESS_THAN,
            50 => SyntaxKind::TK_LESS_THAN_SLASH,
            51 => SyntaxKind::TK_NOT,
            52 => SyntaxKind::TK_AND,
            53 => SyntaxKind::TK_OR,
            _ => SyntaxKind::OTHER(raw),
        }
    }

    /// The raw number of this kind.
    pub fn to_raw(self) -> (raw: u16)
        ensures
            raw == raw_of_kind(self),
    {
        match self {
            SyntaxKind::ROOT => 0,
            SyntaxKind::BODY => 1,
            SyntaxKind::ERROR => 2,
            SyntaxKind::HTML_TAG => 3,
            SyntaxKind::HTML_STARTING_TAG => 4,
            SyntaxKind::HTML_ENDING_TAG => 5,
            SyntaxKind::HTML_ATTRIBUTE_LIST => 6,
            SyntaxKind::HTML_ATTRIBUTE => 7,
            SyntaxKind::HTML_STRING => 8,
            SyntaxKind::HTML_STRING_INNER => 9,
            SyntaxKind::HTML_TEXT => 10,
            SyntaxKind::TWIG_COMMENT => 11,
            SyntaxKind::TWIG_VAR => 12,
            SyntaxKind::TWIG_EXPRESSION => 13,
            SyntaxKind::TWIG_PARENTHESES_EXPRESSION => 14,
            SyntaxKind::TWIG_UNARY_EXPRESSION => 15,
            SyntaxKind::TWIG_BINARY_EXPRESSION => 16,
            SyntaxKind::TWIG_FUNCTION_CALL => 17,
            SyntaxKind::TWIG_OPERAND => 18,
            SyntaxKind::TWIG_ARGUMENTS => 19,
            SyntaxKind::TWIG_LITERAL_NAME => 20,
            SyntaxKind::TWIG_LITERAL_STRING => 21,
            SyntaxKind::TWIG_LITERAL_STRING_INNER => 22,
            SyntaxKind::TWIG_LITERAL_BOOLEAN => 23,
            SyntaxKind::TWIG_IF => 24,
            SyntaxKind::TWIG_IF_BLOCK => 25,
            SyntaxKind::TWIG_ELSE_IF_BLOCK => 26,
            SyntaxKind::TWIG_ELSE_BLOCK => 27,
            SyntaxKind::TWIG_ENDIF_BLOCK => 28,
            SyntaxKind::TWIG_BLOCK => 29,
            SyntaxKind::TWIG_SET => 30,
            SyntaxKind::TWIG_FOR => 31,
            SyntaxKind::TWIG_APPLY => 32,
            SyntaxKind::TWIG_AUTOESCAPE => 33,
            SyntaxKind::TWIG_EMBED => 34,
            SyntaxKind::TWIG_SANDBOX => 35,
            SyntaxKind::TWIG_VERBATIM => 36,
            SyntaxKind::TWIG_MACRO => 37,
            SyntaxKind::TWIG_WITH => 38,
            SyntaxKind::TWIG_CACHE => 39,
            SyntaxKind::TWIG_COMPONENT => 40,
            SyntaxKind::TWIG_TRANS => 41,
            SyntaxKind::SHOPWARE_SILENT_FEATURE_CALL => 42,
            SyntaxKind::LUDTWIG_DIRECTIVE_IGNORE => 43,
            SyntaxKind::LUDTWIG_DIRECTIVE_RULE_LIST => 44,
            SyntaxKind::TK_WHITESPACE => 45,
            SyntaxKind::TK_LINE_BREAK => 46,
            SyntaxKind::TK_WORD => 47,
            SyntaxKind::TK_TWIG_COMPONENT_NAME => 48,
            SyntaxKind::TK_LESS_THAN => 49,
            SyntaxKind::TK_LESS_THAN_SLASH => 50,
            SyntaxKind::TK_NOT => 51,
            SyntaxKind::TK_AND => 52,
            SyntaxKind::TK_OR => 53,
            SyntaxKind::OTHER(raw) => raw,
        }
    }

    /// Whether tokens of this kind only separate other tokens: white space and line breaks.
    pub fn is_trivia(self) -> (trivia: bool)
        ensures
            trivia == is_trivia_kind(self),
    {
        matches!(self, SyntaxKind::TK_WHITESPACE | SyntaxKind::TK_LINE_BREAK)
    }
}

/// Reading the raw number of a kind gives the kind back. An `OTHER` kind must not claim the number
/// of a named one.
pub proof fn raw_number_gives_kind_back(kind: SyntaxKind)
    requires
        kind matches SyntaxKind::OTHER(raw) ==> raw >= NAMED_KINDS,
    ensures
        kind_of_raw(raw_of_kind(kind)) == kind,
{
}

/// The raw number of the kind that a raw number stands for is that number.
pub proof fn kind_gives_raw_number_back(raw: u16)
    ensures
        raw_of_kind(kind_of_raw(raw)) == raw,
{
}

} // verus!
