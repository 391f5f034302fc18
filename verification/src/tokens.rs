//! Small, classified token constructors for formatter ergonomics.
use crate::doc::{
    is_printable_ascii, measurable, spec_measure, tag, text, Doc, DocModel, TagId, TextModel,
    TextRun, WidthMode,
};
use crate::tags;
use std::rc::Rc;
use vstd::prelude::*;

verus! {

/// Text `value` of `columns` columns under tag `t`.
pub open spec fn tagged_text(t: TagId, value: Seq<char>, columns: u32) -> DocModel {
    DocModel::Tag(t, Box::new(DocModel::Text(TextModel { value, columns })))
}

/// Measured text `value` under tag `t`.
pub open spec fn tagged_measured(t: TagId, value: Seq<char>) -> DocModel {
    tagged_text(t, value, spec_measure(value, WidthMode::Narrow)->Ok_0)
}

/// Construct text carrying tag `t`.
pub fn annotated(t: TagId, value: &str) -> (r: Rc<Doc>)
    requires
        4 * value@.len() <= usize::MAX,
        measurable(value@, WidthMode::Narrow),
    ensures
        r@ == tagged_measured(t, value@),
{
    tag(t, text(value))
}

/// Construct whitespace with the built-in whitespace tag.
pub fn whitespace(value: &str) -> (r: Rc<Doc>)
    requires
        4 * value@.len() <= usize::MAX,
        measurable(value@, WidthMode::Narrow),
    ensures
        r@ == tagged_measured(tags::WHITESPACE, value@),
{
    annotated(tags::WHITESPACE, value)
}

/// Construct indentation with the built-in indentation tag.
pub fn indent(value: &str) -> (r: Rc<Doc>)
    requires
        4 * value@.len() <= usize::MAX,
        measurable(value@, WidthMode::Narrow),
    ensures
        r@ == tagged_measured(tags::INDENT, value@),
{
    annotated(tags::INDENT, value)
}

/// Construct a word with the built-in word tag.
pub fn word(value: &str) -> (r: Rc<Doc>)
    requires
        4 * value@.len() <= usize::MAX,
        measurable(value@, WidthMode::Narrow),
    ensures
        r@ == tagged_measured(tags::WORD, value@),
{
    annotated(tags::WORD, value)
}

/// Construct a symbol with the built-in symbol tag.
pub fn symbol(value: &str) -> (r: Rc<Doc>)
    requires
        4 * value@.len() <= usize::MAX,
        measurable(value@, WidthMode::Narrow),
    ensures
        r@ == tagged_measured(tags::SYMBOL, value@),
{
    annotated(tags::SYMBOL, value)
}

/// Construct whitespace carrying an application-defined tag.
pub fn whitespace_with(t: TagId, value: &str) -> (r: Rc<Doc>)
    requires
        4 * value@.len() <= usize::MAX,
        measurable(value@, WidthMode::Narrow),
    ensures
        r@ == tagged_measured(t, value@),
{
    annotated(t, value)
}

/// Construct indentation carrying an application-defined tag.
pub fn indent_with(t: TagId, value: &str) -> (r: Rc<Doc>)
    requires
        4 * value@.len() <= usize::MAX,
        measurable(value@, WidthMode::Narrow),
    ensures
        r@ == tagged_measured(t, value@),
{
    annotated(t, value)
}

/// Construct a word carrying an application-defined tag.
pub fn word_with(t: TagId, value: &str) -> (r: Rc<Doc>)
    requires
        4 * value@.len() <= usize::MAX,
        measurable(value@, WidthMode::Narrow),
    ensures
        r@ == tagged_measured(t, value@),
{
    annotated(t, value)
}

/// Construct a symbol carrying an application-defined tag.
pub fn symbol_with(t: TagId, value: &str) -> (r: Rc<Doc>)
    requires
        4 * value@.len() <= usize::MAX,
        measurable(value@, WidthMode::Narrow),
    ensures
        r@ == tagged_measured(t, value@),
{
    annotated(t, value)
}

/// Printable ASCII under tag `t`; its width is its length.
pub(crate) fn ascii_token(t: TagId, value: &str) -> (r: Rc<Doc>)
    requires
        is_printable_ascii(value@),
        value@.len() <= u32::MAX,
    ensures
        r@ == tagged_text(t, value@, value@.len() as u32),
{
    tag(t, Rc::new(Doc::Text(TextRun::trusted_ascii(value))))
}

/// Construct one tagged ASCII space.
pub fn space() -> (r: Rc<Doc>)
    ensures
        r@ == tagged_text(tags::WHITESPACE, seq![' '], 1),
{
    let value = " ";
    proof {
        reveal_strlit(" ");
        assert(value@ =~= seq![' ']);
    }
    ascii_token(tags::WHITESPACE, value)
}

/// Construct a tagged period.
pub fn dot() -> (r: Rc<Doc>)
    ensures
        r@ == tagged_text(tags::SYMBOL, seq!['.'], 1),
{
    let value = ".";
    proof {
        reveal_strlit(".");
        assert(value@ =~= seq!['.']);
    }
    ascii_token(tags::SYMBOL, value)
}

/// Construct a tagged comma.
pub fn comma() -> (r: Rc<Doc>)
    ensures
        r@ == tagged_text(tags::SYMBOL, seq![','], 1),
{
    let value = ",";
    proof {
        reveal_strlit(",");
        assert(value@ =~= seq![',']);
    }
    ascii_token(tags::SYMBOL, value)
}

/// Construct a tagged colon.
pub fn colon() -> (r: Rc<Doc>)
    ensures
        r@ == tagged_text(tags::SYMBOL, seq![':'], 1),
{
    let value = ":";
    proof {
        reveal_strlit(":");
        assert(value@ =~= seq![':']);
    }
    ascii_token(tags::SYMBOL, value)
}

/// Construct a tagged semicolon.
pub fn semicolon() -> (r: Rc<Doc>)
    ensures
        r@ == tagged_text(tags::SYMBOL, seq![';'], 1),
{
    let value = ";";
    proof {
        reveal_strlit(";");
        assert(value@ =~= seq![';']);
    }
    ascii_token(tags::SYMBOL, value)
}

/// Construct a tagged left brace.
pub fn lbrace() -> (r: Rc<Doc>)
    ensures
        r@ == tagged_text(tags::SYMBOL, seq!['{'], 1),
{
    let value = "{";
    proof {
        reveal_strlit("{");
        assert(value@ =~= seq!['{']);
    }
    ascii_token(tags::SYMBOL, value)
}

/// Construct a tagged right brace.
pub fn rbrace() -> (r: Rc<Doc>)
    ensures
        r@ == tagged_text(tags::SYMBOL, seq!['}'], 1),
{
    let value = "}";
    proof {
        reveal_strlit("}");
        assert(value@ =~= seq!['}']);
    }
    ascii_token(tags::SYMBOL, value)
}

/// Construct a tagged left bracket.
pub fn lbracket() -> (r: Rc<Doc>)
    ensures
        r@ == tagged_text(tags::SYMBOL, seq!['['], 1),
{
    let value = "[";
    proof {
        reveal_strlit("[");
        assert(value@ =~= seq!['[']);
    }
    ascii_token(tags::SYMBOL, value)
}

/// Construct a tagged right bracket.
pub fn rbracket() -> (r: Rc<Doc>)
    ensures
        r@ == tagged_text(tags::SYMBOL, seq![']'], 1),
{
    let value = "]";
    proof {
        reveal_strlit("]");
        assert(value@ =~= seq![']']);
    }
    ascii_token(tags::SYMBOL, value)
}

/// Construct a tagged left angle bracket.
pub fn lchevron() -> (r: Rc<Doc>)
    ensures
        r@ == tagged_text(tags::SYMBOL, seq!['<'], 1),
{
    let value = "<";
    proof {
        reveal_strlit("<");
        assert(value@ =~= seq!['<']);
    }
    ascii_token(tags::SYMBOL, value)
}

/// Construct a tagged right angle bracket.
pub fn rchevron() -> (r: Rc<Doc>)
    ensures
        r@ == tagged_text(tags::SYMBOL, seq!['>'], 1),
{
    let value = ">";
    proof {
        reveal_strlit(">");
        assert(value@ =~= seq!['>']);
    }
    ascii_token(tags::SYMBOL, value)
}

/// Construct a tagged left parenthesis.
pub fn lparen() -> (r: Rc<Doc>)
    ensures
        r@ == tagged_text(tags::SYMBOL, seq!['('], 1),
{
    let value = "(";
    proof {
        reveal_strlit("(");
        assert(value@ =~= seq!['(']);
    }
    ascii_token(tags::SYMBOL, value)
}

/// Construct a tagged right parenthesis.
pub fn rparen() -> (r: Rc<Doc>)
    ensures
        r@ == tagged_text(tags::SYMBOL, seq![')'], 1),
{
    let value = ")";
    proof {
        reveal_strlit(")");
        assert(value@ =~= seq![')']);
    }
    ascii_token(tags::SYMBOL, value)
}

/// Construct a tagged double quote.
pub fn dquote() -> (r: Rc<Doc>)
    ensures
        r@ == tagged_text(tags::SYMBOL, seq!['"'], 1),
{
    let value = "\"";
    proof {
        reveal_strlit("\"");
        assert(value@ =~= seq!['"']);
    }
    ascii_token(tags::SYMBOL, value)
}

/// Construct a tagged single quote.
pub fn squote() -> (r: Rc<Doc>)
    ensures
        r@ == tagged_text(tags::SYMBOL, seq!['\''], 1),
{
    let value = "'";
    proof {
        reveal_strlit("'");
        assert(value@ =~= seq!['\'']);
    }
    ascii_token(tags::SYMBOL, value)
}

/// Construct a tagged backtick.
pub fn backtick() -> (r: Rc<Doc>)
    ensures
        r@ == tagged_text(tags::SYMBOL, seq!['`'], 1),
{
    let value = "`";
    proof {
        reveal_strlit("`");
        assert(value@ =~= seq!['`']);
    }
    ascii_token(tags::SYMBOL, value)
}

/// Construct a tagged backslash.
pub fn backslash() -> (r: Rc<Doc>)
    ensures
        r@ == tagged_text(tags::SYMBOL, seq!['\\'], 1),
{
    let value = "\\";
    proof {
        reveal_strlit("\\");
        assert(value@ =~= seq!['\\']);
    }
    ascii_token(tags::SYMBOL, value)
}

/// Construct a tagged slash.
pub fn slash() -> (r: Rc<Doc>)
    ensures
        r@ == tagged_text(tags::SYMBOL, seq!['/'], 1),
{
    let value = "/";
    proof {
        reveal_strlit("/");
        assert(value@ =~= seq!['/']);
    }
    ascii_token(tags::SYMBOL, value)
}

/// Construct a tagged equals sign.
pub fn equal() -> (r: Rc<Doc>)
    ensures
        r@ == tagged_text(tags::SYMBOL, seq!['='], 1),
{
    let value = "=";
    proof {
        reveal_strlit("=");
        assert(value@ =~= seq!['=']);
    }
    ascii_token(tags::SYMBOL, value)
}

/// Construct a tagged asterisk.
pub fn star() -> (r: Rc<Doc>)
    ensures
        r@ == tagged_text(tags::SYMBOL, seq!['*'], 1),
{
    let value = "*";
    proof {
        reveal_strlit("*");
        assert(value@ =~= seq!['*']);
    }
    ascii_token(tags::SYMBOL, value)
}

/// Construct a tagged question mark.
pub fn question_mark() -> (r: Rc<Doc>)
    ensures
        r@ == tagged_text(tags::SYMBOL, seq!['?'], 1),
{
    let value = "?";
    proof {
        reveal_strlit("?");
        assert(value@ =~= seq!['?']);
    }
    ascii_token(tags::SYMBOL, value)
}

/// Construct a tagged exclamation mark.
pub fn bang() -> (r: Rc<Doc>)
    ensures
        r@ == tagged_text(tags::SYMBOL, seq!['!'], 1),
{
    let value = "!";
    proof {
        reveal_strlit("!");
        assert(value@ =~= seq!['!']);
    }
    ascii_token(tags::SYMBOL, value)
}

/// Construct a tagged vertical bar.
pub fn pipe() -> (r: Rc<Doc>)
    ensures
        r@ == tagged_text(tags::SYMBOL, seq!['|'], 1),
{
    let value = "|";
    proof {
        reveal_strlit("|");
        assert(value@ =~= seq!['|']);
    }
    ascii_token(tags::SYMBOL, value)
}

} // verus!
