//! Reading and writing Paradox / HOI4 script text.

use vstd::prelude::*;

pub mod ast;
pub mod compat;
pub mod error;
pub mod gen_spec;
pub mod generator;
pub mod loc;
pub mod nested;
pub mod parse_spec;
pub mod parser;
pub mod perf;
pub mod round_trip;
pub mod text;
pub mod tokenizer;
pub mod tools;

pub use ast::{Entry, EntryMetadata, ObjectNode, Value};
pub use compat::{
    escape_scalar_for_generate, export_entry, export_key, normalize_scalar_for_parse,
    restore_compat_operators,
};
pub use error::Hoi4ParserError;
pub use generator::generate_document;
pub use loc::{parse_inline, parse_loc, InlineNode, LocEntry, LocFile, LocWarning};
pub use nested::{decode_nested_quoted, encode_nested_quoted};
pub use perf::{benchmark_round_trip, BenchReport};
pub use tokenizer::Token;

use ast::{view_value, SValue};
use compat::spec_restore;
use gen_spec::{document_text, value_depth};
use parse_spec::parse_document;
use text::{chars_of, char_is_whitespace, unicode_whitespace};
use tokenizer::{spec_tokenize, tokenize_chars, view_tokens};

verus! {

/// A parsed document: its root value and the text it was read from.
#[derive(Debug, PartialEq, Eq)]
pub struct Document {
    root: Value,
    source: String,
}

/// Whether the text holds nothing but whitespace.
pub open spec fn is_blank(s: Seq<char>) -> bool {
    forall|i: int| 0 <= i < s.len() ==> unicode_whitespace(#[trigger] s[i])
}

/// What `parse` reads out of a text: nothing from a blank text; otherwise the root object
/// of its tokens.  An error carries its message.
pub open spec fn spec_parse(s: Seq<char>) -> Result<SValue, Seq<char>> {
    if is_blank(s) {
        Err("输入为空，无法解析"@)
    } else {
        match spec_tokenize(s) {
            Ok(ts) => parse_document(ts),
            Err(_) => Err("字符串未闭合"@),
        }
    }
}

impl Document {
    pub closed spec fn root_view(&self) -> SValue {
        view_value(self.root)
    }

    pub closed spec fn source_view(&self) -> Seq<char> {
        self.source@
    }

    pub fn new(root: Value, source: &str) -> (r: Self)
        ensures
            r.root_view() == view_value(root),
            r.source_view() == source@,
    {
        Document { root, source: source.to_owned() }
    }

    pub fn root(&self) -> (r: &Value)
        ensures
            view_value(*r) == self.root_view(),
    {
        &self.root
    }

    pub fn as_source(&self) -> (r: &str)
        ensures
            r@ == self.source_view(),
    {
        self.source.as_str()
    }
}

impl Clone for Document {
    fn clone(&self) -> (r: Self)
        ensures
            r.root_view() == self.root_view(),
            r.source_view() == self.source_view(),
    {
        Document { root: self.root.deep_clone(), source: self.source.clone() }
    }
}

/// Reads Paradox script text into a document.  A blank text ("输入为空，无法解析"), an
/// unclosed string literal ("字符串未闭合"), and a text whose tokens do not form entries (with
/// the parser's message, such as "期望 '='，但遇到: Ident(\"b\")") are refused.
pub fn parse(input: &str) -> (r: Result<Document, Hoi4ParserError>)
    ensures
        match r {
            Ok(doc) => spec_parse(input@) == Ok::<SValue, Seq<char>>(doc.root_view())
                && doc.source_view() == input@,
            Err(e) => e is Parse && spec_parse(input@) == Err::<SValue, Seq<char>>(
                e->Parse_message@,
            ),
        },
{
    let cs = chars_of(input);
    let mut blank = true;
    let mut i: usize = 0;
    while i < cs.len()
        invariant
            i <= cs.len(),
            cs@ == input@,
            blank == (forall|k: int| 0 <= k < i ==> unicode_whitespace(#[trigger] cs@[k])),
        decreases cs.len() - i,
    {
        if !char_is_whitespace(cs[i]) {
            blank = false;
        }
        i += 1;
    }
    if blank {
        return Err(Hoi4ParserError::parse_error("输入为空，无法解析"));
    }
    let tokens = match tokenize_chars(&cs) {
        Ok(t) => t,
        Err(e) => {
            return Err(e);
        },
    };
    let root = match parser::parse_root(tokens.as_slice()) {
        Ok(v) => v,
        Err(e) => {
            return Err(e);
        },
    };
    Ok(Document::new(root, input))
}


/// Reads Paradox script text held in an owned string (see `parse`).
pub fn parse_owned(input: String) -> (r: Result<Document, Hoi4ParserError>)
    ensures
        match r {
            Ok(doc) => spec_parse(input@) == Ok::<SValue, Seq<char>>(doc.root_view())
                && doc.source_view() == input@,
            Err(e) => e is Parse && spec_parse(input@) == Err::<SValue, Seq<char>>(
                e->Parse_message@,
            ),
        },
{
    parse(input.as_str())
}

/// What `generate` writes for a document: nothing for an empty keyed root read from no text;
/// nothing for a root nested deeper than `usize` can count; otherwise the root's text with
/// the escaped comparison signs restored.
pub open spec fn spec_generate(root: SValue, source: Seq<char>) -> Result<Seq<char>, ()> {
    if source.len() == 0 && (root matches SValue::Object(es) && es.len() == 0) {
        Err(())
    } else if value_depth(root) >= usize::MAX {
        Err(())
    } else {
        Ok(spec_restore(document_text(root)))
    }
}

/// Writes a document back as Paradox script text.  An empty keyed root read from no text is
/// refused ("文档为空，无法还原"), and so is a root nested deeper than `usize` can count
/// ("文档嵌套过深，无法还原").
pub fn generate(document: &Document) -> (r: Result<String, Hoi4ParserError>)
    ensures
        match r {
            Ok(s) => spec_generate(document.root_view(), document.source_view()) == Ok::<
                Seq<char>,
                (),
            >(s@),
            Err(e) => spec_generate(document.root_view(), document.source_view()) is Err && e is Generate,
        },
        (document.source_view().len() == 0 && (document.root_view() matches SValue::Object(es)
            && es.len() == 0)) ==> (r matches Err(Hoi4ParserError::Generate { message }) && message@
            == "文档为空，无法还原"@),
        !(document.source_view().len() == 0 && (document.root_view() matches SValue::Object(es)
            && es.len() == 0)) && value_depth(document.root_view()) >= usize::MAX ==> (r matches Err(
            Hoi4ParserError::Generate { message },
        ) && message@ == "文档嵌套过深，无法还原"@),
{
    if document.as_source().is_empty() {
        match document.root() {
            Value::Object(o) => {
                proof {
                    ast::lemma_view_entries_len(o.entries@);
                }
                if o.entries.len() == 0 {
                    return Err(Hoi4ParserError::generate_error("文档为空，无法还原"));
                }
            },
            _ => {},
        }
    }
    let rendered = match generate_document(document) {
        Ok(s) => s,
        Err(e) => {
            return Err(e);
        },
    };
    Ok(restore_compat_operators(rendered.as_str()))
}

} // verus!
