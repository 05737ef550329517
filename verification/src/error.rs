use vstd::prelude::*;

verus! {

/// The one error type of the library: a failure to read script text, or to write it back.
#[derive(Debug, Clone, PartialEq, Eq)]
pub enum Hoi4ParserError {
    Parse { message: String },
    Generate { message: String },
}

impl Hoi4ParserError {
    /// A parse error carrying the given message.
    pub fn parse_error(message: &str) -> (r: Self)
        ensures
            r matches Hoi4ParserError::Parse { message: m } && m@ == message@,
    {
        Hoi4ParserError::Parse { message: message.to_owned() }
    }

    /// A generate error carrying the given message.
    pub fn generate_error(message: &str) -> (r: Self)
        ensures
            r matches Hoi4ParserError::Generate { message: m } && m@ == message@,
    {
        Hoi4ParserError::Generate { message: message.to_owned() }
    }

    /// The human-readable text of the error: a prefix naming the stage, then the message.
    pub fn to_string(&self) -> (r: String)
        ensures
            r@ == match self {
                Hoi4ParserError::Parse { message } => "解析失败: "@ + message@,
                Hoi4ParserError::Generate { message } => "还原失败: "@ + message@,
            },
    {
        match self {
            Hoi4ParserError::Parse { message } => {
                let mut out = "解析失败: ".to_owned();
                out.append(message.as_str());
                out
            },
            Hoi4ParserError::Generate { message } => {
                let mut out = "还原失败: ".to_owned();
                out.append(message.as_str());
                out
            },
        }
    }
}

} // verus!
