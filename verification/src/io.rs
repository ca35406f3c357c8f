use vstd::prelude::*;

verus! {

/// The severity tag in front of every console line.
pub enum Tag {
    Info,
    Notice,
    Warning,
    Error,
    Caution,
}

/// The text of a tag.
pub open spec fn tag_text(t: Tag) -> Seq<char> {
    match t {
        Tag::Info => "INFO"@,
        Tag::Notice => "NOTICE"@,
        Tag::Warning => "WARNING"@,
        Tag::Error => "ERROR"@,
        Tag::Caution => "CAUTION"@,
    }
}

impl Tag {
    pub fn to_str(&self) -> (r: &'static str)
        ensures
            r@ == tag_text(*self),
    {
        match *self {
            Tag::Info => "INFO",
            Tag::Notice => "NOTICE",
            Tag::Warning => "WARNING",
            Tag::Error => "ERROR",
            Tag::Caution => "CAUTION",
        }
    }
}

/// Prefixes a message with its severity tag.
pub fn format_with_tag(tag: Tag, message: &str) -> (r: String)
    ensures
        r@ == tag_text(tag) + ": "@ + message@,
{
    let mut r = tag.to_str().to_owned();
    r.append(": ");
    r.append(message);
    r
}

} // verus!
