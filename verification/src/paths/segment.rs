//! One name, and nothing that could be a path.

use crate::text::{byte_len, byte_length, chars_of, control_char, decimal, is_control, push_decimal};
use vstd::prelude::*;
use vstd::string::to_string_from_display_ensures;

verus! {

/// Longest single filename most filesystems accept.
pub const MAX_SEGMENT_BYTES: usize = 255;

/// Why a value cannot be used as one component of a path. Carries the kind of
/// identifier that was at fault.
#[derive(Clone, Debug, PartialEq, Eq)]
pub enum PathSegmentError {
    Empty { kind: &'static str },
    RelativeMarker { kind: &'static str, value: String },
    Separator { kind: &'static str, value: String },
    Control { kind: &'static str, value: String },
    TooLong { kind: &'static str, len: usize },
}

/// Whether a character separates path components on some host.
pub open spec fn is_separator(c: char) -> bool {
    c == '/' || c == '\\' || c == ':'
}

/// Whether a text holds a separator.
pub open spec fn has_separator(s: Seq<char>) -> bool {
    exists|i: int| 0 <= i < s.len() && is_separator(#[trigger] s[i])
}

/// Whether a text holds a control character.
pub open spec fn has_control(s: Seq<char>) -> bool {
    exists|i: int| 0 <= i < s.len() && is_control(#[trigger] s[i])
}

/// Whether a text is one ordinary name: not empty, not `.` or `..`, without a
/// separator or a control character, and short enough.
pub open spec fn is_segment(s: Seq<char>) -> bool {
    &&& s.len() > 0
    &&& s != seq!['.']
    &&& s != seq!['.', '.']
    &&& !has_separator(s)
    &&& !has_control(s)
    &&& byte_len(s) <= MAX_SEGMENT_BYTES
}

/// Whether an error is the one owed for a value: the first of the reasons, in
/// the order empty, relative marker, separator, control character, length.
pub open spec fn is_segment_error(kind: &str, s: Seq<char>, error: PathSegmentError) -> bool {
    if s.len() == 0 {
        error matches PathSegmentError::Empty { kind: k } && k@ == kind@
    } else if s == seq!['.'] || s == seq!['.', '.'] {
        error matches PathSegmentError::RelativeMarker { kind: k, value } && k@ == kind@ && value@
            == s
    } else if has_separator(s) {
        error matches PathSegmentError::Separator { kind: k, value } && k@ == kind@ && value@ == s
    } else if has_control(s) {
        error matches PathSegmentError::Control { kind: k, value } && k@ == kind@ && value@ == s
    } else {
        error matches PathSegmentError::TooLong { kind: k, len } && k@ == kind@ && len == byte_len(
            s,
        )
    }
}

/// Accepts `value` as exactly one ordinary path component, or says why not.
pub fn path_segment<'a>(kind: &'static str, value: &'a str) -> (out: Result<
    &'a str,
    PathSegmentError,
>)
    ensures
        out is Ok <==> is_segment(value@),
        out matches Ok(name) ==> name@ == value@,
        out matches Err(error) ==> is_segment_error(kind, value@, error),
{
    let chars = chars_of(value);
    if chars.len() == 0 {
        return Err(PathSegmentError::Empty { kind });
    }
    proof {
        if chars@.len() == 1 && chars@[0] == '.' {
            assert(value@ =~= seq!['.']);
        }
        if chars@.len() == 2 && chars@[0] == '.' && chars@[1] == '.' {
            assert(value@ =~= seq!['.', '.']);
        }
    }
    if (chars.len() == 1 && chars[0] == '.') || (chars.len() == 2 && chars[0] == '.' && chars[1]
        == '.') {
        return Err(PathSegmentError::RelativeMarker { kind, value: value.to_owned() });
    }
    let mut separator = false;
    let mut control = false;
    let mut i: usize = 0;
    while i < chars.len()
        invariant
            i <= chars@.len(),
            separator == exists|k: int| 0 <= k < i && is_separator(#[trigger] chars@[k]),
            control == exists|k: int| 0 <= k < i && is_control(#[trigger] chars@[k]),
        decreases chars@.len() - i,
    {
        let c = chars[i];
        if c == '/' || c == '\\' || c == ':' {
            assert(is_separator(chars@[i as int]));
            separator = true;
        }
        if control_char(c) {
            assert(is_control(chars@[i as int]));
            control = true;
        }
        i = i + 1;
    }
    if separator {
        return Err(PathSegmentError::Separator { kind, value: value.to_owned() });
    }
    if control {
        return Err(PathSegmentError::Control { kind, value: value.to_owned() });
    }
    let len: usize = byte_length(value);
    if len > MAX_SEGMENT_BYTES {
        return Err(PathSegmentError::TooLong { kind, len });
    }
    Ok(value)
}

/// [`path_segment`] for a value that is rendered rather than borrowed.
pub fn displayed_segment<T: std::fmt::Display>(kind: &'static str, value: &T) -> (out: Result<
    String,
    PathSegmentError,
>)
    ensures
        exists|rendered: String| #[trigger]
            to_string_from_display_ensures::<T>(value, rendered) && {
                &&& out is Ok <==> is_segment(rendered@)
                &&& out matches Ok(name) ==> name@ == rendered@
                &&& out matches Err(error) ==> is_segment_error(kind, rendered@, error)
            },
{
    let rendered = value.to_string();
    match path_segment(kind, rendered.as_str()) {
        Ok(_) => Ok(rendered),
        Err(error) => Err(error),
    }
}

/// How `{:?}` writes a string, quotes and escapes included.
pub uninterp spec fn debug_text(text: Seq<char>) -> Seq<char>;

/// `format!` with `{:?}` on a string: its quoted form, a function of the
/// characters alone.
#[verifier::external_body]
pub(crate) fn write_debug(text: &str) -> (out: String)
    ensures
        out@ == debug_text(text@),
{
    format!("{:?}", text)
}

/// The message of a segment error.
pub open spec fn segment_message(error: PathSegmentError) -> Seq<char> {
    match error {
        PathSegmentError::Empty { kind } => kind@ + " is empty"@,
        PathSegmentError::RelativeMarker { kind, value } => kind@ + " "@ + debug_text(value@)
            + " is a relative-path marker, not a name"@,
        PathSegmentError::Separator { kind, value } => kind@ + " "@ + debug_text(value@)
            + " contains a path separator"@,
        PathSegmentError::Control { kind, value } => kind@ + " "@ + debug_text(value@)
            + " contains a control character"@,
        PathSegmentError::TooLong { kind, len } => kind@ + " is "@ + decimal(len as nat)
            + " bytes; at most "@ + decimal(MAX_SEGMENT_BYTES as nat)
            + " are usable as a filename"@,
    }
}

fn quoted_message(kind: &str, value: &str, tail: &str) -> (out: String)
    ensures
        out@ == kind@ + " "@ + debug_text(value@) + tail@,
{
    let mut out = kind.to_owned();
    out.push_str(" ");
    out.push_str(write_debug(value).as_str());
    out.push_str(tail);
    out
}

impl PathSegmentError {
    /// What to tell the operator.
    pub fn message(&self) -> (out: String)
        ensures
            out@ == segment_message(*self),
    {
        match self {
            PathSegmentError::Empty { kind } => {
                let mut out = String::new();
                out.push_str(kind);
                out.push_str(" is empty");
                out
            },
            PathSegmentError::RelativeMarker { kind, value } => quoted_message(
                kind,
                value.as_str(),
                " is a relative-path marker, not a name",
            ),
            PathSegmentError::Separator { kind, value } => quoted_message(
                kind,
                value.as_str(),
                " contains a path separator",
            ),
            PathSegmentError::Control { kind, value } => quoted_message(
                kind,
                value.as_str(),
                " contains a control character",
            ),
            PathSegmentError::TooLong { kind, len } => {
                let mut out = String::new();
                out.push_str(kind);
                out.push_str(" is ");
                push_decimal(&mut out, *len as u64);
                out.push_str(" bytes; at most ");
                push_decimal(&mut out, MAX_SEGMENT_BYTES as u64);
                out.push_str(" are usable as a filename");
                assert(out@ =~= segment_message(*self));
                out
            },
        }
    }
}

/// A name is one component on every host: it is not empty, steps nowhere, holds
/// none of the characters that separate components and no control character,
/// and fits a file's name; and whatever is so is a name.
pub proof fn a_name_is_one_component(s: Seq<char>)
    ensures
        is_segment(s) <==> {
            &&& s.len() > 0
            &&& s != "."@
            &&& s != ".."@
            &&& !s.contains('/')
            &&& !s.contains('\\')
            &&& !s.contains(':')
            &&& forall|i: int|
                0 <= i < s.len() ==> !((#[trigger] s[i]) as u32 <= 0x1f || 0x7f <= s[i] as u32
                    <= 0x9f)
            &&& byte_len(s) <= 255
        },
{
    reveal_strlit(".");
    reveal_strlit("..");
    assert("."@ =~= seq!['.']);
    assert(".."@ =~= seq!['.', '.']);
    if has_separator(s) {
        let i = choose|i: int| 0 <= i < s.len() && is_separator(#[trigger] s[i]);
        assert(s.contains(s[i]));
    }
    if s.contains('/') || s.contains('\\') || s.contains(':') {
        let i = choose|i: int|
            0 <= i < s.len() && (s[i] == '/' || s[i] == '\\' || s[i] == ':');
        assert(is_separator(s[i]));
    }
    if has_control(s) {
        let i = choose|i: int| 0 <= i < s.len() && is_control(#[trigger] s[i]);
        assert(is_control(s[i]));
    }
    if exists|i: int|
        0 <= i < s.len() && ((#[trigger] s[i]) as u32 <= 0x1f || 0x7f <= s[i] as u32 <= 0x9f) {
        let i = choose|i: int|
            0 <= i < s.len() && ((#[trigger] s[i]) as u32 <= 0x1f || 0x7f <= s[i] as u32 <= 0x9f);
        assert(is_control(s[i]));
    }
}

/// What is refused is told by what is wrong with it: each error comes for a
/// value it is true of, and only for one that is no name.
pub proof fn a_refusal_is_true(kind: &str, s: Seq<char>, error: PathSegmentError)
    requires
        !is_segment(s),
        is_segment_error(kind, s, error),
    ensures
        (match error {
            PathSegmentError::Empty { kind: k } => s.len() == 0 && k@ == kind@,
            PathSegmentError::RelativeMarker { kind: k, value } => k@ == kind@ && value@ == s && (s
                == seq!['.'] || s == seq!['.', '.']),
            PathSegmentError::Separator { kind: k, value } => k@ == kind@ && value@ == s
                && exists|i: int|
                0 <= i < s.len() && (#[trigger] s[i] == '/' || s[i] == '\\' || s[i] == ':'),
            PathSegmentError::Control { kind: k, value } => k@ == kind@ && value@ == s && exists|
                i: int,
            |
                0 <= i < s.len() && ((#[trigger] s[i]) as u32 <= 0x1f || 0x7f <= s[i] as u32
                    <= 0x9f),
            PathSegmentError::TooLong { kind: k, len } => k@ == kind@ && len == byte_len(s) && len
                > 255,
        }),
{
    if has_separator(s) {
        let i = choose|i: int| 0 <= i < s.len() && is_separator(#[trigger] s[i]);
        assert(s[i] == '/' || s[i] == '\\' || s[i] == ':');
    }
    if has_control(s) {
        let i = choose|i: int| 0 <= i < s.len() && is_control(#[trigger] s[i]);
        assert(s[i] as u32 <= 0x1f || 0x7f <= s[i] as u32 <= 0x9f);
    }
}

} // verus!
