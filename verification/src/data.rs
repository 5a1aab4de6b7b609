//! The scanner's output vocabulary: key-path elements, leaf values, the
//! block-scalar descriptor, configuration, and the parse-error taxonomy.
//!
//! Every borrowed `&str` payload is a subrange of the original input buffer
//! and stays valid exactly as long as that buffer does.

use vstd::prelude::*;

verus! {

/// One element of a key-path: a mapping key borrowed from the input, or a
/// 0-based position inside a list.
#[derive(Debug, Clone, Copy, PartialEq, Eq)]
pub enum YAMLKey<'a> {
    Slice(&'a str),
    Index(usize),
}

/// Mathematical form of a key-path element.
pub enum KeyModel {
    Named(Seq<char>),
    Listed(nat),
}

impl<'a> View for YAMLKey<'a> {
    type V = KeyModel;

    open spec fn view(&self) -> KeyModel {
        match self {
            YAMLKey::Slice(s) => KeyModel::Named(s@),
            YAMLKey::Index(i) => KeyModel::Listed(*i as nat),
        }
    }
}

/// A block scalar introduced by `|` (literal) or `>` (folded): the raw,
/// un-dedented text, plus the two block-form flags.
#[derive(Debug, Clone, Copy, PartialEq, Eq)]
pub struct MultilineString<'a> {
    /// The raw text of the block: the body lines, un-dedented, from just
    /// after the newline that ends the marker's own line up to (not
    /// including) the newline that ends the last body line.
    pub on: &'a str,
    /// Fold embedded newlines into spaces: the `>` block form.
    pub collapse: bool,
    /// Retain indentation inside the block (the `|+` form). The grammar
    /// scanned here never sets it; see `lemma_preserve_flag_never_set`.
    pub preserve_leading_whitespace: bool,
}

/// Mathematical form of a block-scalar descriptor.
pub struct MultilineModel {
    pub text: Seq<char>,
    pub collapse: bool,
    pub preserve_leading_whitespace: bool,
}

impl<'a> View for MultilineString<'a> {
    type V = MultilineModel;

    open spec fn view(&self) -> MultilineModel {
        MultilineModel {
            text: self.on@,
            collapse: self.collapse,
            preserve_leading_whitespace: self.preserve_leading_whitespace,
        }
    }
}

/// A leaf value. `Number` is reserved vocabulary: the grammar scanned here
/// never produces it (see `lemma_number_never_emitted`); numeric-looking
/// tokens come out as `String`.
#[derive(Debug, Clone, Copy, PartialEq, Eq)]
pub enum RootYAMLValue<'a> {
    String(&'a str),
    MultilineString(MultilineString<'a>),
    Number(&'a str),
    True,
    False,
}

/// Mathematical form of a leaf value.
pub enum ValueModel {
    Text(Seq<char>),
    Block(MultilineModel),
    Numeric(Seq<char>),
    TrueValue,
    FalseValue,
}

impl<'a> View for RootYAMLValue<'a> {
    type V = ValueModel;

    open spec fn view(&self) -> ValueModel {
        match self {
            RootYAMLValue::String(s) => ValueModel::Text(s@),
            RootYAMLValue::MultilineString(m) => ValueModel::Block(m@),
            RootYAMLValue::Number(s) => ValueModel::Numeric(s@),
            RootYAMLValue::True => ValueModel::TrueValue,
            RootYAMLValue::False => ValueModel::FalseValue,
        }
    }
}

/// One emitted event: the key-path from root to leaf, and the leaf value.
#[derive(Debug, PartialEq, Eq)]
pub struct ScanEvent<'a> {
    pub path: Vec<YAMLKey<'a>>,
    pub value: RootYAMLValue<'a>,
}

/// Mathematical form of one event.
pub struct EventModel {
    pub path: Seq<KeyModel>,
    pub value: ValueModel,
}

/// The key-paths of a key chain, element by element.
pub open spec fn keys_model<'a>(keys: Seq<YAMLKey<'a>>) -> Seq<KeyModel> {
    keys.map_values(|k: YAMLKey<'a>| k@)
}

impl<'a> View for ScanEvent<'a> {
    type V = EventModel;

    open spec fn view(&self) -> EventModel {
        EventModel { path: keys_model(self.path@), value: self.value@ }
    }
}

/// The models of a sequence of emitted events.
pub open spec fn events_model<'a>(events: Seq<ScanEvent<'a>>) -> Seq<EventModel> {
    events.map_values(|e: ScanEvent<'a>| e@)
}

/// Why a scan would be rejected. The scanner here keeps the lenient grammar:
/// these reasons are declared contract vocabulary for stricter callers, and
/// no entry point of this crate currently produces one.
#[derive(Debug, Clone, Copy, PartialEq, Eq)]
pub enum YAMLParseErrorReason {
    ExpectedColon,
    ExpectedEndOfValue,
    ExpectedBracket,
    ExpectedTrueFalseNull,
    ExpectedValue,
}

/// A parse failure: the character offset of the offending input, and the
/// reason it was rejected.
#[derive(Debug, Clone, Copy, PartialEq, Eq)]
pub struct YAMLParseError {
    pub at: usize,
    pub reason: YAMLParseErrorReason,
}

/// The name of a rejection reason.
pub open spec fn reason_chars(r: YAMLParseErrorReason) -> Seq<char> {
    match r {
        YAMLParseErrorReason::ExpectedColon => "ExpectedColon"@,
        YAMLParseErrorReason::ExpectedEndOfValue => "ExpectedEndOfValue"@,
        YAMLParseErrorReason::ExpectedBracket => "ExpectedBracket"@,
        YAMLParseErrorReason::ExpectedTrueFalseNull => "ExpectedTrueFalseNull"@,
        YAMLParseErrorReason::ExpectedValue => "ExpectedValue"@,
    }
}

/// The character of one decimal digit.
pub open spec fn digit_chars(d: nat) -> Seq<char> {
    if d == 0 {
        "0"@
    } else if d == 1 {
        "1"@
    } else if d == 2 {
        "2"@
    } else if d == 3 {
        "3"@
    } else if d == 4 {
        "4"@
    } else if d == 5 {
        "5"@
    } else if d == 6 {
        "6"@
    } else if d == 7 {
        "7"@
    } else if d == 8 {
        "8"@
    } else {
        "9"@
    }
}

/// The decimal rendering of `n`, most significant digit first.
pub open spec fn decimal_chars(n: nat) -> Seq<char>
    decreases n,
{
    if n < 10 {
        digit_chars(n)
    } else {
        decimal_chars(n / 10) + digit_chars(n % 10)
    }
}

/// The name of a rejection reason, as a borrowed string.
fn reason_str(r: YAMLParseErrorReason) -> (s: &'static str)
    ensures
        s@ == reason_chars(r),
{
    match r {
        YAMLParseErrorReason::ExpectedColon => "ExpectedColon",
        YAMLParseErrorReason::ExpectedEndOfValue => "ExpectedEndOfValue",
        YAMLParseErrorReason::ExpectedBracket => "ExpectedBracket",
        YAMLParseErrorReason::ExpectedTrueFalseNull => "ExpectedTrueFalseNull",
        YAMLParseErrorReason::ExpectedValue => "ExpectedValue",
    }
}

/// One decimal digit, as a borrowed string.
fn digit_str(d: usize) -> (s: &'static str)
    requires
        d < 10,
    ensures
        s@ == digit_chars(d as nat),
{
    match d {
        0 => "0",
        1 => "1",
        2 => "2",
        3 => "3",
        4 => "4",
        5 => "5",
        6 => "6",
        7 => "7",
        8 => "8",
        _ => "9",
    }
}

/// Append the decimal rendering of `n` to `s`.
fn append_decimal(s: &mut String, n: usize)
    ensures
        final(s)@ == old(s)@ + decimal_chars(n as nat),
    decreases n,
{
    if n < 10 {
        s.append(digit_str(n));
    } else {
        append_decimal(s, n / 10);
        s.append(digit_str(n % 10));
        proof {
            assert(old(s)@ + decimal_chars(n as nat) =~= (old(s)@ + decimal_chars(
                n as nat / 10,
            )) + digit_chars(n as nat % 10));
        }
    }
}

impl YAMLParseError {
    /// The error rendered as text, in the form
    /// `YAMLParseError: ExpectedColon at 12`: the reason's name and the
    /// character offset of the offending input.
    pub fn describe(&self) -> (r: String)
        ensures
            r@ == "YAMLParseError: "@ + reason_chars(self.reason) + " at "@ + decimal_chars(
                self.at as nat,
            ),
    {
        let mut s = String::from_str("YAMLParseError: ");
        s.append(reason_str(self.reason));
        s.append(" at ");
        append_decimal(&mut s, self.at);
        s
    }
}

/// Scanner configuration: how many indentation columns make one nesting
/// level. A tab counts as `indent_size` columns, a space as one.
#[derive(Debug, Clone, Copy, PartialEq, Eq)]
pub struct ParseOptions {
    pub indent_size: usize,
}

impl Default for ParseOptions {
    /// The default indent size is two columns per nesting level.
    fn default() -> (r: Self)
        ensures
            r.indent_size == 2,
    {
        ParseOptions { indent_size: 2 }
    }
}

} // verus!
