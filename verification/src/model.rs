//! The mathematical model of the scanner: a small-step state machine over
//! the input's sequence of Unicode scalar values. [`scan_model`] gives the
//! full event sequence for an input and an indent size; the executable
//! scanner is proved to produce exactly this sequence.

use vstd::prelude::*;

use crate::data::{EventModel, KeyModel, MultilineModel, ValueModel};

verus! {

/// Unicode whitespace, as used both for trimming scalar text and for the
/// skip state between values.
pub open spec fn is_ws(c: char) -> bool {
    let u = c as u32;
    u == 0x09 || u == 0x0A || u == 0x0B || u == 0x0C || u == 0x0D || u == 0x20 || u == 0x85
        || u == 0xA0 || u == 0x1680 || (0x2000 <= u && u <= 0x200A) || u == 0x2028 || u == 0x2029
        || u == 0x202F || u == 0x205F || u == 0x3000
}

/// `s` with leading whitespace removed.
pub open spec fn trim_start(s: Seq<char>) -> Seq<char>
    decreases s.len(),
{
    if s.len() > 0 && is_ws(s[0]) {
        trim_start(s.subrange(1, s.len() as int))
    } else {
        s
    }
}

/// `s` with trailing whitespace removed.
pub open spec fn trim_end(s: Seq<char>) -> Seq<char>
    decreases s.len(),
{
    if s.len() > 0 && is_ws(s[s.len() - 1]) {
        trim_end(s.subrange(0, s.len() - 1))
    } else {
        s
    }
}

/// Dropping one leading whitespace character keeps `trim_start` unchanged;
/// a front that is empty or starts with non-whitespace is already trimmed.
pub proof fn lemma_trim_start_shift(s: Seq<char>, b0: int, b: int, e: int)
    requires
        0 <= b0 <= b <= e <= s.len(),
        forall|k: int| b0 <= k < b ==> is_ws(s[k]),
    ensures
        trim_start(s.subrange(b0, e)) == trim_start(s.subrange(b, e)),
    decreases b - b0,
{
    if b0 < b {
        let whole = s.subrange(b0, e);
        assert(whole.len() > 0 && is_ws(whole[0]));
        assert(whole.subrange(1, whole.len() as int) =~= s.subrange(b0 + 1, e));
        lemma_trim_start_shift(s, b0 + 1, b, e);
    }
}

/// Dropping one trailing whitespace character keeps `trim_end` unchanged.
pub proof fn lemma_trim_end_shift(s: Seq<char>, b: int, e: int, e0: int)
    requires
        0 <= b <= e <= e0 <= s.len(),
        forall|k: int| e <= k < e0 ==> is_ws(s[k]),
    ensures
        trim_end(s.subrange(b, e0)) == trim_end(s.subrange(b, e)),
    decreases e0 - e,
{
    if e < e0 {
        let whole = s.subrange(b, e0);
        assert(whole.len() > 0 && is_ws(whole[whole.len() - 1]));
        assert(whole.subrange(0, whole.len() - 1) =~= s.subrange(b, e0 - 1));
        lemma_trim_end_shift(s, b, e, e0 - 1);
    }
}

/// `s` with whitespace removed from both ends.
pub open spec fn trim_chars(s: Seq<char>) -> Seq<char> {
    trim_end(trim_start(s))
}

/// The characters of the literal `true`.
pub open spec fn true_chars() -> Seq<char> {
    seq!['t', 'r', 'u', 'e']
}

/// The characters of the literal `false`.
pub open spec fn false_chars() -> Seq<char> {
    seq!['f', 'a', 'l', 's', 'e']
}

/// The literal block-scalar marker, `|`.
pub open spec fn pipe_chars() -> Seq<char> {
    seq!['|']
}

/// The folded block-scalar marker, `>`.
pub open spec fn fold_chars() -> Seq<char> {
    seq!['>']
}

/// What a completed (already trimmed) scalar token means: the two boolean
/// literals map to the boolean values, everything else stays text.
pub open spec fn classify_scalar(s: Seq<char>) -> ValueModel {
    if s == true_chars() {
        ValueModel::TrueValue
    } else if s == false_chars() {
        ValueModel::FalseValue
    } else {
        ValueModel::Text(s)
    }
}

/// What a look at the line starting at position `j` finds: how many
/// indentation columns its leading tabs and spaces amount to (`cols`; a
/// tab weighs `isz` columns, a space one), and whether the line is
/// completely blank (`blank`). A line that runs into the end of the input
/// without a newline is not blank.
pub struct PeekModel {
    pub cols: nat,
    pub blank: bool,
}

/// Inspect the line starting at position `j` of `s`: weigh its leading
/// tabs and spaces in columns and report whether it is blank.
pub open spec fn peek_line(s: Seq<char>, j: int, isz: nat) -> PeekModel
    decreases s.len() - j,
{
    if j < 0 || j >= s.len() {
        PeekModel { cols: 0, blank: false }
    } else if s[j] == '\n' {
        PeekModel { cols: 0, blank: true }
    } else if s[j] == '\t' {
        let p = peek_line(s, j + 1, isz);
        PeekModel { cols: p.cols + isz, blank: p.blank }
    } else if s[j] == ' ' {
        let p = peek_line(s, j + 1, isz);
        PeekModel { cols: p.cols + 1, blank: p.blank }
    } else {
        PeekModel { cols: 0, blank: false }
    }
}

/// How many `Named` elements a key-path holds.
pub open spec fn named_count(path: Seq<KeyModel>) -> nat
    decreases path.len(),
{
    if path.len() == 0 {
        0
    } else {
        named_count(path.drop_last()) + (if path.last() is Named {
            1nat
        } else {
            0nat
        })
    }
}

/// The scanner's control state.
pub enum ModeModel {
    /// Reading a key's text, waiting for its `:`.
    Identifier,
    /// Reading the value that follows a key's `:`.
    Value,
    /// Reading a list item introduced by `-`.
    ListItem,
    /// Inside a block scalar; `indent` is the indentation recorded when the
    /// block began.
    Multiline { collapse: bool, preserve: bool, indent: nat },
    /// Between values: whitespace adjusts the indentation counter.
    Skip,
}

/// The scanner's whole state: control state, key-path stack, the running
/// list ordinal, the accumulated indentation of the current line, the
/// position where the current token began, and the events emitted so far.
pub struct MachineModel {
    pub mode: ModeModel,
    pub path: Seq<KeyModel>,
    pub list_idx: nat,
    pub indent: nat,
    pub start: nat,
    pub events: Seq<EventModel>,
}

/// The state a scan starts from.
pub open spec fn machine_init() -> MachineModel {
    MachineModel {
        mode: ModeModel::Identifier,
        path: Seq::empty(),
        list_idx: 0,
        indent: 0,
        start: 0,
        events: Seq::empty(),
    }
}

/// One step of the `Value` state on character `c` at position `i`.
pub open spec fn step_value(input: Seq<char>, st: MachineModel, i: int, c: char) -> MachineModel {
    let rest = trim_chars(input.subrange(st.start as int, i));
    if rest.len() == 0 && c == '-' {
        MachineModel { mode: ModeModel::ListItem, start: (i + 1) as nat, ..st }
    } else if c == '\n' {
        if rest.len() == 0 {
            MachineModel { mode: ModeModel::Skip, indent: 0, ..st }
        } else if rest == pipe_chars() {
            MachineModel {
                mode: ModeModel::Multiline { collapse: false, preserve: false, indent: st.indent },
                start: (i + 1) as nat,
                indent: 0,
                ..st
            }
        } else if rest == fold_chars() {
            MachineModel {
                mode: ModeModel::Multiline { collapse: true, preserve: false, indent: st.indent },
                start: (i + 1) as nat,
                indent: 0,
                ..st
            }
        } else {
            MachineModel {
                mode: ModeModel::Skip,
                indent: 0,
                path: st.path.drop_last(),
                events: st.events.push(
                    EventModel { path: st.path, value: classify_scalar(rest) },
                ),
                ..st
            }
        }
    } else {
        st
    }
}

/// One step of the `Multiline` state on character `c` at position `i`.
pub open spec fn step_multiline(
    input: Seq<char>,
    isz: nat,
    st: MachineModel,
    i: int,
    c: char,
    collapse: bool,
    preserve: bool,
    block_indent: nat,
) -> MachineModel {
    if c == '\n' {
        let p = peek_line(input, i + 1, isz);
        if !p.blank && p.cols <= block_indent {
            MachineModel {
                mode: ModeModel::Skip,
                indent: 0,
                path: st.path.drop_last(),
                events: st.events.push(
                    EventModel {
                        path: st.path,
                        value: ValueModel::Block(
                            MultilineModel {
                                text: input.subrange(st.start as int, i),
                                collapse,
                                preserve_leading_whitespace: preserve,
                            },
                        ),
                    },
                ),
                ..st
            }
        } else {
            st
        }
    } else {
        st
    }
}

/// One step of the `Identifier` state on character `c` at position `i`:
/// on `:`, re-anchor the key-path to the level implied by the accumulated
/// indentation and append the new key.
pub open spec fn step_identifier(
    input: Seq<char>,
    isz: nat,
    st: MachineModel,
    i: int,
    c: char,
) -> MachineModel {
    if c == ':' {
        let key = KeyModel::Named(trim_chars(input.subrange(st.start as int, i)));
        let level = st.indent / isz;
        if level < named_count(st.path) {
            let kept = st.path.take(level as int);
            let resumed: nat = if kept.len() > 0 {
                match kept.last() {
                    KeyModel::Listed(j) => j,
                    KeyModel::Named(_) => 0,
                }
            } else {
                0
            };
            MachineModel {
                mode: ModeModel::Value,
                path: kept.push(key),
                list_idx: resumed,
                start: (i + 1) as nat,
                ..st
            }
        } else {
            MachineModel { mode: ModeModel::Value, path: st.path.push(key), start: (i + 1) as nat, ..st }
        }
    } else {
        st
    }
}

/// One step of the `ListItem` state on character `c` at position `i`.
pub open spec fn step_list_item(
    input: Seq<char>,
    isz: nat,
    st: MachineModel,
    i: int,
    c: char,
) -> MachineModel {
    if c == ':' {
        let level = st.indent / isz;
        let kept = if level < st.path.len() {
            st.path.take(level as int + 1)
        } else {
            st.path
        };
        let key = KeyModel::Named(trim_chars(input.subrange(st.start as int, i)));
        MachineModel {
            mode: ModeModel::Value,
            path: kept.push(KeyModel::Listed(st.list_idx)).push(key),
            list_idx: st.list_idx + 1,
            start: (i + 1) as nat,
            ..st
        }
    } else if c == '\n' {
        let full = st.path.push(KeyModel::Listed(st.list_idx));
        let value = classify_scalar(trim_chars(input.subrange(st.start as int, i)));
        MachineModel {
            mode: ModeModel::Skip,
            indent: 0,
            list_idx: st.list_idx + 1,
            events: st.events.push(EventModel { path: full, value }),
            ..st
        }
    } else {
        st
    }
}

/// One step of the `Skip` state on character `c` at position `i`.
pub open spec fn step_skip(isz: nat, st: MachineModel, i: int, c: char) -> MachineModel {
    if c == '-' {
        MachineModel { mode: ModeModel::ListItem, start: (i + 1) as nat, ..st }
    } else if c == '\t' {
        MachineModel { indent: st.indent + isz, ..st }
    } else if c == ' ' {
        MachineModel { indent: st.indent + 1, ..st }
    } else if !is_ws(c) {
        MachineModel { mode: ModeModel::Identifier, start: i as nat, ..st }
    } else {
        st
    }
}

/// One step of the whole machine on the character at position `i`.
pub open spec fn machine_step(input: Seq<char>, isz: nat, st: MachineModel, i: int) -> MachineModel {
    let c = input[i];
    match st.mode {
        ModeModel::Value => step_value(input, st, i, c),
        ModeModel::Multiline { collapse, preserve, indent } => step_multiline(
            input,
            isz,
            st,
            i,
            c,
            collapse,
            preserve,
            indent,
        ),
        ModeModel::Identifier => step_identifier(input, isz, st, i, c),
        ModeModel::ListItem => step_list_item(input, isz, st, i, c),
        ModeModel::Skip => step_skip(isz, st, i, c),
    }
}

/// The machine's state after consuming the first `i` characters of `input`.
pub open spec fn machine_run(input: Seq<char>, isz: nat, i: int) -> MachineModel
    decreases i,
{
    if i <= 0 {
        machine_init()
    } else {
        machine_step(input, isz, machine_run(input, isz, i - 1), i - 1)
    }
}

/// The event sequence a whole scan of `input` emits with `isz` columns per
/// nesting level.
pub open spec fn scan_model(input: Seq<char>, isz: nat) -> Seq<EventModel> {
    machine_run(input, isz, input.len() as int).events
}

} // verus!
