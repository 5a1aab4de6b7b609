//! Laws of the scanner, stated over the specification state machine and
//! proved once and for all. `scan_events` is proved to return exactly
//! `scan_model(input, indent_size)`, so each law here carries over to every
//! run of the executable scanner.

use vstd::prelude::*;

use crate::data::{EventModel, KeyModel, MultilineModel, ValueModel};
use crate::model::{
    classify_scalar, fold_chars, is_ws, lemma_trim_start_shift, machine_init, machine_run, machine_step,
    peek_line, pipe_chars, scan_model, trim_chars, trim_start, trim_end, MachineModel, ModeModel,
};

verus! {

/// What holds of every value the machine ever emits: the reserved `Numeric`
/// kind never appears, and a block scalar never carries the
/// preserve-leading-whitespace flag.
pub open spec fn emitted_value_ok(v: ValueModel) -> bool {
    &&& !(v is Numeric)
    &&& (v matches ValueModel::Block(m) ==> !m.preserve_leading_whitespace)
}

/// The machine invariant behind [`lemma_number_never_emitted`] and
/// [`lemma_preserve_flag_never_set`]: a block state never records the
/// preserve flag, and every emitted value is well-behaved.
pub open spec fn machine_ok(st: MachineModel) -> bool {
    &&& (st.mode matches ModeModel::Multiline { collapse, preserve, indent } ==> !preserve)
    &&& forall|k: int| 0 <= k < st.events.len() ==> emitted_value_ok(#[trigger] st.events[k].value)
}

/// Every reachable machine state satisfies [`machine_ok`].
pub proof fn lemma_run_ok(input: Seq<char>, isz: nat, i: int)
    ensures
        machine_ok(machine_run(input, isz, i)),
    decreases i,
{
    if i > 0 {
        lemma_run_ok(input, isz, i - 1);
    }
}

/// The reserved `Number` value kind is dead vocabulary: no input, whatever
/// its content, ever makes the scanner emit a `Numeric` value. Numeric-
/// looking tokens come out as plain text.
pub proof fn lemma_number_never_emitted(input: Seq<char>, isz: nat, k: int)
    requires
        0 <= k < scan_model(input, isz).len(),
    ensures
        !(scan_model(input, isz)[k].value is Numeric),
{
    lemma_run_ok(input, isz, input.len() as int);
}

/// The grammar has no `|+` form: no emitted block scalar ever carries the
/// preserve-leading-whitespace flag.
pub proof fn lemma_preserve_flag_never_set(input: Seq<char>, isz: nat, k: int)
    requires
        0 <= k < scan_model(input, isz).len(),
    ensures
        scan_model(input, isz)[k].value matches ValueModel::Block(m)
            ==> !m.preserve_leading_whitespace,
{
    lemma_run_ok(input, isz, input.len() as int);
}

/// Scanning is a pure function of the buffer and the configuration: two
/// scans of the same buffer with the same indent size yield the identical,
/// order-preserving event sequence.
pub proof fn lemma_scan_idempotent(
    input: Seq<char>,
    isz: nat,
    first: Seq<EventModel>,
    second: Seq<EventModel>,
)
    requires
        first == scan_model(input, isz),
        second == scan_model(input, isz),
    ensures
        first == second,
{
}

/// A value line holding exactly `|` opens a literal block: the scanner
/// enters the block state with the collapse flag clear, remembering the
/// indentation accumulated in front of the key.
pub proof fn lemma_pipe_opens_literal_block(input: Seq<char>, isz: nat, i: int)
    requires
        0 <= i < input.len(),
        machine_run(input, isz, i).mode is Value,
        machine_run(input, isz, i).start as int <= i,
        input[i] == '\n',
        trim_chars(
            input.subrange(machine_run(input, isz, i).start as int, i),
        ) == pipe_chars(),
    ensures
        machine_run(input, isz, i + 1).mode == (ModeModel::Multiline {
            collapse: false,
            preserve: false,
            indent: machine_run(input, isz, i).indent,
        }),
{
    assert(pipe_chars().len() == 1);
}

/// A value line holding exactly `>` opens a folded block: the scanner
/// enters the block state with the collapse flag set.
pub proof fn lemma_fold_opens_folded_block(input: Seq<char>, isz: nat, i: int)
    requires
        0 <= i < input.len(),
        machine_run(input, isz, i).mode is Value,
        machine_run(input, isz, i).start as int <= i,
        input[i] == '\n',
        trim_chars(
            input.subrange(machine_run(input, isz, i).start as int, i),
        ) == fold_chars(),
    ensures
        machine_run(input, isz, i + 1).mode == (ModeModel::Multiline {
            collapse: true,
            preserve: false,
            indent: machine_run(input, isz, i).indent,
        }),
{
    assert(fold_chars()[0] != pipe_chars()[0]);
}

/// A block scalar ends exactly at a newline whose follow-on line is
/// non-blank and indented no deeper than the recorded block indentation:
/// the emitted text spans from the block's start to that newline, with the
/// block's own collapse flag.
pub proof fn lemma_block_termination(
    input: Seq<char>,
    isz: nat,
    i: int,
    collapse: bool,
    preserve: bool,
    block_indent: nat,
)
    requires
        0 <= i < input.len(),
        machine_run(input, isz, i).mode == (ModeModel::Multiline {
            collapse,
            preserve,
            indent: block_indent,
        }),
        input[i] == '\n',
        !peek_line(input, i + 1, isz).blank,
        peek_line(input, i + 1, isz).cols <= block_indent,
    ensures
        machine_run(input, isz, i + 1).mode is Skip,
        machine_run(input, isz, i + 1).events == machine_run(input, isz, i).events.push(
            EventModel {
                path: machine_run(input, isz, i).path,
                value: ValueModel::Block(
                    MultilineModel {
                        text: input.subrange(machine_run(input, isz, i).start as int, i),
                        collapse,
                        preserve_leading_whitespace: preserve,
                    },
                ),
            },
        ),
{
}

/// The tie-break for block termination: a completely blank follow-on line
/// never ends a block scalar, whatever its indentation; the machine's state
/// does not change at such a newline.
pub proof fn lemma_blank_line_continues_block(input: Seq<char>, isz: nat, i: int)
    requires
        0 <= i < input.len(),
        machine_run(input, isz, i).mode is Multiline,
        input[i] == '\n',
        peek_line(input, i + 1, isz).blank,
    ensures
        machine_run(input, isz, i + 1) == machine_run(input, isz, i),
{
}

/// A completed inline list item is emitted under the running ordinal, and
/// the ordinal then advances by one: within one list the ordinals come out
/// 0-based and strictly increasing, one per item.
pub proof fn lemma_list_item_ordinal(input: Seq<char>, isz: nat, i: int)
    requires
        0 <= i < input.len(),
        machine_run(input, isz, i).mode is ListItem,
        input[i] == '\n',
    ensures
        machine_run(input, isz, i + 1).events == machine_run(input, isz, i).events.push(
            EventModel {
                path: machine_run(input, isz, i).path.push(
                    KeyModel::Listed(machine_run(input, isz, i).list_idx),
                ),
                value: classify_scalar(
                    trim_chars(
                        input.subrange(machine_run(input, isz, i).start as int, i),
                    ),
                ),
            },
        ),
        machine_run(input, isz, i + 1).list_idx == machine_run(input, isz, i).list_idx + 1,
{
}

/// The nesting re-anchoring rule: when a key's colon arrives, the key
/// lands at the level given by the accumulated indentation divided by the
/// indent size. A path deeper than that is truncated to exactly that many
/// entries first — this is how a dedent pops nested keys — and the new
/// `Named` key is then appended. The running list ordinal resumes from a
/// retained trailing `Listed` entry and resets to zero otherwise.
pub proof fn lemma_key_reanchors_path(input: Seq<char>, isz: nat, i: int)
    requires
        0 <= i < input.len(),
        machine_run(input, isz, i).mode is Identifier,
        machine_run(input, isz, i).start as int <= i,
        input[i] == ':',
    ensures
        ({
            let st = machine_run(input, isz, i);
            let level = st.indent / isz;
            let key = KeyModel::Named(trim_chars(input.subrange(st.start as int, i)));
            let kept = if level < crate::model::named_count(st.path) {
                st.path.take(level as int)
            } else {
                st.path
            };
            machine_run(input, isz, i + 1).path == kept.push(key)
        }),
        machine_run(input, isz, i + 1).mode is Value,
{
}

/// The boolean literals, and only they, map to the boolean values: every
/// other trimmed token stays the borrowed text itself.
pub proof fn lemma_scalar_classification(s: Seq<char>)
    ensures
        s == crate::model::true_chars() ==> classify_scalar(s) is TrueValue,
        s == crate::model::false_chars() ==> classify_scalar(s) is FalseValue,
        s != crate::model::true_chars() && s != crate::model::false_chars() ==> classify_scalar(
            s,
        ) == ValueModel::Text(s),
{
    assert(crate::model::true_chars().len() != crate::model::false_chars().len());
}

/// One root-level `key: value` line of a plain mapping document.
pub struct PlainLine {
    pub key: Seq<char>,
    pub value: Seq<char>,
}

/// A usable root-level key: non-empty, starting with a character that is
/// neither whitespace nor a list dash, and free of colons and newlines.
pub open spec fn plain_key_ok(k: Seq<char>) -> bool {
    &&& k.len() > 0
    &&& !is_ws(k[0])
    &&& k[0] != '-'
    &&& forall|j: int| 0 <= j < k.len() ==> k[j] != ':' && k[j] != '\n'
}

/// A plain scalar value: a single line whose first non-whitespace character
/// exists and is not a list dash, and which is not a block-scalar marker.
pub open spec fn plain_value_ok(v: Seq<char>) -> bool {
    &&& (forall|j: int| 0 <= j < v.len() ==> v[j] != '\n')
    &&& trim_start(v).len() > 0
    &&& trim_start(v)[0] != '-'
    &&& trim_chars(v) != pipe_chars()
    &&& trim_chars(v) != fold_chars()
}

/// The characters of one line: `key`, a colon, `value`, a newline.
pub open spec fn plain_line_chars(l: PlainLine) -> Seq<char> {
    l.key + seq![':'] + l.value + seq!['\n']
}

/// The characters of a whole plain mapping document.
pub open spec fn plain_doc_chars(lines: Seq<PlainLine>) -> Seq<char>
    decreases lines.len(),
{
    if lines.len() == 0 {
        Seq::empty()
    } else {
        plain_doc_chars(lines.drop_last()) + plain_line_chars(lines.last())
    }
}

/// The event one plain line emits: a key-path of exactly one `Named`
/// element holding the trimmed key text, and the classified trimmed value.
pub open spec fn plain_event(l: PlainLine) -> EventModel {
    EventModel {
        path: seq![KeyModel::Named(trim_chars(l.key))],
        value: classify_scalar(trim_chars(l.value)),
    }
}

/// The events of a whole plain mapping document, line by line.
pub open spec fn plain_events(lines: Seq<PlainLine>) -> Seq<EventModel> {
    lines.map_values(|l: PlainLine| plain_event(l))
}

/// A nonempty trimmed front keeps its first, non-whitespace character.
proof fn lemma_trim_start_head(s: Seq<char>)
    requires
        trim_start(s).len() > 0,
    ensures
        !is_ws(trim_start(s)[0]),
    decreases s.len(),
{
    if s.len() > 0 && is_ws(s[0]) {
        lemma_trim_start_head(s.subrange(1, s.len() as int));
    }
}

/// Trimming the tail cannot erase a non-whitespace head.
proof fn lemma_trim_end_keeps_head(t: Seq<char>)
    requires
        t.len() > 0,
        !is_ws(t[0]),
    ensures
        trim_end(t).len() > 0,
        trim_end(t)[0] == t[0],
    decreases t.len(),
{
    if is_ws(t[t.len() - 1]) {
        assert(t.subrange(0, t.len() - 1)[0] == t[0]);
        lemma_trim_end_keeps_head(t.subrange(0, t.len() - 1));
    }
}

/// A sequence holding any non-whitespace character trims to something
/// non-empty.
proof fn lemma_trim_keeps_content(s: Seq<char>, j: int)
    requires
        0 <= j < s.len(),
        !is_ws(s[j]),
    ensures
        trim_chars(s).len() > 0,
    decreases s.len(),
{
    if is_ws(s[0]) {
        let tail = s.subrange(1, s.len() as int);
        lemma_trim_keeps_content(tail, j - 1);
    } else {
        lemma_trim_end_keeps_head(s);
    }
}

/// The `Identifier` state walks over colon-free text without changing the
/// machine's state.
proof fn lemma_identifier_walk(doc: Seq<char>, isz: nat, p: int, q: int)
    requires
        0 <= p <= q <= doc.len(),
        machine_run(doc, isz, p).mode is Identifier,
        forall|j: int| p <= j < q ==> doc[j] != ':',
    ensures
        machine_run(doc, isz, q) == machine_run(doc, isz, p),
    decreases q - p,
{
    if p < q {
        lemma_identifier_walk(doc, isz, p, q - 1);
    }
}

/// The `Value` state walks over a line's remainder without changing the
/// machine's state, as long as no newline appears and every dash comes
/// after some non-whitespace text.
proof fn lemma_value_walk(doc: Seq<char>, isz: nat, p: int, q: int)
    requires
        0 <= p <= q <= doc.len(),
        machine_run(doc, isz, p).mode is Value,
        forall|j: int| p <= j < q ==> doc[j] != '\n',
        forall|j: int|
            p <= j < q ==> (doc[j] == '-' ==> trim_chars(
                doc.subrange(machine_run(doc, isz, p).start as int, j),
            ).len() > 0),
    ensures
        machine_run(doc, isz, q) == machine_run(doc, isz, p),
    decreases q - p,
{
    if p < q {
        lemma_value_walk(doc, isz, p, q - 1);
    }
}

/// Inside a plain value's span no dash can fire the list transition:
/// every dash comes after the value's first non-whitespace character, so
/// the text scanned up to it never trims to nothing.
proof fn lemma_value_dashes_guarded(doc: Seq<char>, value: Seq<char>, s0: int, nl: int)
    requires
        plain_value_ok(value),
        0 <= s0 <= nl <= doc.len(),
        nl - s0 == value.len(),
        doc.subrange(s0, nl) == value,
    ensures
        forall|j: int|
            s0 <= j < nl && doc[j] == '-' ==> trim_chars(doc.subrange(s0, j)).len() > 0,
{
    assert forall|j: int| s0 <= j < nl && doc[j] == '-' implies trim_chars(
        doc.subrange(s0, j),
    ).len() > 0 by {
        let w = j - s0;
        assert(value[w] == doc[j]) by {
            assert(doc.subrange(s0, nl)[w] == doc[j]);
        }
        assert(('-' as u32) == 0x2D);
        assert(!is_ws('-'));
        // The first non-whitespace character of the value is not a dash,
        // so some earlier character of the prefix is non-whitespace.
        if forall|l: int| 0 <= l < w ==> is_ws(#[trigger] value[l]) {
            lemma_trim_start_shift(value, 0, w, value.len() as int);
            assert(value.subrange(0, value.len() as int) =~= value);
            let tail = value.subrange(w as int, value.len() as int);
            assert(tail[0] == value[w]);
            assert(trim_start(value) == trim_start(tail));
            assert(trim_start(tail)[0] == '-');
            assert(false);
        }
        let l = choose|l: int| 0 <= l < w && !is_ws(#[trigger] value[l]);
        let prefix = doc.subrange(s0, j);
        assert(prefix[l] == value[l]) by {
            assert(doc.subrange(s0, nl)[l] == doc[s0 + l]);
            assert(prefix[l] == doc[s0 + l]);
        }
        lemma_trim_keeps_content(prefix, l);
    }
}

/// A path made of mapping keys only, with no list ordinals.
pub open spec fn all_named(p: Seq<KeyModel>) -> bool {
    forall|k: int| 0 <= k < p.len() ==> p[k] is Named
}

/// On a path of mapping keys only, the `Named` count is the whole length.
proof fn lemma_named_count_all_named(p: Seq<KeyModel>)
    requires
        all_named(p),
    ensures
        crate::model::named_count(p) == p.len(),
    decreases p.len(),
{
    if p.len() > 0 {
        lemma_named_count_all_named(p.drop_last());
    }
}

/// The `Skip` state walks over spaces, adding one indentation column per
/// space and changing nothing else.
proof fn lemma_skip_spaces(doc: Seq<char>, isz: nat, p: int, q: int)
    requires
        0 <= p <= q <= doc.len(),
        machine_run(doc, isz, p).mode is Skip,
        forall|j: int| p <= j < q ==> doc[j] == ' ',
    ensures
        machine_run(doc, isz, q) == (MachineModel {
            indent: (machine_run(doc, isz, p).indent + q - p) as nat,
            ..machine_run(doc, isz, p)
        }),
    decreases q - p,
{
    if p < q {
        lemma_skip_spaces(doc, isz, p, q - 1);
    } else {
        assert(machine_run(doc, isz, p) == (MachineModel {
            indent: machine_run(doc, isz, p).indent,
            ..machine_run(doc, isz, p)
        }));
    }
}

/// One line of a nested mapping document, scanned from a ready state
/// whose path is a stack of mapping keys: `depth * indent_size` spaces,
/// then `key`, a colon, for a leaf line a scalar value, and a newline.
///
/// The colon re-anchors the path to `depth` entries (a dedent discards the
/// deeper ones) and appends the trimmed key. A leaf line then emits one
/// event whose key-path is those `depth` ancestors followed by the key —
/// one `Named` element per nesting level — and pops the key again; an
/// opener line (no value) keeps the key on the path for the lines below.
#[verifier::rlimit(40)]
pub proof fn lemma_mapping_line(
    doc: Seq<char>,
    isz: nat,
    p: int,
    depth: nat,
    key: Seq<char>,
    leaf: bool,
    value: Seq<char>,
)
    requires
        isz >= 1,
        plain_key_ok(key),
        leaf ==> plain_value_ok(value),
        0 <= p,
        p + depth * isz + key.len() + 1 + (if leaf { value.len() } else { 0 }) + 1 <= doc.len(),
        forall|j: int| p <= j < p + depth * isz ==> doc[j] == ' ',
        doc.subrange(p + depth * isz, p + depth * isz + key.len()) == key,
        doc[p + depth * isz + key.len()] == ':',
        leaf ==> doc.subrange(
            p + depth * isz + key.len() + 1,
            p + depth * isz + key.len() + 1 + value.len(),
        ) == value,
        doc[p + depth * isz + key.len() + 1 + (if leaf { value.len() as int } else { 0 })]
            == '\n',
        machine_run(doc, isz, p).indent == 0,
        all_named(machine_run(doc, isz, p).path),
        depth <= machine_run(doc, isz, p).path.len(),
        machine_run(doc, isz, p).mode is Skip || (machine_run(doc, isz, p).mode is Identifier
            && machine_run(doc, isz, p).start == p && depth == 0),
    ensures
        ({
            let st0 = machine_run(doc, isz, p);
            let kept = st0.path.take(depth as int);
            let leaf_path = kept.push(KeyModel::Named(trim_chars(key)));
            let fin = machine_run(
                doc,
                isz,
                p + depth * isz + key.len() + 1 + (if leaf { value.len() as int } else { 0 })
                    + 1,
            );
            &&& fin.mode is Skip
            &&& fin.indent == 0
            &&& fin.path == (if leaf { kept } else { leaf_path })
            &&& fin.events == (if leaf {
                st0.events.push(
                    EventModel { path: leaf_path, value: classify_scalar(trim_chars(value)) },
                )
            } else {
                st0.events
            })
            &&& all_named(fin.path)
        }),
{
    let st0 = machine_run(doc, isz, p);
    let ind = depth * isz;
    let kp = p + ind;
    let colon = kp + key.len();
    let nl = colon + 1 + (if leaf { value.len() as int } else { 0 });
    let kept = st0.path.take(depth as int);
    let named_key = KeyModel::Named(trim_chars(key));
    // The leading spaces accumulate the line's indentation.
    if st0.mode is Skip {
        lemma_skip_spaces(doc, isz, p, kp);
    } else {
        assert(ind == 0);
    }
    let stk = machine_run(doc, isz, kp);
    assert(stk == (MachineModel { indent: ind as nat, mode: st0.mode, ..st0 }));
    // The key's first character starts an identifier.
    assert(doc[kp] == key[0]) by {
        assert(doc.subrange(kp, colon)[0] == doc[kp]);
    }
    let st1 = machine_run(doc, isz, kp + 1);
    assert(st1 == machine_step(doc, isz, stk, kp));
    assert(st1 == (MachineModel { mode: ModeModel::Identifier, start: kp as nat, ..stk }));
    // The rest of the key holds no colon.
    assert forall|j: int| kp + 1 <= j < colon implies doc[j] != ':' by {
        assert(doc.subrange(kp, colon)[j - kp] == doc[j]);
    }
    lemma_identifier_walk(doc, isz, kp + 1, colon);
    let st2 = machine_run(doc, isz, colon);
    assert(st2 == st1);
    // The colon lands the key at exactly `depth`, truncating a deeper path.
    assert(doc.subrange(st2.start as int, colon) == key);
    vstd::arithmetic::div_mod::lemma_div_multiples_vanish(depth as int, isz as int);
    assert((depth as int) * (isz as int) == (isz as int) * (depth as int)) by (nonlinear_arith);
    assert(st2.indent as int == (isz as int) * (depth as int));
    assert(((isz as int) * (depth as int)) / (isz as int) == depth as int);
    assert(st2.indent / isz == depth);
    lemma_named_count_all_named(st0.path);
    let st3 = machine_run(doc, isz, colon + 1);
    assert(st3 == machine_step(doc, isz, st2, colon));
    if depth < st0.path.len() {
        assert(all_named(kept));
        if kept.len() > 0 {
            assert(kept.last() is Named);
        }
        assert(st3 == (MachineModel {
            mode: ModeModel::Value,
            path: kept.push(named_key),
            list_idx: 0,
            start: (colon + 1) as nat,
            ..st2
        }));
    } else {
        assert(kept =~= st0.path);
        assert(st3 == (MachineModel {
            mode: ModeModel::Value,
            path: kept.push(named_key),
            start: (colon + 1) as nat,
            ..st2
        }));
    }
    if leaf {
        // The value's characters keep the value state alive up to the
        // newline, which emits the leaf and pops it back off the path.
        assert forall|j: int| colon + 1 <= j < nl implies doc[j] != '\n' by {
            assert(doc.subrange(colon + 1, nl)[j - (colon + 1)] == doc[j]);
        }
        lemma_value_dashes_guarded(doc, value, colon + 1, nl);
        lemma_value_walk(doc, isz, colon + 1, nl);
        let st4 = machine_run(doc, isz, nl);
        assert(st4 == st3);
        assert(doc.subrange(st4.start as int, nl) == value);
        let tv = trim_chars(value);
        assert(tv.len() > 0) by {
            lemma_trim_start_head(value);
            lemma_trim_end_keeps_head(trim_start(value));
        }
        let st5 = machine_run(doc, isz, nl + 1);
        assert(st5 == machine_step(doc, isz, st4, nl));
        assert(st3.path.drop_last() =~= kept);
    } else {
        // The newline follows the colon at once: the empty value ends the
        // line without an event, keeping the key on the path.
        let st5 = machine_run(doc, isz, nl + 1);
        assert(st5 == machine_step(doc, isz, st3, nl));
        assert(doc.subrange(st3.start as int, nl) =~= Seq::<char>::empty());
        assert(trim_chars(Seq::<char>::empty()).len() == 0);
        assert(st5 == (MachineModel { mode: ModeModel::Skip, indent: 0, ..st3 }));
    }
    let fin = machine_run(doc, isz, nl + 1);
    assert forall|k: int| 0 <= k < fin.path.len() implies (#[trigger] fin.path[k]) is Named by {
        if k < kept.len() {
            assert(kept[k] == st0.path[k]);
        }
    }
}

/// One line of a nested mapping document, described abstractly: its
/// nesting depth, its key, and — when it is a leaf — its scalar value.
/// An opener line (`leaf == false`) introduces a deeper mapping and has no
/// value text.
pub struct MappingLine {
    pub depth: nat,
    pub key: Seq<char>,
    pub leaf: bool,
    pub value: Seq<char>,
}

/// A usable mapping line: its key as for a plain line, and, for a leaf,
/// its value as for a plain line.
pub open spec fn mapping_line_ok(l: MappingLine) -> bool {
    &&& plain_key_ok(l.key)
    &&& (l.leaf ==> plain_value_ok(l.value))
}

/// The characters of one mapping line: its indentation in spaces, the
/// key, a colon, the value for a leaf, and a newline.
pub open spec fn mapping_line_chars(l: MappingLine, isz: nat) -> Seq<char> {
    Seq::new(l.depth * isz, |i: int| ' ') + l.key + seq![':'] + (if l.leaf {
        l.value
    } else {
        Seq::<char>::empty()
    }) + seq!['\n']
}

/// The characters of a whole nested mapping document.
pub open spec fn mapping_doc_chars(lines: Seq<MappingLine>, isz: nat) -> Seq<char>
    decreases lines.len(),
{
    if lines.len() == 0 {
        Seq::empty()
    } else {
        mapping_doc_chars(lines.drop_last(), isz) + mapping_line_chars(lines.last(), isz)
    }
}

/// The ancestor-key stack after the first `m` lines: each line re-anchors
/// the stack to its depth; an opener then pushes its trimmed key, while a
/// leaf leaves the stack at its depth.
pub open spec fn mapping_stack(lines: Seq<MappingLine>, m: int) -> Seq<KeyModel>
    decreases m,
{
    if m <= 0 {
        Seq::empty()
    } else {
        let s = mapping_stack(lines, m - 1);
        let l = lines[m - 1];
        let kept = if l.depth as int <= s.len() {
            s.take(l.depth as int)
        } else {
            s
        };
        if l.leaf {
            kept
        } else {
            kept.push(KeyModel::Named(trim_chars(l.key)))
        }
    }
}

/// The events of the first `m` lines: one per leaf, whose key-path is the
/// leaf's ancestor keys — one `Named` element per nesting level, deepest
/// last — followed by the leaf's own trimmed key.
pub open spec fn mapping_events(lines: Seq<MappingLine>, m: int) -> Seq<EventModel>
    decreases m,
{
    if m <= 0 {
        Seq::empty()
    } else {
        let prev = mapping_events(lines, m - 1);
        let l = lines[m - 1];
        if l.leaf {
            let s = mapping_stack(lines, m - 1);
            let kept = if l.depth as int <= s.len() {
                s.take(l.depth as int)
            } else {
                s
            };
            prev.push(
                EventModel {
                    path: kept.push(KeyModel::Named(trim_chars(l.key))),
                    value: classify_scalar(trim_chars(l.value)),
                },
            )
        } else {
            prev
        }
    }
}

/// A well-formed nested mapping document: every line is usable and no
/// line lies deeper than the mapping enclosing it.
pub open spec fn mapping_doc_ok(lines: Seq<MappingLine>) -> bool {
    forall|m: int|
        0 <= m < lines.len() ==> mapping_line_ok(#[trigger] lines[m]) && lines[m].depth
            <= mapping_stack(lines, m).len()
}

/// One more line extends a nested mapping document's characters at the
/// end.
proof fn lemma_mapping_doc_decompose(lines: Seq<MappingLine>, isz: nat, m: int)
    requires
        0 <= m < lines.len(),
    ensures
        mapping_doc_chars(lines.take(m + 1), isz) == mapping_doc_chars(lines.take(m), isz)
            + mapping_line_chars(lines[m], isz),
{
    assert(lines.take(m + 1).drop_last() =~= lines.take(m));
    assert(lines.take(m + 1).last() == lines[m]);
}

/// The characters of a nested document's first `m` lines are a prefix of
/// the whole document's characters.
proof fn lemma_mapping_doc_prefix(lines: Seq<MappingLine>, isz: nat, m: int)
    requires
        0 <= m <= lines.len(),
    ensures
        mapping_doc_chars(lines.take(m), isz).len() <= mapping_doc_chars(lines, isz).len(),
        mapping_doc_chars(lines.take(m), isz) == mapping_doc_chars(lines, isz).subrange(
            0,
            mapping_doc_chars(lines.take(m), isz).len() as int,
        ),
    decreases lines.len() - m,
{
    let doc = mapping_doc_chars(lines, isz);
    if m == lines.len() {
        assert(lines.take(m) =~= lines);
        assert(doc.subrange(0, doc.len() as int) =~= doc);
    } else {
        lemma_mapping_doc_prefix(lines, isz, m + 1);
        lemma_mapping_doc_decompose(lines, isz, m);
        let a = mapping_doc_chars(lines.take(m), isz);
        let b = mapping_doc_chars(lines.take(m + 1), isz);
        assert(b == a + mapping_line_chars(lines[m], isz));
        assert(a == b.subrange(0, a.len() as int)) by {
            assert(b.subrange(0, a.len() as int) =~= a);
        }
        assert(doc.subrange(0, b.len() as int).subrange(0, a.len() as int) =~= doc.subrange(
            0,
            a.len() as int,
        ));
    }
}

/// Where line `m` begins inside a nested mapping document's characters.
pub open spec fn mapping_doc_pos(lines: Seq<MappingLine>, isz: nat, m: int) -> int {
    mapping_doc_chars(lines.take(m), isz).len() as int
}

/// After scanning the first `m` lines of a nested mapping document the
/// machine is ready for the next line, its path is exactly the ancestor
/// stack those lines leave open, and it has emitted exactly their leaf
/// events.
#[verifier::rlimit(100)]
proof fn lemma_mapping_doc_run(lines: Seq<MappingLine>, isz: nat, m: int)
    requires
        isz >= 1,
        mapping_doc_ok(lines),
        0 <= m <= lines.len(),
    ensures
        ({
            let doc = mapping_doc_chars(lines, isz);
            let st = machine_run(doc, isz, mapping_doc_pos(lines, isz, m));
            &&& st.path == mapping_stack(lines, m)
            &&& all_named(st.path)
            &&& st.indent == 0
            &&& st.events == mapping_events(lines, m)
            &&& (if m == 0 {
                st == machine_init()
            } else {
                st.mode is Skip
            })
        }),
    decreases m,
{
    let doc = mapping_doc_chars(lines, isz);
    if m == 0 {
        assert(lines.take(0) =~= Seq::<MappingLine>::empty());
        assert(mapping_doc_pos(lines, isz, 0) == 0);
        assert(machine_run(doc, isz, 0) == machine_init());
    } else {
        lemma_mapping_doc_run(lines, isz, m - 1);
        let p = mapping_doc_pos(lines, isz, m - 1);
        let l = lines[m - 1];
        let lc = mapping_line_chars(l, isz);
        let ind = l.depth * isz;
        let klen = l.key.len() as int;
        let vlen: int = if l.leaf {
            l.value.len() as int
        } else {
            0
        };
        lemma_mapping_doc_decompose(lines, isz, m - 1);
        assert(mapping_doc_pos(lines, isz, m) == p + lc.len());
        lemma_mapping_doc_prefix(lines, isz, m);
        let sp = Seq::new(ind, |i: int| ' ');
        let vpart: Seq<char> = if l.leaf {
            l.value
        } else {
            Seq::<char>::empty()
        };
        let a = sp + l.key;
        let b = a + seq![':'];
        let c = b + vpart;
        assert(lc == c + seq!['\n']);
        assert(lc.len() == ind + klen + 1 + vlen + 1);
        assert forall|j: int| 0 <= j < lc.len() implies doc[p + j] == lc[j] by {
            assert(mapping_doc_chars(lines.take(m), isz)[p + j] == lc[j]);
            assert(doc.subrange(0, p + lc.len() as int)[p + j] == doc[p + j]);
        }
        assert forall|j: int| 0 <= j < ind implies lc[j] == ' ' by {
            assert(a[j] == sp[j]);
            assert(b[j] == a[j]);
            assert(c[j] == b[j]);
            assert(lc[j] == c[j]);
        }
        assert forall|j: int| 0 <= j < klen implies lc[ind + j] == l.key[j] by {
            assert(a[ind + j] == l.key[j]);
            assert(b[ind + j] == a[ind + j]);
            assert(c[ind + j] == b[ind + j]);
            assert(lc[ind + j] == c[ind + j]);
        }
        assert(lc[ind + klen] == ':') by {
            assert(b[ind + klen] == seq![':'][0]);
            assert(c[ind + klen] == b[ind + klen]);
            assert(lc[ind + klen] == c[ind + klen]);
        }
        assert forall|j: int| 0 <= j < vlen implies lc[ind + klen + 1 + j] == vpart[j] by {
            assert(c[ind + klen + 1 + j] == vpart[j]);
            assert(lc[ind + klen + 1 + j] == c[ind + klen + 1 + j]);
        }
        assert(lc[ind + klen + 1 + vlen] == '\n') by {
            assert(lc[c.len() as int] == seq!['\n'][0]);
        }
        assert forall|j: int| p <= j < p + ind implies doc[j] == ' ' by {
            assert(doc[p + (j - p)] == lc[j - p]);
        }
        assert forall|j: int| 0 <= j < klen implies doc.subrange(p + ind, p + ind + klen)[j]
            == l.key[j] by {
            assert(doc[p + (ind + j)] == lc[ind + j]);
        }
        assert(doc.subrange(p + ind, p + ind + klen) =~= l.key);
        assert(doc[p + ind + klen] == ':') by {
            assert(doc[p + (ind + klen)] == lc[ind + klen]);
        }
        if l.leaf {
            assert forall|j: int|
                0 <= j < vlen implies doc.subrange(
                p + ind + klen + 1,
                p + ind + klen + 1 + vlen,
            )[j] == l.value[j] by {
                assert(doc[p + (ind + klen + 1 + j)] == lc[ind + klen + 1 + j]);
            }
            assert(doc.subrange(p + ind + klen + 1, p + ind + klen + 1 + vlen) =~= l.value);
        }
        assert(doc[p + ind + klen + 1 + vlen] == '\n') by {
            assert(doc[p + (ind + klen + 1 + vlen)] == lc[ind + klen + 1 + vlen]);
        }
        assert(mapping_line_ok(l) && l.depth <= mapping_stack(lines, m - 1).len());
        lemma_mapping_line(doc, isz, p, l.depth, l.key, l.leaf, l.value);
    }
}

/// For a document of nested mappings — each line either `key:`, opening a
/// mapping one level deeper, or `key: value`, giving a leaf, indented
/// `depth * indent_size` spaces — the scan emits exactly one event per
/// leaf line, in document order. A leaf's key-path holds one `Named`
/// element per nesting level: the trimmed keys of its enclosing mappings,
/// outermost first, followed by the leaf's own trimmed key.
pub proof fn lemma_nested_mapping_events(lines: Seq<MappingLine>, isz: nat)
    requires
        isz >= 1,
        mapping_doc_ok(lines),
    ensures
        scan_model(mapping_doc_chars(lines, isz), isz) == mapping_events(
            lines,
            lines.len() as int,
        ),
{
    lemma_mapping_doc_run(lines, isz, lines.len() as int);
    assert(lines.take(lines.len() as int) =~= lines);
}

/// A plain root-level line, seen as the depth-zero leaf line of the
/// nested mapping grammar.
pub open spec fn plain_as_mapping(l: PlainLine) -> MappingLine {
    MappingLine { depth: 0, key: l.key, leaf: true, value: l.value }
}

/// A plain document, line by line, as a nested mapping document.
pub open spec fn plain_as_mapping_doc(lines: Seq<PlainLine>) -> Seq<MappingLine> {
    lines.map_values(|l: PlainLine| plain_as_mapping(l))
}

/// A depth-zero leaf line spells the same characters in both grammars.
proof fn lemma_plain_line_chars_as_mapping(l: PlainLine, isz: nat)
    ensures
        mapping_line_chars(plain_as_mapping(l), isz) == plain_line_chars(l),
{
    let ml = plain_as_mapping(l);
    let mc = mapping_line_chars(ml, isz);
    let pc = plain_line_chars(l);
    let klen = l.key.len() as int;
    let vlen = l.value.len() as int;
    assert(ml.depth * isz == 0);
    assert(mc.len() == klen + 1 + vlen + 1);
    assert(pc.len() == klen + 1 + vlen + 1);
    let sp = Seq::new(ml.depth * isz, |i: int| ' ');
    let ma = sp + l.key;
    let mb = ma + seq![':'];
    let mcv = mb + l.value;
    assert(mc =~= mcv + seq!['\n']);
    let pa = l.key + seq![':'];
    let pb = pa + l.value;
    assert(pc == pb + seq!['\n']);
    assert forall|j: int| 0 <= j < mc.len() implies mc[j] == pc[j] by {
        if j < klen {
            assert(ma[j] == l.key[j]);
            assert(mb[j] == ma[j]);
            assert(mcv[j] == mb[j]);
            assert(mc[j] == mcv[j]);
            assert(pa[j] == l.key[j]);
            assert(pb[j] == pa[j]);
            assert(pc[j] == pb[j]);
        } else if j == klen {
            assert(mb[j] == seq![':'][0]);
            assert(mcv[j] == mb[j]);
            assert(mc[j] == mcv[j]);
            assert(pa[j] == seq![':'][0]);
            assert(pb[j] == pa[j]);
            assert(pc[j] == pb[j]);
        } else if j < klen + 1 + vlen {
            assert(mcv[j] == l.value[j - (klen + 1)]);
            assert(mc[j] == mcv[j]);
            assert(pb[j] == l.value[j - (klen + 1)]);
            assert(pc[j] == pb[j]);
        } else {
            assert(mc[j] == seq!['\n'][0]);
            assert(pc[j] == seq!['\n'][0]);
        }
    }
    assert(mc =~= pc);
}

/// A plain document's characters are those of its nested-grammar form.
proof fn lemma_plain_chars_as_mapping(lines: Seq<PlainLine>, isz: nat)
    ensures
        plain_doc_chars(lines) == mapping_doc_chars(plain_as_mapping_doc(lines), isz),
    decreases lines.len(),
{
    let mapped = plain_as_mapping_doc(lines);
    if lines.len() > 0 {
        lemma_plain_chars_as_mapping(lines.drop_last(), isz);
        assert(mapped.drop_last() =~= plain_as_mapping_doc(lines.drop_last()));
        assert(mapped.last() == plain_as_mapping(lines.last()));
        lemma_plain_line_chars_as_mapping(lines.last(), isz);
    }
}

/// Depth-zero leaf lines never leave a key on the ancestor stack.
proof fn lemma_plain_stack_empty(lines: Seq<PlainLine>, m: int)
    requires
        0 <= m <= lines.len(),
    ensures
        mapping_stack(plain_as_mapping_doc(lines), m) == Seq::<KeyModel>::empty(),
    decreases m,
{
    if m > 0 {
        lemma_plain_stack_empty(lines, m - 1);
        assert(Seq::<KeyModel>::empty().take(0) =~= Seq::<KeyModel>::empty());
    }
}

/// The nested-grammar events of a plain document are its line events.
proof fn lemma_plain_events_as_mapping(lines: Seq<PlainLine>, m: int)
    requires
        0 <= m <= lines.len(),
    ensures
        mapping_events(plain_as_mapping_doc(lines), m) == plain_events(lines).take(m),
    decreases m,
{
    let mapped = plain_as_mapping_doc(lines);
    if m == 0 {
        assert(plain_events(lines).take(0) =~= Seq::<EventModel>::empty());
    } else {
        lemma_plain_events_as_mapping(lines, m - 1);
        lemma_plain_stack_empty(lines, m - 1);
        assert(mapped[m - 1] == plain_as_mapping(lines[m - 1]));
        assert(Seq::<KeyModel>::empty().take(0) =~= Seq::<KeyModel>::empty());
        assert(Seq::<KeyModel>::empty().push(
            KeyModel::Named(trim_chars(lines[m - 1].key)),
        ) =~= seq![KeyModel::Named(trim_chars(lines[m - 1].key))]);
        assert(plain_events(lines).take(m) =~= plain_events(lines).take(m - 1).push(
            plain_event(lines[m - 1]),
        ));
    }
}

/// For a document that is exactly a root-level mapping — one `key: value`
/// line per entry, no lists, no nesting — the scan emits one event per
/// line, in document order: a key-path of exactly one `Named` element
/// holding that line's trimmed key text, and the trimmed value classified
/// as `true`, `false` or the plain scalar text.
pub proof fn lemma_root_mapping_events(lines: Seq<PlainLine>, isz: nat)
    requires
        isz >= 1,
        forall|k: int|
            0 <= k < lines.len() ==> plain_key_ok(#[trigger] lines[k].key) && plain_value_ok(
                lines[k].value,
            ),
    ensures
        scan_model(plain_doc_chars(lines), isz) == plain_events(lines),
{
    let mapped = plain_as_mapping_doc(lines);
    assert forall|m: int|
        0 <= m < mapped.len() implies mapping_line_ok(#[trigger] mapped[m]) && mapped[m].depth
        <= mapping_stack(mapped, m).len() by {
        assert(mapped[m] == plain_as_mapping(lines[m]));
    }
    lemma_plain_chars_as_mapping(lines, isz);
    lemma_nested_mapping_events(mapped, isz);
    lemma_plain_events_as_mapping(lines, lines.len() as int);
    assert(plain_events(lines).take(lines.len() as int) =~= plain_events(lines));
}

/// The `ListItem` state walks over an item's text without changing the
/// machine's state, as long as no colon or newline appears.
proof fn lemma_list_item_walk(doc: Seq<char>, isz: nat, p: int, q: int)
    requires
        0 <= p <= q <= doc.len(),
        machine_run(doc, isz, p).mode is ListItem,
        forall|j: int| p <= j < q ==> doc[j] != ':' && doc[j] != '\n',
    ensures
        machine_run(doc, isz, q) == machine_run(doc, isz, p),
    decreases q - p,
{
    if p < q {
        lemma_list_item_walk(doc, isz, p, q - 1);
    }
}

/// A scalar list item's text: a single line free of colons.
pub open spec fn item_text_ok(t: Seq<char>) -> bool {
    forall|j: int| 0 <= j < t.len() ==> t[j] != ':' && t[j] != '\n'
}

/// One block-form list item — spaces, a dash, the item's text, a newline —
/// scanned from a ready state: the item is emitted under the running
/// ordinal appended to the current path, and the ordinal advances by one.
/// Chained over consecutive items this gives 0-based, strictly increasing
/// ordinals within one list, untouched by anything emitted elsewhere.
pub proof fn lemma_list_item_line(doc: Seq<char>, isz: nat, p: int, nsp: nat, text: Seq<char>)
    requires
        isz >= 1,
        item_text_ok(text),
        0 <= p,
        p + nsp + 1 + text.len() + 1 <= doc.len(),
        forall|j: int| p <= j < p + nsp ==> doc[j] == ' ',
        doc[p + nsp] == '-',
        doc.subrange(p + nsp + 1, p + nsp + 1 + text.len()) == text,
        doc[p + nsp + 1 + text.len()] == '\n',
        machine_run(doc, isz, p).mode is Skip,
    ensures
        ({
            let st0 = machine_run(doc, isz, p);
            let fin = machine_run(doc, isz, p + nsp + 1 + text.len() + 1);
            &&& fin.mode is Skip
            &&& fin.indent == 0
            &&& fin.path == st0.path
            &&& fin.list_idx == st0.list_idx + 1
            &&& fin.events == st0.events.push(
                EventModel {
                    path: st0.path.push(KeyModel::Listed(st0.list_idx)),
                    value: classify_scalar(trim_chars(text)),
                },
            )
        }),
{
    let st0 = machine_run(doc, isz, p);
    let dash = p + nsp;
    let nl = dash + 1 + text.len();
    // The leading spaces only adjust the indentation counter.
    lemma_skip_spaces(doc, isz, p, dash);
    // The dash opens a list item whose text starts right after it.
    let st1 = machine_run(doc, isz, dash + 1);
    assert(st1 == machine_step(doc, isz, machine_run(doc, isz, dash), dash));
    assert(st1 == (MachineModel {
        mode: ModeModel::ListItem,
        start: (dash + 1) as nat,
        indent: (st0.indent + nsp) as nat,
        ..st0
    }));
    // The item's text holds neither colon nor newline.
    assert forall|j: int| dash + 1 <= j < nl implies doc[j] != ':' && doc[j] != '\n' by {
        assert(doc.subrange(dash + 1, nl)[j - (dash + 1)] == doc[j]);
    }
    lemma_list_item_walk(doc, isz, dash + 1, nl);
    let st2 = machine_run(doc, isz, nl);
    assert(st2 == st1);
    // The newline emits the item under the running ordinal.
    assert(doc.subrange(st2.start as int, nl) == text);
    let fin = machine_run(doc, isz, nl + 1);
    assert(fin == machine_step(doc, isz, st2, nl));
}

/// One block-form list item line, described abstractly: its leading
/// spaces and its text.
pub struct ItemLine {
    pub spaces: nat,
    pub text: Seq<char>,
}

/// The characters of one item line: spaces, a dash, the text, a newline.
pub open spec fn item_line_chars(l: ItemLine) -> Seq<char> {
    Seq::new(l.spaces, |i: int| ' ') + seq!['-'] + l.text + seq!['\n']
}

/// The characters of a run of consecutive item lines.
pub open spec fn items_chars(items: Seq<ItemLine>) -> Seq<char>
    decreases items.len(),
{
    if items.len() == 0 {
        Seq::empty()
    } else {
        items_chars(items.drop_last()) + item_line_chars(items.last())
    }
}

/// The events a run of items emits under a path: item `i` under ordinal
/// `base + i` — 0-based when the ordinal starts fresh, and strictly
/// increasing in every case.
pub open spec fn item_events(
    items: Seq<ItemLine>,
    path: Seq<KeyModel>,
    base: nat,
) -> Seq<EventModel> {
    Seq::new(
        items.len(),
        |i: int|
            EventModel {
                path: path.push(KeyModel::Listed((base + i) as nat)),
                value: classify_scalar(trim_chars(items[i].text)),
            },
    )
}

/// One more item extends a run's characters at the end.
proof fn lemma_items_decompose(items: Seq<ItemLine>, m: int)
    requires
        0 <= m < items.len(),
    ensures
        items_chars(items.take(m + 1)) == items_chars(items.take(m)) + item_line_chars(
            items[m],
        ),
{
    assert(items.take(m + 1).drop_last() =~= items.take(m));
    assert(items.take(m + 1).last() == items[m]);
}

/// The characters of a run's first `m` items are a prefix of the whole
/// run's characters.
proof fn lemma_items_prefix(items: Seq<ItemLine>, m: int)
    requires
        0 <= m <= items.len(),
    ensures
        items_chars(items.take(m)).len() <= items_chars(items).len(),
        items_chars(items.take(m)) == items_chars(items).subrange(
            0,
            items_chars(items.take(m)).len() as int,
        ),
    decreases items.len() - m,
{
    let whole = items_chars(items);
    if m == items.len() {
        assert(items.take(m) =~= items);
        assert(whole.subrange(0, whole.len() as int) =~= whole);
    } else {
        lemma_items_prefix(items, m + 1);
        lemma_items_decompose(items, m);
        let a = items_chars(items.take(m));
        let b = items_chars(items.take(m + 1));
        assert(b == a + item_line_chars(items[m]));
        assert(a == b.subrange(0, a.len() as int)) by {
            assert(b.subrange(0, a.len() as int) =~= a);
        }
        assert(whole.subrange(0, b.len() as int).subrange(0, a.len() as int) =~= whole.subrange(
            0,
            a.len() as int,
        ));
    }
}

/// After the first `m` items of a run the machine is ready for the next
/// one, its path and its events extended exactly by those items' events.
#[verifier::rlimit(40)]
proof fn lemma_items_run(doc: Seq<char>, isz: nat, p: int, items: Seq<ItemLine>, m: int)
    requires
        isz >= 1,
        forall|k: int| 0 <= k < items.len() ==> item_text_ok(#[trigger] items[k].text),
        0 <= p,
        p + items_chars(items).len() <= doc.len(),
        doc.subrange(p, p + items_chars(items).len()) == items_chars(items),
        machine_run(doc, isz, p).mode is Skip,
        0 <= m <= items.len(),
    ensures
        ({
            let st0 = machine_run(doc, isz, p);
            let st = machine_run(doc, isz, p + items_chars(items.take(m)).len());
            &&& st.mode is Skip
            &&& st.path == st0.path
            &&& st.list_idx == st0.list_idx + m
            &&& st.events == st0.events + item_events(items, st0.path, st0.list_idx).take(m)
        }),
    decreases m,
{
    let st0 = machine_run(doc, isz, p);
    let all = item_events(items, st0.path, st0.list_idx);
    if m == 0 {
        assert(items.take(0) =~= Seq::<ItemLine>::empty());
        assert(st0.events + all.take(0) =~= st0.events);
    } else {
        lemma_items_run(doc, isz, p, items, m - 1);
        let q = p + items_chars(items.take(m - 1)).len();
        let l = items[m - 1];
        let lc = item_line_chars(l);
        let nsp = l.spaces;
        let tlen = l.text.len() as int;
        lemma_items_decompose(items, m - 1);
        lemma_items_prefix(items, m);
        lemma_items_prefix(items, m - 1);
        let sp = Seq::new(nsp, |i: int| ' ');
        let a = sp + seq!['-'];
        let b = a + l.text;
        assert(lc == b + seq!['\n']);
        assert(lc.len() == nsp + 1 + tlen + 1);
        assert forall|j: int| 0 <= j < lc.len() implies doc[q + j] == lc[j] by {
            assert(items_chars(items.take(m))[(q - p) + j] == lc[j]);
            assert(items_chars(items)[(q - p) + j] == items_chars(items.take(m))[(q - p) + j]);
            assert(doc.subrange(p, p + items_chars(items).len() as int)[(q - p) + j] == doc[q
                + j]);
        }
        assert forall|j: int| 0 <= j < nsp implies lc[j] == ' ' by {
            assert(a[j] == sp[j]);
            assert(b[j] == a[j]);
            assert(lc[j] == b[j]);
        }
        assert(lc[nsp as int] == '-') by {
            assert(a[nsp as int] == seq!['-'][0]);
            assert(b[nsp as int] == a[nsp as int]);
            assert(lc[nsp as int] == b[nsp as int]);
        }
        assert forall|j: int| 0 <= j < tlen implies lc[nsp + 1 + j] == l.text[j] by {
            assert(b[nsp + 1 + j] == l.text[j]);
            assert(lc[nsp + 1 + j] == b[nsp + 1 + j]);
        }
        assert(lc[nsp + 1 + tlen] == '\n') by {
            assert(lc[b.len() as int] == seq!['\n'][0]);
        }
        assert forall|j: int| q <= j < q + nsp implies doc[j] == ' ' by {
            assert(doc[q + (j - q)] == lc[j - q]);
        }
        assert(doc[q + nsp] == '-');
        assert forall|j: int| 0 <= j < tlen implies doc.subrange(q + nsp + 1, q + nsp + 1 + tlen)[j]
            == l.text[j] by {
            assert(doc[q + (nsp + 1 + j)] == lc[nsp + 1 + j]);
        }
        assert(doc.subrange(q + nsp + 1, q + nsp + 1 + tlen) =~= l.text);
        assert(doc[q + nsp + 1 + tlen] == '\n');
        lemma_list_item_line(doc, isz, q, nsp, l.text);
        assert(items_chars(items.take(m)).len() == items_chars(items.take(m - 1)).len()
            + lc.len());
        assert(st0.events + all.take(m) =~= (st0.events + all.take(m - 1)).push(all[m - 1]));
    }
}

/// Within one block list the ordinals are 0-based and strictly
/// increasing: a run of item lines scanned under a path emits item `i`
/// under ordinal `base + i`, where `base` is the running ordinal when the
/// run begins — `0` for a fresh list — and nothing emitted elsewhere in
/// the document can reorder or repeat them.
pub proof fn lemma_list_ordinals(doc: Seq<char>, isz: nat, p: int, items: Seq<ItemLine>)
    requires
        isz >= 1,
        forall|k: int| 0 <= k < items.len() ==> item_text_ok(#[trigger] items[k].text),
        0 <= p,
        p + items_chars(items).len() <= doc.len(),
        doc.subrange(p, p + items_chars(items).len()) == items_chars(items),
        machine_run(doc, isz, p).mode is Skip,
    ensures
        ({
            let st0 = machine_run(doc, isz, p);
            let fin = machine_run(doc, isz, p + items_chars(items).len());
            &&& fin.mode is Skip
            &&& fin.path == st0.path
            &&& fin.list_idx == st0.list_idx + items.len()
            &&& fin.events == st0.events + item_events(items, st0.path, st0.list_idx)
        }),
{
    lemma_items_run(doc, isz, p, items, items.len() as int);
    assert(items.take(items.len() as int) =~= items);
    let st0 = machine_run(doc, isz, p);
    assert(item_events(items, st0.path, st0.list_idx).take(items.len() as int) =~= item_events(
        items,
        st0.path,
        st0.list_idx,
    ));
}

/// The block state walks over its body without changing the machine's
/// state: a character that is no newline is raw content, and a newline
/// continues the block while the following line is blank or indented
/// deeper than the recorded block indentation.
proof fn lemma_multiline_walk(
    doc: Seq<char>,
    isz: nat,
    p: int,
    q: int,
    collapse: bool,
    preserve: bool,
    block_indent: nat,
)
    requires
        0 <= p <= q <= doc.len(),
        machine_run(doc, isz, p).mode == (ModeModel::Multiline {
            collapse,
            preserve,
            indent: block_indent,
        }),
        forall|j: int|
            p <= j < q ==> (doc[j] == '\n' ==> (peek_line(doc, j + 1, isz).blank || peek_line(
                doc,
                j + 1,
                isz,
            ).cols > block_indent)),
    ensures
        machine_run(doc, isz, q) == machine_run(doc, isz, p),
    decreases q - p,
{
    if p < q {
        lemma_multiline_walk(doc, isz, p, q - 1, collapse, preserve, block_indent);
    }
}

/// A whole block scalar, end to end: a value line holding exactly the
/// marker, body lines each blank or indented strictly deeper than the
/// indentation recorded at the marker, and then the first non-blank line
/// at or below that indentation. Exactly one event is emitted for the
/// block: its text spans from just after the marker line's newline to
/// just before the newline that precedes the terminating line, the
/// collapse flag is set for `>` and clear for `|`, and the preserve flag
/// is never set.
#[verifier::rlimit(40)]
pub proof fn lemma_block_scalar(doc: Seq<char>, isz: nat, i: int, e: int, collapse: bool)
    requires
        0 <= i < e < doc.len(),
        machine_run(doc, isz, i).mode is Value,
        machine_run(doc, isz, i).start as int <= i,
        trim_chars(doc.subrange(machine_run(doc, isz, i).start as int, i)) == (if collapse {
            fold_chars()
        } else {
            pipe_chars()
        }),
        doc[i] == '\n',
        forall|j: int|
            i + 1 <= j < e ==> (doc[j] == '\n' ==> (peek_line(doc, j + 1, isz).blank || peek_line(
                doc,
                j + 1,
                isz,
            ).cols > machine_run(doc, isz, i).indent)),
        doc[e] == '\n',
        !peek_line(doc, e + 1, isz).blank,
        peek_line(doc, e + 1, isz).cols <= machine_run(doc, isz, i).indent,
    ensures
        ({
            let st0 = machine_run(doc, isz, i);
            let fin = machine_run(doc, isz, e + 1);
            &&& fin.mode is Skip
            &&& fin.path == st0.path.drop_last()
            &&& fin.events == st0.events.push(
                EventModel {
                    path: st0.path,
                    value: ValueModel::Block(
                        MultilineModel {
                            text: doc.subrange(i + 1, e),
                            collapse,
                            preserve_leading_whitespace: false,
                        },
                    ),
                },
            )
        }),
{
    let st0 = machine_run(doc, isz, i);
    // The marker's newline opens the block, recording the line's
    // indentation and anchoring the text just after the newline.
    assert(pipe_chars().len() == 1);
    assert(fold_chars()[0] != pipe_chars()[0]);
    let st1 = machine_run(doc, isz, i + 1);
    assert(st1 == machine_step(doc, isz, st0, i));
    assert(st1 == (MachineModel {
        mode: ModeModel::Multiline { collapse, preserve: false, indent: st0.indent },
        start: (i + 1) as nat,
        indent: 0,
        ..st0
    }));
    // The body keeps the block open up to the terminating newline.
    lemma_multiline_walk(doc, isz, i + 1, e, collapse, false, st0.indent);
    let st2 = machine_run(doc, isz, e);
    assert(st2 == st1);
    // The terminating newline emits the block's raw text.
    let fin = machine_run(doc, isz, e + 1);
    assert(fin == machine_step(doc, isz, st2, e));
}

} // verus!
