//! The executable scanner: a single left-to-right pass over the input,
//! proved to emit exactly the event sequence of [`crate::model::scan_model`].

use vstd::prelude::*;

use crate::data::{
    events_model, keys_model, EventModel, KeyModel, MultilineString, ParseOptions, RootYAMLValue,
    ScanEvent, YAMLKey, YAMLParseError,
};
use crate::model::{
    classify_scalar, fold_chars, is_ws, lemma_trim_end_shift, lemma_trim_start_shift, machine_run,
    machine_step, named_count, peek_line, pipe_chars, scan_model, trim_chars, trim_end,
    trim_start, ModeModel,
};

verus! {

/// Whether `c` is Unicode whitespace, decided executably.
fn ws_char(c: char) -> (r: bool)
    ensures
        r == is_ws(c),
{
    let u = c as u32;
    u == 0x09 || u == 0x0A || u == 0x0B || u == 0x0C || u == 0x0D || u == 0x20 || u == 0x85
        || u == 0xA0 || u == 0x1680 || (0x2000 <= u && u <= 0x200A) || u == 0x2028 || u == 0x2029
        || u == 0x202F || u == 0x205F || u == 0x3000
}

/// Narrow `[b0, e0)` to the subrange left after trimming whitespace from
/// both ends: the returned bounds slice out exactly the trimmed text.
fn trim_range(on: &str, b0: usize, e0: usize) -> (r: (usize, usize))
    requires
        b0 <= e0 <= on@.len(),
    ensures
        b0 <= r.0 <= r.1 <= e0,
        on@.subrange(r.0 as int, r.1 as int) == trim_chars(on@.subrange(b0 as int, e0 as int)),
{
    let mut b: usize = b0;
    while b < e0 && ws_char(on.get_char(b))
        invariant
            b0 <= b <= e0 <= on@.len(),
            forall|k: int| b0 <= k < b ==> is_ws(on@[k]),
        decreases e0 - b,
    {
        b = b + 1;
    }
    let mut e: usize = e0;
    while e > b && ws_char(on.get_char(e - 1))
        invariant
            b0 <= b <= e <= e0 <= on@.len(),
            forall|k: int| e <= k < e0 ==> is_ws(on@[k]),
        decreases e,
    {
        e = e - 1;
    }
    proof {
        lemma_trim_start_shift(on@, b0 as int, b as int, e0 as int);
        let tail = on@.subrange(b as int, e0 as int);
        if b < e0 {
            assert(!is_ws(tail[0]));
        }
        assert(trim_start(tail) == tail);
        lemma_trim_end_shift(on@, b as int, e as int, e0 as int);
        let kept = on@.subrange(b as int, e as int);
        if e > b {
            assert(!is_ws(kept[kept.len() - 1]));
        }
        assert(trim_end(kept) == kept);
    }
    (b, e)
}

/// Whether the characters in `[b, e)` of `on` spell exactly `w`.
fn range_is(on: &str, b: usize, e: usize, w: &[char]) -> (r: bool)
    requires
        b <= e <= on@.len(),
    ensures
        r == (on@.subrange(b as int, e as int) == w@),
{
    if e - b != w.len() {
        proof {
            assert(on@.subrange(b as int, e as int).len() != w@.len());
        }
        return false;
    }
    let mut k: usize = 0;
    while k < w.len()
        invariant
            b <= e <= on@.len(),
            e - b == w.len(),
            k <= w.len(),
            forall|j: int| 0 <= j < k ==> on@[b + j] == w@[j],
        decreases w.len() - k,
    {
        if on.get_char(b + k) != w[k] {
            proof {
                assert(on@.subrange(b as int, e as int)[k as int] != w@[k as int]);
            }
            return false;
        }
        k = k + 1;
    }
    proof {
        assert(on@.subrange(b as int, e as int) =~= w@);
    }
    true
}

/// The leaf value a completed scalar token stands for: the slice `[b, e)`
/// must already be trimmed; `true` and `false` become the boolean values
/// and everything else is a borrowed plain string.
fn classify_range<'a>(on: &'a str, b: usize, e: usize) -> (r: RootYAMLValue<'a>)
    requires
        b <= e <= on@.len(),
    ensures
        r@ == classify_scalar(on@.subrange(b as int, e as int)),
{
    if range_is(on, b, e, &['t', 'r', 'u', 'e']) {
        RootYAMLValue::True
    } else if range_is(on, b, e, &['f', 'a', 'l', 's', 'e']) {
        RootYAMLValue::False
    } else {
        RootYAMLValue::String(on.substring_char(b, e))
    }
}

/// Inspect the line starting at position `j0`: weigh its leading tabs and
/// spaces in columns and report whether it is blank, exactly as
/// `peek_line` describes. A tab weighs `isz` columns, a space one.
fn peek_exec(on: &str, j0: usize, n: usize, isz: usize) -> (r: (usize, bool))
    requires
        j0 <= n == on@.len(),
        isz >= 1,
        n as int * isz as int <= usize::MAX,
    ensures
        r.0 == peek_line(on@, j0 as int, isz as nat).cols,
        r.1 == peek_line(on@, j0 as int, isz as nat).blank,
{
    let ghost target = peek_line(on@, j0 as int, isz as nat);
    let mut j: usize = j0;
    let mut cnt: usize = 0;
    while j < n
        invariant
            j0 <= j <= n == on@.len(),
            isz >= 1,
            n as int * isz as int <= usize::MAX,
            target == peek_line(on@, j0 as int, isz as nat),
            peek_line(on@, j as int, isz as nat).blank == target.blank,
            cnt + peek_line(on@, j as int, isz as nat).cols == target.cols,
            cnt as int <= (j - j0) as int * isz as int,
        decreases n - j,
    {
        let c = on.get_char(j);
        if c == '\n' {
            return (cnt, true);
        } else if c == '\t' {
            proof {
                lemma_indent_budget((j - j0) as int, n as int, isz as int);
            }
            cnt = cnt + isz;
            j = j + 1;
        } else if c == ' ' {
            proof {
                lemma_indent_budget((j - j0) as int, n as int, isz as int);
            }
            cnt = cnt + 1;
            j = j + 1;
        } else {
            return (cnt, false);
        }
    }
    (cnt, false)
}

/// How many `Slice` keys the chain currently holds.
fn count_named_keys(chain: &Vec<YAMLKey>) -> (r: usize)
    ensures
        r == named_count(keys_model(chain@)),
{
    let m = Ghost(keys_model(chain@));
    let mut cnt: usize = 0;
    let mut k: usize = 0;
    while k < chain.len()
        invariant
            k <= chain.len(),
            m@ == keys_model(chain@),
            m@.len() == chain.len(),
            cnt == named_count(m@.take(k as int)),
            cnt <= k,
        decreases chain.len() - k,
    {
        proof {
            assert(m@.take(k as int + 1).drop_last() =~= m@.take(k as int));
            assert(m@.take(k as int + 1).last() == m@[k as int]);
        }
        if let YAMLKey::Slice(_) = chain[k] {
            cnt = cnt + 1;
        }
        k = k + 1;
    }
    proof {
        assert(m@.take(chain.len() as int) =~= m@);
    }
    cnt
}

/// Mapping a key chain to its model commutes with pushing one key.
proof fn lemma_keys_push<'a>(s: Seq<YAMLKey<'a>>, k: YAMLKey<'a>)
    ensures
        keys_model(s.push(k)) == keys_model(s).push(k@),
{
    assert(keys_model(s.push(k)) =~= keys_model(s).push(k@));
}

/// Mapping a key chain to its model commutes with keeping a prefix.
proof fn lemma_keys_take<'a>(s: Seq<YAMLKey<'a>>, l: int)
    requires
        0 <= l <= s.len(),
    ensures
        keys_model(s.subrange(0, l)) == keys_model(s).take(l),
{
    assert(keys_model(s.subrange(0, l)) =~= keys_model(s).take(l));
}

/// Mapping a key chain to its model commutes with dropping the last key.
proof fn lemma_keys_drop_last<'a>(s: Seq<YAMLKey<'a>>)
    requires
        s.len() > 0,
    ensures
        keys_model(s.drop_last()) == keys_model(s).drop_last(),
{
    assert(keys_model(s.drop_last()) =~= keys_model(s).drop_last());
}

/// Mapping an event list to its model commutes with appending one event.
proof fn lemma_events_push<'a>(s: Seq<ScanEvent<'a>>, e: ScanEvent<'a>)
    ensures
        events_model(s.push(e)) == events_model(s).push(e@),
{
    assert(events_model(s.push(e)) =~= events_model(s).push(e@));
}

/// A key-path never holds more `Named` elements than elements.
proof fn lemma_named_count_le(s: Seq<KeyModel>)
    ensures
        named_count(s) <= s.len(),
    decreases s.len(),
{
    if s.len() > 0 {
        lemma_named_count_le(s.drop_last());
    }
}

/// The indentation budget: one more character can add at most `isz` more
/// columns without leaving `n * isz`.
proof fn lemma_indent_budget(i: int, n: int, isz: int)
    requires
        0 <= i < n,
        1 <= isz,
    ensures
        (i + 1) * isz == i * isz + isz,
        (i + 1) * isz <= n * isz,
{
    assert((i + 1) * isz == i * isz + isz) by (nonlinear_arith);
    assert((i + 1) * isz <= n * isz) by (nonlinear_arith)
        requires
            0 <= i < n && 1 <= isz,
    ;
}

/// A fresh copy of the key chain, element for element, handed out with each
/// event so the reusable internal stack never escapes.
fn copy_keys<'a>(chain: &Vec<YAMLKey<'a>>) -> (r: Vec<YAMLKey<'a>>)
    ensures
        r@ == chain@,
{
    let mut out: Vec<YAMLKey<'a>> = Vec::new();
    let mut k: usize = 0;
    while k < chain.len()
        invariant
            k <= chain.len(),
            out@ == chain@.take(k as int),
        decreases chain.len() - k,
    {
        out.push(chain[k]);
        proof {
            assert(chain@.take(k as int).push(chain@[k as int]) =~= chain@.take(k as int + 1));
        }
        k = k + 1;
    }
    proof {
        assert(chain@.take(chain.len() as int) =~= chain@);
    }
    out
}

/// The scanner's control state, mirroring [`ModeModel`].
#[derive(Clone, Copy)]
enum Mode {
    Identifier,
    Value,
    ListItem,
    Multiline { collapse: bool, preserve: bool, indent: usize },
    Skip,
}

impl View for Mode {
    type V = ModeModel;

    closed spec fn view(&self) -> ModeModel {
        match self {
            Mode::Identifier => ModeModel::Identifier,
            Mode::Value => ModeModel::Value,
            Mode::ListItem => ModeModel::ListItem,
            Mode::Multiline { collapse, preserve, indent } => ModeModel::Multiline {
                collapse: *collapse,
                preserve: *preserve,
                indent: *indent as nat,
            },
            Mode::Skip => ModeModel::Skip,
        }
    }
}

/// Every list ordinal stored in the chain was assigned at or before
/// character `i`.
spec fn key_bound<'a>(k: YAMLKey<'a>, i: int) -> bool {
    match k {
        YAMLKey::Index(j) => j <= i,
        YAMLKey::Slice(_) => true,
    }
}

/// Scan `on` once and collect every emitted event, in document order.
///
/// The result is exactly the event sequence that the specification state
/// machine assigns to the input: `events_model(r@)` equals
/// `scan_model(on@, options.indent_size)`. Both callback entry points are
/// built on this function.
///
/// A value still in flight when the input ends without a newline is not
/// emitted: a value completes only at its terminating newline.
pub fn scan_events<'a>(on: &'a str, options: &ParseOptions) -> (r: Vec<ScanEvent<'a>>)
    requires
        options.indent_size >= 1,
        on@.len() * options.indent_size <= usize::MAX,
    ensures
        events_model(r@) == scan_model(on@, options.indent_size as nat),
{
    let isz = options.indent_size;
    let ghost iszn: nat = isz as nat;
    let n = on.unicode_len();
    let mut mode = Mode::Identifier;
    let mut chain: Vec<YAMLKey<'a>> = Vec::new();
    let mut list_idx: usize = 0;
    let mut indent: usize = 0;
    let mut start: usize = 0;
    let mut out: Vec<ScanEvent<'a>> = Vec::new();
    let mut i: usize = 0;
    while i < n
        invariant
            n == on@.len(),
            isz == options.indent_size,
            isz >= 1,
            iszn == isz as nat,
            n as int * isz as int <= usize::MAX,
            i <= n,
            ({
                let st = machine_run(on@, iszn, i as int);
                &&& mode@ == st.mode
                &&& keys_model(chain@) == st.path
                &&& list_idx as nat == st.list_idx
                &&& indent as nat == st.indent
                &&& start as nat == st.start
                &&& events_model(out@) == st.events
            }),
            start <= i,
            indent as int <= i as int * isz as int,
            list_idx <= i,
            forall|k: int| 0 <= k < chain@.len() ==> key_bound(#[trigger] chain@[k], i as int),
            (mode is Value || mode is Multiline) ==> chain@.len() > 0,
        decreases n - i,
    {
        let c = on.get_char(i);
        let ghost st = machine_run(on@, iszn, i as int);
        proof {
            assert(machine_run(on@, iszn, i as int + 1) == machine_step(on@, iszn, st, i as int));
            assert(keys_model(chain@).len() == chain@.len());
            lemma_indent_budget(i as int, n as int, isz as int);
        }
        match mode {
            Mode::Value => {
                let (tb, te) = trim_range(on, start, i);
                proof {
                    assert(on@.subrange(tb as int, te as int).len() == te - tb);
                }
                if tb == te && c == '-' {
                    mode = Mode::ListItem;
                    start = i + 1;
                } else if c == '\n' {
                    let w_pipe = &['|'];
                    let w_fold = &['>'];
                    proof {
                        assert(w_pipe@ =~= pipe_chars());
                        assert(w_fold@ =~= fold_chars());
                    }
                    if tb == te {
                        mode = Mode::Skip;
                        indent = 0;
                    } else if range_is(on, tb, te, w_pipe) {
                        mode = Mode::Multiline { collapse: false, preserve: false, indent };
                        start = i + 1;
                        indent = 0;
                    } else if range_is(on, tb, te, w_fold) {
                        mode = Mode::Multiline { collapse: true, preserve: false, indent };
                        start = i + 1;
                        indent = 0;
                    } else {
                        let value = classify_range(on, tb, te);
                        let path = copy_keys(&chain);
                        let ev = ScanEvent { path, value };
                        proof {
                            lemma_events_push(out@, ev);
                            lemma_keys_drop_last(chain@);
                        }
                        out.push(ev);
                        chain.pop();
                        mode = Mode::Skip;
                        indent = 0;
                    }
                }
            }
            Mode::Multiline { collapse, preserve, indent: block_indent } => {
                if c == '\n' {
                    let (cols, blank) = peek_exec(on, i + 1, n, isz);
                    if !blank && cols <= block_indent {
                        let text = on.substring_char(start, i);
                        let value = RootYAMLValue::MultilineString(
                            MultilineString {
                                on: text,
                                collapse,
                                preserve_leading_whitespace: preserve,
                            },
                        );
                        let path = copy_keys(&chain);
                        let ev = ScanEvent { path, value };
                        proof {
                            lemma_events_push(out@, ev);
                            lemma_keys_drop_last(chain@);
                        }
                        out.push(ev);
                        chain.pop();
                        mode = Mode::Skip;
                        indent = 0;
                    }
                }
            }
            Mode::Identifier => {
                if c == ':' {
                    let (tb, te) = trim_range(on, start, i);
                    let key = YAMLKey::Slice(on.substring_char(tb, te));
                    let level = indent / isz;
                    let named = count_named_keys(&chain);
                    proof {
                        lemma_named_count_le(keys_model(chain@));
                    }
                    if level < named {
                        let ghost before = chain@;
                        chain.truncate(level);
                        proof {
                            lemma_keys_take(before, level as int);
                        }
                        if chain.len() > 0 {
                            if let YAMLKey::Index(j) = chain[chain.len() - 1] {
                                list_idx = j;
                            } else {
                                list_idx = 0;
                            }
                        } else {
                            list_idx = 0;
                        }
                    }
                    proof {
                        lemma_keys_push(chain@, key);
                    }
                    chain.push(key);
                    mode = Mode::Value;
                    start = i + 1;
                }
            }
            Mode::ListItem => {
                if c == ':' {
                    let level = indent / isz;
                    if level < chain.len() {
                        let ghost before = chain@;
                        chain.truncate(level + 1);
                        proof {
                            lemma_keys_take(before, level as int + 1);
                        }
                    }
                    proof {
                        lemma_keys_push(chain@, YAMLKey::Index(list_idx));
                    }
                    chain.push(YAMLKey::Index(list_idx));
                    let (tb, te) = trim_range(on, start, i);
                    let key = YAMLKey::Slice(on.substring_char(tb, te));
                    proof {
                        lemma_keys_push(chain@, key);
                    }
                    chain.push(key);
                    mode = Mode::Value;
                    start = i + 1;
                    list_idx = list_idx + 1;
                } else if c == '\n' {
                    let ghost before = chain@;
                    proof {
                        lemma_keys_push(chain@, YAMLKey::Index(list_idx));
                    }
                    chain.push(YAMLKey::Index(list_idx));
                    let (tb, te) = trim_range(on, start, i);
                    let value = classify_range(on, tb, te);
                    let path = copy_keys(&chain);
                    let ev = ScanEvent { path, value };
                    proof {
                        lemma_events_push(out@, ev);
                        assert(chain@.drop_last() =~= before);
                    }
                    out.push(ev);
                    chain.pop();
                    list_idx = list_idx + 1;
                    mode = Mode::Skip;
                    indent = 0;
                }
            }
            Mode::Skip => {
                if c == '-' {
                    mode = Mode::ListItem;
                    start = i + 1;
                } else if c == '\t' {
                    indent = indent + isz;
                } else if c == ' ' {
                    indent = indent + 1;
                } else if !ws_char(c) {
                    mode = Mode::Identifier;
                    start = i;
                }
            }
        }
        i = i + 1;
    }
    out
}

/// Scan `on` and hand each event to `cb` together with the key-path that
/// locates it; `cb`'s result is the early-stop signal. When `cb` returns
/// `true` after an event, no further event is delivered and the scan
/// reports success at once.
///
/// The contract ties the callback to the proved event sequence: there is a
/// prefix of `scan_model(on@, options.indent_size)` — the whole sequence,
/// or one ending at the stop signal — each of whose events was handed to
/// `cb`, in order, as [`delivered_prefix`] states.
///
/// The scanner keeps the lenient grammar: no input is rejected, so the
/// result is always `Ok`. The `YAMLParseError` vocabulary is declared for
/// stricter callers.
pub fn parse_with_exit_signal<'a, F: FnMut(&[YAMLKey<'a>], RootYAMLValue<'a>) -> bool>(
    on: &'a str,
    cb: F,
    options: &ParseOptions,
) -> (r: Result<(), YAMLParseError>)
    requires
        options.indent_size >= 1,
        on@.len() * options.indent_size <= usize::MAX,
        forall|args: (&[YAMLKey<'a>], RootYAMLValue<'a>)| call_requires(cb, args),
    ensures
        r is Ok,
        exists|k: int, outs: Seq<bool>|
            delivered_prefix(cb, scan_model(on@, options.indent_size as nat), k, outs),
{
    let ghost evs = scan_model(on@, options.indent_size as nat);
    let mut cb = cb;
    let ghost cb0 = cb;
    let events = scan_events(on, options);
    let ghost mut outs: Seq<bool> = Seq::empty();
    let mut idx: usize = 0;
    let mut stopped = false;
    while idx < events.len() && !stopped
        invariant
            cb == cb0,
            forall|args: (&[YAMLKey<'a>], RootYAMLValue<'a>)| call_requires(cb, args),
            events_model(events@) == evs,
            idx <= events.len(),
            outs.len() == idx,
            forall|j: int| #![trigger evs[j]] 0 <= j < idx ==> event_handed(cb, evs[j], outs[j]),
            forall|j: int| 0 <= j < idx - 1 ==> outs[j] == false,
            stopped ==> idx > 0 && outs[idx - 1] == true,
            !stopped ==> (forall|j: int| 0 <= j < idx ==> outs[j] == false),
        decreases events.len() - idx,
    {
        let ev = &events[idx];
        let ps = ev.path.as_slice();
        let val = ev.value;
        let stop = cb(ps, val);
        proof {
            outs = outs.push(stop);
            assert(ev@ == evs[idx as int]);
            assert(call_ensures(cb, (ps, val), outs[idx as int]));
            assert(event_handed(cb, evs[idx as int], outs[idx as int]));
        }
        stopped = stop;
        idx = idx + 1;
    }
    proof {
        if stopped {
            assert(delivered_prefix(cb, evs, idx as int, outs));
        } else {
            assert(delivered_prefix(cb, evs, evs.len() as int, outs));
        }
    }
    Ok(())
}

/// Scan `on` to completion with the default configuration, handing every
/// event to `cb`. The callback cannot stop the scan; to return early use
/// [`parse_with_exit_signal`].
///
/// The contract ties the callback to the proved event sequence: every
/// event of `scan_model(on@, 2)` was handed to `cb`, in document order, as
/// [`delivered_all`] states. The lenient grammar rejects no input, so the
/// result is always `Ok`.
pub fn parse<'a, F: FnMut(&[YAMLKey<'a>], RootYAMLValue<'a>)>(
    on: &'a str,
    cb: F,
) -> (r: Result<(), YAMLParseError>)
    requires
        on@.len() * 2 <= usize::MAX,
        forall|args: (&[YAMLKey<'a>], RootYAMLValue<'a>)| call_requires(cb, args),
    ensures
        r is Ok,
        delivered_all(cb, scan_model(on@, 2)),
{
    let ghost evs = scan_model(on@, 2);
    let mut cb = cb;
    let ghost cb0 = cb;
    let options = ParseOptions { indent_size: 2 };
    let events = scan_events(on, &options);
    let mut idx: usize = 0;
    while idx < events.len()
        invariant
            cb == cb0,
            forall|args: (&[YAMLKey<'a>], RootYAMLValue<'a>)| call_requires(cb, args),
            events_model(events@) == evs,
            idx <= events.len(),
            forall|j: int| #![trigger evs[j]] 0 <= j < idx ==> event_handed(cb, evs[j], ()),
        decreases events.len() - idx,
    {
        let ev = &events[idx];
        let ps = ev.path.as_slice();
        let val = ev.value;
        cb(ps, val);
        proof {
            assert(ev@ == evs[idx as int]);
            assert(call_ensures(cb, (ps, val), ()));
            assert(event_handed(cb, evs[idx as int], ()));
        }
        idx = idx + 1;
    }
    proof {
        assert(delivered_all(cb, evs));
    }
    Ok(())
}

/// The callback can account for event `ev` with result `out`: a call of
/// `cb` on a key-path slice and a value whose views are exactly `ev`'s
/// path and value may return `out` (`call_ensures` is the set of the
/// callback's possible argument-result pairs, so every actual call leaves
/// such a fact behind).
pub open spec fn event_handed<'a, O, F: FnMut(&[YAMLKey<'a>], RootYAMLValue<'a>) -> O>(
    cb: F,
    ev: EventModel,
    out: O,
) -> bool {
    exists|p: &[YAMLKey<'a>], v: RootYAMLValue<'a>|
        keys_model(p@) == ev.path && v@ == ev.value && #[trigger] call_ensures(cb, (p, v), out)
}

/// What a cancellable scan delivers: the first `k` events of `evs` were
/// each handed to `cb`, in order, the `j`-th call returning `outs[j]`;
/// every result before the last was `false` (the scan went on); and the
/// prefix is the whole sequence unless the last result was `true` — the
/// stop signal, after which no further event is delivered.
pub open spec fn delivered_prefix<'a, F: FnMut(&[YAMLKey<'a>], RootYAMLValue<'a>) -> bool>(
    cb: F,
    evs: Seq<EventModel>,
    k: int,
    outs: Seq<bool>,
) -> bool {
    &&& 0 <= k <= evs.len()
    &&& outs.len() == k
    &&& (forall|j: int| #![trigger evs[j]] 0 <= j < k ==> event_handed(cb, evs[j], outs[j]))
    &&& (forall|j: int| 0 <= j < k - 1 ==> outs[j] == false)
    &&& (k == evs.len() || (k > 0 && outs[k - 1] == true))
}

/// What a full scan delivers: every event of `evs` was handed to `cb`, in
/// document order.
pub open spec fn delivered_all<'a, F: FnMut(&[YAMLKey<'a>], RootYAMLValue<'a>)>(
    cb: F,
    evs: Seq<EventModel>,
) -> bool {
    forall|j: int| #![trigger evs[j]] 0 <= j < evs.len() ==> event_handed(cb, evs[j], ())
}

} // verus!
