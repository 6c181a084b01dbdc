use vstd::prelude::*;

use crate::debug_text::{append_chars, append_str};
use crate::error::SvaError;
use crate::text::{decimal, i64_decimal, signed_decimal, string_of, u64_decimal};
use crate::types::Timestamp;
use crate::wave::{hex_text, SignalValue, WaveformReader, WellenReader};

use super::explorer::{can_expand_row, refreshed, row_view, sat_sub, selected_of, ExplorerState};
use super::graph::{edges_into, node_time_of, VisibleRow};

verus! {

/// What the wave pane shows for the selected row.
#[derive(Debug)]
pub enum WaveDisplay {
    /// The selected row carries no signal at a known time.
    NoSignal,
    /// The waveform has no value for the signal at the time.
    Missing { signal: String, time: i64 },
    /// Reading the waveform failed.
    Error { signal: String, time: i64, message: String },
    /// The signal's value at the time.
    Value { signal: String, time: i64, raw_bits: String, pretty_hex: Option<String> },
}

/// The signal that a display names (empty for `NoSignal`).
pub open spec fn display_signal(d: WaveDisplay) -> Seq<char> {
    match d {
        WaveDisplay::NoSignal => Seq::empty(),
        WaveDisplay::Missing { signal, .. } => signal@,
        WaveDisplay::Error { signal, .. } => signal@,
        WaveDisplay::Value { signal, .. } => signal@,
    }
}

/// The time that a display names (zero for `NoSignal`).
pub open spec fn display_time(d: WaveDisplay) -> i64 {
    match d {
        WaveDisplay::NoSignal => 0,
        WaveDisplay::Missing { time, .. } => time,
        WaveDisplay::Error { time, .. } => time,
        WaveDisplay::Value { time, .. } => time,
    }
}

/// The text of a failed read of the data of signal `name`.
pub open spec fn not_loaded_text(name: Seq<char>) -> Seq<char> {
    "signal data not loaded for "@ + name
}

/// What the wave pane shows for a read of `signal` at `time` that gave `read`.
pub fn wave_display_of(signal: String, time: i64, read: Result<Option<SignalValue>, SvaError>) -> (r: WaveDisplay)
    requires
        read matches Err(e) ==> e is SignalDataNotLoaded,
    ensures
        match read {
            Ok(Some(v)) => r == (WaveDisplay::Value {
                signal,
                time,
                raw_bits: v.raw_bits,
                pretty_hex: v.pretty_hex,
            }),
            Ok(None) => r == (WaveDisplay::Missing { signal, time }),
            Err(e) => r matches WaveDisplay::Error { signal: s, time: t, message } && s == signal && t == time && (
            e matches SvaError::SignalDataNotLoaded(name) && message@ == not_loaded_text(name@)),
        },
{
    match read {
        Ok(Some(v)) => WaveDisplay::Value { signal, time, raw_bits: v.raw_bits, pretty_hex: v.pretty_hex },
        Ok(None) => WaveDisplay::Missing { signal, time },
        Err(SvaError::SignalDataNotLoaded(name)) => {
            let mut message = String::from_str("signal data not loaded for ");
            message.append(name.as_str());
            proof {
                reveal_strlit("signal data not loaded for ");
                assert(message@ =~= not_loaded_text(name@));
            }
            WaveDisplay::Error { signal, time, message }
        },
        Err(_) => {
            proof {
                assert(false);
            }
            WaveDisplay::NoSignal
        },
    }
}

/// What the wave pane shows for the selected row: nothing without a
/// waveform; else the selected row's signal at its node's time, read from
/// the waveform.
pub fn current_wave_display(state: &mut ExplorerState, waveform: Option<&WellenReader>) -> (r: Option<WaveDisplay>)
    ensures
        waveform is None ==> r is None && *final(state) == *old(state),
        waveform matches Some(w) ==> {
            let row = selected_of(old(state)@);
            &&& final(state)@ == refreshed(old(state)@)
            &&& r matches Some(d)
            &&& (d is NoSignal <==> (row.entry.1 is None || node_time_of(old(state)@.graph, row.entry.0) is None))
            &&& (d !is NoSignal ==> row.entry.1 == Some(display_signal(d)) && node_time_of(old(state)@.graph, row.entry.0)
                == Some(Timestamp(display_time(d))))
            &&& (d !is NoSignal && (display_time(d) < 0 || !(w.lookup().contains_key(display_signal(d)) && w.lookup()[display_signal(
                d,
            )] is Some)) ==> d is Missing)
            &&& (d matches WaveDisplay::Value { raw_bits, pretty_hex, .. } ==> match pretty_hex {
                Some(h) => hex_text(raw_bits@) == Some(h@),
                None => hex_text(raw_bits@) is None,
            })
            &&& (d matches WaveDisplay::Error { message, .. } ==> message@ == not_loaded_text(display_signal(d)))
        },
{
    let waveform = match waveform {
        Some(w) => w,
        None => {
            return None;
        },
    };
    let query = match state.selected_wave_query() {
        Some(q) => q,
        None => {
            return Some(WaveDisplay::NoSignal);
        },
    };
    let signal = query.signal.name.clone();
    let time = query.time.0;
    let read = waveform.signal_value_at(&query.signal, query.time);
    Some(wave_display_of(signal, time, read))
}

/// The first row shown in a tree pane `height` rows high, so that the
/// selected row is on screen.
pub fn tree_window_top(selected: usize, height: usize) -> (r: usize)
    ensures
        r == sat_sub(selected as nat, sat_sub(height as nat, 1)),
{
    let keep = if height >= 1 {
        height - 1
    } else {
        0
    };
    if selected >= keep {
        selected - keep
    } else {
        0
    }
}

/// How the footer describes a row: shown already elsewhere, expandable,
/// expanded, or a leaf.
pub open spec fn status_text(state: super::explorer::ExplorerView, row: super::explorer::RowView) -> Seq<char> {
    if row.already_shown {
        "already shown"@
    } else if can_expand_row(state, row) {
        "expandable"@
    } else if edges_into(state.graph.edges@, row.entry.0).len() > 0 {
        "expanded"@
    } else {
        "leaf"@
    }
}

/// How the footer describes `row` (see `status_text`).
pub fn row_status(state: &ExplorerState, row: &VisibleRow) -> (r: &'static str)
    ensures
        r@ == status_text(state@, row_view(*row)),
{
    if row.already_shown {
        "already shown"
    } else if state.can_expand(row) {
        "expandable"
    } else if state.index().has_children(&row.entry) {
        "expanded"
    } else {
        "leaf"
    }
}

/// The keys the explorer answers, as the footer lists them.
pub fn footer_help() -> (r: &'static str)
    ensures
        r@ == "q quit | r reset | Enter/Right expand | Left/Backspace collapse or parent | PgUp/PgDn code"@,
{
    "q quit | r reset | Enter/Right expand | Left/Backspace collapse or parent | PgUp/PgDn code"
}

/// The title of the code pane: the first and last line shown and how many
/// lines there are.
pub open spec fn code_title_text(scroll: nat, visible: nat, total: nat) -> Seq<char> {
    let end: nat = if scroll + visible <= total {
        scroll + visible
    } else {
        total
    };
    let last: nat = if end >= scroll + 1 {
        end
    } else {
        scroll + 1
    };
    "Code context lines "@ + decimal(scroll + 1) + "-"@ + decimal(last) + "/"@ + decimal(total)
}

/// The title of the code pane (see `code_title_text`).
pub fn code_title(scroll: usize, visible: usize, total: usize) -> (r: String)
    requires
        scroll + visible < u64::MAX,
    ensures
        r@ == code_title_text(scroll as nat, visible as nat, total as nat),
{
    let end: u64 = if (scroll as u64) + (visible as u64) <= total as u64 {
        (scroll as u64) + (visible as u64)
    } else {
        total as u64
    };
    let first: u64 = (scroll as u64) + 1;
    let last: u64 = if end >= first {
        end
    } else {
        first
    };
    let mut out: Vec<char> = Vec::new();
    append_str(&mut out, "Code context lines ");
    let a = u64_decimal(first);
    append_chars(&mut out, a.as_slice());
    append_str(&mut out, "-");
    let b = u64_decimal(last);
    append_chars(&mut out, b.as_slice());
    append_str(&mut out, "/");
    let c = u64_decimal(total as u64);
    append_chars(&mut out, c.as_slice());
    proof {
        reveal_strlit("Code context lines ");
        reveal_strlit("-");
        reveal_strlit("/");
        assert(out@ =~= code_title_text(scroll as nat, visible as nat, total as nat));
    }
    string_of(out.as_slice())
}

/// The lines of the wave pane for a display.
pub open spec fn wave_line_texts(d: WaveDisplay) -> Seq<Seq<char>> {
    match d {
        WaveDisplay::NoSignal => seq!["No selected signal for this row."@],
        WaveDisplay::Missing { signal, time } => seq![
            "signal: "@ + signal@,
            "time: "@ + signed_decimal(time as int),
            "value: <not found in VCD>"@,
        ],
        WaveDisplay::Error { signal, time, message } => seq![
            "signal: "@ + signal@,
            "time: "@ + signed_decimal(time as int),
            "error: "@ + message@,
        ],
        WaveDisplay::Value { signal, time, raw_bits, pretty_hex } => seq![
            "signal: "@ + signal@,
            "time: "@ + signed_decimal(time as int),
            "raw bits: "@ + raw_bits@,
            "hex: "@ + match pretty_hex {
                Some(h) => h@,
                None => "<not binary>"@,
            },
        ],
    }
}

/// `label` followed by `text`.
fn labelled(label: &str, text: &[char]) -> (r: String)
    ensures
        r@ == label@ + text@,
{
    let mut out: Vec<char> = Vec::new();
    append_str(&mut out, label);
    append_chars(&mut out, text);
    string_of(out.as_slice())
}

/// The lines of the wave pane (see `wave_line_texts`).
pub fn wave_lines(d: &WaveDisplay) -> (r: Vec<String>)
    ensures
        r@.len() == wave_line_texts(*d).len(),
        forall|i: int| 0 <= i < r@.len() ==> #[trigger] r@[i]@ == wave_line_texts(*d)[i],
{
    let mut out: Vec<String> = Vec::new();
    match d {
        WaveDisplay::NoSignal => {
            out.push(String::from_str("No selected signal for this row."));
        },
        WaveDisplay::Missing { signal, time } => {
            let sc = crate::text::chars_of(signal.as_str());
            out.push(labelled("signal: ", sc.as_slice()));
            let t = i64_decimal(*time);
            out.push(labelled("time: ", t.as_slice()));
            out.push(String::from_str("value: <not found in VCD>"));
        },
        WaveDisplay::Error { signal, time, message } => {
            let sc = crate::text::chars_of(signal.as_str());
            out.push(labelled("signal: ", sc.as_slice()));
            let t = i64_decimal(*time);
            out.push(labelled("time: ", t.as_slice()));
            let mc = crate::text::chars_of(message.as_str());
            out.push(labelled("error: ", mc.as_slice()));
        },
        WaveDisplay::Value { signal, time, raw_bits, pretty_hex } => {
            let sc = crate::text::chars_of(signal.as_str());
            out.push(labelled("signal: ", sc.as_slice()));
            let t = i64_decimal(*time);
            out.push(labelled("time: ", t.as_slice()));
            let rc = crate::text::chars_of(raw_bits.as_str());
            out.push(labelled("raw bits: ", rc.as_slice()));
            let hc = match pretty_hex {
                Some(h) => crate::text::chars_of(h.as_str()),
                None => crate::text::chars_of("<not binary>"),
            };
            out.push(labelled("hex: ", hc.as_slice()));
        },
    }
    proof {
        assert(out@.len() == wave_line_texts(*d).len());
    }
    out
}

} // verus!
