use vstd::prelude::*;

use wellen::simple::Waveform;
use wellen::{Signal, SignalRef};

use crate::error::SvaError;
use crate::name_map::NameMap;
use crate::types::{SignalNode, StableSliceGraphJson, Timestamp};
use crate::wave::{
    apply_scope_remap, build_scope_remap, build_signal_lookup, hex_text, pretty_hex, remap_scope_in,
    remap_scope_spec, remap_signal_in, remap_signal_spec, remapped_graph, remapped_name, remapped_scope, scope_remap_spec,
    signal_lookup_spec, string_views, text_map, time_index, var_views, SignalValue, WaveformReader,
};

verus! {

#[verifier::external_type_specification]
#[verifier::external_body]
pub struct ExWaveform(wellen::simple::Waveform);

#[verifier::external_type_specification]
#[verifier::external_body]
pub struct ExSignalRef(wellen::SignalRef);

#[verifier::external_type_specification]
#[verifier::external_body]
pub struct ExSignal(wellen::Signal);

/// The full dotted name and the signal of each variable of the waveform's
/// hierarchy, depth first (wellen's `Hierarchy::all_vars`, `Var::full_name`
/// and `Var::signal_ref`). Nothing is claimed of them: they are what the file
/// holds.
#[verifier::external_body]
fn var_names_and_signals(w: &Waveform) -> Vec<(String, SignalRef)> {
    let h = w.hierarchy();
    h.all_vars().map(|v| (h[v].full_name(h), h[v].signal_ref())).collect()
}

/// The full dotted name of each scope of the waveform's hierarchy, depth
/// first (wellen's `Hierarchy::all_scopes` and `Scope::full_name`). Nothing
/// is claimed of them.
#[verifier::external_body]
fn scope_names(w: &Waveform) -> Vec<String> {
    let h = w.hierarchy();
    h.all_scopes().map(|s| h[s].full_name(h)).collect()
}

/// The loaded data of a signal (wellen's `Waveform::get_signal`); none when
/// its data has not been loaded.
#[verifier::external_body]
fn waveform_signal(w: &Waveform, r: SignalRef) -> Option<&Signal> {
    w.get_signal(r)
}

/// The bits of a signal's value at time-table position `time_idx`: wellen's
/// `Signal::get_offset` (none before the signal's first change), then
/// `Signal::get_value_at` at the first value of that offset and
/// `SignalValueRef::to_bit_string` (none for an event, a string or a real).
/// The offset's type is private to wellen, so the calls stand together.
/// Nothing is claimed of the bits: they are what the file holds.
#[verifier::external_body]
fn signal_bits_at(s: &Signal, time_idx: u32) -> Option<Option<String>> {
    match s.get_offset(time_idx) {
        Some(offset) => Some(s.get_value_at(&offset, 0).to_bit_string()),
        None => None,
    }
}

/// The number of a signal (wellen's `SignalRef::index`); two signals are the
/// same exactly when their numbers are, which is not stated here.
#[verifier::external_body]
fn signal_ref_index(r: &SignalRef) -> usize {
    r.index()
}

/// Loads the data of the signals of all the waveform's variables (wellen's
/// `Hierarchy::all_vars`, `Var::signal_ref` and `Waveform::load_signals`).
#[verifier::external_body]
fn load_var_signals(w: &mut Waveform) {
    let refs: Vec<SignalRef> = w.hierarchy().all_vars().map(|v| w.hierarchy()[v].signal_ref()).collect();
    w.load_signals(refs.as_slice());
}

/// The times of the waveform's value changes (wellen's `Waveform::time_table`).
#[verifier::external_body]
fn wave_time_table(w: &Waveform) -> Vec<u64> {
    w.time_table().to_vec()
}

/// What a waveform gives for a signal at a position of its time table.
pub enum WaveBits {
    /// The signal's data is not loaded.
    NotLoaded,
    /// The signal has no value at that time.
    NoValue,
    /// The signal's value as bits: none for an event, a string or a real.
    Bits(Option<String>),
}

/// The value of signal `r` at time-table position `time_idx`: its bits, or
/// what keeps it from having any.
fn signal_bits(w: &Waveform, r: SignalRef, time_idx: u32) -> WaveBits {
    match waveform_signal(w, r) {
        None => WaveBits::NotLoaded,
        Some(signal) => match signal_bits_at(signal, time_idx) {
            None => WaveBits::NoValue,
            Some(bits) => WaveBits::Bits(bits),
        },
    }
}

/// Reads signal values from a waveform, by full name or by a name without
/// its top scope when that is unambiguous.
pub struct WellenReader {
    waveform: Waveform,
    var_refs: Vec<SignalRef>,
    var_indices: Vec<usize>,
    signal_lookup: NameMap<Option<usize>>,
    time_table: Vec<u64>,
    scope_remap: NameMap<String>,
}

impl WellenReader {
    /// The signal each known name stands for (none when ambiguous).
    pub closed spec fn lookup(&self) -> Map<Seq<char>, Option<usize>> {
        self.signal_lookup.map()
    }

    /// The full scope path of each logical scope.
    pub closed spec fn remap(&self) -> Map<Seq<char>, Seq<char>> {
        text_map(self.scope_remap.map())
    }

    /// A reader over a waveform that has been read: it indexes the signal
    /// names and the scopes, and loads the data of the signals of all its
    /// variables.
    pub fn from_waveform(waveform: Waveform) -> (r: Self)
        ensures
            exists|vars: Seq<(Seq<char>, usize)>| r.lookup() == signal_lookup_spec(vars),
            exists|scopes: Seq<Seq<char>>| r.remap() == scope_remap_spec(scopes),
    {
        let vars = var_names_and_signals(&waveform);
        WellenReader::from_variables(waveform, vars)
    }

    /// A reader over a waveform whose variables are `vars` (full name and
    /// signal, in hierarchy order): every variable's full name is a known
    /// name, and the lookup is that of the variables' names with their
    /// signals' numbers.
    pub fn from_variables(waveform: Waveform, vars: Vec<(String, SignalRef)>) -> (r: Self)
        ensures
            forall|i: int| 0 <= i < vars@.len() ==> r.lookup().contains_key(#[trigger] vars@[i].0@),
            exists|vs: Seq<(Seq<char>, usize)>|
                #![trigger signal_lookup_spec(vs)]
                vs.len() == vars@.len() && (forall|i: int| 0 <= i < vs.len() ==> #[trigger] vs[i].0 == vars@[i].0@)
                    && r.lookup() == signal_lookup_spec(vs),
            exists|scopes: Seq<Seq<char>>| r.remap() == scope_remap_spec(scopes),
    {
        let mut waveform = waveform;
        let mut named: Vec<(String, usize)> = Vec::new();
        let mut var_refs: Vec<SignalRef> = Vec::new();
        let mut var_indices: Vec<usize> = Vec::new();
        let mut i: usize = 0;
        while i < vars.len()
            invariant
                i <= vars@.len(),
                var_refs@.len() == var_indices@.len(),
                named@.len() == i,
                forall|j: int| 0 <= j < i ==> #[trigger] named@[j].0@ == vars@[j].0@,
            decreases vars@.len() - i,
        {
            let idx = signal_ref_index(&vars[i].1);
            named.push((vars[i].0.clone(), idx));
            var_refs.push(vars[i].1);
            var_indices.push(idx);
            i = i + 1;
        }
        let signal_lookup = build_signal_lookup(&named);
        load_var_signals(&mut waveform);
        let time_table = wave_time_table(&waveform);
        let scopes = scope_names(&waveform);
        let scope_remap = build_scope_remap(&scopes);
        let r = WellenReader { waveform, var_refs, var_indices, signal_lookup, time_table, scope_remap };
        proof {
            let vv = var_views(named@);
            assert(r.lookup() == signal_lookup_spec(vv));
            assert(r.remap() == scope_remap_spec(string_views(scopes@)));
            assert forall|i: int| 0 <= i < vv.len() implies #[trigger] vv[i].0 == vars@[i].0@ by {
                assert(named@[i].0@ == vars@[i].0@);
            }
            assert forall|i: int| 0 <= i < vars@.len() implies r.lookup().contains_key(#[trigger] vars@[i].0@) by {
                lemma_lookup_knows_every_variable(vv, i);
            }
        }
        r
    }

    /// The known signal names, each once.
    pub fn signal_names(&self) -> (r: Vec<String>)
        ensures
            forall|k: Seq<char>| self.lookup().contains_key(k) <==> exists|i: int| 0 <= i < r@.len() && #[trigger] r@[i]@ == k,
    {
        self.signal_lookup.keys()
    }

    /// Maps a logical scope (generate-block wrappers left out) to the
    /// waveform's scope path; none for an empty scope or one the waveform
    /// does not have.
    pub fn remap_scope(&self, logical: &str) -> (r: Option<&str>)
        ensures
            match r {
                Some(f) => remap_scope_spec(self.remap(), logical@) == Some(f@),
                None => remap_scope_spec(self.remap(), logical@) is None,
            },
    {
        remap_scope_in(&self.scope_remap, logical)
    }

    /// Maps a logical signal name to the waveform's name, when its scope maps
    /// to a different path; none otherwise.
    pub fn remap_signal(&self, logical_signal: &str) -> (r: Option<String>)
        ensures
            match r {
                Some(s) => remap_signal_spec(self.remap(), logical_signal@) == Some(s@),
                None => remap_signal_spec(self.remap(), logical_signal@) is None,
            },
    {
        remap_signal_in(&self.scope_remap, logical_signal)
    }
}

/// Every variable's full name is a known name of the lookup built from the
/// variables, whatever the variables after it.
pub proof fn lemma_lookup_knows_every_variable(vars: Seq<(Seq<char>, usize)>, i: int)
    requires
        0 <= i < vars.len(),
    ensures
        signal_lookup_spec(vars).contains_key(vars[i].0),
    decreases vars.len(),
{
    if i < vars.len() - 1 {
        lemma_lookup_knows_every_variable(vars.drop_last(), i);
        assert(vars.drop_last()[i] == vars[i]);
    }
}

/// Position of `idx` in `v`.
fn position_of(v: &Vec<usize>, idx: usize) -> (r: Option<usize>)
    ensures
        match r {
            Some(p) => p < v@.len() && v@[p as int] == idx,
            None => !v@.contains(idx),
        },
{
    let mut i: usize = 0;
    while i < v.len()
        invariant
            i <= v@.len(),
            forall|j: int| 0 <= j < i ==> v@[j] != idx,
        decreases v@.len() - i,
    {
        if v[i] == idx {
            return Some(i);
        }
        i = i + 1;
    }
    None
}

/// Rewrites a stable slice graph to the reader's waveform scope paths (see
/// `apply_scope_remap`).
pub fn apply_scope_remap_to_graph(reader: &WellenReader, graph: &mut StableSliceGraphJson)
    ensures
        remapped_graph(reader.remap(), *old(graph), *final(graph)),
{
    apply_scope_remap(&reader.scope_remap, graph);
}

impl WaveformReader for WellenReader {
    /// The value of `signal` at `time`: the value of the last change at or
    /// before `time`; none before time 0, for an unknown or ambiguous name,
    /// before the first change, or for a value that is not bits.
    fn signal_value_at(&self, signal: &SignalNode, time: Timestamp) -> (r: Result<Option<SignalValue>, SvaError>)
        ensures
            time.0 < 0 ==> r == Ok::<Option<SignalValue>, SvaError>(None),
            !(self.lookup().contains_key(signal.name@) && self.lookup()[signal.name@] is Some) ==> r
                == Ok::<Option<SignalValue>, SvaError>(None),
            r matches Ok(Some(v)) ==> match v.pretty_hex {
                Some(h) => hex_text(v.raw_bits@) == Some(h@),
                None => hex_text(v.raw_bits@) is None,
            },
            r matches Err(e) ==> e matches SvaError::SignalDataNotLoaded(name) && name@ == signal.name@,
    {
        if time.0 < 0 {
            return Ok(None);
        }
        let idx = match self.signal_lookup.get(signal.as_str()) {
            Some(Some(idx)) => *idx,
            _ => {
                return Ok(None);
            },
        };
        let p = match position_of(&self.var_indices, idx) {
            Some(p) => p,
            None => {
                return Ok(None);
            },
        };
        if p >= self.var_refs.len() {
            return Ok(None);
        }
        let ti = match time_index(&self.time_table, time.0 as u64) {
            Some(i) => i,
            None => {
                return Ok(None);
            },
        };
        match signal_bits(&self.waveform, self.var_refs[p], ti as u32) {
            WaveBits::NotLoaded => Err(SvaError::SignalDataNotLoaded(signal.name.clone())),
            WaveBits::NoValue => Ok(None),
            WaveBits::Bits(None) => Ok(None),
            WaveBits::Bits(Some(raw)) => {
                let hex = pretty_hex(raw.as_str());
                Ok(Some(SignalValue { raw_bits: raw, pretty_hex: hex }))
            },
        }
    }
}

} // verus!
