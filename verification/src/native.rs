//! The values the JavaScript bindings exchange: the options they take, the
//! results they hand back, and the background tasks they queue.

use vstd::prelude::*;

use crate::blanker::UnsupportedSyntax;
use crate::transpile::TranspileOutput;

verus! {

/// Options for the bindings: the parse mode and the file name quoted in
/// diagnostics.
pub struct TranspileNativeOptions {
    /// Parse the input as `ts` (default) or `tsx`.
    pub lang: Option<String>,
    /// Source path quoted in parse-failure diagnostics; its extension also
    /// selects the parse mode (a `.tsx` filename enables JSX).
    pub filename: Option<String>,
}

/// A TypeScript-only construct with runtime semantics that was kept
/// verbatim.
pub struct NativeUnsupported {
    pub node_type: String,
    pub start: u32,
    pub end: u32,
}

/// What the String entry points hand back.
pub struct TranspileNativeResult {
    pub code: String,
    pub unsupported: Vec<NativeUnsupported>,
}

/// A queued String transpile.
pub struct TranspileTask {
    pub input: String,
    pub filename: String,
}

/// A queued UTF-16 transpile.
pub struct TranspileUnitsTask {
    pub units: Vec<u16>,
    pub filename: String,
}

/// The file name a transpile reports under: the given one, else
/// `input.tsx` for `lang: "tsx"` and `input.ts` otherwise.
pub open spec fn resolved_filename(options: Option<&TranspileNativeOptions>) -> Seq<char> {
    match options {
        Some(o) => match o.filename {
            Some(f) => f@,
            None => if o.lang matches Some(l) && l@ == "tsx"@ {
                "input.tsx"@
            } else {
                "input.ts"@
            },
        },
        None => "input.ts"@,
    }
}

/// The file name a transpile reports under (see [`resolved_filename`]).
pub fn resolve_filename(options: Option<&TranspileNativeOptions>) -> (r: String)
    ensures
        r@ == resolved_filename(options),
{
    match options {
        Some(o) => match &o.filename {
            Some(f) => f.clone(),
            None => {
                let tsx = "tsx".to_owned();
                let is_tsx = match &o.lang {
                    Some(l) => l.eq(&tsx),
                    None => false,
                };
                if is_tsx {
                    "input.tsx".to_owned()
                } else {
                    "input.ts".to_owned()
                }
            },
        },
        None => "input.ts".to_owned(),
    }
}

impl TranspileTask {
    /// Queue `input` under the file name its options resolve to.
    pub fn new(input: String, options: Option<&TranspileNativeOptions>) -> (t: Self)
        ensures
            t.input == input,
            t.filename@ == resolved_filename(options),
    {
        TranspileTask { input, filename: resolve_filename(options) }
    }
}

impl TranspileUnitsTask {
    /// Queue `units` under the file name its options resolve to.
    pub fn new(units: Vec<u16>, options: Option<&TranspileNativeOptions>) -> (t: Self)
        ensures
            t.units == units,
            t.filename@ == resolved_filename(options),
    {
        TranspileUnitsTask { units, filename: resolve_filename(options) }
    }
}

/// The reports as the bindings hand them back, field for field.
pub fn native_reports(reports: Vec<UnsupportedSyntax>) -> (r: Vec<NativeUnsupported>)
    ensures
        r@.len() == reports@.len(),
        forall|i: int|
            0 <= i < r@.len() ==> {
                &&& (#[trigger] r@[i]).node_type@ == reports@[i].node_type@
                &&& r@[i].start == reports@[i].start
                &&& r@[i].end == reports@[i].end
            },
{
    let mut r: Vec<NativeUnsupported> = Vec::new();
    let mut i: usize = 0;
    while i < reports.len()
        invariant
            i <= reports@.len(),
            r@.len() == i,
            forall|j: int|
                0 <= j < i ==> {
                    &&& (#[trigger] r@[j]).node_type@ == reports@[j].node_type@
                    &&& r@[j].start == reports@[j].start
                    &&& r@[j].end == reports@[j].end
                },
        decreases reports@.len() - i,
    {
        let report = &reports[i];
        r.push(
            NativeUnsupported {
                node_type: report.node_type.clone(),
                start: report.start,
                end: report.end,
            },
        );
        i += 1;
    }
    r
}

/// A String transpile's output as the bindings hand it back.
pub fn native_result(output: TranspileOutput) -> (r: TranspileNativeResult)
    ensures
        r.code == output.code,
        r.unsupported@.len() == output.unsupported@.len(),
        forall|i: int|
            0 <= i < r.unsupported@.len() ==> {
                &&& (#[trigger] r.unsupported@[i]).node_type@ == output.unsupported@[i].node_type@
                &&& r.unsupported@[i].start == output.unsupported@[i].start
                &&& r.unsupported@[i].end == output.unsupported@[i].end
            },
{
    let TranspileOutput { code, unsupported } = output;
    TranspileNativeResult { code, unsupported: native_reports(unsupported) }
}

} // verus!
