//! The pipeline's outputs, its replace-table setup and its parse gates.

use vstd::prelude::*;
use vstd::string::StringExecFns;

use crate::blanker::UnsupportedSyntax;
use crate::replace::{distinct_keys, table_from, ReplaceOptions, ReplaceParams, Replaces};

verus! {

/// String path output: the code, and the constructs kept verbatim.
pub struct TranspileOutput {
    pub code: String,
    pub unsupported: Vec<UnsupportedSyntax>,
}

/// UTF-16 path output: code units, with report offsets already UTF-16 code
/// units.
pub struct TranspileUnitsOutput {
    pub code: Vec<u16>,
    pub unsupported: Vec<UnsupportedSyntax>,
}

/// Build (and validate) the replace table; an empty map disables the
/// rewrite.
pub fn build_replaces(replace: Option<ReplaceParams>) -> (r: Result<Option<Replaces>, String>)
    requires
        replace matches Some(p) ==> distinct_keys(p.entries@),
    ensures
        replace is None ==> r == Ok::<Option<Replaces>, String>(None),
        replace matches Some(p) ==> {
            &&& r is Err <==> exists|i: int|
                0 <= i < p.entries@.len() && (#[trigger] p.entries@[i]).0@.len() == 0
            &&& r matches Err(e) ==> e@ == "invalid replace: invalid replace key \"\": must not be empty"@
            &&& r matches Ok(None) ==> p.entries@.len() == 0
            &&& r matches Ok(Some(t)) ==> {
                &&& p.entries@.len() > 0
                &&& t.well_formed()
                &&& t.prevents_assignment() == p.prevent_assignment
                &&& table_from(t.keys(), t.values(), p.entries@, p.object_guards)
            }
        },
{
    match replace {
        None => Ok(None),
        Some(params) => {
            let options = ReplaceOptions {
                prevent_assignment: params.prevent_assignment,
                object_guards: params.object_guards,
            };
            match Replaces::new(&params.entries, options) {
                Err(error) => {
                    proof {
                        reveal_strlit("invalid replace: ");
                        reveal_strlit("invalid replace key \"\": must not be empty");
                        reveal_strlit("invalid replace: invalid replace key \"\": must not be empty");
                    }
                    let message = "invalid replace: ".to_owned().concat(error.as_str());
                    Err(message)
                },
                Ok(replaces) => {
                    proof {
                        reveal(table_from);
                    }
                    if replaces.is_empty() {
                        Ok(None)
                    } else {
                        proof {
                            reveal(table_from);
                            let keys = replaces.keys();
                            if params.entries@.len() == 0 {
                                assert(keys.skip(0)[0] == keys[0]);
                                assert(keys.skip(0).contains(keys[0]));
                                let user = crate::replace::user_keys(params.entries@);
                                assert(crate::replace_keys::derived_guard(user, keys[0]));
                                let w = choose|w: Seq<char>|
                                    user.contains(w) && #[trigger] crate::replace_keys::guard_of(w, keys[0]);
                                assert(user.len() == 0);
                            }
                        }
                        Ok(Some(replaces))
                    }
                },
            }
        },
    }
}

/// The message a rejected parse answers with: where it failed, then the
/// rendered diagnostics.
pub open spec fn parse_failure(filename: Seq<char>, context: Seq<char>, rendered: Seq<char>) -> Seq<char> {
    "failed to parse "@ + filename + context + ":\n"@ + rendered
}

fn failure_message(filename: &str, context: &str, rendered: &str) -> (m: String)
    ensures
        m@ == parse_failure(filename@, context@, rendered@),
{
    proof {
        reveal_strlit("failed to parse ");
        reveal_strlit(":\n");
    }
    "failed to parse ".to_owned().concat(filename).concat(context).concat(":\n").concat(rendered)
}

/// The ordinary parse's gate: a parse that yielded neither statements nor
/// directives and reported errors is unusable and becomes a syntax error;
/// soft errors beside a recovered program pass. `rendered` is the parse's
/// diagnostics as rendered against the text it looked at.
pub fn reject_unusable(
    body_len: usize,
    directives_len: usize,
    has_errors: bool,
    filename: &str,
    context: &str,
    rendered: &str,
) -> (r: Result<(), String>)
    ensures
        r is Err <==> body_len == 0 && directives_len == 0 && has_errors,
        r matches Err(e) ==> e@ == parse_failure(filename@, context@, rendered@),
{
    if body_len == 0 && directives_len == 0 && has_errors {
        return Err(failure_message(filename, context, rendered));
    }
    Ok(())
}

/// The stricter gate that follows a replacement pass, unlike
/// [`reject_unusable`]: any error diagnostic rejects, even beside a
/// recovered program.
pub fn reject_replaced(has_errors: bool, filename: &str, rendered: &str) -> (r: Result<(), String>)
    ensures
        r is Err <==> has_errors,
        r matches Err(e) ==> e@ == parse_failure(filename@, " (after replace)"@, rendered@),
{
    if has_errors {
        return Err(failure_message(filename, " (after replace)", rendered));
    }
    Ok(())
}

} // verus!
