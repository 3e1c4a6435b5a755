//! The check that an Apollo graph reference reads `<graph_id>@<variant>`.

use vstd::prelude::*;
use crate::config::static_config::telemetry_static::ApolloTelemetry;
use crate::strings::concat_str;
use crate::valid::Cause;

verus! {

/// A letter, a digit, `-` or `_`.
pub open spec fn graph_ref_char(c: char) -> bool {
    let n = c as u32;
    (65 <= n <= 90) || (97 <= n <= 122) || (48 <= n <= 57) || n == 45 || n == 95
}

/// Two non-empty runs of letters, digits, `-` and `_`, joined by one `@`.
pub open spec fn graph_ref_format(s: Seq<char>) -> bool {
    exists|i: int|
        0 < i < s.len() - 1 && s[i] == '@' && forall|j: int| 0 <= j < s.len() && j != i ==> graph_ref_char(#[trigger] s[j])
}

/// The message for a graph reference not in the expected format.
pub open spec fn graph_ref_message(s: Seq<char>) -> Seq<char> {
    "`graph_ref` should be in the format <graph_id>@<variant> where `graph_id` and `variant` can only contain letters, numbers, '-' and '_'. Found "@
        + s
}

/// The pattern a graph reference must match: two non-empty runs of
/// letters, digits, `-` and `_`, joined by one `@`, filling the text.
pub open spec fn graph_ref_pattern() -> Seq<char> {
    "^[A-Za-z0-9-_]+@[A-Za-z0-9-_]+$"@
}

/// Whether `text` matches `pattern`, with `regex::Regex::new` and
/// `Regex::is_match`. The contract is given for the graph-reference pattern
/// only: `regex` reads its `-` after `0-9` as a literal, so the pattern
/// accepts exactly the texts of `graph_ref_format`. That pattern is valid,
/// so `Regex::new` does not fail on it.
#[verifier::external_body]
fn regex_is_match(pattern: &str, text: &str) -> (r: bool)
    requires
        pattern@ == graph_ref_pattern(),
    ensures
        r == graph_ref_format(text@),
{
    regex::Regex::new(pattern).unwrap().is_match(text)
}

/// Whether `graph_ref` matches the graph-reference pattern.
fn graph_ref_matches(graph_ref: &str) -> (r: bool)
    ensures
        r == graph_ref_format(graph_ref@),
{
    let pattern = "^[A-Za-z0-9-_]+@[A-Za-z0-9-_]+$";
    proof {
        reveal_strlit("^[A-Za-z0-9-_]+@[A-Za-z0-9-_]+$");
    }
    regex_is_match(pattern, graph_ref)
}

/// Succeeds when `graph_ref` reads `<graph_id>@<variant>`; otherwise fails
/// with one cause that names the reference.
pub fn validate_graph_ref(graph_ref: &str) -> (r: Result<(), Vec<Cause>>)
    ensures
        r is Ok <==> graph_ref_format(graph_ref@),
        r matches Err(e) ==> e@.len() == 1 && e@[0].error@ == graph_ref_message(graph_ref@) && e@[0].trace@.len() == 0,
{
    if graph_ref_matches(graph_ref) {
        Ok(())
    } else {
        let msg = concat_str(
            "`graph_ref` should be in the format <graph_id>@<variant> where `graph_id` and `variant` can only contain letters, numbers, '-' and '_'. Found ",
            graph_ref,
        );
        proof {
            reveal_strlit("`graph_ref` should be in the format <graph_id>@<variant> where `graph_id` and `variant` can only contain letters, numbers, '-' and '_'. Found ");
        }
        let mut e: Vec<Cause> = Vec::new();
        e.push(Cause::new(msg));
        Err(e)
    }
}

/// The Apollo settings unchanged when their graph reference is well formed;
/// otherwise the cause of `validate_graph_ref`, traced by
/// `apollo.graph_ref`.
pub fn validate_apollo(apollo: ApolloTelemetry) -> (r: Result<ApolloTelemetry, Vec<Cause>>)
    ensures
        r is Ok <==> graph_ref_format(apollo.graph_ref@),
        r matches Ok(a) ==> a == apollo,
        r matches Err(e) ==> e@.len() == 1 && e@[0].error@ == graph_ref_message(apollo.graph_ref@)
            && e@[0].trace@.len() == 1 && e@[0].trace@[0]@ == "apollo.graph_ref"@,
{
    match validate_graph_ref(apollo.graph_ref.as_str()) {
        Ok(()) => Ok(apollo),
        Err(e) => {
            let mut e = e;
            let c = e.remove(0);
            let mut out: Vec<Cause> = Vec::new();
            out.push(c.trace("apollo.graph_ref"));
            Err(out)
        },
    }
}

} // verus!
