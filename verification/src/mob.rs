//! The man-in-the-middle proxy's one rewrite rule: boguscoin addresses in a
//! chat line are replaced by the attacker's address.

use vstd::prelude::*;

verus! {

/// Whether the regex engine accepts this pattern and finishes rewriting
/// this text within its backtracking budget: a function of the two alone.
pub uninterp spec fn regex_replace_ok(pat: Seq<char>, text: Seq<char>) -> bool;

/// What the regex engine returns for this pattern, text and replacement:
/// a function of the three alone.
pub uninterp spec fn regex_replaced(pat: Seq<char>, text: Seq<char>, rep: Seq<char>) -> Seq<char>;

/// Relies on fancy_regex::Regex::new to compile the pattern and on
/// Regex::try_replacen with no limit to rewrite every non-overlapping
/// match; both outcomes depend only on the arguments.
#[verifier::external_body]
fn regex_replace_all(pattern: &str, text: &str, rep: &str) -> (r: Option<String>)
    ensures
        r is Some <==> regex_replace_ok(pattern@, text@),
        r matches Some(s) ==> s@ == regex_replaced(pattern@, text@, rep@),
{
    let re = match fancy_regex::Regex::new(pattern) {
        Ok(re) => re,
        Err(_) => return None,
    };
    match re.try_replacen(text, 0, rep) {
        Ok(c) => Some(c.to_string()),
        Err(_) => None,
    }
}

/// Rewrite every boguscoin address in the line to the attacker's address.
/// A line the regex engine gives up on passes through unchanged.
pub fn replace_addresses(line: String) -> (r: String)
    ensures
        regex_replace_ok("(?<=^|\\s)(7[a-zA-Z0-9]{25,34})(?=$|\\s)"@, line@)
            ==> r@ == regex_replaced(
                "(?<=^|\\s)(7[a-zA-Z0-9]{25,34})(?=$|\\s)"@,
                line@,
                "7YWHMfk9JZe0LM0g1ZauHuiSxhI"@,
            ),
        !regex_replace_ok("(?<=^|\\s)(7[a-zA-Z0-9]{25,34})(?=$|\\s)"@, line@) ==> r == line,
{
    match regex_replace_all(
        "(?<=^|\\s)(7[a-zA-Z0-9]{25,34})(?=$|\\s)",
        line.as_str(),
        "7YWHMfk9JZe0LM0g1ZauHuiSxhI",
    ) {
        Some(replaced) => replaced,
        None => line,
    }
}

} // verus!
