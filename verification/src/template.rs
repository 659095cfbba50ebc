//! Resolution of a path template against a concrete period: each
//! placeholder is substituted by the period's zero-padded value.

use vstd::prelude::*;
use crate::chars::{chars_of, string_of_chars};
use crate::digits::{dec_int, pad2, i32_chars, pad2_chars};
use crate::normalize::{yyyy_token, mm_token, dd_token, yyyy_token_chars, mm_token_chars,
    dd_token_chars};
use crate::period::Period;
use crate::replace::{replace_all, replace_all_chars};

verus! {

/// The template with `{yyyy}` replaced by the year's digits, then `{mm}`
/// by the two-digit month, then `{dd}` by the two-digit day, wherever
/// they occur.
pub open spec fn resolve_template_spec(template: Seq<char>, year: int, month: nat, day: nat)
    -> Seq<char> {
    replace_all(
        replace_all(replace_all(template, yyyy_token(), dec_int(year)), mm_token(), pad2(month)),
        dd_token(),
        pad2(day),
    )
}

/// Substitutes the period into every placeholder of the template.  Total
/// and purely textual: a template without placeholders comes back
/// unchanged, and whether the resulting path exists is the caller's
/// concern.
pub fn resolve_template(template: &str, period: &Period) -> (r: String)
    ensures
        r@ == resolve_template_spec(
            template@,
            period.year as int,
            period.month as nat,
            period.day as nat,
        ),
{
    let v = chars_of(template);
    let year = i32_chars(period.year);
    let month = pad2_chars(period.month);
    let day = pad2_chars(period.day);
    let ytok = yyyy_token_chars();
    let mtok = mm_token_chars();
    let dtok = dd_token_chars();
    let step1 = replace_all_chars(&v, &ytok, &year);
    let step2 = replace_all_chars(&step1, &mtok, &month);
    let step3 = replace_all_chars(&step2, &dtok, &day);
    string_of_chars(&step3)
}

} // verus!
