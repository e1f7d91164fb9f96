//! The placeholder scanner and the end-to-end resolution pass: the source text
//! is scanned once for `a(:...:)` tokens, and every token found is resolved
//! against the context and substituted into the document.

use vstd::prelude::*;

use crate::alias::replace_aliases;
use crate::alias::replace_aliases_spec;
use crate::text::ends_with;
use crate::text::ends_with_spec;
use crate::value::JsonValue;

verus! {

/// The placeholder tokens of `s`: the non-overlapping, leftmost-first matches
/// of the pattern `a\(:.*?:\)`, in order of appearance, duplicates included.
pub uninterp spec fn alias_tokens(s: Seq<char>) -> Seq<Seq<char>>;

/// Relies on regex: `Regex::new` compiles the fixed, well-formed alias
/// pattern, and `find_iter` yields its non-overlapping, successive
/// leftmost-first matches in the text, in order. The matches are a function
/// of the text alone.
#[verifier::external_body]
pub fn scan_aliases(text: &str) -> (r: Vec<String>)
    ensures
        r.deep_view() == alias_tokens(text@),
{
    let re = regex::Regex::new(r"a\(:.*?:\)").unwrap();
    let mut vec = Vec::new();
    for m in re.find_iter(text) {
        vec.push(m.as_str().to_string());
    }
    vec
}

/// Scans the source text for placeholder tokens and resolves each in order
/// against the context, returning the substituted document.
pub fn resolve_document(src_string: &str, ctx: JsonValue) -> (r: String)
    ensures
        r@ == replace_aliases_spec(ctx, src_string@, alias_tokens(src_string@)),
{
    let aliases = scan_aliases(src_string);
    replace_aliases(src_string, &aliases, ctx)
}

/// The `.json` file-name suffix required of the context path.
pub open spec fn json_suffix() -> Seq<char> {
    seq!['.', 'j', 's', 'o', 'n']
}

/// True exactly when `path` names a file with the `.json` extension.
pub fn has_json_extension(path: &str) -> (b: bool)
    ensures
        b == ends_with_spec(path@, json_suffix()),
{
    proof {
        reveal_strlit(".json");
        assert(".json"@ =~= json_suffix());
    }
    ends_with(path, ".json")
}

} // verus!
