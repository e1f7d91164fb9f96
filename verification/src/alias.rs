//! The alias engine: decomposing one raw placeholder token into its dotted
//! path and positional arguments, resolving the path against the context, and
//! substituting the resolved text into the document.

use vstd::prelude::*;
use vstd::string::StrSliceExecFns;
use vstd::string::StringExecFns;

use crate::text::replace_all;
use crate::text::replace_all_spec;
use crate::text::split_char;
use crate::text::split_spec;
use crate::text::strip_prefix;
use crate::text::strip_prefix_spec;
use crate::text::strip_suffix;
use crate::text::strip_suffix_spec;
use crate::text::trim;
use crate::text::trim_spec;
use crate::text::marker;
use crate::text::marker_text;
use crate::text::lemma_split_nonempty;
use crate::value::JsonValue;
use crate::value::Resolution;
use crate::value::bool_str;
use crate::value::get_key;
use crate::value::resolve_path;
use crate::value::walk_spec;

verus! {

/// A per-placeholder resolution failure: the path names nothing (or a null),
/// or the leaf it names cannot be rendered as text.
#[derive(Debug)]
pub enum AliasError {
    InvalidAlias(String),
    InvalidContext(String),
}

/// The opening delimiter of a placeholder token.
pub open spec fn open_mark() -> Seq<char> {
    seq!['a', '(', ':']
}

/// The closing delimiter of a placeholder token.
pub open spec fn close_mark() -> Seq<char> {
    seq![':', ')']
}

/// The body of a token: the text between the delimiters.
pub open spec fn token_inner(tok: Seq<char>) -> Seq<char> {
    strip_suffix_spec(strip_prefix_spec(tok, open_mark()), close_mark())
}

/// The comma-separated argument list of a token; the first entry is the path.
pub open spec fn token_args(tok: Seq<char>) -> Seq<Seq<char>> {
    split_spec(token_inner(tok), ',')
}

/// The dotted key path of a token.
pub open spec fn token_path(tok: Seq<char>) -> Seq<Seq<char>> {
    split_spec(token_args(tok)[0], '.')
}

/// The template `t` after substituting, in order, each marker `<i>` for
/// `i >= max(start, 1)` by the trimmed argument `args[i]`.
pub open spec fn apply_args_from(t: Seq<char>, args: Seq<Seq<char>>, i: int) -> Seq<char>
    decreases args.len() - i,
{
    if i < 1 || i >= args.len() {
        t
    } else {
        apply_args_from(
            replace_all_spec(t, marker_text(i as nat), trim_spec(args[i])),
            args,
            i + 1,
        )
    }
}

/// The template `t` with every positional marker `<i>` replaced by the
/// corresponding trimmed extra argument.
pub open spec fn apply_args_spec(t: Seq<char>, args: Seq<Seq<char>>) -> Seq<char> {
    apply_args_from(t, args, 1)
}

/// The error variant that reports resolution ending in `m`.
pub open spec fn error_matches(e: AliasError, m: Resolution) -> bool {
    match m {
        Resolution::Text(_) => false,
        Resolution::Missing => e is InvalidAlias,
        Resolution::Unrenderable => e is InvalidContext,
    }
}

/// A `Result` reports the resolution `m`: the text on success, the matching
/// error variant otherwise.
pub open spec fn outcome_matches(r: Result<String, AliasError>, m: Resolution) -> bool {
    match m {
        Resolution::Text(t) => r matches Ok(s) && s@ == t,
        _ => r matches Err(e) && error_matches(e, m),
    }
}

/// Walks `nesting` from the top of the context and renders the leaf it names:
/// a string verbatim, a number or boolean in canonical text; a missing segment
/// or a null leaf is `InvalidAlias`, a container leaf is `InvalidContext`.
pub fn get_value_from_ctx(nesting: Vec<&str>, ctx: &JsonValue) -> (r: Result<String, AliasError>)
    ensures
        outcome_matches(r, resolve_path(*ctx, nesting.deep_view())),
{
    let ghost p = nesting.deep_view();
    let mut cur: &JsonValue = ctx;
    let n = nesting.len();
    let mut k: usize = 0;
    proof {
        assert(p.skip(0) =~= p);
    }
    while k < n
        invariant
            n == nesting@.len(),
            p == nesting.deep_view(),
            0 <= k <= n,
            walk_spec(*ctx, p) == walk_spec(*cur, p.skip(k as int)),
        decreases n - k,
    {
        proof {
            assert(p[k as int] == nesting@[k as int]@);
        }
        match get_key(cur, nesting[k]) {
            Some(w) => {
                proof {
                    assert(p.skip(k as int).skip(1) =~= p.skip(k + 1));
                }
                cur = w;
            },
            None => {
                return Err(AliasError::InvalidAlias(String::from_str("Invalid alias")));
            },
        }
        k += 1;
    }
    proof {
        assert(p.skip(n as int).len() == 0);
        assert(walk_spec(*ctx, p) == Some(*cur));
    }
    match cur {
        JsonValue::Str(s) => Ok(s.clone()),
        JsonValue::Num(t) => Ok(t.clone()),
        JsonValue::Bool(b) => Ok(String::from_str(bool_str(*b))),
        JsonValue::Null => Err(AliasError::InvalidAlias(String::from_str("Invalid alias"))),
        JsonValue::Arr(_) => Err(
            AliasError::InvalidContext(String::from_str("Invalid context")),
        ),
        JsonValue::Obj(_) => Err(
            AliasError::InvalidContext(String::from_str("Invalid context")),
        ),
    }
}

/// Substitutes the trimmed extra arguments `args[1..]` for the positional
/// markers `<1>`, `<2>`, ... in `template`, in argument order.
pub fn apply_alias_args(template: &str, args: &Vec<String>) -> (r: String)
    ensures
        r@ == apply_args_spec(template@, args.deep_view()),
{
    let ghost dv = args.deep_view();
    let mut cur = String::from_str(template);
    let n = args.len();
    let mut i: usize = 1;
    while i < n
        invariant
            n == args@.len(),
            dv == args.deep_view(),
            1 <= i,
            apply_args_spec(template@, dv) == apply_args_from(cur@, dv, i as int),
        decreases n - i,
    {
        proof {
            assert(dv[i as int] == args@[i as int]@);
        }
        let m = marker(i as u64);
        let t = trim(args[i].as_str());
        cur = replace_all(cur.as_str(), m.as_str(), t.as_str());
        i += 1;
    }
    cur
}

/// Resolves one raw placeholder token against the context: parses the token
/// into path and arguments, renders the leaf the path names, and applies the
/// positional arguments when the leaf is a template string.
pub fn process_alias(alias: &str, ctx: &JsonValue) -> (r: Result<String, AliasError>)
    ensures
        ({
            let res = resolve_path(*ctx, token_path(alias@));
            match res {
                Resolution::Text(t) => r matches Ok(s) && s@ == apply_args_spec(
                    t,
                    token_args(alias@),
                ),
                _ => r matches Err(e) && error_matches(e, res),
            }
        }),
{
    proof {
        reveal_strlit("a(:");
        reveal_strlit(":)");
        assert("a(:"@ =~= open_mark());
        assert(":)"@ =~= close_mark());
    }
    let inner = strip_suffix(strip_prefix(alias, "a(:"), ":)");
    let arguments: Vec<String> = split_char(inner, ',');
    proof {
        lemma_split_nonempty(inner@, ',');
        assert(arguments.deep_view().len() == arguments@.len());
        assert(arguments.deep_view()[0] == arguments@[0]@);
    }
    let nesting: Vec<String> = split_char(arguments[0].as_str(), '.');
    let mut nest_refs: Vec<&str> = Vec::new();
    let nn = nesting.len();
    let mut j: usize = 0;
    while j < nn
        invariant
            nn == nesting@.len(),
            0 <= j <= nn,
            nest_refs@.len() == j,
            forall|q: int| 0 <= q < j ==> nest_refs@[q]@ == nesting@[q]@,
        decreases nn - j,
    {
        nest_refs.push(nesting[j].as_str());
        j += 1;
    }
    proof {
        assert(nest_refs.deep_view() =~~= nesting.deep_view());
        assert(nesting.deep_view() == token_path(alias@));
    }
    let value_from_ctx = match get_value_from_ctx(nest_refs, ctx) {
        Ok(v) => v,
        Err(e) => {
            return Err(e);
        },
    };
    proof {
        assert(arguments.deep_view() == token_args(alias@));
    }
    Ok(apply_alias_args(value_from_ctx.as_str(), &arguments))
}

/// One token applied to the document: where the token resolves to a text,
/// every occurrence of the token is replaced by it; otherwise the document is
/// unchanged.
pub open spec fn token_step(ctx: JsonValue, doc: Seq<char>, tok: Seq<char>) -> Seq<char> {
    match resolve_path(ctx, token_path(tok)) {
        Resolution::Text(t) => replace_all_spec(doc, tok, apply_args_spec(t, token_args(tok))),
        _ => doc,
    }
}

/// The document after resolving the tokens in order, each applied to the
/// result of the previous one.
pub open spec fn replace_aliases_spec(ctx: JsonValue, doc: Seq<char>, toks: Seq<Seq<char>>) -> Seq<
    char,
>
    decreases toks.len(),
{
    if toks.len() == 0 {
        doc
    } else {
        replace_aliases_spec(ctx, token_step(ctx, doc, toks[0]), toks.skip(1))
    }
}

/// Resolves every token of `aliases`, in order, against `ctx`, substituting
/// each resolvable one into the document; unresolvable tokens leave the
/// document unchanged.
pub fn replace_aliases(src_string: &str, aliases: &Vec<String>, ctx: JsonValue) -> (r: String)
    ensures
        r@ == replace_aliases_spec(ctx, src_string@, aliases.deep_view()),
{
    let ghost dv = aliases.deep_view();
    let mut result_string = String::from_str(src_string);
    let n = aliases.len();
    let mut i: usize = 0;
    proof {
        assert(dv.skip(0) =~= dv);
    }
    while i < n
        invariant
            n == aliases@.len(),
            dv == aliases.deep_view(),
            0 <= i <= n,
            replace_aliases_spec(ctx, src_string@, dv) == replace_aliases_spec(
                ctx,
                result_string@,
                dv.skip(i as int),
            ),
        decreases n - i,
    {
        proof {
            assert(dv[i as int] == aliases@[i as int]@);
            assert(dv.skip(i as int).skip(1) =~= dv.skip(i + 1));
        }
        let alias: &String = &aliases[i];
        match process_alias(alias.as_str(), &ctx) {
            Ok(processed) => {
                result_string = replace_all(
                    result_string.as_str(),
                    alias.as_str(),
                    processed.as_str(),
                );
            },
            Err(_) => {},
        }
        i += 1;
    }
    proof {
        assert(dv.skip(n as int).len() == 0);
    }
    result_string
}

} // verus!
