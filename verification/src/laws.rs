//! The engine's governing laws, stated and proved once over the specification
//! functions that the executable contracts use.

use vstd::prelude::*;

use crate::alias::apply_args_from;
use crate::alias::apply_args_spec;
use crate::alias::token_args;
use crate::alias::token_path;
use crate::alias::token_step;
use crate::reducer::commit_outcomes;
use crate::reducer::lemma_outs_single;
use crate::reducer::token_diags;
use crate::reducer::token_outcomes;
use crate::text::lemma_replace_skip_clean;
use crate::text::marker_text;
use crate::text::match_at;
use crate::text::occurs;
use crate::text::replace_all_spec;
use crate::text::trim_spec;
use crate::value::JsonValue;
use crate::value::Resolution;
use crate::value::bool_text;
use crate::value::obj_lookup;
use crate::value::resolve_path;
use crate::value::walk_spec;

verus! {

/// A scalar leaf with no extra arguments resolves to its canonical textual
/// form, and committing the token replaces every literal occurrence of the
/// token in the document by that same text.
pub proof fn lemma_scalar_resolution(ctx: JsonValue, doc: Seq<char>, tok: Seq<char>, leaf: JsonValue)
    requires
        walk_spec(ctx, token_path(tok)) == Some(leaf),
        token_args(tok).len() == 1,
    ensures
        leaf matches JsonValue::Str(s) ==> token_step(ctx, doc, tok) == replace_all_spec(
            doc,
            tok,
            s@,
        ),
        leaf matches JsonValue::Num(t) ==> token_step(ctx, doc, tok) == replace_all_spec(
            doc,
            tok,
            t@,
        ),
        leaf matches JsonValue::Bool(b) ==> token_step(ctx, doc, tok) == replace_all_spec(
            doc,
            tok,
            bool_text(b),
        ),
{
}

/// A token whose path does not resolve to a renderable text leaves the
/// document unchanged.
pub proof fn lemma_unresolved_token_unchanged(ctx: JsonValue, doc: Seq<char>, tok: Seq<char>)
    requires
        !(resolve_path(ctx, token_path(tok)) is Text),
    ensures
        token_step(ctx, doc, tok) == doc,
{
}

/// A pattern that does not occur in a text is not replaced: the text stays
/// as it was. In particular a document without a token is untouched by it.
pub proof fn lemma_absent_pattern_unchanged(s: Seq<char>, pat: Seq<char>, rep: Seq<char>)
    requires
        pat.len() >= 1,
        !occurs(s, pat),
    ensures
        replace_all_spec(s, pat, rep) == s,
{
    assert(forall|j: int| 0 <= j < s.len() ==> !match_at(s, pat, j));
    lemma_replace_skip_clean(s, pat, rep, s.len() as int);
    assert(s.take(s.len() as int) =~= s);
    assert(s.skip(s.len() as int).len() == 0);
    assert(s.take(s.len() as int) + replace_all_spec(s.skip(s.len() as int), pat, rep) =~= s);
}

proof fn lemma_markerless_from(t: Seq<char>, args: Seq<Seq<char>>, i: int)
    requires
        forall|j: int| i <= j < args.len() ==> !occurs(t, #[trigger] marker_text(j as nat)),
    ensures
        apply_args_from(t, args, i) == t,
    decreases args.len() - i,
{
    if 1 <= i < args.len() {
        assert(marker_text(i as nat).len() >= 1);
        lemma_absent_pattern_unchanged(t, marker_text(i as nat), trim_spec(args[i]));
        lemma_markerless_from(t, args, i + 1);
    }
}

/// A template in which no positional marker occurs is used verbatim, whatever
/// extra arguments are supplied.
pub proof fn lemma_markerless_template_verbatim(t: Seq<char>, args: Seq<Seq<char>>)
    requires
        forall|j: int| 1 <= j < args.len() ==> !occurs(t, #[trigger] marker_text(j as nat)),
    ensures
        apply_args_spec(t, args) == t,
{
    lemma_markerless_from(t, args, 1);
}

/// A template with exactly one extra argument is the template with every
/// `<1>` marker replaced by that argument, trimmed.
pub proof fn lemma_single_argument_template(t: Seq<char>, args: Seq<Seq<char>>)
    requires
        args.len() == 2,
    ensures
        apply_args_spec(t, args) == replace_all_spec(t, seq!['<', '1', '>'], trim_spec(args[1])),
{
    let r1 = replace_all_spec(t, marker_text(1), trim_spec(args[1]));
    assert(apply_args_from(r1, args, 2) == r1);
    assert(apply_args_from(t, args, 1) == apply_args_from(r1, args, 2));
    assert(marker_text(1) =~= seq!['<', '1', '>']);
}

/// In the Reducer, a token none of whose outcomes is a renderable text leaves
/// the document unchanged: failures are only reported, never substituted.
pub proof fn lemma_failed_outcomes_unchanged(doc: Seq<char>, tok: Seq<char>, outs: Seq<Resolution>)
    requires
        forall|i: int| 0 <= i < outs.len() ==> !(outs[i] is Text),
    ensures
        commit_outcomes(doc, tok, outs) == doc,
    decreases outs.len(),
{
    if outs.len() > 0 {
        assert(!(outs[0] is Text));
        let rest = outs.subrange(1, outs.len() as int);
        assert(forall|i: int| 0 <= i < rest.len() ==> !(#[trigger] rest[i] is Text));
        lemma_failed_outcomes_unchanged(doc, tok, rest);
    }
}

/// In the Reducer, a token whose top-level key is absent from the context
/// leaves the document unchanged and is reported as exactly one missing-alias
/// failure naming the token.
pub proof fn lemma_missing_alias_reported(
    ctx: Seq<(String, JsonValue)>,
    doc: Seq<char>,
    tok: Seq<char>,
)
    requires
        obj_lookup(ctx, token_path(tok)[0]) is None,
    ensures
        commit_outcomes(doc, tok, token_outcomes(ctx, tok)) == doc,
        token_diags(tok, token_outcomes(ctx, tok)) == seq![(tok, Resolution::Missing)],
{
    let outs = token_outcomes(ctx, tok);
    assert(outs =~= seq![Resolution::Missing]);
    lemma_outs_single(tok, Resolution::Missing);
    assert(outs.subrange(1, 1) =~= Seq::<Resolution>::empty());
    assert(commit_outcomes(doc, tok, Seq::<Resolution>::empty()) == doc);
    assert(commit_outcomes(doc, tok, outs) == doc);
}

} // verus!
