//! The Reducer: resolves every discovered placeholder against the context and
//! substitutes it into the document. The type dispatch follows the value the
//! alias names: strings, numbers and booleans are terminals; an array applies
//! the alias to every element in order; an object re-walks the full dotted
//! path from the top of the context, once — an object met again cannot be
//! rendered and is reported instead. Failures never abort the pass: each is
//! recorded as a diagnostic and the token is left in the document.

use vstd::prelude::*;
use vstd::string::StrSliceExecFns;
use vstd::string::StringExecFns;

use crate::alias::AliasError;
use crate::alias::apply_alias_args;
use crate::alias::apply_args_spec;
use crate::alias::error_matches;
use crate::alias::close_mark;
use crate::alias::open_mark;
use crate::alias::token_args;
use crate::alias::token_path;
use crate::text::lemma_split_nonempty;
use crate::text::replace_all;
use crate::text::replace_all_spec;
use crate::text::split_char;
use crate::text::strip_prefix;
use crate::text::strip_suffix;
use crate::value::JsonValue;
use crate::value::Resolution;
use crate::value::bool_str;
use crate::value::bool_text;
use crate::value::entries_get;
use crate::value::obj_lookup;
use crate::value::walk;
use crate::value::walk_spec;

verus! {

/// What one run of the Reducer works on: the document text, the top-level
/// context mapping, and the raw tokens in document order.
pub struct ReducerConfig {
    pub src_string: String,
    pub ctx: Vec<(String, JsonValue)>,
    pub aliases: Vec<String>,
}

/// One recoverable per-token failure, naming the offending token.
pub struct Diagnostic {
    pub token: String,
    pub error: AliasError,
}

/// The resolution engine; `init` runs the pass.
pub struct Reducer {
    pub config: ReducerConfig,
    pub diagnostics: Vec<Diagnostic>,
}

/// The value the full dotted path names, walking from the top-level mapping.
pub open spec fn walk_ctx(ctx: Seq<(String, JsonValue)>, path: Seq<Seq<char>>) -> Option<
    JsonValue,
> {
    if path.len() == 0 {
        None
    } else {
        match obj_lookup(ctx, path[0]) {
            Some(v) => walk_spec(v, path.skip(1)),
            None => None,
        }
    }
}

/// The outcomes of dispatching on one candidate value: a terminal yields its
/// text (a string applies the positional arguments), an array dispatches each
/// element in order, and an object re-walks the full path once — `walked`
/// records that the walk already happened.
pub open spec fn dispatch_spec(
    ctx: Seq<(String, JsonValue)>,
    path: Seq<Seq<char>>,
    args: Seq<Seq<char>>,
    v: JsonValue,
    walked: bool,
) -> Seq<Resolution>
    decreases (if walked {
            0int
        } else {
            1int
        }), v, 0int,
{
    match v {
        JsonValue::Str(s) => seq![Resolution::Text(apply_args_spec(s@, args))],
        JsonValue::Num(t) => seq![Resolution::Text(t@)],
        JsonValue::Bool(b) => seq![Resolution::Text(bool_text(b))],
        JsonValue::Null => seq![Resolution::Missing],
        JsonValue::Arr(es) => dispatch_seq_spec(ctx, path, args, es@, walked),
        JsonValue::Obj(_) => if !walked {
            match walk_ctx(ctx, path) {
                Some(w) => dispatch_spec(ctx, path, args, w, true),
                None => seq![Resolution::Missing],
            }
        } else {
            seq![Resolution::Unrenderable]
        },
    }
}

/// The outcomes of dispatching on each element of an array, in order.
pub open spec fn dispatch_seq_spec(
    ctx: Seq<(String, JsonValue)>,
    path: Seq<Seq<char>>,
    args: Seq<Seq<char>>,
    es: Seq<JsonValue>,
    walked: bool,
) -> Seq<Resolution>
    decreases (if walked {
            0int
        } else {
            1int
        }), es, 1int,
{
    if es.len() == 0 {
        Seq::empty()
    } else {
        dispatch_spec(ctx, path, args, es[0], walked) + dispatch_seq_spec(
            ctx,
            path,
            args,
            es.subrange(1, es.len() as int),
            walked,
        )
    }
}

/// The outcomes of one token: its top-level key looked up in the context and,
/// when present, the value dispatched; an absent key is a single failure.
pub open spec fn token_outcomes(ctx: Seq<(String, JsonValue)>, tok: Seq<char>) -> Seq<Resolution> {
    match obj_lookup(ctx, token_path(tok)[0]) {
        None => seq![Resolution::Missing],
        Some(v0) => dispatch_spec(ctx, token_path(tok), token_args(tok), v0, false),
    }
}

/// The texts the outcomes commit, in order.
pub open spec fn texts_of(outs: Seq<Resolution>) -> Seq<Seq<char>>
    decreases outs.len(),
{
    if outs.len() == 0 {
        Seq::empty()
    } else {
        (match outs[0] {
            Resolution::Text(t) => seq![t],
            _ => Seq::<Seq<char>>::empty(),
        }) + texts_of(outs.subrange(1, outs.len() as int))
    }
}

/// The failures among the outcomes, each paired with the token, in order.
pub open spec fn token_diags(tok: Seq<char>, outs: Seq<Resolution>) -> Seq<(Seq<char>, Resolution)>
    decreases outs.len(),
{
    if outs.len() == 0 {
        Seq::empty()
    } else {
        (match outs[0] {
            Resolution::Text(_) => Seq::<(Seq<char>, Resolution)>::empty(),
            _ => seq![(tok, outs[0])],
        }) + token_diags(tok, outs.subrange(1, outs.len() as int))
    }
}

/// The document after committing the outcomes in order: each text replaces
/// every occurrence of the token; failures leave the document unchanged.
pub open spec fn commit_outcomes(doc: Seq<char>, tok: Seq<char>, outs: Seq<Resolution>) -> Seq<
    char,
>
    decreases outs.len(),
{
    if outs.len() == 0 {
        doc
    } else {
        let d = match outs[0] {
            Resolution::Text(t) => replace_all_spec(doc, tok, t),
            _ => doc,
        };
        commit_outcomes(d, tok, outs.subrange(1, outs.len() as int))
    }
}

/// The document after committing a list of texts in order.
pub open spec fn commit_texts(doc: Seq<char>, tok: Seq<char>, ts: Seq<Seq<char>>) -> Seq<char>
    decreases ts.len(),
{
    if ts.len() == 0 {
        doc
    } else {
        commit_texts(replace_all_spec(doc, tok, ts[0]), tok, ts.subrange(1, ts.len() as int))
    }
}

/// The document after the whole pass: each token's outcomes committed in
/// token order.
pub open spec fn reduce_doc_spec(
    ctx: Seq<(String, JsonValue)>,
    doc: Seq<char>,
    toks: Seq<Seq<char>>,
) -> Seq<char>
    decreases toks.len(),
{
    if toks.len() == 0 {
        doc
    } else {
        reduce_doc_spec(
            ctx,
            commit_outcomes(doc, toks[0], token_outcomes(ctx, toks[0])),
            toks.subrange(1, toks.len() as int),
        )
    }
}

/// Every failure of the whole pass, in order of occurrence.
pub open spec fn reduce_diags_spec(ctx: Seq<(String, JsonValue)>, toks: Seq<Seq<char>>) -> Seq<
    (Seq<char>, Resolution),
>
    decreases toks.len(),
{
    if toks.len() == 0 {
        Seq::empty()
    } else {
        token_diags(toks[0], token_outcomes(ctx, toks[0])) + reduce_diags_spec(
            ctx,
            toks.subrange(1, toks.len() as int),
        )
    }
}

/// The strings `ss` carry exactly the texts `ts`.
pub open spec fn texts_match(ss: Seq<String>, ts: Seq<Seq<char>>) -> bool {
    &&& ss.len() == ts.len()
    &&& forall|i: int| 0 <= i < ss.len() ==> ss[i]@ == ts[i]
}

/// The diagnostic `d` reports the failure `m`: same token, matching variant.
pub open spec fn diag_matches(d: Diagnostic, m: (Seq<char>, Resolution)) -> bool {
    &&& d.token@ == m.0
    &&& error_matches(d.error, m.1)
}

/// The diagnostics `ds` report exactly the failures `ms`, in order.
pub open spec fn diags_match(ds: Seq<Diagnostic>, ms: Seq<(Seq<char>, Resolution)>) -> bool {
    &&& ds.len() == ms.len()
    &&& forall|i: int| 0 <= i < ds.len() ==> diag_matches(ds[i], ms[i])
}

proof fn lemma_texts_match_concat(
    a: Seq<String>,
    b: Seq<String>,
    ma: Seq<Seq<char>>,
    mb: Seq<Seq<char>>,
)
    requires
        texts_match(a, ma),
        texts_match(b, mb),
    ensures
        texts_match(a + b, ma + mb),
{
    assert forall|i: int| 0 <= i < (a + b).len() implies (a + b)[i]@ == (ma + mb)[i] by {
        if i < a.len() {
            assert((a + b)[i] == a[i]);
            assert((ma + mb)[i] == ma[i]);
        } else {
            assert((a + b)[i] == b[i - a.len()]);
            assert((ma + mb)[i] == mb[i - a.len()]);
        }
    }
}

proof fn lemma_diags_match_concat(
    a: Seq<Diagnostic>,
    b: Seq<Diagnostic>,
    ma: Seq<(Seq<char>, Resolution)>,
    mb: Seq<(Seq<char>, Resolution)>,
)
    requires
        diags_match(a, ma),
        diags_match(b, mb),
    ensures
        diags_match(a + b, ma + mb),
{
    assert forall|i: int| 0 <= i < (a + b).len() implies diag_matches((a + b)[i], (ma + mb)[i]) by {
        if i < a.len() {
            assert((a + b)[i] == a[i]);
            assert((ma + mb)[i] == ma[i]);
        } else {
            assert((a + b)[i] == b[i - a.len()]);
            assert((ma + mb)[i] == mb[i - a.len()]);
        }
    }
}

proof fn lemma_texts_of_concat(o1: Seq<Resolution>, o2: Seq<Resolution>)
    ensures
        texts_of(o1 + o2) == texts_of(o1) + texts_of(o2),
    decreases o1.len(),
{
    if o1.len() == 0 {
        assert(o1 + o2 =~= o2);
        assert(texts_of(o1) + texts_of(o2) =~= texts_of(o2));
    } else {
        assert((o1 + o2)[0] == o1[0]);
        assert((o1 + o2).subrange(1, (o1 + o2).len() as int) =~= o1.subrange(1, o1.len() as int)
            + o2);
        lemma_texts_of_concat(o1.subrange(1, o1.len() as int), o2);
        assert(texts_of(o1 + o2) =~= texts_of(o1) + texts_of(o2));
    }
}

proof fn lemma_token_diags_concat(tok: Seq<char>, o1: Seq<Resolution>, o2: Seq<Resolution>)
    ensures
        token_diags(tok, o1 + o2) == token_diags(tok, o1) + token_diags(tok, o2),
    decreases o1.len(),
{
    if o1.len() == 0 {
        assert(o1 + o2 =~= o2);
        assert(token_diags(tok, o1) + token_diags(tok, o2) =~= token_diags(tok, o2));
    } else {
        assert((o1 + o2)[0] == o1[0]);
        assert((o1 + o2).subrange(1, (o1 + o2).len() as int) =~= o1.subrange(1, o1.len() as int)
            + o2);
        lemma_token_diags_concat(tok, o1.subrange(1, o1.len() as int), o2);
        assert(token_diags(tok, o1 + o2) =~= token_diags(tok, o1) + token_diags(tok, o2));
    }
}

pub(crate) proof fn lemma_outs_single(tok: Seq<char>, o: Resolution)
    ensures
        texts_of(seq![o]) == (match o {
            Resolution::Text(t) => seq![t],
            _ => Seq::<Seq<char>>::empty(),
        }),
        token_diags(tok, seq![o]) == (match o {
            Resolution::Text(_) => Seq::<(Seq<char>, Resolution)>::empty(),
            _ => seq![(tok, o)],
        }),
{
    let s = seq![o];
    let e = Seq::<Resolution>::empty();
    assert(s.subrange(1, 1) =~= e);
    assert(texts_of(e) == Seq::<Seq<char>>::empty());
    assert(token_diags(tok, e) == Seq::<(Seq<char>, Resolution)>::empty());
    match o {
        Resolution::Text(t) => {
            assert(texts_of(s) =~= seq![t]);
            assert(token_diags(tok, s) =~= Seq::<(Seq<char>, Resolution)>::empty());
        },
        _ => {
            assert(texts_of(s) =~= Seq::<Seq<char>>::empty());
            assert(token_diags(tok, s) =~= seq![(tok, o)]);
        },
    }
}

/// Chains two prefix-preserving extensions: what was appended after `s0` is
/// what `s1` appended and then what `s2` appended.
proof fn lemma_extend_prefix<T>(s0: Seq<T>, s1: Seq<T>, s2: Seq<T>)
    requires
        s0.len() <= s1.len() <= s2.len(),
        s1.subrange(0, s0.len() as int) == s0,
        s2.subrange(0, s1.len() as int) == s1,
    ensures
        s2.subrange(0, s0.len() as int) == s0,
        s2.skip(s0.len() as int) == s1.skip(s0.len() as int) + s2.skip(s1.len() as int),
{
    assert forall|q: int| 0 <= q < s1.len() implies s2[q] == s1[q] by {
        assert(s2.subrange(0, s1.len() as int)[q] == s2[q]);
    }
    assert forall|q: int| 0 <= q < s0.len() implies s1[q] == s0[q] by {
        assert(s1.subrange(0, s0.len() as int)[q] == s1[q]);
    }
    assert(s2.subrange(0, s0.len() as int) =~= s0);
    assert(s2.skip(s0.len() as int) =~= s1.skip(s0.len() as int) + s2.skip(s1.len() as int));
}

/// Committing outcomes commits exactly their texts, in order.
proof fn lemma_commit_texts(doc: Seq<char>, tok: Seq<char>, outs: Seq<Resolution>)
    ensures
        commit_outcomes(doc, tok, outs) == commit_texts(doc, tok, texts_of(outs)),
    decreases outs.len(),
{
    if outs.len() == 0 {
    } else {
        let rest = outs.subrange(1, outs.len() as int);
        match outs[0] {
            Resolution::Text(t) => {
                let d = replace_all_spec(doc, tok, t);
                lemma_commit_texts(d, tok, rest);
                let ts = texts_of(outs);
                assert(ts[0] == t);
                assert(ts.subrange(1, ts.len() as int) =~= texts_of(rest));
            },
            _ => {
                lemma_commit_texts(doc, tok, rest);
                assert(texts_of(outs) =~= texts_of(rest));
            },
        }
    }
}

/// Unfolds the dispatch of one more array element.
proof fn lemma_dispatch_seq_take(
    ctx: Seq<(String, JsonValue)>,
    path: Seq<Seq<char>>,
    args: Seq<Seq<char>>,
    es: Seq<JsonValue>,
    walked: bool,
    i: int,
)
    requires
        0 <= i < es.len(),
    ensures
        dispatch_seq_spec(ctx, path, args, es.subrange(0, i + 1), walked) == dispatch_seq_spec(
            ctx,
            path,
            args,
            es.subrange(0, i),
            walked,
        ) + dispatch_spec(ctx, path, args, es[i], walked),
    decreases i,
{
    if i == 0 {
        let s1 = es.subrange(0, 1);
        assert(s1[0] == es[0]);
        assert(s1.subrange(1, 1) =~= Seq::<JsonValue>::empty());
        assert(es.subrange(0, 0) =~= Seq::<JsonValue>::empty());
        assert(dispatch_seq_spec(ctx, path, args, s1, walked) =~= dispatch_seq_spec(
            ctx,
            path,
            args,
            es.subrange(0, 0),
            walked,
        ) + dispatch_spec(ctx, path, args, es[0], walked));
    } else {
        let s = es.subrange(1, es.len() as int);
        lemma_dispatch_seq_take(ctx, path, args, s, walked, i - 1);
        let a = es.subrange(0, i + 1);
        let b = es.subrange(0, i);
        assert(a[0] == es[0]);
        assert(b[0] == es[0]);
        assert(a.subrange(1, a.len() as int) =~= s.subrange(0, i));
        assert(b.subrange(1, b.len() as int) =~= s.subrange(0, i - 1));
        assert(s[i - 1] == es[i]);
        assert(dispatch_spec(ctx, path, args, es[0], walked) + (dispatch_seq_spec(
            ctx,
            path,
            args,
            s.subrange(0, i - 1),
            walked,
        ) + dispatch_spec(ctx, path, args, es[i], walked)) =~= (dispatch_spec(
            ctx,
            path,
            args,
            es[0],
            walked,
        ) + dispatch_seq_spec(ctx, path, args, s.subrange(0, i - 1), walked)) + dispatch_spec(
            ctx,
            path,
            args,
            es[i],
            walked,
        ));
    }
}

/// Unfolds the diagnostics of one more token.
proof fn lemma_reduce_diags_take(ctx: Seq<(String, JsonValue)>, toks: Seq<Seq<char>>, i: int)
    requires
        0 <= i < toks.len(),
    ensures
        reduce_diags_spec(ctx, toks.subrange(0, i + 1)) == reduce_diags_spec(
            ctx,
            toks.subrange(0, i),
        ) + token_diags(toks[i], token_outcomes(ctx, toks[i])),
    decreases i,
{
    if i == 0 {
        let s1 = toks.subrange(0, 1);
        assert(s1[0] == toks[0]);
        assert(s1.subrange(1, 1) =~= Seq::<Seq<char>>::empty());
        assert(toks.subrange(0, 0) =~= Seq::<Seq<char>>::empty());
        assert(reduce_diags_spec(ctx, s1) =~= reduce_diags_spec(ctx, toks.subrange(0, 0))
            + token_diags(toks[0], token_outcomes(ctx, toks[0])));
    } else {
        let s = toks.subrange(1, toks.len() as int);
        lemma_reduce_diags_take(ctx, s, i - 1);
        let a = toks.subrange(0, i + 1);
        let b = toks.subrange(0, i);
        assert(a[0] == toks[0]);
        assert(b[0] == toks[0]);
        assert(a.subrange(1, a.len() as int) =~= s.subrange(0, i));
        assert(b.subrange(1, b.len() as int) =~= s.subrange(0, i - 1));
        assert(s[i - 1] == toks[i]);
        let td0 = token_diags(toks[0], token_outcomes(ctx, toks[0]));
        let tdi = token_diags(toks[i], token_outcomes(ctx, toks[i]));
        assert(td0 + (reduce_diags_spec(ctx, s.subrange(0, i - 1)) + tdi) =~= (td0
            + reduce_diags_spec(ctx, s.subrange(0, i - 1))) + tdi);
    }
}

/// Decomposes one raw placeholder token into its first path segment, the full
/// comma-separated argument list, and the dotted path.
pub fn parse_alias(raw_alias: &str) -> (r: (String, Vec<String>, Vec<String>))
    ensures
        r.1.deep_view() == token_args(raw_alias@),
        r.2.deep_view() == token_path(raw_alias@),
        r.0@ == token_path(raw_alias@)[0],
{
    proof {
        reveal_strlit("a(:");
        reveal_strlit(":)");
        assert("a(:"@ =~= open_mark());
        assert(":)"@ =~= close_mark());
    }
    let inner = strip_suffix(strip_prefix(raw_alias, "a(:"), ":)");
    let alias_args = split_char(inner, ',');
    proof {
        lemma_split_nonempty(inner@, ',');
        assert(alias_args.deep_view().len() == alias_args@.len());
        assert(alias_args.deep_view()[0] == alias_args@[0]@);
    }
    let nesting = split_char(alias_args[0].as_str(), '.');
    proof {
        lemma_split_nonempty(alias_args@[0]@, '.');
        assert(nesting.deep_view().len() == nesting@.len());
        assert(nesting.deep_view()[0] == nesting@[0]@);
    }
    let alias_name = nesting[0].clone();
    (alias_name, alias_args, nesting)
}

fn push_failure(diags: &mut Vec<Diagnostic>, tok: &str, missing: bool)
    ensures
        final(diags)@.len() == old(diags)@.len() + 1,
        final(diags)@.subrange(0, old(diags)@.len() as int) == old(diags)@,
        final(diags)@.last().token@ == tok@,
        error_matches(
            final(diags)@.last().error,
            if missing {
                Resolution::Missing
            } else {
                Resolution::Unrenderable
            },
        ),
{
    let error = if missing {
        AliasError::InvalidAlias(String::from_str("Invalid alias"))
    } else {
        AliasError::InvalidContext(String::from_str("Invalid context"))
    };
    diags.push(Diagnostic { token: String::from_str(tok), error });
    proof {
        assert(final(diags)@.subrange(0, old(diags)@.len() as int) =~= old(diags)@);
    }
}

/// Dispatches on one candidate value, appending the committed texts and the
/// failures it yields.
fn check_type(
    ctx: &Vec<(String, JsonValue)>,
    path: &Vec<String>,
    args: &Vec<String>,
    tok: &str,
    v: &JsonValue,
    walked: bool,
    texts: &mut Vec<String>,
    diags: &mut Vec<Diagnostic>,
)
    ensures
        old(texts)@.len() <= final(texts)@.len(),
        old(diags)@.len() <= final(diags)@.len(),
        final(texts)@.subrange(0, old(texts)@.len() as int) == old(texts)@,
        texts_match(
            final(texts)@.skip(old(texts)@.len() as int),
            texts_of(dispatch_spec(ctx@, path.deep_view(), args.deep_view(), *v, walked)),
        ),
        final(diags)@.subrange(0, old(diags)@.len() as int) == old(diags)@,
        diags_match(
            final(diags)@.skip(old(diags)@.len() as int),
            token_diags(
                tok@,
                dispatch_spec(ctx@, path.deep_view(), args.deep_view(), *v, walked),
            ),
        ),
    decreases (if walked {
        0int
    } else {
        1int
    }), *v, 0int,
{
    let ghost outs = dispatch_spec(ctx@, path.deep_view(), args.deep_view(), *v, walked);
    match v {
        JsonValue::Str(s) => {
            let rendered = apply_alias_args(s.as_str(), args);
            texts.push(rendered);
            proof {
                lemma_outs_single(tok@, Resolution::Text(apply_args_spec(s@, args.deep_view())));
                assert(final(texts)@.subrange(0, old(texts)@.len() as int) =~= old(texts)@);
                assert(final(texts)@.skip(old(texts)@.len() as int) =~= seq![
                    final(texts)@.last(),
                ]);
                assert(final(diags)@.subrange(0, old(diags)@.len() as int) =~= old(diags)@);
                assert(final(diags)@.skip(old(diags)@.len() as int) =~= Seq::<
                    Diagnostic,
                >::empty());
            }
        },
        JsonValue::Num(t) => {
            texts.push(t.clone());
            proof {
                lemma_outs_single(tok@, Resolution::Text(t@));
                assert(final(texts)@.subrange(0, old(texts)@.len() as int) =~= old(texts)@);
                assert(final(texts)@.skip(old(texts)@.len() as int) =~= seq![
                    final(texts)@.last(),
                ]);
                assert(final(diags)@.subrange(0, old(diags)@.len() as int) =~= old(diags)@);
                assert(final(diags)@.skip(old(diags)@.len() as int) =~= Seq::<
                    Diagnostic,
                >::empty());
            }
        },
        JsonValue::Bool(b) => {
            texts.push(String::from_str(bool_str(*b)));
            proof {
                lemma_outs_single(tok@, Resolution::Text(bool_text(*b)));
                assert(final(texts)@.subrange(0, old(texts)@.len() as int) =~= old(texts)@);
                assert(final(texts)@.skip(old(texts)@.len() as int) =~= seq![
                    final(texts)@.last(),
                ]);
                assert(final(diags)@.subrange(0, old(diags)@.len() as int) =~= old(diags)@);
                assert(final(diags)@.skip(old(diags)@.len() as int) =~= Seq::<
                    Diagnostic,
                >::empty());
            }
        },
        JsonValue::Null => {
            push_failure(diags, tok, true);
            proof {
                lemma_outs_single(tok@, Resolution::Missing);
                assert(final(texts)@.subrange(0, old(texts)@.len() as int) =~= old(texts)@);
                assert(final(texts)@.skip(old(texts)@.len() as int) =~= Seq::<String>::empty());
                assert(final(diags)@.subrange(0, old(diags)@.len() as int) =~= old(diags)@);
                assert(final(diags)@.skip(old(diags)@.len() as int) =~= seq![
                    final(diags)@.last(),
                ]);
            }
        },
        JsonValue::Arr(es) => {
            let n = es.len();
            let mut i: usize = 0;
            proof {
                assert(es@.subrange(0, 0) =~= Seq::<JsonValue>::empty());
                assert(old(texts)@.subrange(0, old(texts)@.len() as int) =~= old(texts)@);
                assert(old(texts)@.skip(old(texts)@.len() as int) =~= Seq::<String>::empty());
                assert(old(diags)@.subrange(0, old(diags)@.len() as int) =~= old(diags)@);
                assert(old(diags)@.skip(old(diags)@.len() as int) =~= Seq::<Diagnostic>::empty());
            }
            while i < n
                invariant
                    *v is Arr,
                    v->Arr_0 == *es,
                    n == es@.len(),
                    0 <= i <= n,
                    texts@.len() >= old(texts)@.len(),
                    diags@.len() >= old(diags)@.len(),
                    texts@.subrange(0, old(texts)@.len() as int) == old(texts)@,
                    texts_match(
                        texts@.skip(old(texts)@.len() as int),
                        texts_of(
                            dispatch_seq_spec(
                                ctx@,
                                path.deep_view(),
                                args.deep_view(),
                                es@.subrange(0, i as int),
                                walked,
                            ),
                        ),
                    ),
                    diags@.subrange(0, old(diags)@.len() as int) == old(diags)@,
                    diags_match(
                        diags@.skip(old(diags)@.len() as int),
                        token_diags(
                            tok@,
                            dispatch_seq_spec(
                                ctx@,
                                path.deep_view(),
                                args.deep_view(),
                                es@.subrange(0, i as int),
                                walked,
                            ),
                        ),
                    ),
                decreases n - i,
            {
                proof {
                    assert(decreases_to!(*v => v->Arr_0));
                    assert(decreases_to!(v->Arr_0 => v->Arr_0@));
                    assert(decreases_to!(v->Arr_0@ => v->Arr_0@[i as int]));
                }
                let ghost t_mid = texts@;
                let ghost d_mid = diags@;
                check_type(ctx, path, args, tok, &es[i], walked, texts, diags);
                proof {
                    let pdv = path.deep_view();
                    let adv = args.deep_view();
                    let o_pre = dispatch_seq_spec(ctx@, pdv, adv, es@.subrange(0, i as int), walked);
                    let o_el = dispatch_spec(ctx@, pdv, adv, es@[i as int], walked);
                    lemma_dispatch_seq_take(ctx@, pdv, adv, es@, walked, i as int);
                    lemma_texts_of_concat(o_pre, o_el);
                    lemma_token_diags_concat(tok@, o_pre, o_el);
                    lemma_extend_prefix(old(texts)@, t_mid, texts@);
                    lemma_extend_prefix(old(diags)@, d_mid, diags@);
                    lemma_texts_match_concat(
                        t_mid.skip(old(texts)@.len() as int),
                        texts@.skip(t_mid.len() as int),
                        texts_of(o_pre),
                        texts_of(o_el),
                    );
                    lemma_diags_match_concat(
                        d_mid.skip(old(diags)@.len() as int),
                        diags@.skip(d_mid.len() as int),
                        token_diags(tok@, o_pre),
                        token_diags(tok@, o_el),
                    );
                }
                i += 1;
            }
            proof {
                assert(es@.subrange(0, n as int) =~= es@);
            }
        },
        JsonValue::Obj(_) => {
            if !walked {
                let plen = path.len();
                if plen == 0 {
                    push_failure(diags, tok, true);
                    proof {
                        lemma_outs_single(tok@, Resolution::Missing);
                        assert(final(texts)@.subrange(0, old(texts)@.len() as int) =~= old(
                            texts,
                        )@);
                        assert(final(texts)@.skip(old(texts)@.len() as int) =~= Seq::<
                            String,
                        >::empty());
                        assert(final(diags)@.subrange(0, old(diags)@.len() as int) =~= old(
                            diags,
                        )@);
                        assert(final(diags)@.skip(old(diags)@.len() as int) =~= seq![
                            final(diags)@.last(),
                        ]);
                    }
                } else {
                    proof {
                        assert(path.deep_view()[0] == path@[0]@);
                    }
                    let top = entries_get(ctx, path[0].as_str());
                    match top {
                        Some(v1) => {
                            match walk(v1, path, 1) {
                                Some(w) => {
                                    proof {
                                        assert(walk_ctx(ctx@, path.deep_view()) == Some(*w));
                                    }
                                    check_type(ctx, path, args, tok, w, true, texts, diags);
                                },
                                None => {
                                    push_failure(diags, tok, true);
                                    proof {
                                        lemma_outs_single(tok@, Resolution::Missing);
                                        assert(final(texts)@.subrange(
                                            0,
                                            old(texts)@.len() as int,
                                        ) =~= old(texts)@);
                                        assert(final(texts)@.skip(old(texts)@.len() as int) =~= Seq::<
                                            String,
                                        >::empty());
                                        assert(final(diags)@.subrange(
                                            0,
                                            old(diags)@.len() as int,
                                        ) =~= old(diags)@);
                                        assert(final(diags)@.skip(old(diags)@.len() as int) =~= seq![
                                            final(diags)@.last(),
                                        ]);
                                    }
                                },
                            }
                        },
                        None => {
                            push_failure(diags, tok, true);
                            proof {
                                lemma_outs_single(tok@, Resolution::Missing);
                                assert(final(texts)@.subrange(0, old(texts)@.len() as int) =~= old(
                                    texts,
                                )@);
                                assert(final(texts)@.skip(old(texts)@.len() as int) =~= Seq::<
                                    String,
                                >::empty());
                                assert(final(diags)@.subrange(0, old(diags)@.len() as int) =~= old(
                                    diags,
                                )@);
                                assert(final(diags)@.skip(old(diags)@.len() as int) =~= seq![
                                    final(diags)@.last(),
                                ]);
                            }
                        },
                    }
                }
            } else {
                push_failure(diags, tok, false);
                proof {
                    lemma_outs_single(tok@, Resolution::Unrenderable);
                    assert(final(texts)@.subrange(0, old(texts)@.len() as int) =~= old(texts)@);
                    assert(final(texts)@.skip(old(texts)@.len() as int) =~= Seq::<
                        String,
                    >::empty());
                    assert(final(diags)@.subrange(0, old(diags)@.len() as int) =~= old(diags)@);
                    assert(final(diags)@.skip(old(diags)@.len() as int) =~= seq![
                        final(diags)@.last(),
                    ]);
                }
            }
        },
    }
}

impl Reducer {
    /// Wraps a run's inputs; no diagnostics yet.
    pub fn new(config: ReducerConfig) -> (r: Reducer)
        ensures
            r.config == config,
            r.diagnostics@.len() == 0,
    {
        Reducer { config, diagnostics: Vec::new() }
    }

    /// Runs the pass: resolves every token in order against the context,
    /// committing each terminal text into the document and recording one
    /// diagnostic per failure; returns the final document text.
    pub fn init(&mut self) -> (r: String)
        ensures
            r@ == reduce_doc_spec(
                old(self).config.ctx@,
                old(self).config.src_string@,
                old(self).config.aliases.deep_view(),
            ),
            final(self).config.src_string@ == r@,
            final(self).config.ctx == old(self).config.ctx,
            final(self).config.aliases == old(self).config.aliases,
            final(self).diagnostics@.subrange(0, old(self).diagnostics@.len() as int) == old(
                self,
            ).diagnostics@,
            diags_match(
                final(self).diagnostics@.skip(old(self).diagnostics@.len() as int),
                reduce_diags_spec(old(self).config.ctx@, old(self).config.aliases.deep_view()),
            ),
    {
        let ghost ctx0 = self.config.ctx@;
        let ghost toks = self.config.aliases.deep_view();
        let ghost doc0 = self.config.src_string@;
        let ghost base = old(self).diagnostics@.len() as int;
        let n = self.config.aliases.len();
        let mut idx: usize = 0;
        proof {
            assert(toks.subrange(0, toks.len() as int) =~= toks);
            assert(toks.subrange(0, 0) =~= Seq::<Seq<char>>::empty());
            assert(self.diagnostics@.subrange(0, base) =~= old(self).diagnostics@);
            assert(self.diagnostics@.skip(base) =~= Seq::<Diagnostic>::empty());
        }
        while idx < n
            invariant
                n == self.config.aliases@.len(),
                0 <= idx <= n,
                self.config.ctx == old(self).config.ctx,
                self.config.aliases == old(self).config.aliases,
                ctx0 == self.config.ctx@,
                toks == self.config.aliases.deep_view(),
                base == old(self).diagnostics@.len() as int,
                self.diagnostics@.len() >= base,
                reduce_doc_spec(ctx0, doc0, toks) == reduce_doc_spec(
                    ctx0,
                    self.config.src_string@,
                    toks.skip(idx as int),
                ),
                self.diagnostics@.subrange(0, base) == old(self).diagnostics@,
                diags_match(
                    self.diagnostics@.skip(base),
                    reduce_diags_spec(ctx0, toks.subrange(0, idx as int)),
                ),
            decreases n - idx,
        {
            proof {
                assert(toks[idx as int] == self.config.aliases@[idx as int]@);
            }
            let tok = self.config.aliases[idx].clone();
            let (alias_name, alias_args, nesting) = parse_alias(tok.as_str());
            let ghost outs = token_outcomes(ctx0, toks[idx as int]);
            let ghost d_before = self.diagnostics@;
            let mut texts: Vec<String> = Vec::new();
            match entries_get(&self.config.ctx, alias_name.as_str()) {
                None => {
                    push_failure(&mut self.diagnostics, tok.as_str(), true);
                    proof {
                        lemma_outs_single(toks[idx as int], Resolution::Missing);
                        assert(outs =~= seq![Resolution::Missing]);
                        assert(texts_of(outs) =~= Seq::<Seq<char>>::empty());
                        assert(self.diagnostics@.skip(d_before.len() as int) =~= seq![
                            self.diagnostics@.last(),
                        ]);
                        assert(diags_match(
                            self.diagnostics@.skip(d_before.len() as int),
                            token_diags(toks[idx as int], outs),
                        ));
                    }
                },
                Some(v0) => {
                    proof {
                        assert(outs == dispatch_spec(
                            ctx0,
                            token_path(toks[idx as int]),
                            token_args(toks[idx as int]),
                            *v0,
                            false,
                        ));
                    }
                    check_type(
                        &self.config.ctx,
                        &nesting,
                        &alias_args,
                        tok.as_str(),
                        v0,
                        false,
                        &mut texts,
                        &mut self.diagnostics,
                    );
                    proof {
                        assert(texts@.subrange(0, 0) =~= Seq::<String>::empty());
                        assert(texts@.skip(0) =~= texts@);
                    }
                },
            }
            proof {
                lemma_commit_texts(self.config.src_string@, toks[idx as int], outs);
                assert(texts_of(outs).skip(0) =~= texts_of(outs));
                assert(texts@.skip(0) =~= texts@);
                assert(texts_match(texts@, texts_of(outs)));
            }
            let ghost doc_tok = self.config.src_string@;
            let ghost tseq = texts_of(outs);
            let ghost d_after = self.diagnostics@;
            let m = texts.len();
            let mut j: usize = 0;
            while j < m
                invariant
                    m == texts@.len(),
                    0 <= j <= m,
                    texts_match(texts@, tseq),
                    toks == self.config.aliases.deep_view(),
                    toks[idx as int] == tok@,
                    0 <= idx < toks.len(),
                    self.config.ctx == old(self).config.ctx,
                    self.config.aliases == old(self).config.aliases,
                    self.diagnostics@ == d_after,
                    commit_texts(doc_tok, tok@, tseq) == commit_texts(
                        self.config.src_string@,
                        tok@,
                        tseq.skip(j as int),
                    ),
                decreases m - j,
            {
                proof {
                    assert(tseq.skip(j as int)[0] == tseq[j as int]);
                    assert(tseq.skip(j as int).subrange(1, tseq.skip(j as int).len() as int)
                        =~= tseq.skip(j + 1));
                }
                let next = replace_all(
                    self.config.src_string.as_str(),
                    tok.as_str(),
                    texts[j].as_str(),
                );
                self.config.src_string = next;
                j += 1;
            }
            proof {
                assert(tseq.skip(m as int).len() == 0);
                assert(commit_texts(doc_tok, tok@, tseq) == self.config.src_string@);
                assert(toks.skip(idx as int)[0] == toks[idx as int]);
                assert(toks.skip(idx as int).subrange(1, toks.skip(idx as int).len() as int)
                    =~= toks.skip(idx + 1));
                lemma_reduce_diags_take(ctx0, toks, idx as int);
                assert(self.diagnostics@.subrange(0, d_before.len() as int) == d_before);
                lemma_extend_prefix(old(self).diagnostics@, d_before, self.diagnostics@);
                assert(diags_match(
                    self.diagnostics@.skip(d_before.len() as int),
                    token_diags(tok@, outs),
                ));
                lemma_diags_match_concat(
                    d_before.skip(base),
                    self.diagnostics@.skip(d_before.len() as int),
                    reduce_diags_spec(ctx0, toks.subrange(0, idx as int)),
                    token_diags(toks[idx as int], token_outcomes(ctx0, toks[idx as int])),
                );
            }
            idx += 1;
        }
        proof {
            assert(toks.skip(n as int).len() == 0);
        }
        self.config.src_string.clone()
    }
}

} // verus!
