//! Preprocessor implementation: rewriting chapters' references.

use vstd::prelude::*;

use crate::error::{result_view, Error, ErrorView};
use crate::links::{
    lemma_reference_spans_ordered, locate_references, located, reference_spans, span_reference,
    spans_ordered,
};
use crate::resolver::{str_opt, text_of, ReferenceResolver};
use crate::text::{append_chars, append_str, push_char, str_chars, str_eq, string_of};

verus! {

/// Reference resolver preprocessor for MDBook.
pub struct RefResolverPreprocessor;

impl RefResolverPreprocessor {
    /// A new preprocessor.
    pub fn new() -> Self {
        Self
    }

    /// The preprocessor's name, under which `book.toml` configures it.
    pub fn name(&self) -> (r: &'static str)
        ensures
            r@ == "ref-resolver"@,
    {
        "ref-resolver"
    }

    /// Whether the preprocessor supports `renderer`: every renderer but
    /// `not-supported` (it only rewrites links).
    pub fn supports_renderer(&self, renderer: &str) -> (r: bool)
        ensures
            r == (renderer@ != "not-supported"@),
    {
        !str_eq(renderer, "not-supported")
    }
}

impl Default for RefResolverPreprocessor {
    fn default() -> Self {
        Self::new()
    }
}

/// A chapter of a book, as far as resolving its references reads it.
pub struct Chapter {
    /// The chapter's name.
    pub name: String,
    /// The chapter's contents.
    pub content: String,
    /// The chapter's location, relative to the `SUMMARY.md` file; `None` for
    /// a draft chapter.
    pub path: Option<String>,
}

/// The text `s` after its references at `spans` are replaced by the texts
/// in `outs`, last reference first, stopping at the first error met that
/// way (the error of the last failing reference).
pub open spec fn apply_outcomes(
    s: Seq<char>,
    spans: Seq<(int, int)>,
    outs: Seq<Result<Seq<char>, ErrorView>>,
) -> Result<Seq<char>, ErrorView>
    decreases spans.len(),
{
    if spans.len() == 0 || outs.len() == 0 {
        Ok(s)
    } else {
        match outs.last() {
            Err(e) => Err(e),
            Ok(t) => apply_outcomes(
                s.take(spans.last().0) + t + s.skip(spans.last().1),
                spans.drop_last(),
                outs.drop_last(),
            ),
        }
    }
}

/// `outs` holds, for each reference in `s`, an outcome the resolver may give
/// it in a chapter at `chapter`.
pub open spec fn outcomes_allowed(
    resolver: ReferenceResolver,
    s: Seq<char>,
    chapter: Option<Seq<char>>,
    outs: Seq<Result<Seq<char>, ErrorView>>,
) -> bool {
    let spans = reference_spans(s);
    &&& outs.len() == spans.len()
    &&& forall|k: int|
        #![trigger outs[k]]
        0 <= k < outs.len() ==> resolver.resolves_to(
            span_reference(s, spans[k]).0,
            span_reference(s, spans[k]).1,
            chapter,
            outs[k],
        )
}

/// A result over characters, read as plain values.
pub open spec fn chars_result_view(r: Result<Vec<char>, Error>) -> Result<Seq<char>, ErrorView> {
    match r {
        Ok(v) => Ok(v@),
        Err(e) => Err(e@),
    }
}

/// Resolves the references in `chars`, last first, and replaces each by what
/// it resolves to; stops at the first reference that fails.
fn resolve_all(chars: Vec<char>, resolver: &ReferenceResolver, chapter: Option<&str>) -> (r: Result<
    Vec<char>,
    Error,
>)
    ensures
        exists|outs: Seq<Result<Seq<char>, ErrorView>>|
            #![trigger outcomes_allowed(*resolver, chars@, str_opt(chapter), outs)]
            {
                &&& outcomes_allowed(*resolver, chars@, str_opt(chapter), outs)
                &&& chars_result_view(r) == apply_outcomes(chars@, reference_spans(chars@), outs)
            },
{
    let ghost s = chars@;
    let ghost ch = str_opt(chapter);
    let refs = locate_references(chars.as_slice());
    let ghost spans = reference_spans(s);
    proof {
        lemma_reference_spans_ordered(s);
    }
    let n = refs.len();
    let mut cur = chars;
    let mut j = n;
    let ghost mut obs: Seq<Result<Seq<char>, ErrorView>> = Seq::empty();
    proof {
        assert forall|p: Seq<Result<Seq<char>, ErrorView>>| p.len() == j implies #[trigger] apply_outcomes(
            cur@,
            spans.take(j as int),
            p,
        ) == apply_outcomes(s, spans, p + obs) by {
            assert(p + obs =~= p);
            assert(spans.take(j as int) =~= spans);
        }
    }
    while j > 0
        invariant
            s == chars@,
            located(s, refs@),
            n == refs@.len(),
            spans == reference_spans(s),
            spans_ordered(spans, 0, s.len() as int),
            ch == str_opt(chapter),
            j <= n,
            obs.len() == n - j,
            forall|k: int|
                #![trigger obs[k]]
                0 <= k < obs.len() ==> resolver.resolves_to(
                    span_reference(s, spans[j + k]).0,
                    span_reference(s, spans[j + k]).1,
                    ch,
                    obs[k],
                ),
            forall|p: Seq<Result<Seq<char>, ErrorView>>|
                p.len() == j ==> #[trigger] apply_outcomes(cur@, spans.take(j as int), p)
                    == apply_outcomes(s, spans, p + obs),
            j < n ==> cur@.len() >= spans[j as int].0 && cur@.take(spans[j as int].0) == s.take(
                spans[j as int].0,
            ),
            j == n ==> cur@ == s,
        decreases j,
    {
        let k = j - 1;
        let a = refs[k].0;
        let b = refs[k].1;
        assert(spans[k as int] == (a as int, b as int));
        assert(span_reference(s, spans[k as int]) == (refs@[k as int].2.prefix@, refs@[k as int].2.value@));
        if j < n {
            assert(spans[k as int].1 <= spans[j as int].0);
        }
        let out = resolver.resolve(&refs[k].2, chapter);
        match out {
            Err(e) => {
                proof {
                    let fill = Seq::new(
                        k as nat,
                        |i: int|
                            choose|o: Result<Seq<char>, ErrorView>|
                                resolver.resolves_to(
                                    span_reference(s, spans[i]).0,
                                    span_reference(s, spans[i]).1,
                                    ch,
                                    o,
                                ),
                    );
                    let q = fill.push(Err::<Seq<char>, ErrorView>(e@));
                    let w = q + obs;
                    assert forall|i: int| #![trigger w[i]] 0 <= i < w.len() implies resolver.resolves_to(
                        span_reference(s, spans[i]).0,
                        span_reference(s, spans[i]).1,
                        ch,
                        w[i],
                    ) by {
                        if i < k {
                            resolver.lemma_outcome_exists(
                                span_reference(s, spans[i]).0,
                                span_reference(s, spans[i]).1,
                                ch,
                            );
                            assert(w[i] == fill[i]);
                        } else if i == k {
                            assert(w[i] == Err::<Seq<char>, ErrorView>(e@));
                        } else {
                            assert(w[i] == obs[i - j]);
                        }
                    }
                    assert(apply_outcomes(cur@, spans.take(j as int), q) == apply_outcomes(s, spans, q + obs));
                    assert(spans.take(j as int).last() == spans[k as int]);
                    assert(q.last() == Err::<Seq<char>, ErrorView>(e@));
                    assert(apply_outcomes(cur@, spans.take(j as int), q) == Err::<Seq<char>, ErrorView>(e@));
                    assert(apply_outcomes(s, spans, w) == Err::<Seq<char>, ErrorView>(e@));
                    assert(outcomes_allowed(*resolver, s, ch, w));
                    assert(chars_result_view(Err::<Vec<char>, Error>(e)) == apply_outcomes(s, spans, w));
                }
                return Err(e);
            },
            Ok(t) => {
                let t_chars = str_chars(t.as_str());
                let len = cur.len();
                let mut next: Vec<char> = Vec::new();
                append_chars(&mut next, &cur[0..a]);
                append_chars(&mut next, t_chars.as_slice());
                append_chars(&mut next, &cur[b..len]);
                proof {
                    let old_cur = cur@;
                    assert(next@ =~= old_cur.take(a as int) + t@ + old_cur.skip(b as int));
                    let new_obs = seq![Ok::<Seq<char>, ErrorView>(t@)] + obs;
                    assert forall|p: Seq<Result<Seq<char>, ErrorView>>| p.len() == k implies #[trigger] apply_outcomes(
                        next@,
                        spans.take(k as int),
                        p,
                    ) == apply_outcomes(s, spans, p + new_obs) by {
                        let q = p.push(Ok::<Seq<char>, ErrorView>(t@));
                        assert(p + new_obs =~= q + obs);
                        assert(q.drop_last() =~= p);
                        assert(spans.take(j as int).drop_last() =~= spans.take(k as int));
                        assert(spans.take(j as int).last() == spans[k as int]);
                        assert(apply_outcomes(old_cur, spans.take(j as int), q) == apply_outcomes(
                            s,
                            spans,
                            q + obs,
                        ));
                    }
                    assert forall|i: int| #![trigger new_obs[i]] 0 <= i < new_obs.len() implies resolver.resolves_to(
                        span_reference(s, spans[k + i]).0,
                        span_reference(s, spans[k + i]).1,
                        ch,
                        new_obs[i],
                    ) by {
                        if i > 0 {
                            assert(new_obs[i] == obs[i - 1]);
                        }
                    }
                    assert(next@.take(a as int) =~= s.take(a as int)) by {
                        if j < n {
                            assert(old_cur.take(spans[j as int].0).take(a as int) =~= old_cur.take(
                                a as int,
                            ));
                            assert(s.take(spans[j as int].0).take(a as int) =~= s.take(a as int));
                        }
                    }
                    obs = new_obs;
                }
                cur = next;
                j = k;
            },
        }
    }
    proof {
        let e = Seq::<Result<Seq<char>, ErrorView>>::empty();
        assert(e + obs =~= obs);
        assert(apply_outcomes(cur@, spans.take(0), e) == apply_outcomes(s, spans, e + obs));
        assert(outcomes_allowed(*resolver, s, ch, obs)) by {
            assert forall|i: int| #![trigger obs[i]] 0 <= i < obs.len() implies resolver.resolves_to(
                span_reference(s, spans[i]).0,
                span_reference(s, spans[i]).1,
                ch,
                obs[i],
            ) by {
                assert(spans[0 + i] == spans[i]);
            }
        }
    }
    Ok(cur)
}

/// Process a single chapter, resolving all references.
///
/// On success every reference in the chapter is replaced by what it resolves
/// to; on failure the chapter is left as it was and the error of the last
/// failing reference is returned.
pub fn process_chapter(chapter: &mut Chapter, resolver: &ReferenceResolver) -> (r: Result<(), Error>)
    ensures
        final(chapter).name == old(chapter).name,
        final(chapter).path == old(chapter).path,
        exists|outs: Seq<Result<Seq<char>, ErrorView>>|
            #![trigger outcomes_allowed(*resolver, old(chapter).content@, text_of(old(chapter).path), outs)]
            {
                let s = old(chapter).content@;
                &&& outcomes_allowed(*resolver, s, text_of(old(chapter).path), outs)
                &&& match apply_outcomes(s, reference_spans(s), outs) {
                    Ok(t) => r is Ok && final(chapter).content@ == t,
                    Err(e) => r matches Err(x) && x@ == e && final(chapter).content@ == s,
                }
            },
{
    let chars = str_chars(chapter.content.as_str());
    let result = match &chapter.path {
        Some(p) => resolve_all(chars, resolver, Some(p.as_str())),
        None => resolve_all(chars, resolver, None),
    };
    match result {
        Ok(v) => {
            chapter.content = string_of(v.as_slice());
            Ok(())
        },
        Err(e) => Err(e),
    }
}

/// Process chapter content, resolving all references.
///
/// References are resolved as in a chapter without a path: file references
/// are given relative to the book root.
pub fn process_content(content: &str, resolver: &ReferenceResolver) -> (r: Result<String, Error>)
    ensures
        exists|outs: Seq<Result<Seq<char>, ErrorView>>|
            {
                &&& outcomes_allowed(*resolver, content@, None, outs)
                &&& result_view(r) == apply_outcomes(content@, reference_spans(content@), outs)
            },
        reference_spans(content@).len() == 0 ==> (r matches Ok(x) && x@ == content@),
{
    let chars = str_chars(content);
    match resolve_all(chars, resolver, None) {
        Ok(v) => Ok(string_of(v.as_slice())),
        Err(e) => Err(e),
    }
}

/// `s` with the spans replaced by `texts`: what precedes the last span, with
/// its own spans replaced, then the last text, then what follows the last
/// span, untouched.
pub open spec fn interleave(s: Seq<char>, spans: Seq<(int, int)>, texts: Seq<Seq<char>>) -> Seq<
    char,
>
    decreases spans.len(),
{
    if spans.len() == 0 {
        s
    } else {
        interleave(s.take(spans.last().0), spans.drop_last(), texts.drop_last()) + texts.last()
            + s.skip(spans.last().1)
    }
}

/// Replacing spans that lie within `x` does not touch what follows `x`.
pub proof fn lemma_apply_outcomes_suffix(
    x: Seq<char>,
    y: Seq<char>,
    spans: Seq<(int, int)>,
    outs: Seq<Result<Seq<char>, ErrorView>>,
)
    requires
        spans_ordered(spans, 0, x.len() as int),
        outs.len() == spans.len(),
    ensures
        apply_outcomes(x + y, spans, outs) == match apply_outcomes(x, spans, outs) {
            Ok(t) => Ok::<Seq<char>, ErrorView>(t + y),
            Err(e) => Err(e),
        },
    decreases spans.len(),
{
    if spans.len() > 0 {
        let (a, b) = spans.last();
        assert(spans[spans.len() - 1] == spans.last());
        match outs.last() {
            Err(e) => {},
            Ok(t) => {
                let x2 = x.take(a) + t + x.skip(b);
                assert((x + y).take(a) + t + (x + y).skip(b) =~= x2 + y);
                let sp = spans.drop_last();
                assert(spans_ordered(sp, 0, x2.len() as int)) by {
                    assert forall|i: int| #![trigger sp[i]] 0 <= i < sp.len() implies 0 <= sp[i].0
                        <= sp[i].1 <= x2.len() by {
                        assert(sp[i] == spans[i]);
                        assert(spans[i].1 <= spans[spans.len() - 1].0);
                    }
                    assert forall|i: int, j: int| #![trigger sp[i], sp[j]] 0 <= i < j < sp.len() implies sp[i].1
                        <= sp[j].0 by {
                        assert(sp[i] == spans[i] && sp[j] == spans[j]);
                    }
                }
                lemma_apply_outcomes_suffix(x2, y, sp, outs.drop_last());
            },
        }
    }
}

/// A run in which every reference resolves keeps all the text outside the
/// references: the result is the text with each reference's span replaced
/// by what it resolved to, and nothing else changed.
pub proof fn lemma_success_keeps_text(
    s: Seq<char>,
    spans: Seq<(int, int)>,
    texts: Seq<Seq<char>>,
)
    requires
        spans_ordered(spans, 0, s.len() as int),
        texts.len() == spans.len(),
    ensures
        apply_outcomes(s, spans, texts.map_values(|t: Seq<char>| Ok::<Seq<char>, ErrorView>(t)))
            == Ok::<Seq<char>, ErrorView>(interleave(s, spans, texts)),
    decreases spans.len(),
{
    let outs = texts.map_values(|t: Seq<char>| Ok::<Seq<char>, ErrorView>(t));
    if spans.len() > 0 {
        let (a, b) = spans.last();
        assert(spans[spans.len() - 1] == spans.last());
        let t = texts.last();
        assert(outs.last() == Ok::<Seq<char>, ErrorView>(t));
        let head = s.take(a);
        let sp = spans.drop_last();
        assert(spans_ordered(sp, 0, head.len() as int)) by {
            assert forall|i: int| #![trigger sp[i]] 0 <= i < sp.len() implies 0 <= sp[i].0 <= sp[i].1
                <= head.len() by {
                assert(sp[i] == spans[i]);
                assert(spans[i].1 <= spans[spans.len() - 1].0);
            }
            assert forall|i: int, j: int| #![trigger sp[i], sp[j]] 0 <= i < j < sp.len() implies sp[i].1
                <= sp[j].0 by {
                assert(sp[i] == spans[i] && sp[j] == spans[j]);
            }
        }
        assert(outs.drop_last() =~= texts.drop_last().map_values(
            |t: Seq<char>| Ok::<Seq<char>, ErrorView>(t),
        ));
        lemma_apply_outcomes_suffix(head, t + s.skip(b), sp, outs.drop_last());
        lemma_success_keeps_text(head, sp, texts.drop_last());
        assert(head + t + s.skip(b) =~= head + (t + s.skip(b)));
        assert(interleave(head, sp, texts.drop_last()) + (t + s.skip(b)) =~= interleave(
            head,
            sp,
            texts.drop_last(),
        ) + t + s.skip(b));
    }
}

/// When reference `k` fails with `e` and every reference after it resolves,
/// the run fails with `e`: the error is that of the last failing reference,
/// and no partly rewritten text comes back.
pub proof fn lemma_last_failure_wins(
    s: Seq<char>,
    spans: Seq<(int, int)>,
    outs: Seq<Result<Seq<char>, ErrorView>>,
    k: int,
    e: ErrorView,
)
    requires
        outs.len() == spans.len(),
        0 <= k < outs.len(),
        outs[k] == Err::<Seq<char>, ErrorView>(e),
        forall|j: int| k < j < outs.len() ==> #[trigger] outs[j] is Ok,
    ensures
        apply_outcomes(s, spans, outs) == Err::<Seq<char>, ErrorView>(e),
    decreases outs.len(),
{
    let n = outs.len() - 1;
    if k < n {
        assert(outs[n] is Ok);
        let (a, b) = spans.last();
        let t = outs.last()->Ok_0;
        let rest = outs.drop_last();
        assert(rest[k] == outs[k]);
        assert forall|j: int| k < j < rest.len() implies #[trigger] rest[j] is Ok by {
            assert(rest[j] == outs[j]);
        }
        lemma_last_failure_wins(s.take(a) + t + s.skip(b), spans.drop_last(), rest, k, e);
    }
}

/// Once every reference in `s` resolves, the result holds all of the text
/// outside the references, unchanged, with each reference replaced by what
/// it resolved to.
pub proof fn lemma_resolved_content_keeps_text(s: Seq<char>, texts: Seq<Seq<char>>)
    requires
        texts.len() == reference_spans(s).len(),
    ensures
        apply_outcomes(
            s,
            reference_spans(s),
            texts.map_values(|t: Seq<char>| Ok::<Seq<char>, ErrorView>(t)),
        ) == Ok::<Seq<char>, ErrorView>(interleave(s, reference_spans(s), texts)),
{
    lemma_reference_spans_ordered(s);
    lemma_success_keeps_text(s, reference_spans(s), texts);
}

/// The lines of `errors`, each after a newline.
pub open spec fn joined_lines(errors: Seq<Seq<char>>) -> Seq<char>
    decreases errors.len(),
{
    if errors.len() == 0 {
        Seq::empty()
    } else if errors.len() == 1 {
        errors[0]
    } else {
        joined_lines(errors.drop_last()) + seq!['\n'] + errors.last()
    }
}

/// The message that reports failed references: `None` where there are none,
/// else a heading and one line per error.
pub fn resolution_error_summary(errors: &Vec<String>) -> (r: Option<String>)
    ensures
        errors@.len() == 0 ==> r is None,
        errors@.len() > 0 ==> (r matches Some(m) && m@ == "Reference resolution errors:\n"@
            + joined_lines(errors.deep_view())),
{
    if errors.len() == 0 {
        return None;
    }
    let mut out = "Reference resolution errors:\n".to_owned();
    let ghost head = out@;
    let mut i: usize = 0;
    while i < errors.len()
        invariant
            i <= errors@.len(),
            errors@.len() > 0,
            out@ == head + joined_lines(errors.deep_view().take(i as int)),
        decreases errors.len() - i,
    {
        let ghost before = out@;
        assert(errors.deep_view().take(i + 1).drop_last() =~= errors.deep_view().take(i as int));
        if i > 0 {
            push_char(&mut out, '\n');
        }
        append_str(&mut out, errors[i].as_str());
        proof {
            if i == 0 {
                assert(errors.deep_view().take(1)[0] == errors@[0]@);
                assert(joined_lines(errors.deep_view().take(0)) =~= Seq::<char>::empty());
            }
        }
        assert(out@ =~= head + joined_lines(errors.deep_view().take(i + 1)));
        i = i + 1;
    }
    assert(errors.deep_view().take(i as int) =~= errors.deep_view());
    Some(out)
}

} // verus!
