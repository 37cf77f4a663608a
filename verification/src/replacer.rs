//! The replacer: substitutes a replacement for accepted match spans,
//! left to right, and hands every candidate to a caller-supplied
//! accept/reject predicate first.

use vstd::prelude::*;
use vstd::string::StrSliceExecFns;
use vstd::string::StringExecFns;

use crate::clike::Identifier;
use crate::matcher::{find, find_all, MatchView};
use crate::nfa::NfaModel;

verus! {

/// The text with `rep` substituted for each listed span, taken left to
/// right from offset `pos` and span index `k` on; a span that overlaps an
/// earlier one, runs backwards or leaves the text is skipped.
pub open spec fn splice(
    text: Seq<char>,
    spans: Seq<(int, int)>,
    rep: Seq<char>,
    pos: int,
    k: int,
) -> Seq<char>
    decreases spans.len() - k,
{
    if k >= spans.len() || k < 0 {
        if 0 <= pos <= text.len() {
            text.subrange(pos, text.len() as int)
        } else {
            Seq::empty()
        }
    } else {
        let a = spans[k].0;
        let b = spans[k].1;
        if pos <= a && a <= b && b <= text.len() {
            text.subrange(pos, a) + rep + splice(text, spans, rep, b, k + 1)
        } else {
            splice(text, spans, rep, pos, k + 1)
        }
    }
}

/// Substitutes `rep` for every applicable span, in increasing offset
/// order.
#[verifier::loop_isolation(false)]
pub fn replace_spans(text: &str, spans: &Vec<(usize, usize)>, rep: &str) -> (r: String)
    ensures
        r@ == splice(
            text@,
            spans@.map_values(|p: (usize, usize)| (p.0 as int, p.1 as int)),
            rep@,
            0,
            0,
        ),
{
    let ghost sv = spans@.map_values(|p: (usize, usize)| (p.0 as int, p.1 as int));
    let n = text.unicode_len();
    let mut out = String::new();
    proof {
        assert(out@ + splice(text@, sv, rep@, 0, 0) =~= splice(text@, sv, rep@, 0, 0));
    }
    let mut pos: usize = 0;
    let mut k: usize = 0;
    while k < spans.len()
        invariant
            n == text@.len(),
            sv == spans@.map_values(|p: (usize, usize)| (p.0 as int, p.1 as int)),
            sv.len() == spans@.len(),
            k <= sv.len(),
            pos <= n,
            out@ + splice(text@, sv, rep@, pos as int, k as int) == splice(text@, sv, rep@, 0, 0),
        decreases sv.len() - k,
    {
        let a = spans[k].0;
        let b = spans[k].1;
        if pos <= a && a <= b && b <= n {
            out.append(text.substring_char(pos, a));
            out.append(rep);
            pos = b;
        }
        k = k + 1;
        proof {
            assert(out@ + splice(text@, sv, rep@, pos as int, k as int) =~= splice(
                text@,
                sv,
                rep@,
                0,
                0,
            ));
        }
    }
    out.append(text.substring_char(pos, n));
    proof {
        assert(out@ =~= splice(text@, sv, rep@, 0, 0));
    }
    out
}

/// The spans of the matches accepted by the first `k` decisions.
pub open spec fn selected_spans(ms: Seq<MatchView>, dec: Seq<bool>, k: int) -> Seq<(int, int)>
    decreases k,
{
    if k <= 0 {
        Seq::empty()
    } else {
        selected_spans(ms, dec, k - 1) + (if 0 <= k - 1 < dec.len() && dec[k - 1] {
            seq![(ms[k - 1].start, ms[k - 1].end)]
        } else {
            Seq::empty()
        })
    }
}

/// The spans of the identifier records whose resolved type equals `typ`
/// and that the first `k` decisions accept.
pub open spec fn semantic_spans(
    ids: Seq<Identifier>,
    typ: Seq<char>,
    dec: Seq<bool>,
    k: int,
) -> Seq<(int, int)>
    decreases k,
{
    if k <= 0 {
        Seq::empty()
    } else {
        semantic_spans(ids, typ, dec, k - 1) + (if ids[k - 1].typ@ == typ && 0 <= k - 1 < dec.len()
            && dec[k - 1] {
            seq![(ids[k - 1].start as int, ids[k - 1].end as int)]
        } else {
            Seq::empty()
        })
    }
}

/// Decision `d` is one the predicate could return for the match `v`,
/// offered its matched substring and no semantic context.
pub open spec fn decision_ok<F: Fn(&String, &Option<String>) -> bool>(
    accept: F,
    text: Seq<char>,
    v: MatchView,
    d: bool,
) -> bool {
    exists|s: String, o: Option<String>|
        o is None && ((0 <= v.start <= v.end <= text.len()) ==> s@ == text.subrange(
            v.start,
            v.end,
        )) && #[trigger] call_ensures(accept, (&s, &o), d)
}

/// Every decision is one the predicate could return for the corresponding
/// match.
pub open spec fn decisions_ok<F: Fn(&String, &Option<String>) -> bool>(
    accept: F,
    text: Seq<char>,
    all: Seq<MatchView>,
    dec: Seq<bool>,
) -> bool {
    forall|j: int| 0 <= j < dec.len() ==> decision_ok(accept, text, all[j], #[trigger] dec[j])
}

/// Finds every leftmost non-overlapping match of the pattern in `text`,
/// invokes the caller-supplied predicate on each matched substring (with
/// no semantic context), and substitutes `rep` for exactly the accepted
/// matches.  With no accepted match the text comes back unchanged.
#[verifier::loop_isolation(false)]
pub fn replace<F: Fn(&String, &Option<String>) -> bool>(
    text: &str,
    model: &NfaModel,
    rep: &str,
    accept: F,
) -> (r: String)
    requires
        forall|x: (&String, &Option<String>)| #[trigger] accept.requires(x),
    ensures
        exists|dec: Seq<bool>|
            dec.len() == find_all(*model, text@, 0).len() && decisions_ok(
                accept,
                text@,
                find_all(*model, text@, 0),
                dec,
            ) && r@ == splice(
                text@,
                selected_spans(find_all(*model, text@, 0), dec, dec.len() as int),
                rep@,
                0,
                0,
            ),
{
    let n = text.unicode_len();
    let ms = find(text, model);
    let ghost all = find_all(*model, text@, 0);
    let mut spans: Vec<(usize, usize)> = Vec::new();
    let ghost mut dec: Seq<bool> = Seq::empty();
    let mut k: usize = 0;
    while k < ms.len()
        invariant
            n == text@.len(),
            ms@.len() == all.len(),
            forall|j: int|
                0 <= j < ms@.len() ==> crate::matcher::match_matches(#[trigger] ms@[j], all[j]),
            k <= ms@.len(),
            dec.len() == k,
            decisions_ok(accept, text@, all, dec),
            spans@.map_values(|p: (usize, usize)| (p.0 as int, p.1 as int)) == selected_spans(
                all,
                dec,
                k as int,
            ),
        decreases ms@.len() - k,
    {
        let a = ms[k].start;
        let b = ms[k].end;
        let sub = if a <= b && b <= n {
            text.substring_char(a, b).to_owned()
        } else {
            String::new()
        };
        let ctx: Option<String> = None;
        let d = accept(&sub, &ctx);
        let ghost sv_before = spans@.map_values(|p: (usize, usize)| (p.0 as int, p.1 as int));
        if d {
            spans.push((a, b));
        }
        proof {
            let dec_old = dec;
            dec = dec.push(d);
            assert(dec.drop_last() =~= dec_old);
            assert(call_ensures(accept, (&sub, &ctx), dec[k as int]));
            assert((0 <= all[k as int].start <= all[k as int].end <= text@.len()) ==> sub@
                == text@.subrange(all[k as int].start, all[k as int].end));
            assert(ctx is None);
            assert(decision_ok(accept, text@, all[k as int], dec[k as int]));
            assert forall|j: int| 0 <= j < dec.len() implies decision_ok(
                accept,
                text@,
                all[j],
                #[trigger] dec[j],
            ) by {
                if j < k {
                    assert(decision_ok(accept, text@, all[j], dec_old[j]));
                    assert(dec[j] == dec_old[j]);
                }
            }
            assert(decisions_ok(accept, text@, all, dec));
            if d {
                assert(spans@.map_values(|p: (usize, usize)| (p.0 as int, p.1 as int))
                    =~= sv_before.push((a as int, b as int)));
                assert(selected_spans(all, dec, k + 1) =~= selected_spans(all, dec, k as int)
                    + seq![(all[k as int].start, all[k as int].end)]);
            }
            assert(selected_spans(all, dec, k as int) == sv_before) by {
                assert forall|j: int| 0 <= j <= k implies selected_spans(all, dec, j)
                    == selected_spans(all, dec.drop_last(), j) by {
                    lemma_selected_prefix(all, dec, j);
                }
            }
            assert(spans@.map_values(|p: (usize, usize)| (p.0 as int, p.1 as int))
                =~= selected_spans(all, dec, k + 1));
        }
        k = k + 1;
    }
    let r = replace_spans(text, &spans, rep);
    proof {
        assert(dec.len() == all.len());
    }
    r
}

/// Decisions beyond index `j` do not change the first `j` selections.
proof fn lemma_selected_prefix(ms: Seq<MatchView>, dec: Seq<bool>, j: int)
    requires
        j <= dec.len() - 1,
    ensures
        selected_spans(ms, dec, j) == selected_spans(ms, dec.drop_last(), j),
    decreases j,
{
    if j > 0 {
        lemma_selected_prefix(ms, dec, j - 1);
    }
}

/// Decisions beyond index `j` do not change the first `j` semantic
/// selections.
proof fn lemma_semantic_prefix(ids: Seq<Identifier>, typ: Seq<char>, dec: Seq<bool>, j: int)
    requires
        j <= dec.len() - 1,
    ensures
        semantic_spans(ids, typ, dec, j) == semantic_spans(ids, typ, dec.drop_last(), j),
    decreases j,
{
    if j > 0 {
        lemma_semantic_prefix(ids, typ, dec, j - 1);
    }
}

/// Replaces identifier uses of one resolved type.  Every record whose
/// type equals `wanted_type` is offered to the predicate together with that
/// type as its semantic context; the spans of the accepted ones are
/// substituted with `rep`, left to right, overlapping or malformed spans
/// skipped.
#[verifier::loop_isolation(false)]
pub fn replace_semantic<F: Fn(&String, &Option<String>) -> bool>(
    text: &str,
    idents: &Vec<Identifier>,
    wanted_type: &str,
    rep: &str,
    accept: F,
) -> (r: String)
    requires
        forall|x: (&String, &Option<String>)| #[trigger] accept.requires(x),
    ensures
        exists|dec: Seq<bool>|
            dec.len() == idents@.len() && (forall|k: int|
                0 <= k < dec.len() && (#[trigger] idents@[k]).typ@ == wanted_type@
                    ==> exists|s: String, o: Option<String>|
                    s@ == idents@[k].name@ && (o matches Some(t) && t@ == idents@[k].typ@)
                        && call_ensures(accept, (&s, &o), dec[k])) && r@ == splice(
                text@,
                semantic_spans(idents@, wanted_type@, dec, dec.len() as int),
                rep@,
                0,
                0,
            ),
{
    let tn = wanted_type.to_owned();
    let mut spans: Vec<(usize, usize)> = Vec::new();
    let ghost mut dec: Seq<bool> = Seq::empty();
    let mut k: usize = 0;
    while k < idents.len()
        invariant
            tn@ == wanted_type@,
            k <= idents@.len(),
            dec.len() == k,
            forall|j: int|
                0 <= j < dec.len() && (#[trigger] idents@[j]).typ@ == wanted_type@
                    ==> exists|s: String, o: Option<String>|
                    s@ == idents@[j].name@ && (o matches Some(t) && t@ == idents@[j].typ@)
                        && call_ensures(accept, (&s, &o), dec[j]),
            spans@.map_values(|p: (usize, usize)| (p.0 as int, p.1 as int)) == semantic_spans(
                idents@,
                wanted_type@,
                dec,
                k as int,
            ),
        decreases idents@.len() - k,
    {
        let ghost sv_before = spans@.map_values(|p: (usize, usize)| (p.0 as int, p.1 as int));
        let mut d = false;
        let ghost mut wit_s: String = vstd::pervasive::arbitrary();
        let ghost mut wit_o: Option<String> = None;
        if idents[k].typ == tn {
            let ctx: Option<String> = Some(idents[k].typ.clone());
            d = accept(&idents[k].name, &ctx);
            proof {
                wit_s = idents@[k as int].name;
                wit_o = ctx;
            }
            if d {
                spans.push((idents[k].start, idents[k].end));
            }
        }
        proof {
            let dec_old = dec;
            dec = dec.push(d);
            assert(dec.drop_last() =~= dec_old);
            if idents@[k as int].typ@ == wanted_type@ {
                assert(call_ensures(accept, (&wit_s, &wit_o), dec[k as int]));
                assert(wit_o matches Some(t) && t@ == idents@[k as int].typ@);
            }
            if d && idents@[k as int].typ@ == wanted_type@ {
                assert(spans@.map_values(|p: (usize, usize)| (p.0 as int, p.1 as int))
                    =~= sv_before.push(
                    (idents@[k as int].start as int, idents@[k as int].end as int),
                ));
                assert(semantic_spans(idents@, wanted_type@, dec, k + 1) =~= semantic_spans(
                    idents@,
                    wanted_type@,
                    dec,
                    k as int,
                ) + seq![(idents@[k as int].start as int, idents@[k as int].end as int)]);
            }
            assert(semantic_spans(idents@, wanted_type@, dec, k as int) == sv_before) by {
                assert forall|j: int| 0 <= j <= k implies semantic_spans(
                    idents@,
                    wanted_type@,
                    dec,
                    j,
                ) == semantic_spans(idents@, wanted_type@, dec.drop_last(), j) by {
                    lemma_semantic_prefix(idents@, wanted_type@, dec, j);
                }
            }
            assert(spans@.map_values(|p: (usize, usize)| (p.0 as int, p.1 as int))
                =~= semantic_spans(idents@, wanted_type@, dec, k + 1));
        }
        k = k + 1;
    }
    let r = replace_spans(text, &spans, rep);
    proof {
        assert(dec.len() == idents@.len());
    }
    r
}


/// The spans of every identifier record of the wanted type, in order.
pub open spec fn all_semantic_spans(ids: Seq<Identifier>, typ: Seq<char>, k: int) -> Seq<
    (int, int),
>
    decreases k,
{
    if k <= 0 {
        Seq::empty()
    } else {
        all_semantic_spans(ids, typ, k - 1) + (if ids[k - 1].typ@ == typ {
            seq![(ids[k - 1].start as int, ids[k - 1].end as int)]
        } else {
            Seq::empty()
        })
    }
}

/// Under a predicate that always accepts, the semantic replacement selects
/// exactly the spans of every record of the wanted type: none is skipped.
pub proof fn lemma_always_accepting_selects_all(
    ids: Seq<Identifier>,
    typ: Seq<char>,
    dec: Seq<bool>,
    k: int,
)
    requires
        k <= dec.len(),
        forall|j: int| 0 <= j < dec.len() ==> dec[j],
    ensures
        semantic_spans(ids, typ, dec, k) == all_semantic_spans(ids, typ, k),
    decreases k,
{
    if k > 0 {
        lemma_always_accepting_selects_all(ids, typ, dec, k - 1);
    }
}

} // verus!
