use vstd::prelude::*;
use crate::errors::ParserError;
use crate::order::{
    lemma_insert_unique_last, lex_lt,
    lemma_insert_unique_commutes,
    insert_unique, insert_unique_vec, lemma_insert_sorted_contents, lemma_insert_unique_strict,
    sort_unique, strictly_sorted, views,
};
use crate::private::lowered;
use crate::parser::{
    lemma_tokens_len,    lemma_tokens_append, lemma_tokens_single, no_dash, split_tokens, tokens,
};
use crate::subtag::{
    is_language, is_region, is_script, is_variant, lemma_canon_language, lemma_canon_region,
    lemma_canon_script, lemma_canon_variant, lower, parse_language, parse_region,
    parse_script, parse_variant, title, und, upper, Subtag,
};
use crate::private::lemma_prefixed_ascii;
use crate::subtag::lemma_lower_und;
use crate::text::{
    all_ascii, ascii_chars, byte_views, dash, lemma_ascii_concat, prefixed, push_part,
    string_from_ascii,
};
use vstd::string::StringSliceAdditionalSpecFns;

verus! {

/// The mathematical value of a language identifier.
pub ghost struct LangIdView {
    pub language: Option<Seq<u8>>,
    pub script: Option<Seq<u8>>,
    pub region: Option<Seq<u8>>,
    pub variants: Seq<Seq<u8>>,
}

/// Where the primary parser stands: the identifier so far, and how far along the
/// script, region and variant positions it has come (0 to 3).
pub ghost struct PrimaryState {
    pub id: LangIdView,
    pub position: int,
}

pub open spec fn opt_view(o: Option<Subtag>) -> Option<Seq<u8>> {
    match o {
        Some(s) => Some(s@),
        None => None,
    }
}

/// The stored language for a raw language subtag: lower case, "und" as absent.
pub open spec fn lang_value(t: Seq<u8>) -> Option<Seq<u8>> {
    if lower(t) == und() {
        None
    } else {
        Some(lower(t))
    }
}

/// The state after the first token, which must be a language subtag.
pub open spec fn start_state(t: Seq<u8>) -> Result<PrimaryState, ParserError> {
    if is_language(t) {
        Ok(
            PrimaryState {
                id: LangIdView {
                    language: lang_value(t),
                    script: None,
                    region: None,
                    variants: Seq::empty(),
                },
                position: 0,
            },
        )
    } else {
        Err(ParserError::MissingPrimaryLanguage)
    }
}

/// One token after the language: a script only right after the language, a region
/// only before any variant, then variants (kept sorted, without repeats).
pub open spec fn step(st: PrimaryState, t: Seq<u8>) -> Result<PrimaryState, ParserError> {
    if st.position == 0 && is_script(t) {
        Ok(PrimaryState { id: LangIdView { script: Some(title(t)), ..st.id }, position: 1 })
    } else if st.position <= 1 && is_region(t) {
        Ok(PrimaryState { id: LangIdView { region: Some(upper(t)), ..st.id }, position: 2 })
    } else if is_variant(t) {
        Ok(
            PrimaryState {
                id: LangIdView { variants: insert_unique(st.id.variants, lower(t)), ..st.id },
                position: 3,
            },
        )
    } else {
        Err(ParserError::InvalidSubtag)
    }
}

/// The primary parser run over all of `toks`.
pub open spec fn primary_run(toks: Seq<Seq<u8>>) -> Result<PrimaryState, ParserError>
    decreases toks.len(),
{
    if toks.len() == 0 {
        Err(ParserError::MissingPrimaryLanguage)
    } else if toks.len() == 1 {
        start_state(toks[0])
    } else {
        match primary_run(toks.drop_last()) {
            Ok(st) => step(st, toks.last()),
            Err(e) => Err(e),
        }
    }
}

/// What parsing a whole tag as a language identifier gives.
pub open spec fn parse_langid(s: Seq<u8>) -> Result<LangIdView, ParserError> {
    match primary_run(tokens(s)) {
        Ok(st) => Ok(st.id),
        Err(e) => Err(e),
    }
}

pub open spec fn opt_part(o: Option<Seq<u8>>) -> Seq<u8> {
    match o {
        Some(s) => dash() + s,
        None => Seq::empty(),
    }
}

/// The canonical serialized form: language ("und" when absent), script, region and
/// variants, joined by the delimiter.
pub open spec fn langid_string(v: LangIdView) -> Seq<u8> {
    (match v.language {
        Some(l) => l,
        None => und(),
    }) + opt_part(v.script) + opt_part(v.region) + prefixed(v.variants)
}

/// The value that `from_parts` builds from valid raw parts.
pub open spec fn parts_view(
    language: Option<Seq<u8>>,
    script: Option<Seq<u8>>,
    region: Option<Seq<u8>>,
    variants: Seq<Seq<u8>>,
) -> LangIdView {
    LangIdView {
        language: match language {
            Some(l) => lang_value(l),
            None => None,
        },
        script: match script {
            Some(s) => Some(title(s)),
            None => None,
        },
        region: match region {
            Some(r) => Some(upper(r)),
            None => None,
        },
        variants: sort_unique(Seq::new(variants.len(), |i: int| lower(variants[i]))),
    }
}

pub open spec fn parts_valid(
    language: Option<Seq<u8>>,
    script: Option<Seq<u8>>,
    region: Option<Seq<u8>>,
    variants: Seq<Seq<u8>>,
) -> bool {
    &&& (language matches Some(l) ==> is_language(l))
    &&& (script matches Some(s) ==> is_script(s))
    &&& (region matches Some(r) ==> is_region(r))
    &&& forall|i: int| 0 <= i < variants.len() ==> is_variant(#[trigger] variants[i])
}

pub open spec fn opt_bytes(o: Option<&[u8]>) -> Option<Seq<u8>> {
    match o {
        Some(s) => Some(s@),
        None => None,
    }
}

pub open spec fn slice_views(v: Seq<&[u8]>) -> Seq<Seq<u8>> {
    v.map_values(|t: &[u8]| t@)
}

/// Each present field is a valid subtag of its role in its canonical case, the
/// language is not "und", and the variants are strictly ascending.
pub open spec fn wf_langid(v: LangIdView) -> bool {
    &&& (v.language matches Some(l) ==> is_language(l) && lower(l) == l && l != und())
    &&& (v.script matches Some(s) ==> is_script(s) && title(s) == s)
    &&& (v.region matches Some(r) ==> is_region(r) && upper(r) == r)
    &&& strictly_sorted(v.variants)
    &&& forall|i: int| 0 <= i < v.variants.len() ==> is_variant(#[trigger] v.variants[i])
        && lower(v.variants[i]) == v.variants[i]
}

pub proof fn lemma_lang_value_wf(t: Seq<u8>)
    requires
        is_language(t),
    ensures
        lang_value(t) matches Some(l) ==> is_language(l) && lower(l) == l && l != und(),
{
    lemma_canon_language(t);
}

pub proof fn lemma_insert_variant_wf(vs: Seq<Seq<u8>>, t: Seq<u8>)
    requires
        strictly_sorted(vs),
        forall|i: int| 0 <= i < vs.len() ==> is_variant(#[trigger] vs[i]) && lower(vs[i]) == vs[i],
        is_variant(t),
    ensures
        strictly_sorted(insert_unique(vs, lower(t))),
        forall|i: int| 0 <= i < insert_unique(vs, lower(t)).len() ==> is_variant(
            #[trigger] insert_unique(vs, lower(t))[i],
        ) && lower(insert_unique(vs, lower(t))[i]) == insert_unique(vs, lower(t))[i],
{
    lemma_insert_unique_strict(vs, lower(t));
    lemma_canon_variant(t);
    lemma_insert_sorted_contents(vs, lower(t));
    let r = insert_unique(vs, lower(t));
    assert forall|i: int| 0 <= i < r.len() implies is_variant(#[trigger] r[i]) && lower(r[i])
        == r[i] by {
        assert(r.contains(r[i]));
        if r[i] != lower(t) {
            assert(vs.contains(r[i]));
            let k = choose|k: int| 0 <= k < vs.len() && vs[k] == r[i];
        }
    }
}

pub proof fn lemma_step_wf(st: PrimaryState, t: Seq<u8>)
    requires
        wf_langid(st.id),
    ensures
        step(st, t) matches Ok(n) ==> wf_langid(n.id),
{
    if st.position == 0 && is_script(t) {
        lemma_canon_script(t);
    } else if st.position <= 1 && is_region(t) {
        lemma_canon_region(t);
    } else if is_variant(t) {
        lemma_insert_variant_wf(st.id.variants, t);
    }
}

pub proof fn lemma_run_wf(toks: Seq<Seq<u8>>)
    ensures
        primary_run(toks) matches Ok(st) ==> wf_langid(st.id) && 0 <= st.position <= 3,
    decreases toks.len(),
{
    if toks.len() == 1 {
        if is_language(toks[0]) {
            lemma_lang_value_wf(toks[0]);
        }
    } else if toks.len() > 1 {
        lemma_run_wf(toks.drop_last());
        if let Ok(st) = primary_run(toks.drop_last()) {
            lemma_step_wf(st, toks.last());
        }
    }
}

proof fn lemma_alnum_ascii(t: Seq<u8>)
    requires
        crate::subtag::all_alnum(t),
    ensures
        all_ascii(t),
{
    assert forall|i: int| 0 <= i < t.len() implies #[trigger] t[i] < 128 by {
        assert(crate::subtag::is_alnum(t[i]));
    }
}

proof fn lemma_opt_part_ascii(o: Option<Seq<u8>>)
    requires
        o matches Some(t) ==> crate::subtag::all_alnum(t),
    ensures
        all_ascii(opt_part(o)),
{
    if let Some(t) = o {
        lemma_alnum_ascii(t);
        lemma_ascii_concat(dash(), t);
    }
}

pub proof fn lemma_langid_string_ascii(v: LangIdView)
    requires
        wf_langid(v),
    ensures
        all_ascii(langid_string(v)),
{
    let l = match v.language {
        Some(l) => l,
        None => und(),
    };
    lemma_lower_und();
    lemma_alnum_ascii(l);
    if let Some(s) = v.script {
        assert forall|i: int| 0 <= i < s.len() implies crate::subtag::is_alnum(#[trigger] s[i]) by {
            assert(crate::subtag::is_alpha(s[i]));
        }
    }
    if let Some(r) = v.region {
        assert forall|i: int| 0 <= i < r.len() implies crate::subtag::is_alnum(#[trigger] r[i]) by {
            if r.len() == 2 {
                assert(crate::subtag::is_alpha(r[i]));
            } else {
                assert(crate::subtag::is_digit(r[i]));
            }
        }
    }
    lemma_opt_part_ascii(v.script);
    lemma_opt_part_ascii(v.region);
    assert forall|i: int| 0 <= i < v.variants.len() implies all_ascii(#[trigger] v.variants[i]) by {
        assert(is_variant(v.variants[i]));
        lemma_alnum_ascii(v.variants[i]);
    }
    lemma_prefixed_ascii(v.variants);
    lemma_ascii_concat(l, opt_part(v.script));
    lemma_ascii_concat(l + opt_part(v.script), opt_part(v.region));
    lemma_ascii_concat(l + opt_part(v.script) + opt_part(v.region), prefixed(v.variants));
}

/// Building from parts gives the same identifier whichever order the last two
/// variants are given in.
pub proof fn lemma_variant_order_irrelevant(
    language: Option<Seq<u8>>,
    script: Option<Seq<u8>>,
    region: Option<Seq<u8>>,
    variants: Seq<Seq<u8>>,
    a: Seq<u8>,
    b: Seq<u8>,
)
    ensures
        parts_view(language, script, region, variants.push(a).push(b)) == parts_view(
            language,
            script,
            region,
            variants.push(b).push(a),
        ),
{
    let low = Seq::new(variants.len(), |i: int| lower(variants[i]));
    let x = variants.push(a).push(b);
    let y = variants.push(b).push(a);
    let lx = Seq::new(x.len(), |i: int| lower(x[i]));
    let ly = Seq::new(y.len(), |i: int| lower(y[i]));
    assert(lx.drop_last().drop_last() =~= low);
    assert(ly.drop_last().drop_last() =~= low);
    assert(lx.drop_last().last() == lower(a));
    assert(ly.drop_last().last() == lower(b));
    assert(lx.last() == lower(b));
    assert(ly.last() == lower(a));
    assert(sort_unique(lx.drop_last()) == insert_unique(sort_unique(low), lower(a)));
    assert(sort_unique(ly.drop_last()) == insert_unique(sort_unique(low), lower(b)));
    assert(sort_unique(lx) == insert_unique(sort_unique(lx.drop_last()), lower(b)));
    assert(sort_unique(ly) == insert_unique(sort_unique(ly.drop_last()), lower(a)));
    lemma_insert_unique_commutes(sort_unique(low), lower(a), lower(b));
}

pub open spec fn lang_token(v: LangIdView) -> Seq<u8> {
    match v.language {
        Some(l) => l,
        None => und(),
    }
}

pub open spec fn opt_seq(o: Option<Seq<u8>>) -> Seq<Seq<u8>> {
    match o {
        Some(s) => seq![s],
        None => Seq::empty(),
    }
}

/// The tokens of the serialized form before the variants.
pub open spec fn head_tokens(v: LangIdView) -> Seq<Seq<u8>> {
    seq![lang_token(v)] + opt_seq(v.script) + opt_seq(v.region)
}

pub open spec fn head_position(v: LangIdView) -> int {
    if v.region is Some {
        2
    } else if v.script is Some {
        1
    } else {
        0
    }
}

proof fn lemma_alnum_no_dash(t: Seq<u8>)
    requires
        crate::subtag::all_alnum(t),
    ensures
        no_dash(t),
{
    assert forall|i: int| 0 <= i < t.len() implies #[trigger] t[i] != 45u8 by {
        assert(crate::subtag::is_alnum(t[i]));
    }
}

proof fn lemma_alpha_no_dash(t: Seq<u8>)
    requires
        crate::subtag::all_alpha(t),
    ensures
        no_dash(t),
{
    assert forall|i: int| 0 <= i < t.len() implies #[trigger] t[i] != 45u8 by {
        assert(crate::subtag::is_alpha(t[i]));
    }
}

proof fn lemma_region_no_dash(t: Seq<u8>)
    requires
        is_region(t),
    ensures
        no_dash(t),
{
    assert forall|i: int| 0 <= i < t.len() implies #[trigger] t[i] != 45u8 by {
        if t.len() == 2 {
            assert(crate::subtag::is_alpha(t[i]));
        } else {
            assert(crate::subtag::is_digit(t[i]));
        }
    }
}

proof fn lemma_tokens_opt(h: Seq<u8>, o: Option<Seq<u8>>)
    requires
        o matches Some(t) ==> no_dash(t),
    ensures
        tokens(h + opt_part(o)) == tokens(h) + opt_seq(o),
{
    match o {
        Some(t) => {
            assert(h + opt_part(o) =~= h + dash() + t);
            lemma_tokens_append(h, t);
            assert(tokens(h).push(t) =~= tokens(h) + seq![t]);
        },
        None => {
            assert(h + opt_part(o) =~= h);
            assert(tokens(h) + opt_seq(o) =~= tokens(h));
        },
    }
}

pub proof fn lemma_tokens_prefixed(h: Seq<u8>, vs: Seq<Seq<u8>>)
    requires
        forall|i: int| 0 <= i < vs.len() ==> no_dash(#[trigger] vs[i]),
    ensures
        tokens(h + prefixed(vs)) == tokens(h) + vs,
    decreases vs.len(),
{
    if vs.len() == 0 {
        assert(h + prefixed(vs) =~= h);
        assert(tokens(h) + vs =~= tokens(h));
    } else {
        let u = vs.drop_last();
        lemma_tokens_prefixed(h, u);
        assert(h + prefixed(vs) =~= (h + prefixed(u)) + dash() + vs.last());
        assert(no_dash(vs[vs.len() - 1]));
        lemma_tokens_append(h + prefixed(u), vs.last());
        assert((tokens(h) + u).push(vs.last()) =~= tokens(h) + vs);
    }
}

pub proof fn lemma_tokens_langid_string(v: LangIdView)
    requires
        wf_langid(v),
    ensures
        tokens(langid_string(v)) == head_tokens(v) + v.variants,
{
    lemma_lower_und();
    lemma_alpha_no_dash(lang_token(v));
    lemma_tokens_single(lang_token(v));
    if let Some(t) = v.script {
        lemma_alpha_no_dash(t);
    }
    if let Some(t) = v.region {
        lemma_region_no_dash(t);
    }
    lemma_tokens_opt(lang_token(v), v.script);
    lemma_tokens_opt(lang_token(v) + opt_part(v.script), v.region);
    assert forall|i: int| 0 <= i < v.variants.len() implies no_dash(#[trigger] v.variants[i]) by {
        assert(is_variant(v.variants[i]));
        lemma_alnum_no_dash(v.variants[i]);
    }
    lemma_tokens_prefixed(lang_token(v) + opt_part(v.script) + opt_part(v.region), v.variants);
}

proof fn lemma_run_head(v: LangIdView)
    requires
        wf_langid(v),
    ensures
        primary_run(head_tokens(v)) == Ok::<PrimaryState, ParserError>(
            PrimaryState {
                id: LangIdView { variants: Seq::empty(), ..v },
                position: head_position(v),
            },
        ),
{
    lemma_lower_und();
    let l = lang_token(v);
    let first = seq![l];
    assert(primary_run(first) == start_state(l));
    assert(lang_value(l) == v.language);
    let with_script = first + opt_seq(v.script);
    let st1 = PrimaryState {
        id: LangIdView { region: None, variants: Seq::empty(), ..v },
        position: if v.script is Some { 1int } else { 0 },
    };
    if let Some(sc) = v.script {
        assert(with_script.drop_last() =~= first);
        assert(with_script.last() == sc);
    } else {
        assert(with_script =~= first);
    }
    assert(primary_run(with_script) == Ok::<PrimaryState, ParserError>(st1));
    let h = head_tokens(v);
    if let Some(r) = v.region {
        assert(h.drop_last() =~= with_script);
        assert(h.last() == r);
        assert(!is_script(r));
    } else {
        assert(h =~= with_script);
    }
}

pub proof fn lemma_run_variants(v: LangIdView, k: int)
    requires
        wf_langid(v),
        0 <= k <= v.variants.len(),
    ensures
        primary_run(head_tokens(v) + v.variants.take(k)) == Ok::<PrimaryState, ParserError>(
            PrimaryState {
                id: LangIdView { variants: v.variants.take(k), ..v },
                position: if k == 0 { head_position(v) } else { 3 },
            },
        ),
    decreases k,
{
    let h = head_tokens(v);
    if k == 0 {
        lemma_run_head(v);
        assert(h + v.variants.take(0) =~= h);
        assert(v.variants.take(0) =~= Seq::<Seq<u8>>::empty());
    } else {
        lemma_run_variants(v, k - 1);
        let toks = h + v.variants.take(k);
        assert(toks.drop_last() =~= h + v.variants.take(k - 1));
        assert(toks.len() > 1);
        let t = v.variants[k - 1];
        assert(toks.last() == t);
        assert(is_variant(t));
        assert(!is_script(t));
        assert(!is_region(t));
        assert(lower(t) == t);
        assert forall|j: int| 0 <= j < v.variants.take(k - 1).len() implies lex_lt(
            #[trigger] v.variants.take(k - 1)[j],
            t,
        ) by {
            assert(v.variants.take(k - 1)[j] == v.variants[j]);
        }
        lemma_insert_unique_last(v.variants.take(k - 1), t);
        assert(v.variants.take(k - 1).push(t) =~= v.variants.take(k));
    }
}

/// A language identifier in canonical form, serialized and parsed again, comes
/// back unchanged: canonical strings are fixed points of parsing and serializing.
pub proof fn lemma_round_trip(v: LangIdView)
    requires
        wf_langid(v),
    ensures
        parse_langid(langid_string(v)) == Ok::<LangIdView, ParserError>(v),
{
    lemma_tokens_langid_string(v);
    lemma_run_variants(v, v.variants.len() as int);
    assert(v.variants.take(v.variants.len() as int) =~= v.variants);
    assert(LangIdView { variants: v.variants, ..v } == v);
}

proof fn lemma_lower_classes(t: Seq<u8>)
    ensures
        is_language(lower(t)) == is_language(t),
        is_script(lower(t)) == is_script(t),
        is_region(lower(t)) == is_region(t),
        is_variant(lower(t)) == is_variant(t),
        lower(lower(t)) == lower(t),
        title(lower(t)) == title(t),
        upper(lower(t)) == upper(t),
{
    let l = lower(t);
    assert(lower(l) =~= l);
    assert(title(l) =~= title(t));
    assert(upper(l) =~= upper(t));
    assert(crate::subtag::all_alpha(l) == crate::subtag::all_alpha(t)) by {
        if crate::subtag::all_alpha(t) {
            assert forall|i: int| 0 <= i < l.len() implies crate::subtag::is_alpha(#[trigger] l[i]) by {
                assert(crate::subtag::is_alpha(t[i]));
            }
        }
        if crate::subtag::all_alpha(l) {
            assert forall|i: int| 0 <= i < t.len() implies crate::subtag::is_alpha(#[trigger] t[i]) by {
                assert(crate::subtag::is_alpha(l[i]));
            }
        }
    }
    assert(crate::subtag::all_digit(l) == crate::subtag::all_digit(t)) by {
        if crate::subtag::all_digit(t) {
            assert forall|i: int| 0 <= i < l.len() implies crate::subtag::is_digit(#[trigger] l[i]) by {
                assert(crate::subtag::is_digit(t[i]));
            }
        }
        if crate::subtag::all_digit(l) {
            assert forall|i: int| 0 <= i < t.len() implies crate::subtag::is_digit(#[trigger] t[i]) by {
                assert(crate::subtag::is_digit(l[i]));
            }
        }
    }
    assert(crate::subtag::all_alnum(l) == crate::subtag::all_alnum(t)) by {
        if crate::subtag::all_alnum(t) {
            assert forall|i: int| 0 <= i < l.len() implies crate::subtag::is_alnum(#[trigger] l[i]) by {
                assert(crate::subtag::is_alnum(t[i]));
            }
        }
        if crate::subtag::all_alnum(l) {
            assert forall|i: int| 0 <= i < t.len() implies crate::subtag::is_alnum(#[trigger] t[i]) by {
                assert(crate::subtag::is_alnum(l[i]));
            }
        }
    }
}

proof fn lemma_tokens_lower(s: Seq<u8>)
    ensures
        tokens(lower(s)) == lowered(tokens(s)),
    decreases s.len(),
{
    let l = lower(s);
    if s.len() == 0 {
        assert(l =~= s);
        assert(lowered(tokens(s)) =~= seq![lower(Seq::<u8>::empty())]);
        assert(lower(Seq::<u8>::empty()) =~= Seq::<u8>::empty());
    } else {
        lemma_tokens_lower(s.drop_last());
        lemma_tokens_len(s.drop_last());
        assert(l.drop_last() =~= lower(s.drop_last()));
        let t = tokens(s.drop_last());
        if s.last() == 45u8 {
            assert(lower(Seq::<u8>::empty()) =~= Seq::<u8>::empty());
            assert(lowered(t.push(Seq::empty())) =~= lowered(t).push(Seq::empty()));
        } else {
            assert(l.last() != 45u8);
            assert(lower(t.last().push(s.last())) =~= lower(t.last()).push(l.last()));
            assert(lowered(t.update(t.len() - 1, t.last().push(s.last()))) =~= lowered(t).update(
                t.len() - 1,
                lowered(t).last().push(l.last()),
            ));
        }
    }
}

proof fn lemma_run_lower(toks: Seq<Seq<u8>>)
    ensures
        primary_run(lowered(toks)) == primary_run(toks),
    decreases toks.len(),
{
    let l = lowered(toks);
    if toks.len() == 1 {
        lemma_lower_classes(toks[0]);
    } else if toks.len() > 1 {
        assert(l.drop_last() =~= lowered(toks.drop_last()));
        lemma_run_lower(toks.drop_last());
        lemma_lower_classes(toks.last());
    }
}

/// Parsing ignores ASCII case: a tag and its lower-case form give the same result.
pub proof fn lemma_parse_ignores_case(s: Seq<u8>)
    ensures
        parse_langid(lower(s)) == parse_langid(s),
{
    lemma_tokens_lower(s);
    lemma_run_lower(tokens(s));
}

/// A language identifier: optional language, script and region, and a sorted set
/// of variants, all case-normalized.
#[derive(Debug, Clone, Eq, Hash)]
pub struct LanguageIdentifier {
    language: Option<Subtag>,
    script: Option<Subtag>,
    region: Option<Subtag>,
    variants: Vec<Subtag>,
}

impl View for LanguageIdentifier {
    type V = LangIdView;

    closed spec fn view(&self) -> LangIdView {
        LangIdView {
            language: opt_view(self.language),
            script: opt_view(self.script),
            region: opt_view(self.region),
            variants: views(self.variants@),
        }
    }
}

fn opt_same(a: &Option<Subtag>, b: &Option<Subtag>) -> (r: bool)
    ensures
        r == (opt_view(*a) == opt_view(*b)),
{
    match (a, b) {
        (Some(x), Some(y)) => x.same(y),
        (None, None) => true,
        _ => false,
    }
}

fn push_opt(out: &mut Vec<u8>, o: &Option<Subtag>)
    ensures
        final(out)@ == old(out)@ + opt_part(opt_view(*o)),
{
    match o {
        Some(s) => push_part(out, s.as_bytes()),
        None => {
            assert(out@ =~= out@ + Seq::<u8>::empty());
        },
    }
}

impl LanguageIdentifier {
    /// The identifier is in canonical form.
    pub open spec fn wf(&self) -> bool {
        wf_langid(self@)
    }

    /// The language; absent for "und".
    pub fn language(&self) -> (r: &Option<Subtag>)
        ensures
            opt_view(*r) == self@.language,
    {
        &self.language
    }

    /// The script, in title case.
    pub fn script(&self) -> (r: &Option<Subtag>)
        ensures
            opt_view(*r) == self@.script,
    {
        &self.script
    }

    /// The region, in upper case.
    pub fn region(&self) -> (r: &Option<Subtag>)
        ensures
            opt_view(*r) == self@.region,
    {
        &self.region
    }

    /// The variants, in lower case and ascending order.
    pub fn variants(&self) -> (r: &Vec<Subtag>)
        ensures
            views(r@) == self@.variants,
    {
        &self.variants
    }

    /// The canonical serialized form as text.
    pub fn to_string(&self) -> (r: String)
        requires
            self.wf(),
        ensures
            r@ == ascii_chars(langid_string(self@)),
    {
        let b = self.to_bytes();
        proof {
            lemma_langid_string_ascii(self@);
        }
        string_from_ascii(b)
    }

    fn empty_with(language: Option<Subtag>) -> (r: Self)
        ensures
            r@ == (LangIdView {
                language: opt_view(language),
                script: None,
                region: None,
                variants: Seq::empty(),
            }),
    {
        let r = LanguageIdentifier { language, script: None, region: None, variants: Vec::new() };
        assert(views(r.variants@) =~= Seq::<Seq<u8>>::empty());
        r
    }

    /// Applies one token after the language to the identifier and position.
    fn apply(&mut self, position: &mut u8, t: &[u8]) -> (r: Result<(), ParserError>)
        requires
            *old(position) <= 3,
        ensures
            *final(position) <= 3,
            match step(PrimaryState { id: old(self)@, position: *old(position) as int }, t@) {
                Ok(st) => r is Ok && final(self)@ == st.id && *final(position) as int
                    == st.position,
                Err(e) => r == Err::<(), ParserError>(e),
            },
    {
        if *position == 0 {
            if let Some(s) = parse_script(t) {
                self.script = Some(s);
                *position = 1;
                return Ok(());
            }
        }
        if *position <= 1 {
            if let Some(s) = parse_region(t) {
                self.region = Some(s);
                *position = 2;
                return Ok(());
            }
        }
        match parse_variant(t) {
            Some(s) => {
                insert_unique_vec(&mut self.variants, s);
                *position = 3;
                Ok(())
            },
            None => Err(ParserError::InvalidSubtag),
        }
    }

    /// Runs the primary parser over the first `end` tokens.
    pub(crate) fn parse_primary(toks: &Vec<Vec<u8>>, end: usize) -> (r: Result<
        (LanguageIdentifier, u8),
        ParserError,
    >)
        requires
            1 <= end <= toks@.len(),
        ensures
            match primary_run(byte_views(toks@).take(end as int)) {
                Ok(st) => r matches Ok((id, p)) && id@ == st.id && p as int == st.position,
                Err(e) => r == Err::<(LanguageIdentifier, u8), ParserError>(e),
            },
    {
        let ghost tv = byte_views(toks@);
        assert(tv.take(1).len() == 1);
        assert(tv.take(1)[0] == toks@[0]@);
        let language = match parse_language(toks[0].as_slice()) {
            Ok(l) => l,
            Err(_) => {
                proof {
                    lemma_run_stays_failed(tv, 1, end as int);
                }
                return Err(ParserError::MissingPrimaryLanguage);
            },
        };
        let mut id = LanguageIdentifier::empty_with(language);
        let mut position: u8 = 0;
        let mut i: usize = 1;
        while i < end
            invariant
                1 <= i <= end <= toks@.len(),
                tv == byte_views(toks@),
                position <= 3,
                primary_run(tv.take(i as int)) == Ok::<PrimaryState, ParserError>(
                    PrimaryState { id: id@, position: position as int },
                ),
            decreases end - i,
        {
            proof {
                let q = tv.take(i + 1);
                assert(q.drop_last() =~= tv.take(i as int));
                assert(q.last() == toks@[i as int]@);
            }
            match id.apply(&mut position, toks[i].as_slice()) {
                Ok(()) => {},
                Err(e) => {
                    proof {
                        lemma_run_stays_failed(tv, i as int + 1, end as int);
                    }
                    return Err(e);
                },
            }
            i += 1;
        }
        Ok((id, position))
    }

    /// Parses a tag (bytes) as a language identifier.
    pub fn try_from_bytes(s: &[u8]) -> (r: Result<Self, ParserError>)
        ensures
            match parse_langid(s@) {
                Ok(v) => r matches Ok(id) && id@ == v,
                Err(e) => r matches Err(x) && x == e,
            },
            r matches Ok(id) ==> id.wf(),
    {
        proof {
            lemma_run_wf(tokens(s@));
        }
        let toks = split_tokens(s);
        let n = toks.len();
        assert(byte_views(toks@).take(n as int) =~= tokens(s@));
        match Self::parse_primary(&toks, n) {
            Ok((id, _)) => Ok(id),
            Err(e) => Err(e),
        }
    }

    /// Parses a tag as a language identifier.
    pub fn try_from_str(s: &str) -> (r: Result<Self, ParserError>)
        ensures
            match parse_langid(s.spec_bytes()) {
                Ok(v) => r matches Ok(id) && id@ == v,
                Err(e) => r matches Err(x) && x == e,
            },
    {
        Self::try_from_bytes(s.as_bytes())
    }

    /// Builds an identifier from raw parts, validating each for its role and sorting
    /// the variants without repeats.
    pub fn from_parts(
        language: Option<&[u8]>,
        script: Option<&[u8]>,
        region: Option<&[u8]>,
        variants: &[&[u8]],
    ) -> (r: Result<Self, ParserError>)
        ensures
            r is Ok <==> parts_valid(
                opt_bytes(language),
                opt_bytes(script),
                opt_bytes(region),
                slice_views(variants@),
            ),
            r matches Ok(id) ==> id@ == parts_view(
                opt_bytes(language),
                opt_bytes(script),
                opt_bytes(region),
                slice_views(variants@),
            ),
            r matches Err(e) ==> e == ParserError::InvalidSubtag,
            r matches Ok(id) ==> id.wf(),
    {
        let lang = match language {
            Some(l) => match parse_language(l) {
                Ok(v) => v,
                Err(_) => return Err(ParserError::InvalidSubtag),
            },
            None => None,
        };
        let scr = match script {
            Some(s) => match parse_script(s) {
                Some(v) => Some(v),
                None => return Err(ParserError::InvalidSubtag),
            },
            None => None,
        };
        let reg = match region {
            Some(s) => match parse_region(s) {
                Some(v) => Some(v),
                None => return Err(ParserError::InvalidSubtag),
            },
            None => None,
        };
        let ghost raw = slice_views(variants@);
        let ghost low = Seq::new(raw.len(), |i: int| lower(raw[i]));
        let mut vars: Vec<Subtag> = Vec::new();
        let mut i: usize = 0;
        assert(low.take(0) =~= Seq::<Seq<u8>>::empty());
        assert(views(vars@) =~= Seq::<Seq<u8>>::empty());
        while i < variants.len()
            invariant
                i <= variants@.len(),
                raw == slice_views(variants@),
                low == Seq::new(raw.len(), |k: int| lower(raw[k])),
                forall|k: int| 0 <= k < i ==> is_variant(#[trigger] raw[k]),
                views(vars@) == sort_unique(low.take(i as int)),
                strictly_sorted(views(vars@)),
                forall|k: int| 0 <= k < views(vars@).len() ==> is_variant(#[trigger] views(vars@)[k])
                    && lower(views(vars@)[k]) == views(vars@)[k],
            decreases variants@.len() - i,
        {
            assert(raw[i as int] == variants@[i as int]@);
            match parse_variant(variants[i]) {
                Some(v) => {
                    proof {
                        lemma_insert_variant_wf(views(vars@), raw[i as int]);
                    }
                    insert_unique_vec(&mut vars, v);
                    assert(low.take(i + 1).drop_last() =~= low.take(i as int));
                },
                None => return Err(ParserError::InvalidSubtag),
            }
            i += 1;
        }
        assert(low.take(i as int) =~= low);
        proof {
            if let Some(l) = opt_bytes(language) {
                lemma_lang_value_wf(l);
            }
            if let Some(t) = opt_bytes(script) {
                lemma_canon_script(t);
            }
            if let Some(t) = opt_bytes(region) {
                lemma_canon_region(t);
            }
        }
        Ok(LanguageIdentifier { language: lang, script: scr, region: reg, variants: vars })
    }

    /// The canonical serialized form, as bytes.
    pub fn to_bytes(&self) -> (r: Vec<u8>)
        ensures
            r@ == langid_string(self@),
    {
        let mut out: Vec<u8> = Vec::new();
        match &self.language {
            Some(l) => {
                let b = l.as_bytes();
                let mut i: usize = 0;
                while i < b.len()
                    invariant
                        i <= b@.len(),
                        out@ == b@.take(i as int),
                    decreases b@.len() - i,
                {
                    out.push(b[i]);
                    i += 1;
                    assert(out@ =~= b@.take(i as int));
                }
                assert(b@.take(i as int) =~= b@);
            },
            None => {
                out.push(117u8);
                out.push(110u8);
                out.push(100u8);
                assert(out@ =~= und());
            },
        }
        push_opt(&mut out, &self.script);
        push_opt(&mut out, &self.region);
        let ghost head = out@;
        let mut i: usize = 0;
        assert(views(self.variants@).take(0) =~= Seq::<Seq<u8>>::empty());
        assert(out@ =~= head + prefixed(views(self.variants@).take(0)));
        while i < self.variants.len()
            invariant
                i <= self.variants@.len(),
                out@ == head + prefixed(views(self.variants@).take(i as int)),
            decreases self.variants@.len() - i,
        {
            push_part(&mut out, self.variants[i].as_bytes());
            proof {
                let q = views(self.variants@).take(i + 1);
                assert(q.drop_last() =~= views(self.variants@).take(i as int));
                assert(q.last() == self.variants@[i as int]@);
            }
            assert(out@ =~= head + prefixed(views(self.variants@).take(i + 1)));
            i += 1;
        }
        assert(views(self.variants@).take(i as int) =~= views(self.variants@));
        out
    }
}

proof fn lemma_run_stays_failed(tv: Seq<Seq<u8>>, i: int, end: int)
    requires
        1 <= i <= end <= tv.len(),
        primary_run(tv.take(i)) is Err,
    ensures
        primary_run(tv.take(end)) == primary_run(tv.take(i)),
    decreases end - i,
{
    if i < end {
        lemma_run_stays_failed(tv, i, end - 1);
        assert(tv.take(end).drop_last() =~= tv.take(end - 1));
    }
}

impl std::str::FromStr for LanguageIdentifier {
    type Err = ParserError;

    fn from_str(s: &str) -> Result<Self, ParserError> {
        Self::try_from_str(s)
    }
}

impl PartialEq for LanguageIdentifier {
    fn eq(&self, other: &Self) -> (r: bool) {
        if !opt_same(&self.language, &other.language) || !opt_same(&self.script, &other.script)
            || !opt_same(&self.region, &other.region) {
            return false;
        }
        crate::order::same_subtags(&self.variants, &other.variants)
    }
}

impl vstd::std_specs::cmp::PartialEqSpecImpl for LanguageIdentifier {
    open spec fn obeys_eq_spec() -> bool {
        true
    }

    open spec fn eq_spec(&self, other: &LanguageIdentifier) -> bool {
        self@ == other@
    }
}

} // verus!
