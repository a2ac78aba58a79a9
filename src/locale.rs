use vstd::prelude::*;
use crate::errors::ParserError;
use crate::langid::{
    head_tokens, langid_string, lemma_langid_string_ascii, lemma_run_variants, lemma_run_wf,
    lemma_tokens_langid_string, lemma_tokens_prefixed, primary_run, wf_langid, LangIdView,
    LanguageIdentifier,
};
use crate::order::{lemma_insert_sorted_contents, lemma_sort_all_sorted, sort_all};
use crate::parser::{lemma_tokens_append, lemma_tokens_len, no_dash, split_tokens, tokens};
use crate::subtag::{is_ext_subtag, is_variant};
use crate::text::prefixed;
use crate::private::{
    all_ext_subtags, lemma_private_string_ascii, lowered, private_string, wf_private,
    PrivateExtensionList,
};
use crate::text::{ascii_chars, dash, byte_views, lemma_ascii_concat, string_from_ascii};
use vstd::string::StringSliceAdditionalSpecFns;

verus! {

/// The mathematical value of a locale.
pub ghost struct LocaleView {
    pub id: LangIdView,
    pub private: Seq<Seq<u8>>,
}

/// The index of the first one-byte token at or after `from`, or the number of tokens.
pub open spec fn singleton_index(toks: Seq<Seq<u8>>, from: int) -> int
    decreases toks.len() - from,
{
    if from >= toks.len() {
        toks.len() as int
    } else if toks[from].len() == 1 {
        from
    } else {
        singleton_index(toks, from + 1)
    }
}

/// Whether a token is the private-use introducer, in either case.
pub open spec fn is_private_introducer(t: Seq<u8>) -> bool {
    t == seq![120u8] || t == seq![88u8]
}

/// What parsing a token sequence as a locale gives: the tokens before the first
/// singleton make the language identifier; a private-use introducer there takes
/// every token after it, and at least one.
pub open spec fn parse_locale_tokens(toks: Seq<Seq<u8>>) -> Result<LocaleView, ParserError> {
    let k = singleton_index(toks, 1);
    match primary_run(toks.take(k)) {
        Err(e) => Err(e),
        Ok(st) => if k >= toks.len() {
            Ok(LocaleView { id: st.id, private: Seq::empty() })
        } else if !is_private_introducer(toks[k]) {
            Err(ParserError::InvalidSubtag)
        } else if k + 1 == toks.len() {
            Err(ParserError::EmptyExtension)
        } else if !all_ext_subtags(toks.skip(k + 1)) {
            Err(ParserError::InvalidSubtag)
        } else {
            Ok(LocaleView { id: st.id, private: sort_all(lowered(toks.skip(k + 1))) })
        },
    }
}

pub open spec fn parse_locale(s: Seq<u8>) -> Result<LocaleView, ParserError> {
    parse_locale_tokens(tokens(s))
}

/// The canonical serialized form of a locale.
pub open spec fn locale_string(v: LocaleView) -> Seq<u8> {
    langid_string(v.id) + private_string(v.private)
}

/// A language identifier with its private-use extension.
#[derive(Debug, Clone, Eq, Hash)]
pub struct Locale {
    id: LanguageIdentifier,
    private: PrivateExtensionList,
}

impl View for Locale {
    type V = LocaleView;

    closed spec fn view(&self) -> LocaleView {
        LocaleView { id: self.id@, private: self.private@ }
    }
}

impl Locale {
    /// Both parts are in canonical form.
    pub open spec fn wf(&self) -> bool {
        wf_langid(self@.id) && wf_private(self@.private)
    }

    /// The canonical serialized form as text.
    pub fn to_string(&self) -> (r: String)
        requires
            self.wf(),
        ensures
            r@ == ascii_chars(locale_string(self@)),
    {
        let b = self.to_bytes();
        proof {
            lemma_langid_string_ascii(self@.id);
            lemma_private_string_ascii(self@.private);
            lemma_ascii_concat(langid_string(self@.id), private_string(self@.private));
        }
        string_from_ascii(b)
    }

    /// The language identifier part.
    pub fn id(&self) -> (r: &LanguageIdentifier)
        ensures
            r@ == self@.id,
    {
        &self.id
    }

    /// The private-use extension.
    pub fn private(&self) -> (r: &PrivateExtensionList)
        ensures
            r@ == self@.private,
    {
        &self.private
    }

    /// Parses a tag (bytes) as a locale.
    pub fn try_from_bytes(s: &[u8]) -> (r: Result<Self, ParserError>)
        ensures
            match parse_locale(s@) {
                Ok(v) => r matches Ok(l) && l@ == v,
                Err(e) => r matches Err(x) && x == e,
            },
            r matches Ok(l) ==> l.wf(),
    {
        let toks = split_tokens(s);
        let ghost tv = byte_views(toks@);
        let n = toks.len();
        let mut k: usize = 1;
        while k < n && toks[k].len() != 1
            invariant
                1 <= k <= n,
                n == toks@.len(),
                tv == byte_views(toks@),
                singleton_index(tv, k as int) == singleton_index(tv, 1),
            decreases n - k,
        {
            assert(tv[k as int] == toks@[k as int]@);
            k += 1;
        }
        if k < n {
            assert(tv[k as int] == toks@[k as int]@);
        }
        proof {
            lemma_run_wf(tv.take(k as int));
        }
        let (id, _) = match LanguageIdentifier::parse_primary(&toks, k) {
            Ok(p) => p,
            Err(e) => return Err(e),
        };
        if k == n {
            let private = PrivateExtensionList::new();
            return Ok(Locale { id, private });
        }
        let t = toks[k].as_slice();
        assert(tv[k as int] == t@);
        if !(t[0] == 120u8 || t[0] == 88u8) {
            assert(!is_private_introducer(t@));
            return Err(ParserError::InvalidSubtag);
        }
        assert(t@ =~= seq![t[0]]);
        if k + 1 == n {
            return Err(ParserError::EmptyExtension);
        }
        match PrivateExtensionList::collect_from(toks.as_slice(), k + 1) {
            Ok(private) => Ok(Locale { id, private }),
            Err(e) => Err(e),
        }
    }

    /// Parses a tag as a locale.
    pub fn try_from_str(s: &str) -> (r: Result<Self, ParserError>)
        ensures
            match parse_locale(s.spec_bytes()) {
                Ok(v) => r matches Ok(l) && l@ == v,
                Err(e) => r matches Err(x) && x == e,
            },
    {
        Self::try_from_bytes(s.as_bytes())
    }

    /// The canonical serialized form, as bytes.
    pub fn to_bytes(&self) -> (r: Vec<u8>)
        ensures
            r@ == locale_string(self@),
    {
        let mut out = self.id.to_bytes();
        let mut p = self.private.to_bytes();
        out.append(&mut p);
        out
    }
}

impl std::str::FromStr for Locale {
    type Err = ParserError;

    fn from_str(s: &str) -> Result<Self, ParserError> {
        Self::try_from_str(s)
    }
}

impl PartialEq for Locale {
    fn eq(&self, other: &Self) -> (r: bool) {
        self.id == other.id && self.private == other.private
    }
}

impl vstd::std_specs::cmp::PartialEqSpecImpl for Locale {
    open spec fn obeys_eq_spec() -> bool {
        true
    }

    open spec fn eq_spec(&self, other: &Locale) -> bool {
        self@ == other@
    }
}

proof fn lemma_singleton_bounds(toks: Seq<Seq<u8>>, from: int)
    requires
        0 <= from <= toks.len(),
    ensures
        from <= singleton_index(toks, from) <= toks.len(),
        singleton_index(toks, from) < toks.len() ==> toks[singleton_index(toks, from)].len() == 1,
    decreases toks.len() - from,
{
    if from < toks.len() && toks[from].len() != 1 {
        lemma_singleton_bounds(toks, from + 1);
    }
}

proof fn lemma_singleton_push(toks: Seq<Seq<u8>>, y: Seq<u8>, from: int)
    requires
        1 <= from <= toks.len(),
        singleton_index(toks, from) == toks.len(),
        y.len() == 1,
    ensures
        singleton_index(toks.push(y), from) == toks.len(),
    decreases toks.len() - from,
{
    if from < toks.len() {
        assert(toks.push(y)[from] == toks[from]);
        lemma_singleton_push(toks, y, from + 1);
    }
}

proof fn lemma_sort_all_len(ts: Seq<Seq<u8>>)
    ensures
        sort_all(ts).len() == ts.len(),
    decreases ts.len(),
{
    if ts.len() > 0 {
        lemma_sort_all_len(ts.drop_last());
        lemma_insert_sorted_contents(sort_all(ts.drop_last()), ts.last());
    }
}

/// A tag that parses with no private-use extension, followed by a bare private-use
/// introducer, is rejected as an empty extension.
pub proof fn lemma_bare_introducer_rejected(s: Seq<u8>, c: u8)
    requires
        c == 120u8 || c == 88u8,
        parse_locale(s) matches Ok(v) && v.private.len() == 0,
    ensures
        parse_locale(s + dash() + seq![c]) == Err::<LocaleView, ParserError>(
            ParserError::EmptyExtension,
        ),
{
    let toks = tokens(s);
    lemma_tokens_len(s);
    lemma_tokens_append(s, seq![c]);
    let toks2 = toks.push(seq![c]);
    let k = singleton_index(toks, 1);
    lemma_singleton_bounds(toks, 1);
    if k < toks.len() {
        if k + 1 < toks.len() {
            lemma_sort_all_len(lowered(toks.skip(k + 1)));
        }
    }
    assert(k == toks.len());
    lemma_singleton_push(toks, seq![c], 1);
    assert(toks2.take(k) =~= toks.take(k));
    assert(is_private_introducer(toks2[k]));
}

proof fn lemma_no_singleton(toks: Seq<Seq<u8>>, from: int)
    requires
        0 <= from <= toks.len(),
        forall|i: int| from <= i < toks.len() ==> (#[trigger] toks[i]).len() != 1,
    ensures
        singleton_index(toks, from) == toks.len(),
    decreases toks.len() - from,
{
    if from < toks.len() {
        lemma_no_singleton(toks, from + 1);
    }
}

/// A locale in canonical form, serialized and parsed again, comes back unchanged.
pub proof fn lemma_locale_round_trip(v: LocaleView)
    requires
        wf_langid(v.id),
        wf_private(v.private),
    ensures
        parse_locale(locale_string(v)) == Ok::<LocaleView, ParserError>(v),
{
    let id = v.id;
    let base = head_tokens(id) + id.variants;
    lemma_tokens_langid_string(id);
    lemma_run_variants(id, id.variants.len() as int);
    assert(id.variants.take(id.variants.len() as int) =~= id.variants);
    assert(LangIdView { variants: id.variants, ..id } == id);
    assert(head_tokens(id) + id.variants.take(id.variants.len() as int) == base);
    assert forall|i: int| 1 <= i < base.len() implies (#[trigger] base[i]).len() != 1 by {
        let h = head_tokens(id);
        if i >= h.len() {
            assert(base[i] == id.variants[i - h.len()]);
            assert(is_variant(id.variants[i - h.len()]));
        } else if i == 1 && id.script is Some {
            assert(base[i] == id.script.unwrap());
        } else {
            assert(base[i] == id.region.unwrap());
        }
    }
    let ls = langid_string(id);
    if v.private.len() == 0 {
        assert(locale_string(v) =~= ls);
        lemma_no_singleton(base, 1);
        assert(base.take(base.len() as int) =~= base);
        assert(v.private =~= Seq::<Seq<u8>>::empty());
    } else {
        let p = v.private;
        assert forall|i: int| 0 <= i < p.len() implies no_dash(#[trigger] p[i]) by {
            assert(is_ext_subtag(p[i]));
            assert forall|j: int| 0 <= j < p[i].len() implies #[trigger] p[i][j] != 45u8 by {
                assert(crate::subtag::is_alnum(p[i][j]));
            }
        }
        assert(locale_string(v) =~= (ls + dash() + seq![120u8]) + prefixed(p));
        lemma_tokens_append(ls, seq![120u8]);
        lemma_tokens_prefixed(ls + dash() + seq![120u8], p);
        let toks = base.push(seq![120u8]) + p;
        assert(tokens(locale_string(v)) == toks);
        let m = base.len() as int;
        lemma_no_singleton(base, 1);
        assert forall|i: int| 1 <= i < m implies (#[trigger] toks[i]).len() != 1 by {
            assert(toks[i] == base[i]);
        }
        lemma_singleton_prefix(toks, m, 1);
        assert(toks.take(m) =~= base);
        assert(toks.skip(m + 1) =~= p);
        assert(lowered(p) =~= p);
        lemma_sort_all_sorted(p);
    }
}

proof fn lemma_singleton_prefix(toks: Seq<Seq<u8>>, m: int, from: int)
    requires
        1 <= from <= m < toks.len(),
        forall|i: int| from <= i < m ==> (#[trigger] toks[i]).len() != 1,
        toks[m].len() == 1,
    ensures
        singleton_index(toks, from) == m,
    decreases m - from,
{
    if from < m {
        lemma_singleton_prefix(toks, m, from + 1);
    }
}

} // verus!
