use vstd::prelude::*;
use crate::errors::ParserError;

verus! {

pub open spec fn is_alpha(c: u8) -> bool {
    (65 <= c && c <= 90) || (97 <= c && c <= 122)
}

pub open spec fn is_digit(c: u8) -> bool {
    48 <= c && c <= 57
}

pub open spec fn is_alnum(c: u8) -> bool {
    is_alpha(c) || is_digit(c)
}

pub open spec fn all_alpha(s: Seq<u8>) -> bool {
    forall|i: int| 0 <= i < s.len() ==> is_alpha(#[trigger] s[i])
}

pub open spec fn all_digit(s: Seq<u8>) -> bool {
    forall|i: int| 0 <= i < s.len() ==> is_digit(#[trigger] s[i])
}

pub open spec fn all_alnum(s: Seq<u8>) -> bool {
    forall|i: int| 0 <= i < s.len() ==> is_alnum(#[trigger] s[i])
}

pub open spec fn lower_byte(c: u8) -> u8 {
    if 65 <= c && c <= 90 { (c + 32) as u8 } else { c }
}

pub open spec fn upper_byte(c: u8) -> u8 {
    if 97 <= c && c <= 122 { (c - 32) as u8 } else { c }
}

/// ASCII lower case, byte by byte.
pub open spec fn lower(s: Seq<u8>) -> Seq<u8> {
    Seq::new(s.len(), |i: int| lower_byte(s[i]))
}

/// ASCII upper case, byte by byte.
pub open spec fn upper(s: Seq<u8>) -> Seq<u8> {
    Seq::new(s.len(), |i: int| upper_byte(s[i]))
}

/// First byte in upper case, the others in lower case.
pub open spec fn title(s: Seq<u8>) -> Seq<u8> {
    Seq::new(s.len(), |i: int| if i == 0 { upper_byte(s[i]) } else { lower_byte(s[i]) })
}

/// What a fixed eight-byte small string can hold: one to eight ASCII bytes, none NUL.
pub open spec fn fits_small8(s: Seq<u8>) -> bool {
    1 <= s.len() <= 8 && forall|i: int| 0 <= i < s.len() ==> 0 < #[trigger] s[i] < 128
}

/// A primary language subtag: two, three, or five to eight letters.
pub open spec fn is_language(s: Seq<u8>) -> bool {
    (s.len() == 2 || s.len() == 3 || (5 <= s.len() <= 8)) && all_alpha(s)
}

/// A script subtag: four letters.
pub open spec fn is_script(s: Seq<u8>) -> bool {
    s.len() == 4 && all_alpha(s)
}

/// A region subtag: two letters or three digits.
pub open spec fn is_region(s: Seq<u8>) -> bool {
    (s.len() == 2 && all_alpha(s)) || (s.len() == 3 && all_digit(s))
}

/// A variant subtag: five to eight alphanumerics, or four starting with a digit.
pub open spec fn is_variant(s: Seq<u8>) -> bool {
    all_alnum(s) && ((5 <= s.len() <= 8) || (s.len() == 4 && is_digit(s[0])))
}

/// An extension subtag: one to eight alphanumerics.
pub open spec fn is_ext_subtag(s: Seq<u8>) -> bool {
    1 <= s.len() <= 8 && all_alnum(s)
}

/// The language that stands for "undetermined"; it is stored as an absent language.
pub open spec fn und() -> Seq<u8> {
    seq![117u8, 110u8, 100u8]
}

/// A validated, case-normalized subtag.
#[derive(Debug, Clone, Eq, Hash)]
pub struct Subtag {
    bytes: Vec<u8>,
}

impl View for Subtag {
    type V = Seq<u8>;

    closed spec fn view(&self) -> Seq<u8> {
        self.bytes@
    }
}

/// Relies on tinystr::TinyStr8::from_bytes: it accepts exactly the slices of one to
/// eight bytes that are all ASCII and none of them NUL.
#[verifier::external_body]
fn small8_fits(b: &[u8]) -> (r: bool)
    ensures
        r == fits_small8(b@),
{
    tinystr::TinyStr8::from_bytes(b).is_ok()
}

/// Relies on tinystr::TinyStr8::is_ascii_alphabetic: every byte is an ASCII letter.
#[verifier::external_body]
fn small8_is_alphabetic(b: &[u8]) -> (r: bool)
    requires
        fits_small8(b@),
    ensures
        r == all_alpha(b@),
{
    match tinystr::TinyStr8::from_bytes(b) {
        Ok(s) => s.is_ascii_alphabetic(),
        Err(_) => false,
    }
}

/// Relies on tinystr::TinyStr8::is_ascii_numeric: every byte is an ASCII digit.
#[verifier::external_body]
fn small8_is_numeric(b: &[u8]) -> (r: bool)
    requires
        fits_small8(b@),
    ensures
        r == all_digit(b@),
{
    match tinystr::TinyStr8::from_bytes(b) {
        Ok(s) => s.is_ascii_numeric(),
        Err(_) => false,
    }
}

/// Relies on tinystr::TinyStr8::is_ascii_alphanumeric: every byte is an ASCII letter
/// or digit.
#[verifier::external_body]
fn small8_is_alphanumeric(b: &[u8]) -> (r: bool)
    requires
        fits_small8(b@),
    ensures
        r == all_alnum(b@),
{
    match tinystr::TinyStr8::from_bytes(b) {
        Ok(s) => s.is_ascii_alphanumeric(),
        Err(_) => false,
    }
}

/// Relies on tinystr::TinyStr8::to_ascii_lowercase: 'A' to 'Z' become 'a' to 'z',
/// other bytes stay.
#[verifier::external_body]
fn small8_to_lowercase(b: &[u8]) -> (r: Vec<u8>)
    requires
        fits_small8(b@),
    ensures
        r@ == lower(b@),
{
    match tinystr::TinyStr8::from_bytes(b) {
        Ok(s) => s.to_ascii_lowercase().as_bytes().to_vec(),
        Err(_) => Vec::new(),
    }
}

/// Relies on tinystr::TinyStr8::to_ascii_uppercase: 'a' to 'z' become 'A' to 'Z',
/// other bytes stay.
#[verifier::external_body]
fn small8_to_uppercase(b: &[u8]) -> (r: Vec<u8>)
    requires
        fits_small8(b@),
    ensures
        r@ == upper(b@),
{
    match tinystr::TinyStr8::from_bytes(b) {
        Ok(s) => s.to_ascii_uppercase().as_bytes().to_vec(),
        Err(_) => Vec::new(),
    }
}

/// Relies on tinystr::TinyStr8::to_ascii_titlecase: on a value with no upper-case
/// letter, the first byte goes to upper case and the others stay.
#[verifier::external_body]
fn small8_to_titlecase(b: &[u8]) -> (r: Vec<u8>)
    requires
        fits_small8(b@),
        lower(b@) == b@,
    ensures
        r@ == title(b@),
{
    match tinystr::TinyStr8::from_bytes(b) {
        Ok(s) => s.to_ascii_titlecase().as_bytes().to_vec(),
        Err(_) => Vec::new(),
    }
}

proof fn lemma_alnum_fits(s: Seq<u8>)
    requires
        1 <= s.len() <= 8,
        all_alnum(s),
    ensures
        fits_small8(s),
{
    assert forall|i: int| 0 <= i < s.len() implies 0 < #[trigger] s[i] < 128 by {
        assert(is_alnum(s[i]));
    }
}

proof fn lemma_lower_fits(s: Seq<u8>)
    requires
        fits_small8(s),
    ensures
        fits_small8(lower(s)),
        lower(lower(s)) == lower(s),
{
    assert(lower(lower(s)) =~= lower(s));
}

proof fn lemma_title_of_lower(s: Seq<u8>)
    ensures
        title(lower(s)) == title(s),
{
    assert(title(lower(s)) =~= title(s));
}

impl Subtag {
    /// The subtag's bytes.
    pub fn as_bytes(&self) -> (r: &[u8])
        ensures
            r@ == self@,
    {
        self.bytes.as_slice()
    }

    /// Whether two subtags hold the same bytes.
    pub fn same(&self, other: &Subtag) -> (r: bool)
        ensures
            r == (self@ == other@),
    {
        bytes_eq(self.bytes.as_slice(), other.bytes.as_slice())
    }
}

impl PartialEq for Subtag {
    fn eq(&self, other: &Self) -> (r: bool) {
        self.same(other)
    }
}

impl vstd::std_specs::cmp::PartialEqSpecImpl for Subtag {
    open spec fn obeys_eq_spec() -> bool {
        true
    }

    open spec fn eq_spec(&self, other: &Subtag) -> bool {
        self@ == other@
    }
}

/// Whether two byte strings are equal.
pub fn bytes_eq(a: &[u8], b: &[u8]) -> (r: bool)
    ensures
        r == (a@ == b@),
{
    if a.len() != b.len() {
        return false;
    }
    let mut i: usize = 0;
    while i < a.len()
        invariant
            a@.len() == b@.len(),
            i <= a@.len(),
            a@.take(i as int) == b@.take(i as int),
        decreases a@.len() - i,
    {
        if a[i] != b[i] {
            return false;
        }
        assert(a@.take(i + 1) =~= a@.take(i as int).push(a@[i as int]));
        assert(b@.take(i + 1) =~= b@.take(i as int).push(b@[i as int]));
        i += 1;
    }
    assert(a@ =~= a@.take(i as int));
    assert(b@ =~= b@.take(i as int));
    true
}

/// Validates an extension subtag (one to eight alphanumerics) and stores it in lower case.
pub fn parse_value(t: &[u8]) -> (r: Result<Subtag, ParserError>)
    ensures
        r is Ok <==> is_ext_subtag(t@),
        r matches Ok(s) ==> s@ == lower(t@),
        r matches Err(e) ==> e == ParserError::InvalidSubtag,
{
    if !small8_fits(t) {
        assert(!is_ext_subtag(t@)) by {
            if is_ext_subtag(t@) {
                lemma_alnum_fits(t@);
            }
        }
        return Err(ParserError::InvalidSubtag);
    }
    if t.len() == 0 || t.len() > 8 || !small8_is_alphanumeric(t) {
        return Err(ParserError::InvalidSubtag);
    }
    Ok(Subtag { bytes: small8_to_lowercase(t) })
}

/// Validates a language subtag and stores it in lower case; "und" gives `None`.
pub fn parse_language(t: &[u8]) -> (r: Result<Option<Subtag>, ParserError>)
    ensures
        r is Ok <==> is_language(t@),
        r matches Ok(v) ==> (if lower(t@) == und() { v is None } else {
            v matches Some(s) && s@ == lower(t@)
        }),
        r matches Err(e) ==> e == ParserError::MissingPrimaryLanguage,
{
    let n = t.len();
    if !small8_fits(t) {
        assert(!is_language(t@)) by {
            if is_language(t@) {
                lemma_alnum_fits(t@);
            }
        }
        return Err(ParserError::MissingPrimaryLanguage);
    }
    if !((n == 2 || n == 3 || (5 <= n && n <= 8)) && small8_is_alphabetic(t)) {
        return Err(ParserError::MissingPrimaryLanguage);
    }
    let v = small8_to_lowercase(t);
    if v.len() == 3 && v[0] == 117u8 && v[1] == 110u8 && v[2] == 100u8 {
        assert(v@ =~= und());
        Ok(None)
    } else {
        assert(v@ != und());
        Ok(Some(Subtag { bytes: v }))
    }
}

/// Validates a script subtag and stores it in title case.
pub fn parse_script(t: &[u8]) -> (r: Option<Subtag>)
    ensures
        r is Some <==> is_script(t@),
        r matches Some(s) ==> s@ == title(t@),
{
    if t.len() != 4 || !small8_fits(t) {
        assert(!is_script(t@)) by {
            if is_script(t@) {
                lemma_alnum_fits(t@);
            }
        }
        return None;
    }
    if !small8_is_alphabetic(t) {
        return None;
    }
    let v = small8_to_lowercase(t);
    proof {
        lemma_lower_fits(t@);
        lemma_title_of_lower(t@);
    }
    Some(Subtag { bytes: small8_to_titlecase(v.as_slice()) })
}

/// Validates a region subtag and stores it in upper case.
pub fn parse_region(t: &[u8]) -> (r: Option<Subtag>)
    ensures
        r is Some <==> is_region(t@),
        r matches Some(s) ==> s@ == upper(t@),
{
    if (t.len() != 2 && t.len() != 3) || !small8_fits(t) {
        assert(!is_region(t@)) by {
            if is_region(t@) {
                lemma_alnum_fits(t@);
            }
        }
        return None;
    }
    if (t.len() == 2 && small8_is_alphabetic(t)) || (t.len() == 3 && small8_is_numeric(t)) {
        Some(Subtag { bytes: small8_to_uppercase(t) })
    } else {
        None
    }
}

/// Validates a variant subtag and stores it in lower case.
pub fn parse_variant(t: &[u8]) -> (r: Option<Subtag>)
    ensures
        r is Some <==> is_variant(t@),
        r matches Some(s) ==> s@ == lower(t@),
{
    if t.len() < 4 || !small8_fits(t) {
        assert(!is_variant(t@)) by {
            if is_variant(t@) {
                lemma_alnum_fits(t@);
            }
        }
        return None;
    }
    if !small8_is_alphanumeric(t) {
        return None;
    }
    if t.len() == 4 && !(48u8 <= t[0] && t[0] <= 57u8) {
        return None;
    }
    Some(Subtag { bytes: small8_to_lowercase(t) })
}

pub proof fn lemma_canon_language(t: Seq<u8>)
    requires
        is_language(t),
    ensures
        is_language(lower(t)),
        lower(lower(t)) == lower(t),
{
    assert(lower(lower(t)) =~= lower(t));
    assert forall|i: int| 0 <= i < t.len() implies is_alpha(#[trigger] lower(t)[i]) by {
        assert(is_alpha(t[i]));
    }
}

pub proof fn lemma_canon_script(t: Seq<u8>)
    requires
        is_script(t),
    ensures
        is_script(title(t)),
        title(title(t)) == title(t),
{
    assert(title(title(t)) =~= title(t));
    assert forall|i: int| 0 <= i < t.len() implies is_alpha(#[trigger] title(t)[i]) by {
        assert(is_alpha(t[i]));
    }
}

pub proof fn lemma_canon_region(t: Seq<u8>)
    requires
        is_region(t),
    ensures
        is_region(upper(t)),
        upper(upper(t)) == upper(t),
{
    assert(upper(upper(t)) =~= upper(t));
    if t.len() == 2 {
        assert forall|i: int| 0 <= i < t.len() implies is_alpha(#[trigger] upper(t)[i]) by {
            assert(is_alpha(t[i]));
        }
    } else {
        assert forall|i: int| 0 <= i < t.len() implies is_digit(#[trigger] upper(t)[i]) by {
            assert(is_digit(t[i]));
        }
    }
}

pub proof fn lemma_canon_variant(t: Seq<u8>)
    requires
        is_variant(t),
    ensures
        is_variant(lower(t)),
        lower(lower(t)) == lower(t),
{
    assert(lower(lower(t)) =~= lower(t));
    assert forall|i: int| 0 <= i < t.len() implies is_alnum(#[trigger] lower(t)[i]) by {
        assert(is_alnum(t[i]));
    }
}

pub proof fn lemma_lower_und()
    ensures
        lower(und()) == und(),
        is_language(und()),
{
    assert(lower(und()) =~= und());
}

} // verus!
