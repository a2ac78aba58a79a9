use vstd::prelude::*;
use crate::errors::ParserError;
use crate::order::{insert_sorted, insert_sorted_vec, lemma_insert_sorted_commutes, lemma_insert_sorted_sorted, sort_all, sorted, views};
use crate::subtag::{is_ext_subtag, lower, parse_value, Subtag};
use crate::text::{byte_views, all_ascii, ascii_chars, dash, prefixed, push_part, string_from_ascii};

verus! {

/// The subtags each brought to lower case.
pub open spec fn lowered(ts: Seq<Seq<u8>>) -> Seq<Seq<u8>> {
    Seq::new(ts.len(), |i: int| lower(ts[i]))
}

pub open spec fn all_ext_subtags(ts: Seq<Seq<u8>>) -> bool {
    forall|i: int| 0 <= i < ts.len() ==> is_ext_subtag(#[trigger] ts[i])
}

/// The serialized form of a private-use list: nothing when empty, else the
/// introducer and each subtag, each after the delimiter.
pub open spec fn private_string(l: Seq<Seq<u8>>) -> Seq<u8> {
    if l.len() == 0 {
        Seq::empty()
    } else {
        dash() + seq![120u8] + prefixed(l)
    }
}

/// Every subtag is a lower-case extension subtag, and they stand in ascending order.
pub open spec fn wf_private(l: Seq<Seq<u8>>) -> bool {
    &&& sorted(l)
    &&& forall|i: int| 0 <= i < l.len() ==> is_ext_subtag(#[trigger] l[i]) && lower(l[i]) == l[i]
}

/// The subtags of a private-use extension, kept in ascending order.
#[derive(Debug, Clone, Eq, Hash)]
pub struct PrivateExtensionList(Vec<Subtag>);

impl View for PrivateExtensionList {
    type V = Seq<Seq<u8>>;

    closed spec fn view(&self) -> Seq<Seq<u8>> {
        views(self.0@)
    }
}

impl PrivateExtensionList {
    /// The list is in canonical form.
    pub open spec fn wf(&self) -> bool {
        wf_private(self@)
    }

    /// An empty list.
    pub fn new() -> (r: Self)
        ensures
            r@ == Seq::<Seq<u8>>::empty(),
            r.wf(),
    {
        let r = PrivateExtensionList(Vec::new());
        assert(r@ =~= Seq::<Seq<u8>>::empty());
        r
    }

    pub fn is_empty(&self) -> (r: bool)
        ensures
            r == (self@.len() == 0),
    {
        self.0.len() == 0
    }

    /// The number of subtags.
    pub fn len(&self) -> (r: usize)
        ensures
            r == self@.len(),
    {
        self.0.len()
    }

    /// Validates `tag` as an extension subtag and adds it, in lower case, at its
    /// place in the order. On failure the list is left as it was.
    pub fn add_tag(&mut self, tag: &[u8]) -> (r: Result<(), ParserError>)
        requires
            old(self).wf(),
        ensures
            r is Ok <==> is_ext_subtag(tag@),
            r is Ok ==> final(self)@ == insert_sorted(old(self)@, lower(tag@)),
            r is Err ==> final(self)@ == old(self)@ && r == Err::<(), ParserError>(
                ParserError::InvalidSubtag,
            ),
            final(self).wf(),
    {
        match parse_value(tag) {
            Ok(s) => {
                proof {
                    lemma_insert_sorted_sorted(self@, s@);
                    lemma_lower_ext(tag@);
                    crate::order::lemma_insert_sorted_contents(self@, s@);
                }
                insert_sorted_vec(&mut self.0, s);
                proof {
                    assert forall|i: int| 0 <= i < self@.len() implies is_ext_subtag(
                        #[trigger] self@[i],
                    ) && lower(self@[i]) == self@[i] by {
                        assert(self@.contains(self@[i]));
                        if self@[i] != lower(tag@) {
                            let k = choose|k: int|
                                0 <= k < old(self)@.len() && old(self)@[k] == self@[i];
                        }
                    }
                }
                Ok(())
            },
            Err(e) => Err(e),
        }
    }

    /// Validates every raw subtag and collects them, in lower case and ascending
    /// order; fails on the first invalid one.
    pub fn try_from_iter(subtags: &[Vec<u8>]) -> (r: Result<Self, ParserError>)
        ensures
            r is Ok <==> all_ext_subtags(byte_views(subtags@)),
            r matches Ok(l) ==> l@ == sort_all(lowered(byte_views(subtags@)))
                && l.wf(),
            r matches Err(e) ==> e == ParserError::InvalidSubtag,
    {
        assert(byte_views(subtags@).skip(0) =~= byte_views(subtags@));
        Self::collect_from(subtags, 0)
    }

    /// As `try_from_iter`, on the subtags from index `start` on.
    pub fn collect_from(subtags: &[Vec<u8>], start: usize) -> (r: Result<Self, ParserError>)
        requires
            start <= subtags@.len(),
        ensures
            r is Ok <==> all_ext_subtags(byte_views(subtags@).skip(start as int)),
            r matches Ok(l) ==> l@ == sort_all(
                lowered(byte_views(subtags@).skip(start as int)),
            ) && l.wf(),
            r matches Err(e) ==> e == ParserError::InvalidSubtag,
    {
        let ghost raw = byte_views(subtags@).skip(start as int);
        let mut pext = PrivateExtensionList::new();
        let mut i: usize = start;
        while i < subtags.len()
            invariant
                start <= i <= subtags@.len(),
                raw == byte_views(subtags@).skip(start as int),
                all_ext_subtags(raw.take(i - start)),
                pext@ == sort_all(lowered(raw.take(i - start))),
                pext.wf(),
            decreases subtags@.len() - i,
        {
            match pext.add_tag(subtags[i].as_slice()) {
                Ok(()) => {},
                Err(e) => {
                    assert(raw[i - start] == subtags@[i as int]@);
                    return Err(e);
                },
            }
            proof {
                let p = raw.take(i - start);
                let q = raw.take(i - start + 1);
                assert(q.drop_last() =~= p);
                assert(lowered(q).drop_last() =~= lowered(p));
                assert(raw[i - start] == subtags@[i as int]@);
                assert(all_ext_subtags(q));
            }
            i += 1;
        }
        assert(raw.take(i - start) =~= raw);
        Ok(pext)
    }

    /// The serialized form: empty when the list is, else "-x" and each subtag after
    /// a delimiter.
    pub fn to_bytes(&self) -> (r: Vec<u8>)
        ensures
            r@ == private_string(self@),
    {
        let mut out: Vec<u8> = Vec::new();
        if self.0.len() == 0 {
            assert(out@ =~= private_string(self@));
            return out;
        }
        out.push(45u8);
        out.push(120u8);
        let mut i: usize = 0;
        while i < self.0.len()
            invariant
                i <= self@.len(),
                self@.len() > 0,
                out@ == dash() + seq![120u8] + prefixed(self@.take(i as int)),
            decreases self@.len() - i,
        {
            push_part(&mut out, self.0[i].as_bytes());
            proof {
                let q = self@.take(i + 1);
                assert(q.drop_last() =~= self@.take(i as int));
                assert(self@[i as int] == self.0@[i as int]@);
                assert(out@ =~= dash() + seq![120u8] + prefixed(q));
            }
            i += 1;
        }
        assert(self@.take(i as int) =~= self@);
        out
    }

    /// The serialized form as text.
    pub fn to_string(&self) -> (r: String)
        requires
            self.wf(),
        ensures
            r@ == ascii_chars(private_string(self@)),
    {
        let b = self.to_bytes();
        proof {
            lemma_private_string_ascii(self@);
        }
        string_from_ascii(b)
    }
}

impl Default for PrivateExtensionList {
    fn default() -> (r: Self)
        ensures
            r@ == Seq::<Seq<u8>>::empty(),
            r.wf(),
    {
        PrivateExtensionList::new()
    }
}

impl PartialEq for PrivateExtensionList {
    fn eq(&self, other: &Self) -> (r: bool) {
        crate::order::same_subtags(&self.0, &other.0)
    }
}

impl vstd::std_specs::cmp::PartialEqSpecImpl for PrivateExtensionList {
    open spec fn obeys_eq_spec() -> bool {
        true
    }

    open spec fn eq_spec(&self, other: &PrivateExtensionList) -> bool {
        self@ == other@
    }
}

pub proof fn lemma_lower_ext(t: Seq<u8>)
    requires
        is_ext_subtag(t),
    ensures
        is_ext_subtag(lower(t)),
        lower(lower(t)) == lower(t),
{
    assert(lower(lower(t)) =~= lower(t));
}

pub proof fn lemma_prefixed_ascii(ts: Seq<Seq<u8>>)
    requires
        forall|i: int| 0 <= i < ts.len() ==> all_ascii(#[trigger] ts[i]),
    ensures
        all_ascii(prefixed(ts)),
    decreases ts.len(),
{
    if ts.len() > 0 {
        lemma_prefixed_ascii(ts.drop_last());
        let a = prefixed(ts.drop_last());
        let l = ts.last();
        assert(all_ascii(l));
        assert forall|i: int| 0 <= i < prefixed(ts).len() implies #[trigger] prefixed(ts)[i] < 128 by {
            if i < a.len() {
                assert(prefixed(ts)[i] == a[i]);
            } else if i > a.len() {
                assert(prefixed(ts)[i] == l[i - a.len() - 1]);
            }
        }
    }
}

pub proof fn lemma_private_string_ascii(l: Seq<Seq<u8>>)
    requires
        forall|i: int| 0 <= i < l.len() ==> is_ext_subtag(#[trigger] l[i]),
    ensures
        all_ascii(private_string(l)),
{
    assert forall|i: int| 0 <= i < l.len() implies all_ascii(#[trigger] l[i]) by {
        assert(is_ext_subtag(l[i]));
        assert forall|j: int| 0 <= j < l[i].len() implies #[trigger] l[i][j] < 128 by {
            assert(crate::subtag::is_alnum(l[i][j]));
        }
    }
    lemma_prefixed_ascii(l);
    if l.len() > 0 {
        let p = prefixed(l);
        assert forall|i: int| 0 <= i < private_string(l).len() implies #[trigger] private_string(l)[i] < 128 by {
            if i >= 2 {
                assert(private_string(l)[i] == p[i - 2]);
            }
        }
    }
}

/// Adding two private-use subtags gives the same list, and so the same serialized
/// form, whichever is added first.
pub proof fn lemma_add_tag_order_irrelevant(l: Seq<Seq<u8>>, a: Seq<u8>, b: Seq<u8>)
    ensures
        insert_sorted(insert_sorted(l, lower(a)), lower(b)) == insert_sorted(
            insert_sorted(l, lower(b)),
            lower(a),
        ),
        private_string(insert_sorted(insert_sorted(l, lower(a)), lower(b))) == private_string(
            insert_sorted(insert_sorted(l, lower(b)), lower(a)),
        ),
{
    lemma_insert_sorted_commutes(l, lower(a), lower(b));
}

} // verus!
