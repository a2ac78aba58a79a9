use vstd::prelude::*;
use crate::text::{byte_views, dash};

verus! {

/// The tokens of a tag: the runs of bytes between delimiters, empty ones included.
pub open spec fn tokens(s: Seq<u8>) -> Seq<Seq<u8>>
    decreases s.len(),
{
    if s.len() == 0 {
        seq![Seq::empty()]
    } else {
        let t = tokens(s.drop_last());
        if s.last() == 45u8 {
            t.push(Seq::empty())
        } else {
            t.update(t.len() - 1, t.last().push(s.last()))
        }
    }
}

pub proof fn lemma_tokens_len(s: Seq<u8>)
    ensures
        tokens(s).len() >= 1,
    decreases s.len(),
{
    if s.len() > 0 {
        lemma_tokens_len(s.drop_last());
    }
}

/// Splits a tag into its tokens at each delimiter.
pub fn split_tokens(s: &[u8]) -> (r: Vec<Vec<u8>>)
    ensures
        byte_views(r@) == tokens(s@),
        r@.len() >= 1,
{
    let mut done: Vec<Vec<u8>> = Vec::new();
    let mut cur: Vec<u8> = Vec::new();
    let mut i: usize = 0;
    assert(s@.take(0) =~= Seq::<u8>::empty());
    assert(byte_views(done@).push(cur@) =~= tokens(s@.take(0)));
    while i < s.len()
        invariant
            i <= s@.len(),
            byte_views(done@).push(cur@) == tokens(s@.take(i as int)),
        decreases s@.len() - i,
    {
        let c = s[i];
        proof {
            let p = s@.take(i + 1);
            assert(p.drop_last() =~= s@.take(i as int));
            assert(p.last() == c);
            lemma_tokens_len(s@.take(i as int));
        }
        if c == 45u8 {
            let t = cur;
            done.push(t);
            cur = Vec::new();
            assert(byte_views(done@).push(cur@) =~= tokens(s@.take(i + 1)));
        } else {
            let ghost before = byte_views(done@).push(cur@);
            cur.push(c);
            assert(byte_views(done@).push(cur@) =~= before.update(
                before.len() - 1,
                before.last().push(c),
            ));
        }
        i += 1;
    }
    assert(s@.take(i as int) =~= s@);
    done.push(cur);
    assert(byte_views(done@) =~= tokens(s@));
    done
}

pub open spec fn no_dash(t: Seq<u8>) -> bool {
    forall|i: int| 0 <= i < t.len() ==> #[trigger] t[i] != 45u8
}

/// A delimiter and then a run without delimiters add that run as one more token.
pub proof fn lemma_tokens_append(s: Seq<u8>, t: Seq<u8>)
    requires
        no_dash(t),
    ensures
        tokens(s + dash() + t) == tokens(s).push(t),
    decreases t.len(),
{
    let w = s + dash() + t;
    if t.len() == 0 {
        assert(w =~= s.push(45u8));
        assert(w.drop_last() =~= s);
        assert(Seq::<u8>::empty() =~= t);
    } else {
        let u = t.drop_last();
        assert(w.drop_last() =~= s + dash() + u);
        lemma_tokens_append(s, u);
        assert(w.last() == t.last());
        assert(u.push(t.last()) =~= t);
        assert(tokens(s).push(u).update(tokens(s).len() as int, t) =~= tokens(s).push(t));
    }
}

/// A run without delimiters is a single token.
pub proof fn lemma_tokens_single(t: Seq<u8>)
    requires
        no_dash(t),
    ensures
        tokens(t) == seq![t],
    decreases t.len(),
{
    if t.len() > 0 {
        let u = t.drop_last();
        lemma_tokens_single(u);
        assert(u.push(t.last()) =~= t);
        assert(seq![u].update(0, t) =~= seq![t]);
    } else {
        assert(Seq::<u8>::empty() =~= t);
    }
}

} // verus!
