//! Columns of a board as sequences of optional tokens, bottom first, and what
//! letting them fall does to them.
use vstd::prelude::*;
use crate::element::Element;

verus! {

/// The tokens of a column, bottom first, skipping empty cells.
pub open spec fn tokens_of(s: Seq<Option<Element>>) -> Seq<Element>
    decreases s.len(),
{
    if s.len() == 0 {
        seq![]
    } else {
        match s.last() {
            Some(e) => tokens_of(s.drop_last()).push(e),
            None => tokens_of(s.drop_last()),
        }
    }
}

/// A column of height `h` holding `toks` from the bottom up, then nothing.
pub open spec fn stacked(toks: Seq<Element>, h: int) -> Seq<Option<Element>> {
    Seq::new(h as nat, |i: int| if i < toks.len() { Some(toks[i]) } else { None })
}

pub proof fn lemma_tokens_of_add(a: Seq<Option<Element>>, b: Seq<Option<Element>>)
    ensures
        tokens_of(a + b) == tokens_of(a) + tokens_of(b),
    decreases b.len(),
{
    if b.len() == 0 {
        assert(a + b =~= a);
        assert(tokens_of(b) =~= seq![]);
        assert(tokens_of(a) + tokens_of(b) =~= tokens_of(a));
    } else {
        lemma_tokens_of_add(a, b.drop_last());
        assert((a + b).drop_last() =~= a + b.drop_last());
        assert((a + b).last() == b.last());
        match b.last() {
            Some(e) => {
                assert(tokens_of(a) + tokens_of(b.drop_last()).push(e) =~= (tokens_of(a)
                    + tokens_of(b.drop_last())).push(e));
            },
            None => {},
        }
    }
}

pub proof fn lemma_tokens_of_empty(s: Seq<Option<Element>>)
    requires
        forall|i: int| 0 <= i < s.len() ==> (#[trigger] s[i]).is_none(),
    ensures
        tokens_of(s) == Seq::<Element>::empty(),
    decreases s.len(),
{
    if s.len() > 0 {
        lemma_tokens_of_empty(s.drop_last());
    }
}

pub proof fn lemma_tokens_of_len(s: Seq<Option<Element>>)
    ensures
        tokens_of(s).len() <= s.len(),
    decreases s.len(),
{
    if s.len() > 0 {
        lemma_tokens_of_len(s.drop_last());
    }
}

/// Moving the first token above a run of empty cells down to the run's
/// bottom keeps the column's tokens.
pub proof fn lemma_lift_token(c: Seq<Option<Element>>, lo: int, hi: int)
    requires
        0 <= lo < hi < c.len(),
        forall|j: int| lo <= j < hi ==> (#[trigger] c[j]).is_none(),
        c[hi].is_some(),
    ensures
        tokens_of(c.update(lo, c[hi]).update(hi, c[lo])) == tokens_of(c),
{
    let c2 = c.update(lo, c[hi]).update(hi, c[lo]);
    let a = c.subrange(0, lo);
    let b = c.subrange(lo, hi + 1);
    let d = c.subrange(hi + 1, c.len() as int);
    let b2 = c2.subrange(lo, hi + 1);
    assert(c =~= a + b + d);
    assert(c2 =~= a + b2 + d);
    lemma_tokens_of_add(a + b, d);
    lemma_tokens_of_add(a, b);
    lemma_tokens_of_add(a + b2, d);
    lemma_tokens_of_add(a, b2);
    let n1 = b.drop_last();
    let n2 = b2.subrange(1, b2.len() as int);
    assert forall|j: int| 0 <= j < n1.len() implies (#[trigger] n1[j]).is_none() by {
        assert(n1[j] == c[lo + j]);
    }
    assert forall|j: int| 0 <= j < n2.len() implies (#[trigger] n2[j]).is_none() by {
        assert(n2[j] == c2[lo + 1 + j]);
    }
    lemma_tokens_of_empty(n1);
    lemma_tokens_of_empty(n2);
    assert(b =~= n1.push(c[hi]));
    let one = seq![c[hi]];
    lemma_tokens_of_add(one, n2);
    assert(b2 =~= one + n2);
    assert(one.drop_last() =~= Seq::<Option<Element>>::empty());
    assert(tokens_of(one) =~= tokens_of(Seq::<Option<Element>>::empty()).push(c[hi].unwrap()));
    assert(tokens_of(b) =~= tokens_of(b2));
}

/// A column whose empty cells all lie above its tokens holds its tokens
/// stacked from the bottom.
pub proof fn lemma_settled_column(s: Seq<Option<Element>>)
    requires
        forall|i: int|
            0 <= i < s.len() ==> (#[trigger] s[i]).is_some() || (forall|j: int|
                i <= j < s.len() ==> s[j].is_none()),
    ensures
        s == stacked(tokens_of(s), s.len() as int),
    decreases s.len(),
{
    if s.len() > 0 {
        let p = s.drop_last();
        assert forall|i: int|
            0 <= i < p.len() implies (#[trigger] p[i]).is_some() || (forall|j: int|
                i <= j < p.len() ==> p[j].is_none()) by {
            assert(s[i] == p[i]);
            if s[i].is_none() {
                assert forall|j: int| i <= j < p.len() implies p[j].is_none() by {
                    assert(s[j] == p[j]);
                }
            }
        }
        lemma_settled_column(p);
        lemma_tokens_of_len(p);
        let t = tokens_of(p);
        match s.last() {
            Some(e) => {
                assert forall|i: int| 0 <= i < p.len() implies (#[trigger] p[i]).is_some() by {
                    let k = s.len() - 1;
                    assert(s[k].is_some());
                    assert(s[i] == p[i]);
                }
                assert(t.len() == p.len()) by {
                    if t.len() < p.len() {
                        assert(p[t.len() as int].is_some());
                    }
                }
                assert(tokens_of(s) == t.push(e));
                assert forall|i: int| 0 <= i < s.len() implies s[i] == stacked(
                    tokens_of(s),
                    s.len() as int,
                )[i] by {
                    if i < p.len() {
                        assert(s[i] == p[i]);
                        assert(p[i] == stacked(t, p.len() as int)[i]);
                    }
                }
                assert(s =~= stacked(tokens_of(s), s.len() as int));
            },
            None => {
                assert(tokens_of(s) == t);
                assert forall|i: int| 0 <= i < s.len() implies s[i] == stacked(
                    tokens_of(s),
                    s.len() as int,
                )[i] by {
                    if i < p.len() {
                        assert(s[i] == p[i]);
                        assert(p[i] == stacked(t, p.len() as int)[i]);
                    }
                }
                assert(s =~= stacked(tokens_of(s), s.len() as int));
            },
        }
    }
}

} // verus!
