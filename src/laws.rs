//! Facts about what a retaining pass leaves behind, stated over the answers
//! that the predicate gave.
use vstd::prelude::*;

use crate::string::{kept, offered, verdicts, verdicts_default};

verus! {

/// Keeping the characters that `p` holds of is filtering by `p`.
pub proof fn lemma_kept_filter(s: Seq<char>, keep: Seq<bool>, p: spec_fn(char) -> bool)
    requires
        keep.len() >= s.len(),
        forall|i: int| 0 <= i < s.len() ==> keep[i] == p(s[i]),
    ensures
        kept(s, keep) == s.filter(p),
    decreases s.len(),
{
    reveal_with_fuel(Seq::filter, 1);
    if s.len() > 0 {
        let t = s.drop_last();
        assert forall|i: int| 0 <= i < t.len() implies keep[i] == p(t[i]) by {
            assert(t[i] == s[i]);
        }
        lemma_kept_filter(t, keep, p);
        assert(keep[s.len() - 1] == p(s[s.len() - 1]));
    } else {
        assert(s.filter(p) =~= Seq::<char>::empty());
    }
}

/// When every answer is true, every character is kept.
pub proof fn lemma_kept_all(s: Seq<char>, keep: Seq<bool>)
    requires
        keep.len() >= s.len(),
        forall|i: int| 0 <= i < s.len() ==> keep[i],
    ensures
        kept(s, keep) == s,
    decreases s.len(),
{
    if s.len() > 0 {
        lemma_kept_all(s.drop_last(), keep);
        assert(s.drop_last().push(s.last()) =~= s);
    }
}

/// When every answer is false, nothing is kept.
pub proof fn lemma_kept_none(s: Seq<char>, keep: Seq<bool>)
    requires
        keep.len() >= s.len(),
        forall|i: int| 0 <= i < s.len() ==> !keep[i],
    ensures
        kept(s, keep) == Seq::<char>::empty(),
    decreases s.len(),
{
    if s.len() > 0 {
        lemma_kept_none(s.drop_last(), keep);
    }
}

/// Retaining with a predicate that always answers true leaves the text as it
/// was.
pub proof fn law_keep_everything<F: FnMut(&str, char, &str) -> bool>(
    f: F,
    s: Seq<char>,
    keep: Seq<bool>,
)
    requires
        verdicts(f, s, keep),
        forall|b: &str, c: char, a: &str, r: bool| call_ensures(f, (b, c, a), r) ==> r,
    ensures
        kept(s, keep) == s,
{
    assert forall|i: int| 0 <= i < s.len() implies keep[i] by {
        assert(offered(f, kept(s.take(i), keep), s[i], s.skip(i + 1), keep[i]));
    }
    lemma_kept_all(s, keep);
}

/// Retaining with a predicate that always answers false leaves the text empty.
pub proof fn law_drop_everything<F: FnMut(&str, char, &str) -> bool>(
    f: F,
    s: Seq<char>,
    keep: Seq<bool>,
)
    requires
        verdicts(f, s, keep),
        forall|b: &str, c: char, a: &str, r: bool| call_ensures(f, (b, c, a), r) ==> !r,
    ensures
        kept(s, keep) == Seq::<char>::empty(),
{
    assert forall|i: int| 0 <= i < s.len() implies !keep[i] by {
        assert(offered(f, kept(s.take(i), keep), s[i], s.skip(i + 1), keep[i]));
    }
    lemma_kept_none(s, keep);
}

/// A predicate that ignores both views and answers `p` of the character
/// leaves exactly the characters that `p` holds of, in order: the result of
/// a plain filter.
pub proof fn law_views_ignored_is_filter<F: FnMut(&str, char, &str) -> bool>(
    f: F,
    s: Seq<char>,
    keep: Seq<bool>,
    p: spec_fn(char) -> bool,
)
    requires
        verdicts(f, s, keep),
        forall|b: &str, c: char, a: &str, r: bool| call_ensures(f, (b, c, a), r) ==> r == p(c),
    ensures
        kept(s, keep) == s.filter(p),
{
    assert forall|i: int| 0 <= i < s.len() implies keep[i] == p(s[i]) by {
        assert(offered(f, kept(s.take(i), keep), s[i], s.skip(i + 1), keep[i]));
    }
    lemma_kept_filter(s, keep, p);
}

/// Retaining by a predicate on the character alone that answers `p` gives
/// the same text as a plain filter by `p`.
pub proof fn law_default_is_filter<F: FnMut(char) -> bool>(
    f: F,
    s: Seq<char>,
    keep: Seq<bool>,
    p: spec_fn(char) -> bool,
)
    requires
        verdicts_default(f, s, keep),
        forall|c: char, r: bool| call_ensures(f, (c,), r) ==> r == p(c),
    ensures
        kept(s, keep) == s.filter(p),
{
    assert forall|i: int| 0 <= i < s.len() implies keep[i] == p(s[i]) by {
        assert(call_ensures(f, (s[i],), keep[i]));
    }
    lemma_kept_filter(s, keep, p);
}

} // verus!
