//! Retaining characters of a `String` in place, with the predicate allowed to
//! look at the text around the character it decides on.
use vstd::prelude::*;
use vstd::slice::slice_subrange;
use vstd::string::StrSliceExecFns;
use vstd::utf8::*;

use crate::encoding::{
    lemma_encode_concat,
    lemma_encode_empty,
    lemma_encode_injective,
    lemma_encode_single,
    lemma_first_char_boundary,
    shift_back,
    str_from_bytes,
    text_from_bytes,
    text_into_bytes,
    utf8_width,
};
use crate::sealed::Sealed;

verus! {

/// The characters of `s` whose entry in `keep` is true, in their order.
pub open spec fn kept(s: Seq<char>, keep: Seq<bool>) -> Seq<char>
    decreases s.len(),
{
    if s.len() == 0 {
        Seq::empty()
    } else if keep[s.len() - 1] {
        kept(s.drop_last(), keep).push(s.last())
    } else {
        kept(s.drop_last(), keep)
    }
}

/// `f` may answer `r` when offered `c`, with `before` as the text retained so
/// far and `after` as the text not yet considered.
pub open spec fn offered<F: FnMut(&str, char, &str) -> bool>(
    f: F,
    before: Seq<char>,
    c: char,
    after: Seq<char>,
    r: bool,
) -> bool {
    exists|b: &str, a: &str| b@ == before && a@ == after && #[trigger] call_ensures(f, (b, c, a), r)
}

/// `keep` holds, for each character of `s` in order, an answer that `f` may give
/// when that character is offered with the views that a retaining pass shows it.
pub open spec fn verdicts<F: FnMut(&str, char, &str) -> bool>(
    f: F,
    s: Seq<char>,
    keep: Seq<bool>,
) -> bool {
    &&& keep.len() == s.len()
    &&& forall|i: int|
        0 <= i < s.len() ==> #[trigger] offered(
            f,
            kept(s.take(i), keep),
            s[i],
            s.skip(i + 1),
            keep[i],
        )
}

/// `f` may answer `r` when offered `c` with `after` as the text not yet considered.
pub open spec fn offered_after<F: FnMut(char, &str) -> bool>(
    f: F,
    c: char,
    after: Seq<char>,
    r: bool,
) -> bool {
    exists|a: &str| a@ == after && #[trigger] call_ensures(f, (c, a), r)
}

/// Like [`verdicts`], for a predicate that sees the character and what follows it.
pub open spec fn verdicts_after<F: FnMut(char, &str) -> bool>(
    f: F,
    s: Seq<char>,
    keep: Seq<bool>,
) -> bool {
    &&& keep.len() == s.len()
    &&& forall|i: int|
        0 <= i < s.len() ==> #[trigger] offered_after(f, s[i], s.skip(i + 1), keep[i])
}

/// Like [`verdicts`], for a predicate that sees the character alone.
pub open spec fn verdicts_default<F: FnMut(char) -> bool>(
    f: F,
    s: Seq<char>,
    keep: Seq<bool>,
) -> bool {
    &&& keep.len() == s.len()
    &&& forall|i: int| 0 <= i < s.len() ==> #[trigger] call_ensures(f, (s[i],), keep[i])
}

/// Extending `s` by one character extends what is kept by that character
/// exactly when its entry is true.
pub proof fn lemma_kept_push(s: Seq<char>, keep: Seq<bool>, c: char)
    requires
        keep.len() > s.len(),
    ensures
        kept(s.push(c), keep) == if keep[s.len() as int] {
            kept(s, keep).push(c)
        } else {
            kept(s, keep)
        },
{
    assert(s.push(c).drop_last() =~= s);
}

/// What is kept of `s` depends only on the entries of `keep` for `s`'s positions.
pub proof fn lemma_kept_prefix_agree(s: Seq<char>, k1: Seq<bool>, k2: Seq<bool>)
    requires
        k1.len() >= s.len(),
        k2.len() >= s.len(),
        forall|i: int| 0 <= i < s.len() ==> k1[i] == k2[i],
    ensures
        kept(s, k1) == kept(s, k2),
    decreases s.len(),
{
    if s.len() > 0 {
        lemma_kept_prefix_agree(s.drop_last(), k1, k2);
    }
}

/// More advanced versions of `String::retain`, as methods on `String`.
///
/// The trait is sealed: only this crate implements it.
pub trait RetainMoreString: Sealed {
    /// The characters of the text.
    spec fn text(&self) -> Seq<char>;

    /// Retains only the characters for which `f` returns true.
    ///
    /// Each character is offered to `f` exactly once, in the original order,
    /// and the retained characters keep their order. `f` receives the text
    /// already retained (the characters for which it returned true so far),
    /// the current character, and the part of the text not yet considered.
    /// Both views are shared: `f` reads the text around the character but
    /// does not write to it.
    ///
    /// While `f` runs, the string itself reads as empty: if `f` panics, the
    /// string is left empty and valid rather than half compacted.
    ///
    /// Deciding on the retained text needs care: when `f` drops a character
    /// because of what it sees there, that text is unchanged at the next call,
    /// so the same reason drops every later character too. State kept inside
    /// `f` is usually the better tool.
    fn retain_all<F: FnMut(&str, char, &str) -> bool>(&mut self, f: F)
        requires
            forall|b: &str, c: char, a: &str| call_requires(f, (b, c, a)),
        ensures
            exists|keep: Seq<bool>|
                verdicts(f, old(self).text(), keep) && final(self).text() == kept(
                    old(self).text(),
                    keep,
                ),
    ;

    /// Like [`RetainMoreString::retain_all`], for a predicate that needs the
    /// current character and the text not yet considered.
    fn retain_after<F: FnMut(char, &str) -> bool>(&mut self, f: F)
        requires
            forall|c: char, a: &str| call_requires(f, (c, a)),
        ensures
            exists|keep: Seq<bool>|
                verdicts_after(f, old(self).text(), keep) && final(self).text() == kept(
                    old(self).text(),
                    keep,
                ),
    ;

    /// Like [`RetainMoreString::retain_all`], for a predicate on the current
    /// character alone: the same result as `String::retain`.
    fn retain_default<F: FnMut(char) -> bool>(&mut self, f: F)
        requires
            forall|c: char| call_requires(f, (c,)),
        ensures
            exists|keep: Seq<bool>|
                verdicts_default(f, old(self).text(), keep) && final(self).text() == kept(
                    old(self).text(),
                    keep,
                ),
    ;
}


/// A predicate that the retaining pass consults, one character at a time.
pub(crate) trait Verdict: Sized {
    /// `decide` may be called with these views and this character.
    spec fn accepts(&self, before: &str, c: char, after: &str) -> bool;

    /// `decide` may answer `r` for these views and this character.
    spec fn gives(&self, before: &str, c: char, after: &str, r: bool) -> bool;

    fn decide(&mut self, before: &str, c: char, after: &str) -> (r: bool)
        requires
            old(self).accepts(before, c, after),
        ensures
            *final(self) == *old(self),
            old(self).gives(before, c, after, r),
    ;
}

/// `v` may answer `r` when offered `c` with these views.
pub(crate) open spec fn offered_with<V: Verdict>(
    v: V,
    before: Seq<char>,
    c: char,
    after: Seq<char>,
    r: bool,
) -> bool {
    exists|b: &str, a: &str| b@ == before && a@ == after && #[trigger] v.gives(b, c, a, r)
}

/// Like [`verdicts`], for a predicate behind [`Verdict`].
pub(crate) open spec fn verdicts_with<V: Verdict>(v: V, s: Seq<char>, keep: Seq<bool>) -> bool {
    &&& keep.len() == s.len()
    &&& forall|i: int|
        0 <= i < s.len() ==> #[trigger] offered_with(
            v,
            kept(s.take(i), keep),
            s[i],
            s.skip(i + 1),
            keep[i],
        )
}

/// A predicate that sees the retained text, the character and what follows it.
pub(crate) struct Full<F>(pub(crate) F);

/// A predicate that sees the character and what follows it.
pub(crate) struct After<F>(pub(crate) F);

/// A predicate that sees the character alone.
pub(crate) struct Single<F>(pub(crate) F);

impl<F: FnMut(&str, char, &str) -> bool> Verdict for Full<F> {
    open spec fn accepts(&self, before: &str, c: char, after: &str) -> bool {
        call_requires(self.0, (before, c, after))
    }

    open spec fn gives(&self, before: &str, c: char, after: &str, r: bool) -> bool {
        call_ensures(self.0, (before, c, after), r)
    }

    fn decide(&mut self, before: &str, c: char, after: &str) -> (r: bool) {
        (self.0)(before, c, after)
    }
}

impl<F: FnMut(char, &str) -> bool> Verdict for After<F> {
    open spec fn accepts(&self, before: &str, c: char, after: &str) -> bool {
        call_requires(self.0, (c, after))
    }

    open spec fn gives(&self, before: &str, c: char, after: &str, r: bool) -> bool {
        call_ensures(self.0, (c, after), r)
    }

    fn decide(&mut self, before: &str, c: char, after: &str) -> (r: bool) {
        (self.0)(c, after)
    }
}

impl<F: FnMut(char) -> bool> Verdict for Single<F> {
    open spec fn accepts(&self, before: &str, c: char, after: &str) -> bool {
        call_requires(self.0, (c,))
    }

    open spec fn gives(&self, before: &str, c: char, after: &str, r: bool) -> bool {
        call_ensures(self.0, (c,), r)
    }

    fn decide(&mut self, before: &str, c: char, after: &str) -> (r: bool) {
        (self.0)(c)
    }
}

/// Retains the characters of `text` that `v` decides to keep, compacting the
/// UTF-8 bytes in place: a kept character is moved back over the bytes of the
/// characters dropped before it, and the storage is cut to the kept length
/// once the whole text has been considered.
///
/// The views handed to the predicate are made from the bytes with a UTF-8
/// check each time, so a pass takes time quadratic in the length of the text;
/// no byte is copied but those of kept characters that move back.
fn retain_with<V: Verdict>(text: &mut String, v: V)
    requires
        forall|b: &str, c: char, a: &str| v.accepts(b, c, a),
    ensures
        exists|keep: Seq<bool>|
            verdicts_with(v, old(text)@, keep) && final(text)@ == kept(old(text)@, keep),
{
    let ghost v0 = v;
    let mut v = v;
    // The string reads as empty for the whole scan, so that a panicking
    // predicate leaves valid text behind; the result is put back at the end.
    let mut taken = String::new();
    core::mem::swap(text, &mut taken);
    let ghost orig: Seq<char> = taken@;
    let mut bytes = text_into_bytes(taken);
    let len = bytes.len();
    proof {
        assert(orig.take(0) =~= Seq::<char>::empty());
        assert(orig.skip(0) =~= orig);
        assert(bytes@.subrange(0, 0) =~= Seq::<u8>::empty());
        assert(bytes@.subrange(0, len as int) =~= bytes@);
        assert(kept(Seq::<char>::empty(), Seq::<bool>::empty()) == Seq::<char>::empty());
    }
    let ghost mut keep: Seq<bool> = Seq::empty();
    let ghost mut i: int = 0;
    // Bytes dropped so far, and the start of the part not yet considered.
    let mut del_bytes: usize = 0;
    let mut idx: usize = 0;
    while idx < len
        invariant
            v == v0,
            forall|b: &str, c: char, a: &str| v.accepts(b, c, a),
            bytes@.len() == len,
            0 <= i <= orig.len(),
            keep.len() == i,
            idx as int == encode_utf8(orig.take(i)).len(),
            del_bytes <= idx <= len,
            bytes@.subrange(0, idx - del_bytes) == encode_utf8(kept(orig.take(i), keep)),
            bytes@.subrange(idx as int, len as int) == encode_utf8(orig.skip(i)),
            forall|j: int|
                0 <= j < i ==> #[trigger] offered_with(
                    v,
                    kept(orig.take(j), keep),
                    orig[j],
                    orig.skip(j + 1),
                    keep[j],
                ),
            text@ == Seq::<char>::empty(),
        decreases len - idx,
    {
        let ghost rest = orig.skip(i);
        proof {
            lemma_encode_empty(rest);
            encode_utf8_valid_utf8(rest);
        }
        let tail = match str_from_bytes(slice_subrange(bytes.as_slice(), idx, len)) {
            Some(t) => t,
            None => vstd::pervasive::unreached(),
        };
        proof {
            lemma_encode_injective(tail@, rest);
        }
        let ch = tail.get_char(0);
        let ch_len = utf8_width(ch);
        proof {
            lemma_first_char_boundary(rest);
            assert(rest.drop_first() =~= orig.skip(i + 1));
            assert(encode_utf8(rest) =~= encode_scalar(ch as u32) + encode_utf8(
                orig.skip(i + 1),
            ));
        }
        let (_, after) = tail.split_at(ch_len);
        proof {
            assert(encode_utf8(after@) =~= encode_utf8(orig.skip(i + 1)));
            lemma_encode_injective(after@, orig.skip(i + 1));
            encode_utf8_valid_utf8(kept(orig.take(i), keep));
        }
        let before = match str_from_bytes(
            slice_subrange(bytes.as_slice(), 0, idx - del_bytes),
        ) {
            Some(t) => t,
            None => vstd::pervasive::unreached(),
        };
        proof {
            lemma_encode_injective(before@, kept(orig.take(i), keep));
        }
        let r = v.decide(before, ch, after);
        let ghost old_keep = keep;
        let ghost old_bytes = bytes@;
        proof {
            assert(offered_with(v, kept(orig.take(i), keep), orig[i], orig.skip(i + 1), r));
            keep = keep.push(r);
            assert forall|j: int| 0 <= j <= i implies #[trigger] offered_with(
                v,
                kept(orig.take(j), keep),
                orig[j],
                orig.skip(j + 1),
                keep[j],
            ) by {
                lemma_kept_prefix_agree(orig.take(j), old_keep, keep);
            }
            assert(orig.take(i + 1) =~= orig.take(i).push(orig[i]));
            lemma_kept_push(orig.take(i), keep, orig[i]);
            lemma_kept_prefix_agree(orig.take(i), old_keep, keep);
            lemma_encode_concat(orig.take(i), seq![orig[i]]);
            lemma_encode_single(orig[i]);
            assert(orig.take(i).push(orig[i]) =~= orig.take(i) + seq![orig[i]]);
            assert(old_bytes.subrange(idx as int, idx + ch_len) =~= encode_scalar(
                ch as u32,
            ));
            assert(old_bytes.subrange(idx + ch_len, len as int) =~= encode_utf8(
                orig.skip(i + 1),
            ));
        }
        if !r {
            del_bytes += ch_len;
            proof {
                assert(bytes@.subrange(idx + ch_len, len as int) == old_bytes.subrange(
                    idx + ch_len,
                    len as int,
                ));
            }
        } else {
            if del_bytes > 0 {
                shift_back(&mut bytes, idx, del_bytes, ch_len);
            }
            proof {
                let w = idx - del_bytes;
                let pre = kept(orig.take(i), old_keep);
                lemma_encode_concat(pre, seq![orig[i]]);
                assert(pre.push(orig[i]) =~= pre + seq![orig[i]]);
                assert(bytes@.subrange(0, w) == old_bytes.subrange(0, w));
                assert(bytes@.subrange(w, w + ch_len) == old_bytes.subrange(
                    idx as int,
                    idx + ch_len,
                ));
                assert(bytes@.subrange(0, w + ch_len) =~= bytes@.subrange(0, w)
                    + bytes@.subrange(w, w + ch_len));
                assert(bytes@.subrange(idx + ch_len, len as int) =~= bytes@.subrange(
                    w + ch_len,
                    len as int,
                ).subrange(idx + ch_len - (w + ch_len), len - (w + ch_len)));
                assert(old_bytes.subrange(idx + ch_len, len as int) =~= old_bytes.subrange(
                    w + ch_len,
                    len as int,
                ).subrange(idx + ch_len - (w + ch_len), len - (w + ch_len)));
            }
        }
        idx += ch_len;
        proof {
            i = i + 1;
        }
    }
    proof {
        lemma_encode_empty(orig.skip(i));
        assert(orig.take(i) =~= orig);
        encode_utf8_valid_utf8(kept(orig, keep));
    }
    bytes.truncate(len - del_bytes);
    proof {
        assert(bytes@ =~= encode_utf8(kept(orig, keep)));
    }
    if let Some(t) = text_from_bytes(bytes) {
        proof {
            lemma_encode_injective(t@, kept(orig, keep));
        }
        *text = t;
    }
    proof {
        assert(verdicts_with(v0, orig, keep));
        assert(text@ == kept(orig, keep));
    }
}

impl RetainMoreString for String {
    open spec fn text(&self) -> Seq<char> {
        self@
    }

    fn retain_all<F: FnMut(&str, char, &str) -> bool>(&mut self, f: F) {
        let ghost s = self@;
        retain_with(self, Full(f));
        proof {
            let keep = choose|keep: Seq<bool>|
                verdicts_with(Full(f), s, keep) && self@ == kept(s, keep);
            assert forall|i: int| 0 <= i < s.len() implies #[trigger] offered(
                f,
                kept(s.take(i), keep),
                s[i],
                s.skip(i + 1),
                keep[i],
            ) by {
                assert(offered_with(Full(f), kept(s.take(i), keep), s[i], s.skip(i + 1), keep[i]));
            }
            assert(verdicts(f, s, keep));
            assert(s == old(self).text());
            assert(self.text() == self@);
        }
    }

    fn retain_after<F: FnMut(char, &str) -> bool>(&mut self, f: F) {
        let ghost s = self@;
        retain_with(self, After(f));
        proof {
            let keep = choose|keep: Seq<bool>|
                verdicts_with(After(f), s, keep) && self@ == kept(s, keep);
            assert forall|i: int| 0 <= i < s.len() implies #[trigger] offered_after(
                f,
                s[i],
                s.skip(i + 1),
                keep[i],
            ) by {
                assert(offered_with(After(f), kept(s.take(i), keep), s[i], s.skip(i + 1), keep[i]));
            }
            assert(verdicts_after(f, s, keep));
            assert(s == old(self).text());
            assert(self.text() == self@);
        }
    }

    fn retain_default<F: FnMut(char) -> bool>(&mut self, f: F) {
        let ghost s = self@;
        retain_with(self, Single(f));
        proof {
            let keep = choose|keep: Seq<bool>|
                verdicts_with(Single(f), s, keep) && self@ == kept(s, keep);
            assert forall|i: int| 0 <= i < s.len() implies #[trigger] call_ensures(
                f,
                (s[i],),
                keep[i],
            ) by {
                assert(offered_with(Single(f), kept(s.take(i), keep), s[i], s.skip(i + 1), keep[i]));
            }
            assert(verdicts_default(f, s, keep));
            assert(s == old(self).text());
            assert(self.text() == self@);
        }
    }
}

} // verus!
