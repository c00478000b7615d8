//! What joining, trimming and selecting mean, stated of every call.
use vstd::prelude::*;

use crate::text::{
    contents, is_white_space, join, joined, same_text, trim, trim_end, trim_start, trimmed,
    white_space,
};

verus! {

/// Whether `at` lists places below `n`, each once and in order.
pub open spec fn in_order(at: Seq<int>, n: int) -> bool {
    &&& forall|i: int| 0 <= i < at.len() ==> 0 <= #[trigger] at[i] < n
    &&& forall|i: int, j: int| 0 <= i < j < at.len() ==> #[trigger] at[i] < #[trigger] at[j]
}

/// Whether `at` lists, in order, just those places below `n` that `keep` holds of.
pub open spec fn selects(at: Seq<int>, n: int, keep: spec_fn(int) -> bool) -> bool {
    &&& in_order(at, n)
    &&& forall|i: int| 0 <= i < at.len() ==> keep(#[trigger] at[i])
    &&& forall|k: int| 0 <= k < n && #[trigger] keep(k) ==> at.contains(k)
}

/// The places of what a filter keeps.
pub proof fn lemma_filter_places<A>(s: Seq<A>, keep: spec_fn(A) -> bool) -> (at: Seq<int>)
    ensures
        at.len() == s.filter(keep).len(),
        in_order(at, s.len() as int),
        forall|i: int| 0 <= i < at.len() ==> s.filter(keep)[i] == s[#[trigger] at[i]],
        forall|i: int| 0 <= i < at.len() ==> keep(s[#[trigger] at[i]]),
        forall|k: int| 0 <= k < s.len() && keep(#[trigger] s[k]) ==> at.contains(k),
    decreases s.len(),
{
    reveal(Seq::filter);
    if s.len() == 0 {
        Seq::empty()
    } else {
        let shorter = s.drop_last();
        let before = lemma_filter_places(shorter, keep);
        let last = s.len() - 1;
        let at = if keep(s.last()) {
            before.push(last)
        } else {
            before
        };
        assert forall|i: int| 0 <= i < at.len() implies s.filter(keep)[i] == s[#[trigger] at[i]] by {
            if i < before.len() {
                assert(at[i] == before[i]);
                assert(shorter[before[i]] == s[before[i]]);
            }
        }
        assert forall|i: int| 0 <= i < at.len() implies keep(s[#[trigger] at[i]]) by {
            if i < before.len() {
                assert(at[i] == before[i]);
                assert(shorter[before[i]] == s[before[i]]);
            }
        }
        assert forall|k: int| 0 <= k < s.len() && keep(#[trigger] s[k]) implies at.contains(k) by {
            if k < last {
                assert(shorter[k] == s[k]);
                assert(before.contains(k));
                let i = choose|i: int| 0 <= i < before.len() && before[i] == k;
                assert(at[i] == k);
            } else {
                assert(at[at.len() - 1] == k);
            }
        }
        at
    }
}

/// `parts` one after the other, with `sep` in every gap.
pub open spec fn interleaved(parts: Seq<Seq<char>>, sep: Seq<char>) -> Seq<char>
    decreases parts.len(),
{
    if parts.len() == 0 {
        Seq::empty()
    } else if parts.len() == 1 {
        parts[0]
    } else {
        parts[0] + sep + interleaved(parts.subrange(1, parts.len() as int), sep)
    }
}

/// One part more adds a separator, where there is a gap, and the part.
pub proof fn law_interleaved_grows_at_the_end(parts: Seq<Seq<char>>, sep: Seq<char>, more: Seq<char>)
    ensures
        interleaved(parts.push(more), sep) == (if parts.len() == 0 {
            more
        } else {
            interleaved(parts, sep) + sep + more
        }),
    decreases parts.len(),
{
    let all = parts.push(more);
    let rest = all.subrange(1, all.len() as int);
    if parts.len() == 1 {
        assert(rest =~= seq![more]);
        assert(interleaved(rest, sep) == more);
    } else if parts.len() > 1 {
        let tail = parts.subrange(1, parts.len() as int);
        assert(rest =~= tail.push(more));
        law_interleaved_grows_at_the_end(tail, sep, more);
        assert(interleaved(all, sep) =~= interleaved(parts, sep) + sep + more);
    }
}

/// To grow from the end or from the front comes to the same.
pub proof fn lemma_joined_is_interleaved(parts: Seq<Seq<char>>, sep: Seq<char>, n: int)
    requires
        0 <= n <= parts.len(),
    ensures
        joined(parts, sep, n) == interleaved(parts.subrange(0, n), sep),
    decreases n,
{
    if n == 1 {
        assert(parts.subrange(0, 1)[0] == parts[0]);
    } else if n > 1 {
        lemma_joined_is_interleaved(parts, sep, n - 1);
        law_interleaved_grows_at_the_end(parts.subrange(0, n - 1), sep, parts[n - 1]);
        assert(parts.subrange(0, n - 1).push(parts[n - 1]) =~= parts.subrange(0, n));
    }
}

/// Joining puts all parts one after the other, in their order, with the separator in every gap
/// and nowhere else.
pub proof fn law_join(parts: Vec<String>, sep: &str, r: String)
    requires
        call_ensures(join, (&parts, sep), r),
    ensures
        r@ == interleaved(Seq::new(parts@.len(), |i: int| parts@[i]@), sep@),
{
    let all = contents(parts@);
    assert(all =~= Seq::new(parts@.len(), |i: int| parts@[i]@));
    lemma_joined_is_interleaved(all, sep@, all.len() as int);
    assert(all.subrange(0, all.len() as int) =~= all);
}

/// Two texts are the same where they have the same characters in the same places.
pub proof fn law_same_text(a: &str, b: &str, r: bool)
    requires
        call_ensures(same_text, (a, b), r),
    ensures
        r == (a@.len() == b@.len() && forall|i: int| 0 <= i < a@.len() ==> #[trigger] a@[i] == b@[i]),
{
    if a@.len() == b@.len() && forall|i: int| 0 <= i < a@.len() ==> #[trigger] a@[i] == b@[i] {
        assert(a@ =~= b@);
    }
}

/// White space is made of these characters and no others.
pub proof fn law_white_space(c: char, r: bool)
    requires
        call_ensures(is_white_space, (c,), r),
    ensures
        r == white_space(c),
        r <==> c == '\t' || c == '\n' || c == '\u{b}' || c == '\u{c}' || c == '\r' || c == ' ' || c
            == '\u{85}' || c == '\u{a0}' || c == '\u{1680}' || ('\u{2000}' <= c && c <= '\u{200a}')
            || c == '\u{2028}' || c == '\u{2029}' || c == '\u{202f}' || c == '\u{205f}' || c
            == '\u{3000}',
{
}

/// Whether `t` is what is left of `s` without the white space at its two ends: what stands before
/// and behind it in `s` is white space, and it neither begins nor ends with any.
pub open spec fn core_of(s: Seq<char>, t: Seq<char>, from: int) -> bool {
    &&& 0 <= from
    &&& from + t.len() <= s.len()
    &&& t == s.subrange(from, from + t.len())
    &&& forall|i: int| 0 <= i < from ==> white_space(#[trigger] s[i])
    &&& forall|i: int| from + t.len() <= i < s.len() ==> white_space(#[trigger] s[i])
    &&& t.len() > 0 ==> !white_space(t[0]) && !white_space(t[t.len() - 1])
}

proof fn lemma_start_of(s: Seq<char>) -> (from: int)
    ensures
        0 <= from <= s.len(),
        trim_start(s) == s.subrange(from, s.len() as int),
        forall|i: int| 0 <= i < from ==> white_space(#[trigger] s[i]),
        from < s.len() ==> !white_space(s[from]),
    decreases s.len(),
{
    if s.len() > 0 && white_space(s[0]) {
        let rest = s.subrange(1, s.len() as int);
        let from = lemma_start_of(rest);
        assert(rest.subrange(from, rest.len() as int) =~= s.subrange(from + 1, s.len() as int));
        assert forall|i: int| 0 <= i < from + 1 implies white_space(#[trigger] s[i]) by {
            if i > 0 {
                assert(rest[i - 1] == s[i]);
            }
        }
        from + 1
    } else {
        assert(s.subrange(0, s.len() as int) =~= s);
        0
    }
}

proof fn lemma_end_of(s: Seq<char>)
    ensures
        trim_end(s).len() <= s.len(),
        trim_end(s) == s.subrange(0, trim_end(s).len() as int),
        forall|i: int| trim_end(s).len() <= i < s.len() ==> white_space(#[trigger] s[i]),
        trim_end(s).len() > 0 ==> !white_space(s[trim_end(s).len() - 1]),
    decreases s.len(),
{
    if s.len() > 0 && white_space(s[s.len() - 1]) {
        let rest = s.subrange(0, s.len() - 1);
        lemma_end_of(rest);
        let n = trim_end(s).len() as int;
        assert(rest.subrange(0, n) =~= s.subrange(0, n));
        assert forall|i: int| n <= i < s.len() implies white_space(#[trigger] s[i]) by {
            if i < s.len() - 1 {
                assert(rest[i] == s[i]);
            }
        }
    } else {
        assert(s.subrange(0, s.len() as int) =~= s);
    }
}

/// A trimmed text is the core of what it was trimmed from.
pub proof fn lemma_trimmed_is_core(s: Seq<char>) -> (from: int)
    ensures
        core_of(s, trimmed(s), from),
        trimmed(s).len() == 0 <==> forall|i: int| 0 <= i < s.len() ==> white_space(#[trigger] s[i]),
{
    let from = lemma_start_of(s);
    let rest = trim_start(s);
    lemma_end_of(rest);
    let t = trimmed(s);
    assert(t =~= s.subrange(from, from + t.len()));
    assert forall|i: int| from + t.len() <= i < s.len() implies white_space(#[trigger] s[i]) by {
        assert(rest[i - from] == s[i]);
    }
    if t.len() > 0 {
        assert(t[0] == s[from]);
        assert(t[t.len() - 1] == rest[t.len() - 1]);
        assert(s[from] == t[0]);
    }
    from
}

/// Trimming takes away all white space at the two ends and nothing else.
pub proof fn law_trim(s: &str, r: String) -> (from: int)
    requires
        call_ensures(trim, (s,), r),
    ensures
        core_of(s@, r@, from),
{
    lemma_trimmed_is_core(s@)
}

} // verus!
