//! What is read from a recogniser pass, stated of what goes in and what comes out.
use vstd::prelude::*;

use crate::hypothesis_buffer::{words_view, Word, WordView};
use crate::laws::law_segment_cut_within_committed;
use crate::laws::text::{core_of, in_order, lemma_trimmed_is_core, selects};
use crate::segments::{
    committed_segment_cut, extract_words, segment_cut_within_committed, segments_view, ticks_of, word_of, words_of,
    words_of_first, Segment, SegmentView,
};
use crate::text::{trimmed, white_space};
use crate::time::Seconds;

verus! {

/// Whether a segment can be had and has a text that is more than white space.
pub open spec fn spoken(segment: Option<SegmentView>) -> bool {
    &&& segment matches Some(s)
    &&& s.text matches Some(text)
    &&& exists|c: int| 0 <= c < text.len() && !white_space(#[trigger] text[c])
}

/// Whether `word` is what a segment says: its text without the white space around it, from its
/// start to its end, or for 0.02 s where that would be longer. That is a fiftieth of the 16000
/// ticks of a second.
pub open spec fn says(segment: Option<SegmentView>, word: WordView) -> bool {
    &&& segment matches Some(s)
    &&& s.text matches Some(text)
    &&& exists|from: int| #[trigger] core_of(text, word.text, from)
    &&& word.start == s.start
    &&& word.end >= s.end
    &&& 50 * (word.end - word.start) >= 16_000
    &&& word.end == s.end || 50 * (word.end - word.start) == 16_000
}

/// Whether `words` are what the segments at the places `at` say, and these are all that say
/// anything.
pub open spec fn reads(
    segments: Seq<Option<SegmentView>>,
    at: Seq<int>,
    words: Seq<WordView>,
) -> bool {
    &&& selects(at, segments.len() as int, |k: int| spoken(segments[k]))
    &&& words.len() == at.len()
    &&& forall|i: int| 0 <= i < words.len() ==> says(segments[at[i]], #[trigger] words[i])
}

proof fn lemma_word_of(segment: Option<SegmentView>)
    ensures
        spoken(segment) <==> word_of(segment) is Some,
        word_of(segment) matches Some(word) ==> says(segment, word),
{
    if let Some(s) = segment {
        if let Some(text) = s.text {
            let from = lemma_trimmed_is_core(text);
            if trimmed(text).len() > 0 {
                let c = choose|c: int| 0 <= c < text.len() && !white_space(#[trigger] text[c]);
                assert(!white_space(text[c]));
                assert(core_of(text, word_of(segment)->0.text, from));
            }
        }
    }
}

proof fn lemma_words_of_first_places(segments: Seq<Option<SegmentView>>, n: int) -> (at: Seq<int>)
    requires
        0 <= n <= segments.len(),
    ensures
        selects(at, n, |k: int| spoken(segments[k])),
        at.len() == words_of_first(segments, n).len(),
        forall|i: int|
            0 <= i < at.len() ==> says(segments[at[i]], #[trigger] words_of_first(segments, n)[i]),
    decreases n,
{
    let keep = |k: int| spoken(segments[k]);
    if n == 0 {
        Seq::empty()
    } else {
        let before = lemma_words_of_first_places(segments, n - 1);
        let last = segments[n - 1];
        lemma_word_of(last);
        let words = words_of_first(segments, n);
        let at = if spoken(last) {
            before.push(n - 1)
        } else {
            before
        };
        assert forall|i: int| 0 <= i < at.len() implies keep(#[trigger] at[i]) by {
            if i < before.len() {
                assert(at[i] == before[i]);
                assert(keep(before[i]));
            }
        }
        assert forall|k: int| 0 <= k < n && #[trigger] keep(k) implies at.contains(k) by {
            if k < n - 1 {
                assert(before.contains(k));
                let i = choose|i: int| 0 <= i < before.len() && before[i] == k;
                assert(at[i] == k);
            } else {
                assert(at[at.len() - 1] == k);
            }
        }
        assert(in_order(at, n));
        assert forall|i: int| 0 <= i < at.len() implies says(segments[at[i]], #[trigger] words[i]) by {
            if i < before.len() {
                assert(at[i] == before[i]);
                assert(words[i] == words_of_first(segments, n - 1)[i]);
            }
        }
        at
    }
}

/// A pass is read segment by segment: there is one word, in order, for every segment that says
/// anything, and none for the others. The places of those segments are given back.
pub proof fn law_pass_is_read(segments: Seq<Option<SegmentView>>) -> (at: Seq<int>)
    ensures
        reads(segments, at, words_of(segments)),
{
    lemma_words_of_first_places(segments, segments.len() as int)
}

/// What one segment says: nothing where it cannot be had, where its text cannot be read, or where
/// its text is all white space; otherwise a word with that text, without the white space around it,
/// and with its times. A word that would last less than 320 ticks, 0.02 s, lasts as long as that.
pub proof fn law_word_of_a_segment(segment: Option<SegmentView>) -> (from: int)
    ensures
        segment is None ==> word_of(segment) is None,
        segment matches Some(s) ==> {
            &&& s.text is None ==> word_of(segment) is None
            &&& s.text matches Some(text) ==> {
                &&& word_of(segment) is None <==> forall|c: int|
                    0 <= c < text.len() ==> white_space(#[trigger] text[c])
                &&& word_of(segment) matches Some(word) ==> {
                    &&& word.start == s.start
                    &&& s.end - s.start >= 320 ==> word.end == s.end
                    &&& s.end - s.start < 320 ==> word.end == s.start + 320
                    &&& word.text.len() > 0
                    &&& 0 <= from
                    &&& from + word.text.len() <= text.len()
                    &&& word.text == text.subrange(from, from + word.text.len())
                    &&& forall|c: int| 0 <= c < from ==> white_space(#[trigger] text[c])
                    &&& forall|c: int|
                        from + word.text.len() <= c < text.len() ==> white_space(#[trigger] text[c])
                    &&& !white_space(word.text[0])
                    &&& !white_space(word.text[word.text.len() - 1])
                }
            }
        },
{
    if let Some(s) = segment {
        if let Some(text) = s.text {
            lemma_trimmed_is_core(text)
        } else {
            0
        }
    } else {
        0
    }
}

/// One segment more adds its word behind the others, if it says anything.
pub proof fn law_words_grow_segment_by_segment(
    segments: Seq<Option<SegmentView>>,
    more: Option<SegmentView>,
)
    ensures
        words_of(Seq::empty()).len() == 0,
        word_of(more) matches Some(word) ==> words_of(segments.push(more)) == words_of(
            segments,
        ).push(word),
        word_of(more) is None ==> words_of(segments.push(more)) == words_of(segments),
{
    let all = segments.push(more);
    lemma_same_first_words(all, segments, segments.len() as int);
    assert(all[all.len() - 1] == more);
}

proof fn lemma_same_first_words(
    a: Seq<Option<SegmentView>>,
    b: Seq<Option<SegmentView>>,
    n: int,
)
    requires
        0 <= n <= a.len(),
        n <= b.len(),
        forall|i: int| 0 <= i < n ==> #[trigger] a[i] == b[i],
    ensures
        words_of_first(a, n) == words_of_first(b, n),
    decreases n,
{
    if n > 0 {
        lemma_same_first_words(a, b, n - 1);
        assert(a[n - 1] == b[n - 1]);
    }
}

/// The times of a segment are hundredths of a second, each of which is 160 of the 16000 ticks of a
/// second; a segment that cannot be had stays missing.
pub proof fn law_segments_view(segments: Seq<Option<Segment>>, i: int)
    requires
        0 <= i < segments.len(),
    ensures
        segments_view(segments).len() == segments.len(),
        segments_view(segments)[i] is Some <==> segments[i] is Some,
        segments[i] matches Some(s) ==> {
            let v = segments_view(segments)[i]->0;
            &&& 100 * v.start == 16_000 * s.start
            &&& 100 * v.end == 16_000 * s.end
            &&& v.text is Some <==> s.text is Some
            &&& s.text matches Some(text) ==> v.text == Some(text@)
        },
{
}

/// The words of a pass are those that its segments say.
pub proof fn law_extract_words(segments: Vec<Option<Segment>>, words: Vec<Word>) -> (at: Seq<int>)
    requires
        call_ensures(extract_words, (&segments,), words),
    ensures
        reads(segments_view(segments@), at, words_view(words@)),
{
    law_pass_is_read(segments_view(segments@))
}

/// A hundredth of a second is a hundredth of the 16000 ticks of a second.
pub proof fn law_from_centis(centis: i64, t: Seconds)
    requires
        call_ensures(Seconds::from_centis, (centis,), t),
    ensures
        100 * t.ticks == 16_000 * centis,
{
}

/// Ticks are taken as they are.
pub proof fn law_from_ticks(ticks: i128, t: Seconds)
    requires
        call_ensures(Seconds::from_ticks, (ticks,), t),
    ensures
        t.ticks == ticks,
{
}

/// Whether the audio, which starts at `offset`, can be cut at the end of the `k`-th segment: it is
/// not the final one, it ends after the start of the audio and within the committed text, and no
/// later segment but the final one ends within it.
pub open spec fn cuts_at(ends: Seq<int>, offset: int, last_committed_end: int, k: int) -> bool {
    &&& 0 <= k < ends.len() - 1
    &&& 0 < ends[k]
    &&& offset + ends[k] <= last_committed_end
    &&& forall|j: int| k < j < ends.len() - 1 ==> offset + #[trigger] ends[j] > last_committed_end
}

/// The audio is cut at the end of a segment just where there is one that it can be cut at, and at
/// that end.
pub proof fn law_segment_cut(
    segment_ends: &[Seconds],
    offset: Seconds,
    last_committed_end: Seconds,
    r: Option<Seconds>,
    k: int,
)
    requires
        call_ensures(segment_cut_within_committed, (segment_ends, offset, last_committed_end), r),
    ensures
        ({
            let ends = Seq::new(segment_ends@.len(), |i: int| segment_ends@[i].ticks as int);
            &&& r is Some <==> exists|i: int|
                #[trigger] cuts_at(ends, offset.ticks as int, last_committed_end.ticks as int, i)
            &&& cuts_at(ends, offset.ticks as int, last_committed_end.ticks as int, k) ==> (r
                matches Some(cut) && cut.ticks == offset.ticks + ends[k])
        }),
{
    let ends = Seq::new(segment_ends@.len(), |i: int| segment_ends@[i].ticks as int);
    assert(ends =~= ticks_of(segment_ends@));
    let o = offset.ticks as int;
    let last = last_committed_end.ticks as int;
    lemma_cut_is_where_it_can_be(ends, o, last, k);
    if exists|i: int| #[trigger] cuts_at(ends, o, last, i) {
        let i = choose|i: int| #[trigger] cuts_at(ends, o, last, i);
        lemma_cut_is_where_it_can_be(ends, o, last, i);
    }
}

/// [`cuts_at`] tells where the cut is, if there is one.
pub proof fn lemma_cut_is_where_it_can_be(ends: Seq<int>, offset: int, last: int, k: int)
    ensures
        committed_segment_cut(ends, offset, last) is Some ==> exists|i: int|
            #[trigger] cuts_at(ends, offset, last, i) && committed_segment_cut(
                ends,
                offset,
                last,
            ) == Some(offset + ends[i]),
        cuts_at(ends, offset, last, k) ==> committed_segment_cut(
            ends,
            offset,
            last,
        ) == Some(offset + ends[k]),
{
    law_segment_cut_within_committed(ends, offset, last);
    let found = committed_segment_cut(ends, offset, last);
    if let Some(cut) = found {
        let i = choose|i: int|
            0 <= i < ends.len() - 1 && cut == #[trigger] ends[i] + offset && forall|j: int|
                i < j < ends.len() - 1 ==> #[trigger] ends[j] + offset > last;
        assert(cuts_at(ends, offset, last, i));
        if cuts_at(ends, offset, last, k) {
            if i < k {
                assert(ends[k] + offset > last);
            }
            if k < i {
                assert(offset + ends[i] > last);
            }
        }
    } else if cuts_at(ends, offset, last, k) {
        if exists|i: int|
            0 <= i < ends.len() - 1 && #[trigger] ends[i] <= 0 && forall|j: int|
                i < j < ends.len() - 1 ==> #[trigger] ends[j] + offset > last {
            let i = choose|i: int|
                0 <= i < ends.len() - 1 && #[trigger] ends[i] <= 0 && forall|j: int|
                    i < j < ends.len() - 1 ==> #[trigger] ends[j] + offset > last;
            if i < k {
                assert(ends[k] + offset > last);
            }
            if k < i {
                assert(offset + ends[i] > last);
            }
        } else {
            assert(ends[k] + offset > last);
        }
    }
}

} // verus!
