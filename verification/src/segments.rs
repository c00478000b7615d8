//! What one recogniser pass gives back, and where the audio may be cut after it.
use vstd::prelude::*;

use crate::hypothesis_buffer::{words_view, Word, WordView};
use crate::text::{trim, trimmed};
use crate::time::{representable, Seconds};

verus! {

/// Shortest duration of a word, in ticks (0.02 s).
pub const MIN_WORD_TICKS: i128 = 320;

/// No time that a recogniser pass gives is further than this from the start of its audio, in
/// ticks.
pub const PASS_TIME_LIMIT: i128 = 0x1_0000_0000_0000_0000_0000;

/// Whether `t` can be a time within one pass.
pub open spec fn within_pass(t: int) -> bool {
    -PASS_TIME_LIMIT <= t <= PASS_TIME_LIMIT
}

/// One segment of a recogniser pass: a single word with its times in centiseconds, relative to
/// the start of the audio that was recognised. The text is missing where it could not be read.
#[derive(Debug, PartialEq)]
pub struct Segment {
    pub start: i64,
    pub end: i64,
    pub text: Option<String>,
}

/// What a [`Segment`] says, with its times in ticks.
pub struct SegmentView {
    pub start: int,
    pub end: int,
    pub text: Option<Seq<char>>,
}

impl View for Segment {
    type V = SegmentView;

    open spec fn view(&self) -> SegmentView {
        SegmentView {
            start: self.start * 160,
            end: self.end * 160,
            text: match self.text {
                Some(text) => Some(text@),
                None => None,
            },
        }
    }
}

/// What a list of segments says; an entry is missing where the segment could not be had.
pub open spec fn segments_view(segments: Seq<Option<Segment>>) -> Seq<Option<SegmentView>> {
    Seq::new(
        segments.len(),
        |i: int|
            match segments[i] {
                Some(segment) => Some(segment@),
                None => None,
            },
    )
}

/// The word of a segment: none where there is no text but white space. A word that would last
/// less than 0.02 s, or end before it starts, is made to last 0.02 s.
pub open spec fn word_of(segment: Option<SegmentView>) -> Option<WordView> {
    match segment {
        Some(SegmentView { start, end, text: Some(text) }) => if trimmed(text).len() == 0 {
            None
        } else {
            Some(
                WordView {
                    start,
                    end: if end < start + MIN_WORD_TICKS {
                        start + MIN_WORD_TICKS
                    } else {
                        end
                    },
                    text: trimmed(text),
                },
            )
        },
        _ => None,
    }
}

/// The words of the first `n` segments.
pub open spec fn words_of_first(segments: Seq<Option<SegmentView>>, n: int) -> Seq<WordView>
    decreases n,
{
    if n <= 0 {
        Seq::empty()
    } else {
        match word_of(segments[n - 1]) {
            Some(word) => words_of_first(segments, n - 1).push(word),
            None => words_of_first(segments, n - 1),
        }
    }
}

/// The words of a pass.
pub open spec fn words_of(segments: Seq<Option<SegmentView>>) -> Seq<WordView> {
    words_of_first(segments, segments.len() as int)
}

/// Reads one word per segment. The times are relative to the audio that was recognised.
pub fn extract_words(segments: &Vec<Option<Segment>>) -> (words: Vec<Word>)
    ensures
        words_view(words@) == words_of(segments_view(segments@)),
        forall|i: int|
            0 <= i < words@.len() ==> within_pass((#[trigger] words@[i]).start@) && within_pass(
                words@[i].end@,
            ),
{
    let ghost all = segments_view(segments@);
    let mut words: Vec<Word> = Vec::new();
    let mut i: usize = 0;
    assert(words_view(words@) == words_of_first(all, 0));
    while i < segments.len()
        invariant
            i <= segments@.len(),
            all == segments_view(segments@),
            words_view(words@) == words_of_first(all, i as int),
            forall|j: int|
                0 <= j < words@.len() ==> within_pass((#[trigger] words@[j]).start@)
                    && within_pass(words@[j].end@),
        decreases segments@.len() - i,
    {
        let ghost before = words@;
        if let Some(segment) = &segments[i] {
            if let Some(raw) = &segment.text {
                let text: String = trim(raw.as_str());
                if text.as_str().unicode_len() > 0 {
                    let start: Seconds = Seconds::from_centis(segment.start);
                    let mut end: Seconds = Seconds::from_centis(segment.end);
                    if end.ticks < start.ticks + MIN_WORD_TICKS {
                        end = Seconds { ticks: start.ticks + MIN_WORD_TICKS };
                    }
                    let word: Word = Word { start, end, text };
                    assert(word_of(all[i as int]) == Some(word@));
                    words.push(word);
                    assert(words_view(words@) == words_view(before).push(word@));
                }
            }
        }
        i = i + 1;
    }
    words
}

/// Ticks of each time.
pub open spec fn ticks_of(times: Seq<Seconds>) -> Seq<int> {
    Seq::new(times.len(), |i: int| times[i]@)
}

/// The greatest index up to `i` whose end, moved by `offset`, is not after `limit`; zero where
/// there is none.
pub open spec fn last_end_within(ends: Seq<int>, offset: int, limit: int, i: int) -> int
    decreases i,
{
    if i > 0 && ends[i] + offset > limit {
        last_end_within(ends, offset, limit, i - 1)
    } else {
        i
    }
}

/// The end of the last segment but the final one that lies within the committed text, if it lies
/// after the start of the audio.
pub open spec fn committed_segment_cut(ends: Seq<int>, offset: int, last_committed_end: int) -> Option<
    int,
> {
    if ends.len() < 2 {
        None
    } else {
        let cut = ends[last_end_within(ends, offset, last_committed_end, ends.len() - 2)] + offset;
        if offset < cut <= last_committed_end {
            Some(cut)
        } else {
            None
        }
    }
}

/// Finds the end of a completed segment at which the audio can be cut without going past the
/// last committed word. `segment_ends` are relative to `buffer_time_offset`.
pub fn segment_cut_within_committed(
    segment_ends: &[Seconds],
    buffer_time_offset: Seconds,
    last_committed_end: Seconds,
) -> (r: Option<Seconds>)
    requires
        forall|i: int|
            0 <= i < segment_ends@.len() ==> representable(
                (#[trigger] segment_ends@[i])@ + buffer_time_offset@,
            ),
    ensures
        match committed_segment_cut(
            ticks_of(segment_ends@),
            buffer_time_offset@,
            last_committed_end@,
        ) {
            Some(cut) => r matches Some(t) && t@ == cut,
            None => r is None,
        },
{
    if segment_ends.len() < 2 {
        return None;
    }
    let ghost ends = ticks_of(segment_ends@);
    let mut idx: usize = segment_ends.len() - 2;
    while idx > 0 && segment_ends[idx].ticks + buffer_time_offset.ticks > last_committed_end.ticks
        invariant
            idx <= segment_ends@.len() - 2,
            ends == ticks_of(segment_ends@),
            forall|i: int|
                0 <= i < segment_ends@.len() ==> representable(
                    (#[trigger] segment_ends@[i])@ + buffer_time_offset@,
                ),
            last_end_within(ends, buffer_time_offset@, last_committed_end@, ends.len() - 2)
                == last_end_within(ends, buffer_time_offset@, last_committed_end@, idx as int),
        decreases idx,
    {
        idx = idx - 1;
    }
    let cut: i128 = segment_ends[idx].ticks + buffer_time_offset.ticks;
    if cut > buffer_time_offset.ticks && cut <= last_committed_end.ticks {
        Some(Seconds { ticks: cut })
    } else {
        None
    }
}

} // verus!
