//! What the calls of a hypothesis buffer do, stated of what goes in and what comes out.
use vstd::prelude::*;

use crate::hypothesis_buffer::{
    agreed, clone_words, longest_repeat, ngram_limit, overlap, shifted, starts_after, texts, words_view,
    BufferView, HypothesisBuffer, Word, WordView,
};
use crate::laws::law_longest_agreement;
use crate::laws::text::{
    interleaved, lemma_filter_places, lemma_joined_is_interleaved, selects,
};
use crate::text::join_spec;
use crate::time::Seconds;

verus! {

/// Whether two words say the same, in times and in text.
pub open spec fn same_word(a: Word, b: Word) -> bool {
    &&& a.start.ticks == b.start.ticks
    &&& a.end.ticks == b.end.ticks
    &&& a.text@ == b.text@
}

/// Whether two lists hold the same words in the same order.
pub open spec fn same_words(a: Seq<Word>, b: Seq<Word>) -> bool {
    &&& a.len() == b.len()
    &&& forall|i: int| 0 <= i < a.len() ==> same_word(#[trigger] a[i], b[i])
}

/// Whether two optional texts are both missing or both the same.
pub open spec fn same_option(a: Option<String>, b: Option<String>) -> bool {
    match (a, b) {
        (Some(x), Some(y)) => x@ == y@,
        (None, None) => true,
        _ => false,
    }
}

/// What equal views say of the words behind them.
pub proof fn lemma_same_words(a: Seq<Word>, b: Seq<Word>)
    requires
        words_view(a) == words_view(b),
    ensures
        same_words(a, b),
{
    assert(words_view(a).len() == a.len());
    assert(words_view(b).len() == b.len());
    assert forall|i: int| 0 <= i < a.len() implies same_word(#[trigger] a[i], b[i]) by {
        assert(words_view(a)[i] == a[i]@);
        assert(words_view(b)[i] == b[i]@);
    }
}

/// Whether the first `k` words of `a` and `b`, and no more, read the same.
pub open spec fn agree_up_to(a: Seq<WordView>, b: Seq<WordView>, k: int) -> bool {
    &&& 0 <= k <= a.len()
    &&& k <= b.len()
    &&& forall|i: int| 0 <= i < k ==> (#[trigger] a[i]).text == b[i].text
    &&& k < a.len() && k < b.len() ==> a[k].text != b[k].text
}

/// There is only one length up to which two hypotheses agree.
pub proof fn law_agreement_is_unique(a: Seq<WordView>, b: Seq<WordView>, j: int, k: int)
    requires
        agree_up_to(a, b, j),
        agree_up_to(a, b, k),
    ensures
        j == k,
{
    if j < k {
        assert(a[j].text == b[j].text);
    }
    if k < j {
        assert(a[k].text == b[k].text);
    }
}

impl BufferView {
    /// The agreement is as long as it can be, whatever was committed before: it is the head of the
    /// staged hypothesis, reads like the head of the kept one, and the next two words, where both
    /// hypotheses have one, differ. Every prefix that both share lies within it.
    pub proof fn law_agreement_is_longest(self, m: int)
        ensures
            agree_up_to(self.new, self.buffer, self.agreement().len() as int),
            self.agreement().len() <= self.new.len(),
            self.agreement().len() <= self.buffer.len(),
            self.agreement().len() < self.new.len() && self.agreement().len() < self.buffer.len()
                ==> self.new[self.agreement().len() as int].text != self.buffer[
                self.agreement().len() as int
            ].text,
            self.agreement() == self.new.subrange(0, self.agreement().len() as int),
            0 <= m <= self.new.len() && m <= self.buffer.len() && (forall|i: int|
                0 <= i < m ==> (#[trigger] self.new[i]).text == self.buffer[i].text) ==> m
                <= self.agreement().len(),
    {
        law_longest_agreement(self.new, self.buffer);
        let k = self.agreement().len() as int;
        assert(k == agreed(self.new, self.buffer));
        if 0 <= m <= self.new.len() && m <= self.buffer.len() && k < m && (forall|i: int|
            0 <= i < m ==> (#[trigger] self.new[i]).text == self.buffer[i].text) {
            assert(self.new[k].text == self.buffer[k].text);
        }
    }

    /// A flush moves the agreed head of the staged hypothesis behind the committed words and keeps
    /// the rest of it. The last word committed is remembered; without one, what was remembered
    /// stays.
    pub proof fn law_flush_moves_the_agreement(self)
        ensures
            ({
                let k = self.agreement().len() as int;
                let after = self.flushed();
                &&& agree_up_to(self.new, self.buffer, k)
                &&& after.committed_in_buffer == self.committed_in_buffer + self.new.subrange(0, k)
                &&& after.buffer == self.new.subrange(k, self.new.len() as int)
                &&& after.new.len() == 0
                &&& k == 0 ==> after.last_committed_time == self.last_committed_time
                    && after.last_committed_word == self.last_committed_word
                &&& k > 0 ==> after.last_committed_time == self.new[k - 1].end
                    && after.last_committed_word == Some(self.new[k - 1].text)
            }),
    {
        self.law_agreement_is_longest(0);
    }
}

/// A flush commits the longest common prefix of the staged hypothesis and the kept one: as many
/// words as both agree on, and just those. They go behind the committed words, the rest of the
/// staged hypothesis is kept for the next comparison, and nothing is left staged.
pub proof fn law_flush(hb: &mut HypothesisBuffer, commit: Vec<Word>)
    requires
        call_ensures(HypothesisBuffer::flush, (hb,), commit),
    ensures
        ({
            let new = old(hb).new@;
            let kept = old(hb).buffer@;
            let k = commit@.len() as int;
            &&& k <= new.len()
            &&& k <= kept.len()
            &&& same_words(commit@, new.subrange(0, k))
            &&& forall|i: int| 0 <= i < k ==> (#[trigger] new[i]).text@ == kept[i].text@
            &&& k < new.len() && k < kept.len() ==> new[k].text@ != kept[k].text@
            &&& same_words(final(hb).buffer@, new.subrange(k, new.len() as int))
            &&& final(hb).new@.len() == 0
            &&& same_words(
                final(hb).committed_in_buffer@,
                old(hb).committed_in_buffer@ + new.subrange(0, k),
            )
            &&& k == 0 ==> final(hb).last_committed_time.ticks == old(hb).last_committed_time.ticks
                && same_option(final(hb).last_committed_word, old(hb).last_committed_word)
            &&& k > 0 ==> final(hb).last_committed_time.ticks == new[k - 1].end.ticks
            &&& k > 0 ==> (final(hb).last_committed_word matches Some(text) && text@
                == new[k - 1].text@)
        }),
{
    let before = old(hb)@;
    let after = final(hb)@;
    let new = old(hb).new@;
    let kept = old(hb).buffer@;
    before.law_flush_moves_the_agreement();
    before.law_agreement_is_longest(0);
    let k = commit@.len() as int;
    assert(words_view(commit@).len() == k);
    assert(before.new.len() == new.len());
    assert(before.buffer.len() == kept.len());
    assert forall|i: int| 0 <= i < k implies (#[trigger] new[i]).text@ == kept[i].text@ by {
        assert(before.new[i].text == before.buffer[i].text);
    }
    assert(words_view(commit@) =~= words_view(new.subrange(0, k)));
    lemma_same_words(commit@, new.subrange(0, k));
    assert(after.buffer =~= words_view(new.subrange(k, new.len() as int)));
    lemma_same_words(final(hb).buffer@, new.subrange(k, new.len() as int));
    assert(words_view(final(hb).new@).len() == 0);
    assert(after.committed_in_buffer =~= words_view(
        old(hb).committed_in_buffer@ + new.subrange(0, k),
    ));
    lemma_same_words(
        final(hb).committed_in_buffer@,
        old(hb).committed_in_buffer@ + new.subrange(0, k),
    );
}

/// Whether `staged` is what of the hypothesis `words`, moved by `offset`, is new to `before`.
///
/// `at` lists the places of the words that start later than 0.1 s before the last committed time,
/// that is 1600 of the 16000 ticks of a second. Of these the first `dropped` are left out. They
/// are at most five, and written with single spaces they read like as many of the last committed
/// words; they are left out only where the first of them starts within a second of the last
/// committed time; and no longer head that could be left out reads so.
pub open spec fn stages(
    before: BufferView,
    words: Seq<WordView>,
    offset: int,
    at: Seq<int>,
    dropped: int,
    staged: Seq<WordView>,
) -> bool {
    let time = before.last_committed_time;
    let committed = before.committed_in_buffer;
    &&& selects(at, words.len() as int, |k: int| 10 * (words[k].start + offset - time) > -16_000)
    &&& 0 <= dropped <= at.len()
    &&& staged.len() == at.len() - dropped
    &&& forall|i: int|
        0 <= i < staged.len() ==> {
            let w = words[at[dropped + i]];
            &&& (#[trigger] staged[i]).start == w.start + offset
            &&& staged[i].end == w.end + offset
            &&& staged[i].text == w.text
        }
    &&& dropped > 0 ==> near_end(before, words, offset, at) && dropped <= 5 && seam_repeats(
        committed,
        words,
        at,
        dropped,
    )
    &&& forall|m: int|
        dropped < m <= 5 && near_end(before, words, offset, at) ==> !(#[trigger] seam_repeats(
            committed,
            words,
            at,
            m,
        ))
}

/// Whether the first of the words at the places `at` starts, once moved by `offset`, less than a
/// second from the last committed time.
pub open spec fn near_end(
    before: BufferView,
    words: Seq<WordView>,
    offset: int,
    at: Seq<int>,
) -> bool {
    at.len() > 0 && -16_000 < words[at[0]].start + offset - before.last_committed_time < 16_000
}

/// Whether the last `m` committed words and the first `m` of the words at the places `at` read
/// the same, each run written with single spaces.
pub open spec fn seam_repeats(
    committed: Seq<WordView>,
    words: Seq<WordView>,
    at: Seq<int>,
    m: int,
) -> bool {
    &&& 0 < m <= committed.len()
    &&& m <= at.len()
    &&& interleaved(Seq::new(m as nat, |i: int| committed[committed.len() - m + i].text), seq![' '])
        == interleaved(Seq::new(m as nat, |i: int| words[at[i]].text), seq![' '])
}

proof fn lemma_longest_repeat_joined(committed: Seq<WordView>, fresh: Seq<WordView>, n: int)
    requires
        0 <= n <= committed.len(),
        n <= fresh.len(),
    ensures
        0 <= longest_repeat(committed, fresh, n) <= n,
        longest_repeat(committed, fresh, n) > 0 ==> reads_alike(
            committed,
            fresh,
            longest_repeat(committed, fresh, n),
        ),
        forall|m: int|
            longest_repeat(committed, fresh, n) < m <= n ==> !(#[trigger] reads_alike(
                committed,
                fresh,
                m,
            )),
    decreases n,
{
    if n > 0 {
        lemma_longest_repeat_joined(committed, fresh, n - 1);
        lemma_joined_texts(committed.subrange(committed.len() - n, committed.len() as int));
        lemma_joined_texts(fresh.subrange(0, n));
        let tail = committed.subrange(committed.len() - n, committed.len() as int);
        assert(Seq::new(n as nat, |i: int| tail[i].text) =~= Seq::new(
            n as nat,
            |i: int| committed[committed.len() - n + i].text,
        ));
        let head = fresh.subrange(0, n);
        assert(Seq::new(n as nat, |i: int| head[i].text) =~= Seq::new(
            n as nat,
            |i: int| fresh[i].text,
        ));
    }
}

/// Whether the last `m` of `committed` and the first `m` of `fresh` read the same, each run written
/// with single spaces.
spec fn reads_alike(committed: Seq<WordView>, fresh: Seq<WordView>, m: int) -> bool {
    interleaved(Seq::new(m as nat, |i: int| committed[committed.len() - m + i].text), seq![' '])
        == interleaved(Seq::new(m as nat, |i: int| fresh[i].text), seq![' '])
}

proof fn lemma_joined_texts(words: Seq<WordView>)
    ensures
        join_spec(texts(words), seq![' ']) == interleaved(
            Seq::new(words.len(), |i: int| words[i].text),
            seq![' '],
        ),
{
    let all = texts(words);
    assert(all =~= Seq::new(words.len(), |i: int| words[i].text));
    lemma_joined_is_interleaved(all, seq![' '], all.len() as int);
    assert(all.subrange(0, all.len() as int) =~= all);
}

impl BufferView {
    /// To stage a hypothesis is to move it by `offset`, to leave out the words of the past, and to
    /// leave out the head that repeats the last committed words, and nothing else. Nothing but the
    /// staged hypothesis changes. The places of the words that are not of the past, and the number
    /// of repeated ones, are given back.
    pub proof fn law_insert_stages_what_is_new(self, words: Seq<WordView>, offset: int) -> (r: (
        Seq<int>,
        int,
    ))
        ensures
            stages(self, words, offset, r.0, r.1, self.inserted(words, offset).new),
            self.inserted(words, offset) == (BufferView {
                new: self.inserted(words, offset).new,
                ..self
            }),
    {
        let moved = shifted(words, offset);
        let keep = starts_after(self.last_committed_time);
        let fresh = self.fresh(words, offset);
        let at = lemma_filter_places(moved, keep);
        let committed = self.committed_in_buffer;
        let limit = ngram_limit(committed, fresh);
        let dropped = overlap(committed, fresh, self.last_committed_time);
        let staged = self.inserted(words, offset).new;
        let late = |k: int| 10 * (words[k].start + offset - self.last_committed_time) > -16_000;
        assert forall|k: int| 0 <= k < words.len() implies #[trigger] late(k) == keep(moved[k]) by {}
        assert forall|i: int| 0 <= i < at.len() implies late(#[trigger] at[i]) by {
            assert(keep(moved[at[i]]));
        }
        assert forall|k: int| 0 <= k < words.len() && #[trigger] late(k) implies at.contains(k) by {
            assert(keep(moved[k]));
        }
        assert(selects(at, words.len() as int, late));
        lemma_longest_repeat_joined(committed, fresh, limit);
        assert forall|i: int| 0 <= i < fresh.len() implies (#[trigger] fresh[i]).start == words[at[i]].start
            + offset && fresh[i].end == words[at[i]].end + offset && fresh[i].text
            == words[at[i]].text by {
            assert(fresh[i] == moved[at[i]]);
        }
        assert forall|m: int| 0 < m <= committed.len() && m <= fresh.len() implies (
        #[trigger] seam_repeats(committed, words, at, m)) == reads_alike(committed, fresh, m) by {
            assert(Seq::new(m as nat, |i: int| words[at[i]].text) =~= Seq::new(
                m as nat,
                |i: int| fresh[i].text,
            ));
        }
        assert forall|i: int| 0 <= i < staged.len() implies ({
            let w = words[at[dropped + i]];
            &&& (#[trigger] staged[i]).start == w.start + offset
            &&& staged[i].end == w.end + offset
            &&& staged[i].text == w.text
        }) by {
            assert(staged[i] == fresh[dropped + i]);
        }
        assert forall|m: int|
            dropped < m <= 5 && near_end(self, words, offset, at) implies !(
        #[trigger] seam_repeats(committed, words, at, m)) by {
            if 0 < m <= committed.len() && m <= at.len() {
                assert(!reads_alike(committed, fresh, m));
            }
        }
        (at, dropped)
    }

    /// Where no run of one to five words at the head of what is new reads like the last committed
    /// words, nothing is left out but the past: every word that starts later than 0.1 s before the
    /// last committed time is staged, in its order.
    pub proof fn law_nothing_is_dropped_without_a_repetition(
        self,
        words: Seq<WordView>,
        offset: int,
        at: Seq<int>,
    )
        requires
            selects(
                at,
                words.len() as int,
                |k: int| 10 * (words[k].start + offset - self.last_committed_time) > -16_000,
            ),
            forall|m: int|
                1 <= m <= 5 ==> !(#[trigger] seam_repeats(self.committed_in_buffer, words, at, m)),
        ensures
            self.inserted(words, offset).new.len() == at.len(),
            forall|i: int|
                0 <= i < at.len() ==> ({
                    let w = words[at[i]];
                    &&& (#[trigger] self.inserted(words, offset).new[i]).start == w.start + offset
                    &&& self.inserted(words, offset).new[i].end == w.end + offset
                    &&& self.inserted(words, offset).new[i].text == w.text
                }),
    {
        let (found, dropped) = self.law_insert_stages_what_is_new(words, offset);
        lemma_selection_is_unique(
            at,
            found,
            words.len() as int,
            |k: int| 10 * (words[k].start + offset - self.last_committed_time) > -16_000,
        );
        if dropped > 0 {
            assert(seam_repeats(self.committed_in_buffer, words, at, dropped));
        }
    }
}

/// Two lists that select the same places are the same.
pub proof fn lemma_selection_is_unique(a: Seq<int>, b: Seq<int>, n: int, keep: spec_fn(int) -> bool)
    requires
        selects(a, n, keep),
        selects(b, n, keep),
    ensures
        a == b,
    decreases n,
{
    if n <= 0 {
        if a.len() > 0 {
            assert(0 <= a[0] < n);
        }
        if b.len() > 0 {
            assert(0 <= b[0] < n);
        }
        assert(a =~= b);
    } else {
        let last = n - 1;
        let c = lemma_without_last(a, n, keep);
        let d = lemma_without_last(b, n, keep);
        lemma_selection_is_unique(c, d, last, keep);
        assert(a =~= b);
    }
}

proof fn lemma_without_last(a: Seq<int>, n: int, keep: spec_fn(int) -> bool) -> (c: Seq<int>)
    requires
        n > 0,
        selects(a, n, keep),
    ensures
        selects(c, n - 1, keep),
        a == (if keep(n - 1) {
            c.push(n - 1)
        } else {
            c
        }),
{
    let last = n - 1;
    if keep(last) {
        assert(a.contains(last));
        let i = choose|i: int| 0 <= i < a.len() && a[i] == last;
        if i < a.len() - 1 {
            assert(a[i] < a[a.len() - 1]);
        }
        let c = a.drop_last();
        assert(a =~= c.push(last));
        assert forall|j: int| 0 <= j < c.len() implies 0 <= #[trigger] c[j] < last by {
            assert(a[j] < a[a.len() - 1]);
            assert(c[j] == a[j]);
        }
        assert forall|j: int| 0 <= j < c.len() implies keep(#[trigger] c[j]) by {
            assert(c[j] == a[j]);
        }
        assert forall|k: int| 0 <= k < last && #[trigger] keep(k) implies c.contains(k) by {
            assert(a.contains(k));
            let j = choose|j: int| 0 <= j < a.len() && a[j] == k;
            assert(c[j] == k);
        }
        c
    } else {
        assert forall|j: int| 0 <= j < a.len() implies 0 <= #[trigger] a[j] < last by {
            assert(keep(a[j]));
        }
        a
    }
}

/// To insert a hypothesis stages what of it is new, as [`stages`] says, and changes nothing else.
pub proof fn law_insert(hb: &mut HypothesisBuffer, words: Vec<Word>, offset: Seconds) -> (r: (
    Seq<int>,
    int,
))
    requires
        call_ensures(HypothesisBuffer::insert, (hb, words, offset), ()),
    ensures
        stages(
            old(hb)@,
            words_view(words@),
            offset.ticks as int,
            r.0,
            r.1,
            words_view(final(hb).new@),
        ),
        same_words(final(hb).committed_in_buffer@, old(hb).committed_in_buffer@),
        same_words(final(hb).buffer@, old(hb).buffer@),
        final(hb).last_committed_time.ticks == old(hb).last_committed_time.ticks,
        same_option(final(hb).last_committed_word, old(hb).last_committed_word),
{
    let r = old(hb)@.law_insert_stages_what_is_new(words_view(words@), offset@);
    lemma_same_words(final(hb).committed_in_buffer@, old(hb).committed_in_buffer@);
    lemma_same_words(final(hb).buffer@, old(hb).buffer@);
    r
}

impl BufferView {
    /// Word by word, a hypothesis is moved by `offset`, and a word of it is of the past where it
    /// then starts 0.1 s or more before the last committed time, that is 1600 ticks.
    pub proof fn law_fresh_grows_word_by_word(
        self,
        words: Seq<WordView>,
        word: WordView,
        offset: int,
    )
        ensures
            self.fresh(Seq::empty(), offset).len() == 0,
            word.start + offset > self.last_committed_time - 1_600 ==> self.fresh(
                words.push(word),
                offset,
            ) == self.fresh(words, offset).push(
                (WordView {
                    start: word.start + offset,
                    end: word.end + offset,
                    text: word.text,
                }),
            ),
            word.start + offset <= self.last_committed_time - 1_600 ==> self.fresh(
                words.push(word),
                offset,
            ) == self.fresh(words, offset),
    {
        reveal(Seq::filter);
        let all = shifted(words.push(word), offset);
        assert(all.drop_last() =~= shifted(words, offset));
        assert(shifted(Seq::<WordView>::empty(), offset) =~= Seq::<WordView>::empty());
    }

    /// What is left out at the head of a hypothesis repeats what was just committed: it is at most
    /// five words, near the last committed time, and written with single spaces these words and as
    /// many of the last committed ones are the same text. No longer head is. Where no such head
    /// repeats the committed text, nothing is left out.
    pub proof fn law_dropped_head_is_the_longest_repetition(
        self,
        words: Seq<WordView>,
        offset: int,
        m: int,
    )
        ensures
            ({
                let fresh = self.fresh(words, offset);
                let staged = self.inserted(words, offset).new;
                let committed = self.committed_in_buffer;
                let n = fresh.len() - staged.len();
                let near = fresh.len() > 0 && self.last_committed_time - 16_000 < fresh[0].start
                    < self.last_committed_time + 16_000;
                let tail = |k: int|
                    interleaved(
                        Seq::new(k as nat, |i: int| committed[committed.len() - k + i].text),
                        seq![' '],
                    );
                let head = |k: int|
                    interleaved(Seq::new(k as nat, |i: int| fresh[i].text), seq![' ']);
                &&& 0 <= n <= 5
                &&& staged == fresh.subrange(n, fresh.len() as int)
                &&& n > 0 ==> near && n <= committed.len() && tail(n) == head(n)
                &&& near && n < m <= 5 && m <= committed.len() && m <= fresh.len() ==> tail(m)
                    != head(m)
                &&& (forall|k: int|
                    1 <= k <= 5 && k <= committed.len() && k <= fresh.len() ==> #[trigger] tail(k)
                        != head(k)) ==> staged == fresh
            }),
    {
        let fresh = self.fresh(words, offset);
        let committed = self.committed_in_buffer;
        let n = overlap(committed, fresh, self.last_committed_time);
        lemma_longest_repeat_joined(committed, fresh, ngram_limit(committed, fresh));
        let staged = self.inserted(words, offset).new;
        assert(n == fresh.len() - staged.len());
        let near = fresh.len() > 0 && self.last_committed_time - 16_000 < fresh[0].start
            < self.last_committed_time + 16_000;
        if near && n < m <= 5 && m <= committed.len() && m <= fresh.len() {
            assert(!reads_alike(committed, fresh, m));
        }
        let tail = |k: int|
            interleaved(
                Seq::new(k as nat, |i: int| committed[committed.len() - k + i].text),
                seq![' '],
            );
        let head = |k: int| interleaved(Seq::new(k as nat, |i: int| fresh[i].text), seq![' ']);
        if n > 0 {
            assert(reads_alike(committed, fresh, n));
            assert(tail(n) == head(n));
        } else {
            assert(fresh.subrange(0, fresh.len() as int) =~= fresh);
        }
    }
}

/// What the words of a list say is their times in ticks and their characters.
pub proof fn law_words_view(words: Seq<Word>)
    ensures
        words_view(words).len() == words.len(),
        forall|i: int|
            0 <= i < words.len() ==> {
                &&& (#[trigger] words_view(words)[i]).start == words[i].start.ticks
                &&& words_view(words)[i].end == words[i].end.ticks
                &&& words_view(words)[i].text == words[i].text@
            },
{
}

/// What a buffer holds is what its fields hold.
pub proof fn law_buffer_view(hb: HypothesisBuffer)
    ensures
        hb@.committed_in_buffer == words_view(hb.committed_in_buffer@),
        hb@.buffer == words_view(hb.buffer@),
        hb@.new == words_view(hb.new@),
        hb@.last_committed_time == hb.last_committed_time.ticks,
        hb.last_committed_word is None <==> hb@.last_committed_word is None,
        hb.last_committed_word matches Some(text) ==> hb@.last_committed_word == Some(text@),
{
}

/// Popping takes committed words away from the front as long as they ended by `time`, and changes
/// nothing else.
pub proof fn law_pop_committed_call(hb: &mut HypothesisBuffer, time: Seconds)
    requires
        call_ensures(HypothesisBuffer::pop_committed, (hb, time), ()),
    ensures
        ({
            let all = old(hb).committed_in_buffer@;
            let left = final(hb).committed_in_buffer@;
            let gone = all.len() - left.len();
            &&& 0 <= gone
            &&& same_words(left, all.subrange(gone, all.len() as int))
            &&& forall|i: int| 0 <= i < gone ==> (#[trigger] all[i]).end.ticks <= time.ticks
            &&& left.len() > 0 ==> left[0].end.ticks > time.ticks
            &&& same_words(final(hb).buffer@, old(hb).buffer@)
            &&& same_words(final(hb).new@, old(hb).new@)
            &&& final(hb).last_committed_time.ticks == old(hb).last_committed_time.ticks
            &&& same_option(final(hb).last_committed_word, old(hb).last_committed_word)
        }),
{
    let before = old(hb)@;
    let all = old(hb).committed_in_buffer@;
    let left = final(hb).committed_in_buffer@;
    before.law_pop_committed(time@);
    assert(words_view(all).len() == all.len());
    assert(words_view(left).len() == left.len());
    let gone = all.len() - left.len();
    assert(words_view(left) =~= words_view(all.subrange(gone, all.len() as int)));
    lemma_same_words(left, all.subrange(gone, all.len() as int));
    assert forall|i: int| 0 <= i < gone implies (#[trigger] all[i]).end.ticks <= time.ticks by {
        assert(before.committed_in_buffer[i].end <= time@);
    }
    if left.len() > 0 {
        assert(words_view(left)[0] == left[0]@);
    }
    lemma_same_words(final(hb).buffer@, old(hb).buffer@);
    lemma_same_words(final(hb).new@, old(hb).new@);
}

/// The kept hypothesis is given out as it is.
pub proof fn law_complete(hb: HypothesisBuffer, r: Vec<Word>)
    requires
        call_ensures(HypothesisBuffer::complete, (&hb,), r),
    ensures
        same_words(r@, hb.buffer@),
{
    lemma_same_words(r@, hb.buffer@);
}

/// The kept hypothesis is given out once: none is left, and nothing else changes.
pub proof fn law_drain_complete(hb: &mut HypothesisBuffer, r: Vec<Word>)
    requires
        call_ensures(HypothesisBuffer::drain_complete, (hb,), r),
    ensures
        same_words(r@, old(hb).buffer@),
        final(hb).buffer@.len() == 0,
        same_words(final(hb).committed_in_buffer@, old(hb).committed_in_buffer@),
        same_words(final(hb).new@, old(hb).new@),
        final(hb).last_committed_time.ticks == old(hb).last_committed_time.ticks,
        same_option(final(hb).last_committed_word, old(hb).last_committed_word),
{
    lemma_same_words(r@, old(hb).buffer@);
    assert(words_view(final(hb).buffer@).len() == 0);
    lemma_same_words(final(hb).committed_in_buffer@, old(hb).committed_in_buffer@);
    lemma_same_words(final(hb).new@, old(hb).new@);
}

/// Whether a buffer holds no word and its time line begins at `time`.
pub open spec fn begins_at(hb: HypothesisBuffer, time: Seconds) -> bool {
    &&& hb.committed_in_buffer@.len() == 0
    &&& hb.buffer@.len() == 0
    &&& hb.new@.len() == 0
    &&& hb.last_committed_time.ticks == time.ticks
    &&& hb.last_committed_word is None
}

/// A reset leaves nothing of what the buffer held.
pub proof fn law_reset_to_time(hb: &mut HypothesisBuffer, time: Seconds)
    requires
        call_ensures(HypothesisBuffer::reset_to_time, (hb, time), ()),
    ensures
        begins_at(*final(hb), time),
{
    assert(words_view(final(hb).committed_in_buffer@).len() == 0);
    assert(words_view(final(hb).buffer@).len() == 0);
    assert(words_view(final(hb).new@).len() == 0);
}

/// A new buffer holds nothing and begins at zero.
pub proof fn law_new_buffer(hb: HypothesisBuffer)
    requires
        call_ensures(HypothesisBuffer::new, (), hb),
    ensures
        begins_at(hb, Seconds { ticks: 0 }),
{
    assert(words_view(hb.committed_in_buffer@).len() == 0);
    assert(words_view(hb.buffer@).len() == 0);
    assert(words_view(hb.new@).len() == 0);
}

/// The last committed time is moved to the later of the two times, and nothing else changes.
pub proof fn law_advance_last_committed_time(hb: &mut HypothesisBuffer, time: Seconds)
    requires
        call_ensures(HypothesisBuffer::advance_last_committed_time, (hb, time), ()),
    ensures
        final(hb).last_committed_time.ticks >= old(hb).last_committed_time.ticks,
        final(hb).last_committed_time.ticks >= time.ticks,
        final(hb).last_committed_time.ticks == old(hb).last_committed_time.ticks || final(
            hb
        ).last_committed_time.ticks == time.ticks,
        same_words(final(hb).committed_in_buffer@, old(hb).committed_in_buffer@),
        same_words(final(hb).buffer@, old(hb).buffer@),
        same_words(final(hb).new@, old(hb).new@),
        same_option(final(hb).last_committed_word, old(hb).last_committed_word),
{
    lemma_same_words(final(hb).committed_in_buffer@, old(hb).committed_in_buffer@);
    lemma_same_words(final(hb).buffer@, old(hb).buffer@);
    lemma_same_words(final(hb).new@, old(hb).new@);
}

/// A list of words is copied as it is.
pub proof fn law_clone_words(words: Vec<Word>, r: Vec<Word>)
    requires
        call_ensures(clone_words, (&words,), r),
    ensures
        same_words(r@, words@),
{
}

/// The default buffer is a new one.
pub proof fn law_default_buffer(hb: HypothesisBuffer)
    requires
        call_ensures(<HypothesisBuffer as Default>::default, (), hb),
    ensures
        begins_at(hb, Seconds { ticks: 0 }),
{
    assert(words_view(hb.committed_in_buffer@).len() == 0);
    assert(words_view(hb.buffer@).len() == 0);
    assert(words_view(hb.new@).len() == 0);
}

/// A word is copied as it is.
pub proof fn law_clone_word(word: Word, r: Word)
    requires
        call_ensures(<Word as Clone>::clone, (&word,), r),
    ensures
        same_word(r, word),
{
}

} // verus!
