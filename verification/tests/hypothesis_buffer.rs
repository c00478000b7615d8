use yamabiko_whisper::hypothesis_buffer::HypothesisBuffer;
use yamabiko_whisper::{Seconds, Word};

fn sec(t: f64) -> Seconds {
    Seconds::from_ticks((t * 16_000.0).round() as i128)
}

fn w(start: f64, end: f64, text: &str) -> Word {
    Word {
        start: sec(start),
        end: sec(end),
        text: text.to_string(),
    }
}

#[test]
fn prefix_match_commits() {
    let mut hb = HypothesisBuffer::new();
    // Seed buffer (prior hypothesis) by feeding it through insert+flush.
    hb.insert(
        vec![w(0.0, 0.5, "a"), w(0.5, 1.0, "b"), w(1.0, 1.5, "c")],
        sec(0.0),
    );
    let first = hb.flush();
    assert!(
        first.is_empty(),
        "first insert has no buffer to match against"
    );

    // Second insert agrees on a, b but diverges at c -> x.
    hb.insert(
        vec![w(0.0, 0.5, "a"), w(0.5, 1.0, "b"), w(1.0, 1.5, "x")],
        sec(0.0),
    );
    let committed = hb.flush();
    assert_eq!(committed, vec![w(0.0, 0.5, "a"), w(0.5, 1.0, "b")]);
    assert_eq!(hb.buffer, vec![w(1.0, 1.5, "x")]);
    assert_eq!(hb.last_committed_time, sec(1.0));
    assert_eq!(hb.last_committed_word.as_deref(), Some("b"));
}

#[test]
fn first_token_mismatch_commits_nothing() {
    let mut hb = HypothesisBuffer::new();
    hb.insert(vec![w(0.0, 0.5, "a"), w(0.5, 1.0, "b")], sec(0.0));
    hb.flush();
    hb.insert(vec![w(0.0, 0.5, "X"), w(0.5, 1.0, "Y")], sec(0.0));
    let committed = hb.flush();
    assert!(committed.is_empty());
    assert_eq!(hb.buffer, vec![w(0.0, 0.5, "X"), w(0.5, 1.0, "Y")]);
}

#[test]
fn drops_words_before_last_committed_time() {
    let mut hb = HypothesisBuffer::new();
    hb.last_committed_time = sec(5.0);
    // 4.5 < 5.0 - 0.1 -> drop. 4.95 > 4.9 -> keep. 6.0 -> keep.
    hb.insert(
        vec![w(4.5, 4.7, "old"), w(4.95, 5.2, "edge"), w(6.0, 6.5, "new")],
        sec(0.0),
    );
    assert_eq!(hb.new, vec![w(4.95, 5.2, "edge"), w(6.0, 6.5, "new")]);
}

#[test]
fn dedupe_ngram_overlap() {
    let mut hb = HypothesisBuffer::new();
    hb.committed_in_buffer = vec![
        w(0.0, 0.4, "the"),
        w(0.4, 0.8, "quick"),
        w(0.8, 1.2, "brown"),
    ];
    hb.last_committed_time = sec(1.2);
    // First word starts within one second of 1.2; head matches tail of length 2.
    hb.insert(
        vec![
            w(1.3, 1.6, "quick"),
            w(1.6, 2.0, "brown"),
            w(2.0, 2.4, "fox"),
        ],
        sec(0.0),
    );
    assert_eq!(hb.new, vec![w(2.0, 2.4, "fox")]);
}

#[test]
fn pop_committed_drops_old() {
    let mut hb = HypothesisBuffer::new();
    hb.committed_in_buffer = vec![w(0.0, 1.0, "a"), w(1.0, 2.0, "b"), w(2.0, 3.0, "c")];
    hb.pop_committed(sec(2.0));
    assert_eq!(hb.committed_in_buffer, vec![w(2.0, 3.0, "c")]);
}

#[test]
fn complete_returns_buffer_clone() {
    let mut hb = HypothesisBuffer::new();
    hb.buffer = vec![w(0.0, 0.5, "a")];
    let snapshot = hb.complete();
    hb.buffer.clear();
    assert_eq!(snapshot, vec![w(0.0, 0.5, "a")]);
}

#[test]
fn offset_is_added_to_every_time() {
    let mut hb = HypothesisBuffer::default();
    hb.insert(vec![w(0.5, 1.0, "a")], sec(2.0));
    assert_eq!(hb.new, vec![w(2.5, 3.0, "a")]);
}

#[test]
fn word_at_the_tolerance_is_dropped() {
    let mut hb = HypothesisBuffer::new();
    hb.last_committed_time = sec(5.0);
    hb.insert(vec![w(4.9, 5.0, "at"), w(4.9001, 5.1, "after")], sec(0.0));
    assert_eq!(hb.new, vec![w(4.9001, 5.1, "after")]);
}

#[test]
fn longest_repetition_is_dropped() {
    let mut hb = HypothesisBuffer::new();
    hb.committed_in_buffer = vec![w(0.0, 0.4, "no"), w(0.4, 0.8, "no")];
    hb.last_committed_time = sec(0.8);
    hb.insert(
        vec![w(0.9, 1.2, "no"), w(1.2, 1.6, "no"), w(1.6, 2.0, "way")],
        sec(0.0),
    );
    assert_eq!(hb.new, vec![w(1.6, 2.0, "way")]);
}

#[test]
fn repetition_of_more_than_five_words_is_not_looked_for() {
    let names = ["a", "b", "c", "d", "e", "f"];
    let mut hb = HypothesisBuffer::new();
    hb.committed_in_buffer = names.iter().map(|n| w(0.0, 0.1, n)).collect();
    hb.last_committed_time = sec(0.1);
    hb.insert(names.iter().map(|n| w(0.2, 0.3, n)).collect(), sec(0.0));
    assert_eq!(hb.new.len(), 6);
}

#[test]
fn repetition_far_from_the_committed_text_is_kept() {
    let mut hb = HypothesisBuffer::new();
    hb.committed_in_buffer = vec![w(0.0, 1.0, "a")];
    hb.last_committed_time = sec(1.0);
    hb.insert(vec![w(2.0, 2.5, "a")], sec(0.0));
    assert_eq!(hb.new, vec![w(2.0, 2.5, "a")]);
    hb.insert(vec![w(1.9, 2.5, "a")], sec(0.0));
    assert!(hb.new.is_empty());
}

#[test]
fn repetition_is_compared_as_joined_text() {
    let mut hb = HypothesisBuffer::new();
    hb.committed_in_buffer = vec![w(0.0, 0.4, "a b"), w(0.4, 0.8, "c")];
    hb.last_committed_time = sec(0.8);
    hb.insert(vec![w(0.9, 1.2, "a"), w(1.2, 1.6, "b c")], sec(0.0));
    assert!(hb.new.is_empty());
}

#[test]
fn agreement_looks_at_texts_and_takes_the_newer_times() {
    let mut hb = HypothesisBuffer::new();
    hb.insert(vec![w(0.0, 0.5, "a")], sec(0.0));
    hb.flush();
    hb.insert(vec![w(0.1, 0.6, "a"), w(0.6, 0.9, "b")], sec(0.0));
    assert_eq!(hb.flush(), vec![w(0.1, 0.6, "a")]);
    assert_eq!(hb.committed_in_buffer, vec![w(0.1, 0.6, "a")]);
    assert_eq!(hb.last_committed_time, sec(0.6));
    assert!(hb.new.is_empty());
}

#[test]
fn pop_committed_stops_at_the_first_later_word() {
    let mut hb = HypothesisBuffer::new();
    hb.committed_in_buffer = vec![w(0.0, 1.0, "a"), w(1.0, 3.0, "b"), w(1.5, 2.0, "c")];
    hb.pop_committed(sec(2.0));
    assert_eq!(
        hb.committed_in_buffer,
        vec![w(1.0, 3.0, "b"), w(1.5, 2.0, "c")]
    );
}

#[test]
fn drain_complete_empties_the_buffer() {
    let mut hb = HypothesisBuffer::new();
    hb.buffer = vec![w(0.0, 0.5, "a")];
    assert_eq!(hb.drain_complete(), vec![w(0.0, 0.5, "a")]);
    assert!(hb.complete().is_empty());
}

#[test]
fn reset_and_advance_move_the_time() {
    let mut hb = HypothesisBuffer::new();
    hb.committed_in_buffer = vec![w(0.0, 0.5, "a")];
    hb.buffer = vec![w(0.5, 0.9, "b")];
    hb.last_committed_word = Some("a".to_string());
    hb.reset_to_time(sec(7.0));
    assert!(hb.committed_in_buffer.is_empty() && hb.buffer.is_empty() && hb.new.is_empty());
    assert_eq!(hb.last_committed_time, sec(7.0));
    assert_eq!(hb.last_committed_word, None);
    hb.advance_last_committed_time(sec(6.0));
    assert_eq!(hb.last_committed_time, sec(7.0));
    hb.advance_last_committed_time(sec(8.0));
    assert_eq!(hb.last_committed_time, sec(8.0));
}

#[test]
fn second_flush_commits_nothing() {
    let mut hb = HypothesisBuffer::new();
    hb.insert(vec![w(0.0, 0.5, "a"), w(0.5, 1.0, "b")], sec(0.0));
    hb.flush();
    hb.insert(vec![w(0.0, 0.5, "a"), w(0.5, 1.0, "x")], sec(0.0));
    assert_eq!(hb.flush(), vec![w(0.0, 0.5, "a")]);
    assert!(hb.flush().is_empty());
    assert_eq!(hb.committed_in_buffer, vec![w(0.0, 0.5, "a")]);
    assert_eq!(hb.last_committed_time, sec(0.5));
    assert_eq!(hb.last_committed_word.as_deref(), Some("a"));
}

#[test]
fn popping_in_two_steps_is_popping_once() {
    let words = || {
        vec![
            w(0.0, 1.0, "a"),
            w(1.0, 3.0, "b"),
            w(1.5, 2.0, "c"),
            w(3.0, 5.0, "d"),
        ]
    };
    let mut steps = HypothesisBuffer::new();
    steps.committed_in_buffer = words();
    steps.pop_committed(sec(2.0));
    assert_eq!(steps.committed_in_buffer.len(), 3);
    steps.pop_committed(sec(4.0));
    let mut once = HypothesisBuffer::new();
    once.committed_in_buffer = words();
    once.pop_committed(sec(4.0));
    assert_eq!(steps.committed_in_buffer, once.committed_in_buffer);
    assert_eq!(once.committed_in_buffer, vec![w(3.0, 5.0, "d")]);
}

#[test]
fn last_committed_word_is_remembered_through_a_run() {
    let mut hb = HypothesisBuffer::new();
    hb.insert(vec![w(0.0, 1.0, "a"), w(1.0, 2.0, "b"), w(2.0, 3.0, "c")], sec(0.0));
    hb.flush();
    hb.insert(vec![w(0.0, 1.0, "a"), w(1.0, 2.1, "b"), w(2.1, 3.0, "x")], sec(0.0));
    hb.flush();
    hb.pop_committed(sec(1.0));
    hb.insert(vec![w(2.1, 3.0, "y")], sec(0.0));
    hb.flush();
    assert_eq!(hb.committed_in_buffer, vec![w(1.0, 2.1, "b")]);
    assert_eq!(hb.last_committed_time, sec(2.1));
    assert_eq!(hb.last_committed_word.as_deref(), Some("b"));
}
