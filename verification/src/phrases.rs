//! Grouping transcript words into phrases: a phrase ends at a silence (a long
//! spacing entry, or a pause before the next word) and at a change of speaker.
//! The comparisons of times against the silence threshold are made by the
//! caller and arrive here as flags.
use crate::text::{str_eq, trim};
use crate::transcript::{
    WordToken, lemma_phrase_text_tidy, phrase_parts, phrase_text, phrase_text_spec, word_part,
};
use vstd::prelude::*;

verus! {

/// One transcript entry as phrase grouping sees it.
pub enum TranscriptEntry {
    /// A spacing entry; `long` when it lasts at least the silence threshold.
    Spacing { long: bool },
    /// A word without a start time: grouping passes over it.
    Untimed,
    /// A timed word with its speaker; `pause_before` when it starts at least
    /// the silence threshold after the previous timed word ended.
    Word { token: WordToken, speaker: Option<String>, pause_before: bool },
}

/// A phrase: the indices of its first and last word among the entries, its
/// text and the speaker of its first word.
pub struct PhraseGroup {
    pub first: usize,
    pub last: usize,
    pub text: String,
    pub speaker: Option<String>,
}

/// A phrase as contracts see it: first index, last index, text, speaker.
pub type GroupSpec = (int, int, Seq<char>, Option<Seq<char>>);

/// A phrase still being built: first index, last index, its words, speaker.
pub type OpenSpec = (int, int, Seq<WordToken>, Option<Seq<char>>);

/// An optional string by its view.
pub open spec fn opt_str_view(o: Option<String>) -> Option<Seq<char>> {
    match o {
        Some(s) => Some(s@),
        None => None,
    }
}

/// A phrase as contracts see it.
pub open spec fn group_view(g: PhraseGroup) -> GroupSpec {
    (g.first as int, g.last as int, g.text@, opt_str_view(g.speaker))
}

/// Closing the phrase being built adds it to the phrases when some word of it
/// has visible text, and drops it otherwise.
pub open spec fn close_phrase(done: Seq<GroupSpec>, open: Option<OpenSpec>) -> Seq<GroupSpec> {
    match open {
        None => done,
        Some(p) => match phrase_text_spec(p.2) {
            None => done,
            Some(t) => done.push((p.0, p.1, t, p.3)),
        },
    }
}

/// Whether a word with speaker `spk` starts a new phrase because the phrase
/// being built has another speaker.
pub open spec fn speaker_changes(open: Option<OpenSpec>, spk: Option<Seq<char>>) -> bool {
    match open {
        Some(p) => p.3 is Some && spk is Some && p.3 != spk,
        None => false,
    }
}

/// The phrase being built after the word `token` at index `i` joins it, or
/// starts a new one.
pub open spec fn join_word(
    open: Option<OpenSpec>,
    i: int,
    token: WordToken,
    spk: Option<Seq<char>>,
) -> Option<OpenSpec> {
    match open {
        None => Some((i, i, seq![token], spk)),
        Some(p) => Some((p.0, i, p.2.push(token), p.3)),
    }
}

/// What the entry at index `i` does to the finished phrases and the phrase
/// being built.
pub open spec fn entry_step(
    done: Seq<GroupSpec>,
    open: Option<OpenSpec>,
    i: int,
    e: TranscriptEntry,
) -> (Seq<GroupSpec>, Option<OpenSpec>) {
    match e {
        TranscriptEntry::Spacing { long } => if long {
            (close_phrase(done, open), None)
        } else {
            (done, open)
        },
        TranscriptEntry::Untimed => (done, open),
        TranscriptEntry::Word { token, speaker, pause_before } => {
            let spk = opt_str_view(speaker);
            let d1 = if speaker_changes(open, spk) {
                close_phrase(done, open)
            } else {
                done
            };
            let o1 = if speaker_changes(open, spk) {
                None
            } else {
                open
            };
            let d2 = if pause_before {
                close_phrase(d1, o1)
            } else {
                d1
            };
            let o2 = if pause_before {
                None
            } else {
                o1
            };
            (d2, join_word(o2, i, token, spk))
        },
    }
}

/// The finished phrases and the phrase being built after all of `entries`.
pub open spec fn grouping_state(entries: Seq<TranscriptEntry>) -> (
    Seq<GroupSpec>,
    Option<OpenSpec>,
)
    decreases entries.len(),
{
    if entries.len() == 0 {
        (Seq::empty(), None)
    } else {
        let s = grouping_state(entries.drop_last());
        entry_step(s.0, s.1, entries.len() - 1, entries.last())
    }
}

/// The phrases of a transcript, in order.
pub open spec fn phrase_groups_spec(entries: Seq<TranscriptEntry>) -> Seq<GroupSpec> {
    let s = grouping_state(entries);
    close_phrase(s.0, s.1)
}

/// Whether an entry is a spacing that lasts at least the silence threshold.
pub open spec fn is_long_spacing(e: TranscriptEntry) -> bool {
    e matches TranscriptEntry::Spacing { long } && long
}

/// Whether an entry is a word that starts after a pause.
pub open spec fn follows_pause(e: TranscriptEntry) -> bool {
    e matches TranscriptEntry::Word { pause_before, .. } && pause_before
}

/// The speaker of a word entry (`None` for other entries and for words without one).
pub open spec fn speaker_of(e: TranscriptEntry) -> Option<Seq<char>> {
    match e {
        TranscriptEntry::Word { speaker, .. } => opt_str_view(speaker),
        _ => None,
    }
}

/// A phrase spans no silence and no change of speaker: it starts and ends at
/// a word, its speaker is that of its first word, no long spacing stands
/// within it, no word after its first follows a pause, and when it has a
/// speaker every word in it that names a speaker names that one.
pub open spec fn phrase_respects_breaks(entries: Seq<TranscriptEntry>, g: GroupSpec) -> bool {
    &&& 0 <= g.0 <= g.1 < entries.len()
    &&& entries[g.0] is Word
    &&& entries[g.1] is Word
    &&& speaker_of(entries[g.0]) == g.3
    &&& forall|j: int| g.0 <= j <= g.1 ==> !is_long_spacing(#[trigger] entries[j])
    &&& forall|j: int| g.0 < j <= g.1 ==> !follows_pause(#[trigger] entries[j])
    &&& forall|j: int|
        g.0 <= j <= g.1 && g.3 is Some && speaker_of(#[trigger] entries[j]) is Some
            ==> speaker_of(entries[j]) == g.3
}

spec fn done_ok(entries: Seq<TranscriptEntry>, n: int, done: Seq<GroupSpec>) -> bool {
    &&& forall|k: int|
        0 <= k < done.len() ==> phrase_respects_breaks(entries, #[trigger] done[k]) && done[k].1
            < n
    &&& forall|a: int, b: int| 0 <= a < b < done.len() ==> #[trigger] done[a].1 < #[trigger] done[b].0
}

spec fn open_ok(entries: Seq<TranscriptEntry>, n: int, p: OpenSpec) -> bool {
    &&& 0 <= p.0 <= p.1 < n <= entries.len()
    &&& entries[p.0] is Word
    &&& entries[p.1] is Word
    &&& speaker_of(entries[p.0]) == p.3
    &&& forall|j: int| p.0 <= j <= p.1 ==> !is_long_spacing(#[trigger] entries[j])
    &&& forall|j: int| p.0 < j <= p.1 ==> !follows_pause(#[trigger] entries[j])
    &&& forall|j: int|
        p.0 <= j <= p.1 && p.3 is Some && speaker_of(#[trigger] entries[j]) is Some
            ==> speaker_of(entries[j]) == p.3
    &&& forall|j: int|
        p.1 < j < n ==> !is_long_spacing(#[trigger] entries[j]) && !(entries[j] is Word)
}

spec fn state_ok(
    entries: Seq<TranscriptEntry>,
    n: int,
    s: (Seq<GroupSpec>, Option<OpenSpec>),
) -> bool {
    &&& done_ok(entries, n, s.0)
    &&& match s.1 {
        Some(p) => open_ok(entries, n, p) && forall|k: int|
            0 <= k < s.0.len() ==> #[trigger] s.0[k].1 < p.0,
        None => true,
    }
}

proof fn lemma_close_ok(
    entries: Seq<TranscriptEntry>,
    n: int,
    done: Seq<GroupSpec>,
    open: Option<OpenSpec>,
)
    requires
        state_ok(entries, n, (done, open)),
    ensures
        done_ok(entries, n, close_phrase(done, open)),
{
    match open {
        None => {},
        Some(p) => {
            match phrase_text_spec(p.2) {
                None => {},
                Some(t) => {
                    let d = done.push((p.0, p.1, t, p.3));
                    assert forall|k: int| 0 <= k < d.len() implies phrase_respects_breaks(
                        entries,
                        #[trigger] d[k],
                    ) && d[k].1 < n by {
                        if k < done.len() {
                            assert(d[k] == done[k]);
                        }
                    }
                    assert forall|a: int, b: int| 0 <= a < b < d.len() implies #[trigger] d[a].1
                        < #[trigger] d[b].0 by {
                        assert(d[a] == done[a]);
                        if b < done.len() {
                            assert(d[b] == done[b]);
                        }
                    }
                },
            }
        },
    }
}

proof fn lemma_step_ok(
    entries: Seq<TranscriptEntry>,
    n: int,
    s: (Seq<GroupSpec>, Option<OpenSpec>),
)
    requires
        0 <= n < entries.len(),
        state_ok(entries, n, s),
    ensures
        state_ok(entries, n + 1, entry_step(s.0, s.1, n, entries[n])),
{
    let done = s.0;
    let open = s.1;
    match entries[n] {
        TranscriptEntry::Spacing { long } => {
            if long {
                lemma_close_ok(entries, n, done, open);
            }
        },
        TranscriptEntry::Untimed => {},
        TranscriptEntry::Word { token, speaker, pause_before } => {
            let spk = opt_str_view(speaker);
            let change = speaker_changes(open, spk);
            let d1 = if change {
                close_phrase(done, open)
            } else {
                done
            };
            let o1 = if change {
                None
            } else {
                open
            };
            if change {
                lemma_close_ok(entries, n, done, open);
            }
            assert(state_ok(entries, n, (d1, o1)));
            let d2 = if pause_before {
                close_phrase(d1, o1)
            } else {
                d1
            };
            let o2 = if pause_before {
                None
            } else {
                o1
            };
            if pause_before {
                lemma_close_ok(entries, n, d1, o1);
            }
            assert(state_ok(entries, n, (d2, o2)));
            assert(entry_step(done, open, n, entries[n]) == (d2, join_word(o2, n, token, spk)));
            match o2 {
                None => {
                    assert(speaker_of(entries[n]) == spk);
                },
                Some(p) => {
                    assert(!follows_pause(entries[n]));
                    assert(speaker_of(entries[n]) == spk);
                },
            }
        },
    }
}

proof fn lemma_grouping_state_ok(entries: Seq<TranscriptEntry>, n: int)
    requires
        0 <= n <= entries.len(),
    ensures
        state_ok(entries, n, grouping_state(entries.subrange(0, n))),
    decreases n,
{
    if n > 0 {
        let sub = entries.subrange(0, n);
        assert(sub.drop_last() =~= entries.subrange(0, n - 1));
        lemma_grouping_state_ok(entries, n - 1);
        lemma_step_ok(entries, n - 1, grouping_state(entries.subrange(0, n - 1)));
    }
}

/// Phrases never span a silence or a change of speaker (see
/// `phrase_respects_breaks`), and they come in order without overlapping.
pub proof fn lemma_phrases_respect_breaks(entries: Seq<TranscriptEntry>)
    ensures
        forall|k: int|
            0 <= k < phrase_groups_spec(entries).len() ==> phrase_respects_breaks(
                entries,
                #[trigger] phrase_groups_spec(entries)[k],
            ),
        forall|a: int, b: int|
            0 <= a < b < phrase_groups_spec(entries).len() ==> #[trigger] phrase_groups_spec(
                entries,
            )[a].1 < #[trigger] phrase_groups_spec(entries)[b].0,
{
    lemma_grouping_state_ok(entries, entries.len() as int);
    assert(entries.subrange(0, entries.len() as int) =~= entries);
    let s = grouping_state(entries);
    lemma_close_ok(entries, entries.len() as int, s.0, s.1);
}

/// Whether an entry is a word with visible text.
pub open spec fn is_spoken(e: TranscriptEntry) -> bool {
    e matches TranscriptEntry::Word { token, .. } && word_part(token) is Some
}

spec fn covered(done: Seq<GroupSpec>, j: int) -> bool {
    exists|k: int| 0 <= k < done.len() && (#[trigger] done[k]).0 <= j <= done[k].1
}

spec fn in_open(open: Option<OpenSpec>, j: int) -> bool {
    match open {
        Some(p) => p.0 <= j <= p.1 && phrase_parts(p.2).len() > 0,
        None => false,
    }
}

spec fn cover_ok(
    entries: Seq<TranscriptEntry>,
    n: int,
    s: (Seq<GroupSpec>, Option<OpenSpec>),
) -> bool {
    forall|j: int|
        0 <= j < n && is_spoken(#[trigger] entries[j]) ==> covered(s.0, j) || in_open(s.1, j)
}

proof fn lemma_covered_push(done: Seq<GroupSpec>, x: GroupSpec, j: int)
    requires
        covered(done, j),
    ensures
        covered(done.push(x), j),
{
    let k = choose|k: int| 0 <= k < done.len() && (#[trigger] done[k]).0 <= j <= done[k].1;
    assert(done.push(x)[k] == done[k]);
}

proof fn lemma_close_covers(
    entries: Seq<TranscriptEntry>,
    n: int,
    done: Seq<GroupSpec>,
    open: Option<OpenSpec>,
)
    requires
        cover_ok(entries, n, (done, open)),
    ensures
        cover_ok(entries, n, (close_phrase(done, open), None)),
{
    match open {
        None => {},
        Some(p) => {
            match phrase_text_spec(p.2) {
                None => {
                    assert forall|j: int|
                        0 <= j < n && is_spoken(#[trigger] entries[j]) implies covered(
                        close_phrase(done, open),
                        j,
                    ) || in_open(None, j) by {
                        assert(!in_open(open, j));
                    }
                },
                Some(t) => {
                    let x = (p.0, p.1, t, p.3);
                    assert forall|j: int|
                        0 <= j < n && is_spoken(#[trigger] entries[j]) implies covered(
                        close_phrase(done, open),
                        j,
                    ) || in_open(None, j) by {
                        if covered(done, j) {
                            lemma_covered_push(done, x, j);
                        } else {
                            assert(done.push(x)[done.len() as int] == x);
                        }
                    }
                },
            }
        },
    }
}

proof fn lemma_parts_push(words: Seq<WordToken>, t: WordToken)
    ensures
        phrase_parts(words.push(t)).len() >= phrase_parts(words).len(),
        word_part(t) is Some ==> phrase_parts(words.push(t)).len() > 0,
{
    assert(words.push(t).drop_last() =~= words);
}

proof fn lemma_step_covers(
    entries: Seq<TranscriptEntry>,
    n: int,
    s: (Seq<GroupSpec>, Option<OpenSpec>),
)
    requires
        0 <= n < entries.len(),
        cover_ok(entries, n, s),
        state_ok(entries, n, s),
    ensures
        cover_ok(entries, n + 1, entry_step(s.0, s.1, n, entries[n])),
{
    let done = s.0;
    let open = s.1;
    match entries[n] {
        TranscriptEntry::Spacing { long } => {
            if long {
                lemma_close_covers(entries, n, done, open);
            }
        },
        TranscriptEntry::Untimed => {},
        TranscriptEntry::Word { token, speaker, pause_before } => {
            let spk = opt_str_view(speaker);
            let change = speaker_changes(open, spk);
            let d1 = if change {
                close_phrase(done, open)
            } else {
                done
            };
            let o1 = if change {
                None
            } else {
                open
            };
            if change {
                lemma_close_covers(entries, n, done, open);
            }
            let d2 = if pause_before {
                close_phrase(d1, o1)
            } else {
                d1
            };
            let o2 = if pause_before {
                None
            } else {
                o1
            };
            if pause_before {
                lemma_close_covers(entries, n, d1, o1);
            }
            assert(cover_ok(entries, n, (d2, o2)));
            let o3 = join_word(o2, n, token, spk);
            match o2 {
                None => {
                    lemma_parts_push(Seq::empty(), token);
                    assert(Seq::<WordToken>::empty().push(token) =~= seq![token]);
                },
                Some(p) => {
                    lemma_parts_push(p.2, token);
                },
            }
            assert forall|j: int|
                0 <= j < n + 1 && is_spoken(#[trigger] entries[j]) implies covered(d2, j)
                || in_open(o3, j) by {
                if j < n {
                    assert(covered(d2, j) || in_open(o2, j));
                }
            }
        },
    }
}

proof fn lemma_grouping_covers(entries: Seq<TranscriptEntry>, n: int)
    requires
        0 <= n <= entries.len(),
    ensures
        cover_ok(entries, n, grouping_state(entries.subrange(0, n))),
    decreases n,
{
    if n > 0 {
        let sub = entries.subrange(0, n);
        assert(sub.drop_last() =~= entries.subrange(0, n - 1));
        lemma_grouping_covers(entries, n - 1);
        lemma_grouping_state_ok(entries, n - 1);
        lemma_step_covers(entries, n - 1, grouping_state(entries.subrange(0, n - 1)));
    }
}

/// No spoken word is lost: every word with visible text lies within some phrase.
pub proof fn lemma_spoken_words_kept(entries: Seq<TranscriptEntry>)
    ensures
        forall|j: int|
            0 <= j < entries.len() && is_spoken(#[trigger] entries[j]) ==> exists|k: int|
                0 <= k < phrase_groups_spec(entries).len() && (#[trigger] phrase_groups_spec(
                    entries,
                )[k]).0 <= j <= phrase_groups_spec(entries)[k].1,
{
    lemma_grouping_covers(entries, entries.len() as int);
    assert(entries.subrange(0, entries.len() as int) =~= entries);
    let s = grouping_state(entries);
    lemma_close_covers(entries, entries.len() as int, s.0, s.1);
    assert forall|j: int|
        0 <= j < entries.len() && is_spoken(#[trigger] entries[j]) implies exists|k: int|
        0 <= k < phrase_groups_spec(entries).len() && (#[trigger] phrase_groups_spec(
            entries,
        )[k]).0 <= j <= phrase_groups_spec(entries)[k].1 by {
        assert(covered(phrase_groups_spec(entries), j));
    }
}

/// The number of timed words among the entries.
pub open spec fn timed_word_count(entries: Seq<TranscriptEntry>) -> nat
    decreases entries.len(),
{
    if entries.len() == 0 {
        0
    } else {
        timed_word_count(entries.drop_last()) + if entries.last() is Word {
            1nat
        } else {
            0nat
        }
    }
}

spec fn texts_tidy(done: Seq<GroupSpec>) -> bool {
    forall|k: int|
        0 <= k < done.len() ==> (#[trigger] done[k]).2.len() > 0 && trim(done[k].2) == done[k].2
}

spec fn open_count(open: Option<OpenSpec>) -> nat {
    if open is Some {
        1
    } else {
        0
    }
}

proof fn lemma_close_counts(done: Seq<GroupSpec>, open: Option<OpenSpec>)
    requires
        texts_tidy(done),
    ensures
        texts_tidy(close_phrase(done, open)),
        close_phrase(done, open).len() <= done.len() + open_count(open),
{
    if let Some(p) = open {
        lemma_phrase_text_tidy(p.2);
        if let Some(t) = phrase_text_spec(p.2) {
            let d = done.push((p.0, p.1, t, p.3));
            assert forall|k: int| 0 <= k < d.len() implies (#[trigger] d[k]).2.len() > 0 && trim(
                d[k].2,
            ) == d[k].2 by {
                if k < done.len() {
                    assert(d[k] == done[k]);
                }
            }
        }
    }
}

proof fn lemma_state_counts(entries: Seq<TranscriptEntry>)
    ensures
        texts_tidy(grouping_state(entries).0),
        grouping_state(entries).0.len() + open_count(grouping_state(entries).1) <= timed_word_count(
            entries,
        ),
    decreases entries.len(),
{
    if entries.len() > 0 {
        let s = grouping_state(entries.drop_last());
        lemma_state_counts(entries.drop_last());
        let done = s.0;
        let open = s.1;
        match entries.last() {
            TranscriptEntry::Spacing { long } => {
                lemma_close_counts(done, open);
            },
            TranscriptEntry::Untimed => {},
            TranscriptEntry::Word { token, speaker, pause_before } => {
                let spk = opt_str_view(speaker);
                let change = speaker_changes(open, spk);
                let d1 = if change {
                    close_phrase(done, open)
                } else {
                    done
                };
                let o1 = if change {
                    None
                } else {
                    open
                };
                lemma_close_counts(done, open);
                assert(texts_tidy(d1) && d1.len() + open_count(o1) <= done.len() + open_count(open));
                let d2 = if pause_before {
                    close_phrase(d1, o1)
                } else {
                    d1
                };
                let o2 = if pause_before {
                    None
                } else {
                    o1
                };
                lemma_close_counts(d1, o1);
                assert(texts_tidy(d2) && d2.len() + open_count(o2) <= done.len() + open_count(open));
            },
        }
    }
}

/// Every phrase's text is non-empty and already trimmed, there are no more
/// phrases than timed words, and no entries give no phrases.
pub proof fn lemma_phrase_texts_and_count(entries: Seq<TranscriptEntry>)
    ensures
        forall|k: int|
            0 <= k < phrase_groups_spec(entries).len() ==> (#[trigger] phrase_groups_spec(
                entries,
            )[k]).2.len() > 0 && trim(phrase_groups_spec(entries)[k].2) == phrase_groups_spec(
                entries,
            )[k].2,
        phrase_groups_spec(entries).len() <= timed_word_count(entries),
        entries.len() == 0 ==> phrase_groups_spec(entries).len() == 0,
{
    lemma_state_counts(entries);
    let s = grouping_state(entries);
    lemma_close_counts(s.0, s.1);
}

/// Whether no timed word stands strictly between indices `a` and `b`.
pub open spec fn no_word_between(entries: Seq<TranscriptEntry>, a: int, b: int) -> bool {
    forall|m: int| a < m < b ==> !(#[trigger] entries[m] is Word)
}

/// Whether a break stands between phrase `g` and the word at `j`: a long
/// spacing after the phrase's last word, a pause before the word, or a
/// speaker on the word other than the phrase's.
pub open spec fn break_before(entries: Seq<TranscriptEntry>, g: GroupSpec, j: int) -> bool {
    ||| exists|m: int| g.1 < m < j && is_long_spacing(#[trigger] entries[m])
    ||| follows_pause(entries[j])
    ||| (speaker_of(entries[j]) is Some && g.3 is Some && speaker_of(entries[j]) != g.3)
}

spec fn max_ok(entries: Seq<TranscriptEntry>, n: int, done: Seq<GroupSpec>) -> bool {
    &&& forall|k: int, j: int|
        0 <= k < done.len() && done[k].1 < j < n && entries[j] is Word && no_word_between(
            entries,
            done[k].1,
            j,
        ) ==> #[trigger] break_before(entries, done[k], j)
    &&& forall|k: int|
        0 <= k < done.len() && no_word_between(entries, (#[trigger] done[k]).1, n) ==> exists|
            m: int,
        |
            done[k].1 < m < n && is_long_spacing(#[trigger] entries[m])
}

proof fn lemma_no_word_shrink(entries: Seq<TranscriptEntry>, a: int, b: int)
    requires
        no_word_between(entries, a, b + 1),
    ensures
        no_word_between(entries, a, b),
{
}

proof fn lemma_step_max(entries: Seq<TranscriptEntry>, n: int, s: (Seq<GroupSpec>, Option<OpenSpec>))
    requires
        0 <= n < entries.len(),
        state_ok(entries, n, s),
        max_ok(entries, n, s.0),
    ensures
        max_ok(entries, n + 1, entry_step(s.0, s.1, n, entries[n]).0),
{
    let done = s.0;
    let open = s.1;
    let nd = entry_step(done, open, n, entries[n]).0;
    // What holds of the groups already finished before this entry.
    assert forall|k: int, j: int|
        0 <= k < done.len() && done[k].1 < j < n + 1 && entries[j] is Word && no_word_between(
            entries,
            done[k].1,
            j,
        ) implies #[trigger] break_before(entries, done[k], j) by {
        if j == n {
            let m = choose|m: int| done[k].1 < m < n && is_long_spacing(#[trigger] entries[m]);
            assert(done[k].1 < m < j && is_long_spacing(entries[m]));
        }
    }
    assert forall|k: int|
        0 <= k < done.len() && no_word_between(entries, (#[trigger] done[k]).1, n + 1) implies exists|
        m: int,
    |
        done[k].1 < m < n + 1 && is_long_spacing(#[trigger] entries[m]) by {
        lemma_no_word_shrink(entries, done[k].1, n);
        let m = choose|m: int| done[k].1 < m < n && is_long_spacing(#[trigger] entries[m]);
        assert(done[k].1 < m < n + 1 && is_long_spacing(entries[m]));
    }
    if nd.len() > done.len() {
        // Exactly one phrase, the one being built, was closed at this entry.
        let p = open->Some_0;
        let g = nd[done.len() as int];
        assert(g.1 == p.1 && g.3 == p.3);
        assert forall|k: int| 0 <= k < done.len() implies #[trigger] nd[k] == done[k] by {}
        assert forall|k: int, j: int|
            0 <= k < nd.len() && nd[k].1 < j < n + 1 && entries[j] is Word && no_word_between(
                entries,
                nd[k].1,
                j,
            ) implies #[trigger] break_before(entries, nd[k], j) by {
            if k == done.len() {
                if j < n {
                    assert(!(entries[j] is Word));
                } else {
                    match entries[n] {
                        TranscriptEntry::Spacing { .. } => {},
                        TranscriptEntry::Untimed => {},
                        TranscriptEntry::Word { token, speaker, pause_before } => {
                            assert(speaker_of(entries[n]) == opt_str_view(speaker));
                        },
                    }
                }
            } else {
                assert(nd[k] == done[k]);
            }
        }
        assert forall|k: int|
            0 <= k < nd.len() && no_word_between(entries, (#[trigger] nd[k]).1, n + 1) implies exists|
            m: int,
        |
            nd[k].1 < m < n + 1 && is_long_spacing(#[trigger] entries[m]) by {
            if k == done.len() {
                if !(entries[n] is Word) {
                    assert(is_long_spacing(entries[n]));
                    assert(nd[k].1 < n);
                }
            } else {
                assert(nd[k] == done[k]);
            }
        }
    } else {
        assert(nd =~= done);
    }
}

proof fn lemma_grouping_max(entries: Seq<TranscriptEntry>, n: int)
    requires
        0 <= n <= entries.len(),
    ensures
        max_ok(entries, n, grouping_state(entries.subrange(0, n)).0),
    decreases n,
{
    if n > 0 {
        let sub = entries.subrange(0, n);
        assert(sub.drop_last() =~= entries.subrange(0, n - 1));
        lemma_grouping_max(entries, n - 1);
        lemma_grouping_state_ok(entries, n - 1);
        lemma_step_max(entries, n - 1, grouping_state(entries.subrange(0, n - 1)));
    }
}

/// A phrase ends only at a break: the first timed word after a phrase comes
/// after a long spacing, follows a pause, or names a speaker other than the
/// phrase's. So consecutive timed words with none of these between them
/// share a phrase; phrases are as long as the breaks allow.
pub proof fn lemma_phrases_end_only_at_breaks(entries: Seq<TranscriptEntry>)
    ensures
        forall|k: int, j: int|
            0 <= k < phrase_groups_spec(entries).len() && phrase_groups_spec(entries)[k].1 < j
                < entries.len() && entries[j] is Word && no_word_between(
                entries,
                phrase_groups_spec(entries)[k].1,
                j,
            ) ==> #[trigger] break_before(entries, phrase_groups_spec(entries)[k], j),
{
    let n = entries.len() as int;
    lemma_grouping_max(entries, n);
    lemma_grouping_state_ok(entries, n);
    assert(entries.subrange(0, n) =~= entries);
    let s = grouping_state(entries);
    let groups = phrase_groups_spec(entries);
    assert forall|k: int, j: int|
        0 <= k < groups.len() && groups[k].1 < j < n && entries[j] is Word && no_word_between(
            entries,
            groups[k].1,
            j,
        ) implies #[trigger] break_before(entries, groups[k], j) by {
        if k < s.0.len() {
            assert(groups[k] == s.0[k]);
        } else {
            let p = s.1->Some_0;
            assert(groups[k].1 == p.1);
            assert(!(entries[j] is Word));
        }
    }
}

struct OpenPhrase {
    first: usize,
    last: usize,
    words: Vec<WordToken>,
    speaker: Option<String>,
}

spec fn open_view(o: Option<OpenPhrase>) -> Option<OpenSpec> {
    match o {
        Some(p) => Some((p.first as int, p.last as int, p.words@, opt_str_view(p.speaker))),
        None => None,
    }
}

fn copy_text(o: &Option<String>) -> (r: Option<String>)
    ensures
        r == *o,
{
    match o {
        Some(s) => Some(s.clone()),
        None => None,
    }
}

fn copy_token(w: &WordToken) -> (r: WordToken)
    ensures
        r == *w,
{
    WordToken { word_type: w.word_type.clone(), text: copy_text(&w.text) }
}

fn close(done: &mut Vec<PhraseGroup>, open: Option<OpenPhrase>)
    ensures
        final(done)@.map_values(|g: PhraseGroup| group_view(g)) == close_phrase(
            old(done)@.map_values(|g: PhraseGroup| group_view(g)),
            open_view(open),
        ),
{
    match open {
        None => {},
        Some(p) => {
            match phrase_text(p.words.as_slice()) {
                None => {},
                Some(t) => {
                    let ghost before = done@;
                    let g = PhraseGroup { first: p.first, last: p.last, text: t, speaker: p.speaker };
                    done.push(g);
                    proof {
                        assert(done@.map_values(|g: PhraseGroup| group_view(g)) =~= before.map_values(
                            |g: PhraseGroup| group_view(g),
                        ).push(group_view(g)));
                    }
                },
            }
        },
    }
}

/// Groups transcript entries into phrases, closing a phrase at a long
/// spacing, before a word that follows a pause, and before a word whose
/// speaker differs from the phrase's; phrases without visible text are dropped.
pub fn group_phrases(entries: &[TranscriptEntry]) -> (groups: Vec<PhraseGroup>)
    ensures
        groups@.map_values(|g: PhraseGroup| group_view(g)) == phrase_groups_spec(entries@),
{
    let mut done: Vec<PhraseGroup> = Vec::new();
    let mut open: Option<OpenPhrase> = None;
    let mut i: usize = 0;
    assert(done@.map_values(|g: PhraseGroup| group_view(g)) =~= Seq::<GroupSpec>::empty());
    assert(entries@.subrange(0, 0) =~= Seq::<TranscriptEntry>::empty());
    while i < entries.len()
        invariant
            i <= entries@.len(),
            (done@.map_values(|g: PhraseGroup| group_view(g)), open_view(open)) == grouping_state(
                entries@.subrange(0, i as int),
            ),
        decreases entries.len() - i,
    {
        proof {
            let sub = entries@.subrange(0, i + 1);
            assert(sub.drop_last() =~= entries@.subrange(0, i as int));
            assert(sub.last() == entries@[i as int]);
        }
        match &entries[i] {
            TranscriptEntry::Spacing { long } => {
                if *long {
                    let o = open;
                    open = None;
                    close(&mut done, o);
                }
            },
            TranscriptEntry::Untimed => {},
            TranscriptEntry::Word { token, speaker, pause_before } => {
                let ghost spk = opt_str_view(*speaker);
                let change = match &open {
                    Some(p) => match (&p.speaker, speaker) {
                        (Some(a), Some(b)) => !str_eq(a.as_str(), b.as_str()),
                        _ => false,
                    },
                    None => false,
                };
                assert(change == speaker_changes(open_view(open), spk));
                if change {
                    let o = open;
                    open = None;
                    close(&mut done, o);
                }
                if *pause_before {
                    let o = open;
                    open = None;
                    close(&mut done, o);
                }
                let cur = open;
                open = match cur {
                    None => {
                        let mut words: Vec<WordToken> = Vec::new();
                        words.push(copy_token(token));
                        proof {
                            assert(words@ =~= seq![*token]);
                        }
                        Some(OpenPhrase { first: i, last: i, words, speaker: copy_text(speaker) })
                    },
                    Some(p) => {
                        let mut p = p;
                        p.words.push(copy_token(token));
                        p.last = i;
                        Some(p)
                    },
                };
            },
        }
        i = i + 1;
    }
    assert(entries@.subrange(0, entries@.len() as int) =~= entries@);
    close(&mut done, open);
    done
}

} // verus!
