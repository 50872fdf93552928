//! Burned-in captions: caption text from transcript words, SRT timestamps
//! and the SRT document itself.
use crate::text::{
    Joiner, all_digits, chars_of, collapse_white_space, decimal, digits_value, is_blank,
    is_blank_str, join_with, lemma_zero_padded, pow10, push_char, push_decimal, push_str,
    push_zero_padded, string_of, trim, trim_bounds, trim_end_any, zero_padded,
};
use vstd::prelude::*;

verus! {

/// Words a caption normally holds.
pub const CHUNK_WORDS: usize = 2;

/// Most words a caption may hold.
pub const CHUNK_MAX_WORDS: usize = 3;

/// Caption style for the `subtitles` filter: bold Helvetica, outlined,
/// bottom-centred above the platform safe zone.
pub const SUB_FORCE_STYLE: &'static str = "FontName=Helvetica,FontSize=18,Bold=1,PrimaryColour=&H00FFFFFF,OutlineColour=&H00000000,BackColour=&H00000000,BorderStyle=1,Outline=2,Shadow=0,Alignment=2,MarginV=90";

/// Punctuation after which a caption ends.
pub open spec fn break_punctuation() -> Seq<char> {
    seq!['.', ',', '!', '?', ';', ':']
}

/// Whether a word's trimmed text ends in caption-breaking punctuation.
pub open spec fn ends_with_break_spec(text: Seq<char>) -> bool {
    let t = trim(text);
    t.len() > 0 && break_punctuation().contains(t.last())
}

/// Whether a word's text, trimmed, ends in `.`, `,`, `!`, `?`, `;` or `:`.
pub fn ends_with_break_punct(text: &str) -> (b: bool)
    ensures
        b == ends_with_break_spec(text@),
{
    let v = chars_of(text);
    let (lo, hi) = trim_bounds(&v);
    if lo == hi {
        return false;
    }
    let c = v[hi - 1];
    let ghost t = trim(text@);
    assert(t.last() == c);
    let b = c == '.' || c == ',' || c == '!' || c == '?' || c == ';' || c == ':';
    proof {
        if b {
            if c == '.' {
                assert(break_punctuation()[0] == c);
            } else if c == ',' {
                assert(break_punctuation()[1] == c);
            } else if c == '!' {
                assert(break_punctuation()[2] == c);
            } else if c == '?' {
                assert(break_punctuation()[3] == c);
            } else if c == ';' {
                assert(break_punctuation()[4] == c);
            } else {
                assert(break_punctuation()[5] == c);
            }
        }
    }
    b
}

/// The indices of the words whose text is present and not blank, in order.
pub open spec fn visible_indices(texts: Seq<Option<String>>) -> Seq<int>
    decreases texts.len(),
{
    if texts.len() == 0 {
        Seq::empty()
    } else {
        let rest = visible_indices(texts.drop_last());
        match texts.last() {
            Some(t) => if is_blank(t@) {
                rest
            } else {
                rest.push(texts.len() - 1)
            },
            None => rest,
        }
    }
}

/// The words that can appear in a caption: those with visible text, by index.
pub fn visible_word_indices(texts: &[Option<String>]) -> (r: Vec<usize>)
    ensures
        r@.map_values(|i: usize| i as int) == visible_indices(texts@),
{
    let mut r: Vec<usize> = Vec::new();
    let mut i: usize = 0;
    assert(r@.map_values(|i: usize| i as int) =~= Seq::<int>::empty());
    while i < texts.len()
        invariant
            i <= texts@.len(),
            r@.map_values(|i: usize| i as int) == visible_indices(texts@.subrange(0, i as int)),
        decreases texts.len() - i,
    {
        let ghost before = r@;
        proof {
            let sub = texts@.subrange(0, i + 1);
            assert(sub.drop_last() =~= texts@.subrange(0, i as int));
        }
        match &texts[i] {
            Some(t) => {
                if !is_blank_str(t.as_str()) {
                    r.push(i);
                    proof {
                        assert(r@.map_values(|i: usize| i as int) =~= before.map_values(
                            |i: usize| i as int,
                        ).push(i as int));
                    }
                }
            },
            None => {},
        }
        i = i + 1;
    }
    assert(texts@.subrange(0, texts@.len() as int) =~= texts@);
    r
}

/// A caption word as chunking sees it: its text and two facts about its
/// timing that the caller decides.
pub struct CaptionWord {
    pub text: String,
    /// The next word starts at least `CHUNK_PAUSE_S` after this one ends.
    pub pause_after: bool,
    /// This word ends at least `CHUNK_MIN_S` after the word before it starts,
    /// so that a caption of the two lasts long enough to be read.
    pub lasts_with_prev: bool,
}

/// Whether the caption that ends with word `i`, holding `len` words, closes
/// there: at the last word, after break punctuation, before a pause, at
/// `CHUNK_MAX_WORDS` words, or at `CHUNK_WORDS` words that last long enough.
pub open spec fn closes_after(words: Seq<CaptionWord>, i: int, len: int) -> bool {
    ||| i + 1 == words.len()
    ||| ends_with_break_spec(words[i].text@)
    ||| words[i].pause_after
    ||| len >= CHUNK_MAX_WORDS
    ||| (len >= CHUNK_WORDS && words[i].lasts_with_prev)
}

/// The captions closed among the first `n` words, as index ranges
/// `[start, end)`, and the start of the caption still open.
pub open spec fn chunk_run(words: Seq<CaptionWord>, n: int) -> (Seq<(int, int)>, int)
    decreases n,
{
    if n <= 0 {
        (Seq::empty(), 0)
    } else {
        let prev = chunk_run(words, n - 1);
        if closes_after(words, n - 1, n - prev.1) {
            (prev.0.push((prev.1, n)), n)
        } else {
            prev
        }
    }
}

/// The captions of a run of words, as index ranges `[start, end)`.
pub open spec fn chunk_bounds(words: Seq<CaptionWord>) -> Seq<(int, int)> {
    chunk_run(words, words.len() as int).0
}

/// Splits words (all with visible text) into captions; each caption is the
/// index range `[start, end)` of its words.
pub fn caption_chunks(words: &[CaptionWord]) -> (r: Vec<(usize, usize)>)
    ensures
        r@.map_values(|c: (usize, usize)| (c.0 as int, c.1 as int)) == chunk_bounds(words@),
{
    let mut chunks: Vec<(usize, usize)> = Vec::new();
    let mut start: usize = 0;
    let mut i: usize = 0;
    assert(chunks@.map_values(|c: (usize, usize)| (c.0 as int, c.1 as int)) =~= Seq::<
        (int, int),
    >::empty());
    while i < words.len()
        invariant
            i <= words@.len(),
            start <= i,
            chunk_run(words@, i as int) == (
                chunks@.map_values(|c: (usize, usize)| (c.0 as int, c.1 as int)),
                start as int,
            ),
        decreases words.len() - i,
    {
        let len = i - start + 1;
        let w = &words[i];
        let closes = i + 1 == words.len() || ends_with_break_punct(w.text.as_str())
            || w.pause_after || len >= CHUNK_MAX_WORDS || (len >= CHUNK_WORDS
            && w.lasts_with_prev);
        if closes {
            let ghost before = chunks@;
            chunks.push((start, i + 1));
            proof {
                assert(chunks@.map_values(|c: (usize, usize)| (c.0 as int, c.1 as int))
                    =~= before.map_values(|c: (usize, usize)| (c.0 as int, c.1 as int)).push(
                    (start as int, i + 1),
                ));
            }
            start = i + 1;
        }
        i = i + 1;
    }
    chunks
}

/// Captions cover the words in order, one after another; each holds at
/// least one and at most `CHUNK_MAX_WORDS` words; and within a caption no
/// word but the last ends in break punctuation or comes before a pause.
pub open spec fn captions_well_cut(words: Seq<CaptionWord>, chunks: Seq<(int, int)>) -> bool {
    &&& words.len() > 0 ==> chunks.len() > 0 && chunks[0].0 == 0 && chunks.last().1
        == words.len()
    &&& words.len() == 0 ==> chunks.len() == 0
    &&& forall|k: int| 0 <= k < chunks.len() - 1 ==> #[trigger] chunks[k].1 == chunks[k + 1].0
    &&& forall|k: int|
        0 <= k < chunks.len() ==> 1 <= #[trigger] chunks[k].1 - chunks[k].0 <= CHUNK_MAX_WORDS
    &&& forall|k: int, i: int|
        #![trigger chunks[k], words[i]]
        0 <= k < chunks.len() && chunks[k].0 <= i < chunks[k].1 - 1 ==> !ends_with_break_spec(
            words[i].text@,
        ) && !words[i].pause_after
}

spec fn run_ok(words: Seq<CaptionWord>, n: int, run: (Seq<(int, int)>, int)) -> bool {
    let chunks = run.0;
    let start = run.1;
    &&& 0 <= start <= n
    &&& n - start < CHUNK_MAX_WORDS
    &&& chunks.len() == 0 ==> start == 0
    &&& chunks.len() > 0 ==> chunks[0].0 == 0 && chunks.last().1 == start
    &&& forall|k: int| 0 <= k < chunks.len() - 1 ==> #[trigger] chunks[k].1 == chunks[k + 1].0
    &&& forall|k: int|
        0 <= k < chunks.len() ==> 1 <= #[trigger] chunks[k].1 - chunks[k].0 <= CHUNK_MAX_WORDS
    &&& forall|k: int, i: int|
        #![trigger chunks[k], words[i]]
        0 <= k < chunks.len() && chunks[k].0 <= i < chunks[k].1 - 1 ==> !ends_with_break_spec(
            words[i].text@,
        ) && !words[i].pause_after
    &&& forall|i: int|
        start <= i < n ==> !ends_with_break_spec(#[trigger] words[i].text@)
            && !words[i].pause_after
}

proof fn lemma_chunk_run_ok(words: Seq<CaptionWord>, n: int)
    requires
        0 <= n <= words.len(),
    ensures
        run_ok(words, n, chunk_run(words, n)),
    decreases n,
{
    if n > 0 {
        lemma_chunk_run_ok(words, n - 1);
        let prev = chunk_run(words, n - 1);
        if closes_after(words, n - 1, n - prev.1) {
            let c = prev.0.push((prev.1, n));
            assert forall|k: int, i: int|
                #![trigger c[k], words[i]]
                0 <= k < c.len() && c[k].0 <= i < c[k].1 - 1 implies !ends_with_break_spec(
                words[i].text@,
            ) && !words[i].pause_after by {
                if k < prev.0.len() {
                    assert(c[k] == prev.0[k]);
                }
            }
            assert forall|k: int| 0 <= k < c.len() - 1 implies #[trigger] c[k].1 == c[k + 1].0 by {
                assert(c[k] == prev.0[k]);
                if k + 1 < prev.0.len() {
                    assert(c[k + 1] == prev.0[k + 1]);
                }
            }
            assert forall|k: int| 0 <= k < c.len() implies 1 <= #[trigger] c[k].1 - c[k].0
                <= CHUNK_MAX_WORDS by {
                if k < prev.0.len() {
                    assert(c[k] == prev.0[k]);
                }
            }
            if prev.0.len() > 0 {
                assert(c[0] == prev.0[0]);
            }
        }
    }
}

/// Captions are cut well (see `captions_well_cut`): in order, one after
/// another, never more than `CHUNK_MAX_WORDS` words, and never across
/// break punctuation or a pause.
pub proof fn lemma_captions_well_cut(words: Seq<CaptionWord>)
    ensures
        captions_well_cut(words, chunk_bounds(words)),
{
    lemma_chunk_run_ok(words, words.len() as int);
    let run = chunk_run(words, words.len() as int);
    if words.len() > 0 {
        let n = words.len() as int;
        let prev = chunk_run(words, n - 1);
        assert(closes_after(words, n - 1, n - prev.1));
    }
}

/// A word's text breaks a caption exactly when, trimmed, it is non-empty and
/// ends in `.`, `,`, `!`, `?`, `;` or `:`.
pub proof fn lemma_break_characters(text: Seq<char>)
    ensures
        ends_with_break_spec(text) <==> ({
            let t = trim(text);
            &&& t.len() > 0
            &&& {
                let c = t.last();
                c == '.' || c == ',' || c == '!' || c == '?' || c == ';' || c == ':'
            }
        }),
{
    let t = trim(text);
    if t.len() > 0 {
        let c = t.last();
        let b = break_punctuation();
        if c == '.' {
            assert(b[0] == c);
        } else if c == ',' {
            assert(b[1] == c);
        } else if c == '!' {
            assert(b[2] == c);
        } else if c == '?' {
            assert(b[3] == c);
        } else if c == ';' {
            assert(b[4] == c);
        } else if c == ':' {
            assert(b[5] == c);
        }
        if b.contains(c) {
            let k = choose|k: int| 0 <= k < b.len() && b[k] == c;
            assert(0 <= k < 6);
        }
    }
}

/// Whether a word's trimmed text is non-empty and ends in `.`, `,`, `!`,
/// `?`, `;` or `:`.
pub open spec fn ends_in_break_char(text: Seq<char>) -> bool {
    let t = trim(text);
    t.len() > 0 && (t.last() == '.' || t.last() == ',' || t.last() == '!' || t.last() == '?'
        || t.last() == ';' || t.last() == ':')
}

spec fn covered_by(chunks: Seq<(int, int)>, k: int, i: int) -> bool {
    exists|m: int| 0 <= m <= k && #[trigger] chunks[m].0 <= i < chunks[m].1
}

proof fn lemma_chunks_cover(words: Seq<CaptionWord>, chunks: Seq<(int, int)>, k: int)
    requires
        captions_well_cut(words, chunks),
        0 <= k < chunks.len(),
    ensures
        forall|i: int| 0 <= i < chunks[k].1 ==> #[trigger] covered_by(chunks, k, i),
    decreases k,
{
    if k > 0 {
        lemma_chunks_cover(words, chunks, k - 1);
        assert(chunks[k - 1].1 == chunks[k].0);
        assert forall|i: int| 0 <= i < chunks[k].1 implies #[trigger] covered_by(chunks, k, i) by {
            if i < chunks[k - 1].1 {
                assert(covered_by(chunks, k - 1, i));
                let m = choose|m: int| 0 <= m <= k - 1 && #[trigger] chunks[m].0 <= i < chunks[m].1;
                assert(chunks[m].0 <= i < chunks[m].1);
            } else {
                assert(chunks[k].0 <= i < chunks[k].1);
            }
        }
    } else {
        assert(words.len() > 0 ==> chunks[0].0 == 0);
        assert forall|i: int| 0 <= i < chunks[k].1 implies #[trigger] covered_by(chunks, k, i) by {
            assert(chunks[0].0 <= i < chunks[0].1);
        }
    }
}

/// A word whose trimmed text ends in `.`, `,`, `!`, `?`, `;` or `:`, or that
/// comes before a pause, is the last word of its caption: some caption ends
/// right after it.
pub proof fn lemma_caption_ends_at_breaks(words: Seq<CaptionWord>)
    ensures
        forall|i: int|
            0 <= i < words.len() && (ends_in_break_char(#[trigger] words[i].text@)
                || words[i].pause_after) ==> exists|k: int|
                0 <= k < chunk_bounds(words).len() && #[trigger] chunk_bounds(words)[k].1 == i + 1,
{
    let chunks = chunk_bounds(words);
    lemma_captions_well_cut(words);
    assert forall|i: int|
        0 <= i < words.len() && (ends_in_break_char(#[trigger] words[i].text@)
            || words[i].pause_after) implies exists|k: int|
        0 <= k < chunks.len() && #[trigger] chunks[k].1 == i + 1 by {
        lemma_break_characters(words[i].text@);
        let last = chunks.len() - 1;
        lemma_chunks_cover(words, chunks, last);
        assert(covered_by(chunks, last, i));
        let m = choose|m: int| 0 <= m <= last && #[trigger] chunks[m].0 <= i < chunks[m].1;
        assert(chunks[m].0 <= i < chunks[m].1);
        if i < chunks[m].1 - 1 {
            assert(!ends_with_break_spec(words[i].text@) && !words[i].pause_after);
        }
        assert(chunks[m].1 == i + 1);
    }
}

/// Whether a caption holding `len` words up to word `i` closes there, in
/// the rule's own terms: at the last word, at a word ending in `.`, `,`,
/// `!`, `?`, `;` or `:`, before a pause, at three words, or at two words
/// that last long enough to read.
pub open spec fn caption_closes_here(words: Seq<CaptionWord>, i: int, len: int) -> bool {
    ||| i + 1 == words.len()
    ||| ends_in_break_char(words[i].text@)
    ||| words[i].pause_after
    ||| len >= 3
    ||| (len >= 2 && words[i].lasts_with_prev)
}

spec fn reasons_ok(words: Seq<CaptionWord>, n: int, run: (Seq<(int, int)>, int)) -> bool {
    let chunks = run.0;
    let start = run.1;
    &&& forall|k: int|
        0 <= k < chunks.len() ==> closes_after(
            words,
            (#[trigger] chunks[k]).1 - 1,
            chunks[k].1 - chunks[k].0,
        )
    &&& forall|k: int, i: int|
        #![trigger chunks[k], words[i]]
        0 <= k < chunks.len() && chunks[k].0 <= i < chunks[k].1 - 1 ==> !closes_after(
            words,
            i,
            i - chunks[k].0 + 1,
        )
    &&& forall|i: int| #![trigger words[i]] start <= i < n ==> !closes_after(words, i, i - start + 1)
    &&& forall|k: int| 0 <= k < chunks.len() ==> 0 <= (#[trigger] chunks[k]).0 < chunks[k].1 <= n
}

proof fn lemma_chunk_run_reasons(words: Seq<CaptionWord>, n: int)
    requires
        0 <= n <= words.len(),
    ensures
        reasons_ok(words, n, chunk_run(words, n)),
    decreases n,
{
    if n > 0 {
        lemma_chunk_run_reasons(words, n - 1);
        lemma_chunk_run_ok(words, n - 1);
        let prev = chunk_run(words, n - 1);
        if closes_after(words, n - 1, n - prev.1) {
            let c = prev.0.push((prev.1, n));
            assert forall|k: int| 0 <= k < c.len() implies closes_after(
                words,
                (#[trigger] c[k]).1 - 1,
                c[k].1 - c[k].0,
            ) && 0 <= c[k].0 < c[k].1 <= n by {
                if k < prev.0.len() {
                    assert(c[k] == prev.0[k]);
                }
            }
            assert forall|k: int, i: int|
                #![trigger c[k], words[i]]
                0 <= k < c.len() && c[k].0 <= i < c[k].1 - 1 implies !closes_after(
                words,
                i,
                i - c[k].0 + 1,
            ) by {
                if k < prev.0.len() {
                    assert(c[k] == prev.0[k]);
                }
            }
        }
    }
}

/// The rule's terms agree with how chunking decides.
proof fn lemma_closes_after_literal(words: Seq<CaptionWord>, i: int, len: int)
    requires
        0 <= i < words.len(),
    ensures
        closes_after(words, i, len) == caption_closes_here(words, i, len),
{
    lemma_break_characters(words[i].text@);
}

/// Each caption ends at the first of its words where the rule closes a
/// caption (see `caption_closes_here`), counting the words from the
/// caption's start: the rule holds at its last word and at no word before.
pub proof fn lemma_captions_close_by_rule(words: Seq<CaptionWord>)
    ensures
        forall|k: int|
            0 <= k < chunk_bounds(words).len() ==> caption_closes_here(
                words,
                (#[trigger] chunk_bounds(words)[k]).1 - 1,
                chunk_bounds(words)[k].1 - chunk_bounds(words)[k].0,
            ),
        forall|k: int, i: int|
            #![trigger chunk_bounds(words)[k], words[i]]
            0 <= k < chunk_bounds(words).len() && chunk_bounds(words)[k].0 <= i
                < chunk_bounds(words)[k].1 - 1 ==> !caption_closes_here(
                words,
                i,
                i - chunk_bounds(words)[k].0 + 1,
            ),
{
    let chunks = chunk_bounds(words);
    lemma_chunk_run_reasons(words, words.len() as int);
    assert forall|k: int| 0 <= k < chunks.len() implies caption_closes_here(
        words,
        (#[trigger] chunks[k]).1 - 1,
        chunks[k].1 - chunks[k].0,
    ) by {
        lemma_closes_after_literal(words, chunks[k].1 - 1, chunks[k].1 - chunks[k].0);
    }
    assert forall|k: int, i: int|
        #![trigger chunks[k], words[i]]
        0 <= k < chunks.len() && chunks[k].0 <= i < chunks[k].1 - 1 implies !caption_closes_here(
        words,
        i,
        i - chunks[k].0 + 1,
    ) by {
        lemma_closes_after_literal(words, i, i - chunks[k].0 + 1);
    }
}

/// The timestamp `HH:MM:SS,mmm` of a time in milliseconds (negative times as zero).
pub open spec fn srt_time_spec(total_ms: int) -> Seq<char> {
    let t = if total_ms < 0 {
        0
    } else {
        total_ms
    };
    let h = t / 3600000;
    let rem = t % 3600000;
    let m = rem / 60000;
    let rem2 = rem % 60000;
    let s = rem2 / 1000;
    let ms = rem2 % 1000;
    zero_padded(h as nat, 2) + seq![':'] + zero_padded(m as nat, 2) + seq![':'] + zero_padded(
        s as nat,
        2,
    ) + seq![','] + zero_padded(ms as nat, 3)
}

/// Formats a time in milliseconds as an SRT timestamp `HH:MM:SS,mmm`.
pub fn srt_timestamp_ms(total_ms: i64) -> (r: String)
    ensures
        r@ == srt_time_spec(total_ms as int),
{
    let t: u64 = if total_ms < 0 {
        0
    } else {
        total_ms as u64
    };
    let h = t / 3600000;
    let rem = t % 3600000;
    let m = rem / 60000;
    let rem2 = rem % 60000;
    let s = rem2 / 1000;
    let ms = rem2 % 1000;
    let mut out = String::new();
    push_zero_padded(&mut out, h, 2);
    push_char(&mut out, ':');
    push_zero_padded(&mut out, m, 2);
    push_char(&mut out, ':');
    push_zero_padded(&mut out, s, 2);
    push_char(&mut out, ',');
    push_zero_padded(&mut out, ms, 3);
    assert(out@ =~= srt_time_spec(total_ms as int));
    out
}

/// The fields of an SRT timestamp add back up to the time (negative times
/// as zero), with minutes and seconds below 60 and milliseconds below 1000.
pub proof fn lemma_srt_time_fields(total_ms: int)
    ensures
        ({
            let t = if total_ms < 0 {
                0
            } else {
                total_ms
            };
            let h = t / 3600000;
            let rem = t % 3600000;
            let m = rem / 60000;
            let rem2 = rem % 60000;
            let s = rem2 / 1000;
            let ms = rem2 % 1000;
            &&& h * 3600000 + m * 60000 + s * 1000 + ms == t
            &&& 0 <= m < 60
            &&& 0 <= s < 60
            &&& 0 <= ms < 1000
        }),
{
}

/// An SRT timestamp reads back as its time (negative times as zero): it is
/// `H:MM:SS,mmm` with at least two hour digits, two-digit minutes and seconds
/// below 60 and three-digit milliseconds, whose fields add up to the time.
pub proof fn lemma_srt_timestamp_reads_back(total_ms: int)
    ensures
        ({
            let r = srt_time_spec(total_ms);
            let l = r.len() as int;
            let t = if total_ms < 0 {
                0
            } else {
                total_ms
            };
            let hh = r.subrange(0, l - 10);
            let mm = r.subrange(l - 9, l - 7);
            let ss = r.subrange(l - 6, l - 4);
            let ms = r.subrange(l - 3, l);
            &&& l >= 12
            &&& r[l - 10] == ':' && r[l - 7] == ':' && r[l - 4] == ','
            &&& all_digits(hh) && all_digits(mm) && all_digits(ss) && all_digits(ms)
            &&& digits_value(mm) < 60 && digits_value(ss) < 60
            &&& digits_value(hh) * 3600000 + digits_value(mm) * 60000 + digits_value(ss) * 1000
                + digits_value(ms) == t
        }),
{
    let t = if total_ms < 0 {
        0
    } else {
        total_ms
    };
    let h = t / 3600000;
    let rem = t % 3600000;
    let m = rem / 60000;
    let rem2 = rem % 60000;
    let s = rem2 / 1000;
    let ms = rem2 % 1000;
    lemma_srt_time_fields(total_ms);
    assert(pow10(2) == 100) by {
        reveal_with_fuel(pow10, 3);
    }
    assert(pow10(3) == 1000) by {
        reveal_with_fuel(pow10, 4);
    }
    lemma_zero_padded(h as nat, 2);
    lemma_zero_padded(m as nat, 2);
    lemma_zero_padded(s as nat, 2);
    lemma_zero_padded(ms as nat, 3);
    let a = zero_padded(h as nat, 2);
    let b = zero_padded(m as nat, 2);
    let c = zero_padded(s as nat, 2);
    let d = zero_padded(ms as nat, 3);
    let r = srt_time_spec(total_ms);
    assert(r == a + seq![':'] + b + seq![':'] + c + seq![','] + d);
    let l = r.len() as int;
    assert(r.subrange(0, l - 10) =~= a);
    assert(r.subrange(l - 9, l - 7) =~= b);
    assert(r.subrange(l - 6, l - 4) =~= c);
    assert(r.subrange(l - 3, l) =~= d);
}

/// A caption with its times in milliseconds on the output timeline.
pub struct TimedCue {
    pub start_ms: i64,
    pub end_ms: i64,
    pub text: String,
}

/// The lines of an SRT document: for each cue its number (from 1), its
/// `start --> end` line, its text and a blank line.
pub open spec fn srt_lines(cues: Seq<TimedCue>) -> Seq<Seq<char>>
    decreases cues.len(),
{
    if cues.len() == 0 {
        Seq::empty()
    } else {
        let c = cues.last();
        srt_lines(cues.drop_last()) + seq![
            decimal(cues.len()),
            srt_time_spec(c.start_ms as int) + " --> "@ + srt_time_spec(c.end_ms as int),
            c.text@,
            Seq::<char>::empty(),
        ]
    }
}

/// Writes cues (in output order) as an SRT document.
pub fn render_srt(cues: &[TimedCue]) -> (r: String)
    ensures
        r@ == join_with(srt_lines(cues@), seq!['\n']),
{
    let mut doc = Joiner::new('\n');
    let mut i: usize = 0;
    while i < cues.len()
        invariant
            i <= cues@.len(),
            doc.wf(),
            doc.sep() == '\n',
            doc.parts() == srt_lines(cues@.subrange(0, i as int)),
        decreases cues.len() - i,
    {
        let ghost before = doc.parts();
        let c = &cues[i];
        let number = decimal_text((i as u64) + 1);
        doc.push(number.as_str());
        let mut span = srt_timestamp_ms(c.start_ms);
        push_str(&mut span, " --> ");
        let end = srt_timestamp_ms(c.end_ms);
        push_str(&mut span, end.as_str());
        doc.push(span.as_str());
        doc.push(c.text.as_str());
        doc.push("");
        proof {
            reveal_strlit("");
            let sub = cues@.subrange(0, i + 1);
            assert(sub.drop_last() =~= cues@.subrange(0, i as int));
            assert(sub.last() == cues@[i as int]);
            assert(sub.len() == i + 1);
            assert(""@ =~= Seq::<char>::empty());
            assert(srt_lines(sub) == srt_lines(cues@.subrange(0, i as int)) + seq![
                decimal(sub.len()),
                srt_time_spec(c.start_ms as int) + " --> "@ + srt_time_spec(c.end_ms as int),
                c.text@,
                Seq::<char>::empty(),
            ]);
            assert(doc.parts() =~= srt_lines(sub));
        }
        i = i + 1;
    }
    assert(cues@.subrange(0, cues@.len() as int) =~= cues@);
    doc.finish()
}

fn decimal_text(n: u64) -> (r: String)
    ensures
        r@ == decimal(n as nat),
{
    let mut s = String::new();
    push_decimal(&mut s, n);
    assert(s@ =~= decimal(n as nat));
    s
}

/// The trimmed texts of the words that have visible text, in order.
pub open spec fn visible_texts(texts: Seq<Option<String>>) -> Seq<Seq<char>>
    decreases texts.len(),
{
    if texts.len() == 0 {
        Seq::empty()
    } else {
        let rest = visible_texts(texts.drop_last());
        match texts.last() {
            Some(t) => if is_blank(t@) {
                rest
            } else {
                rest.push(trim(t@))
            },
            None => rest,
        }
    }
}

/// The caption of a chunk of words before case mapping: the visible word
/// texts joined by spaces, white-space runs collapsed, trimmed, and trailing
/// `,`, `;`, `:` removed.
pub open spec fn caption_words_spec(texts: Seq<Option<String>>) -> Seq<char> {
    trim_end_any(
        trim(collapse_white_space(join_with(visible_texts(texts), seq![' ']))),
        seq![',', ';', ':'],
    )
}

/// What shaping leaves of a caption's text: the joined, collapsed, trimmed
/// text with trailing `,`, `;` and `:` removed and nothing else: the caption
/// is a prefix of that text, every character cut from its end is `,`, `;` or
/// `:`, and the caption, when non-empty, ends in none of them.
pub proof fn lemma_caption_trailing_cut(texts: Seq<Option<String>>)
    ensures
        ({
            let s = trim(collapse_white_space(join_with(visible_texts(texts), seq![' '])));
            let c = caption_words_spec(texts);
            &&& c.len() <= s.len()
            &&& c == s.subrange(0, c.len() as int)
            &&& forall|m: int|
                c.len() <= m < s.len() ==> (#[trigger] s[m] == ',' || s[m] == ';' || s[m] == ':')
            &&& c.len() > 0 ==> c.last() != ',' && c.last() != ';' && c.last() != ':'
        }),
{
    let s = trim(collapse_white_space(join_with(visible_texts(texts), seq![' '])));
    lemma_trim_end_any_cut(s, seq![',', ';', ':']);
    let c = caption_words_spec(texts);
    let set = seq![',', ';', ':'];
    assert forall|m: int| c.len() <= m < s.len() implies (#[trigger] s[m] == ',' || s[m] == ';'
        || s[m] == ':') by {
        assert(set.contains(s[m]));
        let k = choose|k: int| 0 <= k < set.len() && set[k] == s[m];
        assert(k == 0 || k == 1 || k == 2);
    }
    if c.len() > 0 {
        if c.last() == ',' {
            assert(set[0] == c.last());
        } else if c.last() == ';' {
            assert(set[1] == c.last());
        } else if c.last() == ':' {
            assert(set[2] == c.last());
        }
    }
}

proof fn lemma_trim_end_any_cut(s: Seq<char>, set: Seq<char>)
    ensures
        trim_end_any(s, set).len() <= s.len(),
        trim_end_any(s, set) == s.subrange(0, trim_end_any(s, set).len() as int),
        forall|m: int|
            trim_end_any(s, set).len() <= m < s.len() ==> set.contains(#[trigger] s[m]),
        trim_end_any(s, set).len() > 0 ==> !set.contains(trim_end_any(s, set).last()),
    decreases s.len(),
{
    if s.len() > 0 && set.contains(s.last()) {
        let d = s.drop_last();
        lemma_trim_end_any_cut(d, set);
        let r = trim_end_any(d, set);
        assert(d.subrange(0, r.len() as int) =~= s.subrange(0, r.len() as int));
        assert forall|m: int| r.len() <= m < s.len() implies set.contains(#[trigger] s[m]) by {
            if m < d.len() {
                assert(s[m] == d[m]);
            }
        }
    } else {
        assert(s.subrange(0, s.len() as int) =~= s);
    }
}

/// The text with every run of white space replaced by a single space, by the
/// `regex` crate's `Regex::replace_all` with the pattern `\s+` (Unicode
/// `White_Space`) and the replacement `" "`.
#[verifier::external_body]
fn collapse_white_space_runs(text: &str) -> (r: String)
    ensures
        r@ == collapse_white_space(text@),
{
    regex::Regex::new(r"\s+").unwrap().replace_all(text, " ").into_owned()
}

/// The text in upper case, by `str::to_uppercase` (Unicode case mapping).
pub uninterp spec fn uppercase(s: Seq<char>) -> Seq<char>;

/// The upper-case form of `s`, by `str::to_uppercase`.
#[verifier::external_body]
fn to_upper(s: &str) -> (r: String)
    ensures
        r@ == uppercase(s@),
{
    s.to_uppercase()
}

/// The caption of a chunk of words before case mapping.
pub fn caption_words(texts: &[Option<String>]) -> (r: String)
    ensures
        r@ == caption_words_spec(texts@),
{
    let mut joined = Joiner::new(' ');
    let mut i: usize = 0;
    while i < texts.len()
        invariant
            i <= texts@.len(),
            joined.wf(),
            joined.sep() == ' ',
            joined.parts() == visible_texts(texts@.subrange(0, i as int)),
        decreases texts.len() - i,
    {
        let ghost sub = texts@.subrange(0, i + 1);
        proof {
            assert(sub.drop_last() =~= texts@.subrange(0, i as int));
        }
        match &texts[i] {
            Some(t) => {
                let v = chars_of(t.as_str());
                let (lo, hi) = trim_bounds(&v);
                if lo < hi {
                    let trimmed = string_of(&v, lo, hi);
                    joined.push(trimmed.as_str());
                }
            },
            None => {},
        }
        i = i + 1;
    }
    assert(texts@.subrange(0, texts@.len() as int) =~= texts@);
    let raw = joined.finish();
    let collapsed = collapse_white_space_runs(raw.as_str());
    let v = chars_of(collapsed.as_str());
    let (lo, hi) = trim_bounds(&v);
    let mut end = hi;
    let ghost t = v@.subrange(lo as int, hi as int);
    while end > lo && (v[end - 1] == ',' || v[end - 1] == ';' || v[end - 1] == ':')
        invariant
            lo <= end <= hi <= v@.len(),
            t == v@.subrange(lo as int, hi as int),
            trim_end_any(t, seq![',', ';', ':']) == trim_end_any(
                v@.subrange(lo as int, end as int),
                seq![',', ';', ':'],
            ),
        decreases end,
    {
        proof {
            let s = v@.subrange(lo as int, end as int);
            assert(s.last() == v@[end - 1]);
            assert(seq![',', ';', ':'].contains(s.last())) by {
                if s.last() == ',' {
                    assert(seq![',', ';', ':'][0] == s.last());
                } else if s.last() == ';' {
                    assert(seq![',', ';', ':'][1] == s.last());
                } else {
                    assert(seq![',', ';', ':'][2] == s.last());
                }
            }
            assert(s.drop_last() =~= v@.subrange(lo as int, end - 1));
        }
        end = end - 1;
    }
    proof {
        let s = v@.subrange(lo as int, end as int);
        if s.len() > 0 {
            assert(s.last() == v@[end - 1]);
            if seq![',', ';', ':'].contains(s.last()) {
                let k = choose|k: int| 0 <= k < 3 && seq![',', ';', ':'][k] == s.last();
                assert(k == 0 || k == 1 || k == 2);
            }
        }
    }
    string_of(&v, lo, end)
}

/// The text of a caption: its words joined, tidied and upper-cased.
pub fn cue_text(texts: &[Option<String>]) -> (r: String)
    ensures
        r@ == uppercase(caption_words_spec(texts@)),
{
    let words = caption_words(texts);
    to_upper(words.as_str())
}

} // verus!
