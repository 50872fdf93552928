//! Transcript packing: the text of a phrase from its words, speaker tags, and
//! the phrase-level markdown view of all takes.
use crate::text::{
    Joiner, chars_eq, chars_of, decimal, is_blank, is_white_space, join_with, lemma_join_edges,
    lemma_replace_all_first, lemma_replace_all_last, lemma_trim_edges, lemma_trim_of_tidy,
    push_char, push_decimal, push_str, replace_all, replace_str, str_eq, string_of, trim,
    trim_bounds,
};
use vstd::prelude::*;

verus! {

/// The word type a transcript word has when it names none: `"word"`.
pub fn default_word_type() -> (r: String)
    ensures
        r@ == "word"@,
{
    "word".to_owned()
}

/// What a phrase's text is made of: a word's type and its text.
pub struct WordToken {
    pub word_type: String,
    pub text: Option<String>,
}

/// The text a word adds to its phrase: its trimmed text, an audio event in
/// parentheses; nothing for a word without visible text.
pub open spec fn word_part(w: WordToken) -> Option<Seq<char>> {
    let raw = match w.text {
        Some(t) => trim(t@),
        None => Seq::empty(),
    };
    if raw.len() == 0 {
        None
    } else if w.word_type@ == "audio_event"@ && raw[0] != '(' {
        Some(seq!['('] + raw + seq![')'])
    } else {
        Some(raw)
    }
}

/// The parts that the words add, in order.
pub open spec fn phrase_parts(words: Seq<WordToken>) -> Seq<Seq<char>>
    decreases words.len(),
{
    if words.len() == 0 {
        Seq::empty()
    } else {
        let rest = phrase_parts(words.drop_last());
        match word_part(words.last()) {
            Some(p) => rest.push(p),
            None => rest,
        }
    }
}

/// A phrase's text: its parts joined by spaces, with the space before
/// `,` `.` `?` `!` removed; `None` when no word has visible text.
pub open spec fn phrase_text_spec(words: Seq<WordToken>) -> Option<Seq<char>> {
    let parts = phrase_parts(words);
    if parts.len() == 0 {
        None
    } else {
        let j = join_with(parts, seq![' ']);
        Some(
            replace_all(
                replace_all(replace_all(replace_all(j, " ,"@, ","@), " ."@, "."@), " ?"@, "?"@),
                " !"@,
                "!"@,
            ),
        )
    }
}

/// Whether a text is non-empty and neither starts nor ends with white space.
pub open spec fn is_tidy(t: Seq<char>) -> bool {
    t.len() > 0 && !is_white_space(t[0]) && !is_white_space(t.last())
}

proof fn lemma_word_part_tidy(w: WordToken)
    ensures
        word_part(w) matches Some(p) ==> is_tidy(p),
{
    let raw = match w.text {
        Some(t) => trim(t@),
        None => Seq::empty(),
    };
    if let Some(t) = w.text {
        lemma_trim_edges(t@);
    }
    if raw.len() > 0 && w.word_type@ == "audio_event"@ && raw[0] != '(' {
        let p = seq!['('] + raw + seq![')'];
        assert(p[0] == '(');
        assert(p.last() == ')');
        assert(('(' as u32) == 0x28);
        assert((')' as u32) == 0x29);
    }
}

proof fn lemma_parts_tidy(words: Seq<WordToken>)
    ensures
        forall|i: int| 0 <= i < phrase_parts(words).len() ==> is_tidy(#[trigger] phrase_parts(words)[i]),
    decreases words.len(),
{
    if words.len() > 0 {
        lemma_parts_tidy(words.drop_last());
        lemma_word_part_tidy(words.last());
        let rest = phrase_parts(words.drop_last());
        let all = phrase_parts(words);
        assert forall|i: int| 0 <= i < all.len() implies is_tidy(#[trigger] all[i]) by {
            if i < rest.len() {
                assert(all[i] == rest[i]);
            }
        }
    }
}

/// A phrase's text is never empty and is already trimmed.
pub proof fn lemma_phrase_text_tidy(words: Seq<WordToken>)
    ensures
        phrase_text_spec(words) matches Some(t) ==> t.len() > 0 && trim(t) == t,
{
    let parts = phrase_parts(words);
    if parts.len() > 0 {
        lemma_parts_tidy(words);
        let sp = seq![' '];
        lemma_join_edges(parts, sp);
        let j = join_with(parts, sp);
        assert(is_tidy(parts[0]));
        assert(is_tidy(parts.last()));
        assert(is_white_space(' '));
        reveal_strlit(" ,");
        reveal_strlit(" .");
        reveal_strlit(" ?");
        reveal_strlit(" !");
        reveal_strlit(",");
        reveal_strlit(".");
        reveal_strlit("?");
        reveal_strlit("!");
        lemma_replace_all_first(j, " ,"@, ","@);
        lemma_replace_all_last(j, " ,"@, ","@);
        let a = replace_all(j, " ,"@, ","@);
        lemma_replace_all_first(a, " ."@, "."@);
        lemma_replace_all_last(a, " ."@, "."@);
        let b = replace_all(a, " ."@, "."@);
        lemma_replace_all_first(b, " ?"@, "?"@);
        lemma_replace_all_last(b, " ?"@, "?"@);
        let c = replace_all(b, " ?"@, "?"@);
        lemma_replace_all_first(c, " !"@, "!"@);
        lemma_replace_all_last(c, " !"@, "!"@);
        let d = replace_all(c, " !"@, "!"@);
        lemma_trim_of_tidy(d);
    }
}

fn word_part_exec(w: &WordToken) -> (r: Option<String>)
    ensures
        match r {
            Some(s) => word_part(*w) == Some(s@),
            None => word_part(*w) is None,
        },
{
    let raw = match &w.text {
        Some(t) => {
            let v = chars_of(t.as_str());
            let (lo, hi) = trim_bounds(&v);
            string_of(&v, lo, hi)
        },
        None => String::new(),
    };
    let rv = chars_of(raw.as_str());
    if rv.len() == 0 {
        return None;
    }
    if str_eq(w.word_type.as_str(), "audio_event") && rv[0] != '(' {
        let mut s = String::new();
        push_char(&mut s, '(');
        push_str(&mut s, raw.as_str());
        push_char(&mut s, ')');
        assert(s@ =~= seq!['('] + raw@ + seq![')']);
        Some(s)
    } else {
        Some(raw)
    }
}

/// The text of a phrase made of `words`, or `None` when none has visible text.
pub fn phrase_text(words: &[WordToken]) -> (r: Option<String>)
    ensures
        match r {
            Some(s) => phrase_text_spec(words@) == Some(s@),
            None => phrase_text_spec(words@) is None,
        },
{
    let mut joined = Joiner::new(' ');
    let mut any = false;
    let mut i: usize = 0;
    while i < words.len()
        invariant
            i <= words@.len(),
            joined.wf(),
            joined.sep() == ' ',
            joined.parts() == phrase_parts(words@.subrange(0, i as int)),
            any == (joined.parts().len() > 0),
        decreases words.len() - i,
    {
        proof {
            assert(words@.subrange(0, i + 1).drop_last() =~= words@.subrange(0, i as int));
        }
        match word_part_exec(&words[i]) {
            Some(p) => {
                joined.push(p.as_str());
                any = true;
            },
            None => {},
        }
        i = i + 1;
    }
    assert(words@.subrange(0, words@.len() as int) =~= words@);
    if !any {
        return None;
    }
    let j = joined.finish();
    proof {
        reveal_strlit(" ,");
        reveal_strlit(" .");
        reveal_strlit(" ?");
        reveal_strlit(" !");
    }
    let a = replace_str(j.as_str(), " ,", ",");
    let b = replace_str(a.as_str(), " .", ".");
    let c = replace_str(b.as_str(), " ?", "?");
    let d = replace_str(c.as_str(), " !", "!");
    Some(d)
}

/// The speaker tag of a phrase line: ` S` and the speaker id without a
/// leading `speaker_`; empty without a speaker.
pub open spec fn speaker_tag_spec(speaker: Option<Seq<char>>) -> Seq<char> {
    match speaker {
        None => Seq::empty(),
        Some(s) => {
            let p = "speaker_"@;
            let id = if p.len() <= s.len() && s.subrange(0, p.len() as int) == p {
                s.subrange(p.len() as int, s.len() as int)
            } else {
                s
            };
            " S"@ + id
        },
    }
}

/// The speaker tag of a phrase line, e.g. ` S0` for `speaker_0`.
pub fn speaker_tag(speaker: Option<&str>) -> (r: String)
    ensures
        r@ == speaker_tag_spec(
            match speaker {
                Some(s) => Some(s@),
                None => None,
            },
        ),
{
    match speaker {
        None => String::new(),
        Some(s) => {
            let v = chars_of(s);
            let p = chars_of("speaker_");
            let mut out = String::new();
            push_str(&mut out, " S");
            if p.len() <= v.len() && chars_eq(&v, 0, p.len(), &p) {
                let rest = string_of(&v, p.len(), v.len());
                push_str(&mut out, rest.as_str());
            } else {
                push_str(&mut out, s);
            }
            out
        },
    }
}

/// A phrase as the markdown view shows it, its times already formatted.
pub struct PhraseLine {
    pub start: String,
    pub end: String,
    pub text: String,
    pub speaker_id: Option<String>,
}

/// One take of the markdown view: its name, formatted duration and phrases.
pub struct TakeSection {
    pub name: String,
    pub duration: String,
    pub phrases: Vec<PhraseLine>,
}

/// The line of one phrase: `  [start-end]` then the speaker tag, a space and the text.
pub open spec fn phrase_line_spec(p: PhraseLine) -> Seq<char> {
    "  ["@ + p.start@ + "-"@ + p.end@ + "]"@ + speaker_tag_spec(
        match p.speaker_id {
            Some(s) => Some(s@),
            None => None,
        },
    ) + " "@ + p.text@
}

/// The lines of a take's phrases.
pub open spec fn phrase_lines(phrases: Seq<PhraseLine>) -> Seq<Seq<char>>
    decreases phrases.len(),
{
    if phrases.len() == 0 {
        Seq::empty()
    } else {
        phrase_lines(phrases.drop_last()).push(phrase_line_spec(phrases.last()))
    }
}

/// The lines of one take: its heading, then its phrases or a note that it has
/// none, then a blank line.
pub open spec fn section_lines(e: TakeSection) -> Seq<Seq<char>> {
    let heading = "## "@ + e.name@ + "  (duration: "@ + e.duration@ + ", "@ + decimal(
        e.phrases@.len(),
    ) + " phrases)"@;
    if e.phrases@.len() == 0 {
        seq![heading, "  _no speech detected_"@, Seq::<char>::empty()]
    } else {
        seq![heading] + phrase_lines(e.phrases@) + seq![Seq::<char>::empty()]
    }
}

/// The lines of the markdown view: a header naming the silence threshold,
/// then each take.
pub open spec fn markdown_lines(threshold: Seq<char>, entries: Seq<TakeSection>) -> Seq<
    Seq<char>,
>
    decreases entries.len(),
{
    if entries.len() == 0 {
        seq![
            "# Packed transcripts"@,
            Seq::<char>::empty(),
            "Phrase-level, grouped on silences ≥ "@ + threshold + "s or speaker change."@,
            "Use `[start-end]` ranges to address cuts in the EDL."@,
            Seq::<char>::empty(),
        ]
    } else {
        markdown_lines(threshold, entries.drop_last()) + section_lines(entries.last())
    }
}

/// Renders the phrase-level markdown view of all takes; `threshold` is the
/// silence threshold as it is to be printed.
pub fn render_markdown_document(threshold: &str, entries: &[TakeSection]) -> (r: String)
    ensures
        r@ == join_with(markdown_lines(threshold@, entries@), seq!['\n']),
{
    proof {
        reveal_strlit("");
    }
    let mut doc = Joiner::new('\n');
    doc.push("# Packed transcripts");
    doc.push("");
    let mut intro = String::new();
    push_str(&mut intro, "Phrase-level, grouped on silences ≥ ");
    push_str(&mut intro, threshold);
    push_str(&mut intro, "s or speaker change.");
    doc.push(intro.as_str());
    doc.push("Use `[start-end]` ranges to address cuts in the EDL.");
    doc.push("");
    assert(entries@.subrange(0, 0).len() == 0);
    assert(""@ =~= Seq::<char>::empty());
    assert(doc.parts() =~= markdown_lines(threshold@, entries@.subrange(0, 0)));
    let mut i: usize = 0;
    while i < entries.len()
        invariant
            i <= entries@.len(),
            doc.wf(),
            doc.sep() == '\n',
            doc.parts() == markdown_lines(threshold@, entries@.subrange(0, i as int)),
        decreases entries.len() - i,
    {
        let e = &entries[i];
        let ghost before = doc.parts();
        let mut heading = String::new();
        push_str(&mut heading, "## ");
        push_str(&mut heading, e.name.as_str());
        push_str(&mut heading, "  (duration: ");
        push_str(&mut heading, e.duration.as_str());
        push_str(&mut heading, ", ");
        push_decimal(&mut heading, e.phrases.len() as u64);
        push_str(&mut heading, " phrases)");
        assert(heading@ =~= "## "@ + e.name@ + "  (duration: "@ + e.duration@ + ", "@ + decimal(
            e.phrases@.len(),
        ) + " phrases)"@);
        proof {
            reveal_strlit("");
        }
        assert(""@ =~= Seq::<char>::empty());
        doc.push(heading.as_str());
        if e.phrases.len() == 0 {
            doc.push("  _no speech detected_");
            doc.push("");
            proof {
                assert(doc.parts() =~= before + section_lines(*e));
            }
        } else {
            let mut j: usize = 0;
            let ghost head = doc.parts();
            while j < e.phrases.len()
                invariant
                    j <= e.phrases@.len(),
                    doc.wf(),
                    doc.sep() == '\n',
                    doc.parts() == head + phrase_lines(e.phrases@.subrange(0, j as int)),
                decreases e.phrases.len() - j,
            {
                let p = &e.phrases[j];
                let mut line = String::new();
                push_str(&mut line, "  [");
                push_str(&mut line, p.start.as_str());
                push_str(&mut line, "-");
                push_str(&mut line, p.end.as_str());
                push_str(&mut line, "]");
                let tag = match &p.speaker_id {
                    Some(s) => speaker_tag(Some(s.as_str())),
                    None => speaker_tag(None),
                };
                push_str(&mut line, tag.as_str());
                push_str(&mut line, " ");
                push_str(&mut line, p.text.as_str());
                doc.push(line.as_str());
                proof {
                    let sub = e.phrases@.subrange(0, j + 1);
                    assert(sub.drop_last() =~= e.phrases@.subrange(0, j as int));
                    assert(line@ =~= phrase_line_spec(e.phrases@[j as int]));
                    assert(doc.parts() =~= head + phrase_lines(sub));
                }
                j = j + 1;
            }
            doc.push("");
            proof {
                assert(e.phrases@.subrange(0, e.phrases@.len() as int) =~= e.phrases@);
                assert(doc.parts() =~= before + section_lines(*e));
            }
        }
        proof {
            let sub = entries@.subrange(0, i + 1);
            assert(sub.drop_last() =~= entries@.subrange(0, i as int));
            assert(sub.last() == *e);
        }
        i = i + 1;
    }
    assert(entries@.subrange(0, entries@.len() as int) =~= entries@);
    doc.finish()
}

} // verus!
