//! Tags: the normalised tokens that queries and cached results are compared by.

use crate::error::EmptyInput;
use vstd::prelude::*;
use vstd::string::StrSliceExecFns;

verus! {

/// Whether `char::is_alphabetic` holds of `c` (Unicode's `Alphabetic`).
pub uninterp spec fn is_alphabetic_char(c: char) -> bool;

/// Whether `c` is white space: one of the twenty-five characters that
/// Unicode gives the `White_Space` mark, which is what `char::is_whitespace`
/// asks for.
pub open spec fn is_whitespace_char(c: char) -> bool {
    let code = c as u32;
    ||| 0x0009 <= code <= 0x000D
    ||| code == 0x0020
    ||| code == 0x0085
    ||| code == 0x00A0
    ||| code == 0x1680
    ||| 0x2000 <= code <= 0x200A
    ||| code == 0x2028
    ||| code == 0x2029
    ||| code == 0x202F
    ||| code == 0x205F
    ||| code == 0x3000
}

/// The text that `str::to_lowercase` returns for `text`.
pub uninterp spec fn lowercase_of(text: Seq<char>) -> Seq<char>;

/// Taken on trust of `char::is_alphabetic`: its answer depends on the
/// character alone, and is what `is_alphabetic_char` names.
pub assume_specification[ char::is_alphabetic ](c: char) -> (b: bool)
    ensures
        b == is_alphabetic_char(c),
;

/// Taken on trust of `char::is_whitespace`: it holds of the characters with
/// Unicode's `White_Space` mark and of no others, which `is_whitespace_char`
/// lists.
pub assume_specification[ char::is_whitespace ](c: char) -> (b: bool)
    ensures
        b == is_whitespace_char(c),
;

/// Taken on trust of `str::to_lowercase`: its answer depends on the text
/// alone, and is what `lowercase_of` names.
pub assume_specification[ str::to_lowercase ](text: &str) -> (lower: String)
    ensures
        lower@ == lowercase_of(text@),
;

/// The two ways in which text is cut into words.
#[derive(Clone, Copy, Debug, PartialEq, Eq, Structural)]
pub enum WordKind {
    /// Words are runs of alphabetic characters; everything else separates.
    Alphabetic,
    /// Words are runs of anything but white space.
    Spaced,
}

impl WordKind {
    /// Whether `c` belongs to a word of this kind.
    pub open spec fn holds(self, c: char) -> bool {
        match self {
            WordKind::Alphabetic => is_alphabetic_char(c),
            WordKind::Spaced => !is_whitespace_char(c),
        }
    }

    /// Decides `holds` for one character.
    pub fn accepts(self, c: char) -> (b: bool)
        ensures
            b == self.holds(c),
    {
        match self {
            WordKind::Alphabetic => c.is_alphabetic(),
            WordKind::Spaced => !c.is_whitespace(),
        }
    }
}

/// For each character of `text`, whether it belongs to a word of this kind.
pub open spec fn marks_of(text: Seq<char>, kind: WordKind) -> Seq<bool> {
    Seq::new(text.len(), |i: int| kind.holds(text[i]))
}

/// The words of `text`, where `marks` says of each character whether it
/// belongs to a word: the maximal non-empty runs of marked characters, from
/// left to right. Given for a text by what its last character adds to the
/// words of the text before it.
pub open spec fn marked_words(text: Seq<char>, marks: Seq<bool>) -> Seq<Seq<char>>
    recommends
        marks.len() == text.len(),
    decreases text.len(),
{
    if text.len() == 0 || marks.len() != text.len() {
        Seq::empty()
    } else {
        let before = marked_words(text.drop_last(), marks.drop_last());
        let c = text.last();
        if !marks.last() {
            before
        } else if text.len() >= 2 && marks[text.len() - 2] {
            before.drop_last().push(before.last().push(c))
        } else {
            before.push(seq![c])
        }
    }
}

/// What one more character adds to the words of a text: nothing, if it is
/// not marked; itself to the last word, if the character before it is marked;
/// and else a word of its own.
pub proof fn lemma_marked_words_push(text: Seq<char>, marks: Seq<bool>, c: char, mark: bool)
    requires
        marks.len() == text.len(),
    ensures
        marked_words(text.push(c), marks.push(mark)) == if !mark {
            marked_words(text, marks)
        } else if marks.len() > 0 && marks.last() {
            marked_words(text, marks).drop_last().push(marked_words(text, marks).last().push(c))
        } else {
            marked_words(text, marks).push(seq![c])
        },
{
    assert(text.push(c).drop_last() == text);
    assert(marks.push(mark).drop_last() == marks);
}

/// The words of `text`: its maximal non-empty runs of characters that belong
/// to a word of this kind, from left to right.
pub open spec fn words(text: Seq<char>, kind: WordKind) -> Seq<Seq<char>> {
    marked_words(text, marks_of(text, kind))
}

/// Where the word that is still open at the end of a text starts: the index
/// after the last unmarked character, or the text's length when it ends in
/// one.
pub open spec fn open_word_start(marks: Seq<bool>) -> int
    decreases marks.len(),
{
    if marks.len() == 0 || !marks.last() {
        marks.len() as int
    } else {
        open_word_start(marks.drop_last())
    }
}

/// The words that are closed at the end of `text`: all of them, but for the
/// one that the last character still belongs to.
pub open spec fn closed_words(text: Seq<char>, marks: Seq<bool>) -> Seq<Seq<char>> {
    if marks.len() > 0 && marks.last() {
        marked_words(text, marks).drop_last()
    } else {
        marked_words(text, marks)
    }
}

/// A text that ends inside a word has that word last, and it is the text from
/// the word's start on.
proof fn lemma_open_word(text: Seq<char>, marks: Seq<bool>)
    requires
        marks.len() == text.len(),
    ensures
        0 <= open_word_start(marks) <= text.len(),
        forall|i: int| open_word_start(marks) <= i < marks.len() ==> marks[i],
        open_word_start(marks) > 0 ==> !marks[open_word_start(marks) - 1],
        marks.len() > 0 && marks.last() ==> {
            &&& open_word_start(marks) < text.len()
            &&& marked_words(text, marks).len() > 0
            &&& marked_words(text, marks).last() == text.subrange(
                open_word_start(marks),
                text.len() as int,
            )
        },
    decreases text.len(),
{
    if text.len() > 0 {
        let head = text.drop_last();
        let head_marks = marks.drop_last();
        lemma_open_word(head, head_marks);
        if marks.last() {
            let start = open_word_start(marks);
            assert forall|i: int| start <= i < marks.len() implies marks[i] by {
                if i < marks.len() - 1 {
                    assert(marks[i] == head_marks[i]);
                }
            }
            if start > 0 {
                assert(marks[start - 1] == head_marks[start - 1]);
            }
            if text.len() >= 2 && marks[text.len() - 2] {
                assert(head_marks.last() == marks[text.len() - 2]);
                assert(text.subrange(start, text.len() as int) == head.subrange(
                    start,
                    head.len() as int,
                ).push(text.last()));
            } else {
                if text.len() >= 2 {
                    assert(head_marks.last() == marks[text.len() - 2]);
                }
                assert(text.subrange(start, text.len() as int) == seq![text.last()]);
            }
        }
    }
}

/// What one more character does to the closed words: an unmarked one closes
/// the open word, if there is one; a marked one closes nothing.
proof fn lemma_closed_words_step(text: Seq<char>, marks: Seq<bool>)
    requires
        text.len() > 0,
        marks.len() == text.len(),
    ensures
        closed_words(text, marks) == if marks.last() || open_word_start(marks.drop_last())
            == text.len() - 1 {
            closed_words(text.drop_last(), marks.drop_last())
        } else {
            closed_words(text.drop_last(), marks.drop_last()).push(
                text.subrange(open_word_start(marks.drop_last()), text.len() - 1),
            )
        },
{
    let head = text.drop_last();
    let head_marks = marks.drop_last();
    lemma_open_word(head, head_marks);
    lemma_open_word(text, marks);
    if head.len() > 0 {
        assert(head_marks.last() == marks[text.len() - 2]);
    }
    let before = marked_words(head, head_marks);
    if marks.last() {
        if text.len() >= 2 && marks[text.len() - 2] {
            assert(before.drop_last().push(before.last().push(text.last())).drop_last()
                == before.drop_last());
        } else {
            assert(before.push(seq![text.last()]).drop_last() == before);
        }
    } else {
        if open_word_start(head_marks) != text.len() - 1 {
            assert(before == before.drop_last().push(before.last()));
            assert(head.subrange(open_word_start(head_marks), head.len() as int) == text.subrange(
                open_word_start(head_marks),
                text.len() - 1,
            ));
        }
    }
}

/// The texts of a list of string slices.
pub open spec fn texts_of(parts: Seq<&str>) -> Seq<Seq<char>> {
    Seq::new(parts.len(), |i: int| parts[i]@)
}

/// Says of each character of `text` whether it belongs to a word of this
/// kind.
pub fn mark_words(text: &str, kind: WordKind) -> (marks: Vec<bool>)
    ensures
        marks@ == marks_of(text@, kind),
{
    let mut marks: Vec<bool> = Vec::new();
    for c in it: text.chars()
        invariant
            it.seq() == text@,
            marks.len() == it.index(),
            forall|i: int| 0 <= i < marks.len() ==> marks[i] == kind.holds(text@[i]),
    {
        marks.push(kind.accepts(c));
    }
    proof {
        assert(marks@ =~= marks_of(text@, kind));
    }
    marks
}

/// Cuts `text` into the words that `marks` marks in it, each a slice of
/// `text`.
pub fn cut_words<'a>(text: &'a str, marks: &[bool]) -> (parts: Vec<&'a str>)
    requires
        marks.len() == text@.len(),
    ensures
        texts_of(parts@) == marked_words(text@, marks@),
{
    let mut parts: Vec<&'a str> = Vec::new();
    let mut start: usize = 0;
    let mut pos: usize = 0;
    while pos < marks.len()
        invariant
            pos <= marks.len(),
            marks.len() == text@.len(),
            start == open_word_start(marks@.take(pos as int)),
            texts_of(parts@) == closed_words(text@.take(pos as int), marks@.take(pos as int)),
        decreases marks.len() - pos,
    {
        proof {
            let now = text@.take(pos + 1);
            let now_marks = marks@.take(pos + 1);
            assert(now.drop_last() == text@.take(pos as int));
            assert(now_marks.drop_last() == marks@.take(pos as int));
            assert(now_marks.last() == marks[pos as int]);
            lemma_open_word(now.drop_last(), now_marks.drop_last());
            lemma_closed_words_step(now, now_marks);
        }
        if !marks[pos] {
            if start < pos {
                let word: &'a str = text.substring_char(start, pos);
                proof {
                    assert(texts_of(parts@.push(word)) == texts_of(parts@).push(word@));
                    assert(text@.take(pos + 1).subrange(start as int, pos as int)
                        == text@.subrange(start as int, pos as int));
                }
                parts.push(word);
            }
            start = pos + 1;
        }
        pos = pos + 1;
    }
    proof {
        assert(text@.take(pos as int) == text@);
        assert(marks@.take(pos as int) == marks@);
        lemma_open_word(text@, marks@);
    }
    if start < pos {
        let word: &'a str = text.substring_char(start, pos);
        proof {
            assert(texts_of(parts@.push(word)) == texts_of(parts@).push(word@));
            let all = marked_words(text@, marks@);
            assert(all == all.drop_last().push(all.last()));
        }
        parts.push(word);
    }
    parts
}

/// Cuts `text` into its words of this kind, each a slice of `text`.
pub fn split_words<'a>(text: &'a str, kind: WordKind) -> (parts: Vec<&'a str>)
    ensures
        texts_of(parts@) == words(text@, kind),
{
    let marks: Vec<bool> = mark_words(text, kind);
    cut_words(text, marks.as_slice())
}

/// Splits a request into its keywords: the runs of characters between white
/// space.
pub fn get_keywords(raw: &str) -> (keywords: Vec<&str>)
    ensures
        texts_of(keywords@) == words(raw@, WordKind::Spaced),
{
    split_words(raw, WordKind::Spaced)
}

/// Whether `text` is one word: not empty, and made of word characters only.
pub open spec fn is_word(text: Seq<char>, kind: WordKind) -> bool {
    text.len() > 0 && forall|i: int| 0 <= i < text.len() ==> kind.holds(#[trigger] text[i])
}

/// Whether `text` is a token: an alphabetic word in lower case.
pub open spec fn is_token(text: Seq<char>) -> bool {
    exists|word: Seq<char>| is_word(word, WordKind::Alphabetic) && text == lowercase_of(word)
}

/// The tokens of `text`: its alphabetic words in lower case, in order, with
/// repetitions kept.
pub open spec fn tokens_of(text: Seq<char>) -> Seq<Seq<char>> {
    let found = words(text, WordKind::Alphabetic);
    Seq::new(found.len(), |i: int| lowercase_of(found[i]))
}

/// Every one of the words of a text is a word.
pub proof fn lemma_words_are_words(text: Seq<char>, kind: WordKind)
    ensures
        forall|k: int|
            0 <= k < words(text, kind).len() ==> is_word(#[trigger] words(text, kind)[k], kind),
    decreases text.len(),
{
    if text.len() > 0 {
        let head = text.drop_last();
        let marks = marks_of(text, kind);
        assert(marks.drop_last() == marks_of(head, kind));
        let before = words(head, kind);
        let c = text.last();
        lemma_words_are_words(head, kind);
        lemma_open_word(head, marks.drop_last());
        assert forall|k: int| 0 <= k < words(text, kind).len() implies is_word(
            #[trigger] words(text, kind)[k],
            kind,
        ) by {
            if !kind.holds(c) {
                assert(words(text, kind)[k] == before[k]);
            } else if text.len() >= 2 && kind.holds(text[text.len() - 2]) {
                assert(marks.drop_last().last());
                if k < before.len() - 1 {
                    assert(words(text, kind)[k] == before[k]);
                } else {
                    let grown = before.last().push(c);
                    assert(is_word(before[before.len() - 1], kind));
                    assert forall|i: int| 0 <= i < grown.len() implies kind.holds(
                        #[trigger] grown[i],
                    ) by {
                        if i < grown.len() - 1 {
                            assert(grown[i] == before.last()[i]);
                        }
                    }
                }
            } else {
                if k < before.len() {
                    assert(words(text, kind)[k] == before[k]);
                } else {
                    assert(words(text, kind)[k] == seq![c]);
                }
            }
        }
    }
}

/// Every one of the tokens of a text is a token.
pub proof fn lemma_tokens_are_tokens(text: Seq<char>)
    ensures
        forall|k: int| 0 <= k < tokens_of(text).len() ==> is_token(#[trigger] tokens_of(text)[k]),
{
    lemma_words_are_words(text, WordKind::Alphabetic);
    assert forall|k: int| 0 <= k < tokens_of(text).len() implies is_token(
        #[trigger] tokens_of(text)[k],
    ) by {
        let word = words(text, WordKind::Alphabetic)[k];
        assert(is_word(word, WordKind::Alphabetic) && tokens_of(text)[k] == lowercase_of(word));
    }
}

/// A normalised token: an alphabetic word in lower case. Two tags are the
/// same tag when their texts are equal.
#[derive(Debug, PartialEq, Eq, Hash)]
pub struct Tag(String);

impl View for Tag {
    type V = Seq<char>;

    closed spec fn view(&self) -> Seq<char> {
        self.0@
    }
}

impl Clone for Tag {
    fn clone(&self) -> (copy: Self)
        ensures
            copy@ == self@,
    {
        proof {
            use_type_invariant(self);
        }
        Tag(self.0.clone())
    }
}

impl Tag {
    #[verifier::type_invariant]
    spec fn normalized(self) -> bool {
        is_token(self.0@)
    }

    /// The tag of one alphabetic word.
    fn of_word(word: &str) -> (tag: Tag)
        requires
            is_word(word@, WordKind::Alphabetic),
        ensures
            tag@ == lowercase_of(word@),
    {
        Tag(word.to_lowercase())
    }

    /// The tag's text.
    pub fn as_str(&self) -> (text: &str)
        ensures
            text@ == self@,
            is_token(text@),
    {
        proof {
            use_type_invariant(self);
        }
        self.0.as_str()
    }

    /// The tag's text, owned.
    pub fn to_string(&self) -> (text: String)
        ensures
            text@ == self@,
            is_token(text@),
    {
        proof {
            use_type_invariant(self);
        }
        self.0.clone()
    }
}

/// The texts of a list of tags.
pub open spec fn tag_texts(tags: Seq<Tag>) -> Seq<Seq<char>> {
    Seq::new(tags.len(), |i: int| tags[i]@)
}

/// Text that can be cut into tags.
pub trait ParseTags {
    /// The text that is cut.
    spec fn text(&self) -> Seq<char>;

    /// The tokens of the text as tags, or `EmptyInput` when it holds none.
    fn parse_tags(&self) -> (parsed: Result<Vec<Tag>, EmptyInput>)
        ensures
            match parsed {
                Ok(tags) => tags.len() > 0 && tag_texts(tags@) == tokens_of(self.text()),
                Err(_) => tokens_of(self.text()).len() == 0,
            },
    ;
}

impl ParseTags for &str {
    open spec fn text(&self) -> Seq<char> {
        (*self)@
    }

    fn parse_tags(&self) -> (parsed: Result<Vec<Tag>, EmptyInput>) {
        let found: Vec<&str> = split_words(*self, WordKind::Alphabetic);
        let mut tags: Vec<Tag> = Vec::new();
        let mut i: usize = 0;
        proof {
            lemma_words_are_words((*self)@, WordKind::Alphabetic);
        }
        while i < found.len()
            invariant
                i <= found.len(),
                texts_of(found@) == words((*self)@, WordKind::Alphabetic),
                forall|k: int|
                    0 <= k < found.len() ==> is_word(
                        #[trigger] words((*self)@, WordKind::Alphabetic)[k],
                        WordKind::Alphabetic,
                    ),
                tags.len() == i,
                forall|k: int| 0 <= k < i ==> (#[trigger] tags[k])@ == lowercase_of(found[k]@),
            decreases found.len() - i,
        {
            assert(texts_of(found@)[i as int] == found[i as int]@);
            tags.push(Tag::of_word(found[i]));
            i = i + 1;
        }
        proof {
            assert forall|k: int| 0 <= k < found.len() implies tag_texts(tags@)[k] == tokens_of(
                (*self)@,
            )[k] by {
                assert(texts_of(found@)[k] == found[k]@);
            }
            assert(tag_texts(tags@) =~= tokens_of((*self)@));
        }
        if tags.is_empty() {
            Err(EmptyInput)
        } else {
            Ok(tags)
        }
    }
}

} // verus!
