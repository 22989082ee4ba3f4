//! From a text to the words that are sorted: punctuation is dropped, white
//! space parts the words, and the case is folded on request.

use vstd::prelude::*;

verus! {

/// The punctuation that is dropped from the text before it is split.
pub open spec fn special(c: char) -> bool {
    c == '(' || c == ')' || c == ',' || c == '"' || c == '.' || c == ';' || c == ':' || c == '\''
        || c == '!' || c == '?'
}

/// Whether `c` is one of the punctuation characters that are dropped.
pub fn is_special(c: char) -> (r: bool)
    ensures
        r == special(c),
{
    c == '(' || c == ')' || c == ',' || c == '"' || c == '.' || c == ';' || c == ':' || c == '\''
        || c == '!' || c == '?'
}

/// Whether `char::is_whitespace` holds of `c`: whether Unicode gives `c`
/// the property `White_Space`.
pub uninterp spec fn whitespace(c: char) -> bool;

/// Calls `char::is_whitespace`, which looks `c` up in the tables of the
/// Unicode character database; the answer depends on `c` alone.
#[verifier::external_body]
fn is_space(c: char) -> (r: bool)
    ensures
        r == whitespace(c),
{
    c.is_whitespace()
}

/// The lower-case form that `str::to_lowercase` gives to a string.
pub uninterp spec fn lowercase(s: Seq<char>) -> Seq<char>;

/// Calls `str::to_lowercase`, which gives the lower-case equivalent of the
/// string as Unicode defines it; the answer depends on the string alone.
#[verifier::external_body]
fn lower(word: &String) -> (r: String)
    ensures
        r@ == lowercase(word@),
{
    word.to_lowercase()
}

/// What a character is to the splitting of a text.
#[derive(Clone, Copy, Debug, PartialEq, Eq, Structural)]
pub enum CharKind {
    /// Punctuation, which is dropped wherever it stands.
    Punctuation,
    /// White space, which ends a word.
    Space,
    /// Anything else: a character of a word.
    Letter,
}

/// The kind of `c`: punctuation where it is one of the ten, else white
/// space where Unicode says so, else a letter.
pub open spec fn kind_of(c: char) -> CharKind {
    if special(c) {
        CharKind::Punctuation
    } else if whitespace(c) {
        CharKind::Space
    } else {
        CharKind::Letter
    }
}

/// Finds the kind of `c`.
pub fn classify(c: char) -> (kind: CharKind)
    ensures
        kind == kind_of(c),
{
    if is_special(c) {
        CharKind::Punctuation
    } else if is_space(c) {
        CharKind::Space
    } else {
        CharKind::Letter
    }
}

/// The state of the scan after `text`, a sequence of characters with their
/// kinds: the words that are complete, and the characters of the word that
/// is not yet complete.
pub open spec fn scan(text: Seq<(char, CharKind)>) -> (Seq<Seq<char>>, Seq<char>)
    decreases text.len(),
{
    if text.len() == 0 {
        (Seq::empty(), Seq::empty())
    } else {
        let before = scan(text.drop_last());
        match text.last().1 {
            CharKind::Punctuation => before,
            CharKind::Space => if before.1.len() > 0 {
                (before.0.push(before.1), Seq::empty())
            } else {
                before
            },
            CharKind::Letter => (before.0, before.1.push(text.last().0)),
        }
    }
}

/// The words of a text whose characters come with their kinds: the longest
/// stretches without white space, each without its punctuation, and without
/// those of which nothing is left.
pub open spec fn marked_words(text: Seq<(char, CharKind)>) -> Seq<Seq<char>> {
    let end = scan(text);
    if end.1.len() > 0 {
        end.0.push(end.1)
    } else {
        end.0
    }
}

/// The characters of `text`, each with its kind.
pub open spec fn marked(text: Seq<char>) -> Seq<(char, CharKind)> {
    Seq::new(text.len(), |i: int| (text[i], kind_of(text[i])))
}

/// The words of `text`.
pub open spec fn words_of(text: Seq<char>) -> Seq<Seq<char>> {
    marked_words(marked(text))
}

/// The contents of each of the words.
pub open spec fn views(words: Seq<Vec<char>>) -> Seq<Seq<char>> {
    Seq::new(words.len(), |i: int| words[i]@)
}

/// Every word is non-empty and made of letters alone.
pub open spec fn clean(words: Seq<Seq<char>>) -> bool {
    forall|i: int|
        0 <= i < words.len() ==> (#[trigger] words[i]).len() > 0 && forall|j: int|
            0 <= j < words[i].len() ==> kind_of(#[trigger] words[i][j]) == CharKind::Letter
}

/// Where every character is marked with its own kind, no word is empty and
/// none holds white space or punctuation.
proof fn lemma_scan_is_clean(text: Seq<(char, CharKind)>)
    requires
        forall|i: int| 0 <= i < text.len() ==> (#[trigger] text[i]).1 == kind_of(text[i].0),
    ensures
        clean(scan(text).0),
        forall|j: int|
            0 <= j < scan(text).1.len() ==> kind_of(#[trigger] scan(text).1[j]) == CharKind::Letter,
    decreases text.len(),
{
    if text.len() > 0 {
        let front = text.drop_last();
        assert forall|i: int| 0 <= i < front.len() implies (#[trigger] front[i]).1 == kind_of(
            front[i].0,
        ) by {
            assert(front[i] == text[i]);
        }
        lemma_scan_is_clean(front);
        assert(text.last() == text[text.len() - 1]);
    }
}

/// No word of a text is empty, and none holds white space or punctuation.
pub proof fn lemma_words_are_clean(text: Seq<char>)
    ensures
        clean(words_of(text)),
{
    lemma_scan_is_clean(marked(text));
}

/// Splits a text whose characters come with their kinds into its words.
/// Punctuation is dropped, also inside a word; white space ends a word; a
/// word of which nothing is left is not handed out.
pub fn split_marked(text: &Vec<(char, CharKind)>) -> (out: Vec<Vec<char>>)
    ensures
        views(out@) == marked_words(text@),
{
    let mut done: Vec<Vec<char>> = Vec::new();
    let mut word: Vec<char> = Vec::new();
    let mut i: usize = 0;
    assert(views(done@) =~= Seq::<Seq<char>>::empty());
    assert(text@.subrange(0, 0) =~= Seq::<(char, CharKind)>::empty());
    while i < text.len()
        invariant
            i <= text@.len(),
            scan(text@.subrange(0, i as int)) == (views(done@), word@),
        decreases text@.len() - i,
    {
        let (c, kind) = text[i];
        proof {
            assert(text@.subrange(0, i + 1).drop_last() =~= text@.subrange(0, i as int));
            assert(text@.subrange(0, i + 1).last() == (c, kind));
        }
        match kind {
            CharKind::Punctuation => {},
            CharKind::Space => {
                if word.len() > 0 {
                    let ghost before = done@;
                    let ghost last = word@;
                    done.push(word);
                    word = Vec::new();
                    assert(views(done@) =~= views(before).push(last));
                }
            },
            CharKind::Letter => {
                word.push(c);
            },
        }
        i += 1;
    }
    assert(text@.subrange(0, i as int) =~= text@);
    if word.len() > 0 {
        let ghost before = done@;
        let ghost last = word@;
        done.push(word);
        assert(views(done@) =~= views(before).push(last));
    }
    done
}

/// Splits `text` into its words: finds the kind of every character and
/// splits by the kinds.
pub fn split_words(text: &Vec<char>) -> (out: Vec<Vec<char>>)
    ensures
        views(out@) == words_of(text@),
{
    let mut with_kinds: Vec<(char, CharKind)> = Vec::new();
    let mut i: usize = 0;
    while i < text.len()
        invariant
            i <= text@.len(),
            with_kinds@.len() == i,
            forall|j: int| 0 <= j < i ==> with_kinds@[j] == (text@[j], kind_of(text@[j])),
        decreases text@.len() - i,
    {
        let c = text[i];
        with_kinds.push((c, classify(c)));
        i += 1;
    }
    assert(with_kinds@ =~= marked(text@));
    split_marked(&with_kinds)
}

/// Puts every word into lower case.
pub fn fold_case(words: Vec<String>) -> (out: Vec<String>)
    ensures
        out@.len() == words@.len(),
        forall|i: int| 0 <= i < out@.len() ==> (#[trigger] out@[i])@ == lowercase(words@[i]@),
{
    let mut out: Vec<String> = Vec::new();
    let mut i: usize = 0;
    while i < words.len()
        invariant
            i <= words@.len(),
            out@.len() == i,
            forall|j: int| 0 <= j < i ==> (#[trigger] out@[j])@ == lowercase(words@[j]@),
        decreases words@.len() - i,
    {
        let folded = lower(&words[i]);
        out.push(folded);
        i += 1;
    }
    out
}

} // verus!
