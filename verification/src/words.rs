//! Word records and word sequences. A `Word` keeps the substring exactly as
//! it appeared (`source`), the same with all non-word characters stripped
//! (`depunct`), and the stripped form lower-cased (`bare`). Sequence matching
//! compares `bare` forms only; output renders `source` forms.

use vstd::prelude::*;
use crate::text::{split_ws, split_whitespace_chars, chars_of, string_from_chars};

verus! {

/// What stripping the non-word characters from a word leaves.
pub uninterp spec fn depunct_of(s: Seq<char>) -> Seq<char>;

/// The Unicode lower-case form of a word.
pub uninterp spec fn lower_of(s: Seq<char>) -> Seq<char>;

/// Relies on regex's Regex::replace_all with a single-non-word-character
/// pattern and an empty replacement: every non-word character is removed and
/// the word characters stay, a function of the characters alone.
#[verifier::external_body]
fn strip_non_word(s: &str) -> (r: Vec<char>)
    ensures
        r@ == depunct_of(s@),
{
    let re = regex::Regex::new(r"\W").unwrap();
    re.replace_all(s, "").chars().collect()
}

/// Relies on str::to_lowercase: Unicode lowercasing, a function of the
/// characters alone.
#[verifier::external_body]
fn lowercase(s: &str) -> (r: Vec<char>)
    ensures
        r@ == lower_of(s@),
{
    s.to_lowercase().chars().collect()
}

/// Copies the characters of `v`.
pub fn copy_chars(v: &Vec<char>) -> (r: Vec<char>)
    ensures
        r@ == v@,
{
    let mut r: Vec<char> = Vec::new();
    let mut i: usize = 0;
    while i < v.len()
        invariant
            i <= v.len(),
            r@ == v@.take(i as int),
        decreases v.len() - i,
    {
        r.push(v[i]);
        proof {
            assert(r@ =~= v@.take(i as int + 1));
        }
        i += 1;
    }
    proof {
        assert(v@.take(v@.len() as int) =~= v@);
    }
    r
}

/// Whether two character vectors hold the same characters.
pub fn chars_equal(a: &Vec<char>, b: &Vec<char>) -> (r: bool)
    ensures
        r == (a@ == b@),
{
    if a.len() != b.len() {
        return false;
    }
    let mut i: usize = 0;
    while i < a.len()
        invariant
            i <= a.len(),
            a@.len() == b@.len(),
            forall|k: int| 0 <= k < i ==> a@[k] == b@[k],
        decreases a.len() - i,
    {
        if a[i] != b[i] {
            return false;
        }
        i += 1;
    }
    proof {
        assert(a@ =~= b@);
    }
    true
}

/// The mathematical form of one word.
pub struct WordView {
    pub source: Seq<char>,
    pub depunct: Seq<char>,
    pub bare: Seq<char>,
}

/// The word record a given source substring yields.
pub open spec fn word_of(s: Seq<char>) -> WordView {
    WordView { source: s, depunct: depunct_of(s), bare: lower_of(depunct_of(s)) }
}

/// One whitespace-delimited token of the source text.
pub struct Word {
    source: Vec<char>,
    depunct: Vec<char>,
    bare: Vec<char>,
}

impl View for Word {
    type V = WordView;

    closed spec fn view(&self) -> WordView {
        WordView { source: self.source@, depunct: self.depunct@, bare: self.bare@ }
    }
}

impl Word {
    /// Builds the record for one token: `depunct` strips the non-word
    /// characters, `bare` lower-cases the stripped form.
    pub fn from_chars(source: Vec<char>) -> (r: Word)
        ensures
            r@ == word_of(source@),
    {
        let s: String = string_from_chars(&source);
        let depunct = strip_non_word(s.as_str());
        let d: String = string_from_chars(&depunct);
        let bare = lowercase(d.as_str());
        Word { source, depunct, bare }
    }

    /// Builds the record for one token given as a string.
    pub fn new(s: &str) -> (r: Word)
        ensures
            r@ == word_of(s@),
    {
        Word::from_chars(chars_of(s))
    }

    /// The token exactly as it appeared.
    pub fn source_chars(&self) -> (r: &Vec<char>)
        ensures
            r@ == self@.source,
    {
        &self.source
    }

    /// The token with all non-word characters stripped.
    pub fn depunct_chars(&self) -> (r: &Vec<char>)
        ensures
            r@ == self@.depunct,
    {
        &self.depunct
    }

    /// The matching key: the stripped token, lower-cased.
    pub fn bare_chars(&self) -> (r: &Vec<char>)
        ensures
            r@ == self@.bare,
    {
        &self.bare
    }

    /// An owned copy of the record.
    pub fn duplicate(&self) -> (r: Word)
        ensures
            r@ == self@,
    {
        Word {
            source: copy_chars(&self.source),
            depunct: copy_chars(&self.depunct),
            bare: copy_chars(&self.bare),
        }
    }
}

/// Word-sequence equality: positional, on the `bare` forms alone, so case
/// and punctuation do not count.
pub open spec fn tokens_equal(a: Seq<WordView>, b: Seq<WordView>) -> bool {
    a.len() == b.len() && forall|i: int| 0 <= i < a.len() ==> a[i].bare == b[i].bare
}

/// An ordered run of consecutive words: the unit the sequence matcher
/// compares and the generator emits.
pub struct WordTokens {
    words: Vec<Word>,
}

impl View for WordTokens {
    type V = Seq<WordView>;

    closed spec fn view(&self) -> Seq<WordView> {
        self.words@.map_values(|w: Word| w@)
    }
}

impl WordTokens {
    pub fn new(words: Vec<Word>) -> (r: WordTokens)
        ensures
            r@ == words@.map_values(|w: Word| w@),
    {
        WordTokens { words }
    }

    pub fn len(&self) -> (n: usize)
        ensures
            n == self@.len(),
    {
        self.words.len()
    }

    /// The rendering the generator emits: each member's `source` form,
    /// every one followed by a single space.
    pub fn render(&self) -> (r: String)
        ensures
            r@ == render_words(self@),
    {
        let out = self.render_chars();
        string_from_chars(&out)
    }

    /// The rendered form as characters.
    pub fn render_chars(&self) -> (r: Vec<char>)
        ensures
            r@ == render_words(self@),
    {
        let mut out: Vec<char> = Vec::new();
        let mut i: usize = 0;
        while i < self.words.len()
            invariant
                i <= self.words@.len(),
                out@ == render_words(self@.take(i as int)),
            decreases self.words@.len() - i,
        {
            let ghost pre = out@;
            let w = &self.words[i];
            let mut t: usize = 0;
            while t < w.source.len()
                invariant
                    t <= w.source@.len(),
                    out@ == pre + w.source@.subrange(0, t as int),
                decreases w.source@.len() - t,
            {
                out.push(w.source[t]);
                proof {
                    assert(out@ =~= pre + w.source@.subrange(0, t as int + 1));
                }
                t += 1;
            }
            out.push(' ');
            proof {
                let view = self@;
                assert(w.source@.subrange(0, w.source@.len() as int) =~= view[i as int].source);
                assert(view.take(i as int + 1).drop_last() =~~= view.take(i as int));
                assert(view.take(i as int + 1).last() == view[i as int]);
                assert(out@ =~= render_words(view.take(i as int)) + view[i as int].source
                    + seq![' ']);
            }
            i += 1;
        }
        proof {
            assert(self@.take(self@.len() as int) =~~= self@);
        }
        out
    }
}

/// The rendered form of a word sequence: every member's `source`, each with
/// a trailing space.
pub open spec fn render_words(ws: Seq<WordView>) -> Seq<char>
    decreases ws.len(),
{
    if ws.len() == 0 {
        seq![]
    } else {
        render_words(ws.drop_last()) + ws.last().source + seq![' ']
    }
}

/// Each word contributes its source and one space to the rendering.
pub proof fn lemma_render_words_len(ws: Seq<WordView>)
    ensures
        render_words(ws).len() >= ws.len(),
    decreases ws.len(),
{
    if ws.len() > 0 {
        lemma_render_words_len(ws.drop_last());
    }
}

impl PartialEq for WordTokens {
    /// Positional comparison of the `bare` forms: case and punctuation do
    /// not count, the original spellings may differ.
    fn eq(&self, other: &Self) -> (r: bool) {
        if self.words.len() != other.words.len() {
            proof {
                assert(self@.len() == self.words@.len());
                assert(other@.len() == other.words@.len());
            }
            return false;
        }
        let mut i: usize = 0;
        while i < self.words.len()
            invariant
                i <= self.words@.len(),
                self.words@.len() == other.words@.len(),
                forall|k: int| 0 <= k < i ==> self@[k].bare == other@[k].bare,
            decreases self.words@.len() - i,
        {
            if !chars_equal(&self.words[i].bare, &other.words[i].bare) {
                proof {
                    assert(self@[i as int].bare == self.words@[i as int]@.bare);
                    assert(other@[i as int].bare == other.words@[i as int]@.bare);
                }
                return false;
            }
            i += 1;
        }
        true
    }
}

impl vstd::std_specs::cmp::PartialEqSpecImpl for WordTokens {
    open spec fn obeys_eq_spec() -> bool {
        true
    }

    open spec fn eq_spec(&self, other: &Self) -> bool {
        tokens_equal(self@, other@)
    }
}

impl Eq for WordTokens {}

/// The tokenized source text in word mode.
pub struct Words {
    data: Vec<Word>,
}

impl View for Words {
    type V = Seq<WordView>;

    closed spec fn view(&self) -> Seq<WordView> {
        self.data@.map_values(|w: Word| w@)
    }
}

impl Words {
    /// Splits the input on whitespace runs and records each token.
    pub fn new(input: &str) -> (r: Words)
        ensures
            r@ == split_ws(input@).map_values(|s: Seq<char>| word_of(s)),
    {
        let v = chars_of(input);
        let parts = split_whitespace_chars(&v);
        let mut data: Vec<Word> = Vec::new();
        let mut i: usize = 0;
        proof {
            assert(data@.map_values(|w: Word| w@) =~= split_ws(v@).map_values(
                |s: Seq<char>| word_of(s),
            ).take(0));
        }
        while i < parts.len()
            invariant
                i <= parts@.len(),
                parts.deep_view() == split_ws(v@),
                data@.map_values(|w: Word| w@) == split_ws(v@).map_values(
                    |s: Seq<char>| word_of(s),
                ).take(i as int),
            decreases parts@.len() - i,
        {
            let chunk = copy_chars(&parts[i]);
            proof {
                assert(chunk@ == parts.deep_view()[i as int]);
            }
            let w = Word::from_chars(chunk);
            let ghost prev = data@.map_values(|v: Word| v@);
            data.push(w);
            proof {
                let f = |w: Word| w@;
                let g = |s: Seq<char>| word_of(s);
                assert(data@.map_values(f) =~= prev.push(w@));
                assert(split_ws(v@).map_values(g).take(i as int + 1) =~= prev.push(w@));
            }
            i += 1;
        }
        proof {
            let g = |s: Seq<char>| word_of(s);
            assert(split_ws(v@).map_values(g).take(parts@.len() as int) =~= split_ws(v@).map_values(
                g,
            ));
        }
        Words { data }
    }

    pub fn len(&self) -> (n: usize)
        ensures
            n == self@.len(),
    {
        self.data.len()
    }

    /// The word at one position.
    pub fn word_at(&self, i: usize) -> (r: &Word)
        requires
            i < self@.len(),
        ensures
            r@ == self@[i as int],
    {
        &self.data[i]
    }
}

} // verus!
