//! The generation context and engine. A `Hay` owns the tokenized source
//! (word records and the whitespace-collapsed, NFC-normalized character
//! stream), the symbol index and the configuration, and generates output by
//! repeatedly matching the current tail against the source and sampling the
//! next token from the follower frequencies.

use vstd::prelude::*;
use vstd::string::StrSliceExecFns;
use crate::sample::{sample_weighted, total_of, lemma_total_update, Rand};
use crate::symbols::{
    CharIdxMap, distinct_non_ascii, lemma_distinct_non_ascii, nfc_of, nfc_chars,
};
use crate::text::{
    split_ws, split_whitespace_chars, join_spaced, join_with_spaces, chars_of, string_from_chars,
    slice_chars,
};
use crate::words::{
    Words, WordTokens, Word, WordView, word_of, tokens_equal, render_words, lemma_render_words_len,
};

verus! {

/// The tail `pat` occurs in `text` at position `i`.
pub open spec fn occurs_at(text: Seq<char>, pat: Seq<char>, i: int) -> bool {
    0 <= i && i + pat.len() <= text.len() && text.subrange(i, i + pat.len()) == pat
}

/// The tail `pat` occurs somewhere in `text`.
pub open spec fn appears_in(text: Seq<char>, pat: Seq<char>) -> bool {
    exists|i: int| occurs_at(text, pat, i)
}

/// Every window of `n` consecutive characters of `out` occurs in `text`:
/// the generator never invents an unseen n-gram.
pub open spec fn ngrams_in_source(text: Seq<char>, out: Seq<char>, n: int) -> bool {
    forall|k: int| 0 <= k && k + n <= out.len() ==> appears_in(text, #[trigger] out.subrange(k, k + n))
}

/// How many positions `i` below `bound` hold an occurrence of `pat` whose
/// follower character sits in slot `slot` of the symbol index.
pub open spec fn follow_count(
    text: Seq<char>,
    pat: Seq<char>,
    m: CharIdxMap,
    slot: int,
    bound: int,
) -> int
    decreases bound,
{
    if bound <= 0 {
        0
    } else {
        follow_count(text, pat, m, slot, bound - 1) + if occurs_at(text, pat, bound - 1) && bound
            - 1 + pat.len() < text.len() && m.slot_of(text[bound - 1 + pat.len()]) == slot {
            1int
        } else {
            0int
        }
    }
}

/// How many positions `i` below `bound` hold an occurrence of `pat` that has
/// a follower at all.
pub open spec fn follow_total(text: Seq<char>, pat: Seq<char>, bound: int) -> int
    decreases bound,
{
    if bound <= 0 {
        0
    } else {
        follow_total(text, pat, bound - 1) + if occurs_at(text, pat, bound - 1) && bound - 1
            + pat.len() < text.len() {
            1int
        } else {
            0int
        }
    }
}

pub proof fn lemma_follow_count_nonneg(
    text: Seq<char>,
    pat: Seq<char>,
    m: CharIdxMap,
    slot: int,
    bound: int,
)
    requires
        bound >= 0,
    ensures
        0 <= follow_count(text, pat, m, slot, bound) <= bound,
    decreases bound,
{
    if bound > 0 {
        lemma_follow_count_nonneg(text, pat, m, slot, bound - 1);
    }
}

pub proof fn lemma_follow_total_bound(text: Seq<char>, pat: Seq<char>, bound: int)
    requires
        bound >= 0,
    ensures
        0 <= follow_total(text, pat, bound) <= bound,
    decreases bound,
{
    if bound > 0 {
        lemma_follow_total_bound(text, pat, bound - 1);
    }
}

/// A positive follower count names a witness: an occurrence with a follower
/// in that slot.
pub proof fn lemma_follow_count_witness(
    text: Seq<char>,
    pat: Seq<char>,
    m: CharIdxMap,
    slot: int,
    bound: int,
)
    requires
        follow_count(text, pat, m, slot, bound) > 0,
    ensures
        exists|i: int|
            0 <= i < bound && occurs_at(text, pat, i) && i + pat.len() < text.len() && m.slot_of(
                text[i + pat.len()],
            ) == slot,
    decreases bound,
{
    if bound > 0 {
        if occurs_at(text, pat, bound - 1) && bound - 1 + pat.len() < text.len() && m.slot_of(
            text[bound - 1 + pat.len()],
        ) == slot {
            assert(0 <= bound - 1 < bound && occurs_at(text, pat, bound - 1) && bound - 1
                + pat.len() < text.len() && m.slot_of(text[bound - 1 + pat.len()]) == slot);
        } else {
            lemma_follow_count_witness(text, pat, m, slot, bound - 1);
        }
    }
}

/// Whether `pat` occurs in `text` at position `i`.
pub fn match_at(text: &Vec<char>, pat: &Vec<char>, i: usize) -> (b: bool)
    requires
        i + pat@.len() <= text@.len(),
    ensures
        b == occurs_at(text@, pat@, i as int),
{
    let text_len = text.len();
    let mut t: usize = 0;
    while t < pat.len()
        invariant
            t <= pat@.len(),
            i + pat@.len() <= text@.len(),
            text@.len() == text_len,
            forall|k: int| 0 <= k < t ==> text@[i + k] == pat@[k],
        decreases pat@.len() - t,
    {
        if text[i + t] != pat[t] {
            proof {
                assert(text@.subrange(i as int, i as int + pat@.len() as int)[t as int]
                    == text@[i + t]);
            }
            return false;
        }
        t += 1;
    }
    proof {
        assert(text@.subrange(i as int, i as int + pat@.len() as int) =~= pat@);
    }
    true
}

/// The per-generation-call context: the tokenized source, the symbol index,
/// the sequence length and the token mode.
pub struct Hay {
    words: Words,
    characters: Vec<char>,
    seq_len: usize,
    is_word_tokens: bool,
    char_idx_map: CharIdxMap,
}

impl Hay {
    /// The word records of the source.
    pub closed spec fn words_model(self) -> Seq<WordView> {
        self.words@
    }

    /// The whitespace-collapsed, NFC-normalized character stream.
    pub closed spec fn chars_model(self) -> Seq<char> {
        self.characters@
    }

    /// The configured sequence length.
    pub closed spec fn n(self) -> int {
        self.seq_len as int
    }

    /// Whether tokens are whole words rather than characters.
    pub closed spec fn word_mode(self) -> bool {
        self.is_word_tokens
    }

    /// The symbol index.
    pub closed spec fn index(self) -> CharIdxMap {
        self.char_idx_map
    }

    /// The context invariant: the symbol index is well formed and covers
    /// every character of the stream, so a follower lookup can never miss.
    pub open spec fn inv(self) -> bool {
        &&& self.index().inv()
        &&& self.index()@ == distinct_non_ascii(self.chars_model())
        &&& forall|c: char| self.chars_model().contains(c) ==> self.index().registered(c)
    }

    /// Word mode has enough words for a seed and a margin.
    pub open spec fn word_ready(self) -> bool {
        self.n() >= 1 && self.words_model().len() >= 2 * self.n() + 1
    }

    /// Character mode has enough characters for a seed.
    pub open spec fn char_ready(self) -> bool {
        self.n() >= 1 && self.chars_model().len() >= self.n() + 1
    }

    /// The mode in use has enough input to seed generation.
    pub open spec fn ready(self) -> bool {
        if self.word_mode() {
            self.word_ready()
        } else {
            self.char_ready()
        }
    }

    /// Builds the context: tokenizes the input both ways, collapses
    /// whitespace runs to single spaces, normalizes to NFC, and builds the
    /// symbol index over the normalized stream.
    pub fn new(input: &str, seq_len: u8, is_word_tokens: bool) -> (r: Hay)
        ensures
            r.inv(),
            r.words_model() == split_ws(input@).map_values(|s: Seq<char>| word_of(s)),
            r.chars_model() == nfc_of(join_spaced(split_ws(input@))),
            r.index()@ == distinct_non_ascii(r.chars_model()),
            r.n() == seq_len as int,
            r.word_mode() == is_word_tokens,
    {
        let words = Words::new(input);
        let v = chars_of(input);
        let parts = split_whitespace_chars(&v);
        let flat = join_with_spaces(&parts);
        let characters = nfc_chars(&flat);
        let char_idx_map = CharIdxMap::from_chars(&characters);
        proof {
            lemma_distinct_non_ascii(characters@);
        }
        Hay { words, characters, seq_len: seq_len as usize, is_word_tokens, char_idx_map }
    }

    /// The character stream the character model walks.
    pub fn characters(&self) -> (r: &Vec<char>)
        ensures
            r@ == self.chars_model(),
    {
        &self.characters
    }

    /// The symbol index built over the source.
    pub fn symbol_index(&self) -> (r: &CharIdxMap)
        ensures
            *r == self.index(),
    {
        &self.char_idx_map
    }

    /// The configured sequence length.
    pub fn sequence_length(&self) -> (r: usize)
        ensures
            r == self.n(),
    {
        self.seq_len
    }

    /// How many tokens the mode in use offers.
    pub open spec fn content_len(self) -> int {
        if self.word_mode() {
            self.words_model().len() as int
        } else {
            self.chars_model().len() as int
        }
    }

    pub fn content_length(&self) -> (r: usize)
        ensures
            r == self.content_len(),
    {
        if self.is_word_tokens {
            self.words.len()
        } else {
            self.characters.len()
        }
    }

    /// The highest start index that leaves a full tail plus margin.
    pub fn last_safe_index(&self) -> (r: usize)
        requires
            2 * self.n() <= self.content_len(),
        ensures
            r == self.content_len() - 2 * self.n(),
    {
        self.content_length() - (self.seq_len * 2)
    }

    /// Whether the source is long enough for the mode in use, so that
    /// `generate_output` can run.
    pub fn can_generate(&self) -> (b: bool)
        ensures
            b == self.ready(),
    {
        if self.seq_len < 1 {
            return false;
        }
        if self.is_word_tokens {
            let len = self.words.len();
            if len < self.seq_len {
                return false;
            }
            let rest = len - self.seq_len;
            rest >= 1 && rest - 1 >= self.seq_len
        } else {
            let len = self.characters.len();
            len >= self.seq_len && len - self.seq_len >= 1
        }
    }

    /// The follower frequency table for the given tail: for every slot, how
    /// often the tail occurs in the source followed by that slot's character.
    /// An occurrence at the very end, with nothing after it, counts nowhere.
    pub fn follow_frequencies(&self, tail: &Vec<char>) -> (freq: Vec<usize>)
        requires
            self.inv(),
            tail@.len() >= 1,
        ensures
            freq@.len() == self.index().table_size(),
            forall|s: int|
                0 <= s < freq@.len() ==> freq@[s] == follow_count(
                    self.chars_model(),
                    tail@,
                    self.index(),
                    s,
                    self.chars_model().len() - tail@.len() + 1,
                ),
            total_of(freq@) == follow_total(
                self.chars_model(),
                tail@,
                self.chars_model().len() - tail@.len() + 1,
            ),
            total_of(freq@) <= self.chars_model().len(),
    {
        let ghost text = self.chars_model();
        let ghost pat = tail@;
        let ghost m = self.index();
        let n = tail.len();
        let size = self.char_idx_map.table_len();
        let mut freq: Vec<usize> = Vec::new();
        let mut z: usize = 0;
        while z < size
            invariant
                freq@.len() == z,
                z <= size,
                forall|s: int| 0 <= s < z ==> freq@[s] == 0,
            decreases size - z,
        {
            freq.push(0);
            z += 1;
        }
        proof {
            lemma_zero_total(freq@);
            assert forall|s: int| 0 <= s < freq@.len() implies freq@[s] == follow_count(
                text,
                pat,
                m,
                s,
                0,
            ) by {}
        }
        let text_len = self.characters.len();
        if text_len < n {
            proof {
                lemma_follow_vacuous(text, pat, m, text.len() - pat.len() + 1);
                lemma_zero_total(freq@);
            }
            return freq;
        }
        let bound = text_len - n;
        let mut i: usize = 0;
        while i <= bound
            invariant
                self.inv(),
                text == self.chars_model(),
                pat == tail@,
                m == self.index(),
                n == pat.len(),
                n >= 1,
                bound == text.len() - n,
                n <= text.len(),
                text.len() <= usize::MAX,
                i <= bound + 1,
                freq@.len() == m.table_size(),
                forall|s: int|
                    0 <= s < freq@.len() ==> freq@[s] == follow_count(text, pat, m, s, i as int),
                total_of(freq@) == follow_total(text, pat, i as int),
            decreases bound + 1 - i,
        {
            let ghost old_freq = freq@;
            if match_at(&self.characters, tail, i) {
                if i + n < self.characters.len() {
                    let c = self.characters[i + n];
                    proof {
                        assert(text.contains(c));
                        lemma_follow_count_nonneg(text, pat, m, m.slot_of(c), i as int);
                        lemma_follow_total_bound(text, pat, i as int);
                    }
                    let s = self.char_idx_map.index_for(c);
                    let cur = freq[s];
                    freq[s] = cur + 1;
                    proof {
                        lemma_total_update(old_freq, s as int, (cur + 1) as usize);
                    }
                }
            }
            proof {
                assert forall|s: int| 0 <= s < freq@.len() implies freq@[s] == follow_count(
                    text,
                    pat,
                    m,
                    s,
                    i as int + 1,
                ) by {
                    assert(follow_count(text, pat, m, s, i as int + 1) == follow_count(
                        text,
                        pat,
                        m,
                        s,
                        i as int,
                    ) + if occurs_at(text, pat, i as int) && i + pat.len() < text.len()
                        && m.slot_of(text[i + pat.len()]) == s {
                        1int
                    } else {
                        0int
                    });
                }
                assert(follow_total(text, pat, i as int + 1) == follow_total(text, pat, i as int)
                    + if occurs_at(text, pat, i as int) && i + pat.len() < text.len() {
                    1int
                } else {
                    0int
                });
            }
            i += 1;
        }
        proof {
            lemma_follow_total_bound(text, pat, text.len() - pat.len() + 1);
        }
        freq
    }

    /// Generates in character mode: seeds with a random stretch of the
    /// source, then repeatedly samples a follower of the current tail. On a
    /// dead end it drops the newest character and retries; once the output
    /// is down to the seed length it gives up and returns what it has. The
    /// output never holds an n-gram the source lacks.
    pub fn generate_char_output(&self, count: usize, rand: &mut Rand) -> (r: String)
        requires
            self.inv(),
            self.char_ready(),
            old(rand).wf(),
        ensures
            final(rand).wf(),
            final(rand).is_fixed() == old(rand).is_fixed(),
            self.n() <= r@.len() <= self.n() + count,
            ngrams_in_source(self.chars_model(), r@, self.n()),
    {
        let ghost text = self.chars_model();
        let n = self.seq_len;
        let text_len = self.characters.len();
        let start = rand.next_below(text_len - n);
        let mut out: Vec<char> = slice_chars(&self.characters, start, n);
        proof {
            assert(occurs_at(text, out@, start as int));
            assert forall|k: int| 0 <= k && k + n <= out@.len() implies appears_in(
                text,
                #[trigger] out@.subrange(k, k + n as int),
            ) by {
                assert(out@.subrange(0, n as int) =~= out@);
            }
        }
        let mut current_len: usize = 0;
        while current_len < count
            invariant
                self.inv(),
                text == self.chars_model(),
                n == self.n(),
                n >= 1,
                n + 1 <= text.len(),
                text.len() <= usize::MAX,
                rand.wf(),
                rand.is_fixed() == old(rand).is_fixed(),
                current_len <= count,
                n <= out@.len(),
                out@.len() <= n + current_len,
                ngrams_in_source(text, out@, n as int),
            ensures
                rand.wf(),
                rand.is_fixed() == old(rand).is_fixed(),
                n <= out@.len() <= n + count,
                ngrams_in_source(text, out@, n as int),
            decreases count - current_len, out@.len(),
        {
            let tail = Hay::get_seq(&out, n);
            let freq = self.follow_frequencies(&tail);
            let ghost bound = text.len() - n + 1;
            match sample_weighted(&freq, rand) {
                None => {
                    if out.len() > n {
                        let ghost old_out = out@;
                        out.pop();
                        proof {
                            assert forall|k: int| 0 <= k && k + n <= out@.len() implies appears_in(
                                text,
                                #[trigger] out@.subrange(k, k + n as int),
                            ) by {
                                assert(out@.subrange(k, k + n as int) =~= old_out.subrange(
                                    k,
                                    k + n as int,
                                ));
                            }
                        }
                    } else {
                        break ;
                    }
                },
                Some(slot) => {
                    let c = self.char_idx_map.char_at(slot);
                    let ghost old_out = out@;
                    proof {
                        lemma_follow_count_witness(text, tail@, self.index(), slot as int, bound);
                        let i = choose|i: int|
                            0 <= i < bound && occurs_at(text, tail@, i) && i + tail@.len()
                                < text.len() && self.index().slot_of(text[i + tail@.len()])
                                == slot;
                        assert(text.contains(text[i + tail@.len()])) by {
                            assert(occurs_at(text, tail@, i));
                        }
                        assert(self.index().registered(text[i + tail@.len()]));
                        assert(c == text[i + tail@.len()]);
                        let ghost ll = old_out.len() as int;
                        assert(occurs_at(text, old_out.push(c).subrange(ll + 1 - n, ll + 1), i
                            + 1)) by {
                            let w = old_out.push(c).subrange(ll + 1 - n, ll + 1);
                            assert(tail@ == old_out.subrange(ll - n, ll));
                            assert(text.subrange(i, i + n as int) == tail@);
                            assert forall|j: int| 0 <= j < n implies w[j] == text.subrange(
                                i + 1,
                                i + 1 + n as int,
                            )[j] by {
                                if j < n - 1 {
                                    assert(w[j] == old_out[ll + 1 - n + j]);
                                    assert(old_out[ll - n + (j + 1)] == old_out.subrange(
                                        ll - n,
                                        ll,
                                    )[j + 1]);
                                    assert(tail@[j + 1] == text.subrange(i, i + n as int)[j + 1]);
                                } else {
                                    assert(w[j] == c);
                                }
                            }
                            assert(w =~= text.subrange(i + 1, i + 1 + n as int));
                        }
                    }
                    out.push(c);
                    current_len += 1;
                    proof {
                        assert forall|k: int| 0 <= k && k + n <= out@.len() implies appears_in(
                            text,
                            #[trigger] out@.subrange(k, k + n as int),
                        ) by {
                            if k + n < out@.len() {
                                assert(out@.subrange(k, k + n as int) =~= old_out.subrange(
                                    k,
                                    k + n as int,
                                ));
                            } else {
                                assert(out@.subrange(k, k + n as int) == out@.subrange(
                                    old_out.len() as int + 1 - n,
                                    old_out.len() as int + 1,
                                ));
                            }
                        }
                    }
                },
            }
        }
        string_from_chars(&out)
    }
}

/// How many start positions below `bound` hold a word run that equals the
/// tail under `bare` comparison.
pub open spec fn word_match_count(
    ws: Seq<WordView>,
    tail: Seq<WordView>,
    n: int,
    bound: int,
) -> int
    decreases bound,
{
    if bound <= 0 {
        0
    } else {
        word_match_count(ws, tail, n, bound - 1) + if tokens_equal(
            ws.subrange(bound - 1, bound - 1 + n),
            tail,
        ) {
            1int
        } else {
            0int
        }
    }
}

/// Every start is in range for a full chunk of `n` words.
pub open spec fn valid_starts(ws: Seq<WordView>, n: int, starts: Seq<int>) -> bool {
    forall|k: int| 0 <= k < starts.len() ==> 0 <= #[trigger] starts[k] && starts[k] + n <= ws.len()
}

/// The concatenation of the rendered chunks the given starts pick out of the
/// source: what word-mode generation emits.
pub open spec fn chunks_concat(ws: Seq<WordView>, n: int, starts: Seq<int>) -> Seq<char>
    decreases starts.len(),
{
    if starts.len() == 0 {
        seq![]
    } else {
        chunks_concat(ws, n, starts.drop_last()) + render_words(
            ws.subrange(starts.last(), starts.last() + n),
        )
    }
}

impl Hay {
    /// The run of `seq_len` words starting at `pos`.
    pub fn get_words(&self, pos: usize) -> (r: WordTokens)
        requires
            pos + self.n() <= self.words_model().len(),
        ensures
            r@ == self.words_model().subrange(pos as int, pos as int + self.n()),
    {
        let ghost ws = self.words_model();
        let wl = self.words.len();
        let mut picked: Vec<Word> = Vec::new();
        let mut t: usize = 0;
        while t < self.seq_len
            invariant
                t <= self.seq_len,
                ws == self.words_model(),
                ws.len() == wl,
                pos + self.seq_len <= ws.len(),
                picked@.map_values(|w: Word| w@) == ws.subrange(pos as int, pos as int + t as int),
            decreases self.seq_len - t,
        {
            let w = self.words.word_at(pos + t).duplicate();
            let ghost prev = picked@.map_values(|w: Word| w@);
            picked.push(w);
            proof {
                assert(picked@.map_values(|w: Word| w@) =~= prev.push(w@));
                assert(ws.subrange(pos as int, pos as int + t as int + 1) =~= prev.push(w@));
            }
            t += 1;
        }
        WordTokens::new(picked)
    }

    /// Scans every safe start for a run equal to the tail and picks one of
    /// the matches at random. `None` when the tail has at most one match
    /// below the safe bound: then it is the occurrence that seeded the tail
    /// itself, and no fresh continuation exists.
    pub fn get_next_index(&self, last_match: &WordTokens, rand: &mut Rand) -> (r: Option<usize>)
        requires
            old(rand).wf(),
            self.word_mode(),
            2 * self.n() <= self.words_model().len(),
        ensures
            final(rand).wf(),
            final(rand).is_fixed() == old(rand).is_fixed(),
            (r is None) <==> word_match_count(
                self.words_model(),
                last_match@,
                self.n(),
                self.words_model().len() - 2 * self.n(),
            ) <= 1,
            r matches Some(i) ==> i + 2 * self.n() <= self.words_model().len() && tokens_equal(
                self.words_model().subrange(i as int, i as int + self.n()),
                last_match@,
            ),
    {
        let ghost ws = self.words_model();
        let ghost tail = last_match@;
        let n = self.seq_len;
        let safe = self.last_safe_index();
        let mut indices: Vec<usize> = Vec::new();
        let mut idx: usize = 0;
        while idx < safe
            invariant
                ws == self.words_model(),
                tail == last_match@,
                n == self.n(),
                safe + 2 * n == ws.len(),
                idx <= safe,
                indices@.len() == word_match_count(ws, tail, n as int, idx as int),
                forall|k: int|
                    0 <= k < indices@.len() ==> #[trigger] indices@[k] + 2 * n <= ws.len()
                        && tokens_equal(
                        ws.subrange(indices@[k] as int, indices@[k] as int + n as int),
                        tail,
                    ),
            decreases safe - idx,
        {
            let cand = self.get_words(idx);
            let ghost prev_count = word_match_count(ws, tail, n as int, idx as int);
            if cand == *last_match {
                indices.push(idx);
            }
            proof {
                assert(word_match_count(ws, tail, n as int, idx as int + 1) == prev_count
                    + if tokens_equal(ws.subrange(idx as int, idx as int + n as int), tail) {
                    1int
                } else {
                    0int
                });
            }
            idx += 1;
        }
        if indices.len() <= 1 {
            return None;
        }
        let pick = rand.next_below(indices.len());
        Some(indices[pick])
    }

    /// Generates in word mode: seeds with a random chunk, then repeatedly
    /// looks for another occurrence of the last chunk and jumps to the words
    /// right after it; a tail unique in the source restarts from a fresh
    /// random seed. Every emitted chunk is a rendered run of `seq_len`
    /// consecutive source words, and the loop runs until the output exceeds
    /// the requested character count.
    pub fn generate_word_output(&self, count: usize, rand: &mut Rand) -> (r: String)
        requires
            self.word_mode(),
            self.word_ready(),
            old(rand).wf(),
        ensures
            final(rand).wf(),
            final(rand).is_fixed() == old(rand).is_fixed(),
            r@.len() > count,
            r@.len() >= self.n(),
            exists|starts: Seq<int>|
                starts.len() >= 1 && valid_starts(self.words_model(), self.n(), starts) && r@
                    == chunks_concat(self.words_model(), self.n(), starts),
    {
        let ghost ws = self.words_model();
        let n = self.seq_len;
        let wlen = self.words.len();
        let safe = self.last_safe_index();
        let mut seq_start = rand.next_below(safe);
        let mut out: Vec<char> = Vec::new();
        let ghost mut starts: Seq<int> = seq![];
        loop
            invariant_except_break
                out@.len() <= count,
            invariant
                self.word_mode(),
                self.word_ready(),
                ws == self.words_model(),
                n == self.n(),
                n >= 1,
                wlen == ws.len(),
                safe + 2 * n == wlen,
                safe >= 1,
                seq_start + n <= wlen,
                rand.wf(),
                rand.is_fixed() == old(rand).is_fixed(),
                valid_starts(ws, n as int, starts),
                out@ == chunks_concat(ws, n as int, starts),
                starts.len() >= 1 ==> out@.len() >= n,
            ensures
                out@.len() > count,
                starts.len() >= 1,
                out@.len() >= n,
                valid_starts(ws, n as int, starts),
                out@ == chunks_concat(ws, n as int, starts),
                rand.wf(),
                rand.is_fixed() == old(rand).is_fixed(),
            decreases count + 1 - out@.len(),
        {
            let tokens = self.get_words(seq_start);
            let mut chunk = tokens.render_chars();
            let ghost prev_starts = starts;
            proof {
                starts = starts.push(seq_start as int);
                lemma_render_words_len(ws.subrange(seq_start as int, seq_start as int + n as int));
                assert(starts.drop_last() =~= prev_starts);
                assert(starts.last() == seq_start as int);
            }
            out.append(&mut chunk);
            if out.len() > count {
                break ;
            }
            match self.get_next_index(&tokens, rand) {
                Some(i) => {
                    seq_start = i + n;
                },
                None => {
                    seq_start = rand.next_below(safe);
                },
            }
        }
        string_from_chars(&out)
    }

    /// Generates output of at least `count` characters in the configured
    /// mode. Word mode always exceeds `count`; character mode may stop short
    /// when no continuation can be found at all, but never returns less than
    /// the seed.
    pub fn generate_output(&self, count: usize, rand: &mut Rand) -> (r: String)
        requires
            self.inv(),
            self.ready(),
            old(rand).wf(),
        ensures
            final(rand).wf(),
            final(rand).is_fixed() == old(rand).is_fixed(),
            r@.len() >= self.n(),
            self.word_mode() ==> r@.len() > count,
            self.word_mode() ==> exists|starts: Seq<int>|
                starts.len() >= 1 && valid_starts(self.words_model(), self.n(), starts) && r@
                    == chunks_concat(self.words_model(), self.n(), starts),
            !self.word_mode() ==> r@.len() <= self.n() + count,
            !self.word_mode() ==> ngrams_in_source(self.chars_model(), r@, self.n()),
    {
        if self.is_word_tokens {
            self.generate_word_output(count, rand)
        } else {
            self.generate_char_output(count, rand)
        }
    }
}


impl Hay {
    /// The last `len` characters of the output: the tail the matcher looks
    /// up.
    pub fn get_seq(output: &Vec<char>, len: usize) -> (r: Vec<char>)
        requires
            len <= output@.len(),
        ensures
            r@ == output@.subrange(output@.len() - len, output@.len() as int),
    {
        slice_chars(output, output.len() - len, len)
    }

    /// A stretch of `count` characters starting at character index `start`.
    /// Indexing is by character, not by byte.
    pub fn get_range(s: &str, start: usize, count: usize) -> (r: String)
        requires
            start + count <= s@.len(),
        ensures
            r@ == s@.subrange(start as int, start as int + count as int),
    {
        let total = s.unicode_len();
        proof {
            assert(start + count <= total);
        }
        let sub = s.substring_char(start, start + count);
        sub.to_owned()
    }
}


/// A table of zeroes sums to zero.
pub proof fn lemma_zero_total(f: Seq<usize>)
    requires
        forall|s: int| 0 <= s < f.len() ==> f[s] == 0,
    ensures
        total_of(f) == 0,
    decreases f.len(),
{
    if f.len() > 0 {
        lemma_zero_total(f.drop_last());
    }
}

/// With a tail longer than the text there is nothing to count.
pub proof fn lemma_follow_vacuous(text: Seq<char>, pat: Seq<char>, m: CharIdxMap, bound: int)
    requires
        pat.len() > text.len(),
    ensures
        forall|s: int| follow_count(text, pat, m, s, bound) == 0,
        follow_total(text, pat, bound) == 0,
    decreases bound,
{
    if bound > 0 {
        lemma_follow_vacuous(text, pat, m, bound - 1);
        assert forall|s: int| follow_count(text, pat, m, s, bound) == 0 by {
            assert(follow_count(text, pat, m, s, bound - 1) == 0);
            assert(!occurs_at(text, pat, bound - 1));
        }
        assert(!occurs_at(text, pat, bound - 1));
    }
}

} // verus!
