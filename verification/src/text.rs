//! The whitespace model of the tokenizer: which characters separate words,
//! how a text splits into whitespace-delimited words, and how those words
//! are joined back with single spaces.

use vstd::prelude::*;

verus! {

/// The Unicode white-space code points, the set that `char::is_whitespace`
/// recognises.
pub open spec fn is_ws_char(c: char) -> bool {
    let u = c as u32;
    (9 <= u && u <= 13) || u == 32 || u == 0x85 || u == 0xA0 || u == 0x1680 || (0x2000 <= u
        && u <= 0x200A) || u == 0x2028 || u == 0x2029 || u == 0x202F || u == 0x205F || u == 0x3000
}

/// Runtime test for a white-space character.
pub fn ws_char(c: char) -> (b: bool)
    ensures
        b == is_ws_char(c),
{
    let u = c as u32;
    (9 <= u && u <= 13) || u == 32 || u == 0x85 || u == 0xA0 || u == 0x1680 || (0x2000 <= u
        && u <= 0x200A) || u == 0x2028 || u == 0x2029 || u == 0x202F || u == 0x205F || u == 0x3000
}

/// Length of the longest prefix of `s` that holds no white-space character.
pub open spec fn word_run(s: Seq<char>) -> nat
    decreases s.len(),
{
    if s.len() == 0 || is_ws_char(s[0]) {
        0
    } else {
        1 + word_run(s.drop_first())
    }
}

/// The whitespace-delimited words of `s`, in order: the maximal runs of
/// non-white-space characters.
pub open spec fn split_ws(s: Seq<char>) -> Seq<Seq<char>>
    decreases s.len(),
    via split_ws_decreases
{
    if s.len() == 0 {
        seq![]
    } else if is_ws_char(s[0]) {
        split_ws(s.drop_first())
    } else {
        seq![s.take(word_run(s) as int)] + split_ws(s.skip(word_run(s) as int))
    }
}

#[via_fn]
proof fn split_ws_decreases(s: Seq<char>) {
    if s.len() > 0 && !is_ws_char(s[0]) {
        lemma_word_run(s);
    }
}

/// `word_run` is bounded by the length, its prefix holds no white space,
/// and the character right after it (if any) is white space.
pub proof fn lemma_word_run(s: Seq<char>)
    ensures
        word_run(s) <= s.len(),
        forall|k: int| 0 <= k < word_run(s) ==> !is_ws_char(s[k]),
        word_run(s) < s.len() ==> is_ws_char(s[word_run(s) as int]),
    decreases s.len(),
{
    if s.len() == 0 || is_ws_char(s[0]) {
    } else {
        lemma_word_run(s.drop_first());
        assert forall|k: int| 0 <= k < word_run(s) implies !is_ws_char(s[k]) by {
            if k > 0 {
                assert(s[k] == s.drop_first()[k - 1]);
            }
        }
        if word_run(s) < s.len() {
            assert(s[word_run(s) as int] == s.drop_first()[word_run(s) as int - 1]);
        }
    }
}

/// A position `j` whose prefix is free of white space and that sits at the
/// end of the text or right before white space is exactly `word_run`.
pub proof fn lemma_word_run_is(s: Seq<char>, j: int)
    requires
        0 <= j <= s.len(),
        forall|k: int| 0 <= k < j ==> !is_ws_char(s[k]),
        j == s.len() || is_ws_char(s[j]),
    ensures
        word_run(s) == j,
    decreases s.len(),
{
    if s.len() == 0 {
    } else if is_ws_char(s[0]) {
        assert(j == 0);
    } else {
        assert(!is_ws_char(s[0]));
        assert(j >= 1);
        assert forall|k: int| 0 <= k < j - 1 implies !is_ws_char(s.drop_first()[k]) by {
            assert(s.drop_first()[k] == s[k + 1]);
        }
        if j < s.len() {
            assert(s.drop_first()[j - 1] == s[j]);
        }
        lemma_word_run_is(s.drop_first(), j - 1);
    }
}

/// Every word that `split_ws` yields is non-empty.
pub proof fn lemma_split_ws_nonempty(s: Seq<char>)
    ensures
        forall|k: int| 0 <= k < split_ws(s).len() ==> #[trigger] split_ws(s)[k].len() >= 1,
    decreases s.len(),
{
    if s.len() == 0 {
    } else if is_ws_char(s[0]) {
        lemma_split_ws_nonempty(s.drop_first());
        assert forall|k: int| 0 <= k < split_ws(s).len() implies #[trigger] split_ws(s)[k].len()
            >= 1 by {
            assert(split_ws(s)[k] == split_ws(s.drop_first())[k]);
        }
    } else {
        lemma_word_run(s);
        lemma_split_ws_nonempty(s.skip(word_run(s) as int));
        let rest = split_ws(s.skip(word_run(s) as int));
        assert forall|k: int| 0 <= k < split_ws(s).len() implies #[trigger] split_ws(s)[k].len()
            >= 1 by {
            if k == 0 {
                assert(word_run(s) >= 1);
                assert(split_ws(s)[0] == s.take(word_run(s) as int));
                assert(s.take(word_run(s) as int).len() == word_run(s));
            } else {
                assert(split_ws(s)[k] == rest[k - 1]);
            }
        }
    }
}

/// Splits the characters into whitespace-delimited words, as the model
/// `split_ws` describes.
pub fn split_whitespace_chars(v: &Vec<char>) -> (r: Vec<Vec<char>>)
    ensures
        r.deep_view() == split_ws(v@),
{
    let mut r: Vec<Vec<char>> = Vec::new();
    let mut i: usize = 0;
    proof {
        assert(v@.skip(0) =~= v@);
        assert(r.deep_view() + split_ws(v@) =~~= split_ws(v@));
    }
    while i < v.len()
        invariant
            i <= v.len(),
            split_ws(v@) == r.deep_view() + split_ws(v@.skip(i as int)),
        decreases v.len() - i,
    {
        if ws_char(v[i]) {
            proof {
                assert(v@.skip(i as int).drop_first() =~= v@.skip(i as int + 1));
            }
            i += 1;
        } else {
            let start: usize = i;
            let mut j: usize = i;
            let mut w: Vec<char> = Vec::new();
            while j < v.len() && !ws_char(v[j])
                invariant
                    start <= j <= v.len(),
                    start < v.len(),
                    !is_ws_char(v@[start as int]),
                    w@ == v@.subrange(start as int, j as int),
                    forall|k: int| start <= k < j ==> !is_ws_char(v@[k]),
                decreases v.len() - j,
            {
                w.push(v[j]);
                proof {
                    assert(w@ =~= v@.subrange(start as int, j as int + 1));
                }
                j += 1;
            }
            proof {
                let t = v@.skip(start as int);
                assert forall|k: int| 0 <= k < j - start implies !is_ws_char(t[k]) by {
                    assert(t[k] == v@[start + k]);
                }
                if (j as int) < v@.len() {
                    assert(t[j - start] == v@[j as int]);
                }
                lemma_word_run_is(t, j - start);
                assert(t.take(j - start) =~= v@.subrange(start as int, j as int));
                assert(t.skip(j - start) =~= v@.skip(j as int));
                let old_dv = r.deep_view();
                assert(split_ws(t) == seq![w@] + split_ws(v@.skip(j as int)));
                assert(old_dv + (seq![w@] + split_ws(v@.skip(j as int))) =~~= (old_dv + seq![w@])
                    + split_ws(v@.skip(j as int)));
            }
            let ghost old_dv = r.deep_view();
            r.push(w);
            proof {
                assert(r.deep_view() =~~= old_dv + seq![w@]);
            }
            i = j;
        }
    }
    proof {
        assert(v@.skip(v@.len() as int) =~= Seq::<char>::empty());
        assert(split_ws(v@) =~~= r.deep_view());
    }
    r
}

/// The words joined with a single space between neighbours, no space at
/// either end.
pub open spec fn join_spaced(ws: Seq<Seq<char>>) -> Seq<char>
    decreases ws.len(),
{
    if ws.len() == 0 {
        seq![]
    } else if ws.len() == 1 {
        ws[0]
    } else {
        join_spaced(ws.drop_last()) + seq![' '] + ws.last()
    }
}

/// Joins words with single spaces, as the model `join_spaced` describes.
pub fn join_with_spaces(words: &Vec<Vec<char>>) -> (r: Vec<char>)
    ensures
        r@ == join_spaced(words.deep_view()),
{
    let mut r: Vec<char> = Vec::new();
    let mut k: usize = 0;
    while k < words.len()
        invariant
            k <= words.len(),
            r@ == join_spaced(words.deep_view().take(k as int)),
        decreases words.len() - k,
    {
        if k > 0 {
            r.push(' ');
        }
        let ghost mid = r@;
        let w = &words[k];
        let mut t: usize = 0;
        while t < w.len()
            invariant
                t <= w.len(),
                r@ == mid + w@.subrange(0, t as int),
            decreases w.len() - t,
        {
            r.push(w[t]);
            proof {
                assert(r@ =~= mid + w@.subrange(0, t as int + 1));
            }
            t += 1;
        }
        proof {
            let dv = words.deep_view();
            assert(w@.subrange(0, w@.len() as int) =~= dv[k as int]);
            let pre = dv.take(k as int + 1);
            assert(pre.drop_last() =~~= dv.take(k as int));
            assert(pre.last() == dv[k as int]);
            if k == 0 {
                assert(r@ =~= join_spaced(pre));
            } else {
                assert(r@ =~= join_spaced(dv.take(k as int)) + seq![' '] + dv[k as int]);
            }
        }
        k += 1;
    }
    proof {
        assert(words.deep_view().take(words@.len() as int) =~~= words.deep_view());
    }
    r
}

/// Copies `count` characters of `v` starting at `start`.
pub fn slice_chars(v: &Vec<char>, start: usize, count: usize) -> (r: Vec<char>)
    requires
        start + count <= v.len(),
    ensures
        r@ == v@.subrange(start as int, start as int + count as int),
{
    let mut r: Vec<char> = Vec::new();
    let mut t: usize = 0;
    while t < count
        invariant
            t <= count,
            start + count <= v.len(),
            r@ == v@.subrange(start as int, start as int + t as int),
        decreases count - t,
    {
        r.push(v[start + t]);
        proof {
            assert(r@ =~= v@.subrange(start as int, start as int + t as int + 1));
        }
        t += 1;
    }
    r
}

/// Relies on str::chars: it yields the string's characters in order.
#[verifier::external_body]
pub fn chars_of(s: &str) -> (r: Vec<char>)
    ensures
        r@ == s@,
{
    s.chars().collect()
}

/// Relies on String's FromIterator over char: collecting characters builds
/// the string of exactly those characters, in order.
#[verifier::external_body]
pub fn string_from_chars(v: &Vec<char>) -> (r: String)
    ensures
        r@ == v@,
{
    v.iter().collect()
}

} // verus!
