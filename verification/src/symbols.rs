//! The symbol index: a bijection between characters and the compact integer
//! slots that address the frequency table. ASCII code points map to their own
//! value; the distinct non-ASCII characters of the source get slots from 129
//! up, in first-encounter order.

use vstd::prelude::*;
use unicode_normalization::UnicodeNormalization;
use crate::text::chars_of;

verus! {

/// The lowest slot handed to a non-ASCII character.
pub const EXTRA_CHARS_BASE_IDX: usize = 129;

pub open spec fn is_ascii_char(c: char) -> bool {
    c as u32 <= 127
}

/// A character is a Unicode scalar value, so its code point lies below
/// `0x110000`.
pub proof fn lemma_char_bound(c: char)
    ensures
        0 <= c as int,
        (c as int) < 0x110000,
        c as u32 as int == c as int,
{
}

/// First position of `c` in `s`.
pub open spec fn pos_of(s: Seq<char>, c: char) -> int
    decreases s.len(),
{
    if s.len() == 0 {
        0
    } else if s[0] == c {
        0
    } else {
        1 + pos_of(s.drop_first(), c)
    }
}

pub proof fn lemma_pos_of(s: Seq<char>, c: char)
    requires
        s.contains(c),
    ensures
        0 <= pos_of(s, c) < s.len(),
        s[pos_of(s, c)] == c,
    decreases s.len(),
{
    if s.len() > 0 && s[0] != c {
        assert(s.drop_first().contains(c)) by {
            let k = choose|k: int| 0 <= k < s.len() && s[k] == c;
            assert(s.drop_first()[k - 1] == c);
        }
        lemma_pos_of(s.drop_first(), c);
        assert(s[pos_of(s, c)] == s.drop_first()[pos_of(s.drop_first(), c)]);
    }
}

/// The distinct non-ASCII characters of `s`, in first-encounter order.
pub open spec fn distinct_non_ascii(s: Seq<char>) -> Seq<char>
    decreases s.len(),
{
    if s.len() == 0 {
        seq![]
    } else {
        let rest = distinct_non_ascii(s.drop_last());
        if !is_ascii_char(s.last()) && !rest.contains(s.last()) {
            rest.push(s.last())
        } else {
            rest
        }
    }
}

/// What `distinct_non_ascii` yields: exactly the non-ASCII characters of the
/// text, each once.
pub proof fn lemma_distinct_non_ascii(s: Seq<char>)
    ensures
        forall|i: int|
            0 <= i < distinct_non_ascii(s).len() ==> !is_ascii_char(
                #[trigger] distinct_non_ascii(s)[i],
            ),
        forall|i: int, j: int|
            0 <= i < j < distinct_non_ascii(s).len() ==> #[trigger] distinct_non_ascii(s)[i]
                != #[trigger] distinct_non_ascii(s)[j],
        forall|c: char|
            #[trigger] distinct_non_ascii(s).contains(c) <==> (s.contains(c) && !is_ascii_char(c)),
        distinct_non_ascii(s).len() <= s.len(),
    decreases s.len(),
{
    if s.len() > 0 {
        lemma_distinct_non_ascii(s.drop_last());
        let rest = distinct_non_ascii(s.drop_last());
        assert forall|c: char| #[trigger] distinct_non_ascii(s).contains(c) implies (s.contains(c)
            && !is_ascii_char(c)) by {
            if rest.contains(c) {
                assert(s.drop_last().contains(c));
                let k = choose|k: int| 0 <= k < s.drop_last().len() && s.drop_last()[k] == c;
                assert(s[k] == c);
            } else {
                assert(c == s.last());
                assert(s[s.len() - 1] == c);
            }
        }
        assert forall|c: char| (s.contains(c) && !is_ascii_char(c)) implies #[trigger] distinct_non_ascii(
            s,
        ).contains(c) by {
            let k = choose|k: int| 0 <= k < s.len() && s[k] == c;
            if k < s.len() - 1 {
                assert(s.drop_last()[k] == c);
                assert(rest.contains(c));
                if !is_ascii_char(s.last()) && !rest.contains(s.last()) {
                    let p = choose|p: int| 0 <= p < rest.len() && rest[p] == c;
                    assert(distinct_non_ascii(s)[p] == c);
                } else {
                    assert(distinct_non_ascii(s).contains(c));
                }
            } else {
                if !rest.contains(s.last()) {
                    assert(distinct_non_ascii(s).last() == c);
                } else {
                    let p = choose|p: int| 0 <= p < rest.len() && rest[p] == c;
                    assert(distinct_non_ascii(s)[p] == c);
                }
            }
        }
    }
}

/// There are fewer Unicode scalar values than `0x110000`, so no text can
/// register more distinct non-ASCII characters than that.
pub proof fn lemma_distinct_non_ascii_len_bound(s: Seq<char>)
    ensures
        distinct_non_ascii(s).len() <= 0x110000,
{
    broadcast use vstd::seq_lib::group_seq_properties;

    let d = distinct_non_ascii(s);
    lemma_distinct_non_ascii(s);
    assert(d.no_duplicates());
    d.unique_seq_to_set();
    let f = |c: char| c as int;
    let y = d.to_set().map(f);
    assert(vstd::relations::injective_on(f, d.to_set()));
    vstd::set_lib::lemma_map_size(d.to_set(), y, f);
    vstd::set_lib::lemma_int_range(0, 0x110000);
    assert(y.subset_of(vstd::set_lib::set_int_range(0, 0x110000))) by {
        assert forall|b: int| y.contains(b) implies 0 <= b < 0x110000 by {
            let a = choose|x: char| d.to_set().contains(x) && b == f(x);
            assert(d.to_set().contains(a) && b == f(a));
            lemma_char_bound(a);
        }
    }
    vstd::set_lib::lemma_len_subset(y, vstd::set_lib::set_int_range(0, 0x110000));
}

/// Whether `v` holds `c`.
pub fn contains_char(v: &Vec<char>, c: char) -> (b: bool)
    ensures
        b == v@.contains(c),
{
    let mut i: usize = 0;
    while i < v.len()
        invariant
            i <= v.len(),
            forall|k: int| 0 <= k < i ==> v@[k] != c,
        decreases v.len() - i,
    {
        if v[i] == c {
            return true;
        }
        i += 1;
    }
    proof {
        if v@.contains(c) {
            let k = choose|k: int| 0 <= k < v@.len() && v@[k] == c;
            assert(false);
        }
    }
    false
}

/// Maps characters to frequency-table slots and back. ASCII uses the identity
/// mapping; each distinct non-ASCII character of the source owns one slot
/// from `EXTRA_CHARS_BASE_IDX` up.
pub struct CharIdxMap {
    extra: Vec<char>,
}

impl View for CharIdxMap {
    type V = Seq<char>;

    closed spec fn view(&self) -> Seq<char> {
        self.extra@
    }
}

impl CharIdxMap {
    pub open spec fn inv(self) -> bool {
        &&& 129 + self@.len() <= usize::MAX
        &&& forall|i: int| 0 <= i < self@.len() ==> !is_ascii_char(#[trigger] self@[i])
        &&& forall|i: int, j: int| 0 <= i < j < self@.len() ==> self@[i] != self@[j]
    }

    /// Characters the map can address: all of ASCII, and the registered
    /// non-ASCII characters.
    pub open spec fn registered(self, c: char) -> bool {
        is_ascii_char(c) || self@.contains(c)
    }

    /// The slot of a registered character.
    pub open spec fn slot_of(self, c: char) -> int {
        if is_ascii_char(c) {
            c as u32 as int
        } else {
            129 + pos_of(self@, c)
        }
    }

    /// Number of slots a frequency table must offer: the ASCII range plus one
    /// per registered non-ASCII character.
    pub open spec fn table_size(self) -> int {
        129 + self@.len() as int
    }

    /// How many slots a frequency table must offer.
    pub fn table_len(&self) -> (r: usize)
        requires
            self.inv(),
        ensures
            r == self.table_size(),
    {
        EXTRA_CHARS_BASE_IDX + self.extra.len()
    }

    /// Builds the index over the given characters.
    pub fn from_chars(v: &Vec<char>) -> (r: Self)
        ensures
            r.inv(),
            r@ == distinct_non_ascii(v@),
    {
        let mut extra: Vec<char> = Vec::new();
        let mut i: usize = 0;
        proof {
            assert(v@.take(0) =~= Seq::<char>::empty());
            lemma_distinct_non_ascii(v@);
        }
        while i < v.len()
            invariant
                i <= v.len(),
                extra@ == distinct_non_ascii(v@.take(i as int)),
            decreases v.len() - i,
        {
            let c = v[i];
            proof {
                lemma_distinct_non_ascii(v@.take(i as int));
                assert(v@.take(i as int + 1).drop_last() =~= v@.take(i as int));
                assert(v@.take(i as int + 1).last() == v@[i as int]);
            }
            let ascii = (c as u32) <= 127;
            if !ascii && !contains_char(&extra, c) {
                extra.push(c);
            }
            i += 1;
        }
        proof {
            assert(v@.take(v@.len() as int) =~= v@);
            lemma_distinct_non_ascii(v@);
            lemma_distinct_non_ascii_len_bound(v@);
        }
        CharIdxMap { extra }
    }

    /// Builds the index over the characters of the given text.
    pub fn new(input: &str) -> (r: Self)
        ensures
            r.inv(),
            r@ == distinct_non_ascii(input@),
    {
        let v = chars_of(input);
        Self::from_chars(&v)
    }

    /// The frequency-table slot of `c`. Asking for an unregistered character
    /// is a contract violation, so the caller must know `c` is ASCII or was
    /// seen when the index was built.
    pub fn index_for(&self, c: char) -> (r: usize)
        requires
            self.inv(),
            self.registered(c),
        ensures
            r == self.slot_of(c),
            r < self.table_size(),
    {
        let u = c as u32;
        if u <= 127 {
            return u as usize;
        }
        proof {
            lemma_pos_of(self@, c);
        }
        let mut i: usize = 0;
        while i < self.extra.len()
            invariant
                self.inv(),
                self@.contains(c),
                !is_ascii_char(c),
                i <= self@.len(),
                forall|k: int| 0 <= k < i ==> self@[k] != c,
                0 <= pos_of(self@, c) < self@.len(),
                self@[pos_of(self@, c)] == c,
            decreases self.extra.len() - i,
        {
            if self.extra[i] == c {
                proof {
                    lemma_pos_of_first(self@, c, i as int);
                }
                return EXTRA_CHARS_BASE_IDX + i;
            }
            i += 1;
        }
        proof {
            assert(self@[pos_of(self@, c)] == c);
            assert(false);
        }
        0
    }

    /// The character that owns slot `idx`: the inverse of `index_for` on
    /// every registered character, and the replacement character on a
    /// non-ASCII slot that nothing owns.
    pub fn char_at(&self, idx: usize) -> (r: char)
        requires
            self.inv(),
        ensures
            idx <= 128 ==> r as u32 == idx,
            idx > 128 && idx < self.table_size() ==> r == self@[idx - 129],
            idx >= self.table_size() && idx > 128 ==> r == '\u{FFFD}',
            forall|c: char| self.registered(c) && self.slot_of(c) == idx ==> r == c,
    {
        let r: char;
        if idx > 128 {
            if idx - 129 < self.extra.len() {
                r = self.extra[idx - 129];
            } else {
                r = '\u{FFFD}';
            }
        } else {
            let b = idx as u8;
            r = b as char;
        }
        proof {
            assert forall|c: char| (self.registered(c) && self.slot_of(c) == idx) implies r == c by {
                lemma_char_bound(c);
                lemma_char_bound(r);
                assert(self.slot_of(c) == (if is_ascii_char(c) {
                    c as u32 as int
                } else {
                    129 + pos_of(self@, c)
                }));
                if is_ascii_char(c) {
                    assert(c as u32 == idx);
                    assert(idx <= 127);
                    assert(r as u32 == idx);
                } else {
                    lemma_pos_of(self@, c);
                    assert(idx == 129 + pos_of(self@, c));
                    assert(idx - 129 < self@.len());
                    assert(r == self@[idx - 129]);
                    assert(self@[pos_of(self@, c)] == c);
                }
            }
        }
        r
    }
}

/// The symbol index round trip: slots pin characters down, so two registered
/// characters with the same slot are the same character, and looking a
/// registered character's slot up backwards yields that character again (the
/// `char_at` contract states the backward direction).
pub proof fn lemma_slot_of_injective(m: CharIdxMap, a: char, b: char)
    requires
        m.inv(),
        m.registered(a),
        m.registered(b),
        m.slot_of(a) == m.slot_of(b),
    ensures
        a == b,
{
    lemma_char_bound(a);
    lemma_char_bound(b);
    if !is_ascii_char(a) {
        lemma_pos_of(m@, a);
    }
    if !is_ascii_char(b) {
        lemma_pos_of(m@, b);
    }
    if is_ascii_char(a) && is_ascii_char(b) {
        assert(a as int == b as int);
    } else if !is_ascii_char(a) && !is_ascii_char(b) {
        assert(m@[pos_of(m@, a)] == a);
    } else {
        assert(is_ascii_char(a) ==> m.slot_of(a) <= 127 && m.slot_of(b) >= 129);
        assert(is_ascii_char(b) ==> m.slot_of(b) <= 127 && m.slot_of(a) >= 129);
        assert(false);
    }
}

/// `pos_of` is the first position: a hit whose prefix is free of `c`.
pub proof fn lemma_pos_of_first(s: Seq<char>, c: char, i: int)
    requires
        0 <= i < s.len(),
        s[i] == c,
        forall|k: int| 0 <= k < i ==> s[k] != c,
    ensures
        pos_of(s, c) == i,
    decreases s.len(),
{
    if s[0] != c {
        assert forall|k: int| 0 <= k < i - 1 implies s.drop_first()[k] != c by {
            assert(s.drop_first()[k] == s[k + 1]);
        }
        assert(s.drop_first()[i - 1] == c);
        lemma_pos_of_first(s.drop_first(), c, i - 1);
    }
}

/// The canonical (NFC) form of a character sequence.
pub uninterp spec fn nfc_of(s: Seq<char>) -> Seq<char>;

/// Relies on unicode_normalization's nfc: canonical decomposition followed by
/// canonical composition, a function of the characters alone.
#[verifier::external_body]
pub fn nfc_chars(v: &Vec<char>) -> (r: Vec<char>)
    ensures
        r@ == nfc_of(v@),
{
    v.iter().copied().nfc().collect()
}

} // verus!
