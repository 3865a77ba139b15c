use vstd::prelude::*;

verus! {

/// A word of a checked query: either corrected, keeping the original
/// spelling beside the correction, or left as it was.
#[derive(Clone, Debug)]
pub enum CorrectionTerm {
    Corrected { orig: Vec<u8>, correction: Vec<u8> },
    NotCorrected(Vec<u8>),
}

/// A spelling correction of a whole query: the original text and one term
/// per word.
#[derive(Clone, Debug)]
pub struct Correction {
    pub original: Vec<u8>,
    pub terms: Vec<CorrectionTerm>,
}

impl Correction {
    /// An empty correction of the given original text.
    pub fn empty(original: Vec<u8>) -> (r: Self)
        ensures
            r.original == original,
            r.terms@ == Seq::<CorrectionTerm>::empty(),
    {
        Correction { original, terms: Vec::new() }
    }

    /// Appends one term.
    pub fn push(&mut self, term: CorrectionTerm)
        ensures
            final(self).original == old(self).original,
            final(self).terms@ == old(self).terms@.push(term),
    {
        self.terms.push(term);
    }

    /// Whether no term was corrected.
    pub fn is_all_orig(&self) -> (r: bool)
        ensures
            r == (forall|i: int|
                0 <= i < self.terms@.len() ==> (#[trigger] self.terms@[i]) is NotCorrected),
    {
        let mut i: usize = 0;
        while i < self.terms.len()
            invariant
                0 <= i <= self.terms@.len(),
                forall|k: int| 0 <= k < i ==> (#[trigger] self.terms@[k]) is NotCorrected,
            decreases self.terms@.len() - i,
        {
            match &self.terms[i] {
                CorrectionTerm::Corrected { .. } => {
                    return false;
                },
                CorrectionTerm::NotCorrected(_) => {},
            }
            i = i + 1;
        }
        true
    }
}

/// Whether byte `i` of UTF-8 text starts a character (or is the end of the
/// text): it is not a continuation byte.
pub open spec fn is_boundary(s: Seq<u8>, i: int) -> bool {
    i == s.len() || (0 <= i < s.len() && !(0x80 <= s[i] < 0xC0))
}

/// The next character boundary at or after `index`.
pub fn ceil_char_boundary(text: &[u8], index: usize) -> (r: usize)
    requires
        index <= text@.len(),
    ensures
        index <= r <= text@.len(),
        is_boundary(text@, r as int),
        forall|k: int| index <= k < r ==> !is_boundary(text@, k),
{
    let mut res: usize = index;
    while res < text.len() && text[res] >= 0x80 && text[res] < 0xC0
        invariant
            index <= res <= text@.len(),
            forall|k: int| index <= k < res ==> !is_boundary(text@, k),
        decreases text@.len() - res,
    {
        res = res + 1;
    }
    res
}

/// An ASCII letter mapped to lower case; every other byte kept.
pub open spec fn lower_byte(b: u8) -> u8 {
    if 0x41 <= b <= 0x5A {
        (b + 0x20) as u8
    } else {
        b
    }
}

/// ASCII whitespace.
pub open spec fn is_ws(b: u8) -> bool {
    b == 0x20 || b == 0x09 || b == 0x0A || b == 0x0C || b == 0x0D
}

/// A byte a token may hold: a lower-case letter, a digit, a dash or an
/// underscore.
pub open spec fn token_byte(b: u8) -> bool {
    (0x61 <= b <= 0x7A) || (0x30 <= b <= 0x39) || b == 0x2D || b == 0x5F
}

/// One splitting step: whitespace closes the current word, any other byte
/// extends it in lower case.
pub open spec fn split_step(st: (Seq<Seq<u8>>, Seq<u8>), b: u8) -> (Seq<Seq<u8>>, Seq<u8>) {
    if is_ws(b) {
        if st.1.len() > 0 {
            (st.0.push(st.1), Seq::empty())
        } else {
            st
        }
    } else {
        (st.0, st.1.push(lower_byte(b)))
    }
}

pub open spec fn split_fold(s: Seq<u8>) -> (Seq<Seq<u8>>, Seq<u8>)
    decreases s.len(),
{
    if s.len() == 0 {
        (Seq::<Seq<u8>>::empty(), Seq::<u8>::empty())
    } else {
        split_step(split_fold(s.drop_last()), s.last())
    }
}

/// The lower-cased words of the text, split on ASCII whitespace.
pub open spec fn split_words(s: Seq<u8>) -> Seq<Seq<u8>> {
    let st = split_fold(s);
    if st.1.len() > 0 {
        st.0.push(st.1)
    } else {
        st.0
    }
}

/// Whether a word survives the tokenizer: every byte is a token byte.
pub open spec fn all_token_bytes(w: Seq<u8>) -> bool {
    forall|i: int| 0 <= i < w.len() ==> token_byte(#[trigger] w[i])
}

/// The tokenizer's keep-predicate, as a single function value.
pub open spec fn token_pred() -> spec_fn(Seq<u8>) -> bool {
    |w: Seq<u8>| all_token_bytes(w)
}

/// What `tokenize` returns: the words whose bytes are all letters, digits,
/// dashes or underscores.
pub open spec fn tokens_of(s: Seq<u8>) -> Seq<Seq<u8>> {
    split_words(s).filter(token_pred())
}

proof fn lemma_filter_push(s: Seq<Seq<u8>>, x: Seq<u8>)
    ensures
        all_token_bytes(x) ==> s.push(x).filter(token_pred()) == s.filter(token_pred()).push(x),
        !all_token_bytes(x) ==> s.push(x).filter(token_pred()) == s.filter(token_pred()),
{
    reveal(Seq::filter);
    assert(s.push(x).drop_last() =~= s);
    assert(s.push(x).last() == x);
}

/// Whether every byte of this word is a token byte.
fn token_ok(w: &Vec<u8>) -> (r: bool)
    ensures
        r == all_token_bytes(w@),
{
    let mut i: usize = 0;
    while i < w.len()
        invariant
            0 <= i <= w@.len(),
            forall|k: int| 0 <= k < i ==> token_byte(#[trigger] w@[k]),
        decreases w@.len() - i,
    {
        let b = w[i];
        let ok = (0x61 <= b && b <= 0x7A) || (0x30 <= b && b <= 0x39) || b == 0x2D || b == 0x5F;
        if !ok {
            return false;
        }
        i = i + 1;
    }
    true
}

/// Splits the text into lower-case words on ASCII whitespace and keeps the
/// words made only of letters, digits, dashes and underscores.
pub fn tokenize(text: &[u8]) -> (r: Vec<Vec<u8>>)
    ensures
        r@.map_values(|w: Vec<u8>| w@) == tokens_of(text@),
{
    let mut words: Vec<Vec<u8>> = Vec::new();
    let mut current: Vec<u8> = Vec::new();
    let mut i: usize = 0;
    proof {
        assert(text@.take(0) =~= Seq::<u8>::empty());
        assert(split_fold(text@.take(0)).0.filter(token_pred()) =~= Seq::<Seq<u8>>::empty()) by {
            reveal(Seq::filter);
        }
        assert(words@.map_values(|w: Vec<u8>| w@) =~= split_fold(text@.take(0)).0.filter(
            token_pred(),
        ));
    }
    while i < text.len()
        invariant
            0 <= i <= text@.len(),
            current@ == split_fold(text@.take(i as int)).1,
            words@.map_values(|w: Vec<u8>| w@) == split_fold(text@.take(i as int)).0.filter(
                token_pred(),
            ),
        decreases text@.len() - i,
    {
        proof {
            assert(text@.take(i + 1).drop_last() =~= text@.take(i as int));
        }
        let b = text[i];
        let ws = b == 0x20 || b == 0x09 || b == 0x0A || b == 0x0C || b == 0x0D;
        if ws {
            if current.len() > 0 {
                let ghost st0 = split_fold(text@.take(i as int)).0;
                let word = current;
                current = Vec::new();
                if token_ok(&word) {
                    let ghost before = words@.map_values(|w: Vec<u8>| w@);
                    words.push(word);
                    proof {
                        assert(words@.map_values(|w: Vec<u8>| w@) =~= before.push(word@));
                        lemma_filter_push(st0, word@);
                    }
                } else {
                    proof {
                        lemma_filter_push(st0, word@);
                    }
                }
            }
        } else {
            let lb = if 0x41 <= b && b <= 0x5A {
                b + 0x20
            } else {
                b
            };
            current.push(lb);
        }
        i = i + 1;
    }
    proof {
        assert(text@.take(text@.len() as int) =~= text@);
    }
    if current.len() > 0 {
        let ghost st0 = split_fold(text@).0;
        let word = current;
        if token_ok(&word) {
            let ghost before = words@.map_values(|w: Vec<u8>| w@);
            words.push(word);
            proof {
                assert(words@.map_values(|w: Vec<u8>| w@) =~= before.push(word@));
                lemma_filter_push(st0, word@);
            }
        } else {
            proof {
                lemma_filter_push(st0, word@);
            }
        }
    }
    words
}

/// Lower-cases ASCII letters byte by byte.
fn to_ascii_lower(text: &[u8]) -> (r: Vec<u8>)
    ensures
        r@.len() == text@.len(),
        forall|i: int| 0 <= i < text@.len() ==> r@[i] == lower_byte(#[trigger] text@[i]),
{
    let mut r: Vec<u8> = Vec::new();
    let mut i: usize = 0;
    while i < text.len()
        invariant
            0 <= i <= text@.len(),
            r@.len() == i,
            forall|k: int| 0 <= k < i ==> r@[k] == lower_byte(#[trigger] text@[k]),
        decreases text@.len() - i,
    {
        let b = text[i];
        let lb = if 0x41 <= b && b <= 0x5A {
            b + 0x20
        } else {
            b
        };
        r.push(lb);
        i = i + 1;
    }
    r
}

/// Whether the region `[start, end)` of the lower-cased text ends in one of
/// the abbreviations that never close a sentence.
fn ends_with_abbreviation(t: &Vec<u8>, start: usize, end: usize) -> (r: bool)
    requires
        start <= end <= t@.len(),
        forall|i: int| 0 <= i < t@.len() ==> #[trigger] t@[i] == lower_byte(t@[i]),
    ensures
        r == abbrev_before(t@, end as int, start as int),
{
    if end - start < 3 {
        return false;
    }
    let c0 = t[end - 3];
    let c1 = t[end - 2];
    let c2 = t[end - 1];
    if c2 != 0x2E {
        return false;
    }
    if c1 != 0x72 && c1 != 0x73 {
        return false;
    }
    // "mr.", "ms.", "dr."
    (c0 == 0x6D && (c1 == 0x72 || c1 == 0x73)) || (c0 == 0x64 && c1 == 0x72)
}

/// A sentence-closing byte: a period, newline, question mark or
/// exclamation mark.
pub open spec fn is_stop_byte(b: u8) -> bool {
    b == 0x2E || b == 0x0A || b == 0x3F || b == 0x21
}

/// The last three bytes before `e` spell one of the abbreviations that
/// never close a sentence, and they lie inside the current sentence
/// window.
pub open spec fn abbrev_before(t: Seq<u8>, e: int, w: int) -> bool {
    &&& e - w >= 3
    &&& e >= 3
    &&& e <= t.len()
    &&& lower_byte(t[e - 1]) == 0x2E
    &&& ((lower_byte(t[e - 3]) == 0x6D && (lower_byte(t[e - 2]) == 0x72 || lower_byte(t[e - 2])
        == 0x73)) || (lower_byte(t[e - 3]) == 0x64 && lower_byte(t[e - 2]) == 0x72))
}

/// An inner sentence break: the first character boundary after a
/// sentence-closing character, itself followed by whitespace.
pub open spec fn inner_break_ok(t: Seq<u8>, e: int) -> bool {
    &&& 0 < e < t.len()
    &&& is_ws(lower_byte(t[e]))
    &&& is_boundary(t, e)
    &&& exists|p: int|
        0 <= p < e && is_stop_byte(lower_byte(#[trigger] t[p])) && (forall|q: int|
            p < q < e ==> !is_boundary(t, q))
}

/// The ranges are in bounds, ordered and non-overlapping, and the last one
/// ends at the end of the text.
pub open spec fn ranges_wf(r: Seq<(usize, usize)>, len: int) -> bool {
    &&& r.len() >= 1
    &&& forall|i: int| 0 <= i < r.len() ==> (#[trigger] r[i]).0 <= r[i].1 <= len
    &&& forall|i: int| 0 <= i < r.len() - 1 ==> (#[trigger] r[i]).1 <= r[i + 1].0
    &&& r[r.len() - 1].1 == len
}

/// Splits UTF-8 text into sentence ranges at periods, newlines, question
/// marks and exclamation marks: every inner range ends right after such a
/// closing character, cut at a character boundary and followed by
/// whitespace, and never right after the abbreviations mr., ms. or dr.;
/// the ranges are ordered, non-overlapping and reach the end of the text.
/// Leading whitespace of each sentence is skipped; the rest is heuristic.
pub fn sentence_ranges(text: &[u8]) -> (r: Vec<(usize, usize)>)
    ensures
        ranges_wf(r@, text@.len() as int),
        forall|k: int|
            0 <= k < r@.len() - 1 ==> inner_break_ok(text@, (#[trigger] r@[k]).1 as int),
        forall|k: int|
            0 <= k < r@.len() - 1 ==> !abbrev_before(
                text@,
                (#[trigger] r@[k]).1 as int,
                if k == 0 {
                    0int
                } else {
                    r@[k - 1].1 as int
                },
            ),
{
    let t = to_ascii_lower(text);
    proof {
        assert forall|i: int| 0 <= i < t@.len() implies #[trigger] t@[i] == lower_byte(
            t@[i],
        ) by {
            assert(t@[i] == lower_byte(text@[i]));
        }
        assert forall|q: int|
            0 <= q <= t@.len() implies (is_boundary(t@, q) <==> is_boundary(text@, q)) by {
            if 0 <= q < t@.len() {
                assert(t@[q] == lower_byte(text@[q]));
            }
        }
    }
    let mut res: Vec<(usize, usize)> = Vec::new();
    let mut last_start: usize = 0;
    let mut pos: usize = 0;
    while pos < t.len()
        invariant
            0 <= pos <= t@.len(),
            t@.len() == text@.len(),
            forall|i: int| 0 <= i < t@.len() ==> #[trigger] t@[i] == lower_byte(text@[i]),
            forall|i: int| 0 <= i < t@.len() ==> #[trigger] t@[i] == lower_byte(t@[i]),
            forall|q: int| 0 <= q <= t@.len() ==> (is_boundary(t@, q) <==> is_boundary(text@, q)),
            last_start <= t@.len(),
            last_start as int == if res@.len() == 0 {
                0int
            } else {
                res@.last().1 as int
            },
            forall|i: int| 0 <= i < res@.len() ==> (#[trigger] res@[i]).0 <= res@[i].1
                <= t@.len(),
            forall|i: int| 0 <= i < res@.len() - 1 ==> (#[trigger] res@[i]).1 <= res@[i + 1].0,
            forall|k: int| 0 <= k < res@.len() ==> inner_break_ok(
                text@,
                (#[trigger] res@[k]).1 as int,
            ),
            forall|k: int|
                0 <= k < res@.len() ==> !abbrev_before(
                    text@,
                    (#[trigger] res@[k]).1 as int,
                    if k == 0 {
                        0int
                    } else {
                        res@[k - 1].1 as int
                    },
                ),
        decreases t@.len() - pos,
    {
        let b = t[pos];
        let is_stop = b == 0x2E || b == 0x0A || b == 0x3F || b == 0x21;
        if is_stop {
            let end = ceil_char_boundary(t.as_slice(), pos + 1);
            let window_start = if last_start < end {
                last_start
            } else {
                end
            };
            if !ends_with_abbreviation(&t, window_start, end) {
                let splits = end < t.len() && {
                    let nb = t[end];
                    nb == 0x20 || nb == 0x09 || nb == 0x0A || nb == 0x0C || nb == 0x0D
                };
                if splits {
                    let mut start = last_start;
                    while start < end && (t[start] == 0x20 || t[start] == 0x09 || t[start] == 0x0A
                        || t[start] == 0x0C || t[start] == 0x0D)
                        invariant
                            last_start <= start,
                            start <= t@.len(),
                            end <= t@.len(),
                        decreases t@.len() - start,
                    {
                        let next = ceil_char_boundary(t.as_slice(), start + 1);
                        start = next;
                    }
                    if start <= end {
                        proof {
                            assert(inner_break_ok(text@, end as int)) by {
                                assert(t@[pos as int] == lower_byte(text@[pos as int]));
                                assert(is_stop_byte(lower_byte(text@[pos as int])));
                                assert(is_boundary(text@, end as int));
                                assert(t@[end as int] == lower_byte(text@[end as int]));
                                assert forall|q: int|
                                    pos < q < end implies !is_boundary(text@, q) by {
                                    assert(!is_boundary(t@, q));
                                }
                            }
                            assert(!abbrev_before(text@, end as int, last_start as int)) by {
                                if last_start as int <= end as int {
                                    assert(!abbrev_before(t@, end as int, window_start as int));
                                    if abbrev_before(text@, end as int, last_start as int) {
                                        assert(t@[end - 3] == lower_byte(text@[end - 3]));
                                        assert(t@[end - 2] == lower_byte(text@[end - 2]));
                                        assert(t@[end - 1] == lower_byte(text@[end - 1]));
                                        assert(lower_byte(t@[end - 3]) == lower_byte(
                                            text@[end - 3],
                                        ));
                                        assert(lower_byte(t@[end - 2]) == lower_byte(
                                            text@[end - 2],
                                        ));
                                        assert(lower_byte(t@[end - 1]) == lower_byte(
                                            text@[end - 1],
                                        ));
                                    }
                                }
                            }
                        }
                        res.push((start, end));
                        last_start = end;
                    }
                }
            }
        }
        pos = pos + 1;
    }
    let mut start = last_start;
    while start < t.len() && (t[start] == 0x20 || t[start] == 0x09 || t[start] == 0x0A || t[start]
        == 0x0C || t[start] == 0x0D)
        invariant
            last_start <= start <= t@.len(),
        decreases t@.len() - start,
    {
        let next = ceil_char_boundary(t.as_slice(), start + 1);
        start = next;
    }
    let tail_start = if start <= t.len() {
        start
    } else {
        t.len()
    };
    res.push((tail_start, t.len()));
    res
}

} // verus!
