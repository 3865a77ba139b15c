use vstd::prelude::*;

verus! {

/// One single-character edit that turns a piece of one word into another;
/// each character is carried as its Unicode code point.
#[derive(Clone, Copy, Debug, PartialEq, Eq, Structural)]
pub enum ErrorType {
    Insertion(u32),
    Deletion(u32),
    Substitution(u32, u32),
    Transposition(u32, u32),
}

/// The edits of one misspelling, in back-to-front order of the words.
#[derive(Clone, Debug, PartialEq, Eq)]
pub struct ErrorSequence(pub Vec<ErrorType>);

/// Whether a word holds a character with this code point.
pub open spec fn has_code(s: Seq<char>, c: u32) -> bool {
    exists|i: int| 0 <= i < s.len() && (#[trigger] s[i]) as u32 == c
}

/// The character a deletion or the first half of a substitution took away
/// comes from `a`; what an insertion or a substitution put in comes from
/// `b`.
pub open spec fn error_chars_from(e: ErrorType, a: Seq<char>, b: Seq<char>) -> bool {
    match e {
        ErrorType::Insertion(c) => has_code(b, c),
        ErrorType::Deletion(c) => has_code(a, c),
        ErrorType::Substitution(x, y) => has_code(a, x) && has_code(b, y),
        ErrorType::Transposition(x, y) => has_code(a, x) && has_code(a, y),
    }
}

/// The larger of two integers.
pub open spec fn int_max(x: int, y: int) -> int {
    if x < y {
        y
    } else {
        x
    }
}

/// The smallest of three integers.
pub open spec fn int_min3(x: int, y: int, z: int) -> int {
    if x <= y && x <= z {
        x
    } else if y <= z {
        y
    } else {
        z
    }
}

/// The Levenshtein distance: the least number of single-character
/// insertions, deletions and substitutions that turn `a` into `b`.
pub open spec fn lev(a: Seq<char>, b: Seq<char>) -> int
    decreases a.len() + b.len(),
{
    if a.len() == 0 {
        b.len() as int
    } else if b.len() == 0 {
        a.len() as int
    } else {
        let cost: int = if a.last() == b.last() {
            0
        } else {
            1
        };
        int_min3(
            lev(a.drop_last(), b) + 1,
            lev(a, b.drop_last()) + 1,
            lev(a.drop_last(), b.drop_last()) + cost,
        )
    }
}

/// The ways to turn `a` into `b` by single-character edits, read off a
/// Levenshtein backtrace; `None` exactly when the words are equal, else
/// one edit per unit of their Levenshtein distance.
pub fn possible_errors(a: &[char], b: &[char]) -> (r: Option<ErrorSequence>)
    requires
        a@.len() < usize::MAX,
        b@.len() < usize::MAX,
    ensures
        r is None <==> a@ == b@,
        r matches Some(e) ==> e.0@.len() > 0 && e.0@.len() == lev(a@, b@) && forall|k: int|
            0 <= k < e.0@.len() ==> error_chars_from(#[trigger] e.0@[k], a@, b@) && !((
            #[trigger] e.0@[k]) is Transposition),
{
    let mut eq = a.len() == b.len();
    let mut ci: usize = 0;
    while ci < a.len() && ci < b.len() && eq
        invariant
            0 <= ci <= a@.len(),
            ci <= b@.len(),
            eq ==> a@.len() == b@.len(),
            eq ==> (forall|k: int| 0 <= k < ci ==> a@[k] == b@[k]),
            !eq ==> a@ != b@,
        decreases a@.len() - ci,
    {
        if a[ci] != b[ci] {
            eq = false;
        }
        ci = ci + 1;
    }
    if eq {
        proof {
            assert(a@ =~= b@);
        }
        return None;
    }

    let a_len = a.len();
    let b_len = b.len();
    let mut dp: Vec<Vec<usize>> = Vec::new();
    let mut i: usize = 0;
    while i <= a_len
        invariant
            0 <= i <= a_len + 1,
            a_len == a@.len(),
            b_len == b@.len(),
            a_len < usize::MAX,
            b_len < usize::MAX,
            dp@.len() == i,
            forall|p: int| 0 <= p < i ==> (#[trigger] dp@[p])@.len() == b_len + 1,
            forall|p: int, q: int|
                0 <= p < i && 0 <= q <= b_len ==> (#[trigger] dp@[p]@[q]) == lev(
                    a@.take(p),
                    b@.take(q),
                ),
        decreases a_len + 1 - i,
    {
        let mut row: Vec<usize> = Vec::new();
        let mut j: usize = 0;
        while j <= b_len
            invariant
                0 <= j <= b_len + 1,
                a_len < usize::MAX,
                b_len < usize::MAX,
                i <= a_len,
                a_len == a@.len(),
                b_len == b@.len(),
                dp@.len() == i,
                forall|p: int| 0 <= p < i ==> (#[trigger] dp@[p])@.len() == b_len + 1,
                forall|p: int, q: int|
                    0 <= p < i && 0 <= q <= b_len ==> (#[trigger] dp@[p]@[q]) == lev(
                        a@.take(p),
                        b@.take(q),
                    ),
                row@.len() == j,
                forall|q: int| 0 <= q < j ==> (#[trigger] row@[q]) == lev(
                    a@.take(i as int),
                    b@.take(q),
                ),
        decreases b_len + 1 - j,
        {
            proof {
                lemma_lev_bounds(a@.take(i as int), b@.take(j as int));
            }
            let cell: usize;
            if i == 0 {
                cell = j;
                proof {
                    assert(a@.take(0) =~= Seq::<char>::empty());
                    assert(lev(a@.take(0), b@.take(j as int)) == j);
                }
            } else if j == 0 {
                cell = i;
                proof {
                    assert(b@.take(0) =~= Seq::<char>::empty());
                    assert(lev(a@.take(i as int), b@.take(0)) == i);
                }
            } else {
                let cost: usize = if a[i - 1] == b[j - 1] {
                    0
                } else {
                    1
                };
                proof {
                    lemma_lev_bounds(a@.take(i - 1), b@.take(j as int));
                    lemma_lev_bounds(a@.take(i as int), b@.take(j - 1));
                    lemma_lev_bounds(a@.take(i - 1), b@.take(j - 1));
                    assert(a@.take(i as int).drop_last() =~= a@.take(i - 1));
                    assert(b@.take(j as int).drop_last() =~= b@.take(j - 1));
                    assert(a@.take(i as int).last() == a@[i - 1]);
                    assert(b@.take(j as int).last() == b@[j - 1]);
                }
                let up = dp[i - 1][j] + 1;
                let left = row[j - 1] + 1;
                let diag = dp[i - 1][j - 1] + cost;
                let mut m = up;
                if left < m {
                    m = left;
                }
                if diag < m {
                    m = diag;
                }
                cell = m;
                proof {
                    assert(cell == lev(a@.take(i as int), b@.take(j as int)));
                }
            }
            row.push(cell);
            j = j + 1;
        }
        dp.push(row);
        i = i + 1;
    }

    let mut ii: usize = a_len;
    let mut jj: usize = b_len;
    let mut errors: Vec<ErrorType> = Vec::new();
    proof {
        assert(a@.take(a_len as int) =~= a@);
        assert(b@.take(b_len as int) =~= b@);
    }
    while ii > 0 && jj > 0
        invariant
            0 <= ii <= a_len,
            0 <= jj <= b_len,
            a_len == a@.len(),
            b_len == b@.len(),
            a@ != b@,
            dp@.len() == a_len + 1,
            forall|p: int| 0 <= p < dp@.len() ==> (#[trigger] dp@[p])@.len() == b_len + 1,
            forall|p: int, q: int|
                0 <= p <= a_len && 0 <= q <= b_len ==> (#[trigger] dp@[p]@[q]) == lev(
                    a@.take(p),
                    b@.take(q),
                ),
            errors@.len() + lev(a@.take(ii as int), b@.take(jj as int)) == lev(a@, b@),
            errors@.len() == 0 ==> a@.skip(ii as int) == b@.skip(jj as int),
            forall|k: int| 0 <= k < errors@.len() ==> error_chars_from(
                #[trigger] errors@[k],
                a@,
                b@,
            ) && !((#[trigger] errors@[k]) is Transposition),
        decreases ii + jj,
    {
        let cost: usize = if a[ii - 1] == b[jj - 1] {
            0
        } else {
            1
        };
        proof {
            lemma_lev_bounds(a@.take(ii - 1), b@.take(jj as int));
            lemma_lev_bounds(a@.take(ii as int), b@.take(jj - 1));
            lemma_lev_bounds(a@.take(ii - 1), b@.take(jj - 1));
            assert(a@.take(ii as int).drop_last() =~= a@.take(ii - 1));
            assert(b@.take(jj as int).drop_last() =~= b@.take(jj - 1));
            assert(a@.take(ii as int).last() == a@[ii - 1]);
            assert(b@.take(jj as int).last() == b@[jj - 1]);
        }
        if dp[ii][jj] == dp[ii - 1][jj - 1] + cost {
            if cost == 1 {
                proof {
                    assert(has_code(a@, a@[ii - 1] as u32));
                    assert(has_code(b@, b@[jj - 1] as u32));
                }
                errors.push(ErrorType::Substitution(a[ii - 1] as u32, b[jj - 1] as u32));
            } else {
                proof {
                    if errors@.len() == 0 {
                        assert forall|k: int|
                            0 <= k < a@.skip(ii - 1).len() implies #[trigger] a@.skip(ii - 1)[k]
                            == b@.skip(jj - 1)[k] by {
                            if k > 0 {
                                assert(a@.skip(ii as int)[k - 1] == b@.skip(jj as int)[k - 1]);
                            }
                        }
                        assert(a@.skip(ii - 1) =~= b@.skip(jj - 1));
                    }
                }
            }
            ii = ii - 1;
            jj = jj - 1;
        } else if dp[ii][jj] == dp[ii - 1][jj] + 1 {
            proof {
                assert(has_code(a@, a@[ii - 1] as u32));
            }
            errors.push(ErrorType::Deletion(a[ii - 1] as u32));
            ii = ii - 1;
        } else {
            proof {
                assert(has_code(b@, b@[jj - 1] as u32));
                assert(lev(a@.take(ii as int), b@.take(jj as int)) == lev(
                    a@.take(ii as int),
                    b@.take(jj - 1),
                ) + 1);
            }
            errors.push(ErrorType::Insertion(b[jj - 1] as u32));
            jj = jj - 1;
        }
    }
    while ii > 0
        invariant
            0 <= ii <= a_len,
            0 <= jj <= b_len,
            a_len == a@.len(),
            b_len == b@.len(),
            a@ != b@,
            errors@.len() + lev(a@.take(ii as int), b@.take(jj as int)) == lev(a@, b@),
            jj == 0 || ii == 0,
            errors@.len() == 0 ==> a@.skip(ii as int) == b@.skip(jj as int),
            forall|k: int| 0 <= k < errors@.len() ==> error_chars_from(
                #[trigger] errors@[k],
                a@,
                b@,
            ) && !((#[trigger] errors@[k]) is Transposition),
        decreases ii,
    {
        proof {
            assert(has_code(a@, a@[ii - 1] as u32));
            assert(b@.take(0) =~= Seq::<char>::empty());
            assert(a@.take(ii as int).drop_last() =~= a@.take(ii - 1));
            lemma_lev_bounds(a@.take(ii as int), b@.take(0));
        }
        errors.push(ErrorType::Deletion(a[ii - 1] as u32));
        ii = ii - 1;
    }
    while jj > 0
        invariant
            0 <= ii <= a_len,
            0 <= jj <= b_len,
            a_len == a@.len(),
            b_len == b@.len(),
            a@ != b@,
            ii == 0,
            errors@.len() + lev(a@.take(ii as int), b@.take(jj as int)) == lev(a@, b@),
            errors@.len() == 0 ==> ii == 0 && a@.skip(ii as int) == b@.skip(jj as int),
            forall|k: int| 0 <= k < errors@.len() ==> error_chars_from(
                #[trigger] errors@[k],
                a@,
                b@,
            ) && !((#[trigger] errors@[k]) is Transposition),
        decreases jj,
    {
        proof {
            assert(has_code(b@, b@[jj - 1] as u32));
            assert(a@.take(0) =~= Seq::<char>::empty());
            assert(b@.take(jj as int).drop_last() =~= b@.take(jj - 1));
        }
        errors.push(ErrorType::Insertion(b[jj - 1] as u32));
        jj = jj - 1;
    }

    proof {
        assert(a@.take(0) =~= Seq::<char>::empty());
        assert(b@.take(0) =~= Seq::<char>::empty());
        assert(errors@.len() == lev(a@, b@));
        if errors@.len() == 0 {
            assert(ii == 0 && jj == 0);
            assert(a@.skip(0) =~= a@);
            assert(b@.skip(0) =~= b@);
            assert(false);
        }
    }
    Some(ErrorSequence(errors))
}

/// The distance never exceeds the longer word's length, nor goes below
/// zero.
proof fn lemma_lev_bounds(a: Seq<char>, b: Seq<char>)
    ensures
        0 <= lev(a, b) <= int_max(a.len() as int, b.len() as int),
    decreases a.len() + b.len(),
{
    if a.len() > 0 && b.len() > 0 {
        lemma_lev_bounds(a.drop_last(), b);
        lemma_lev_bounds(a, b.drop_last());
        lemma_lev_bounds(a.drop_last(), b.drop_last());
    }
}

/// Whether two edit sequences are the same edits in the same order.
pub fn error_sequences_eq(x: &ErrorSequence, y: &ErrorSequence) -> (r: bool)
    ensures
        r == (x.0@ == y.0@),
{
    if x.0.len() != y.0.len() {
        proof {
            assert(x.0@ != y.0@);
        }
        return false;
    }
    let mut i: usize = 0;
    while i < x.0.len()
        invariant
            0 <= i <= x.0@.len(),
            x.0@.len() == y.0@.len(),
            forall|k: int| 0 <= k < i ==> x.0@[k] == y.0@[k],
        decreases x.0@.len() - i,
    {
        if x.0[i] != y.0[i] {
            return false;
        }
        i = i + 1;
    }
    proof {
        assert(x.0@ =~= y.0@);
    }
    true
}

/// An edit sequence that can stand for the misspelling of `b` as `a`: as
/// many edits as their Levenshtein distance, every edit drawn from the two
/// words, never a transposition — exactly what `possible_errors` promises
/// of its result.
pub open spec fn key_fits(k: ErrorSequence, a: Seq<char>, b: Seq<char>) -> bool {
    &&& k.0@.len() == lev(a, b)
    &&& k.0@.len() > 0
    &&& forall|i: int|
        0 <= i < k.0@.len() ==> error_chars_from(#[trigger] k.0@[i], a, b) && !((
        #[trigger] k.0@[i]) is Transposition)
}

/// One observation of the pair `(a, b)` went into the counts: either the
/// count of an entry whose edit sequence fits the pair rose by one, or a
/// new entry with such a sequence and count one was appended.
pub open spec fn counted_once(
    before: Seq<(ErrorSequence, u64)>,
    after: Seq<(ErrorSequence, u64)>,
    a: Seq<char>,
    b: Seq<char>,
) -> bool {
    ||| exists|i: int|
        0 <= i < before.len() && key_fits(#[trigger] before[i].0, a, b) && after == before.update(
            i,
            (before[i].0, (before[i].1 + 1) as u64),
        )
    ||| (after.len() == before.len() + 1 && after.take(before.len() as int) == before
        && after.last().1 == 1 && key_fits(after.last().0, a, b))
}

/// The total the model reports is the sum of the per-sequence counts.
pub open spec fn counts_sum(errors: Seq<(ErrorSequence, u64)>) -> int
    decreases errors.len(),
{
    if errors.len() == 0 {
        0
    } else {
        counts_sum(errors.drop_last()) + errors.last().1
    }
}

proof fn lemma_counts_sum_update(
    before: Seq<(ErrorSequence, u64)>,
    after: Seq<(ErrorSequence, u64)>,
    i: int,
)
    requires
        0 <= i < before.len(),
        after == before.update(i, (before[i].0, (before[i].1 + 1) as u64)),
        before[i].1 < u64::MAX,
    ensures
        counts_sum(after) == counts_sum(before) + 1,
    decreases before.len(),
{
    if i == before.len() - 1 {
        assert(after.drop_last() =~= before.drop_last());
    } else {
        assert(after.drop_last() =~= before.drop_last().update(
            i,
            (before[i].0, (before[i].1 + 1) as u64),
        ));
        lemma_counts_sum_update(before.drop_last(), after.drop_last(), i);
    }
}

proof fn lemma_counts_sum_push(before: Seq<(ErrorSequence, u64)>, e: (ErrorSequence, u64))
    ensures
        counts_sum(before.push(e)) == counts_sum(before) + e.1,
{
    assert(before.push(e).drop_last() =~= before);
}

/// Counts how often each edit sequence was seen, and how many misspellings
/// were seen in all; the probability of an edit sequence is its count over
/// the total.
pub struct ErrorModel {
    pub errors: Vec<(ErrorSequence, u64)>,
    pub total: u64,
}

impl ErrorModel {
    /// No two entries count the same edit sequence.
    pub open spec fn wf(self) -> bool {
        forall|i: int, j: int|
            0 <= i < j < self.errors@.len() ==> self.errors@[i].0.0@ != self.errors@[j].0.0@
    }

    pub fn new() -> (r: Self)
        ensures
            r.wf(),
            r.errors@.len() == 0,
            r.total == 0,
    {
        ErrorModel { errors: Vec::new(), total: 0 }
    }

    /// Observes the misspelling `a` of the word `b`: if the words differ,
    /// the count of their edit sequence and the total both go up by one.
    pub fn add(&mut self, a: &[char], b: &[char])
        requires
            old(self).wf(),
            a@.len() < usize::MAX,
            b@.len() < usize::MAX,
            old(self).total < u64::MAX,
            forall|i: int| 0 <= i < old(self).errors@.len() ==> (#[trigger] old(self).errors@[i]).1
                < u64::MAX,
        ensures
            final(self).wf(),
            a@ == b@ ==> *final(self) == *old(self),
            a@ != b@ ==> final(self).total == old(self).total + 1 && counted_once(
                old(self).errors@,
                final(self).errors@,
                a@,
                b@,
            ),
            old(self).total == counts_sum(old(self).errors@) ==> final(self).total == counts_sum(
                final(self).errors@,
            ),
    {
        let found = possible_errors(a, b);
        match found {
            None => {},
            Some(seq) => {
                proof {
                    assert(a@ != b@);
                }
                let mut i: usize = 0;
                while i < self.errors.len()
                    invariant
                        a@ != b@,
                        key_fits(seq, a@, b@),
                        0 <= i <= self.errors@.len(),
                        self.errors@ == old(self).errors@,
                        self.total == old(self).total,
                        old(self).wf(),
                        old(self).total < u64::MAX,
                        forall|k: int| 0 <= k < old(self).errors@.len() ==> (#[trigger] old(
                            self,
                        ).errors@[k]).1 < u64::MAX,
                        forall|k: int| 0 <= k < i ==> self.errors@[k].0.0@ != seq.0@,
                    decreases self.errors@.len() - i,
                {
                    if error_sequences_eq(&self.errors[i].0, &seq) {
                        let ghost before = self.errors@;
                        let mut entry = self.errors.remove(i);
                        entry.1 = entry.1 + 1;
                        self.errors.insert(i, entry);
                        self.total = self.total + 1;
                        proof {
                            assert(self.errors@ =~= before.update(
                                i as int,
                                (before[i as int].0, (before[i as int].1 + 1) as u64),
                            ));
                            assert(key_fits(before[i as int].0, a@, b@)) by {
                                assert(before[i as int].0.0@ == seq.0@);
                            }
                            if old(self).total == counts_sum(before) {
                                lemma_counts_sum_update(before, self.errors@, i as int);
                            }
                            assert forall|p: int, q: int|
                                0 <= p < q < self.errors@.len() implies self.errors@[p].0.0@
                                != self.errors@[q].0.0@ by {
                                assert(self.errors@[p].0 == before[p].0);
                                assert(self.errors@[q].0 == before[q].0);
                            }
                        }
                        return ;
                    }
                    i = i + 1;
                }
                let ghost before = self.errors@;
                proof {
                    if old(self).total == counts_sum(before) {
                        lemma_counts_sum_push(before, (seq, 1u64));
                    }
                }
                self.errors.push((seq, 1));
                self.total = self.total + 1;
                proof {
                    assert(self.errors@.take(before.len() as int) =~= before);
                    assert(key_fits(self.errors@.last().0, a@, b@));
                    assert forall|p: int, q: int|
                        0 <= p < q < self.errors@.len() implies self.errors@[p].0.0@
                        != self.errors@[q].0.0@ by {
                        if q < before.len() {
                            assert(self.errors@[p] == before[p]);
                            assert(self.errors@[q] == before[q]);
                        } else {
                            assert(self.errors@[p] == before[p]);
                            assert(self.errors@[q].0.0@ == seq.0@);
                        }
                    }
                }
            },
        }
    }
}

} // verus!
