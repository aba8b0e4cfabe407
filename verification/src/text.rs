//! Replacing and collapsing in text.

use vstd::prelude::*;

verus! {

/// `String::push` of std: appends one character.
pub assume_specification[ std::string::String::push ](s: &mut std::string::String, c: char)
    ensures
        final(s)@ == old(s)@.push(c),
;

/// Whether `pattern` occurs in `s` at position `i`.
pub open spec fn occurs_at(s: Seq<char>, i: int, pattern: Seq<char>) -> bool {
    &&& 0 <= i
    &&& i + pattern.len() <= s.len()
    &&& s.subrange(i, i + pattern.len()) == pattern
}

/// `s` with every occurrence of `pattern` replaced by `by`. Occurrences are taken from the left
/// and do not overlap, and what is put in is not searched again.
pub open spec fn replaced(s: Seq<char>, pattern: Seq<char>, by: Seq<char>) -> Seq<char>
    decreases s.len(),
{
    if s.len() == 0 || pattern.len() == 0 {
        s
    } else if occurs_at(s, 0, pattern) {
        by + replaced(s.skip(pattern.len() as int), pattern, by)
    } else {
        seq![s[0]] + replaced(s.skip(1), pattern, by)
    }
}

/// How many characters at the end of `s` are `c`.
pub open spec fn trailing(s: Seq<char>, c: char) -> nat
    decreases s.len(),
{
    if s.len() == 0 || s.last() != c {
        0
    } else {
        1 + trailing(s.drop_last(), c)
    }
}

/// `s` without the characters `c` that have `keep` others directly before them.
pub open spec fn collapsed(s: Seq<char>, c: char, keep: nat) -> Seq<char>
    decreases s.len(),
{
    if s.len() == 0 {
        s
    } else if trailing(s, c) > keep {
        collapsed(s.drop_last(), c, keep)
    } else {
        collapsed(s.drop_last(), c, keep).push(s.last())
    }
}

/// Whether no run of `c` in `s` is longer than `keep`.
pub open spec fn runs_within(s: Seq<char>, c: char, keep: nat) -> bool {
    forall|i: int| 0 <= i <= s.len() ==> trailing(#[trigger] s.take(i), c) <= keep
}

/// The characters of a string.
pub fn characters(s: &str) -> (r: Vec<char>)
    ensures
        r@ == s@,
{
    let mut r: Vec<char> = Vec::new();
    for c in it: s.chars()
        invariant
            r@ == it.seq().take(it.index() as int),
            it.seq() == s@,
    {
        r.push(c);
    }
    assert(r@ == s@);
    r
}

fn matches_at(text: &Vec<char>, i: usize, pattern: &Vec<char>) -> (r: bool)
    requires
        i <= text@.len(),
    ensures
        r == occurs_at(text@, i as int, pattern@),
{
    if pattern.len() > text.len() - i {
        return false;
    }
    let mut k: usize = 0;
    while k < pattern.len()
        invariant
            k <= pattern.len(),
            i + pattern.len() <= text.len(),
            forall|j: int| 0 <= j < k ==> text@[i + j] == pattern@[j],
        decreases pattern@.len() - k,
    {
        if text[i + k] != pattern[k] {
            assert(text@.subrange(i as int, i + pattern@.len())[k as int] != pattern@[k as int]);
            return false;
        }
        k = k + 1;
    }
    assert(text@.subrange(i as int, i + pattern@.len()) =~= pattern@);
    true
}

/// Replaces every occurrence of `pattern` in `s` by `by`.
pub fn replace_all(s: &str, pattern: &str, by: &str) -> (r: String)
    requires
        pattern@.len() > 0,
    ensures
        r@ == replaced(s@, pattern@, by@),
{
    let text = characters(s);
    let sought = characters(pattern);
    let mut r = String::new();
    let mut i: usize = 0;
    assert(text@.skip(0) =~= text@);
    while i < text.len()
        invariant
            i <= text@.len(),
            sought@ == pattern@,
            pattern@.len() > 0,
            replaced(text@, pattern@, by@) == r@ + replaced(text@.skip(i as int), pattern@, by@),
        decreases text@.len() - i,
    {
        let ghost rest = text@.skip(i as int);
        let found = matches_at(&text, i, &sought);
        proof {
            assert(found == occurs_at(rest, 0, pattern@)) by {
                if i + pattern@.len() <= text@.len() {
                    assert(text@.subrange(i as int, i + pattern@.len()) =~= rest.subrange(
                        0,
                        pattern@.len() as int,
                    ));
                }
            }
        }
        if found {
            r.append(by);
            i = i + sought.len();
            assert(rest.skip(pattern@.len() as int) =~= text@.skip(i as int));
        } else {
            r.push(text[i]);
            i = i + 1;
            assert(rest.skip(1) =~= text@.skip(i as int));
        }
    }
    assert(replaced(text@.skip(i as int), pattern@, by@) =~= Seq::<char>::empty());
    assert(r@ =~= replaced(text@, pattern@, by@));
    r
}

/// Collapses each run of `c` in `s` that is longer than `keep` to `keep` characters.
pub fn collapse_runs(s: &str, c: char, keep: usize) -> (r: String)
    ensures
        r@ == collapsed(s@, c, keep as nat),
{
    let text = characters(s);
    let mut r = String::new();
    let mut run: usize = 0;
    let mut i: usize = 0;
    while i < text.len()
        invariant
            i <= text@.len(),
            run <= i,
            run == trailing(text@.take(i as int), c),
            r@ == collapsed(text@.take(i as int), c, keep as nat),
        decreases text@.len() - i,
    {
        let ch = text[i];
        assert(text@.take(i + 1).drop_last() =~= text@.take(i as int));
        if ch == c {
            run = run + 1;
            if run <= keep {
                r.push(ch);
            }
        } else {
            run = 0;
            r.push(ch);
        }
        i = i + 1;
    }
    assert(text@.take(i as int) =~= text@);
    r
}

/// Every run of the collapsed text is within the bound.
pub proof fn law_collapsed_runs(s: Seq<char>, c: char, keep: nat)
    ensures
        runs_within(collapsed(s, c, keep), c, keep),
        s.len() > 0 && s.last() == c ==> trailing(collapsed(s, c, keep), c) == if trailing(s, c)
            <= keep {
            trailing(s, c)
        } else {
            keep
        },
    decreases s.len(),
{
    let r = collapsed(s, c, keep);
    if s.len() == 0 {
        assert forall|i: int| 0 <= i <= r.len() implies trailing(#[trigger] r.take(i), c)
            <= keep by {
            assert(r.take(i).len() == 0);
        }
    } else {
        let t = collapsed(s.drop_last(), c, keep);
        law_collapsed_runs(s.drop_last(), c, keep);
        if s.last() == c && trailing(s.drop_last(), c) == 0 {
            lemma_no_trailing(s.drop_last(), c, keep);
        }
        if trailing(s, c) <= keep {
            assert(r.drop_last() =~= t);
            assert forall|i: int| 0 <= i <= r.len() implies trailing(#[trigger] r.take(i), c)
                <= keep by {
                if i < r.len() {
                    assert(r.take(i) =~= t.take(i));
                } else {
                    assert(r.take(i) =~= r);
                }
            }
        }
    }
}

/// Where text does not end in `c`, neither does what collapsing makes of it.
proof fn lemma_no_trailing(s: Seq<char>, c: char, keep: nat)
    requires
        trailing(s, c) == 0,
    ensures
        trailing(collapsed(s, c, keep), c) == 0,
{
    if s.len() > 0 {
        assert(collapsed(s, c, keep).last() == s.last());
    }
}

/// Text whose runs are within the bound is left as it is.
pub proof fn law_short_runs_kept(s: Seq<char>, c: char, keep: nat)
    requires
        runs_within(s, c, keep),
    ensures
        collapsed(s, c, keep) == s,
    decreases s.len(),
{
    if s.len() > 0 {
        assert(s.take(s.len() as int) =~= s);
        assert forall|i: int| 0 <= i <= s.drop_last().len() implies trailing(
            #[trigger] s.drop_last().take(i),
            c,
        ) <= keep by {
            assert(s.drop_last().take(i) =~= s.take(i));
        }
        law_short_runs_kept(s.drop_last(), c, keep);
        assert(s.drop_last().push(s.last()) =~= s);
    }
}

/// Collapsing twice is collapsing once.
pub proof fn law_collapse_idempotent(s: Seq<char>, c: char, keep: nat)
    ensures
        collapsed(collapsed(s, c, keep), c, keep) == collapsed(s, c, keep),
{
    law_collapsed_runs(s, c, keep);
    law_short_runs_kept(collapsed(s, c, keep), c, keep);
}

/// Collapsing takes away nothing but the collapsed character.
pub proof fn law_collapse_keeps_others(s: Seq<char>, c: char, keep: nat)
    ensures
        collapsed(s, c, keep).filter(|x: char| x != c) == s.filter(|x: char| x != c),
    decreases s.len(),
{
    reveal(Seq::filter);
    if s.len() > 0 {
        law_collapse_keeps_others(s.drop_last(), c, keep);
        let t = collapsed(s.drop_last(), c, keep);
        assert(t.push(s.last()).drop_last() =~= t);
    }
}

/// Text in which the pattern does not occur is left as it is.
pub proof fn law_nothing_to_replace(s: Seq<char>, pattern: Seq<char>, by: Seq<char>)
    requires
        forall|i: int| !occurs_at(s, i, pattern),
    ensures
        replaced(s, pattern, by) == s,
    decreases s.len(),
{
    if s.len() > 0 && pattern.len() > 0 {
        assert(!occurs_at(s, 0, pattern));
        let rest = s.skip(1);
        assert forall|i: int| !occurs_at(rest, i, pattern) by {
            if occurs_at(rest, i, pattern) {
                assert(s.subrange(i + 1, i + 1 + pattern.len()) =~= rest.subrange(
                    i,
                    i + pattern.len(),
                ));
                assert(occurs_at(s, i + 1, pattern));
            }
        }
        law_nothing_to_replace(rest, pattern, by);
        assert(seq![s[0]] + rest =~= s);
    }
}

/// No replacement brings in a character that neither the text nor what is put in holds, and
/// replacing a single character leaves none of it unless it is put in.
pub proof fn law_replaced_characters(s: Seq<char>, pattern: Seq<char>, by: Seq<char>, c: char)
    requires
        !by.contains(c),
        !s.contains(c) || pattern == seq![c],
    ensures
        !replaced(s, pattern, by).contains(c),
    decreases s.len(),
{
    if s.len() > 0 && pattern.len() > 0 {
        let n: int = if occurs_at(s, 0, pattern) {
            pattern.len() as int
        } else {
            1
        };
        let rest = s.skip(n);
        assert(rest.contains(c) ==> s.contains(c));
        law_replaced_characters(rest, pattern, by, c);
        if !occurs_at(s, 0, pattern) {
            if s[0] == c {
                assert(s.contains(c));
                assert(s.subrange(0, 1) =~= seq![c]);
            }
        }
        let r = replaced(s, pattern, by);
        let tail = replaced(rest, pattern, by);
        let head = if occurs_at(s, 0, pattern) {
            by
        } else {
            seq![s[0]]
        };
        assert(r == head + tail);
        assert forall|i: int| 0 <= i < r.len() implies r[i] != c by {
            if i < head.len() {
                assert(r[i] == head[i]);
            } else {
                assert(r[i] == tail[i - head.len()]);
            }
        }
    }
}

/// What stands before the first occurrence of a pattern is kept, the occurrence is replaced, and
/// the search goes on behind it.
pub proof fn law_first_occurrence_replaced(
    a: Seq<char>,
    pattern: Seq<char>,
    b: Seq<char>,
    by: Seq<char>,
)
    requires
        pattern.len() > 0,
        forall|i: int|
            0 <= i < a.len() && i + pattern.len() <= (a + pattern + b).len() ==> #[trigger] (a
                + pattern + b).subrange(i, i + pattern.len()) != pattern,
    ensures
        replaced(a + pattern + b, pattern, by) == a + by + replaced(b, pattern, by),
    decreases a.len(),
{
    let s = a + pattern + b;
    if a.len() == 0 {
        assert(s.subrange(0, pattern.len() as int) =~= pattern);
        assert(s.skip(pattern.len() as int) =~= b);
        assert(by + replaced(b, pattern, by) =~= a + by + replaced(b, pattern, by));
    } else {
        let t = a.skip(1);
        let rest = t + pattern + b;
        assert(s.skip(1) =~= rest);
        assert(!occurs_at(s, 0, pattern)) by {
            if occurs_at(s, 0, pattern) {
                assert(s.subrange(0, 0int + pattern.len()) == pattern);
            }
        }
        assert forall|i: int| 0 <= i < t.len() && i + pattern.len() <= rest.len() implies
            #[trigger] rest.subrange(i, i + pattern.len()) != pattern by {
            assert(rest.subrange(i, i + pattern.len()) =~= s.subrange(
                i + 1,
                i + 1 + pattern.len(),
            ));
        }
        law_first_occurrence_replaced(t, pattern, b, by);
        assert(seq![s[0]] + (t + by + replaced(b, pattern, by)) =~= a + by + replaced(
            b,
            pattern,
            by,
        ));
    }
}

/// Text no part of which is the pattern is left as it is.
pub proof fn law_unmatched_kept(s: Seq<char>, pattern: Seq<char>, by: Seq<char>)
    requires
        pattern.len() > 0,
        forall|i: int|
            0 <= i && i + pattern.len() <= s.len() ==> #[trigger] s.subrange(i, i + pattern.len())
                != pattern,
    ensures
        replaced(s, pattern, by) == s,
{
    assert forall|i: int| !occurs_at(s, i, pattern) by {}
    law_nothing_to_replace(s, pattern, by);
}

/// What one text ends in counts for another that it is put before, only where that is made of
/// nothing else.
proof fn lemma_trailing_apart(a: Seq<char>, b: Seq<char>, c: char)
    requires
        b.len() > 0,
        b[0] != c || a.len() == 0 || a.last() != c,
    ensures
        trailing(a + b, c) == trailing(b, c),
    decreases b.len(),
{
    let s = a + b;
    assert(s.last() == b.last());
    assert(s.drop_last() =~= a + b.drop_last());
    if b.last() == c {
        if b.len() == 1 {
            assert(s.drop_last() =~= a);
            assert(trailing(a, c) == 0);
            assert(trailing(b.drop_last(), c) == 0);
        } else {
            assert(b.drop_last()[0] == b[0]);
            lemma_trailing_apart(a, b.drop_last(), c);
        }
    }
}

/// Texts that share no run are collapsed apart from each other.
pub proof fn law_collapsed_apart(a: Seq<char>, b: Seq<char>, c: char, keep: nat)
    requires
        a.len() == 0 || b.len() == 0 || a.last() != c || b[0] != c,
    ensures
        collapsed(a + b, c, keep) == collapsed(a, c, keep) + collapsed(b, c, keep),
    decreases b.len(),
{
    if b.len() == 0 {
        assert(a + b =~= a);
        assert(collapsed(a, c, keep) + collapsed(b, c, keep) =~= collapsed(a, c, keep));
    } else {
        let s = a + b;
        assert(s.drop_last() =~= a + b.drop_last());
        assert(s.last() == b.last());
        lemma_trailing_apart(a, b, c);
        if b.len() > 1 {
            assert(b.drop_last()[0] == b[0]);
        }
        law_collapsed_apart(a, b.drop_last(), c, keep);
        assert(collapsed(s, c, keep) =~= collapsed(a, c, keep) + collapsed(b, c, keep));
    }
}

/// A run is cut to as many characters as are kept.
pub proof fn law_run_cut(c: char, n: nat, keep: nat)
    ensures
        collapsed(Seq::new(n, |i: int| c), c, keep) == Seq::new(
            if n <= keep {
                n
            } else {
                keep
            },
            |i: int| c,
        ),
    decreases n,
{
    let s = Seq::new(n, |i: int| c);
    if n > 0 {
        let t = Seq::new((n - 1) as nat, |i: int| c);
        assert(s.drop_last() =~= t);
        law_run_cut(c, (n - 1) as nat, keep);
        lemma_trailing_all(c, n);
        assert(collapsed(s, c, keep) =~= Seq::new(
            if n <= keep {
                n
            } else {
                keep
            },
            |i: int| c,
        ));
    } else {
        assert(s =~= Seq::empty());
        assert(collapsed(s, c, keep) =~= Seq::new(0, |i: int| c));
    }
}

proof fn lemma_trailing_all(c: char, n: nat)
    ensures
        trailing(Seq::new(n, |i: int| c), c) == n,
    decreases n,
{
    if n > 0 {
        assert(Seq::new(n, |i: int| c).drop_last() =~= Seq::new((n - 1) as nat, |i: int| c));
        lemma_trailing_all(c, (n - 1) as nat);
    }
}

/// Text without the collapsed character is left as it is.
pub proof fn law_no_run_to_cut(s: Seq<char>, c: char, keep: nat)
    requires
        forall|i: int| 0 <= i < s.len() ==> s[i] != c,
    ensures
        collapsed(s, c, keep) == s,
    decreases s.len(),
{
    if s.len() > 0 {
        assert(s[s.len() - 1] == s.last());
        law_no_run_to_cut(s.drop_last(), c, keep);
        assert(s.drop_last().push(s.last()) =~= s);
    }
}

/// Text in which a character does not stand more than `keep` times in a row is left as it is.
pub proof fn law_no_long_run_kept(s: Seq<char>, c: char, keep: nat)
    requires
        forall|i: int|
            0 <= i && i + keep + 1 <= s.len() ==> #[trigger] s.subrange(i, i + keep + 1)
                != Seq::new(keep + 1, |j: int| c),
    ensures
        collapsed(s, c, keep) == s,
{
    assert forall|i: int| 0 <= i <= s.len() implies trailing(#[trigger] s.take(i), c) <= keep by {
        let t = s.take(i);
        if trailing(t, c) > keep {
            lemma_trailing_is(t, c);
            let n = i - (keep + 1);
            let part = s.subrange(n, n + keep + 1);
            assert forall|j: int| 0 <= j < part.len() implies part[j] == c by {
                assert(t[n + j] == c);
            }
            assert(part =~= Seq::new(keep + 1, |j: int| c));
        }
    }
    law_short_runs_kept(s, c, keep);
}

proof fn lemma_trailing_is(s: Seq<char>, c: char)
    ensures
        trailing(s, c) <= s.len(),
        forall|i: int| s.len() - trailing(s, c) <= i < s.len() ==> s[i] == c,
    decreases s.len(),
{
    if s.len() > 0 && s.last() == c {
        lemma_trailing_is(s.drop_last(), c);
        assert forall|i: int| s.len() - trailing(s, c) <= i < s.len() implies s[i] == c by {
            if i < s.len() - 1 {
                assert(s.drop_last()[i] == s[i]);
            }
        }
    }
}

} // verus!
