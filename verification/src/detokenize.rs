//! From token ids to text.

use crate::mapping::texts;
use crate::text::{
    collapse_runs, collapsed, law_collapsed_apart, law_collapsed_runs, law_no_long_run_kept,
    law_no_run_to_cut, law_nothing_to_replace, law_replaced_characters, law_run_cut,
    law_short_runs_kept, law_unmatched_kept, occurs_at, replace_all, replaced, runs_within,
    trailing,
};
use vstd::prelude::*;

verus! {

/// The text of a token, which is none for an id that the vocabulary does not have.
pub open spec fn token(vocab: Seq<Seq<char>>, id: i64) -> Seq<char> {
    if 0 <= id < vocab.len() {
        vocab[id as int]
    } else {
        Seq::empty()
    }
}

/// The texts of the tokens, one after the other.
pub open spec fn joined(vocab: Seq<Seq<char>>, ids: Seq<i64>) -> Seq<char>
    decreases ids.len(),
{
    if ids.len() == 0 {
        Seq::empty()
    } else {
        joined(vocab, ids.drop_last()) + token(vocab, ids.last())
    }
}

/// The characters that stand for a space and for a newline within tokens.
pub open spec fn unmarked(s: Seq<char>) -> Seq<char> {
    replaced(replaced(s, "\u{120}"@, " "@), "\u{10a}"@, "\n"@)
}

/// Text without the markers that frame it.
pub open spec fn unframed(s: Seq<char>) -> Seq<char> {
    replaced(replaced(replaced(s, "<|bos|>"@, ""@), "<|eos|>"@, ""@), "<|pad|>"@, ""@)
}

/// Text with its soft line breaks resolved: one after a hyphen joins the two halves of a word,
/// and any other is a space, unless there is one already.
pub open spec fn unbroken(s: Seq<char>) -> Seq<char> {
    replaced(replaced(replaced(s, "-<|sn|>"@, ""@), " <|sn|>"@, " "@), "<|sn|>"@, " "@)
}

/// Text without the remaining special tokens.
pub open spec fn unspecial(s: Seq<char>) -> Seq<char> {
    replaced(
        replaced(replaced(replaced(s, "<|unk|>"@, ""@), "<s>"@, ""@), "</s>"@, ""@),
        "\u{ffff}"@,
        ""@,
    )
}

/// Text without markers, and with no more than three underscores or dots in a row.
pub open spec fn cleaned(s: Seq<char>) -> Seq<char> {
    let plain = unspecial(unbroken(unframed(unmarked(s))));
    collapsed(collapsed(plain, '_', 3), '.', 3)
}

/// The text that a list of tokens stands for.
pub open spec fn detokenized(vocab: Seq<Seq<char>>, ids: Seq<i64>) -> Seq<char> {
    cleaned(joined(vocab, ids))
}

fn join(vocab: &Vec<String>, ids: &[i64]) -> (r: String)
    ensures
        r@ == joined(texts(vocab@), ids@),
{
    let mut r = String::new();
    let mut i: usize = 0;
    while i < ids.len()
        invariant
            i <= ids@.len(),
            r@ == joined(texts(vocab@), ids@.take(i as int)),
        decreases ids@.len() - i,
    {
        let id = ids[i];
        proof {
            assert(ids@.take(i + 1).drop_last() =~= ids@.take(i as int));
        }
        if id >= 0 && (id as u64) < vocab.len() as u64 {
            r.append(vocab[id as usize].as_str());
        } else {
            assert(r@ + Seq::<char>::empty() =~= r@);
        }
        i = i + 1;
    }
    assert(ids@.take(i as int) =~= ids@);
    r
}

fn clean(s: &str) -> (r: String)
    ensures
        r@ == cleaned(s@),
{
    proof {
        reveal_strlit("\u{120}");
        reveal_strlit("\u{10a}");
        reveal_strlit("<|bos|>");
        reveal_strlit("<|eos|>");
        reveal_strlit("<|pad|>");
        reveal_strlit("-<|sn|>");
        reveal_strlit(" <|sn|>");
        reveal_strlit("<|sn|>");
        reveal_strlit("<|unk|>");
        reveal_strlit("<s>");
        reveal_strlit("</s>");
        reveal_strlit("\u{ffff}");
    }
    let s = replace_all(s, "\u{120}", " ");
    let s = replace_all(s.as_str(), "\u{10a}", "\n");
    let s = replace_all(s.as_str(), "<|bos|>", "");
    let s = replace_all(s.as_str(), "<|eos|>", "");
    let s = replace_all(s.as_str(), "<|pad|>", "");
    let s = replace_all(s.as_str(), "-<|sn|>", "");
    let s = replace_all(s.as_str(), " <|sn|>", " ");
    let s = replace_all(s.as_str(), "<|sn|>", " ");
    let s = replace_all(s.as_str(), "<|unk|>", "");
    let s = replace_all(s.as_str(), "<s>", "");
    let s = replace_all(s.as_str(), "</s>", "");
    let s = replace_all(s.as_str(), "\u{ffff}", "");
    let s = collapse_runs(s.as_str(), '_', 3);
    collapse_runs(s.as_str(), '.', 3)
}

/// The text that a list of tokens stands for. An id that the vocabulary does not have is passed
/// over.
pub fn detokenize(vocab: &Vec<String>, ids: &[i64]) -> (r: String)
    ensures
        r@ == detokenized(texts(vocab@), ids@),
{
    clean(join(vocab, ids).as_str())
}

/// The tokens of two lists, one after the other, stand for the texts of both.
pub proof fn law_joined_in_order(vocab: Seq<Seq<char>>, a: Seq<i64>, b: Seq<i64>)
    ensures
        joined(vocab, a + b) == joined(vocab, a) + joined(vocab, b),
    decreases b.len(),
{
    if b.len() == 0 {
        assert(a + b =~= a);
        assert(joined(vocab, a) + joined(vocab, b) =~= joined(vocab, a));
    } else {
        assert((a + b).drop_last() =~= a + b.drop_last());
        law_joined_in_order(vocab, a, b.drop_last());
        assert(joined(vocab, a) + joined(vocab, b) =~= (joined(vocab, a) + joined(
            vocab,
            b.drop_last(),
        )) + token(vocab, b.last()));
    }
}

/// An id that the vocabulary does not have changes nothing.
pub proof fn law_unknown_ids_dropped(vocab: Seq<Seq<char>>, ids: Seq<i64>)
    ensures
        joined(vocab, ids) == joined(vocab, ids.filter(|id: i64| 0 <= id < vocab.len())),
        detokenized(vocab, ids) == detokenized(
            vocab,
            ids.filter(|id: i64| 0 <= id < vocab.len()),
        ),
    decreases ids.len(),
{
    reveal(Seq::filter);
    let known = |id: i64| 0 <= id < vocab.len();
    if ids.len() > 0 {
        law_unknown_ids_dropped(vocab, ids.drop_last());
        let rest = ids.drop_last().filter(known);
        if known(ids.last()) {
            assert(rest.push(ids.last()).drop_last() =~= rest);
        } else {
            assert(joined(vocab, ids) =~= joined(vocab, ids.drop_last()));
        }
    }
}

/// Collapsing brings in no character.
proof fn lemma_collapsed_characters(s: Seq<char>, c: char, keep: nat, x: char)
    requires
        !s.contains(x),
    ensures
        !collapsed(s, c, keep).contains(x),
    decreases s.len(),
{
    if s.len() > 0 {
        let t = s.drop_last();
        assert(!t.contains(x)) by {
            if t.contains(x) {
                let i = choose|i: int| 0 <= i < t.len() && t[i] == x;
                assert(s[i] == x);
            }
        }
        lemma_collapsed_characters(t, c, keep, x);
        let r = collapsed(t, c, keep);
        assert(s.last() != x) by {
            assert(s[s.len() - 1] == s.last());
        }
        assert forall|i: int| 0 <= i < r.push(s.last()).len() implies r.push(s.last())[i] != x by {
            if i < r.len() {
                assert(r[i] != x);
            }
        }
    }
}

/// None of the steps after the marked spaces brings in a character that is no space or newline.
proof fn lemma_later_steps(s: Seq<char>, c: char)
    requires
        !s.contains(c),
        c != ' ',
    ensures
        !unspecial(unbroken(unframed(s))).contains(c),
{
    reveal_strlit("");
    reveal_strlit(" ");
    let none = ""@;
    assert(!none.contains(c));
    assert(!(" "@).contains(c));
    let s1 = replaced(s, "<|bos|>"@, none);
    law_replaced_characters(s, "<|bos|>"@, none, c);
    let s2 = replaced(s1, "<|eos|>"@, none);
    law_replaced_characters(s1, "<|eos|>"@, none, c);
    let s3 = replaced(s2, "<|pad|>"@, none);
    law_replaced_characters(s2, "<|pad|>"@, none, c);
    let s4 = replaced(s3, "-<|sn|>"@, none);
    law_replaced_characters(s3, "-<|sn|>"@, none, c);
    let s5 = replaced(s4, " <|sn|>"@, " "@);
    law_replaced_characters(s4, " <|sn|>"@, " "@, c);
    let s6 = replaced(s5, "<|sn|>"@, " "@);
    law_replaced_characters(s5, "<|sn|>"@, " "@, c);
    let s7 = replaced(s6, "<|unk|>"@, none);
    law_replaced_characters(s6, "<|unk|>"@, none, c);
    let s8 = replaced(s7, "<s>"@, none);
    law_replaced_characters(s7, "<s>"@, none, c);
    let s9 = replaced(s8, "</s>"@, none);
    law_replaced_characters(s8, "</s>"@, none, c);
    law_replaced_characters(s9, "\u{ffff}"@, none, c);
}

/// No text keeps a character that marks a space or a newline, nor the character that stands for
/// nothing.
pub proof fn law_marking_characters_gone(s: Seq<char>)
    ensures
        !cleaned(s).contains('\u{120}'),
        !cleaned(s).contains('\u{10a}'),
        !cleaned(s).contains('\u{ffff}'),
{
    reveal_strlit("");
    reveal_strlit(" ");
    reveal_strlit("\n");
    reveal_strlit("\u{120}");
    reveal_strlit("\u{10a}");
    reveal_strlit("\u{ffff}");
    assert("\u{120}"@ =~= seq!['\u{120}']);
    assert("\u{10a}"@ =~= seq!['\u{10a}']);
    assert("\u{ffff}"@ =~= seq!['\u{ffff}']);
    let s1 = replaced(s, "\u{120}"@, " "@);
    let s2 = unmarked(s);
    let plain = unspecial(unbroken(unframed(s2)));
    law_replaced_characters(s, "\u{120}"@, " "@, '\u{120}');
    law_replaced_characters(s1, "\u{10a}"@, "\n"@, '\u{120}');
    law_replaced_characters(s1, "\u{10a}"@, "\n"@, '\u{10a}');
    lemma_later_steps(s2, '\u{120}');
    lemma_later_steps(s2, '\u{10a}');
    let before = replaced(
        replaced(replaced(unbroken(unframed(s2)), "<|unk|>"@, ""@), "<s>"@, ""@),
        "</s>"@,
        ""@,
    );
    law_replaced_characters(before, "\u{ffff}"@, ""@, '\u{ffff}');
    let once = collapsed(plain, '_', 3);
    lemma_collapsed_characters(plain, '_', 3, '\u{120}');
    lemma_collapsed_characters(plain, '_', 3, '\u{10a}');
    lemma_collapsed_characters(plain, '_', 3, '\u{ffff}');
    lemma_collapsed_characters(once, '.', 3, '\u{120}');
    lemma_collapsed_characters(once, '.', 3, '\u{10a}');
    lemma_collapsed_characters(once, '.', 3, '\u{ffff}');
}

/// Collapsing the runs of one character to at least one leaves the runs of another as they are.
proof fn lemma_other_runs(s: Seq<char>, c: char, keep: nat, d: char, bound: nat)
    requires
        c != d,
        keep >= 1,
        runs_within(s, d, bound),
    ensures
        runs_within(collapsed(s, c, keep), d, bound),
        trailing(collapsed(s, c, keep), d) == trailing(s, d),
    decreases s.len(),
{
    let r = collapsed(s, c, keep);
    if s.len() == 0 {
        assert forall|i: int| 0 <= i <= r.len() implies trailing(#[trigger] r.take(i), d)
            <= bound by {
            assert(r.take(i).len() == 0);
        }
    } else {
        let t = s.drop_last();
        assert forall|i: int| 0 <= i <= t.len() implies trailing(#[trigger] t.take(i), d)
            <= bound by {
            assert(t.take(i) =~= s.take(i));
        }
        lemma_other_runs(t, c, keep, d, bound);
        assert(s.take(s.len() as int) =~= s);
        if trailing(s, c) <= keep {
            let u = collapsed(t, c, keep);
            assert(r.drop_last() =~= u);
            assert forall|i: int| 0 <= i <= r.len() implies trailing(#[trigger] r.take(i), d)
                <= bound by {
                if i < r.len() {
                    assert(r.take(i) =~= u.take(i));
                } else {
                    assert(r.take(i) =~= r);
                }
            }
        }
    }
}

/// No text has more than three underscores, or more than three dots, in a row.
pub proof fn law_runs_bounded(s: Seq<char>)
    ensures
        runs_within(cleaned(s), '_', 3),
        runs_within(cleaned(s), '.', 3),
{
    let plain = unspecial(unbroken(unframed(unmarked(s))));
    law_collapsed_runs(plain, '_', 3);
    lemma_other_runs(collapsed(plain, '_', 3), '.', 3, '_', 3);
    law_collapsed_runs(collapsed(plain, '_', 3), '.', 3);
}

/// A pattern does not occur in text that lacks one of its characters.
proof fn lemma_absent(s: Seq<char>, pattern: Seq<char>, k: int)
    requires
        0 <= k < pattern.len(),
        !s.contains(pattern[k]),
    ensures
        forall|i: int| !occurs_at(s, i, pattern),
{
    assert forall|i: int| !occurs_at(s, i, pattern) by {
        if occurs_at(s, i, pattern) {
            assert(s.subrange(i, i + pattern.len())[k] == s[i + k]);
        }
    }
}

/// Whether text has none of the characters that begin a marker or stand for another one.
pub open spec fn is_plain(s: Seq<char>) -> bool {
    &&& !s.contains('\u{120}')
    &&& !s.contains('\u{10a}')
    &&& !s.contains('\u{ffff}')
    &&& !s.contains('<')
}

proof fn lemma_no_marked_character(s: Seq<char>)
    requires
        !s.contains('\u{120}'),
        !s.contains('\u{10a}'),
    ensures
        unmarked(s) == s,
{
    reveal_strlit("\u{120}");
    reveal_strlit("\u{10a}");
    lemma_absent(s, "\u{120}"@, 0);
    law_nothing_to_replace(s, "\u{120}"@, " "@);
    lemma_absent(s, "\u{10a}"@, 0);
    law_nothing_to_replace(s, "\u{10a}"@, "\n"@);
}

/// The markers leave plain text as it is.
proof fn lemma_plain(s: Seq<char>)
    requires
        is_plain(s),
    ensures
        unmarked(s) == s,
        unframed(s) == s,
        unbroken(s) == s,
        unspecial(s) == s,
{
    reveal_strlit("\u{ffff}");
    reveal_strlit("<|bos|>");
    reveal_strlit("<|eos|>");
    reveal_strlit("<|pad|>");
    reveal_strlit("-<|sn|>");
    reveal_strlit(" <|sn|>");
    reveal_strlit("<|sn|>");
    reveal_strlit("<|unk|>");
    reveal_strlit("<s>");
    reveal_strlit("</s>");
    lemma_no_marked_character(s);
    lemma_absent(s, "<|bos|>"@, 0);
    law_nothing_to_replace(s, "<|bos|>"@, ""@);
    lemma_absent(s, "<|eos|>"@, 0);
    law_nothing_to_replace(s, "<|eos|>"@, ""@);
    lemma_absent(s, "<|pad|>"@, 0);
    law_nothing_to_replace(s, "<|pad|>"@, ""@);
    lemma_absent(s, "-<|sn|>"@, 1);
    law_nothing_to_replace(s, "-<|sn|>"@, ""@);
    lemma_absent(s, " <|sn|>"@, 1);
    law_nothing_to_replace(s, " <|sn|>"@, " "@);
    lemma_absent(s, "<|sn|>"@, 0);
    law_nothing_to_replace(s, "<|sn|>"@, " "@);
    lemma_absent(s, "<|unk|>"@, 0);
    law_nothing_to_replace(s, "<|unk|>"@, ""@);
    lemma_absent(s, "<s>"@, 0);
    law_nothing_to_replace(s, "<s>"@, ""@);
    lemma_absent(s, "</s>"@, 0);
    law_nothing_to_replace(s, "</s>"@, ""@);
    lemma_absent(s, "\u{ffff}"@, 0);
    law_nothing_to_replace(s, "\u{ffff}"@, ""@);
}

/// Plain text without long runs is kept as it is.
pub proof fn law_plain_text_kept(s: Seq<char>)
    requires
        is_plain(s),
        runs_within(s, '_', 3),
        runs_within(s, '.', 3),
    ensures
        cleaned(s) == s,
{
    lemma_plain(s);
    law_short_runs_kept(s, '_', 3);
    law_short_runs_kept(s, '.', 3);
}

/// Two plain texts with a space or nothing between them are plain.
proof fn lemma_plain_join(a: Seq<char>, m: Seq<char>, b: Seq<char>)
    requires
        is_plain(a),
        is_plain(b),
        m == ""@ || m == " "@,
    ensures
        is_plain(a + m + b),
{
    reveal_strlit("");
    reveal_strlit(" ");
    let s = a + m + b;
    assert forall|c: char| c != ' ' && !a.contains(c) && !b.contains(c) implies !s.contains(c) by {
        assert forall|i: int| 0 <= i < s.len() implies s[i] != c by {
            if i < a.len() {
                assert(s[i] == a[i]);
            } else if i >= a.len() + m.len() {
                assert(s[i] == b[i - a.len() - m.len()]);
            }
        }
    }
}

/// Where the `<` of a marker is the only one in a text, the marker is replaced and the rest is
/// kept.
proof fn lemma_replace_one(a: Seq<char>, m: Seq<char>, b: Seq<char>, by: Seq<char>, k: int)
    requires
        0 <= k < m.len(),
        forall|j: int| 0 <= j < m.len() ==> (m[j] == '<' <==> j == k),
        !a.contains('<'),
        !b.contains('<'),
    ensures
        replaced(a + m + b, m, by) == a + by + b,
    decreases a.len(),
{
    let s = a + m + b;
    if a.len() == 0 {
        assert(s.subrange(0, m.len() as int) =~= m);
        assert(s.skip(m.len() as int) =~= b);
        lemma_absent(b, m, k);
        law_nothing_to_replace(b, m, by);
        assert(by + b =~= a + by + b);
    } else {
        if occurs_at(s, 0, m) {
            assert(s.subrange(0, m.len() as int)[k] == s[k]);
            if k < a.len() {
                assert(a[k] == '<');
            } else if k < a.len() + m.len() {
                assert(s[k] == m[k - a.len()]);
            }
        }
        let t = a.skip(1);
        assert(!t.contains('<')) by {
            if t.contains('<') {
                let i = choose|i: int| 0 <= i < t.len() && t[i] == '<';
                assert(a[i + 1] == '<');
            }
        }
        assert(s.skip(1) =~= t + m + b);
        lemma_replace_one(t, m, b, by, k);
        assert(seq![s[0]] + (t + by + b) =~= a + by + b);
    }
}

/// A text with one soft line break in it.
proof fn lemma_one_break(a: Seq<char>, b: Seq<char>)
    requires
        is_plain(a),
        is_plain(b),
    ensures
        ({
            let s = a + "<|sn|>"@ + b;
            &&& unmarked(s) == s
            &&& unframed(s) == s
            &&& forall|i: int| 0 <= i < s.len() ==> (s[i] == '<' <==> i == a.len())
        }),
{
    reveal_strlit("<|sn|>");
    reveal_strlit("<|bos|>");
    reveal_strlit("<|eos|>");
    reveal_strlit("<|pad|>");
    let m = "<|sn|>"@;
    let s = a + m + b;
    assert forall|i: int| 0 <= i < s.len() implies (s[i] == '<' <==> i == a.len()) && s[i]
        != '\u{120}' && s[i] != '\u{10a}' by {
        if i < a.len() {
            assert(s[i] == a[i]);
        } else if i >= a.len() + m.len() {
            assert(s[i] == b[i - a.len() - m.len()]);
        } else {
            assert(s[i] == m[i - a.len()]);
        }
    }
    lemma_no_marked_character(s);
    assert forall|i: int, p: Seq<char>|
        p == "<|bos|>"@ || p == "<|eos|>"@ || p == "<|pad|>"@ implies !#[trigger] occurs_at(
        s,
        i,
        p,
    ) by {
        if occurs_at(s, i, p) {
            assert(s.subrange(i, i + p.len())[0] == s[i]);
            assert(s.subrange(i, i + p.len())[2] == s[i + 2]);
            assert(s[i + 2] == m[2]);
        }
    }
    law_nothing_to_replace(s, "<|bos|>"@, ""@);
    law_nothing_to_replace(s, "<|eos|>"@, ""@);
    law_nothing_to_replace(s, "<|pad|>"@, ""@);
}

/// A soft line break after a hyphen joins the two halves of a word.
pub proof fn law_hyphen_joined(a: Seq<char>, b: Seq<char>)
    requires
        is_plain(a),
        is_plain(b),
    ensures
        cleaned(a + "-<|sn|>"@ + b) == cleaned(a + b),
{
    reveal_strlit("");
    reveal_strlit("-<|sn|>");
    reveal_strlit("<|sn|>");
    let h = a + seq!['-'];
    assert forall|c: char| c != '-' && !a.contains(c) implies !h.contains(c) by {
        assert forall|i: int| 0 <= i < h.len() implies h[i] != c by {
            if i < a.len() {
                assert(h[i] == a[i]);
            }
        }
    }
    let s = a + "-<|sn|>"@ + b;
    assert(s =~= h + "<|sn|>"@ + b);
    lemma_one_break(h, b);
    lemma_replace_one(a, "-<|sn|>"@, b, ""@, 1);
    let t = a + ""@ + b;
    assert(t =~= a + b);
    lemma_plain_join(a, ""@, b);
    lemma_plain(t);
    lemma_break_resolved(t);
}

/// Plain text has no soft line break left in it.
proof fn lemma_break_resolved(t: Seq<char>)
    requires
        is_plain(t),
    ensures
        replaced(t, " <|sn|>"@, " "@) == t,
        replaced(t, "<|sn|>"@, " "@) == t,
{
    reveal_strlit(" <|sn|>");
    reveal_strlit("<|sn|>");
    lemma_absent(t, " <|sn|>"@, 1);
    law_nothing_to_replace(t, " <|sn|>"@, " "@);
    lemma_absent(t, "<|sn|>"@, 0);
    law_nothing_to_replace(t, "<|sn|>"@, " "@);
}

/// A soft line break after a space adds nothing to it.
pub proof fn law_break_after_space(a: Seq<char>, b: Seq<char>)
    requires
        is_plain(a),
        is_plain(b),
    ensures
        cleaned(a + " <|sn|>"@ + b) == cleaned(a + " "@ + b),
{
    reveal_strlit("");
    reveal_strlit(" ");
    reveal_strlit("-<|sn|>");
    reveal_strlit(" <|sn|>");
    reveal_strlit("<|sn|>");
    let h = a + " "@ + ""@;
    lemma_plain_join(a, " "@, ""@);
    let s = a + " <|sn|>"@ + b;
    assert(s =~= h + "<|sn|>"@ + b);
    lemma_one_break(h, b);
    let p = "-<|sn|>"@;
    assert forall|i: int| !occurs_at(s, i, p) by {
        if occurs_at(s, i, p) {
            assert(s.subrange(i, i + p.len())[1] == s[i + 1]);
            assert(s.subrange(i, i + p.len())[0] == s[i]);
            assert(i == a.len());
        }
    }
    law_nothing_to_replace(s, p, ""@);
    lemma_replace_one(a, " <|sn|>"@, b, " "@, 1);
    let t = a + " "@ + b;
    lemma_plain_join(a, " "@, b);
    lemma_plain(t);
    lemma_break_resolved(t);
}

/// Any other soft line break is a space.
pub proof fn law_break_is_space(a: Seq<char>, b: Seq<char>)
    requires
        is_plain(a),
        is_plain(b),
        a.len() > 0 ==> a.last() != '-' && a.last() != ' ',
    ensures
        cleaned(a + "<|sn|>"@ + b) == cleaned(a + " "@ + b),
{
    reveal_strlit("");
    reveal_strlit(" ");
    reveal_strlit("-<|sn|>");
    reveal_strlit(" <|sn|>");
    reveal_strlit("<|sn|>");
    let s = a + "<|sn|>"@ + b;
    lemma_one_break(a, b);
    assert forall|i: int, p: Seq<char>|
        p == "-<|sn|>"@ || p == " <|sn|>"@ implies !#[trigger] occurs_at(s, i, p) by {
        if occurs_at(s, i, p) {
            assert(s.subrange(i, i + p.len())[1] == s[i + 1]);
            assert(s.subrange(i, i + p.len())[0] == s[i]);
            assert(i + 1 == a.len());
            assert(s[i] == a.last());
        }
    }
    law_nothing_to_replace(s, "-<|sn|>"@, ""@);
    law_nothing_to_replace(s, " <|sn|>"@, " "@);
    lemma_replace_one(a, "<|sn|>"@, b, " "@, 0);
    let t = a + " "@ + b;
    lemma_plain_join(a, " "@, b);
    lemma_plain(t);
}

/// The pattern of each step of the cleaning.
spec fn pattern(k: int) -> Seq<char> {
    if k == 1 {
        "\u{120}"@
    } else if k == 2 {
        "\u{10a}"@
    } else if k == 3 {
        "<|bos|>"@
    } else if k == 4 {
        "<|eos|>"@
    } else if k == 5 {
        "<|pad|>"@
    } else if k == 6 {
        "-<|sn|>"@
    } else if k == 7 {
        " <|sn|>"@
    } else if k == 8 {
        "<|sn|>"@
    } else if k == 9 {
        "<|unk|>"@
    } else if k == 10 {
        "<s>"@
    } else if k == 11 {
        "</s>"@
    } else {
        "\u{ffff}"@
    }
}

/// What each step of the cleaning puts in.
spec fn put_in(k: int) -> Seq<char> {
    if k == 1 || k == 7 || k == 8 {
        " "@
    } else if k == 2 {
        "\n"@
    } else {
        ""@
    }
}

/// Text after the first `k` steps of the cleaning.
spec fn after(s: Seq<char>, k: nat) -> Seq<char>
    decreases k,
{
    if k == 0 {
        s
    } else {
        replaced(after(s, (k - 1) as nat), pattern(k as int), put_in(k as int))
    }
}

proof fn lemma_patterns()
    ensures
        "\u{120}"@ == seq!['\u{120}'],
        "\u{10a}"@ == seq!['\u{10a}'],
        "<|bos|>"@ == seq!['<', '|', 'b', 'o', 's', '|', '>'],
        "<|eos|>"@ == seq!['<', '|', 'e', 'o', 's', '|', '>'],
        "<|pad|>"@ == seq!['<', '|', 'p', 'a', 'd', '|', '>'],
        "-<|sn|>"@ == seq!['-', '<', '|', 's', 'n', '|', '>'],
        " <|sn|>"@ == seq![' ', '<', '|', 's', 'n', '|', '>'],
        "<|sn|>"@ == seq!['<', '|', 's', 'n', '|', '>'],
        "<|unk|>"@ == seq!['<', '|', 'u', 'n', 'k', '|', '>'],
        "<s>"@ == seq!['<', 's', '>'],
        "</s>"@ == seq!['<', '/', 's', '>'],
        "\u{ffff}"@ == seq!['\u{ffff}'],
        " "@ == seq![' '],
        "\n"@ == seq!['\n'],
        ""@ == Seq::<char>::empty(),
{
    reveal_strlit("\u{120}");
    reveal_strlit("\u{10a}");
    reveal_strlit("<|bos|>");
    reveal_strlit("<|eos|>");
    reveal_strlit("<|pad|>");
    reveal_strlit("-<|sn|>");
    reveal_strlit(" <|sn|>");
    reveal_strlit("<|sn|>");
    reveal_strlit("<|unk|>");
    reveal_strlit("<s>");
    reveal_strlit("</s>");
    reveal_strlit("\u{ffff}");
    reveal_strlit(" ");
    reveal_strlit("\n");
    reveal_strlit("");
}

proof fn lemma_cleaned_after(s: Seq<char>)
    ensures
        cleaned(s) == collapsed(collapsed(after(s, 12), '_', 3), '.', 3),
{
    reveal_with_fuel(after, 13);
}

/// Whether a pattern that would start at `i` differs from `m` in its character `j`.
spec fn differs(m: Seq<char>, p: Seq<char>, i: int, j: int) -> bool {
    0 <= j < p.len() && i + j < m.len() && m[i + j] != p[j]
}

/// Whether a pattern cannot start at `i`, whatever follows `m`.
spec fn starts_not(m: Seq<char>, p: Seq<char>, i: int) -> bool {
    exists|j: int| differs(m, p, i, j)
}

/// Whether a pattern can start nowhere in `m`, whatever follows it.
spec fn starts_nowhere(m: Seq<char>, p: Seq<char>) -> bool {
    forall|i: int| 0 <= i < m.len() ==> #[trigger] starts_not(m, p, i)
}

/// What a pattern cannot start in is kept.
proof fn lemma_kept_before(m: Seq<char>, x: Seq<char>, p: Seq<char>, by: Seq<char>)
    requires
        p.len() > 0,
        forall|i: int| 0 <= i < m.len() ==> !#[trigger] occurs_at(m + x, i, p),
    ensures
        replaced(m + x, p, by) == m + replaced(x, p, by),
    decreases m.len(),
{
    if m.len() == 0 {
        assert(m + x =~= x);
        assert(m + replaced(x, p, by) =~= replaced(x, p, by));
    } else {
        let t = m.skip(1);
        let s = m + x;
        assert(!occurs_at(s, 0, p));
        assert(s.skip(1) =~= t + x);
        assert forall|i: int| 0 <= i < t.len() implies !#[trigger] occurs_at(t + x, i, p) by {
            assert(!occurs_at(s, i + 1, p));
            if occurs_at(t + x, i, p) {
                assert((t + x).subrange(i, i + p.len()) =~= s.subrange(i + 1, i + 1 + p.len()));
            }
        }
        lemma_kept_before(t, x, p, by);
        assert(seq![s[0]] + (t + replaced(x, p, by)) =~= m + replaced(x, p, by));
    }
}

proof fn lemma_kept(m: Seq<char>, x: Seq<char>, p: Seq<char>, by: Seq<char>)
    requires
        p.len() > 0,
        starts_nowhere(m, p),
    ensures
        replaced(m + x, p, by) == m + replaced(x, p, by),
{
    let s = m + x;
    assert forall|i: int| 0 <= i < m.len() implies !#[trigger] occurs_at(s, i, p) by {
        if occurs_at(s, i, p) {
            assert(starts_not(m, p, i));
            let j = choose|j: int| differs(m, p, i, j);
            assert(s.subrange(i, i + p.len())[j] == s[i + j]);
            assert(s[i + j] == m[i + j]);
        }
    }
    lemma_kept_before(m, x, p, by);
}

/// A pattern whose first character occurs in `m` at `k` alone, and that differs from `m` from
/// there on, starts nowhere in `m`.
proof fn lemma_starts_nowhere(m: Seq<char>, p: Seq<char>, k: int, j: int)
    requires
        p.len() > 0,
        0 <= k < m.len(),
        forall|i: int| 0 <= i < m.len() && i != k ==> #[trigger] m[i] != p[0],
        0 <= j < p.len(),
        k + j < m.len(),
        m[k + j] != p[j],
    ensures
        starts_nowhere(m, p),
{
    assert forall|i: int| 0 <= i < m.len() implies #[trigger] starts_not(m, p, i) by {
        if i != k {
            assert(differs(m, p, i, 0));
        } else {
            assert(differs(m, p, i, j));
        }
    }
}

/// What no pattern of the first `k` steps can start in is kept by these steps.
proof fn lemma_kept_after(m: Seq<char>, x: Seq<char>, k: nat)
    requires
        k <= 12,
        forall|i: int| 1 <= i <= k ==> starts_nowhere(m, #[trigger] pattern(i)),
    ensures
        after(m + x, k) == m + after(x, k),
    decreases k,
{
    if k > 0 {
        lemma_patterns();
        lemma_kept_after(m, x, (k - 1) as nat);
        assert(starts_nowhere(m, pattern(k as int)));
        lemma_kept(m, after(x, (k - 1) as nat), pattern(k as int), put_in(k as int));
    }
}

/// A marker that is kept up to its own step is replaced there.
proof fn lemma_replaced_at(x: Seq<char>, k: nat)
    requires
        1 <= k <= 12,
        forall|i: int| 1 <= i < k ==> starts_nowhere(pattern(k as int), #[trigger] pattern(i)),
    ensures
        after(pattern(k as int) + x, k) == put_in(k as int) + after(x, k),
{
    let m = pattern(k as int);
    let y = after(x, (k - 1) as nat);
    lemma_patterns();
    lemma_kept_after(m, x, (k - 1) as nat);
    assert((m + y).subrange(0, m.len() as int) =~= m);
    assert((m + y).skip(m.len() as int) =~= y);
}

/// Steps that come to the same on two texts go on to the same.
proof fn lemma_same_from(s: Seq<char>, t: Seq<char>, head: Seq<char>, k: nat, n: nat)
    requires
        k <= n <= 12,
        after(s, k) == head + after(t, k),
        forall|i: int| k < i <= n ==> starts_nowhere(head, #[trigger] pattern(i)),
    ensures
        after(s, n) == head + after(t, n),
    decreases n,
{
    if k < n {
        lemma_patterns();
        lemma_same_from(s, t, head, k, (n - 1) as nat);
        assert(starts_nowhere(head, pattern(n as int)));
        lemma_kept(head, after(t, (n - 1) as nat), pattern(n as int), put_in(n as int));
    }
}

/// A character that begins no pattern of the steps after the first `k`.
proof fn lemma_begins_nothing(c: char, k: int)
    requires
        k >= 0,
        k >= 1 || c != '\u{120}',
        k >= 2 || c != '\u{10a}',
        k >= 6 || c != '-',
        k >= 7 || c != ' ',
        k >= 11 || c != '<',
        k >= 12 || c != '\u{ffff}',
    ensures
        forall|i: int| k < i <= 12 ==> starts_nowhere(seq![c], #[trigger] pattern(i)),
{
    lemma_patterns();
    assert forall|i: int| k < i <= 12 implies starts_nowhere(seq![c], #[trigger] pattern(i)) by {
        lemma_starts_nowhere(seq![c], pattern(i), 0, 0);
    }
}

/// The pattern of a step starts nowhere in the pattern of a later one.
proof fn lemma_apart(k: int, i: int)
    requires
        1 <= i < k <= 12,
    ensures
        starts_nowhere(pattern(k), pattern(i)),
{
    lemma_patterns();
    let m = pattern(k);
    let p = pattern(i);
    if k == 6 || k == 7 {
        if i == 6 {
            lemma_starts_nowhere(m, p, 0, 0);
        } else if i <= 2 {
            lemma_starts_nowhere(m, p, 0, 0);
        } else {
            lemma_starts_nowhere(m, p, 1, 2);
        }
    } else if k == 12 || i <= 2 || i == 6 || i == 7 {
        lemma_starts_nowhere(m, p, 0, 0);
    } else if k == 10 || k == 11 || i == 10 || i == 11 {
        lemma_starts_nowhere(m, p, 0, 1);
    } else {
        lemma_starts_nowhere(m, p, 0, 2);
    }
}

/// What cleaning makes of a text that begins with the marker of a step.
proof fn lemma_marker_first(x: Seq<char>, k: nat)
    requires
        1 <= k <= 12,
        k != 1,
    ensures
        after(pattern(k as int) + x, 12) == put_in(k as int) + after(x, 12),
{
    lemma_patterns();
    assert forall|i: int| 1 <= i < k implies starts_nowhere(
        pattern(k as int),
        #[trigger] pattern(i),
    ) by {
        lemma_apart(k as int, i);
    }
    lemma_replaced_at(x, k);
    let head = put_in(k as int);
    assert forall|i: int| k < i <= 12 implies starts_nowhere(head, #[trigger] pattern(i)) by {
        if head.len() > 0 {
            lemma_begins_nothing(head[0], k as int);
            assert(head =~= seq![head[0]]);
        }
    }
    lemma_same_from(pattern(k as int) + x, x, head, k, 12);
}

/// Collapsing keeps a first character of another kind.
proof fn lemma_first_kept(c: char, y: Seq<char>)
    requires
        c != '_',
        c != '.',
    ensures
        collapsed(collapsed(seq![c] + y, '_', 3), '.', 3) == seq![c] + collapsed(
            collapsed(y, '_', 3),
            '.',
            3,
        ),
{
    let head = seq![c];
    law_collapsed_apart(head, y, '_', 3);
    law_no_run_to_cut(head, '_', 3);
    law_collapsed_apart(head, collapsed(y, '_', 3), '.', 3);
    law_no_run_to_cut(head, '.', 3);
}

/// Where a text begins with a marker that stands for nothing, or with a soft line break behind a
/// hyphen, that is gone, and the rest is cleaned as if it stood alone.
pub proof fn law_markers_vanish(x: Seq<char>)
    ensures
        cleaned("<|bos|>"@ + x) == cleaned(x),
        cleaned("<|eos|>"@ + x) == cleaned(x),
        cleaned("<|pad|>"@ + x) == cleaned(x),
        cleaned("-<|sn|>"@ + x) == cleaned(x),
        cleaned("<|unk|>"@ + x) == cleaned(x),
        cleaned("<s>"@ + x) == cleaned(x),
        cleaned("</s>"@ + x) == cleaned(x),
        cleaned(seq!['\u{ffff}'] + x) == cleaned(x),
{
    lemma_patterns();
    assert forall|k: int| 3 <= k <= 12 && k != 7 && k != 8 implies cleaned(
        #[trigger] pattern(k) + x,
    ) == cleaned(x) by {
        lemma_marker_first(x, k as nat);
        assert(put_in(k) + after(x, 12) =~= after(x, 12));
        lemma_cleaned_after(pattern(k) + x);
        lemma_cleaned_after(x);
    }
    assert(cleaned(pattern(3) + x) == cleaned(x));
    assert(cleaned(pattern(4) + x) == cleaned(x));
    assert(cleaned(pattern(5) + x) == cleaned(x));
    assert(cleaned(pattern(6) + x) == cleaned(x));
    assert(cleaned(pattern(9) + x) == cleaned(x));
    assert(cleaned(pattern(10) + x) == cleaned(x));
    assert(cleaned(pattern(11) + x) == cleaned(x));
    assert(cleaned(pattern(12) + x) == cleaned(x));
}

/// Where a text begins with a soft line break, alone or behind a space, that is a space, and the
/// rest is cleaned as if it stood alone. So is a marked newline a newline, and a marked space is
/// cleaned as a space is.
pub proof fn law_breaks_and_marks(x: Seq<char>)
    ensures
        cleaned("<|sn|>"@ + x) == seq![' '] + cleaned(x),
        cleaned(" <|sn|>"@ + x) == seq![' '] + cleaned(x),
        cleaned(seq!['\u{10a}'] + x) == seq!['\n'] + cleaned(x),
        cleaned(seq!['\u{120}'] + x) == cleaned(seq![' '] + x),
{
    lemma_patterns();
    assert forall|k: int| k == 2 || k == 7 || k == 8 implies cleaned(#[trigger] pattern(k) + x)
        == put_in(k) + cleaned(x) by {
        lemma_marker_first(x, k as nat);
        lemma_cleaned_after(pattern(k) + x);
        lemma_cleaned_after(x);
        lemma_first_kept(put_in(k)[0], after(x, 12));
        assert(put_in(k) =~= seq![put_in(k)[0]]);
    }
    assert(cleaned(pattern(2) + x) == put_in(2) + cleaned(x));
    assert(cleaned(pattern(7) + x) == put_in(7) + cleaned(x));
    assert(cleaned(pattern(8) + x) == put_in(8) + cleaned(x));
    let (a, b) = (seq!['\u{120}'] + x, seq![' '] + x);
    lemma_replaced_at(x, 1);
    lemma_starts_nowhere(seq![' '], pattern(1), 0, 0);
    lemma_kept_after(seq![' '], x, 1);
    assert(after(a, 1) == after(b, 1));
    let none = Seq::<char>::empty();
    assert(none + after(b, 1) =~= after(b, 1));
    lemma_same_from(a, b, none, 1, 12);
    assert(none + after(b, 12) =~= after(b, 12));
    lemma_cleaned_after(a);
    lemma_cleaned_after(b);
}

/// A character that begins no marker, is no mark, and is none that runs are cut of, is kept, and
/// what follows it is cleaned as if it stood alone.
pub proof fn law_other_character_kept(c: char, x: Seq<char>)
    requires
        c != '<' && c != '-' && c != ' ' && c != '_' && c != '.',
        c != '\u{120}' && c != '\u{10a}' && c != '\u{ffff}',
    ensures
        cleaned(seq![c] + x) == seq![c] + cleaned(x),
{
    lemma_begins_nothing(c, 0);
    lemma_kept_after(seq![c], x, 12);
    lemma_cleaned_after(seq![c] + x);
    lemma_cleaned_after(x);
    lemma_first_kept(c, after(x, 12));
}

/// A step keeps a first character that its pattern does not begin with.
proof fn lemma_first_after(x: Seq<char>, k: nat, d: char)
    requires
        k <= 12,
        x.len() > 0,
        x[0] == d,
        d != '<',
        k < 6 || d != '-',
    ensures
        k < 12 || d != '\u{ffff}' ==> after(x, k).len() > 0,
        k < 12 || d != '\u{ffff}' ==> after(x, k)[0] == (if k >= 1 && d == '\u{120}' {
            ' '
        } else if k >= 2 && d == '\u{10a}' {
            '\n'
        } else {
            d
        }),
    decreases k,
{
    if k > 0 {
        lemma_patterns();
        lemma_first_after(x, (k - 1) as nat, d);
        let y = after(x, (k - 1) as nat);
        let p = pattern(k as int);
        let by = put_in(k as int);
        if p.len() == 1 && y.len() > 0 && y[0] == p[0] {
            assert(y.subrange(0, 1) =~= p);
        }
        if occurs_at(y, 0, p) {
            assert(y.subrange(0, p.len() as int)[0] == y[0]);
            let rest = replaced(y.skip(p.len() as int), p, by);
            assert(after(x, k) == by + rest);
            assert(by.len() > 0 ==> (by + rest)[0] == by[0]);
        } else {
            let rest = replaced(y.skip(1), p, by);
            assert(after(x, k) == seq![y[0]] + rest);
            assert((seq![y[0]] + rest)[0] == y[0]);
        }
    }
}

/// What `head` becomes where it is followed by something that completes no pattern begun in it.
proof fn lemma_head_kept(head: Seq<char>, x: Seq<char>)
    requires
        head.len() > 0,
        forall|k: int, i: int|
            1 <= k <= 12 && 0 <= i < head.len() ==> !#[trigger] occurs_at(
                head + after(x, (k - 1) as nat),
                i,
                pattern(k),
            ),
        forall|i: int| 0 <= i < head.len() ==> head[i] != '_' && head[i] != '.',
    ensures
        cleaned(head + x) == head + cleaned(x),
{
    lemma_patterns();
    assert forall|k: nat| k <= 12 implies #[trigger] after(head + x, k) == head + after(x, k) by {
        lemma_head_after(head, x, k);
    }
    lemma_cleaned_after(head + x);
    lemma_cleaned_after(x);
    let y = after(x, 12);
    law_collapsed_apart(head, y, '_', 3);
    law_no_run_to_cut(head, '_', 3);
    law_collapsed_apart(head, collapsed(y, '_', 3), '.', 3);
    law_no_run_to_cut(head, '.', 3);
}

proof fn lemma_head_after(head: Seq<char>, x: Seq<char>, k: nat)
    requires
        k <= 12,
        forall|k: int, i: int|
            1 <= k <= 12 && 0 <= i < head.len() ==> !#[trigger] occurs_at(
                head + after(x, (k - 1) as nat),
                i,
                pattern(k),
            ),
    ensures
        after(head + x, k) == head + after(x, k),
    decreases k,
{
    if k > 0 {
        lemma_patterns();
        lemma_head_after(head, x, (k - 1) as nat);
        let y = after(x, (k - 1) as nat);
        assert forall|i: int| 0 <= i < head.len() implies !#[trigger] occurs_at(
            head + y,
            i,
            pattern(k as int),
        ) by {
            assert(!occurs_at(head + after(x, (k as int - 1) as nat), i, pattern(k as int)));
        }
        lemma_kept_before(head, y, pattern(k as int), put_in(k as int));
    }
}

/// A hyphen is kept where nothing that could be a soft line break follows, and so is a space.
pub proof fn law_hyphen_and_space_kept(x: Seq<char>)
    requires
        x.len() == 0 || (x[0] != '<' && x[0] != '-'),
    ensures
        cleaned(seq!['-'] + x) == seq!['-'] + cleaned(x),
        cleaned(seq![' '] + x) == seq![' '] + cleaned(x),
{
    assert forall|c: char| c == '-' || c == ' ' implies cleaned(#[trigger] seq![c] + x) == seq![c]
        + cleaned(x) by {
        let head = seq![c];
        assert forall|k: int, i: int| 1 <= k <= 12 && 0 <= i < head.len() implies
            !#[trigger] occurs_at(head + after(x, (k - 1) as nat), i, pattern(k)) by {
            lemma_second_differs(head, x, k, i);
        }
        lemma_head_kept(head, x);
    }
}

/// No pattern starts at the place `i` of `head`, where what follows begins with a character that
/// does not fit.
proof fn lemma_second_differs(head: Seq<char>, x: Seq<char>, k: int, i: int)
    requires
        1 <= k <= 12,
        0 <= i < head.len(),
        x.len() == 0 || (x[0] != '<' && x[0] != '-'),
        ({
            ||| head == seq!['-']
            ||| head == seq![' ']
            ||| head == seq!['<'] && (x.len() == 0 || (x[0] != '|' && x[0] != 's' && x[0] != '/'))
            ||| head == seq!['<', '/'] && (x.len() == 0 || x[0] != 's')
            ||| head == seq!['<', 's'] && (x.len() == 0 || x[0] != '>')
        }),
    ensures
        !occurs_at(head + after(x, (k - 1) as nat), i, pattern(k)),
{
    lemma_patterns();
    let y = after(x, (k - 1) as nat);
    let s = head + y;
    let p = pattern(k);
    let n = head.len() as int;
    if occurs_at(s, i, p) {
        let part = s.subrange(i, i + p.len());
        assert(part[0] == s[i] && s[i] == head[i]);
        if x.len() == 0 {
            lemma_nothing_after((k - 1) as nat);
            assert(x =~= Seq::empty());
            assert(y.len() == 0);
        } else {
            lemma_first_after(x, (k - 1) as nat, x[0]);
        }
        if p.len() > 1 {
            assert(part[1] == s[i + 1]);
            if i + 1 < n {
                assert(s[i + 1] == head[i + 1]);
                if p.len() > 2 {
                    assert(part[2] == s[i + 2]);
                    if i + 2 == n {
                        assert(s[i + 2] == y[0]);
                    }
                }
            } else {
                assert(s[i + 1] == y[0]);
            }
        }
    }
}

proof fn lemma_nothing_after(k: nat)
    ensures
        after(Seq::empty(), k) == Seq::<char>::empty(),
    decreases k,
{
    if k > 0 {
        lemma_nothing_after((k - 1) as nat);
    }
}

/// A tag is kept: an angle bracket, with or without a slash, that what follows does not make a
/// marker, begins nothing that is taken away.
pub proof fn law_tag_kept(x: Seq<char>)
    requires
        x.len() == 0 || (x[0] != '<' && x[0] != '-'),
    ensures
        x.len() == 0 || (x[0] != '|' && x[0] != 's' && x[0] != '/') ==> cleaned(seq!['<'] + x)
            == seq!['<'] + cleaned(x),
        x.len() == 0 || x[0] != 's' ==> cleaned(seq!['<', '/'] + x) == seq!['<', '/'] + cleaned(x),
        x.len() == 0 || x[0] != '>' ==> cleaned(seq!['<', 's'] + x) == seq!['<', 's'] + cleaned(x),
{
    let heads = seq![seq!['<'], seq!['<', '/'], seq!['<', 's']];
    assert forall|h: int|
        0 <= h < 3 && (x.len() == 0 || ((h == 0 ==> x[0] != '|' && x[0] != 's' && x[0] != '/')
            && (h == 1 ==> x[0] != 's') && (h == 2 ==> x[0] != '>'))) implies cleaned(
        #[trigger] heads[h] + x,
    ) == heads[h] + cleaned(x) by {
        let head = heads[h];
        assert forall|k: int, i: int| 1 <= k <= 12 && 0 <= i < head.len() implies
            !#[trigger] occurs_at(head + after(x, (k - 1) as nat), i, pattern(k)) by {
            lemma_second_differs(head, x, k, i);
        }
        lemma_head_kept(head, x);
    }
    assert(heads[0] == seq!['<']);
    assert(heads[1] == seq!['<', '/']);
    assert(heads[2] == seq!['<', 's']);
}

/// Underscores at the beginning of a text are cut to three, and so are dots, where a character
/// follows that ends the run and begins no marker.
pub proof fn law_runs_cut(c: char, n: nat, x: Seq<char>)
    requires
        c == '_' || c == '.',
        x.len() == 0 || {
            &&& x[0] != c && x[0] != '<' && x[0] != '-' && x[0] != ' '
            &&& x[0] != '\u{120}' && x[0] != '\u{10a}' && x[0] != '\u{ffff}'
        },
    ensures
        cleaned(Seq::new(n, |i: int| c) + x) == Seq::new(
            if n <= 3 {
                n
            } else {
                3
            },
            |i: int| c,
        ) + cleaned(x),
{
    let run = Seq::new(n, |i: int| c);
    let cut = Seq::new(
        if n <= 3 {
            n
        } else {
            3
        },
        |i: int| c,
    );
    lemma_patterns();
    assert forall|k: int| 1 <= k <= 12 implies starts_nowhere(run, #[trigger] pattern(k)) by {
        assert forall|i: int| 0 <= i < run.len() implies #[trigger] starts_not(
            run,
            pattern(k),
            i,
        ) by {
            assert(differs(run, pattern(k), i, 0));
        }
    }
    lemma_kept_after(run, x, 12);
    lemma_cleaned_after(run + x);
    lemma_cleaned_after(x);
    let y = after(x, 12);
    let z = collapsed(y, '_', 3);
    if x.len() == 0 {
        lemma_nothing_after(12);
        assert(x =~= Seq::empty());
    } else {
        lemma_first_after(x, 12, x[0]);
        lemma_first_stays(y, '_');
    }
    law_run_cut(c, n, 3);
    law_collapsed_apart(run, y, '_', 3);
    if c == '_' {
        law_collapsed_apart(cut, z, '.', 3);
        law_no_run_to_cut(cut, '.', 3);
    } else {
        law_no_run_to_cut(run, '_', 3);
        law_collapsed_apart(run, z, '.', 3);
    }
}

/// Collapsing keeps the first character.
proof fn lemma_first_stays(y: Seq<char>, c: char)
    requires
        y.len() > 0,
    ensures
        collapsed(y, c, 3).len() > 0,
        collapsed(y, c, 3)[0] == y[0],
    decreases y.len(),
{
    let t = y.drop_last();
    if t.len() > 0 {
        lemma_first_stays(t, c);
        assert(t[0] == y[0]);
    } else {
        assert(trailing(t, c) == 0);
        assert(t =~= Seq::empty());
        assert(collapsed(t, c, 3) =~= Seq::empty());
        assert(collapsed(y, c, 3) =~= seq![y[0]]);
    }
}

/// Text in which no marker occurs, and no character that marks another, is only collapsed,
/// whatever tags it holds.
pub proof fn law_unmarked_text_collapsed(s: Seq<char>)
    requires
        forall|i: int|
            0 <= i < s.len() ==> #[trigger] s[i] != '\u{120}' && s[i] != '\u{10a}' && s[i]
                != '\u{ffff}',
        forall|i: int|
            0 <= i && i + 7 <= s.len() ==> #[trigger] s.subrange(i, i + 7) != "<|bos|>"@
                && s.subrange(i, i + 7) != "<|eos|>"@ && s.subrange(i, i + 7) != "<|pad|>"@
                && s.subrange(i, i + 7) != "<|unk|>"@,
        forall|i: int|
            0 <= i && i + 6 <= s.len() ==> #[trigger] s.subrange(i, i + 6) != "<|sn|>"@,
        forall|i: int| 0 <= i && i + 3 <= s.len() ==> #[trigger] s.subrange(i, i + 3) != "<s>"@,
        forall|i: int| 0 <= i && i + 4 <= s.len() ==> #[trigger] s.subrange(i, i + 4) != "</s>"@,
    ensures
        cleaned(s) == collapsed(collapsed(s, '_', 3), '.', 3),
{
    lemma_patterns();
    assert forall|k: int| 1 <= k <= 12 implies replaced(s, #[trigger] pattern(k), put_in(k))
        == s by {
        let p = pattern(k);
        assert forall|i: int| 0 <= i && i + p.len() <= s.len() implies #[trigger] s.subrange(
            i,
            i + p.len(),
        ) != p by {
            let part = s.subrange(i, i + p.len());
            if k <= 2 || k == 12 {
                assert(part[0] == s[i]);
            } else if k == 6 || k == 7 {
                assert(s.subrange(i + 1, i + 1 + 6) =~= part.subrange(1, 7));
                if part == p {
                    assert(p.subrange(1, 7) =~= "<|sn|>"@);
                }
            } else if k == 8 {
                assert(part == s.subrange(i, i + 6));
            } else if k == 10 {
                assert(part == s.subrange(i, i + 3));
            } else if k == 11 {
                assert(part == s.subrange(i, i + 4));
            } else {
                assert(part == s.subrange(i, i + 7));
            }
        }
        law_unmatched_kept(s, p, put_in(k));
    }
    lemma_all_kept(s, 12);
    lemma_cleaned_after(s);
}

/// Text in which no marker occurs, and no character that marks another, and not four underscores
/// or dots in a row, is kept as it is, whatever tags it holds.
pub proof fn law_unmarked_text_kept(s: Seq<char>)
    requires
        forall|i: int|
            0 <= i < s.len() ==> #[trigger] s[i] != '\u{120}' && s[i] != '\u{10a}' && s[i]
                != '\u{ffff}',
        forall|i: int|
            0 <= i && i + 7 <= s.len() ==> #[trigger] s.subrange(i, i + 7) != "<|bos|>"@
                && s.subrange(i, i + 7) != "<|eos|>"@ && s.subrange(i, i + 7) != "<|pad|>"@
                && s.subrange(i, i + 7) != "<|unk|>"@,
        forall|i: int|
            0 <= i && i + 6 <= s.len() ==> #[trigger] s.subrange(i, i + 6) != "<|sn|>"@,
        forall|i: int| 0 <= i && i + 3 <= s.len() ==> #[trigger] s.subrange(i, i + 3) != "<s>"@,
        forall|i: int|
            0 <= i && i + 4 <= s.len() ==> #[trigger] s.subrange(i, i + 4) != "</s>"@
                && s.subrange(i, i + 4) != seq!['_', '_', '_', '_'] && s.subrange(i, i + 4) != seq![
                '.',
                '.',
                '.',
                '.',
            ],
    ensures
        cleaned(s) == s,
{
    law_unmarked_text_collapsed(s);
    assert forall|c: char| c == '_' || c == '.' implies #[trigger] collapsed(s, c, 3) == s by {
        assert forall|i: int| 0 <= i && i + 3nat + 1 <= s.len() implies #[trigger] s.subrange(
            i,
            i + 3nat + 1,
        ) != Seq::new(3nat + 1, |j: int| c) by {
            assert(Seq::new(3nat + 1, |j: int| c) =~= seq![c, c, c, c]);
            assert(s.subrange(i, i + 3nat + 1) == s.subrange(i, i + 4));
        }
        law_no_long_run_kept(s, c, 3);
    }
}

/// Whether no marker, and no mark, stands in a text, nor begins at its end.
pub closed spec fn harmless(a: Seq<char>) -> bool {
    forall|k: int| 1 <= k <= 12 ==> starts_nowhere(a, #[trigger] pattern(k))
}

/// Text is harmless that has no marks, does not end in a hyphen or a space, and in which each
/// angle bracket begins a tag that is no marker.
pub proof fn law_harmless(a: Seq<char>)
    requires
        forall|i: int|
            0 <= i < a.len() ==> #[trigger] a[i] != '\u{120}' && a[i] != '\u{10a}' && a[i]
                != '\u{ffff}',
        a.len() > 0 ==> a.last() != '-' && a.last() != ' ',
        forall|i: int|
            0 <= i < a.len() && (#[trigger] a.skip(i))[0] == '<' ==> {
                let t = a.skip(i);
                &&& t.len() > 1
                &&& t[1] != '|'
                &&& t[1] == 's' ==> t.len() > 2 && t[2] != '>'
                &&& t[1] == '/' ==> t.len() > 2 && (t[2] == 's' ==> t.len() > 3 && t[3] != '>')
            },
    ensures
        harmless(a),
{
    lemma_patterns();
    assert forall|k: int| 1 <= k <= 12 implies starts_nowhere(a, #[trigger] pattern(k)) by {
        let p = pattern(k);
        assert forall|i: int| 0 <= i < a.len() implies #[trigger] starts_not(a, p, i) by {
            let t = a.skip(i);
            if a[i] != p[0] {
                assert(differs(a, p, i, 0));
            } else if k == 6 || k == 7 {
                assert(i + 1 < a.len());
                let u = a.skip(i + 1);
                if a[i + 1] != '<' {
                    assert(differs(a, p, i, 1));
                } else {
                    assert(u[0] == '<' && u[1] == a[i + 2]);
                    assert(differs(a, p, i, 2));
                }
            } else {
                assert(t[0] == '<');
                assert(t[1] == a[i + 1]);
                if a[i + 1] != p[1] {
                    assert(differs(a, p, i, 1));
                } else {
                    assert(t[2] == a[i + 2]);
                    if a[i + 2] != p[2] {
                        assert(differs(a, p, i, 2));
                    } else {
                        assert(t[3] == a[i + 3]);
                        assert(differs(a, p, i, 3));
                    }
                }
            }
        }
    }
}

/// A harmless text is cleaned apart from what follows it, unless a run goes on.
pub proof fn law_cleaned_apart(a: Seq<char>, x: Seq<char>)
    requires
        a.len() > 0,
        a.last() != '_',
        a.last() != '.',
        harmless(a),
    ensures
        cleaned(a + x) == cleaned(a) + cleaned(x),
{
    lemma_kept_after(a, x, 12);
    let none = Seq::<char>::empty();
    lemma_kept_after(a, none, 12);
    lemma_nothing_after(12);
    assert(a + none =~= a);
    lemma_cleaned_after(a);
    lemma_cleaned_after(x);
    lemma_cleaned_after(a + x);
    let (y, b) = (after(x, 12), collapsed(a, '_', 3));
    law_collapsed_apart(a, y, '_', 3);
    lemma_last_stays(a, '_');
    law_collapsed_apart(b, collapsed(y, '_', 3), '.', 3);
}

/// Collapsing keeps a last character of another kind.
proof fn lemma_last_stays(a: Seq<char>, c: char)
    requires
        a.len() > 0,
        a.last() != c,
    ensures
        collapsed(a, c, 3).len() > 0,
        collapsed(a, c, 3).last() == a.last(),
{
}

/// Behind a harmless text a marker that stands for nothing is gone, as if what is before and
/// behind it had stood together. So is a soft line break behind a hyphen.
pub proof fn law_markers_vanish_within(a: Seq<char>, x: Seq<char>)
    requires
        harmless(a),
    ensures
        cleaned(a + "<|bos|>"@ + x) == cleaned(a + x),
        cleaned(a + "<|eos|>"@ + x) == cleaned(a + x),
        cleaned(a + "<|pad|>"@ + x) == cleaned(a + x),
        cleaned(a + "-<|sn|>"@ + x) == cleaned(a + x),
        cleaned(a + "<|unk|>"@ + x) == cleaned(a + x),
        cleaned(a + "<s>"@ + x) == cleaned(a + x),
        cleaned(a + "</s>"@ + x) == cleaned(a + x),
        cleaned(a + seq!['\u{ffff}'] + x) == cleaned(a + x),
{
    lemma_patterns();
    assert forall|k: int| 3 <= k <= 12 && k != 7 && k != 8 implies cleaned(
        a + #[trigger] pattern(k) + x,
    ) == cleaned(a + x) by {
        let m = pattern(k);
        lemma_marker_first(x, k as nat);
        assert(put_in(k) + after(x, 12) =~= after(x, 12));
        assert(a + m + x =~= a + (m + x));
        lemma_kept_after(a, m + x, 12);
        lemma_kept_after(a, x, 12);
        lemma_cleaned_after(a + (m + x));
        lemma_cleaned_after(a + x);
    }
    assert(cleaned(a + pattern(3) + x) == cleaned(a + x));
    assert(cleaned(a + pattern(4) + x) == cleaned(a + x));
    assert(cleaned(a + pattern(5) + x) == cleaned(a + x));
    assert(cleaned(a + pattern(6) + x) == cleaned(a + x));
    assert(cleaned(a + pattern(9) + x) == cleaned(a + x));
    assert(cleaned(a + pattern(10) + x) == cleaned(a + x));
    assert(cleaned(a + pattern(11) + x) == cleaned(a + x));
    assert(cleaned(a + pattern(12) + x) == cleaned(a + x));
}

/// Behind a harmless text a soft line break is a space and a marked newline is a newline, and
/// what follows is cleaned as if it stood alone.
pub proof fn law_breaks_within(a: Seq<char>, x: Seq<char>)
    requires
        harmless(a),
    ensures
        cleaned(a + "<|sn|>"@ + x) == cleaned(a) + seq![' '] + cleaned(x),
        cleaned(a + " <|sn|>"@ + x) == cleaned(a) + seq![' '] + cleaned(x),
        cleaned(a + seq!['\u{10a}'] + x) == cleaned(a) + seq!['\n'] + cleaned(x),
        cleaned(a + seq!['\u{120}'] + x) == cleaned(a + seq![' '] + x),
{
    lemma_patterns();
    let none = Seq::<char>::empty();
    lemma_kept_after(a, none, 12);
    lemma_nothing_after(12);
    assert(a + none =~= a);
    lemma_cleaned_after(a);
    lemma_cleaned_after(x);
    let y = after(x, 12);
    assert forall|k: int| k == 2 || k == 7 || k == 8 implies cleaned(a + #[trigger] pattern(k) + x)
        == cleaned(a) + put_in(k) + cleaned(x) by {
        let m = pattern(k);
        let c = put_in(k)[0];
        lemma_marker_first(x, k as nat);
        assert(a + m + x =~= a + (m + x));
        lemma_kept_after(a, m + x, 12);
        lemma_cleaned_after(a + (m + x));
        assert(put_in(k) =~= seq![c]);
        let z = seq![c] + y;
        law_collapsed_apart(a, z, '_', 3);
        law_collapsed_apart(seq![c], y, '_', 3);
        law_no_run_to_cut(seq![c], '_', 3);
        let (b, u) = (collapsed(a, '_', 3), collapsed(y, '_', 3));
        law_collapsed_apart(b, seq![c] + u, '.', 3);
        law_collapsed_apart(seq![c], u, '.', 3);
        law_no_run_to_cut(seq![c], '.', 3);
        assert(cleaned(a) + (seq![c] + cleaned(x)) =~= cleaned(a) + seq![c] + cleaned(x));
    }
    assert(cleaned(a + pattern(2) + x) == cleaned(a) + put_in(2) + cleaned(x));
    assert(cleaned(a + pattern(7) + x) == cleaned(a) + put_in(7) + cleaned(x));
    assert(cleaned(a + pattern(8) + x) == cleaned(a) + put_in(8) + cleaned(x));
    let (p, q) = (seq!['\u{120}'] + x, seq![' '] + x);
    lemma_replaced_at(x, 1);
    lemma_starts_nowhere(seq![' '], pattern(1), 0, 0);
    lemma_kept_after(seq![' '], x, 1);
    assert(none + after(q, 1) =~= after(q, 1));
    lemma_same_from(p, q, none, 1, 12);
    assert(none + after(q, 12) =~= after(q, 12));
    lemma_kept_after(a, p, 12);
    lemma_kept_after(a, q, 12);
    lemma_cleaned_after(a + p);
    lemma_cleaned_after(a + q);
    assert(a + seq!['\u{120}'] + x =~= a + p);
    assert(a + seq![' '] + x =~= a + q);
}

proof fn lemma_all_kept(s: Seq<char>, k: nat)
    requires
        k <= 12,
        forall|i: int|
            1 <= i <= 12 ==> replaced(s, #[trigger] pattern(i), put_in(i)) == s,
    ensures
        after(s, k) == s,
    decreases k,
{
    if k > 0 {
        lemma_all_kept(s, (k - 1) as nat);
        assert(replaced(s, pattern(k as int), put_in(k as int)) == s);
    }
}

/// Tokens stand for their texts, one after the other, and those that the vocabulary does not have
/// for nothing; what comes of that is cleaned as a whole.
pub proof fn law_tokens_joined(vocab: Seq<Seq<char>>, ids: Seq<i64>)
    ensures
        detokenized(vocab, ids) == cleaned(
            ids.map_values(
                |id: i64|
                    if 0 <= id < vocab.len() {
                        vocab[id as int]
                    } else {
                        Seq::<char>::empty()
                    },
            ).flatten(),
        ),
{
    lemma_joined_flat(vocab, ids);
}

proof fn lemma_joined_flat(vocab: Seq<Seq<char>>, ids: Seq<i64>)
    ensures
        joined(vocab, ids) == ids.map_values(
            |id: i64|
                if 0 <= id < vocab.len() {
                    vocab[id as int]
                } else {
                    Seq::<char>::empty()
                },
        ).flatten(),
    decreases ids.len(),
{
    let f = |id: i64|
        if 0 <= id < vocab.len() {
            vocab[id as int]
        } else {
            Seq::<char>::empty()
        };
    let parts = ids.map_values(f);
    if ids.len() == 0 {
        assert(parts.flatten() =~= Seq::empty());
    } else {
        lemma_joined_flat(vocab, ids.drop_last());
        assert(ids.drop_last().map_values(f) =~= parts.drop_last());
        parts.lemma_flatten_and_flatten_alt_are_equivalent();
        parts.drop_last().lemma_flatten_and_flatten_alt_are_equivalent();
        assert(parts.last() == f(ids.last()));
    }
}

} // verus!
