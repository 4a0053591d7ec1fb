use vstd::prelude::*;

use crate::chars::{
    chars_eq, chars_to_string, extend_chars, is_space, is_space_char, str_to_chars, vec_subrange,
};

verus! {

// ─── Words of a transcript ────────────────────────────────────────────

/// A word: a nonempty run of non-blank characters.
pub open spec fn word_ok(w: Seq<char>) -> bool {
    w.len() > 0 && forall|i: int| 0 <= i < w.len() ==> !is_space_char(w[i])
}

/// Every entry is a word.
pub open spec fn words_ok(ws: Seq<Seq<char>>) -> bool {
    forall|i: int| 0 <= i < ws.len() ==> word_ok(#[trigger] ws[i])
}

/// The words of `s`: maximal runs of non-blank characters, in order.
pub open spec fn split_ws(s: Seq<char>) -> Seq<Seq<char>>
    decreases s.len(),
{
    if s.len() == 0 {
        Seq::empty()
    } else {
        let rest = split_ws(s.drop_first());
        if is_space_char(s[0]) {
            rest
        } else if s.len() > 1 && !is_space_char(s[1]) {
            seq![seq![s[0]] + rest[0]] + rest.drop_first()
        } else {
            seq![seq![s[0]]] + rest
        }
    }
}

/// The words joined back with single blanks.
pub open spec fn join_ws(ws: Seq<Seq<char>>) -> Seq<char>
    decreases ws.len(),
{
    if ws.len() == 0 {
        Seq::empty()
    } else if ws.len() == 1 {
        ws[0]
    } else {
        ws[0] + seq![' '] + join_ws(ws.drop_first())
    }
}

/// A text that starts with a non-blank character has a first word, and that
/// word starts with the same character.
proof fn lemma_split_first(s: Seq<char>)
    requires
        s.len() > 0,
        !is_space_char(s[0]),
    ensures
        split_ws(s).len() > 0,
    decreases s.len(),
{
    if s.len() > 1 && !is_space_char(s[1]) {
        lemma_split_first(s.drop_first());
    }
}

/// Splitting yields well-formed words.
proof fn lemma_split_ws_ok(s: Seq<char>)
    ensures
        words_ok(split_ws(s)),
    decreases s.len(),
{
    if s.len() == 0 {
    } else {
        lemma_split_ws_ok(s.drop_first());
        let rest = split_ws(s.drop_first());
        let r = split_ws(s);
        if is_space_char(s[0]) {
        } else if s.len() > 1 && !is_space_char(s[1]) {
            lemma_split_first(s.drop_first());
            assert(word_ok(rest[0]));
            let w0 = seq![s[0]] + rest[0];
            assert forall|i: int| 0 <= i < w0.len() implies !is_space_char(w0[i]) by {
                if i > 0 {
                    assert(w0[i] == rest[0][i - 1]);
                }
            }
            assert forall|i: int| 0 <= i < r.len() implies word_ok(r[i]) by {
                if i == 0 {
                    assert(r[0] == w0);
                } else {
                    assert(r[i] == rest[i]);
                }
            }
        } else {
            assert forall|i: int| 0 <= i < r.len() implies word_ok(r[i]) by {
                if i == 0 {
                    assert(r[0] == seq![s[0]]);
                } else {
                    assert(r[i] == rest[i - 1]);
                }
            }
        }
    }
}

/// Splitting a word followed by blank-headed (or empty) text peels off
/// exactly that word.
proof fn lemma_split_prepend_word(w: Seq<char>, t: Seq<char>)
    requires
        word_ok(w),
        t.len() == 0 || is_space_char(t[0]),
    ensures
        split_ws(w + t) == seq![w] + split_ws(t),
    decreases w.len(),
{
    let s = w + t;
    assert(s[0] == w[0]);
    assert(!is_space_char(s[0]));
    if w.len() == 1 {
        if t.len() == 0 {
            assert(s.len() == 1);
            assert(t =~= Seq::<char>::empty());
            assert(s.drop_first() =~= t);
            assert(seq![s[0]] =~= w);
            assert(split_ws(s) == seq![seq![s[0]]] + split_ws(s.drop_first()));
            assert(split_ws(s) =~= seq![w] + split_ws(t));
        } else {
            assert(s[1] == t[0]);
            assert(is_space_char(s[1]));
            assert(s.drop_first() =~= t);
            assert(seq![s[0]] =~= w);
            assert(split_ws(s) == seq![seq![s[0]]] + split_ws(s.drop_first()));
            assert(split_ws(s) =~= seq![w] + split_ws(t));
        }
    } else {
        assert(s.len() > 1);
        assert(s[1] == w[1]);
        assert(!is_space_char(s[1]));
        let w1 = w.drop_first();
        assert(word_ok(w1)) by {
            assert forall|i: int| 0 <= i < w1.len() implies !is_space_char(w1[i]) by {
                assert(w1[i] == w[i + 1]);
            }
        }
        assert(s.drop_first() =~= w1 + t);
        lemma_split_prepend_word(w1, t);
        let rest = split_ws(s.drop_first());
        assert(rest == seq![w1] + split_ws(t));
        assert(rest[0] == w1);
        assert(seq![s[0]] + rest[0] =~= w);
        assert(rest.drop_first() =~= split_ws(t));
        assert(split_ws(s) =~= seq![w] + split_ws(t));
    }
}

/// A leading blank does not change the words.
proof fn lemma_split_prepend_space(c: char, t: Seq<char>)
    requires
        is_space_char(c),
    ensures
        split_ws(seq![c] + t) == split_ws(t),
{
    let s = seq![c] + t;
    assert(s[0] == c);
    assert(s.drop_first() =~= t);
}

/// Splitting the joined form of well-formed words gives the words back.
proof fn lemma_split_join(ws: Seq<Seq<char>>)
    requires
        words_ok(ws),
    ensures
        split_ws(join_ws(ws)) == ws,
    decreases ws.len(),
{
    if ws.len() == 0 {
        assert(split_ws(join_ws(ws)) =~= ws);
    } else if ws.len() == 1 {
        assert(word_ok(ws[0]));
        assert(ws[0] + Seq::<char>::empty() =~= ws[0]);
        lemma_split_prepend_word(ws[0], Seq::<char>::empty());
        assert(split_ws(join_ws(ws)) =~= ws);
    } else {
        let rest = ws.drop_first();
        assert(words_ok(rest)) by {
            assert forall|i: int| 0 <= i < rest.len() implies word_ok(rest[i]) by {
                assert(rest[i] == ws[i + 1]);
            }
        }
        lemma_split_join(rest);
        let t = seq![' '] + join_ws(rest);
        assert(word_ok(ws[0]));
        assert(t[0] == ' ');
        assert(join_ws(ws) =~= ws[0] + t);
        lemma_split_prepend_word(ws[0], t);
        lemma_split_prepend_space(' ', join_ws(rest));
        assert(seq![' '] + join_ws(rest) == t);
        assert(split_ws(join_ws(ws)) =~= ws);
    }
}

/// Appending one more word to a joined text.
proof fn lemma_join_push(ws: Seq<Seq<char>>, w: Seq<char>)
    ensures
        ws.len() == 0 ==> join_ws(ws.push(w)) == w,
        ws.len() > 0 ==> join_ws(ws.push(w)) == join_ws(ws) + seq![' '] + w,
    decreases ws.len(),
{
    let p = ws.push(w);
    if ws.len() == 0 {
        assert(p.len() == 1);
        assert(p[0] == w);
    } else if ws.len() == 1 {
        assert(p.len() == 2);
        assert(p[0] == ws[0]);
        assert(p.drop_first() =~= seq![w]);
        assert(join_ws(p.drop_first()) == w);
        assert(join_ws(ws) == ws[0]);
    } else {
        assert(p[0] == ws[0]);
        assert(p.drop_first() =~= ws.drop_first().push(w));
        lemma_join_push(ws.drop_first(), w);
        assert(join_ws(p) == ws[0] + seq![' '] + join_ws(ws.drop_first().push(w)));
        assert(ws[0] + seq![' '] + (join_ws(ws.drop_first()) + seq![' '] + w) =~= (ws[0] + seq![' ']
            + join_ws(ws.drop_first())) + seq![' '] + w);
    }
}

// ─── The filler table ─────────────────────────────────────────────────

/// Filler phrases removed from transcripts, each as a sequence of words.
/// Tokens are matched whole, so fragments inside longer words are kept.
pub open spec fn filler_table() -> Seq<Seq<Seq<char>>> {
    seq![
        seq!["um"@],
        seq!["uh"@],
        seq!["hmm"@],
        seq!["uhh"@],
        seq!["umm"@],
        seq!["like"@],
        seq!["you"@, "know"@],
        seq!["I"@, "mean"@],
        seq!["sort"@, "of"@],
        seq!["kind"@, "of"@],
        seq!["basically"@],
        seq!["actually"@],
        seq!["um,"@],
        seq!["uh,"@],
        seq!["hmm,"@],
    ]
}

/// The phrase `p` matches the words of `ws` starting at position `i`.
pub open spec fn phrase_at(ws: Seq<Seq<char>>, i: int, p: Seq<Seq<char>>) -> bool {
    &&& 0 <= i
    &&& i + p.len() <= ws.len()
    &&& ws.subrange(i, i + p.len() as int) == p
}

/// Word length of the first table phrase, from table index `k` on, that
/// matches at position `i`; 0 when none matches.
pub open spec fn phrase_match_from(ws: Seq<Seq<char>>, i: int, k: int) -> int
    decreases filler_table().len() - k,
{
    if !(0 <= k < filler_table().len()) {
        0
    } else if phrase_at(ws, i, filler_table()[k]) {
        filler_table()[k].len() as int
    } else {
        phrase_match_from(ws, i, k + 1)
    }
}

/// Word length of the first matching filler phrase at position `i`.
pub open spec fn match_len(ws: Seq<Seq<char>>, i: int) -> int {
    phrase_match_from(ws, i, 0)
}

/// Every filler phrase has at least one word.
proof fn lemma_table_phrases_nonempty()
    ensures
        forall|k: int|
            0 <= k < filler_table().len() ==> (#[trigger] filler_table()[k]).len() >= 1,
{
}

/// What a match length means: zero is no match, a positive value is the
/// length of some matching phrase.
proof fn lemma_phrase_match_from(ws: Seq<Seq<char>>, i: int, k: int)
    requires
        0 <= k <= filler_table().len(),
    ensures
        phrase_match_from(ws, i, k) == 0 ==> forall|j: int|
            k <= j < filler_table().len() ==> !phrase_at(ws, i, #[trigger] filler_table()[j]),
        phrase_match_from(ws, i, k) != 0 ==> exists|j: int|
            k <= j < filler_table().len() && phrase_at(ws, i, #[trigger] filler_table()[j])
                && filler_table()[j].len() == phrase_match_from(ws, i, k),
    decreases filler_table().len() - k,
{
    if k < filler_table().len() {
        if phrase_at(ws, i, filler_table()[k]) {
            lemma_table_phrases_nonempty();
            assert(filler_table()[k].len() >= 1);
        } else {
            lemma_phrase_match_from(ws, i, k + 1);
        }
    }
}

/// A positive match length is between 1 and the number of words remaining.
proof fn lemma_match_len_bounds(ws: Seq<Seq<char>>, i: int)
    requires
        0 <= i <= ws.len(),
    ensures
        match_len(ws, i) == 0 || (1 <= match_len(ws, i) && i + match_len(ws, i) <= ws.len()),
{
    lemma_phrase_match_from(ws, i, 0);
}

/// Matching only looks at the words from the position on.
proof fn lemma_match_shift_from(ws: Seq<Seq<char>>, i: int, k: int)
    requires
        0 <= i <= ws.len(),
        0 <= k <= filler_table().len(),
    ensures
        phrase_match_from(ws, i, k) == phrase_match_from(ws.skip(i), 0, k),
    decreases filler_table().len() - k,
{
    if k < filler_table().len() {
        let p = filler_table()[k];
        assert(phrase_at(ws, i, p) == phrase_at(ws.skip(i), 0, p)) by {
            if i + p.len() <= ws.len() {
                assert(ws.subrange(i, i + p.len() as int) =~= ws.skip(i).subrange(
                    0,
                    p.len() as int,
                ));
            }
        }
        lemma_match_shift_from(ws, i, k + 1);
    }
}

// ─── One removal sweep, iterated to a fixed point ─────────────────────

/// One left-to-right sweep: at each position, drop the first matching
/// filler phrase and continue after it, else keep the word.
pub open spec fn sweep(ws: Seq<Seq<char>>) -> Seq<Seq<char>>
    decreases ws.len(),
{
    if ws.len() == 0 {
        ws
    } else {
        let ml = match_len(ws, 0);
        if ml > 0 {
            let m = if ml > ws.len() {
                ws.len() as int
            } else {
                ml
            };
            sweep(ws.skip(m))
        } else {
            seq![ws[0]] + sweep(ws.drop_first())
        }
    }
}

/// A sweep never grows the word list, and a sweep that removes nothing is
/// the identity.
proof fn lemma_sweep_len(ws: Seq<Seq<char>>)
    ensures
        sweep(ws).len() <= ws.len(),
        sweep(ws).len() == ws.len() ==> sweep(ws) == ws,
    decreases ws.len(),
{
    if ws.len() == 0 {
    } else {
        let ml = match_len(ws, 0);
        if ml > 0 {
            let m = if ml > ws.len() {
                ws.len() as int
            } else {
                ml
            };
            lemma_sweep_len(ws.skip(m));
        } else {
            lemma_sweep_len(ws.drop_first());
            if sweep(ws).len() == ws.len() {
                assert(sweep(ws.drop_first()) == ws.drop_first());
                assert(sweep(ws) =~= ws);
            }
        }
    }
}

/// Every word a sweep keeps was a word of the input.
proof fn lemma_sweep_subset(ws: Seq<Seq<char>>)
    ensures
        forall|w: Seq<char>| sweep(ws).contains(w) ==> ws.contains(w),
    decreases ws.len(),
{
    if ws.len() == 0 {
    } else {
        let ml = match_len(ws, 0);
        if ml > 0 {
            let m = if ml > ws.len() {
                ws.len() as int
            } else {
                ml
            };
            lemma_sweep_subset(ws.skip(m));
            assert forall|w: Seq<char>| sweep(ws).contains(w) implies ws.contains(w) by {
                assert(ws.skip(m).contains(w));
                let j = choose|j: int| 0 <= j < ws.skip(m).len() && ws.skip(m)[j] == w;
                assert(ws[j + m] == w);
            }
        } else {
            lemma_sweep_subset(ws.drop_first());
            assert forall|w: Seq<char>| sweep(ws).contains(w) implies ws.contains(w) by {
                let r = sweep(ws);
                let j = choose|j: int| 0 <= j < r.len() && r[j] == w;
                if j == 0 {
                    assert(ws[0] == w);
                } else {
                    assert(sweep(ws.drop_first())[j - 1] == w);
                    assert(sweep(ws.drop_first()).contains(w));
                    assert(ws.drop_first().contains(w));
                    let l = choose|l: int|
                        0 <= l < ws.drop_first().len() && ws.drop_first()[l] == w;
                    assert(ws[l + 1] == w);
                }
            }
        }
    }
}

/// Sweeps iterated with a fuel bound; `ws.len()` sweeps always suffice to
/// reach the fixed point, since a productive sweep removes a word.
pub open spec fn clean_iter(ws: Seq<Seq<char>>, fuel: nat) -> Seq<Seq<char>>
    decreases fuel,
{
    if fuel == 0 {
        ws
    } else {
        let sw = sweep(ws);
        if sw == ws {
            ws
        } else {
            clean_iter(sw, (fuel - 1) as nat)
        }
    }
}

/// The words left after removing filler phrases until none matches.
pub open spec fn clean_words(ws: Seq<Seq<char>>) -> Seq<Seq<char>> {
    clean_iter(ws, ws.len())
}

/// At a fixed point of `sweep`, iteration stops at once.
proof fn lemma_clean_iter_fixed(ws: Seq<Seq<char>>, fuel: nat)
    requires
        sweep(ws) == ws,
    ensures
        clean_iter(ws, fuel) == ws,
{
}

/// With enough fuel the iteration result does not depend on the fuel.
proof fn lemma_clean_iter_fuel(ws: Seq<Seq<char>>, f1: nat, f2: nat)
    requires
        f1 >= ws.len(),
        f2 >= ws.len(),
    ensures
        clean_iter(ws, f1) == clean_iter(ws, f2),
    decreases ws.len(),
{
    let sw = sweep(ws);
    if sw == ws {
    } else {
        lemma_sweep_len(ws);
        assert(sw.len() < ws.len());
        assert(ws.len() > 0);
        lemma_clean_iter_fuel(sw, (f1 - 1) as nat, (f2 - 1) as nat);
    }
}

/// Cleaning is unchanged by first applying one sweep.
proof fn lemma_clean_of_sweep(ws: Seq<Seq<char>>)
    ensures
        clean_words(ws) == clean_words(sweep(ws)),
{
    let sw = sweep(ws);
    if sw == ws {
    } else {
        lemma_sweep_len(ws);
        assert(ws.len() > 0);
        assert(clean_words(ws) == clean_iter(sw, (ws.len() - 1) as nat));
        lemma_clean_iter_fuel(sw, (ws.len() - 1) as nat, sw.len());
    }
}

/// The cleaned words are a fixed point of `sweep`.
proof fn lemma_clean_words_fixed(ws: Seq<Seq<char>>)
    ensures
        sweep(clean_words(ws)) == clean_words(ws),
    decreases ws.len(),
{
    let sw = sweep(ws);
    if sw == ws {
        lemma_clean_iter_fixed(ws, ws.len());
    } else {
        lemma_sweep_len(ws);
        assert(sw.len() < ws.len());
        lemma_clean_of_sweep(ws);
        lemma_clean_words_fixed(sw);
    }
}

/// Cleaning already-cleaned words changes nothing.
proof fn lemma_clean_words_idempotent(ws: Seq<Seq<char>>)
    ensures
        clean_words(clean_words(ws)) == clean_words(ws),
{
    lemma_clean_words_fixed(ws);
    lemma_clean_iter_fixed(clean_words(ws), clean_words(ws).len());
}

/// Every cleaned word was a word of the input.
proof fn lemma_clean_words_subset(ws: Seq<Seq<char>>)
    ensures
        forall|w: Seq<char>| clean_words(ws).contains(w) ==> ws.contains(w),
    decreases ws.len(),
{
    let sw = sweep(ws);
    if sw == ws {
        lemma_clean_iter_fixed(ws, ws.len());
    } else {
        lemma_sweep_len(ws);
        lemma_clean_of_sweep(ws);
        lemma_clean_words_subset(sw);
        lemma_sweep_subset(ws);
    }
}

/// Cleaning keeps words well formed.
proof fn lemma_clean_words_ok(ws: Seq<Seq<char>>)
    requires
        words_ok(ws),
    ensures
        words_ok(clean_words(ws)),
{
    lemma_clean_words_subset(ws);
    let c = clean_words(ws);
    assert forall|i: int| 0 <= i < c.len() implies word_ok(#[trigger] c[i]) by {
        assert(c.contains(c[i]));
        assert(ws.contains(c[i]));
        let j = choose|j: int| 0 <= j < ws.len() && ws[j] == c[i];
        assert(word_ok(ws[j]));
    }
}

// ─── The cleaning function and its laws ───────────────────────────────

/// Filler-word removal: split into words, delete filler phrases until none
/// matches, join with single blanks.
pub open spec fn spec_clean_text(t: Seq<char>) -> Seq<char> {
    join_ws(clean_words(split_ws(t)))
}

/// Filler-word removal is idempotent: cleaning a cleaned text returns it
/// unchanged.
pub proof fn lemma_clean_idempotent(t: Seq<char>)
    ensures
        spec_clean_text(spec_clean_text(t)) == spec_clean_text(t),
{
    let ws = split_ws(t);
    lemma_split_ws_ok(t);
    let c = clean_words(ws);
    lemma_clean_words_ok(ws);
    lemma_split_join(c);
    lemma_clean_words_fixed(ws);
    lemma_clean_iter_fixed(c, c.len());
    assert(clean_words(c) == c);
}

/// Filler-word removal never rewrites a word: every word of the output is a
/// word of the input, kept whole. In particular a word that merely contains
/// a filler as a fragment is left intact.
pub proof fn lemma_clean_preserves_words(t: Seq<char>)
    ensures
        forall|w: Seq<char>|
            clean_words(split_ws(t)).contains(w) ==> split_ws(t).contains(w),
{
    lemma_clean_words_subset(split_ws(t));
}

// ─── Executable cleaning ──────────────────────────────────────────────

/// Split a character vector into its words.
pub(crate) fn split_words(v: &Vec<char>) -> (r: Vec<Vec<char>>)
    ensures
        r.deep_view() == split_ws(v@),
{
    let n = v.len();
    let mut acc: Vec<Vec<char>> = Vec::new();
    let mut i: usize = n;
    proof {
        assert(v@.skip(n as int) =~= Seq::<char>::empty());
        assert(acc.deep_view() =~= split_ws(v@.skip(n as int)));
    }
    while i > 0
        invariant
            i <= n,
            n == v@.len(),
            acc.deep_view() == split_ws(v@.skip(i as int)),
        decreases i,
    {
        let ghost s0 = v@.skip(i as int);
        let ghost s1 = v@.skip(i - 1 as int);
        proof {
            assert(s1.len() == n - i + 1);
            assert(s1[0] == v@[i - 1]);
            assert(s1.drop_first() =~= s0);
        }
        let c = v[i - 1];
        if is_space(c) {
            proof {
                assert(split_ws(s1) == split_ws(s0));
            }
        } else {
            let cont = if i < n {
                !is_space(v[i])
            } else {
                false
            };
            proof {
                if i < n {
                    assert(s1[1] == v@[i as int]);
                }
                assert(cont == (s1.len() > 1 && !is_space_char(s1[1])));
            }
            if cont {
                proof {
                    lemma_split_first(s0);
                    assert(acc.deep_view().len() == acc@.len());
                }
                let ghost old_acc = acc.deep_view();
                let head = acc.remove(0);
                let mut w: Vec<char> = Vec::new();
                w.push(c);
                extend_chars(&mut w, &head);
                acc.insert(0, w);
                proof {
                    assert(w.deep_view() =~= w@);
                    assert(head.deep_view() =~= head@);
                    assert(head@ == old_acc[0]) by {
                        assert(old_acc[0] == head.deep_view());
                    }
                    assert(w@ == seq![c] + old_acc[0]);
                    assert(acc.deep_view() =~= seq![seq![s1[0]] + old_acc[0]]
                        + old_acc.drop_first());
                    assert(split_ws(s1) == seq![seq![s1[0]] + old_acc[0]] + old_acc.drop_first());
                }
            } else {
                let mut w: Vec<char> = Vec::new();
                w.push(c);
                let ghost old_acc = acc.deep_view();
                acc.insert(0, w);
                proof {
                    assert(w.deep_view() =~= seq![c]);
                    assert(acc.deep_view() =~= seq![seq![s1[0]]] + old_acc);
                    assert(split_ws(s1) == seq![seq![s1[0]]] + old_acc);
                }
            }
        }
        i = i - 1;
    }
    proof {
        assert(v@.skip(0) =~= v@);
    }
    acc
}

/// Join words with single blanks.
fn join_words(ws: &Vec<Vec<char>>) -> (r: Vec<char>)
    ensures
        r@ == join_ws(ws.deep_view()),
{
    let ghost dv = ws.deep_view();
    let mut r: Vec<char> = Vec::new();
    let mut i: usize = 0;
    proof {
        assert(dv.take(0) =~= Seq::<Seq<char>>::empty());
    }
    while i < ws.len()
        invariant
            i <= ws@.len(),
            dv == ws.deep_view(),
            dv.len() == ws@.len(),
            r@ == join_ws(dv.take(i as int)),
        decreases ws@.len() - i,
    {
        let ghost pre = dv.take(i as int);
        if i > 0 {
            r.push(' ');
        }
        extend_chars(&mut r, &ws[i]);
        proof {
            assert(ws@[i as int].deep_view() =~= ws@[i as int]@);
            assert(dv[i as int] == ws@[i as int]@);
            lemma_join_push(pre, dv[i as int]);
            assert(dv.take(i + 1) =~= pre.push(dv[i as int]));
            if i == 0 {
                assert(r@ =~= join_ws(dv.take(i + 1)));
            } else {
                assert(r@ =~= join_ws(pre) + seq![' '] + dv[i as int]);
                assert(r@ =~= join_ws(dv.take(i + 1)));
            }
        }
        i = i + 1;
    }
    proof {
        assert(dv.take(dv.len() as int) =~= dv);
    }
    r
}

/// Does the single-word phrase `a` match at position `i`?
fn phrase1_at(ws: &Vec<Vec<char>>, i: usize, a: &str) -> (r: bool)
    requires
        i < ws@.len(),
    ensures
        r == phrase_at(ws.deep_view(), i as int, seq![a@]),
{
    let la = str_to_chars(a);
    let e = chars_eq(&ws[i], &la);
    proof {
        let dv = ws.deep_view();
        assert(dv[i as int] == ws@[i as int].deep_view());
        assert(ws@[i as int].deep_view() =~= ws@[i as int]@);
        if e {
            assert(dv.subrange(i as int, i + 1 as int) =~= seq![a@]);
        } else {
            if phrase_at(dv, i as int, seq![a@]) {
                assert(dv.subrange(i as int, i + 1 as int)[0] == dv[i as int]);
            }
        }
    }
    e
}

/// Does the two-word phrase `a b` match at position `i`?
fn phrase2_at(ws: &Vec<Vec<char>>, i: usize, a: &str, b: &str) -> (r: bool)
    requires
        i < ws@.len(),
    ensures
        r == phrase_at(ws.deep_view(), i as int, seq![a@, b@]),
{
    let ghost dv = ws.deep_view();
    let ghost p = seq![a@, b@];
    let n = ws.len();
    if i + 1 >= n {
        proof {
            assert(i + p.len() > dv.len());
        }
        return false;
    }
    let la = str_to_chars(a);
    let lb = str_to_chars(b);
    let ea = chars_eq(&ws[i], &la);
    let eb = chars_eq(&ws[i + 1], &lb);
    proof {
        assert(dv[i as int] == ws@[i as int].deep_view());
        assert(ws@[i as int].deep_view() =~= ws@[i as int]@);
        assert(dv[i + 1] == ws@[i + 1].deep_view());
        assert(ws@[i + 1].deep_view() =~= ws@[i + 1]@);
        if ea && eb {
            assert(dv.subrange(i as int, i + 2 as int) =~= p);
        } else {
            if phrase_at(dv, i as int, p) {
                assert(dv.subrange(i as int, i + 2 as int)[0] == dv[i as int]);
                assert(dv.subrange(i as int, i + 2 as int)[1] == dv[i + 1]);
            }
        }
    }
    ea && eb
}

/// Word length of the first filler phrase matching at position `i`, zero
/// when none does, mirroring the table order of `filler_table`.
fn match_len_at(ws: &Vec<Vec<char>>, i: usize) -> (r: usize)
    requires
        i < ws@.len(),
    ensures
        r as int == match_len(ws.deep_view(), i as int),
{
    let ghost dv = ws.deep_view();
    let ghost ii = i as int;
    if phrase1_at(ws, i, "um") {
        return 1;
    }
    proof {
        assert(phrase_match_from(dv, ii, 0) == phrase_match_from(dv, ii, 1));
    }
    if phrase1_at(ws, i, "uh") {
        return 1;
    }
    proof {
        assert(phrase_match_from(dv, ii, 1) == phrase_match_from(dv, ii, 2));
    }
    if phrase1_at(ws, i, "hmm") {
        return 1;
    }
    proof {
        assert(phrase_match_from(dv, ii, 2) == phrase_match_from(dv, ii, 3));
    }
    if phrase1_at(ws, i, "uhh") {
        return 1;
    }
    proof {
        assert(phrase_match_from(dv, ii, 3) == phrase_match_from(dv, ii, 4));
    }
    if phrase1_at(ws, i, "umm") {
        return 1;
    }
    proof {
        assert(phrase_match_from(dv, ii, 4) == phrase_match_from(dv, ii, 5));
    }
    if phrase1_at(ws, i, "like") {
        return 1;
    }
    proof {
        assert(phrase_match_from(dv, ii, 5) == phrase_match_from(dv, ii, 6));
    }
    if phrase2_at(ws, i, "you", "know") {
        return 2;
    }
    proof {
        assert(phrase_match_from(dv, ii, 6) == phrase_match_from(dv, ii, 7));
    }
    if phrase2_at(ws, i, "I", "mean") {
        return 2;
    }
    proof {
        assert(phrase_match_from(dv, ii, 7) == phrase_match_from(dv, ii, 8));
    }
    if phrase2_at(ws, i, "sort", "of") {
        return 2;
    }
    proof {
        assert(phrase_match_from(dv, ii, 8) == phrase_match_from(dv, ii, 9));
    }
    if phrase2_at(ws, i, "kind", "of") {
        return 2;
    }
    proof {
        assert(phrase_match_from(dv, ii, 9) == phrase_match_from(dv, ii, 10));
    }
    if phrase1_at(ws, i, "basically") {
        return 1;
    }
    proof {
        assert(phrase_match_from(dv, ii, 10) == phrase_match_from(dv, ii, 11));
    }
    if phrase1_at(ws, i, "actually") {
        return 1;
    }
    proof {
        assert(phrase_match_from(dv, ii, 11) == phrase_match_from(dv, ii, 12));
    }
    if phrase1_at(ws, i, "um,") {
        return 1;
    }
    proof {
        assert(phrase_match_from(dv, ii, 12) == phrase_match_from(dv, ii, 13));
    }
    if phrase1_at(ws, i, "uh,") {
        return 1;
    }
    proof {
        assert(phrase_match_from(dv, ii, 13) == phrase_match_from(dv, ii, 14));
    }
    if phrase1_at(ws, i, "hmm,") {
        return 1;
    }
    proof {
        assert(phrase_match_from(dv, ii, 14) == phrase_match_from(dv, ii, 15));
        assert(phrase_match_from(dv, ii, 15) == 0);
    }
    0
}

/// One executable sweep over the word list.
fn sweep_words(ws: &Vec<Vec<char>>) -> (r: Vec<Vec<char>>)
    ensures
        r.deep_view() == sweep(ws.deep_view()),
{
    let ghost dv = ws.deep_view();
    let n = ws.len();
    let mut out: Vec<Vec<char>> = Vec::new();
    let mut i: usize = 0;
    proof {
        assert(dv.skip(0) =~= dv);
        assert(out.deep_view() + sweep(dv.skip(0)) =~= sweep(dv));
    }
    while i < n
        invariant
            i <= n,
            n == ws@.len(),
            dv == ws.deep_view(),
            dv.len() == ws@.len(),
            sweep(dv) == out.deep_view() + sweep(dv.skip(i as int)),
        decreases n - i,
    {
        let ghost tail = dv.skip(i as int);
        let ml = match_len_at(ws, i);
        proof {
            lemma_match_shift_from(dv, i as int, 0);
            assert(match_len(tail, 0) == ml);
            lemma_match_len_bounds(tail, 0);
        }
        if ml > 0 {
            proof {
                assert(1 <= ml && ml <= tail.len());
                assert(sweep(tail) == sweep(tail.skip(ml as int)));
                assert(tail.skip(ml as int) =~= dv.skip(i + ml));
            }
            i = i + ml;
        } else {
            let w = vec_subrange(&ws[i], 0, ws[i].len());
            let ghost old_out = out.deep_view();
            out.push(w);
            proof {
                assert(tail[0] == dv[i as int]);
                assert(dv[i as int] == ws@[i as int].deep_view());
                assert(ws@[i as int].deep_view() =~= ws@[i as int]@);
                assert(w@ =~= ws@[i as int]@);
                assert(w.deep_view() =~= w@);
                assert(out.deep_view() =~= old_out.push(dv[i as int]));
                assert(sweep(tail) == seq![tail[0]] + sweep(tail.drop_first()));
                assert(tail.drop_first() =~= dv.skip(i + 1));
                assert(out.deep_view() + sweep(dv.skip(i + 1)) =~= old_out + sweep(tail));
            }
            i = i + 1;
        }
    }
    proof {
        assert(dv.skip(n as int) =~= Seq::<Seq<char>>::empty());
        assert(sweep(dv.skip(n as int)) =~= Seq::<Seq<char>>::empty());
        assert(out.deep_view() =~= sweep(dv));
    }
    out
}

/// Remove filler words and phrases from transcribed text.
///
/// The text is split into blank-separated words; filler phrases from the
/// fixed table are removed, as whole words only, until none remains; the
/// surviving words are joined with single blanks. Runs of whitespace
/// collapse and the ends are trimmed as a consequence.
pub fn clean_filler_words(text: &str) -> (r: String)
    ensures
        r@ == spec_clean_text(text@),
{
    let cs = str_to_chars(text);
    let mut ws = split_words(&cs);
    proof {
        assert(clean_words(split_ws(text@)) == clean_words(ws.deep_view()));
    }
    loop
        invariant
            clean_words(split_ws(text@)) == clean_words(ws.deep_view()),
        ensures
            clean_words(split_ws(text@)) == ws.deep_view(),
        decreases ws@.len(),
    {
        let ghost dv = ws.deep_view();
        let n = ws.len();
        let sw = sweep_words(&ws);
        if sw.len() == n {
            proof {
                lemma_sweep_len(dv);
                assert(sweep(dv).len() == dv.len());
                assert(sweep(dv) == dv);
                lemma_clean_iter_fixed(dv, dv.len());
                assert(clean_words(dv) == dv);
            }
            break;
        }
        proof {
            lemma_clean_of_sweep(dv);
            lemma_sweep_len(dv);
            assert(sw.deep_view().len() < ws.deep_view().len());
        }
        ws = sw;
    }
    let joined = join_words(&ws);
    chars_to_string(&joined)
}

} // verus!
