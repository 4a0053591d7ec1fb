use vstd::prelude::*;

verus! {

/// Characters the pipeline treats as blank when splitting words,
/// trimming, and collapsing runs of whitespace.
pub open spec fn is_space_char(c: char) -> bool {
    c == ' ' || c == '\t' || c == '\n' || c == '\r'
}

/// Runtime test for `is_space_char`.
pub fn is_space(c: char) -> (r: bool)
    ensures
        r == is_space_char(c),
{
    c == ' ' || c == '\t' || c == '\n' || c == '\r'
}

/// Collect the characters of a string slice into a vector.
pub fn str_to_chars(s: &str) -> (r: Vec<char>)
    ensures
        r@ == s@,
{
    let n = s.unicode_len();
    let mut r: Vec<char> = Vec::new();
    let mut i: usize = 0;
    while i < n
        invariant
            n == s@.len(),
            i <= n,
            r@ == s@.subrange(0, i as int),
        decreases n - i,
    {
        r.push(s.get_char(i));
        i = i + 1;
        proof {
            assert(r@ =~= s@.subrange(0, i as int));
        }
    }
    proof {
        assert(r@ =~= s@);
    }
    r
}

/// Relies on `String::push`: appends exactly the given character to the end
/// of the string.
#[verifier::external_body]
pub(crate) fn push_char(s: &mut String, c: char)
    ensures
        final(s)@ == old(s)@.push(c),
{
    s.push(c);
}

/// Build a string from a vector of characters.
pub fn chars_to_string(v: &Vec<char>) -> (r: String)
    ensures
        r@ == v@,
{
    let mut r = String::new();
    let mut i: usize = 0;
    while i < v.len()
        invariant
            i <= v@.len(),
            r@ == v@.subrange(0, i as int),
        decreases v@.len() - i,
    {
        push_char(&mut r, v[i]);
        i = i + 1;
        proof {
            assert(r@ =~= v@.subrange(0, i as int));
        }
    }
    proof {
        assert(r@ =~= v@);
    }
    r
}

/// Append every character of `src` to `dst`.
pub fn extend_chars(dst: &mut Vec<char>, src: &Vec<char>)
    ensures
        final(dst)@ == old(dst)@ + src@,
{
    let mut i: usize = 0;
    while i < src.len()
        invariant
            i <= src@.len(),
            dst@ == old(dst)@ + src@.subrange(0, i as int),
        decreases src@.len() - i,
    {
        dst.push(src[i]);
        i = i + 1;
        proof {
            assert(dst@ =~= old(dst)@ + src@.subrange(0, i as int));
        }
    }
    proof {
        assert(dst@ =~= old(dst)@ + src@);
    }
}

/// Copy the characters of `v` between `from` and `to`.
pub fn vec_subrange(v: &Vec<char>, from: usize, to: usize) -> (r: Vec<char>)
    requires
        from <= to <= v@.len(),
    ensures
        r@ == v@.subrange(from as int, to as int),
{
    let mut r: Vec<char> = Vec::new();
    let mut i: usize = from;
    while i < to
        invariant
            from <= i <= to <= v@.len(),
            r@ == v@.subrange(from as int, i as int),
        decreases to - i,
    {
        r.push(v[i]);
        i = i + 1;
        proof {
            assert(r@ =~= v@.subrange(from as int, i as int));
        }
    }
    r
}

/// Character-wise equality of two vectors.
pub fn chars_eq(a: &Vec<char>, b: &Vec<char>) -> (r: bool)
    ensures
        r == (a@ == b@),
{
    if a.len() != b.len() {
        return false;
    }
    let mut i: usize = 0;
    while i < a.len()
        invariant
            a@.len() == b@.len(),
            i <= a@.len(),
            forall|j: int| 0 <= j < i ==> a@[j] == b@[j],
        decreases a@.len() - i,
    {
        if a[i] != b[i] {
            return false;
        }
        i = i + 1;
    }
    proof {
        assert(a@ =~= b@);
    }
    true
}

/// `pat` occurs in `s` starting at position `i`.
pub open spec fn sub_at(s: Seq<char>, pat: Seq<char>, i: int) -> bool {
    &&& 0 <= i
    &&& i + pat.len() <= s.len()
    &&& s.subrange(i, i + pat.len() as int) == pat
}

/// Position of the leftmost occurrence of `pat` in `s`, if any.
pub open spec fn find_sub(s: Seq<char>, pat: Seq<char>) -> Option<int>
    decreases s.len(),
{
    if pat.len() > s.len() {
        None
    } else if pat.len() == 0 {
        Some(0)
    } else if s.subrange(0, pat.len() as int) == pat {
        Some(0)
    } else {
        match find_sub(s.drop_first(), pat) {
            Some(i) => Some(i + 1),
            None => None,
        }
    }
}

/// Occurrences in the tail of a sequence are occurrences one step later in
/// the whole.
proof fn lemma_sub_at_shift(s: Seq<char>, pat: Seq<char>, i: int)
    requires
        s.len() > 0,
        i >= 0,
    ensures
        sub_at(s.drop_first(), pat, i) <==> sub_at(s, pat, i + 1),
{
    if 0 <= i && i + pat.len() <= s.drop_first().len() {
        assert(s.drop_first().subrange(i, i + pat.len() as int) =~= s.subrange(
            i + 1,
            i + 1 + pat.len() as int,
        ));
    }
}

/// `find_sub` returns the leftmost occurrence, or `None` when there is none.
pub proof fn lemma_find_sub(s: Seq<char>, pat: Seq<char>)
    ensures
        match find_sub(s, pat) {
            Some(i) => sub_at(s, pat, i) && (forall|j: int| 0 <= j < i ==> !sub_at(s, pat, j)),
            None => forall|i: int| !sub_at(s, pat, i),
        },
    decreases s.len(),
{
    if pat.len() > s.len() {
    } else if pat.len() == 0 {
        assert(s.subrange(0, 0) =~= pat);
    } else if s.subrange(0, pat.len() as int) == pat {
    } else {
        lemma_find_sub(s.drop_first(), pat);
        match find_sub(s.drop_first(), pat) {
            Some(i) => {
                assert(sub_at(s.drop_first(), pat, i));
                assert(sub_at(s, pat, i + 1)) by {
                    lemma_sub_at_shift(s, pat, i);
                }
                assert forall|j: int| 0 <= j < i + 1 implies !sub_at(s, pat, j) by {
                    if j == 0 {
                    } else {
                        assert(!sub_at(s.drop_first(), pat, j - 1));
                        lemma_sub_at_shift(s, pat, j - 1);
                    }
                }
            },
            None => {
                assert forall|i: int| !sub_at(s, pat, i) by {
                    if i > 0 {
                        assert(!sub_at(s.drop_first(), pat, i - 1));
                        lemma_sub_at_shift(s, pat, i - 1);
                    }
                }
            },
        }
    }
}

/// The leftmost occurrence determines the result of `find_sub`.
pub proof fn lemma_find_sub_at(s: Seq<char>, pat: Seq<char>, i: int)
    requires
        sub_at(s, pat, i),
        forall|j: int| 0 <= j < i ==> !sub_at(s, pat, j),
    ensures
        find_sub(s, pat) == Some(i),
{
    lemma_find_sub(s, pat);
    match find_sub(s, pat) {
        Some(k) => {
            assert(sub_at(s, pat, k));
            if k < i {
                assert(!sub_at(s, pat, k));
            }
            if k > i {
                assert(!sub_at(s, pat, i));
            }
        },
        None => {
            assert(!sub_at(s, pat, i));
        },
    }
}

/// Check whether `pat` occurs at position `i` of `s`.
fn matches_at(s: &Vec<char>, pat: &Vec<char>, i: usize) -> (r: bool)
    requires
        i + pat@.len() <= s@.len(),
    ensures
        r == sub_at(s@, pat@, i as int),
{
    let sn = s.len();
    let pn = pat.len();
    let mut j: usize = 0;
    while j < pn
        invariant
            sn == s@.len(),
            pn == pat@.len(),
            i + pn <= sn,
            j <= pn,
            forall|k: int| 0 <= k < j ==> s@[i + k] == pat@[k],
        decreases pn - j,
    {
        if s[i + j] != pat[j] {
            assert(s@.subrange(i as int, i + pat@.len() as int)[j as int] == s@[i + j]);
            return false;
        }
        j = j + 1;
    }
    proof {
        assert(s@.subrange(i as int, i + pat@.len() as int) =~= pat@);
    }
    true
}

/// Find the leftmost occurrence of `pat` in `s`.
pub fn find_sub_in(s: &Vec<char>, pat: &Vec<char>) -> (r: Option<usize>)
    ensures
        match r {
            Some(i) => find_sub(s@, pat@) == Some(i as int),
            None => find_sub(s@, pat@) is None,
        },
{
    proof {
        lemma_find_sub(s@, pat@);
    }
    if pat.len() > s.len() {
        return None;
    }
    if pat.len() == 0 {
        proof {
            assert(s@.subrange(0, 0) =~= pat@);
        }
        return Some(0);
    }
    let sn = s.len();
    let last = sn - pat.len();
    let mut i: usize = 0;
    while i <= last
        invariant
            0 < pat@.len() <= s@.len(),
            sn == s@.len(),
            last == s@.len() - pat@.len(),
            i <= last + 1,
            forall|j: int| 0 <= j < i ==> !sub_at(s@, pat@, j),
        decreases last + 1 - i,
    {
        if matches_at(s, pat, i) {
            proof {
                lemma_find_sub_at(s@, pat@, i as int);
            }
            return Some(i);
        }
        i = i + 1;
    }
    proof {
        match find_sub(s@, pat@) {
            Some(k) => {
                lemma_find_sub(s@, pat@);
                assert(sub_at(s@, pat@, k));
                assert(k <= last);
                assert(!sub_at(s@, pat@, k));
            },
            None => {},
        }
    }
    None
}

/// Whether `s` contains `pat` anywhere.
pub fn contains_sub(s: &Vec<char>, pat: &Vec<char>) -> (r: bool)
    ensures
        r == (find_sub(s@, pat@) is Some),
{
    match find_sub_in(s, pat) {
        Some(_) => true,
        None => false,
    }
}

/// `pat` is a suffix of `s`.
pub open spec fn is_suffix(s: Seq<char>, pat: Seq<char>) -> bool {
    &&& pat.len() <= s.len()
    &&& s.subrange(s.len() - pat.len(), s.len() as int) == pat
}

/// Check whether `pat` is a suffix of `s`.
pub fn ends_with_chars(s: &Vec<char>, pat: &Vec<char>) -> (r: bool)
    ensures
        r == is_suffix(s@, pat@),
{
    if pat.len() > s.len() {
        return false;
    }
    let start = s.len() - pat.len();
    let tail = vec_subrange(s, start, s.len());
    chars_eq(&tail, pat)
}

/// `s` with leading blank characters removed.
pub open spec fn trim_start_spec(s: Seq<char>) -> Seq<char>
    decreases s.len(),
{
    if s.len() > 0 && is_space_char(s[0]) {
        trim_start_spec(s.drop_first())
    } else {
        s
    }
}

/// `s` with trailing blank characters removed.
pub open spec fn trim_end_spec(s: Seq<char>) -> Seq<char>
    decreases s.len(),
{
    if s.len() > 0 && is_space_char(s[s.len() - 1]) {
        trim_end_spec(s.drop_last())
    } else {
        s
    }
}

/// `s` with leading and trailing blank characters removed.
pub open spec fn trim_spec(s: Seq<char>) -> Seq<char> {
    trim_end_spec(trim_start_spec(s))
}

proof fn lemma_trim_start_skip(s: Seq<char>, a: int)
    requires
        0 <= a <= s.len(),
        forall|j: int| 0 <= j < a ==> is_space_char(s[j]),
        a < s.len() ==> !is_space_char(s[a]),
    ensures
        trim_start_spec(s) == s.skip(a),
    decreases a,
{
    if a == 0 {
        assert(s.skip(0) =~= s);
    } else {
        assert(is_space_char(s[0]));
        let t = s.drop_first();
        assert forall|j: int| 0 <= j < a - 1 implies is_space_char(t[j]) by {
            assert(t[j] == s[j + 1]);
        }
        lemma_trim_start_skip(t, a - 1);
        assert(t.skip(a - 1) =~= s.skip(a));
    }
}

proof fn lemma_trim_end_take(s: Seq<char>, b: int)
    requires
        0 <= b <= s.len(),
        forall|j: int| b <= j < s.len() ==> is_space_char(s[j]),
        b > 0 ==> !is_space_char(s[b - 1]),
    ensures
        trim_end_spec(s) == s.take(b),
    decreases s.len() - b,
{
    if b == s.len() {
        assert(s.take(b) =~= s);
    } else {
        assert(is_space_char(s[s.len() - 1]));
        let t = s.drop_last();
        lemma_trim_end_take(t, b);
        assert(t.take(b) =~= s.take(b));
    }
}

/// Remove leading blank characters.
pub fn trim_start_chars(v: &Vec<char>) -> (r: Vec<char>)
    ensures
        r@ == trim_start_spec(v@),
{
    let mut a: usize = 0;
    while a < v.len() && is_space(v[a])
        invariant
            a <= v@.len(),
            forall|j: int| 0 <= j < a ==> is_space_char(v@[j]),
        decreases v@.len() - a,
    {
        a = a + 1;
    }
    proof {
        lemma_trim_start_skip(v@, a as int);
    }
    vec_subrange(v, a, v.len())
}

/// Remove leading and trailing blank characters.
pub fn trim_chars(v: &Vec<char>) -> (r: Vec<char>)
    ensures
        r@ == trim_spec(v@),
{
    let mut a: usize = 0;
    while a < v.len() && is_space(v[a])
        invariant
            a <= v@.len(),
            forall|j: int| 0 <= j < a ==> is_space_char(v@[j]),
        decreases v@.len() - a,
    {
        a = a + 1;
    }
    proof {
        lemma_trim_start_skip(v@, a as int);
    }
    let mut b: usize = v.len();
    while b > a && is_space(v[b - 1])
        invariant
            a <= b <= v@.len(),
            forall|j: int| b <= j < v@.len() ==> is_space_char(v@[j]),
        decreases b,
    {
        b = b - 1;
    }
    let r = vec_subrange(v, a, b);
    proof {
        let t = v@.skip(a as int);
        if b == a {
            if a < v@.len() {
                assert(!is_space_char(v@[a as int]));
                assert(false);
            }
            assert(t =~= Seq::<char>::empty());
            lemma_trim_end_take(t, 0);
        } else {
            assert forall|j: int| (b - a) <= j < t.len() implies is_space_char(t[j]) by {
                assert(t[j] == v@[j + a]);
            }
            assert(t[b - a - 1] == v@[b - 1]);
            lemma_trim_end_take(t, b - a);
        }
        assert(r@ =~= t.take(b - a));
    }
    r
}

/// `s` with every occurrence of `pat` replaced by `rep`, scanning left to
/// right and continuing after each replacement.
pub open spec fn replace_all(s: Seq<char>, pat: Seq<char>, rep: Seq<char>) -> Seq<char>
    decreases s.len(),
{
    if pat.len() == 0 || pat.len() > s.len() {
        s
    } else if s.subrange(0, pat.len() as int) == pat {
        rep + replace_all(s.skip(pat.len() as int), pat, rep)
    } else {
        seq![s[0]] + replace_all(s.drop_first(), pat, rep)
    }
}

/// When `pat` does not occur in `s`, replacement leaves `s` unchanged.
proof fn lemma_replace_all_none(s: Seq<char>, pat: Seq<char>, rep: Seq<char>)
    requires
        forall|i: int| !sub_at(s, pat, i),
    ensures
        replace_all(s, pat, rep) == s,
    decreases s.len(),
{
    if pat.len() == 0 || pat.len() > s.len() {
    } else if s.subrange(0, pat.len() as int) == pat {
        assert(sub_at(s, pat, 0));
    } else {
        assert forall|i: int| !sub_at(s.drop_first(), pat, i) by {
            if i >= 0 {
                lemma_sub_at_shift(s, pat, i);
            }
        }
        lemma_replace_all_none(s.drop_first(), pat, rep);
        assert(seq![s[0]] + s.drop_first() =~= s);
    }
}

/// Replacement splits at the leftmost occurrence of `pat`.
proof fn lemma_replace_all_split(s: Seq<char>, pat: Seq<char>, rep: Seq<char>, i: int)
    requires
        pat.len() > 0,
        sub_at(s, pat, i),
        forall|j: int| 0 <= j < i ==> !sub_at(s, pat, j),
    ensures
        replace_all(s, pat, rep) == s.take(i) + rep + replace_all(
            s.skip(i + pat.len() as int),
            pat,
            rep,
        ),
    decreases i,
{
    if i == 0 {
        assert(s.subrange(0, pat.len() as int) == pat);
        assert(s.take(0) + rep + replace_all(s.skip(pat.len() as int), pat, rep) =~= rep
            + replace_all(s.skip(pat.len() as int), pat, rep));
    } else {
        assert(!sub_at(s, pat, 0));
        assert(s.subrange(0, pat.len() as int) != pat);
        let t = s.drop_first();
        assert(sub_at(t, pat, i - 1)) by {
            lemma_sub_at_shift(s, pat, i - 1);
        }
        assert forall|j: int| 0 <= j < i - 1 implies !sub_at(t, pat, j) by {
            lemma_sub_at_shift(s, pat, j);
        }
        lemma_replace_all_split(t, pat, rep, i - 1);
        assert(t.skip(i - 1 + pat.len() as int) =~= s.skip(i + pat.len() as int));
        assert(seq![s[0]] + (t.take(i - 1) + rep + replace_all(
            s.skip(i + pat.len() as int),
            pat,
            rep,
        )) =~= s.take(i) + rep + replace_all(s.skip(i + pat.len() as int), pat, rep));
        assert(seq![s[0]] + (t.take(i - 1) + rep + replace_all(
            s.skip(i + pat.len() as int),
            pat,
            rep,
        )) =~= seq![s[0]] + replace_all(t, pat, rep));
    }
}

/// Replace every occurrence of `pat` in `s` by `rep`.
pub fn replace_all_chars(s: &Vec<char>, pat: &Vec<char>, rep: &Vec<char>) -> (r: Vec<char>)
    ensures
        r@ == replace_all(s@, pat@, rep@),
{
    if pat.len() == 0 {
        let mut out: Vec<char> = Vec::new();
        extend_chars(&mut out, s);
        proof {
            assert(out@ =~= s@);
        }
        return out;
    }
    let mut out: Vec<char> = Vec::new();
    let mut rest: Vec<char> = Vec::new();
    extend_chars(&mut rest, s);
    proof {
        assert(rest@ =~= s@);
        assert(out@ + replace_all(rest@, pat@, rep@) =~= replace_all(s@, pat@, rep@));
    }
    loop
        invariant
            pat@.len() > 0,
            replace_all(s@, pat@, rep@) == out@ + replace_all(rest@, pat@, rep@),
        decreases rest@.len(),
    {
        proof {
            lemma_find_sub(rest@, pat@);
        }
        match find_sub_in(&rest, pat) {
            Some(i) => {
                let ghost old_out = out@;
                let ghost old_rest = rest@;
                let rn = rest.len();
                proof {
                    assert(sub_at(rest@, pat@, i as int));
                }
                let prefix = vec_subrange(&rest, 0, i);
                extend_chars(&mut out, &prefix);
                extend_chars(&mut out, rep);
                let next = vec_subrange(&rest, i + pat.len(), rn);
                rest = next;
                proof {
                    lemma_replace_all_split(old_rest, pat@, rep@, i as int);
                    assert(old_rest.take(i as int) =~= prefix@);
                    assert(old_rest.skip(i + pat@.len() as int) =~= rest@);
                    assert(out@ + replace_all(rest@, pat@, rep@) =~= old_out + replace_all(
                        old_rest,
                        pat@,
                        rep@,
                    ));
                }
            },
            None => {
                let ghost old_out = out@;
                extend_chars(&mut out, &rest);
                proof {
                    lemma_replace_all_none(rest@, pat@, rep@);
                    assert(out@ =~= old_out + replace_all(rest@, pat@, rep@));
                }
                return out;
            },
        }
    }
}

/// Lowercase image of a character sequence, as `str::to_lowercase` computes
/// it; the image is a function of the characters alone.
pub uninterp spec fn lower_of(s: Seq<char>) -> Seq<char>;

/// Relies on `str::to_lowercase`: the result depends only on the characters
/// of the input.
#[verifier::external_body]
pub(crate) fn lowercase(s: &str) -> (r: String)
    ensures
        r@ == lower_of(s@),
{
    s.to_lowercase()
}

} // verus!
