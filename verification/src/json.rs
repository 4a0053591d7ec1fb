use vstd::prelude::*;

use crate::chars::{
    chars_to_string, extend_chars, find_sub, find_sub_in, lemma_find_sub, replace_all,
    replace_all_chars, str_to_chars, sub_at, trim_start_chars, trim_start_spec, vec_subrange,
};
use crate::snippets::VoiceSnippet;

verus! {

// ─── Reading one string field out of a record object ──────────────────

/// The text that introduces the value of `key`: `"key":`.
pub open spec fn key_pattern(key: Seq<char>) -> Seq<char> {
    seq!['"'] + key + seq!['"', ':']
}

/// The variant with a blank before the colon: `"key" :`.
pub open spec fn key_pattern_alt(key: Seq<char>) -> Seq<char> {
    seq!['"'] + key + seq!['"', ' ', ':']
}

/// The raw characters of a quoted value: everything up to the first quote
/// not preceded by an escaping backslash; a backslash always carries the
/// following character along.
pub open spec fn raw_value(s: Seq<char>) -> Seq<char>
    decreases s.len(),
{
    if s.len() == 0 {
        Seq::empty()
    } else if s[0] == '\\' {
        if s.len() == 1 {
            seq!['\\']
        } else {
            seq!['\\', s[1]] + raw_value(s.skip(2))
        }
    } else if s[0] == '"' {
        Seq::empty()
    } else {
        seq![s[0]] + raw_value(s.drop_first())
    }
}

/// The escape sequences the record format knows: `\n` and `\"`.
pub open spec fn unescape(s: Seq<char>) -> Seq<char> {
    replace_all(replace_all(s, seq!['\\', 'n'], seq!['\n']), seq!['\\', '"'], seq!['"'])
}

/// The value of `key` in the object text `json`, if the key is present and
/// its value is a quoted string.
pub open spec fn spec_extract(json: Seq<char>, key: Seq<char>) -> Option<Seq<char>> {
    let pos_opt = if find_sub(json, key_pattern(key)) is Some {
        find_sub(json, key_pattern(key))
    } else {
        find_sub(json, key_pattern_alt(key))
    };
    if pos_opt is None {
        None
    } else {
        let after_key = json.skip(pos_opt->0);
        let ci_opt = find_sub(after_key, seq![':']);
        if ci_opt is None {
            None
        } else {
            let after_colon = trim_start_spec(after_key.skip(ci_opt->0 + 1));
            if after_colon.len() == 0 || after_colon[0] != '"' {
                None
            } else {
                Some(unescape(raw_value(after_colon.drop_first())))
            }
        }
    }
}

/// Collect the raw value characters at the head of `v`.
fn raw_value_exec(v: &Vec<char>) -> (r: Vec<char>)
    ensures
        r@ == raw_value(v@),
{
    let n = v.len();
    let mut out: Vec<char> = Vec::new();
    let mut i: usize = 0;
    proof {
        assert(v@.skip(0) =~= v@);
        assert(out@ + raw_value(v@.skip(0)) =~= raw_value(v@));
    }
    while i < n
        invariant
            n == v@.len(),
            i <= n,
            raw_value(v@) == out@ + raw_value(v@.skip(i as int)),
        decreases n - i,
    {
        let ghost tail = v@.skip(i as int);
        proof {
            assert(tail[0] == v@[i as int]);
            assert(tail.drop_first() =~= v@.skip(i + 1));
        }
        let c = v[i];
        if c == '\\' {
            if i + 1 < n {
                proof {
                    assert(tail.len() > 1);
                    assert(tail[1] == v@[i + 1]);
                    assert(tail.skip(2) =~= v@.skip(i + 2));
                }
                out.push('\\');
                out.push(v[i + 1]);
                proof {
                    assert(raw_value(v@) =~= out@ + raw_value(v@.skip(i + 2)));
                }
                i = i + 2;
            } else {
                proof {
                    assert(tail.len() == 1);
                }
                out.push('\\');
                proof {
                    assert(v@.skip(i + 1) =~= Seq::<char>::empty());
                    assert(raw_value(v@) =~= out@ + raw_value(v@.skip(i + 1)));
                }
                i = i + 1;
            }
        } else if c == '"' {
            proof {
                assert(raw_value(tail) =~= Seq::<char>::empty());
                assert(out@ =~= raw_value(v@));
            }
            return out;
        } else {
            out.push(c);
            proof {
                assert(raw_value(v@) =~= out@ + raw_value(v@.skip(i + 1)));
            }
            i = i + 1;
        }
    }
    proof {
        assert(v@.skip(n as int) =~= Seq::<char>::empty());
        assert(out@ =~= raw_value(v@));
    }
    out
}

/// Extract the value of `key` from the object text, character-level core.
pub(crate) fn extract_chars(json: &Vec<char>, key: &Vec<char>) -> (r: Option<Vec<char>>)
    ensures
        r is Some <==> spec_extract(json@, key@) is Some,
        r matches Some(v) ==> spec_extract(json@, key@) == Some(v@),
{
    let mut pat: Vec<char> = Vec::new();
    pat.push('"');
    extend_chars(&mut pat, key);
    pat.push('"');
    pat.push(':');
    proof {
        assert(pat@ =~= key_pattern(key@));
    }
    let mut pat_alt: Vec<char> = Vec::new();
    pat_alt.push('"');
    extend_chars(&mut pat_alt, key);
    pat_alt.push('"');
    pat_alt.push(' ');
    pat_alt.push(':');
    proof {
        assert(pat_alt@ =~= key_pattern_alt(key@));
    }
    let pos_found = match find_sub_in(json, &pat) {
        Some(p) => Some(p),
        None => find_sub_in(json, &pat_alt),
    };
    let p = match pos_found {
        Some(p) => p,
        None => {
            return None;
        },
    };
    proof {
        let ghost pos_opt = if find_sub(json@, key_pattern(key@)) is Some {
            find_sub(json@, key_pattern(key@))
        } else {
            find_sub(json@, key_pattern_alt(key@))
        };
        assert(pos_opt == Some(p as int));
        lemma_find_sub(json@, key_pattern(key@));
        lemma_find_sub(json@, key_pattern_alt(key@));
        assert(p <= json@.len());
    }
    let after_key = vec_subrange(json, p, json.len());
    proof {
        assert(after_key@ =~= json@.skip(p as int));
    }
    let mut colon_pat: Vec<char> = Vec::new();
    colon_pat.push(':');
    proof {
        assert(colon_pat@ =~= seq![':']);
    }
    let ci = match find_sub_in(&after_key, &colon_pat) {
        Some(ci) => ci,
        None => {
            return None;
        },
    };
    proof {
        lemma_find_sub(after_key@, seq![':']);
        assert(sub_at(after_key@, seq![':'], ci as int));
        assert(ci + 1 <= after_key@.len());
    }
    let after_colon_raw = vec_subrange(&after_key, ci + 1, after_key.len());
    proof {
        assert(after_colon_raw@ =~= after_key@.skip(ci + 1));
    }
    let after_colon = trim_start_chars(&after_colon_raw);
    if after_colon.len() == 0 {
        return None;
    }
    if after_colon[0] != '"' {
        return None;
    }
    let val_part = vec_subrange(&after_colon, 1, after_colon.len());
    proof {
        assert(val_part@ =~= after_colon@.drop_first());
    }
    let raw = raw_value_exec(&val_part);
    let mut pat_bn: Vec<char> = Vec::new();
    pat_bn.push('\\');
    pat_bn.push('n');
    let mut rep_nl: Vec<char> = Vec::new();
    rep_nl.push('\n');
    let mut pat_bq: Vec<char> = Vec::new();
    pat_bq.push('\\');
    pat_bq.push('"');
    let mut rep_q: Vec<char> = Vec::new();
    rep_q.push('"');
    proof {
        assert(pat_bn@ =~= seq!['\\', 'n']);
        assert(rep_nl@ =~= seq!['\n']);
        assert(pat_bq@ =~= seq!['\\', '"']);
        assert(rep_q@ =~= seq!['"']);
    }
    let step1 = replace_all_chars(&raw, &pat_bn, &rep_nl);
    let out = replace_all_chars(&step1, &pat_bq, &rep_q);
    proof {
        assert(out@ == unescape(raw_value(after_colon@.drop_first())));
    }
    Some(out)
}

/// Extract a string value from a record object by key.
///
/// The key is found as `"key":` (or `"key" :`); the value must be a quoted
/// string; `\n` and `\"` in it are unescaped.
pub fn extract_json_string(json: &str, key: &str) -> (r: Option<String>)
    ensures
        r is Some <==> spec_extract(json@, key@) is Some,
        r matches Some(v) ==> spec_extract(json@, key@) == Some(v@),
{
    let jc = str_to_chars(json);
    let kc = str_to_chars(key);
    match extract_chars(&jc, &kc) {
        Some(v) => Some(chars_to_string(&v)),
        None => None,
    }
}

// ─── Reading the snippet record ───────────────────────────────────────

/// The position of the last occurrence of `c` in `s`.
pub open spec fn rfind_char(s: Seq<char>, c: char) -> Option<int>
    decreases s.len(),
{
    if s.len() == 0 {
        None
    } else if s.last() == c {
        Some(s.len() - 1)
    } else {
        rfind_char(s.drop_last(), c)
    }
}

/// The brace-balanced object texts inside an array text, scanned from
/// position `i` with the current nesting `depth` and the position `start`
/// of the object currently open at nesting level one.
pub open spec fn scan_objects(s: Seq<char>, i: int, depth: int, start: Option<int>) -> Seq<
    Seq<char>,
>
    decreases s.len() - i,
{
    if !(0 <= i < s.len()) {
        Seq::empty()
    } else if s[i] == '{' {
        let st = if depth == 0 {
            Some(i)
        } else {
            start
        };
        scan_objects(s, i + 1, depth + 1, st)
    } else if s[i] == '}' {
        if depth == 1 && start is Some {
            seq![s.subrange(start->0, i + 1)] + scan_objects(s, i + 1, 0, start)
        } else {
            scan_objects(s, i + 1, depth - 1, start)
        }
    } else {
        scan_objects(s, i + 1, depth, start)
    }
}

/// The (trigger, content) pairs read from the object texts; objects where
/// either field is missing are skipped.
pub open spec fn pairs_of(objs: Seq<Seq<char>>) -> Seq<(Seq<char>, Seq<char>)>
    decreases objs.len(),
{
    if objs.len() == 0 {
        Seq::empty()
    } else {
        let rest = pairs_of(objs.drop_first());
        let t = spec_extract(objs[0], "trigger"@);
        let c = spec_extract(objs[0], "content"@);
        if t is Some && c is Some {
            seq![(t->0, c->0)] + rest
        } else {
            rest
        }
    }
}

/// The snippet pairs of a serialized record: the array between the first
/// `[` and the last `]`, its objects, their fields.
pub open spec fn spec_parse_snippets(content: Seq<char>) -> Seq<(Seq<char>, Seq<char>)> {
    let a = find_sub(content, seq!['[']);
    let b = rfind_char(content, ']');
    if a is Some && b is Some && a->0 + 1 <= b->0 {
        pairs_of(scan_objects(content.subrange(a->0 + 1, b->0), 0, 0, None))
    } else {
        Seq::empty()
    }
}

/// Find the last occurrence of `c` in `v`.
fn rfind_char_exec(v: &Vec<char>, c: char) -> (r: Option<usize>)
    ensures
        match r {
            Some(i) => rfind_char(v@, c) == Some(i as int) && i < v@.len(),
            None => rfind_char(v@, c) is None,
        },
{
    let mut j: usize = v.len();
    proof {
        assert(v@.take(v@.len() as int) =~= v@);
    }
    while j > 0
        invariant
            j <= v@.len(),
            rfind_char(v@, c) == rfind_char(v@.take(j as int), c),
        decreases j,
    {
        let ghost pre = v@.take(j as int);
        proof {
            assert(pre.last() == v@[j - 1]);
            assert(pre.drop_last() =~= v@.take(j - 1));
        }
        if v[j - 1] == c {
            return Some(j - 1);
        }
        j = j - 1;
    }
    proof {
        assert(v@.take(0) =~= Seq::<char>::empty());
    }
    None
}

/// Parse a serialized snippet record into its snippets, in record order.
///
/// A text without a well-formed array yields an empty list; objects with a
/// missing field are skipped.
pub fn parse_snippets(content: &str) -> (r: Vec<VoiceSnippet>)
    ensures
        r.deep_view() == spec_parse_snippets(content@),
{
    let cc = str_to_chars(content);
    let mut bracket: Vec<char> = Vec::new();
    bracket.push('[');
    proof {
        assert(bracket@ =~= seq!['[']);
    }
    let a = match find_sub_in(&cc, &bracket) {
        Some(a) => a,
        None => {
            let r: Vec<VoiceSnippet> = Vec::new();
            proof {
                assert(r.deep_view() =~= spec_parse_snippets(content@));
            }
            return r;
        },
    };
    let b = match rfind_char_exec(&cc, ']') {
        Some(b) => b,
        None => {
            let r: Vec<VoiceSnippet> = Vec::new();
            proof {
                assert(r.deep_view() =~= spec_parse_snippets(content@));
            }
            return r;
        },
    };
    let cn = cc.len();
    proof {
        lemma_find_sub(cc@, seq!['[']);
        assert(sub_at(cc@, seq!['['], a as int));
        assert(a + 1 <= cn);
    }
    if a + 1 > b {
        let r: Vec<VoiceSnippet> = Vec::new();
        proof {
            assert(r.deep_view() =~= spec_parse_snippets(content@));
        }
        return r;
    }
    let arr = vec_subrange(&cc, a + 1, b);
    let objs = collect_objects(&arr);
    let pairs = objs_to_snippets(&objs);
    proof {
        assert(pairs.deep_view() == spec_parse_snippets(content@));
    }
    pairs
}

/// Scan an array text for its brace-balanced objects.
fn collect_objects(arr: &Vec<char>) -> (r: Vec<Vec<char>>)
    ensures
        r.deep_view() == scan_objects(arr@, 0, 0, None),
{
    let n = arr.len();
    let mut objs: Vec<Vec<char>> = Vec::new();
    let mut depth: i128 = 0;
    let mut start: Option<usize> = None;
    let ghost mut gs: Option<int> = None;
    let mut i: usize = 0;
    proof {
        assert(objs.deep_view() =~= Seq::<Seq<char>>::empty());
        assert(objs.deep_view() + scan_objects(arr@, 0, 0, None) =~= scan_objects(
            arr@,
            0,
            0,
            None,
        ));
    }
    while i < n
        invariant
            n == arr@.len(),
            i <= n,
            -(i as int) <= depth <= i as int,
            match start {
                Some(u) => gs == Some(u as int) && u < i,
                None => gs is None,
            },
            scan_objects(arr@, 0, 0, None) == objs.deep_view() + scan_objects(
                arr@,
                i as int,
                depth as int,
                gs,
            ),
        decreases n - i,
    {
        let c = arr[i];
        if c == '{' {
            if depth == 0 {
                start = Some(i);
                proof {
                    gs = Some(i as int);
                }
            }
            depth = depth + 1;
        } else if c == '}' {
            let is_obj_end = depth == 1 && start.is_some();
            if is_obj_end {
                let st = match start {
                    Some(st) => st,
                    None => 0,
                };
                let obj = vec_subrange(arr, st, i + 1);
                let ghost old_objs = objs.deep_view();
                proof {
                    assert(obj.deep_view() =~= obj@);
                }
                objs.push(obj);
                proof {
                    assert(objs.deep_view() =~= old_objs.push(arr@.subrange(gs->0, i + 1)));
                    assert(scan_objects(arr@, i as int, 1, gs) == seq![
                        arr@.subrange(gs->0, i + 1),
                    ] + scan_objects(arr@, i + 1, 0, gs));
                    assert(old_objs + scan_objects(arr@, i as int, 1, gs) =~= objs.deep_view()
                        + scan_objects(arr@, i + 1, 0, gs));
                }
                depth = 0;
            } else {
                depth = depth - 1;
            }
        } else {
        }
        i = i + 1;
    }
    proof {
        assert(scan_objects(arr@, n as int, depth as int, gs) =~= Seq::<Seq<char>>::empty());
        assert(objs.deep_view() =~= scan_objects(arr@, 0, 0, None));
    }
    objs
}

/// Read the fields of each object and keep the complete ones.
fn objs_to_snippets(objs: &Vec<Vec<char>>) -> (r: Vec<VoiceSnippet>)
    ensures
        r.deep_view() == pairs_of(objs.deep_view()),
{
    let ghost dv = objs.deep_view();
    let tkey = str_to_chars("trigger");
    let ckey = str_to_chars("content");
    let n = objs.len();
    let mut out: Vec<VoiceSnippet> = Vec::new();
    let mut i: usize = 0;
    proof {
        assert(dv.skip(0) =~= dv);
        assert(out.deep_view() + pairs_of(dv.skip(0)) =~= pairs_of(dv));
    }
    while i < n
        invariant
            n == objs@.len(),
            i <= n,
            dv == objs.deep_view(),
            dv.len() == objs@.len(),
            tkey@ == "trigger"@,
            ckey@ == "content"@,
            pairs_of(dv) == out.deep_view() + pairs_of(dv.skip(i as int)),
        decreases n - i,
    {
        let ghost tail = dv.skip(i as int);
        proof {
            assert(tail[0] == dv[i as int]);
            assert(tail.drop_first() =~= dv.skip(i + 1));
            assert(objs@[i as int].deep_view() =~= objs@[i as int]@);
            assert(dv[i as int] == objs@[i as int]@);
        }
        let t = extract_chars(&objs[i], &tkey);
        let c = extract_chars(&objs[i], &ckey);
        match (t, c) {
            (Some(tv), Some(cv)) => {
                let ghost old_out = out.deep_view();
                let snip = VoiceSnippet {
                    trigger: chars_to_string(&tv),
                    content: chars_to_string(&cv),
                };
                out.push(snip);
                proof {
                    assert(out.deep_view() =~= old_out.push((tv@, cv@)));
                    assert(out.deep_view() + pairs_of(dv.skip(i + 1)) =~= old_out + pairs_of(
                        tail,
                    ));
                }
            },
            _ => {
                proof {
                    assert(pairs_of(tail) == pairs_of(dv.skip(i + 1)));
                }
            },
        }
        i = i + 1;
    }
    proof {
        assert(dv.skip(n as int) =~= Seq::<Seq<char>>::empty());
        assert(out.deep_view() =~= pairs_of(dv));
    }
    out
}

} // verus!
