use vstd::prelude::*;
use vstd::string::{StrSliceExecFns, StringExecFns};

use crate::chars::{
    chars_eq, ends_with_chars, is_suffix, lower_of, lowercase, push_char, str_to_chars, trim_chars,
    trim_spec, chars_to_string,
};
use crate::errors::VoiceError;

verus! {

/// A stored phrase expansion: saying the trigger inserts the content.
#[derive(Clone, Debug)]
pub struct VoiceSnippet {
    pub trigger: String,
    pub content: String,
}

impl DeepView for VoiceSnippet {
    type V = (Seq<char>, Seq<char>);

    open spec fn deep_view(&self) -> (Seq<char>, Seq<char>) {
        (self.trigger@, self.content@)
    }
}

/// The normal form used for matching: trimmed, then lowercased.
pub open spec fn norm_of(text: Seq<char>) -> Seq<char> {
    lower_of(trim_spec(text))
}

/// The normalized text matches a trigger when it equals its lowercase form
/// or ends with it.
pub open spec fn snippet_matches(norm: Seq<char>, trigger: Seq<char>) -> bool {
    norm == lower_of(trigger) || is_suffix(norm, lower_of(trigger))
}

/// Content of the first snippet whose trigger matches, if any.
pub open spec fn store_match(snips: Seq<VoiceSnippet>, norm: Seq<char>) -> Option<Seq<char>>
    decreases snips.len(),
{
    if snips.len() == 0 {
        None
    } else if snippet_matches(norm, snips[0].trigger@) {
        Some(snips[0].content@)
    } else {
        store_match(snips.drop_first(), norm)
    }
}

/// Some stored trigger is case-insensitively equal to `trigger`.
pub open spec fn has_trigger(snips: Seq<VoiceSnippet>, trigger: Seq<char>) -> bool {
    exists|i: int|
        0 <= i < snips.len() && lower_of((#[trigger] snips[i]).trigger@) == lower_of(trigger)
}

/// Matching is case-insensitive: two texts with the same lowercase image
/// after trimming match exactly the same snippets.
pub proof fn lemma_match_case_insensitive(snips: Seq<VoiceSnippet>, t1: Seq<char>, t2: Seq<char>)
    requires
        lower_of(trim_spec(t1)) == lower_of(trim_spec(t2)),
    ensures
        store_match(snips, norm_of(t1)) == store_match(snips, norm_of(t2)),
{
}

// ─── Serialized form ──────────────────────────────────────────────────

/// Escaping applied to a trigger in the on-disk record.
pub open spec fn esc_trigger_char(c: char) -> Seq<char> {
    if c == '"' {
        seq!['\\', '"']
    } else {
        seq![c]
    }
}

/// Escaping applied to a content text in the on-disk record.
pub open spec fn esc_content_char(c: char) -> Seq<char> {
    if c == '"' {
        seq!['\\', '"']
    } else if c == '\n' {
        seq!['\\', 'n']
    } else {
        seq![c]
    }
}

/// Character-wise escaping.
pub open spec fn esc_seq(s: Seq<char>, f: spec_fn(char) -> Seq<char>) -> Seq<char>
    decreases s.len(),
{
    if s.len() == 0 {
        Seq::empty()
    } else {
        f(s[0]) + esc_seq(s.drop_first(), f)
    }
}

/// A trigger as it stands in the record.
pub open spec fn esc_trigger(s: Seq<char>) -> Seq<char> {
    esc_seq(s, |c: char| esc_trigger_char(c))
}

/// A content text as it stands in the record.
pub open spec fn esc_content(s: Seq<char>) -> Seq<char> {
    esc_seq(s, |c: char| esc_content_char(c))
}

/// One record entry.
pub open spec fn snippet_entry_json(s: VoiceSnippet) -> Seq<char> {
    "{\"trigger\":\""@ + esc_trigger(s.trigger@) + "\",\"content\":\""@ + esc_content(s.content@)
        + "\"}"@
}

/// The entries, comma-separated.
pub open spec fn entries_json(snips: Seq<VoiceSnippet>) -> Seq<char>
    decreases snips.len(),
{
    if snips.len() == 0 {
        Seq::empty()
    } else if snips.len() == 1 {
        snippet_entry_json(snips[0])
    } else {
        snippet_entry_json(snips[0]) + ","@ + entries_json(snips.drop_first())
    }
}

/// The whole record.
pub open spec fn snippets_json(snips: Seq<VoiceSnippet>) -> Seq<char> {
    "{\"snippets\":["@ + entries_json(snips) + "]}"@
}

/// Append the escaped trigger form of `s`.
fn append_escaped_trigger(out: &mut String, s: &str)
    ensures
        final(out)@ == old(out)@ + esc_trigger(s@),
{
    let sc = str_to_chars(s);
    let n = sc.len();
    let mut i: usize = 0;
    proof {
        assert(sc@.skip(0) =~= s@);
        assert(old(out)@ + esc_trigger(s@) =~= out@ + esc_trigger(sc@.skip(0)));
    }
    while i < n
        invariant
            n == sc@.len(),
            sc@ == s@,
            i <= n,
            old(out)@ + esc_trigger(s@) == out@ + esc_trigger(sc@.skip(i as int)),
        decreases n - i,
    {
        let ghost tail = sc@.skip(i as int);
        let ghost f = |c: char| esc_trigger_char(c);
        proof {
            assert(tail[0] == sc@[i as int]);
            assert(tail.drop_first() =~= sc@.skip(i + 1));
            assert(esc_seq(tail, f) == f(tail[0]) + esc_seq(sc@.skip(i + 1), f));
        }
        let c = sc[i];
        if c == '"' {
            push_char(out, '\\');
            push_char(out, '"');
        } else {
            push_char(out, c);
        }
        proof {
            assert(old(out)@ + esc_trigger(s@) =~= out@ + esc_trigger(sc@.skip(i + 1)));
        }
        i = i + 1;
    }
    proof {
        assert(sc@.skip(n as int) =~= Seq::<char>::empty());
        assert(esc_trigger(sc@.skip(n as int)) =~= Seq::<char>::empty());
        assert(final(out)@ =~= old(out)@ + esc_trigger(s@));
    }
}

/// Append the escaped content form of `s`.
fn append_escaped_content(out: &mut String, s: &str)
    ensures
        final(out)@ == old(out)@ + esc_content(s@),
{
    let sc = str_to_chars(s);
    let n = sc.len();
    let mut i: usize = 0;
    proof {
        assert(sc@.skip(0) =~= s@);
        assert(old(out)@ + esc_content(s@) =~= out@ + esc_content(sc@.skip(0)));
    }
    while i < n
        invariant
            n == sc@.len(),
            sc@ == s@,
            i <= n,
            old(out)@ + esc_content(s@) == out@ + esc_content(sc@.skip(i as int)),
        decreases n - i,
    {
        let ghost tail = sc@.skip(i as int);
        let ghost f = |c: char| esc_content_char(c);
        proof {
            assert(tail[0] == sc@[i as int]);
            assert(tail.drop_first() =~= sc@.skip(i + 1));
            assert(esc_seq(tail, f) == f(tail[0]) + esc_seq(sc@.skip(i + 1), f));
        }
        let c = sc[i];
        if c == '"' {
            push_char(out, '\\');
            push_char(out, '"');
        } else if c == '\n' {
            push_char(out, '\\');
            push_char(out, 'n');
        } else {
            push_char(out, c);
        }
        proof {
            assert(old(out)@ + esc_content(s@) =~= out@ + esc_content(sc@.skip(i + 1)));
        }
        i = i + 1;
    }
    proof {
        assert(sc@.skip(n as int) =~= Seq::<char>::empty());
        assert(esc_content(sc@.skip(n as int)) =~= Seq::<char>::empty());
        assert(final(out)@ =~= old(out)@ + esc_content(s@));
    }
}

/// Append one record entry.
fn append_entry(out: &mut String, s: &VoiceSnippet)
    ensures
        final(out)@ == old(out)@ + snippet_entry_json(*s),
{
    out.append("{\"trigger\":\"");
    append_escaped_trigger(out, s.trigger.as_str());
    out.append("\",\"content\":\"");
    append_escaped_content(out, s.content.as_str());
    out.append("\"}");
    proof {
        assert(final(out)@ =~= old(out)@ + snippet_entry_json(*s));
    }
}

// ─── The store ────────────────────────────────────────────────────────

/// In-memory snippet set with case-insensitively unique triggers, kept in
/// insertion order.
pub struct SnippetStore {
    items: Vec<VoiceSnippet>,
}

impl View for SnippetStore {
    type V = Seq<VoiceSnippet>;

    closed spec fn view(&self) -> Seq<VoiceSnippet> {
        self.items@
    }
}

impl SnippetStore {
    /// An empty store.
    pub fn new() -> (r: SnippetStore)
        ensures
            r@ == Seq::<VoiceSnippet>::empty(),
    {
        SnippetStore { items: Vec::new() }
    }

    /// A store holding exactly the given snippets, in order.
    pub fn from_items(items: Vec<VoiceSnippet>) -> (r: SnippetStore)
        ensures
            r@ == items@,
    {
        SnippetStore { items }
    }

    /// How many snippets are stored.
    pub fn len(&self) -> (r: usize)
        ensures
            r == self@.len(),
    {
        self.items.len()
    }

    /// Content of the first snippet matching the text, normalized and
    /// compared case-insensitively, exactly or as a suffix.
    pub fn match_snippet(&self, text: &str) -> (r: Option<String>)
        ensures
            r is Some <==> store_match(self@, norm_of(text@)) is Some,
            r matches Some(c) ==> store_match(self@, norm_of(text@)) == Some(c@),
    {
        let tc = str_to_chars(text);
        let trimmed = trim_chars(&tc);
        let trimmed_s = chars_to_string(&trimmed);
        let norm_s = lowercase(trimmed_s.as_str());
        let norm_c = str_to_chars(norm_s.as_str());
        let ghost norm = norm_of(text@);
        proof {
            assert(norm_s@ == norm);
            assert(norm_c@ == norm);
        }
        let n = self.items.len();
        let mut i: usize = 0;
        proof {
            assert(self.items@.skip(0) =~= self.items@);
        }
        while i < n
            invariant
                n == self.items@.len(),
                i <= n,
                norm == norm_of(text@),
                norm_s@ == norm,
                norm_c@ == norm,
                store_match(self@, norm) == store_match(self.items@.skip(i as int), norm),
            decreases n - i,
        {
            let ghost tail = self.items@.skip(i as int);
            proof {
                assert(tail[0] == self.items@[i as int]);
                assert(tail.drop_first() =~= self.items@.skip(i + 1));
            }
            let tl = lowercase(self.items[i].trigger.as_str());
            let exact = norm_s.eq(&tl);
            let tl_c = str_to_chars(tl.as_str());
            let suffix = ends_with_chars(&norm_c, &tl_c);
            if exact || suffix {
                proof {
                    assert(snippet_matches(norm, tail[0].trigger@));
                    assert(store_match(tail, norm) == Some(tail[0].content@));
                }
                let c = self.items[i].content.clone();
                proof {
                    assert(c@ == tail[0].content@);
                    assert(store_match(self@, norm) == Some(c@));
                }
                return Some(c);
            }
            proof {
                assert(!snippet_matches(norm, tail[0].trigger@));
                assert(store_match(tail, norm) == store_match(self.items@.skip(i + 1), norm));
            }
            i = i + 1;
        }
        proof {
            assert(self.items@.skip(n as int) =~= Seq::<VoiceSnippet>::empty());
        }
        None
    }

    /// The matched content, or the text unchanged when nothing matches.
    pub fn apply_snippet_expansion(&self, text: &str) -> (r: String)
        ensures
            match store_match(self@, norm_of(text@)) {
                Some(c) => r@ == c,
                None => r@ == text@,
            },
    {
        match self.match_snippet(text) {
            Some(content) => content,
            None => text.to_owned(),
        }
    }

    /// Add a snippet. Fails without changing the store when a
    /// case-insensitively equal trigger is already present.
    pub fn add_snippet(&mut self, trigger: String, content: String) -> (r: Result<
        String,
        VoiceError,
    >)
        ensures
            r is Ok <==> !has_trigger(old(self)@, trigger@),
            r is Err ==> *final(self) == *old(self) && r == Err::<String, VoiceError>(
                VoiceError::DuplicateTrigger,
            ),
            r is Ok ==> final(self)@.len() == old(self)@.len() + 1,
            r is Ok ==> final(self)@.subrange(0, old(self)@.len() as int) == old(self)@,
            r is Ok ==> final(self)@.last().trigger@ == trigger@,
            r is Ok ==> final(self)@.last().content@ == content@,
            r matches Ok(m) ==> m@ == "Added snippet '"@ + trigger@ + "'"@,
    {
        let tq = lowercase(trigger.as_str());
        let n = self.items.len();
        let mut i: usize = 0;
        while i < n
            invariant
                n == self.items@.len(),
                i <= n,
                tq@ == lower_of(trigger@),
                forall|j: int|
                    0 <= j < i ==> lower_of((#[trigger] self.items@[j]).trigger@) != lower_of(
                        trigger@,
                    ),
            decreases n - i,
        {
            let tl = lowercase(self.items[i].trigger.as_str());
            if tl.eq(&tq) {
                proof {
                    assert(lower_of(self.items@[i as int].trigger@) == lower_of(trigger@));
                }
                return Err(VoiceError::DuplicateTrigger);
            }
            i = i + 1;
        }
        let ghost old_items = self.items@;
        let snip = VoiceSnippet { trigger: trigger.clone(), content };
        self.items.push(snip);
        let mut m = String::new();
        m.append("Added snippet '");
        m.append(trigger.as_str());
        m.append("'");
        proof {
            assert(!has_trigger(old_items, trigger@));
            assert(self.items@.subrange(0, old_items.len() as int) =~= old_items);
            assert(m@ =~= "Added snippet '"@ + trigger@ + "'"@);
        }
        Ok(m)
    }

    /// Remove every snippet whose trigger is case-insensitively equal to
    /// `trigger`. Fails without changing the store when none is.
    pub fn remove_snippet(&mut self, trigger: String) -> (r: Result<String, VoiceError>)
        ensures
            r is Ok <==> has_trigger(old(self)@, trigger@),
            r is Err ==> *final(self) == *old(self) && r == Err::<String, VoiceError>(
                VoiceError::UnknownTrigger,
            ),
            r is Ok ==> final(self)@ == old(self)@.filter(
                |s: VoiceSnippet| lower_of(s.trigger@) != lower_of(trigger@),
            ),
            r matches Ok(m) ==> m@ == "Removed snippet '"@ + trigger@ + "'"@,
    {
        let ghost pred = |s: VoiceSnippet| lower_of(s.trigger@) != lower_of(trigger@);
        let tq = lowercase(trigger.as_str());
        let n = self.items.len();
        let mut kept: Vec<VoiceSnippet> = Vec::new();
        let mut found = false;
        let mut i: usize = 0;
        proof {
            assert(self.items@.take(0) =~= Seq::<VoiceSnippet>::empty());
            reveal_with_fuel(Seq::<_>::filter, 1);
            assert(kept@ =~= self.items@.take(0).filter(pred));
        }
        while i < n
            invariant
                n == self.items@.len(),
                i <= n,
                tq@ == lower_of(trigger@),
                kept@ == self.items@.take(i as int).filter(pred),
                pred == (|s: VoiceSnippet| lower_of(s.trigger@) != lower_of(trigger@)),
                found <==> exists|j: int|
                    0 <= j < i && lower_of((#[trigger] self.items@[j]).trigger@) == lower_of(
                        trigger@,
                    ),
            decreases n - i,
        {
            let ghost pre = self.items@.take(i as int);
            let tl = lowercase(self.items[i].trigger.as_str());
            let matched = tl.eq(&tq);
            if matched {
                found = true;
            } else {
                let copy = VoiceSnippet {
                    trigger: self.items[i].trigger.clone(),
                    content: self.items[i].content.clone(),
                };
                proof {
                    assert(copy == self.items@[i as int]);
                }
                kept.push(copy);
            }
            proof {
                reveal_with_fuel(Seq::<_>::filter, 1);
                let cur = self.items@.take(i + 1);
                assert(cur.drop_last() =~= pre);
                assert(cur.last() == self.items@[i as int]);
                assert(pred(self.items@[i as int]) <==> !matched);
                assert(kept@ =~= cur.filter(pred));
            }
            i = i + 1;
        }
        proof {
            assert(self.items@.take(n as int) =~= self.items@);
        }
        if !found {
            return Err(VoiceError::UnknownTrigger);
        }
        self.items = kept;
        let mut m = String::new();
        m.append("Removed snippet '");
        m.append(trigger.as_str());
        m.append("'");
        proof {
            assert(m@ =~= "Removed snippet '"@ + trigger@ + "'"@);
        }
        Ok(m)
    }

    /// The whole store as its serialized record.
    pub fn get_snippets(&self) -> (r: String)
        ensures
            r@ == snippets_json(self@),
    {
        let mut out = String::new();
        out.append("{\"snippets\":[");
        let n = self.items.len();
        let mut i: usize = 0;
        proof {
            assert(self.items@.skip(0) =~= self.items@);
            assert(out@ + entries_json(self.items@.skip(0)) =~= "{\"snippets\":["@ + entries_json(
                self.items@,
            ));
        }
        while i < n
            invariant
                n == self.items@.len(),
                i <= n,
                out@ + entries_json(self.items@.skip(i as int)) == "{\"snippets\":["@
                    + entries_json(self.items@),
            decreases n - i,
        {
            let ghost tail = self.items@.skip(i as int);
            proof {
                assert(tail[0] == self.items@[i as int]);
                assert(tail.drop_first() =~= self.items@.skip(i + 1));
            }
            append_entry(&mut out, &self.items[i]);
            if i + 1 < n {
                out.append(",");
                proof {
                    assert(tail.len() >= 2);
                    assert(entries_json(tail) == snippet_entry_json(tail[0]) + ","@ + entries_json(
                        self.items@.skip(i + 1),
                    ));
                    assert(out@ + entries_json(self.items@.skip(i + 1)) =~= "{\"snippets\":["@
                        + entries_json(self.items@));
                }
            } else {
                proof {
                    assert(tail.len() == 1);
                    assert(entries_json(tail) == snippet_entry_json(tail[0]));
                    assert(self.items@.skip(i + 1) =~= Seq::<VoiceSnippet>::empty());
                    assert(out@ + entries_json(self.items@.skip(i + 1)) =~= "{\"snippets\":["@
                        + entries_json(self.items@));
                }
            }
            i = i + 1;
        }
        out.append("]}");
        proof {
            assert(self.items@.skip(n as int) =~= Seq::<VoiceSnippet>::empty());
            assert(out@ =~= snippets_json(self@));
        }
        out
    }
}

} // verus!
