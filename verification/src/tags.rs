//! The tag map: the semicolon-separated `key[=value]` metadata segment a
//! record may begin with.  Entries are kept sorted by key so that encoding
//! is deterministic regardless of the order keys appeared in.

use vstd::prelude::*;
use vstd::string::StrSliceExecFns;
use vstd::string::StringExecFns;

use crate::text::find_char;
use crate::text::find_in_str;
use crate::text::lemma_find_char;
use crate::text::lemma_find_char_append;
use crate::text::lemma_lex_lt_total;
use crate::text::lemma_lex_lt_trans;
use crate::text::lemma_no_char;
use crate::text::lex_lt;
use crate::text::no_char;
use crate::text::push_char;
use crate::text::rest_after;
use crate::text::str_lt;
use crate::text::take_until;

verus! {

/// One tag entry as specifications see it: the key, and the value
/// (`None` for a bare flag).
pub type TagEntryView = (Seq<char>, Option<Seq<char>>);

/// The value of one tag: a string, or the bare "flag present" marker.
pub enum TagValue {
    String(String),
    True,
}

impl View for TagValue {
    type V = Option<Seq<char>>;

    open spec fn view(&self) -> Option<Seq<char>> {
        match self {
            TagValue::String(s) => Some(s@),
            TagValue::True => None,
        }
    }
}

/// The metadata tags of one message, sorted by key, keys unique.
pub struct Tags {
    entries: Vec<(String, TagValue)>,
}

pub open spec fn entries_view(es: Seq<(String, TagValue)>) -> Seq<TagEntryView> {
    Seq::new(es.len(), |i: int| (es[i].0@, es[i].1@))
}

impl View for Tags {
    type V = Seq<TagEntryView>;

    closed spec fn view(&self) -> Seq<TagEntryView> {
        entries_view(self.entries@)
    }
}

/// Keys strictly ascend, which also makes them unique.
pub open spec fn tags_sorted(s: Seq<TagEntryView>) -> bool {
    forall|i: int, j: int| 0 <= i < j < s.len() ==> lex_lt(s[i].0, s[j].0)
}

/// One `key[=value]` piece, split at its first `=`.
pub open spec fn parse_tag_piece(p: Seq<char>) -> TagEntryView {
    if 0 <= find_char(p, '=') < p.len() {
        (take_until(p, '='), Some(rest_after(p, '=')))
    } else {
        (p, None)
    }
}

/// Inserts an entry into a key-sorted entry list, replacing the value if
/// the key is already present.
pub open spec fn insert_tag(s: Seq<TagEntryView>, k: Seq<char>, v: Option<Seq<char>>) -> Seq<
    TagEntryView,
>
    decreases s.len(),
{
    if s.len() == 0 {
        seq![(k, v)]
    } else if lex_lt(k, s[0].0) {
        seq![(k, v)] + s
    } else if k == s[0].0 {
        seq![(k, v)] + s.skip(1)
    } else {
        seq![s[0]] + insert_tag(s.skip(1), k, v)
    }
}

pub open spec fn parse_tags_from(seg: Seq<char>, acc: Seq<TagEntryView>) -> Seq<TagEntryView>
    decreases seg.len(),
{
    let f = find_char(seg, ';');
    if 0 <= f < seg.len() {
        let piece = parse_tag_piece(seg.subrange(0, f));
        parse_tags_from(seg.subrange(f + 1, seg.len() as int), insert_tag(acc, piece.0, piece.1))
    } else {
        let piece = parse_tag_piece(seg);
        insert_tag(acc, piece.0, piece.1)
    }
}

/// The tag map a segment denotes: pieces between `;` are split at their
/// first `=`; a later duplicate key overwrites an earlier one.
pub open spec fn parse_tags(seg: Seq<char>) -> Seq<TagEntryView> {
    parse_tags_from(seg, Seq::empty())
}

/// The wire text of one entry.
pub open spec fn render_tag(e: TagEntryView) -> Seq<char> {
    match e.1 {
        Some(v) => e.0 + seq!['='] + v,
        None => e.0,
    }
}

/// The wire text of an entry list, entries joined by `;`.
pub open spec fn render_tags(s: Seq<TagEntryView>) -> Seq<char>
    decreases s.len(),
{
    if s.len() == 0 {
        Seq::empty()
    } else if s.len() == 1 {
        render_tag(s[0])
    } else {
        render_tag(s[0]) + seq![';'] + render_tags(s.skip(1))
    }
}

/// Inserting keeps the list sorted, and adds no entry beyond the inserted
/// one and those already present.
pub proof fn lemma_insert_tag_sorted(s: Seq<TagEntryView>, k: Seq<char>, v: Option<Seq<char>>)
    requires
        tags_sorted(s),
    ensures
        tags_sorted(insert_tag(s, k, v)),
        forall|j: int|
            0 <= j < insert_tag(s, k, v).len() ==> (insert_tag(s, k, v)[j] == (k, v) || s.contains(
                insert_tag(s, k, v)[j],
            )),
    decreases s.len(),
{
    let r = insert_tag(s, k, v);
    if s.len() == 0 {
    } else if lex_lt(k, s[0].0) {
        assert forall|i: int, j: int| 0 <= i < j < r.len() implies lex_lt(r[i].0, r[j].0) by {
            if i == 0 {
                assert(r[j] == s[j - 1]);
                if j == 1 {
                } else {
                    assert(lex_lt(s[0].0, s[j - 1].0));
                    lemma_lex_lt_trans(k, s[0].0, s[j - 1].0);
                }
            } else {
                assert(r[i] == s[i - 1]);
                assert(r[j] == s[j - 1]);
            }
        }
        assert forall|j: int| 0 <= j < r.len() implies (r[j] == (k, v) || s.contains(r[j])) by {
            if j > 0 {
                assert(r[j] == s[j - 1]);
            }
        }
    } else if k == s[0].0 {
        assert forall|i: int, j: int| 0 <= i < j < r.len() implies lex_lt(r[i].0, r[j].0) by {
            if i == 0 {
                assert(r[j] == s.skip(1)[j - 1]);
                assert(r[j] == s[j]);
                assert(lex_lt(s[0].0, s[j].0));
            } else {
                assert(r[i] == s[i]);
                assert(r[j] == s[j]);
            }
        }
        assert forall|j: int| 0 <= j < r.len() implies (r[j] == (k, v) || s.contains(r[j])) by {
            if j > 0 {
                assert(r[j] == s[j]);
            }
        }
    } else {
        lemma_lex_lt_total(k, s[0].0);
        assert(lex_lt(s[0].0, k));
        assert forall|i: int, j: int| 0 <= i < j < s.skip(1).len() implies lex_lt(
            s.skip(1)[i].0,
            s.skip(1)[j].0,
        ) by {
            assert(s.skip(1)[i] == s[i + 1]);
            assert(s.skip(1)[j] == s[j + 1]);
        }
        lemma_insert_tag_sorted(s.skip(1), k, v);
        let t = insert_tag(s.skip(1), k, v);
        assert forall|i: int, j: int| 0 <= i < j < r.len() implies lex_lt(r[i].0, r[j].0) by {
            if i == 0 {
                assert(r[j] == t[j - 1]);
                if t[j - 1] == (k, v) {
                    assert(lex_lt(s[0].0, k));
                } else {
                    assert(s.skip(1).contains(t[j - 1]));
                    let w = choose|w: int| 0 <= w < s.skip(1).len() && s.skip(1)[w] == t[j - 1];
                    assert(s.skip(1)[w] == s[w + 1]);
                    assert(lex_lt(s[0].0, s[w + 1].0));
                }
            } else {
                assert(r[i] == t[i - 1]);
                assert(r[j] == t[j - 1]);
            }
        }
        assert forall|j: int| 0 <= j < r.len() implies (r[j] == (k, v) || s.contains(r[j])) by {
            if j == 0 {
                assert(r[0] == s[0]);
                assert(s.contains(s[0]));
            } else {
                assert(r[j] == t[j - 1]);
                if t[j - 1] != (k, v) {
                    assert(s.skip(1).contains(t[j - 1]));
                    let w = choose|w: int| 0 <= w < s.skip(1).len() && s.skip(1)[w] == t[j - 1];
                    assert(s.skip(1)[w] == s[w + 1]);
                    assert(s.contains(s[w + 1]));
                }
            }
        }
    }
}

/// Inserting at the position the keys dictate is what `insert_tag` does.
proof fn lemma_insert_tag_at(s: Seq<TagEntryView>, k: Seq<char>, v: Option<Seq<char>>, idx: int)
    requires
        tags_sorted(s),
        0 <= idx <= s.len(),
        forall|j: int| 0 <= j < idx ==> lex_lt(s[j].0, k),
        idx < s.len() ==> !lex_lt(s[idx].0, k),
    ensures
        insert_tag(s, k, v) == if idx < s.len() && s[idx].0 == k {
            s.update(idx, (k, v))
        } else {
            s.insert(idx, (k, v))
        },
    decreases s.len(),
{
    if s.len() == 0 {
        assert(insert_tag(s, k, v) =~= s.insert(0, (k, v)));
    } else if idx == 0 {
        lemma_lex_lt_total(k, s[0].0);
        if s[0].0 == k {
            assert(insert_tag(s, k, v) =~= s.update(0, (k, v)));
        } else {
            assert(lex_lt(k, s[0].0));
            assert(insert_tag(s, k, v) =~= s.insert(0, (k, v)));
        }
    } else {
        assert(lex_lt(s[0].0, k));
        lemma_lex_lt_total(k, s[0].0);
        assert(!lex_lt(k, s[0].0) && k != s[0].0);
        let t = s.skip(1);
        assert forall|i: int, j: int| 0 <= i < j < t.len() implies lex_lt(t[i].0, t[j].0) by {
            assert(t[i] == s[i + 1]);
            assert(t[j] == s[j + 1]);
        }
        assert forall|j: int| 0 <= j < idx - 1 implies lex_lt(t[j].0, k) by {
            assert(t[j] == s[j + 1]);
        }
        if idx - 1 < t.len() {
            assert(t[idx - 1] == s[idx]);
        }
        lemma_insert_tag_at(t, k, v, idx - 1);
        if idx < s.len() && s[idx].0 == k {
            assert(insert_tag(s, k, v) =~= s.update(idx, (k, v)));
        } else {
            assert(insert_tag(s, k, v) =~= s.insert(idx, (k, v)));
        }
    }
}

impl Tags {
    /// The entry list is sorted by key.
    pub open spec fn wf(&self) -> bool {
        tags_sorted(self@)
    }

    /// Parses a tag segment: pieces between `;`, each split at its first
    /// `=`; a piece without `=` is a flag.  Later duplicates win.
    #[verifier::loop_isolation(false)]
    pub fn from_string(x: String) -> (t: Tags)
        ensures
            t@ == parse_tags(x@),
            t.wf(),
    {
        let mut entries: Vec<(String, TagValue)> = Vec::new();
        let mut rem: String = x;
        let ghost full = rem@;
        proof {
            assert(entries_view(entries@) =~= Seq::<TagEntryView>::empty());
        }
        loop
            invariant
                tags_sorted(entries_view(entries@)),
                parse_tags(full) == parse_tags_from(rem@, entries_view(entries@)),
            decreases rem@.len(),
        {
            let n: usize = rem.as_str().unicode_len();
            let f = find_in_str(rem.as_str(), ';');
            proof {
                lemma_find_char(rem@, ';');
            }
            if f < n {
                let ghost old_rem = rem@;
                let ghost acc = entries_view(entries@);
                let piece = String::from_str(rem.as_str().substring_char(0, f));
                let next = String::from_str(rem.as_str().substring_char(f + 1, n));
                proof {
                    assert(piece@ =~= old_rem.subrange(0, f as int));
                    assert(next@ =~= old_rem.subrange(f + 1, old_rem.len() as int));
                }
                insert_piece(&mut entries, piece);
                rem = next;
                proof {
                    assert(parse_tags_from(old_rem, acc) == parse_tags_from(
                        rem@,
                        entries_view(entries@),
                    ));
                }
            } else {
                let ghost old_rem = rem@;
                let ghost acc = entries_view(entries@);
                insert_piece(&mut entries, rem);
                proof {
                    assert(parse_tags_from(old_rem, acc) == entries_view(entries@));
                }
                return (Tags { entries });
            }
        }
    }

    /// Renders the tags back to a segment, `None` when there are none.
    /// Keys ascend, so the output is deterministic.
    pub fn to_string(&self) -> (r: Option<String>)
        ensures
            self@.len() == 0 ==> r is None,
            self@.len() > 0 ==> (r matches Some(s) && s@ == render_tags(self@)),
    {
        if self.entries.len() == 0 {
            return None;
        }
        let ghost view = self@;
        let mut s = String::new();
        proof {
            assert(view.skip(0) =~= view);
            assert(s@ + render_tags(view) =~= render_tags(view));
        }
        let mut i: usize = 0;
        while i < self.entries.len()
            invariant
                0 <= i <= self.entries.len(),
                view == self@,
                view.len() == self.entries.len(),
                s@ + render_tags(view.skip(i as int)) == render_tags(view),
            decreases self.entries.len() - i,
        {
            let ghost before = s@;
            let e = &self.entries[i];
            s.append(e.0.as_str());
            match &e.1 {
                TagValue::String(v) => {
                    push_char(&mut s, '=');
                    s.append(v.as_str());
                },
                TagValue::True => {},
            }
            proof {
                assert(view[i as int] == (e.0@, e.1@));
                assert(s@ =~= before + render_tag(view[i as int]));
            }
            if i + 1 < self.entries.len() {
                push_char(&mut s, ';');
                proof {
                    let t = view.skip(i as int);
                    assert(t.len() > 1);
                    assert(t[0] == view[i as int]);
                    assert(t.skip(1) =~= view.skip(i + 1));
                    assert(render_tags(t) == render_tag(t[0]) + seq![';'] + render_tags(t.skip(1)));
                    assert(s@ + render_tags(view.skip(i + 1)) =~= before + render_tags(t));
                }
            } else {
                proof {
                    let t = view.skip(i as int);
                    assert(t.len() == 1);
                    assert(t[0] == view[i as int]);
                    assert(render_tags(t) == render_tag(t[0]));
                    assert(view.skip(i + 1).len() == 0);
                    assert(render_tags(view.skip(i + 1)) == Seq::<char>::empty());
                    assert(s@ + render_tags(view.skip(i + 1)) =~= before + render_tags(t));
                }
            }
            i = i + 1;
        }
        proof {
            assert(view.skip(view.len() as int).len() == 0);
            assert(s@ =~= render_tags(view));
        }
        Some(s)
    }

    /// The value stored under `key`, if any.
    pub fn get(&self, key: String) -> (r: Option<&TagValue>)
        ensures
            (match r {
                Some(v) => lookup_tag(self@, key@) == Some(v@),
                None => lookup_tag(self@, key@) is None,
            }),
    {
        proof {
            assert(self@.skip(0) =~= self@);
        }
        let mut i: usize = 0;
        while i < self.entries.len()
            invariant
                0 <= i <= self.entries.len(),
                lookup_tag(self@, key@) == lookup_tag(self@.skip(i as int), key@),
                self@.len() == self.entries.len(),
            decreases self.entries.len() - i,
        {
            if self.entries[i].0 == key {
                proof {
                    assert(self@.skip(i as int)[0] == self@[i as int]);
                }
                return Some(&self.entries[i].1);
            }
            proof {
                let t = self@.skip(i as int);
                assert(t[0] == self@[i as int]);
                assert(t[0].0 != key@);
                assert(t.skip(1) =~= self@.skip(i + 1));
            }
            i = i + 1;
        }
        proof {
            assert(self@.skip(i as int).len() == 0);
        }
        None
    }

    /// The entries in ascending key order.
    pub fn iter(&self) -> (r: &Vec<(String, TagValue)>)
        ensures
            r@.len() == self@.len(),
            forall|i: int| 0 <= i < r@.len() ==> (r@[i].0@, r@[i].1@) == self@[i],
    {
        &self.entries
    }
}

/// The value under key `k`, `Some(None)` for a flag, `None` if absent.
pub open spec fn lookup_tag(s: Seq<TagEntryView>, k: Seq<char>) -> Option<Option<Seq<char>>>
    decreases s.len(),
{
    if s.len() == 0 {
        None
    } else if s[0].0 == k {
        Some(s[0].1)
    } else {
        lookup_tag(s.skip(1), k)
    }
}

/// Splits one piece at its first `=` and inserts it in key order.
fn insert_piece(entries: &mut Vec<(String, TagValue)>, piece: String)
    requires
        tags_sorted(entries_view(old(entries)@)),
    ensures
        entries_view(final(entries)@) == insert_tag(
            entries_view(old(entries)@),
            parse_tag_piece(piece@).0,
            parse_tag_piece(piece@).1,
        ),
        tags_sorted(entries_view(final(entries)@)),
{
    let n: usize = piece.as_str().unicode_len();
    let f = find_in_str(piece.as_str(), '=');
    proof {
        lemma_find_char(piece@, '=');
    }
    let (key, val): (String, TagValue) = if f < n {
        let k = String::from_str(piece.as_str().substring_char(0, f));
        let v = String::from_str(piece.as_str().substring_char(f + 1, n));
        proof {
            assert(k@ =~= take_until(piece@, '='));
            assert(v@ =~= rest_after(piece@, '='));
        }
        (k, TagValue::String(v))
    } else {
        (piece, TagValue::True)
    };
    insert_entry(entries, key, val);
}

/// Inserts `(key, val)` into the sorted entry list, overwriting an equal key.
fn insert_entry(entries: &mut Vec<(String, TagValue)>, key: String, val: TagValue)
    requires
        tags_sorted(entries_view(old(entries)@)),
    ensures
        entries_view(final(entries)@) == insert_tag(entries_view(old(entries)@), key@, val@),
        tags_sorted(entries_view(final(entries)@)),
{
    let ghost s = entries_view(entries@);
    let mut idx: usize = 0;
    while idx < entries.len() && str_lt(entries[idx].0.as_str(), key.as_str())
        invariant
            0 <= idx <= entries.len(),
            s == entries_view(entries@),
            s.len() == entries.len(),
            forall|j: int| 0 <= j < idx ==> lex_lt(s[j].0, key@),
        decreases entries.len() - idx,
    {
        proof {
            assert(s[idx as int].0 == entries@[idx as int].0@);
        }
        idx = idx + 1;
    }
    proof {
        if idx < entries.len() {
            assert(s[idx as int].0 == entries@[idx as int].0@);
        }
        lemma_insert_tag_at(s, key@, val@, idx as int);
        lemma_insert_tag_sorted(s, key@, val@);
    }
    if idx < entries.len() && entries[idx].0 == key {
        entries.remove(idx);
        entries.insert(idx, (key, val));
        proof {
            assert(entries_view(entries@) =~= s.update(idx as int, (key@, val@)));
        }
    } else {
        entries.insert(idx, (key, val));
        proof {
            assert(entries_view(entries@) =~= s.insert(idx as int, (key@, val@)));
        }
    }
}

// ---------------------------------------------------------------------------
// The tag round trip
// ---------------------------------------------------------------------------

/// An entry the encoder can represent faithfully: the key is non-empty and
/// free of the separators, and a string value is free of `;` and space.
pub open spec fn tag_entry_encodable(e: TagEntryView) -> bool {
    &&& e.0.len() > 0
    &&& no_char(e.0, ';')
    &&& no_char(e.0, '=')
    &&& no_char(e.0, ' ')
    &&& (e.1 matches Some(v) ==> no_char(v, ';') && no_char(v, ' '))
}

pub open spec fn tags_encodable(s: Seq<TagEntryView>) -> bool {
    forall|i: int| 0 <= i < s.len() ==> tag_entry_encodable(s[i])
}

/// The rendering of an encodable entry contains neither `;` nor a space.
pub proof fn lemma_render_tag_no_char(e: TagEntryView, c: char)
    requires
        tag_entry_encodable(e),
        c == ';' || c == ' ',
    ensures
        no_char(render_tag(e), c),
{
    match e.1 {
        Some(v) => {
            let t = e.0 + seq!['='] + v;
            assert forall|j: int| 0 <= j < t.len() implies t[j] != c by {
                if j < e.0.len() {
                    assert(t[j] == e.0[j]);
                } else if j == e.0.len() {
                    assert(t[j] == '=');
                } else {
                    assert(t[j] == v[j - e.0.len() - 1]);
                }
            }
        },
        None => {},
    }
}

/// The rendering of encodable entries contains no space.
pub proof fn lemma_render_tags_no_space(s: Seq<TagEntryView>)
    requires
        tags_encodable(s),
    ensures
        no_char(render_tags(s), ' '),
    decreases s.len(),
{
    if s.len() == 0 {
    } else if s.len() == 1 {
        lemma_render_tag_no_char(s[0], ' ');
    } else {
        lemma_render_tag_no_char(s[0], ' ');
        assert forall|i: int| 0 <= i < s.skip(1).len() implies tag_entry_encodable(
            s.skip(1)[i],
        ) by {
            assert(s.skip(1)[i] == s[i + 1]);
        }
        lemma_render_tags_no_space(s.skip(1));
        let a = render_tag(s[0]);
        let b = render_tags(s.skip(1));
        let t = a + seq![';'] + b;
        assert forall|j: int| 0 <= j < t.len() implies t[j] != ' ' by {
            if j < a.len() {
                assert(t[j] == a[j]);
            } else if j == a.len() {
                assert(t[j] == ';');
            } else {
                assert(t[j] == b[j - a.len() - 1]);
            }
        }
    }
}

/// Inserting a key greater than every present key appends the entry.
proof fn lemma_insert_tag_append(s: Seq<TagEntryView>, k: Seq<char>, v: Option<Seq<char>>)
    requires
        forall|i: int| 0 <= i < s.len() ==> lex_lt(s[i].0, k),
    ensures
        insert_tag(s, k, v) == s + seq![(k, v)],
    decreases s.len(),
{
    if s.len() == 0 {
        assert(insert_tag(s, k, v) =~= s + seq![(k, v)]);
    } else {
        lemma_lex_lt_total(k, s[0].0);
        assert(!lex_lt(k, s[0].0) && k != s[0].0);
        assert forall|i: int| 0 <= i < s.skip(1).len() implies lex_lt(s.skip(1)[i].0, k) by {
            assert(s.skip(1)[i] == s[i + 1]);
        }
        lemma_insert_tag_append(s.skip(1), k, v);
        assert(insert_tag(s, k, v) =~= s + seq![(k, v)]);
    }
}

proof fn lemma_parse_render_from(s: Seq<TagEntryView>, acc: Seq<TagEntryView>)
    requires
        s.len() > 0,
        tags_sorted(s),
        tags_encodable(s),
        forall|i: int, j: int|
            0 <= i < acc.len() && 0 <= j < s.len() ==> lex_lt(acc[i].0, s[j].0),
    ensures
        parse_tags_from(render_tags(s), acc) == acc + s,
    decreases s.len(),
{
    let e = s[0];
    assert(tag_entry_encodable(e));
    let rt = render_tag(e);
    lemma_render_tag_no_char(e, ';');
    let piece_entry = {
        // How `parse_tag_piece` reads `render_tag(e)` back.
        match e.1 {
            Some(v) => {
                lemma_no_char(e.0, '=');
                lemma_find_char_append(e.0, seq!['='] + v, '=');
                assert((seq!['='] + v)[0] == '=');
                lemma_find_char((seq!['='] + v), '=');
                assert(find_char(seq!['='] + v, '=') == 0) by {
                    if find_char(seq!['='] + v, '=') != 0 {
                        lemma_find_char(seq!['='] + v, '=');
                    }
                }
                assert(rt =~= e.0 + (seq!['='] + v));
                assert(find_char(rt, '=') == e.0.len());
                assert(take_until(rt, '=') =~= e.0);
                assert(rest_after(rt, '=') =~= v);
                assert(parse_tag_piece(rt) == (e.0, Some(v)));
            },
            None => {
                lemma_no_char(e.0, '=');
                assert(parse_tag_piece(rt) == (e.0, Option::<Seq<char>>::None));
            },
        }
        assert(parse_tag_piece(rt) == (e.0, e.1));
        assert((e.0, e.1) == e);
    };
    assert forall|i: int| 0 <= i < acc.len() implies lex_lt(acc[i].0, e.0) by {}
    if s.len() == 1 {
        lemma_no_char(rt, ';');
        assert(render_tags(s) == rt);
        lemma_insert_tag_append(acc, e.0, e.1);
        assert(parse_tags_from(rt, acc) == insert_tag(acc, e.0, e.1));
        assert(acc + seq![(e.0, e.1)] =~= acc + s);
    } else {
        let tail = s.skip(1);
        let rest = render_tags(tail);
        assert(render_tags(s) == rt + seq![';'] + rest);
        lemma_no_char(rt, ';');
        lemma_find_char_append(rt, seq![';'] + rest, ';');
        assert((seq![';'] + rest)[0] == ';');
        assert(find_char(seq![';'] + rest, ';') == 0) by {
            lemma_find_char(seq![';'] + rest, ';');
        }
        let text = render_tags(s);
        assert(text =~= rt + (seq![';'] + rest));
        let f = find_char(text, ';');
        assert(f == rt.len());
        assert(text.subrange(0, f) =~= rt);
        assert(text.subrange(f + 1, text.len() as int) =~= rest);
        lemma_insert_tag_append(acc, e.0, e.1);
        let acc2 = acc + seq![(e.0, e.1)];
        assert(parse_tags_from(text, acc) == parse_tags_from(rest, insert_tag(acc, e.0, e.1)));
        assert forall|i: int, j: int| 0 <= i < j < tail.len() implies lex_lt(
            tail[i].0,
            tail[j].0,
        ) by {
            assert(tail[i] == s[i + 1]);
            assert(tail[j] == s[j + 1]);
        }
        assert forall|i: int| 0 <= i < tail.len() implies tag_entry_encodable(tail[i]) by {
            assert(tail[i] == s[i + 1]);
        }
        assert forall|i: int, j: int|
            0 <= i < acc2.len() && 0 <= j < tail.len() implies lex_lt(acc2[i].0, tail[j].0) by {
            assert(tail[j] == s[j + 1]);
            if i < acc.len() {
                assert(acc2[i] == acc[i]);
            } else {
                assert(acc2[i] == (e.0, e.1));
                assert(lex_lt(s[0].0, s[j + 1].0));
            }
        }
        lemma_parse_render_from(tail, acc2);
        assert(acc2 + tail =~= acc + s);
    }
}

/// Law: rendering a sorted list of representable tag entries and parsing
/// the text back reproduces exactly that list.
pub proof fn lemma_tags_round_trip(s: Seq<TagEntryView>)
    requires
        s.len() > 0,
        tags_sorted(s),
        tags_encodable(s),
    ensures
        parse_tags(render_tags(s)) == s,
{
    lemma_parse_render_from(s, Seq::empty());
    assert(Seq::<TagEntryView>::empty() + s =~= s);
}

} // verus!
