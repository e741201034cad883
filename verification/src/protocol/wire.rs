//! The structured message record: tags, a parsed sender identity, the
//! command token and the parameter list.  Unlike the framer-level model,
//! decoding takes the record text as it stands and encoding emits no line
//! terminator.

use vstd::prelude::*;
use vstd::string::StrSliceExecFns;
use vstd::string::StringExecFns;

use crate::prefix::lemma_prefix_round_trip;
use crate::prefix::lemma_render_prefix_no_space;
use crate::prefix::parse_prefix;
use crate::prefix::render_prefix;
use crate::prefix::Prefix;
use crate::tags::lemma_render_tags_no_space;
use crate::tags::lemma_tags_round_trip;
use crate::tags::parse_tags;
use crate::tags::render_tags;
use crate::tags::tags_encodable;
use crate::tags::tags_sorted;
use crate::tags::Tags;
use crate::text::append_params;
use crate::text::find_char;
use crate::text::lemma_find_char;
use crate::text::lemma_find_char_append;
use crate::text::lemma_no_char;
use crate::text::lemma_params_round_trip;
use crate::text::lemma_render_params_head;
use crate::text::msg_after_source;
use crate::text::msg_after_tags;
use crate::text::msg_command;
use crate::text::msg_params_text;
use crate::text::msg_source_seg;
use crate::text::msg_tags_seg;
use crate::text::no_char;
use crate::text::params_body;
use crate::text::params_encodable;
use crate::text::parse_params;
use crate::text::push_char;
use crate::text::render_params;
use crate::text::rest_after;
use crate::text::split_first_at;
use crate::text::split_params;
use crate::text::strip_marked_segment;
use crate::text::take_until;

verus! {

/// One structured protocol record: optional tags, an optional parsed
/// sender identity, the command token, and the ordered parameters.
pub struct RawMsg {
    pub tags: Option<Tags>,
    pub source: Option<Prefix>,
    pub command: String,
    pub params: Vec<String>,
}

impl RawMsg {
    /// `self` is exactly the message that the record text `s` denotes.
    pub open spec fn is_parse_of(self, s: Seq<char>) -> bool {
        let s1 = msg_after_tags(s);
        let s2 = msg_after_source(s1);
        &&& (match self.tags {
            Some(tg) => msg_tags_seg(s) matches Some(seg) && tg@ == parse_tags(seg)
                && tags_sorted(tg@),
            None => msg_tags_seg(s) is None,
        })
        &&& (match self.source {
            Some(p) => msg_source_seg(s1) matches Some(seg) && (
            p.nick@,
            p.user.deep_view(),
            p.host.deep_view(),
            ) == parse_prefix(seg) && p.wf(),
            None => msg_source_seg(s1) is None,
        })
        &&& self.command@ == msg_command(s2)
        &&& self.params.deep_view() == parse_params(msg_params_text(s2))
    }

    /// The record text this message renders to: `@tags `, then
    /// `:source `, then the command, then the parameters.
    pub open spec fn render(self) -> Seq<char> {
        (match self.tags {
            Some(tg) => if tg@.len() > 0 {
                seq!['@'] + render_tags(tg@) + seq![' ']
            } else {
                Seq::<char>::empty()
            },
            None => Seq::<char>::empty(),
        }) + (match self.source {
            Some(p) => seq![':'] + render_prefix(p.nick@, p.user.deep_view(), p.host.deep_view())
                + seq![' '],
            None => Seq::<char>::empty(),
        }) + self.command@ + render_params(self.params.deep_view())
    }

    /// A message whose rendering parses back to itself: tags are sorted
    /// and representable, the identity parts contain no separators that
    /// would be re-read differently, the command holds no space and does
    /// not begin with a marker it did not come with, and only the last
    /// parameter may contain a space.
    pub open spec fn encodable(self) -> bool {
        &&& (match self.tags {
            Some(tg) => tg@.len() > 0 && tags_sorted(tg@) && tags_encodable(tg@),
            None => true,
        })
        &&& (match self.source {
            Some(p) => p.wf() && no_char(p.nick@, '!') && no_char(p.nick@, ' ') && (
            p.user matches Some(u) ==> no_char(u@, '@') && no_char(u@, ' ')) && (
            p.host matches Some(h) ==> no_char(h@, ' ')),
            None => true,
        })
        &&& no_char(self.command@, ' ')
        &&& (self.tags is None && self.source is None && self.command@.len() > 0
            ==> self.command@[0] != '@')
        &&& (self.source is None && self.command@.len() > 0 ==> self.command@[0] != ':')
        &&& params_encodable(self.params.deep_view())
    }

    /// A fresh message with neither tags nor source.
    pub fn new(command: String, optional_params: Option<Vec<String>>) -> (msg: RawMsg)
        ensures
            msg.tags is None,
            msg.source is None,
            msg.command@ == command@,
            msg.params.deep_view() == (match optional_params {
                Some(p) => p.deep_view(),
                None => Seq::<Seq<char>>::empty(),
            }),
    {
        let params: Vec<String> = match optional_params {
            Some(p) => p,
            None => Vec::new(),
        };
        RawMsg { tags: None, source: None, command, params }
    }

    /// Decodes one record body.  Decoding is permissive: it never fails,
    /// and yields whatever structure the split operations produce.
    pub fn from_string(x: String) -> (msg: RawMsg)
        ensures
            msg.is_parse_of(x@),
            msg.tags matches Some(tg) ==> tg.wf(),
            msg.source matches Some(p) ==> p.wf(),
    {
        let ghost tv = x@;
        let (tags, rest1): (Option<Tags>, String) = match strip_marked_segment(x.as_str(), '@') {
            Some(p) => (Some(Tags::from_string(p.0)), p.1),
            None => (None, x),
        };
        proof {
            assert(rest1@ == msg_after_tags(tv));
        }
        let (source, rest2): (Option<Prefix>, String) = match strip_marked_segment(
            rest1.as_str(),
            ':',
        ) {
            Some(p) => (Some(Prefix::from_string(p.0)), p.1),
            None => (None, rest1),
        };
        let (command, ptext) = split_first_at(rest2.as_str(), ' ');
        let params = split_params(ptext.as_str());
        RawMsg { tags, source, command, params }
    }

    /// Renders the message back to record text, without a line terminator.
    pub fn to_string(&self) -> (r: String)
        ensures
            r@ == self.render(),
    {
        let mut s = String::new();
        match &self.tags {
            Some(tg) => {
                match tg.to_string() {
                    Some(seg) => {
                        push_char(&mut s, '@');
                        s.append(seg.as_str());
                        push_char(&mut s, ' ');
                    },
                    None => {},
                }
            },
            None => {},
        }
        match &self.source {
            Some(p) => {
                let seg = p.to_string();
                push_char(&mut s, ':');
                s.append(seg.as_str());
                push_char(&mut s, ' ');
            },
            None => {},
        }
        s.append(self.command.as_str());
        append_params(&mut s, &self.params);
        proof {
            assert(s@ =~= self.render());
        }
        s
    }
}

/// Law: an encodable message survives the encode/decode round trip: the
/// text `m.render()` parses back to tags, source, command and parameters
/// equal to those of `m`.
#[verifier::rlimit(100)]
#[verifier::spinoff_prover]
pub proof fn lemma_message_round_trip(m: RawMsg)
    requires
        m.encodable(),
    ensures
        m.is_parse_of(m.render()),
{
    let text = m.render();
    let tp = match m.tags {
        Some(tg) => if tg@.len() > 0 {
            seq!['@'] + render_tags(tg@) + seq![' ']
        } else {
            Seq::<char>::empty()
        },
        None => Seq::<char>::empty(),
    };
    let sp = match m.source {
        Some(p) => seq![':'] + render_prefix(p.nick@, p.user.deep_view(), p.host.deep_view())
            + seq![' '],
        None => Seq::<char>::empty(),
    };
    let dv = m.params.deep_view();
    let cp = m.command@ + render_params(dv);
    assert(text =~= tp + (sp + cp));

    // The parameter text itself, prepared first since the no-tags and
    // no-source cases look into it.
    if dv.len() > 0 {
        lemma_render_params_head(dv);
    }

    // Step 1: the tag segment.
    match m.tags {
        Some(tg) => {
            let seg = render_tags(tg@);
            lemma_render_tags_no_space(tg@);
            assert(tp =~= seq!['@'] + (seg + seq![' ']));
            assert(text[0] == '@');
            assert(text.skip(1) =~= seg + (seq![' '] + (sp + cp)));
            lemma_no_char(seg, ' ');
            lemma_find_char_append(seg, seq![' '] + (sp + cp), ' ');
            assert((seq![' '] + (sp + cp))[0] == ' ');
            assert(find_char(seq![' '] + (sp + cp), ' ') == 0);
            let f = find_char(text.skip(1), ' ');
            assert(f == seg.len());
            assert(take_until(text.skip(1), ' ') =~= seg);
            assert(rest_after(text.skip(1), ' ') =~= sp + cp);
            lemma_tags_round_trip(tg@);
            assert(msg_tags_seg(text) == Some(seg));
            assert(parse_tags(seg) == tg@);
        },
        None => {
            assert(tp.len() == 0);
            assert(text =~= sp + cp);
            if text.len() > 0 {
                match m.source {
                    Some(p) => {
                        assert(text[0] == ':');
                    },
                    None => {
                        assert(text =~= cp);
                        if m.command@.len() > 0 {
                            assert(text[0] == m.command@[0]);
                            assert(text[0] != '@');
                        } else {
                            assert(dv.len() > 0);
                            assert(render_params(dv) == seq![' '] + params_body(dv));
                            assert(text =~= seq![' '] + params_body(dv));
                            assert(text[0] == ' ');
                        }
                    },
                }
            }
            assert(msg_tags_seg(text) is None);
            assert(msg_after_tags(text) == text);
        },
    }
    let s1 = msg_after_tags(text);
    assert(s1 =~= sp + cp);

    // Step 2: the source segment.
    match m.source {
        Some(p) => {
            let seg = render_prefix(p.nick@, p.user.deep_view(), p.host.deep_view());
            lemma_render_prefix_no_space(p.nick@, p.user.deep_view(), p.host.deep_view());
            assert(sp =~= seq![':'] + (seg + seq![' ']));
            assert(s1[0] == ':');
            assert(s1.skip(1) =~= seg + (seq![' '] + cp));
            lemma_no_char(seg, ' ');
            lemma_find_char_append(seg, seq![' '] + cp, ' ');
            assert((seq![' '] + cp)[0] == ' ');
            assert(find_char(seq![' '] + cp, ' ') == 0);
            let f = find_char(s1.skip(1), ' ');
            assert(f == seg.len());
            assert(take_until(s1.skip(1), ' ') =~= seg);
            assert(rest_after(s1.skip(1), ' ') =~= cp);
            lemma_prefix_round_trip(p.nick@, p.user.deep_view(), p.host.deep_view());
            assert(msg_source_seg(s1) == Some(seg));
        },
        None => {
            assert(sp.len() == 0);
            assert(s1 =~= cp);
            if s1.len() > 0 {
                if m.command@.len() > 0 {
                    assert(s1[0] == m.command@[0]);
                    assert(s1[0] != ':');
                } else {
                    assert(dv.len() > 0);
                    assert(render_params(dv) == seq![' '] + params_body(dv));
                    assert(s1 =~= seq![' '] + params_body(dv));
                    assert(s1[0] == ' ');
                }
            }
            assert(msg_source_seg(s1) is None);
            assert(msg_after_source(s1) == s1);
        },
    }
    let s2 = msg_after_source(s1);
    assert(s2 =~= cp);

    // Step 3: the command token and the parameters.
    lemma_no_char(m.command@, ' ');
    if dv.len() == 0 {
        assert(render_params(dv) == Seq::<char>::empty());
        assert(s2 =~= m.command@);
        lemma_find_char(s2, ' ');
        assert(find_char(s2, ' ') == s2.len()) by {
            lemma_no_char(s2, ' ');
            assert(no_char(s2, ' '));
        }
        assert(msg_command(s2) =~= m.command@);
        assert(msg_params_text(s2) =~= Seq::<char>::empty());
        assert(parse_params(Seq::<char>::empty()) =~= Seq::<Seq<char>>::empty());
    } else {
        assert(render_params(dv) == seq![' '] + params_body(dv));
        assert(s2 =~= m.command@ + (seq![' '] + params_body(dv)));
        lemma_find_char_append(m.command@, seq![' '] + params_body(dv), ' ');
        assert((seq![' '] + params_body(dv))[0] == ' ');
        assert(find_char(seq![' '] + params_body(dv), ' ') == 0);
        let f = find_char(s2, ' ');
        assert(f == m.command@.len());
        assert(take_until(s2, ' ') =~= m.command@);
        assert(rest_after(s2, ' ') =~= params_body(dv));
        lemma_params_round_trip(dv);
    }
    // Assemble the four clauses of `is_parse_of`.
    let w1 = msg_after_tags(text);
    let w2 = msg_after_source(w1);
    assert(match m.tags {
        Some(tg) => msg_tags_seg(text) matches Some(seg) && tg@ == parse_tags(seg)
            && tags_sorted(tg@),
        None => msg_tags_seg(text) is None,
    });
    assert(match m.source {
        Some(p) => msg_source_seg(w1) matches Some(seg) && (
        p.nick@,
        p.user.deep_view(),
        p.host.deep_view(),
        ) == parse_prefix(seg) && p.wf(),
        None => msg_source_seg(w1) is None,
    });
    assert(m.command@ == msg_command(w2));
    assert(m.params.deep_view() == parse_params(msg_params_text(w2)));
    assert(m.is_parse_of(text));
}

} // verus!
