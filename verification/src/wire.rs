//! The message model the stream framer works with: tags, a raw source
//! segment, the command token and the parameter list.  Decoding trims the
//! record text first; encoding appends the CRLF terminator.

use vstd::prelude::*;
use vstd::string::StrSliceExecFns;
use vstd::string::StringExecFns;

use crate::tags::parse_tags;
use crate::tags::render_tags;
use crate::tags::tags_sorted;
use crate::tags::Tags;
use crate::text::append_params;
use crate::text::msg_after_source;
use crate::text::msg_after_tags;
use crate::text::msg_command;
use crate::text::msg_params_text;
use crate::text::msg_source_seg;
use crate::text::msg_tags_seg;
use crate::text::parse_params;
use crate::text::push_char;
use crate::text::render_params;
use crate::text::split_first_at;
use crate::text::split_params;
use crate::text::strip_marked_segment;
use crate::text::trim_str;
use crate::text::trim_ws;

verus! {

/// One structured protocol record: optional tags, an optional raw source
/// segment, the command token, and the ordered parameters.
pub struct RawMsg {
    pub tags: Option<Tags>,
    pub source: Option<String>,
    pub command: String,
    pub params: Vec<String>,
}

impl RawMsg {
    /// `self` is exactly the message that the record text `s` denotes:
    /// `s` is trimmed, the marked tag and source segments are split off,
    /// then the command token and the parameter list follow.
    pub open spec fn is_parse_of(self, s: Seq<char>) -> bool {
        let t = trim_ws(s);
        let s1 = msg_after_tags(t);
        let s2 = msg_after_source(s1);
        &&& (match self.tags {
            Some(tg) => msg_tags_seg(t) matches Some(seg) && tg@ == parse_tags(seg)
                && tags_sorted(tg@),
            None => msg_tags_seg(t) is None,
        })
        &&& (match self.source {
            Some(src) => msg_source_seg(s1) matches Some(seg) && src@ == seg,
            None => msg_source_seg(s1) is None,
        })
        &&& self.command@ == msg_command(s2)
        &&& self.params.deep_view() == parse_params(msg_params_text(s2))
    }

    /// The record text this message renders to, without the line
    /// delimiter: `@tags `, then `:source `, then the command, then the
    /// parameters.
    pub open spec fn render(self) -> Seq<char> {
        (match self.tags {
            Some(tg) => if tg@.len() > 0 {
                seq!['@'] + render_tags(tg@) + seq![' ']
            } else {
                Seq::<char>::empty()
            },
            None => Seq::<char>::empty(),
        }) + (match self.source {
            Some(src) => seq![':'] + src@ + seq![' '],
            None => Seq::<char>::empty(),
        }) + self.command@ + render_params(self.params.deep_view())
    }

    /// Decodes one record body.  Decoding is permissive: it never fails,
    /// and yields whatever structure the split operations produce.
    pub fn from_string(x: String) -> (msg: RawMsg)
        ensures
            msg.is_parse_of(x@),
            msg.tags matches Some(tg) ==> tg.wf(),
    {
        let t = trim_str(x.as_str());
        let ghost tv = t@;
        let (tags, rest1): (Option<Tags>, String) = match strip_marked_segment(t.as_str(), '@') {
            Some(p) => (Some(Tags::from_string(p.0)), p.1),
            None => (None, t),
        };
        proof {
            assert(rest1@ == msg_after_tags(tv));
        }
        let (source, rest2): (Option<String>, String) = match strip_marked_segment(
            rest1.as_str(),
            ':',
        ) {
            Some(p) => (Some(p.0), p.1),
            None => (None, rest1),
        };
        let (command, ptext) = split_first_at(rest2.as_str(), ' ');
        let params = split_params(ptext.as_str());
        RawMsg { tags, source, command, params }
    }

    /// Renders the message back to record text.  No line delimiter is
    /// appended here: terminating the record is the framer's job.
    pub fn to_string(&self) -> (r: String)
        ensures
            r@ == self.render(),
    {
        let mut s = String::new();
        match &self.tags {
            Some(tg) => {
                match tg.to_string() {
                    Some(seg) => {
                        push_char(&mut s, '@');
                        s.append(seg.as_str());
                        push_char(&mut s, ' ');
                    },
                    None => {},
                }
            },
            None => {},
        }
        match &self.source {
            Some(src) => {
                push_char(&mut s, ':');
                s.append(src.as_str());
                push_char(&mut s, ' ');
            },
            None => {},
        }
        s.append(self.command.as_str());
        append_params(&mut s, &self.params);
        proof {
            assert(s@ =~= self.render());
        }
        s
    }
}

} // verus!
