//! The sender identity segment of a record: `nick[!user][@host]`.

use vstd::prelude::*;
use vstd::string::StrSliceExecFns;
use vstd::string::StringExecFns;

use crate::text::find_char;
use crate::text::find_in_str;
use crate::text::lemma_find_char;
use crate::text::lemma_find_char_append;
use crate::text::lemma_no_char;
use crate::text::no_char;
use crate::text::push_char;
use crate::text::rest_after;
use crate::text::take_until;

verus! {

/// The sender of a message: a nick or server name, with optional user and
/// host parts.  A host is only meaningful together with a user.
pub struct Prefix {
    pub nick: String,
    pub user: Option<String>,
    pub host: Option<String>,
}

/// The three parts an identity segment denotes: everything before the
/// first `!` is the nick (the whole segment if there is no `!`); after the
/// `!`, everything before the first `@` is the user, and what follows that
/// `@` is the host.
pub open spec fn parse_prefix(s: Seq<char>) -> (Seq<char>, Option<Seq<char>>, Option<Seq<char>>) {
    if 0 <= find_char(s, '!') < s.len() {
        let rest = rest_after(s, '!');
        if 0 <= find_char(rest, '@') < rest.len() {
            (take_until(s, '!'), Some(take_until(rest, '@')), Some(rest_after(rest, '@')))
        } else {
            (take_until(s, '!'), Some(rest), None)
        }
    } else {
        (s, None, None)
    }
}

/// The wire text of an identity: `!user` follows the nick when a user is
/// present, and `@host` follows the user when a host is present too.
pub open spec fn render_prefix(
    nick: Seq<char>,
    user: Option<Seq<char>>,
    host: Option<Seq<char>>,
) -> Seq<char> {
    nick + (match user {
        Some(u) => seq!['!'] + u + (match host {
            Some(h) => seq!['@'] + h,
            None => Seq::<char>::empty(),
        }),
        None => Seq::<char>::empty(),
    })
}

impl Prefix {
    /// A host never stands without a user.
    pub open spec fn wf(&self) -> bool {
        self.host is Some ==> self.user is Some
    }

    /// Parses an identity segment into its parts.
    pub fn from_string(x: String) -> (p: Prefix)
        ensures
            (p.nick@, p.user.deep_view(), p.host.deep_view()) == parse_prefix(x@),
            p.wf(),
    {
        let n: usize = x.as_str().unicode_len();
        let f = find_in_str(x.as_str(), '!');
        proof {
            lemma_find_char(x@, '!');
        }
        if f < n {
            let nick = String::from_str(x.as_str().substring_char(0, f));
            let rest = String::from_str(x.as_str().substring_char(f + 1, n));
            proof {
                assert(nick@ =~= take_until(x@, '!'));
                assert(rest@ =~= rest_after(x@, '!'));
            }
            let m: usize = rest.as_str().unicode_len();
            let g = find_in_str(rest.as_str(), '@');
            proof {
                lemma_find_char(rest@, '@');
            }
            if g < m {
                let user = String::from_str(rest.as_str().substring_char(0, g));
                let host = String::from_str(rest.as_str().substring_char(g + 1, m));
                proof {
                    assert(user@ =~= take_until(rest@, '@'));
                    assert(host@ =~= rest_after(rest@, '@'));
                }
                Prefix { nick, user: Some(user), host: Some(host) }
            } else {
                Prefix { nick, user: Some(rest), host: None }
            }
        } else {
            Prefix { nick: x, user: None, host: None }
        }
    }

    /// Renders the identity back to its segment.  A host without a user is
    /// not rendered, as `render_prefix` states.
    pub fn to_string(&self) -> (r: String)
        ensures
            r@ == render_prefix(self.nick@, self.user.deep_view(), self.host.deep_view()),
    {
        let mut s = self.nick.clone();
        match &self.user {
            Some(u) => {
                push_char(&mut s, '!');
                s.append(u.as_str());
                match &self.host {
                    Some(h) => {
                        push_char(&mut s, '@');
                        s.append(h.as_str());
                        proof {
                            assert(s@ =~= render_prefix(
                                self.nick@,
                                self.user.deep_view(),
                                self.host.deep_view(),
                            ));
                        }
                    },
                    None => {
                        proof {
                            assert(s@ =~= render_prefix(
                                self.nick@,
                                self.user.deep_view(),
                                self.host.deep_view(),
                            ));
                        }
                    },
                }
            },
            None => {
                proof {
                    assert(s@ =~= render_prefix(
                        self.nick@,
                        self.user.deep_view(),
                        self.host.deep_view(),
                    ));
                }
            },
        }
        s
    }
}

/// The rendered identity contains no space when none of its parts does.
pub proof fn lemma_render_prefix_no_space(
    nick: Seq<char>,
    user: Option<Seq<char>>,
    host: Option<Seq<char>>,
)
    requires
        no_char(nick, ' '),
        user matches Some(u) ==> no_char(u, ' '),
        host matches Some(h) ==> no_char(h, ' '),
    ensures
        no_char(render_prefix(nick, user, host), ' '),
{
    let t = render_prefix(nick, user, host);
    assert forall|j: int| 0 <= j < t.len() implies t[j] != ' ' by {
        if j < nick.len() {
            assert(t[j] == nick[j]);
        } else {
            match user {
                Some(u) => {
                    let k = j - nick.len();
                    if k == 0 {
                        assert(t[j] == '!');
                    } else if k <= u.len() {
                        assert(t[j] == u[k - 1]);
                    } else {
                        match host {
                            Some(h) => {
                                if k == u.len() + 1 {
                                    assert(t[j] == '@');
                                } else {
                                    assert(t[j] == h[k - u.len() - 2]);
                                }
                            },
                            None => {},
                        }
                    }
                },
                None => {},
            }
        }
    }
}

/// Law: an identity whose nick is free of `!`, whose user is free of `@`,
/// and whose host only stands beside a user, parses back from its rendered
/// segment unchanged.
pub proof fn lemma_prefix_round_trip(
    nick: Seq<char>,
    user: Option<Seq<char>>,
    host: Option<Seq<char>>,
)
    requires
        host is Some ==> user is Some,
        no_char(nick, '!'),
        user matches Some(u) ==> no_char(u, '@'),
    ensures
        parse_prefix(render_prefix(nick, user, host)) == (nick, user, host),
{
    lemma_no_char(nick, '!');
    match user {
        None => {
            assert(render_prefix(nick, user, host) =~= nick);
        },
        Some(u) => {
            let x = match host {
                Some(h) => seq!['@'] + h,
                None => Seq::<char>::empty(),
            };
            let t = seq!['!'] + u + x;
            let text = render_prefix(nick, user, host);
            assert(text =~= nick + t);
            assert(t[0] == '!');
            assert(find_char(t, '!') == 0);
            lemma_find_char_append(nick, t, '!');
            let f = find_char(text, '!');
            assert(f == nick.len());
            assert(take_until(text, '!') =~= nick);
            let rest = rest_after(text, '!');
            assert(rest =~= u + x);
            lemma_no_char(u, '@');
            lemma_find_char_append(u, x, '@');
            match host {
                None => {
                    assert(x.len() == 0);
                    lemma_no_char(rest, '@');
                    assert(no_char(rest, '@')) by {
                        assert(rest =~= u);
                    }
                    assert(parse_prefix(text) == (nick, Some(rest), Option::<Seq<char>>::None));
                    assert(rest == u);
                },
                Some(h) => {
                    assert(x[0] == '@');
                    assert(find_char(x, '@') == 0);
                    let g = find_char(rest, '@');
                    assert(g == u.len());
                    assert(take_until(rest, '@') =~= u);
                    assert(rest_after(rest, '@') =~= h);
                },
            }
        },
    }
}

} // verus!
